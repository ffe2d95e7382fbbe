use piet_core::blocks::{to_blocktype, Hue, Lightness, Type};

#[test]
fn palette_light_red() {
    assert_eq!(
        to_blocktype(&[0xff, 0xc0, 0xc0]),
        Some(Type::Color(Lightness::Light, Hue::Red))
    );
}

#[test]
fn palette_normal_and_dark_entries() {
    assert_eq!(
        to_blocktype(&[0xff, 0x00, 0x00]),
        Some(Type::Color(Lightness::Normal, Hue::Red))
    );
    assert_eq!(
        to_blocktype(&[0xc0, 0xc0, 0x00]),
        Some(Type::Color(Lightness::Dark, Hue::Yellow))
    );
    assert_eq!(
        to_blocktype(&[0x00, 0xff, 0x00]),
        Some(Type::Color(Lightness::Normal, Hue::Green))
    );
    assert_eq!(
        to_blocktype(&[0xc0, 0xff, 0xff]),
        Some(Type::Color(Lightness::Light, Hue::Cyan))
    );
    assert_eq!(
        to_blocktype(&[0x00, 0x00, 0xc0]),
        Some(Type::Color(Lightness::Dark, Hue::Blue))
    );
    assert_eq!(
        to_blocktype(&[0xff, 0x00, 0xff]),
        Some(Type::Color(Lightness::Normal, Hue::Magenta))
    );
}

#[test]
fn palette_black_and_white() {
    assert_eq!(to_blocktype(&[0x00, 0x00, 0x00]), Some(Type::Black));
    assert_eq!(to_blocktype(&[0xff, 0xff, 0xff]), Some(Type::White));
}

#[test]
fn palette_rejects_unknown_triple() {
    assert_eq!(to_blocktype(&[1, 2, 3]), None);
    assert_eq!(to_blocktype(&[0xff, 0xc0, 0x00]), None);
}
