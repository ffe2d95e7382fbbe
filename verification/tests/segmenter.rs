use piet_core::blocks::{Block, Blocks, DecodeError, Hue, Lightness, Type};

const NR: (u8, u8, u8) = (0xff, 0x00, 0x00);
const W: (u8, u8, u8) = (0xff, 0xff, 0xff);
const K: (u8, u8, u8) = (0x00, 0x00, 0x00);

fn red_white_row() -> Blocks {
    Blocks::from_grid(2, 1, 1, &vec![NR, W]).unwrap()
}

#[test]
fn segments_two_blocks() {
    let bs = red_white_row();
    assert_eq!(bs.len(), 2);
    assert_eq!(bs.count_codels(), 2);
    let red = bs.find_block_from_index(&(0, 0)).unwrap();
    assert_eq!(red.t, Type::Color(Lightness::Normal, Hue::Red));
    assert_eq!(red.coords.len(), 1);
    let white = bs.find_block_from_index(&(1, 0)).unwrap();
    assert_eq!(white.t, Type::White);
    assert!(bs.find_block_from_index(&(2, 0)).is_none());
    assert!(bs.find_block_from_index(&(0, 1)).is_none());
}

#[test]
fn merges_regions_joined_by_a_late_coordinate() {
    // column-major scanning meets the right-hand red column before it knows
    // it joins the left region, so the final coordinate is an articulation
    // point that must merge two red blocks into one
    let pixels = vec![
        NR, W, NR, //
        NR, NR, NR,
    ];
    let bs = Blocks::from_grid(3, 2, 1, &pixels).unwrap();
    assert_eq!(bs.len(), 2);
    let a = bs.find_block_from_index(&(0, 0)).unwrap();
    assert_eq!(a.t, Type::Color(Lightness::Normal, Hue::Red));
    assert_eq!(a.coords.len(), 5);
    let b = bs.find_block_from_index(&(2, 0)).unwrap();
    assert_eq!(b.coords.len(), 5);
    let w = bs.find_block_from_index(&(1, 0)).unwrap();
    assert_eq!(w.t, Type::White);
    assert_eq!(w.coords.len(), 1);
}

#[test]
fn three_way_merge_at_one_coordinate() {
    // three separate red columns, tied together by the bottom row; the last
    // sampled coordinate must fold three existing blocks into one
    let pixels = vec![
        NR, K, NR, K, NR, //
        NR, NR, NR, NR, NR,
    ];
    let bs = Blocks::from_grid(5, 2, 1, &pixels).unwrap();
    // one merged red region and two black cells
    assert_eq!(bs.len(), 3);
    let red = bs.find_block_from_index(&(0, 0)).unwrap();
    assert_eq!(red.coords.len(), 8);
}

#[test]
fn partition_every_coordinate_in_exactly_one_block() {
    let pixels = vec![
        NR, W, NR, //
        NR, NR, NR,
    ];
    let bs = Blocks::from_grid(3, 2, 1, &pixels).unwrap();
    for x in 0..3 {
        for y in 0..2 {
            let c = (x, y);
            assert!(bs.find_block_from_index(&c).is_some());
            let mut owners = 0;
            for b in &bs.blocks {
                if b.contains_coord(c) {
                    owners += 1;
                }
            }
            assert_eq!(owners, 1);
        }
    }
}

#[test]
fn every_block_is_four_connected() {
    let pixels = vec![
        NR, W, NR, //
        NR, NR, NR,
    ];
    let bs = Blocks::from_grid(3, 2, 1, &pixels).unwrap();
    for b in &bs.blocks {
        // walk the block from its first coordinate; every coordinate must
        // be reached through same-block 4-adjacency
        let mut seen = vec![b.coords[0]];
        let mut frontier = vec![b.coords[0]];
        while let Some((x, y)) = frontier.pop() {
            for n in [(x - 1, y), (x + 1, y), (x, y - 1), (x, y + 1)] {
                if b.contains_coord(n) && !seen.contains(&n) {
                    seen.push(n);
                    frontier.push(n);
                }
            }
        }
        assert_eq!(seen.len(), b.coords.len());
    }
}

#[test]
fn rejects_unknown_color() {
    let pixels = vec![NR, (1, 2, 3)];
    match Blocks::from_grid(2, 1, 1, &pixels) {
        Err(DecodeError::InvalidColor) => {}
        _ => panic!("expected an invalid-color failure"),
    }
}

#[test]
fn samples_at_codel_size_steps() {
    // 4 by 2 pixels at codel size 2: only (0,0) and (2,0) are sampled
    let pixels = vec![
        NR, NR, W, W, //
        NR, NR, W, W,
    ];
    let bs = Blocks::from_grid(4, 2, 2, &pixels).unwrap();
    assert_eq!(bs.len(), 2);
    assert_eq!(bs.count_codels(), 2);
    assert!(bs.find_block_from_index(&(2, 0)).is_some());
    assert!(bs.find_block_from_index(&(1, 0)).is_none());
}

#[test]
fn empty_image_has_no_blocks() {
    let bs = Blocks::from_grid(0, 0, 1, &vec![]).unwrap();
    assert_eq!(bs.len(), 0);
    assert_eq!(bs.count_codels(), 0);
}

#[test]
fn is_next_to_checks_codel_size_offsets() {
    let b = Block { t: Type::White, coords: vec![(2, 2)] };
    assert!(b.is_next_to((4, 2), 2));
    assert!(b.is_next_to((2, 0), 2));
    assert!(b.is_next_to((0, 2), 2));
    assert!(b.is_next_to((2, 4), 2));
    assert!(!b.is_next_to((3, 2), 2));
    assert!(!b.is_next_to((4, 4), 2));
    assert!(!b.is_next_to((2, 2), 2));
}

#[test]
fn contains_coord_matches_members() {
    let b = Block { t: Type::Black, coords: vec![(0, 0), (1, 0)] };
    assert!(b.contains_coord((0, 0)));
    assert!(b.contains_coord((1, 0)));
    assert!(!b.contains_coord((0, 1)));
}
