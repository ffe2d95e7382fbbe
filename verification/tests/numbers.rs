use piet_core::numfmt::{i32_to_string, parse_i32};

#[test]
fn renders_zero_and_positives() {
    assert_eq!(i32_to_string(0), "0");
    assert_eq!(i32_to_string(7), "7");
    assert_eq!(i32_to_string(1203), "1203");
    assert_eq!(i32_to_string(i32::MAX), "2147483647");
}

#[test]
fn renders_negatives() {
    assert_eq!(i32_to_string(-1), "-1");
    assert_eq!(i32_to_string(-450), "-450");
    assert_eq!(i32_to_string(i32::MIN), "-2147483648");
}

#[test]
fn parses_plain_and_signed_numbers() {
    assert_eq!(parse_i32(&b"42".to_vec()), Some(42));
    assert_eq!(parse_i32(&b"-7".to_vec()), Some(-7));
    assert_eq!(parse_i32(&b"+3".to_vec()), Some(3));
    assert_eq!(parse_i32(&b"007".to_vec()), Some(7));
}

#[test]
fn parses_with_surrounding_whitespace() {
    assert_eq!(parse_i32(&b" 42 \n".to_vec()), Some(42));
    assert_eq!(parse_i32(&b"\t-5\r\n".to_vec()), Some(-5));
}

#[test]
fn rejects_non_numbers() {
    assert_eq!(parse_i32(&b"".to_vec()), None);
    assert_eq!(parse_i32(&b"   ".to_vec()), None);
    assert_eq!(parse_i32(&b"-".to_vec()), None);
    assert_eq!(parse_i32(&b"+".to_vec()), None);
    assert_eq!(parse_i32(&b"12a".to_vec()), None);
    assert_eq!(parse_i32(&b"4 2".to_vec()), None);
    assert_eq!(parse_i32(&b"--4".to_vec()), None);
}

#[test]
fn parses_exactly_the_cell_range() {
    assert_eq!(parse_i32(&b"2147483647".to_vec()), Some(i32::MAX));
    assert_eq!(parse_i32(&b"2147483648".to_vec()), None);
    assert_eq!(parse_i32(&b"-2147483648".to_vec()), Some(i32::MIN));
    assert_eq!(parse_i32(&b"-2147483649".to_vec()), None);
    assert_eq!(parse_i32(&b"99999999999999999999".to_vec()), None);
}
