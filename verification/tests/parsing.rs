use piet::numparse::parse_number;

#[test]
fn parses_plain_decimals() {
    assert_eq!(parse_number(b"0"), Some(0));
    assert_eq!(parse_number(b"42"), Some(42));
    assert_eq!(parse_number(b"007"), Some(7));
}

#[test]
fn parses_signs() {
    assert_eq!(parse_number(b"-17"), Some(-17));
    assert_eq!(parse_number(b"+5"), Some(5));
    assert_eq!(parse_number(b"-0"), Some(0));
}

#[test]
fn trims_trailing_whitespace_only() {
    assert_eq!(parse_number(b"42\n"), Some(42));
    assert_eq!(parse_number(b"42 \t\r\n"), Some(42));
    assert_eq!(parse_number(b" 42"), None);
    assert_eq!(parse_number(b"4 2"), None);
}

#[test]
fn rejects_malformed_input() {
    assert_eq!(parse_number(b""), None);
    assert_eq!(parse_number(b"\n"), None);
    assert_eq!(parse_number(b"-"), None);
    assert_eq!(parse_number(b"+"), None);
    assert_eq!(parse_number(b"12a"), None);
    assert_eq!(parse_number(b"a12"), None);
    assert_eq!(parse_number(b"1.5"), None);
    assert_eq!(parse_number(b"--3"), None);
}

#[test]
fn handles_the_64_bit_boundaries() {
    assert_eq!(parse_number(b"9223372036854775807"), Some(i64::MAX));
    assert_eq!(parse_number(b"-9223372036854775808"), Some(i64::MIN));
    assert_eq!(parse_number(b"9223372036854775808"), None);
    assert_eq!(parse_number(b"-9223372036854775809"), None);
    assert_eq!(parse_number(b"99999999999999999999999"), None);
}

#[test]
fn leading_zeros_do_not_overflow() {
    assert_eq!(parse_number(b"000000000000000000000001"), Some(1));
    assert_eq!(parse_number(b"0000000000000000000000000"), Some(0));
}
