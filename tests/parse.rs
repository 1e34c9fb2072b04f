use minesweeper::parse::parse_number;

#[test]
fn parses_decimal_numbers() {
    assert_eq!(parse_number(b"7"), Some(7));
    assert_eq!(parse_number(b"042"), Some(42));
    assert_eq!(parse_number(b"18446744073709551615"), Some(usize::MAX));
}

#[test]
fn rejects_what_is_not_a_number() {
    assert_eq!(parse_number(b""), None);
    assert_eq!(parse_number(b"x"), None);
    assert_eq!(parse_number(b"3a"), None);
    assert_eq!(parse_number(b"-1"), None);
    assert_eq!(parse_number(b"18446744073709551616"), None);
    assert_eq!(parse_number(b"99999999999999999999999x"), None);
}
