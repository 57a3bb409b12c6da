use eck::literal::parse_i32;

#[test]
fn parses_plain_digits() {
    assert_eq!(parse_i32("42"), Some(42));
    assert_eq!(parse_i32("0"), Some(0));
    assert_eq!(parse_i32("007"), Some(7));
}

#[test]
fn parses_signs() {
    assert_eq!(parse_i32("-42"), Some(-42));
    assert_eq!(parse_i32("+42"), Some(42));
    assert_eq!(parse_i32("-0"), Some(0));
}

#[test]
fn parses_the_ends_of_the_range() {
    assert_eq!(parse_i32("2147483647"), Some(i32::MAX));
    assert_eq!(parse_i32("-2147483648"), Some(i32::MIN));
    assert_eq!(parse_i32("+2147483647"), Some(i32::MAX));
    assert_eq!(parse_i32("00000000000000000002147483647"), Some(i32::MAX));
}

#[test]
fn rejects_numbers_out_of_range() {
    assert_eq!(parse_i32("2147483648"), None);
    assert_eq!(parse_i32("-2147483649"), None);
    assert_eq!(parse_i32("99999999999999999999999999999999"), None);
    assert_eq!(parse_i32("-99999999999999999999999999999999"), None);
}

#[test]
fn rejects_text_that_is_no_number() {
    assert_eq!(parse_i32(""), None);
    assert_eq!(parse_i32("+"), None);
    assert_eq!(parse_i32("-"), None);
    assert_eq!(parse_i32("--1"), None);
    assert_eq!(parse_i32("+-1"), None);
    assert_eq!(parse_i32("1-"), None);
    assert_eq!(parse_i32(" 1"), None);
    assert_eq!(parse_i32("1 "), None);
    assert_eq!(parse_i32("12a"), None);
    assert_eq!(parse_i32("0x10"), None);
    assert_eq!(parse_i32("1.0"), None);
    assert_eq!(parse_i32("\u{0663}"), None);
    assert_eq!(parse_i32("\u{ff11}"), None);
}

#[test]
fn agrees_with_the_standard_parser() {
    let texts = [
        "", "0", "-0", "+0", "1", "-1", "+1", "10", "2147483647", "2147483648", "-2147483648",
        "-2147483649", "4294967296", "00012", "-00012", "+", "-", "a", "1a", "a1", "1 2", "١٢",
        "12345678901234567890", "++1", "1+1",
    ];
    for text in texts.iter() {
        assert_eq!(parse_i32(text), text.parse::<i32>().ok(), "text {:?}", text);
    }
}
