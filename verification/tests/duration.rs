use porors::time::parse_as_sec;
use porors::time::ParseError;

#[test]
fn parse_as_sec_test() {
    let h = 5 * 3600;
    let m = 3 * 60;
    let s = 8;
    let sec = h + m + s;

    let sec_generated = parse_as_sec("5h3m8s").unwrap();
    assert_eq!(sec, sec_generated)
}

#[test]
fn parses_all_three_units() {
    assert_eq!(parse_as_sec("5h3m8s"), Ok(18188));
}

#[test]
fn empty_text_is_zero_seconds() {
    assert_eq!(parse_as_sec(""), Ok(0));
}

#[test]
fn seconds_alone() {
    assert_eq!(parse_as_sec("90s"), Ok(90));
}

#[test]
fn hours_alone() {
    assert_eq!(parse_as_sec("2h"), Ok(7200));
}

#[test]
fn minutes_alone() {
    assert_eq!(parse_as_sec("15m"), Ok(900));
}

#[test]
fn hours_and_seconds_without_minutes() {
    assert_eq!(parse_as_sec("1h1s"), Ok(3601));
}

#[test]
fn letter_in_front_of_a_unit_is_refused() {
    assert_eq!(parse_as_sec("5x3m"), Err(ParseError::Number(String::from("5x3"))));
}

#[test]
fn unit_without_a_number_is_refused() {
    assert_eq!(parse_as_sec("h"), Err(ParseError::Number(String::new())));
    assert_eq!(parse_as_sec("5hm"), Err(ParseError::Number(String::new())));
}

#[test]
fn units_out_of_order_are_refused() {
    assert_eq!(parse_as_sec("3m5h"), Err(ParseError::Number(String::from("3m5"))));
    assert_eq!(parse_as_sec("5s3m"), Err(ParseError::Number(String::from("5s3"))));
}

#[test]
fn text_without_a_unit_is_zero_seconds() {
    assert_eq!(parse_as_sec("42"), Ok(0));
    assert_eq!(parse_as_sec("xyz"), Ok(0));
}

#[test]
fn text_after_the_seconds_is_not_read() {
    assert_eq!(parse_as_sec("8sXYZ"), Ok(8));
    assert_eq!(parse_as_sec("1h2m3s4"), Ok(3723));
}

#[test]
fn text_after_a_second_unit_of_one_kind_is_not_read() {
    assert_eq!(parse_as_sec("5h3h"), Ok(18000));
    assert_eq!(parse_as_sec("5h3h7m"), Ok(18000));
}

#[test]
fn plus_sign_and_leading_zeros_are_read() {
    assert_eq!(parse_as_sec("+5h"), Ok(18000));
    assert_eq!(parse_as_sec("007s"), Ok(7));
}

#[test]
fn minus_sign_and_blanks_are_refused() {
    assert_eq!(parse_as_sec("-5h"), Err(ParseError::Number(String::from("-5"))));
    assert_eq!(parse_as_sec(" 5h"), Err(ParseError::Number(String::from(" 5"))));
    assert_eq!(parse_as_sec("+h"), Err(ParseError::Number(String::from("+"))));
    assert_eq!(parse_as_sec("++5h"), Err(ParseError::Number(String::from("++5"))));
}

#[test]
fn largest_number_of_seconds() {
    assert_eq!(parse_as_sec("18446744073709551615s"), Ok(u64::MAX));
}

#[test]
fn number_beyond_64_bits_is_refused() {
    assert_eq!(
        parse_as_sec("18446744073709551616s"),
        Err(ParseError::Number(String::from("18446744073709551616")))
    );
}

#[test]
fn duration_beyond_64_bits_is_refused() {
    assert_eq!(parse_as_sec("18446744073709551615h"), Err(ParseError::Overflow));
    assert_eq!(parse_as_sec("18446744073709551615s1m"), Err(ParseError::Number(String::from("18446744073709551615s1"))));
    assert_eq!(parse_as_sec("1m18446744073709551615s"), Err(ParseError::Overflow));
}

#[test]
fn letters_beyond_ascii_are_kept_in_the_error() {
    assert_eq!(parse_as_sec("\u{e9}5h"), Err(ParseError::Number(String::from("\u{e9}5"))));
}
