use ppm::numbers::{find_number, parse_number, push_decimal, ParseError};
use ppm::text::filter_start_espace;

#[test]
fn test_filter_start_espace() {
    let mut test_str = "   a".to_string();
    filter_start_espace(&mut test_str);
    assert_eq!("a", test_str);
}

#[test]
fn test_find_number() -> Result<(), ParseError> {
    let mut test_str = "3 41 5".to_string();
    assert_eq!(3, find_number(&mut test_str)?);
    assert_eq!(41, find_number(&mut test_str)?);

    assert_eq!(5, find_number(&mut test_str)?);

    Ok(())
}

#[test]
fn find_number_leaves_the_rest_of_the_buffer() {
    let mut buffer = "3 41 5".to_string();
    assert_eq!(Ok(3), find_number(&mut buffer));
    assert_eq!("41 5", buffer);
    assert_eq!(Ok(41), find_number(&mut buffer));
    assert_eq!("5", buffer);
    assert_eq!(Ok(5), find_number(&mut buffer));
    assert_eq!("", buffer);
    assert_eq!(Err(ParseError::Empty), find_number(&mut buffer));
    assert_eq!("", buffer);
}

#[test]
fn find_number_fails_on_letters() {
    let mut buffer = "abc".to_string();
    assert_eq!(Err(ParseError::InvalidDigit), find_number(&mut buffer));
    assert_eq!("abc", buffer);

    let mut spaced = "abc 12".to_string();
    assert_eq!(Err(ParseError::InvalidDigit), find_number(&mut spaced));
    assert_eq!("abc 12", spaced);
}

#[test]
fn find_number_fails_on_a_leading_space() {
    let mut buffer = " 12".to_string();
    assert_eq!(Err(ParseError::Empty), find_number(&mut buffer));
    assert_eq!(" 12", buffer);
}

#[test]
fn find_number_skips_every_space_behind_the_number() {
    let mut buffer = "12    34".to_string();
    assert_eq!(Ok(12), find_number(&mut buffer));
    assert_eq!("34", buffer);

    let mut trailing = "7   ".to_string();
    assert_eq!(Ok(7), find_number(&mut trailing));
    assert_eq!("", trailing);
}

#[test]
fn find_number_splits_at_spaces_only() {
    let mut tab = "1\t2".to_string();
    assert_eq!(Err(ParseError::InvalidDigit), find_number(&mut tab));
    assert_eq!("1\t2", tab);

    let mut comment = "43#c".to_string();
    assert_eq!(Err(ParseError::InvalidDigit), find_number(&mut comment));
}

#[test]
fn find_number_counts_characters_not_bytes() {
    let mut buffer = "é 7".to_string();
    assert_eq!(Err(ParseError::InvalidDigit), find_number(&mut buffer));
    assert_eq!("é 7", buffer);

    let mut behind = "7 é".to_string();
    assert_eq!(Ok(7), find_number(&mut behind));
    assert_eq!("é", behind);
}

#[test]
fn find_number_reports_overflow() {
    let mut buffer = "99999999999999999999999999 1".to_string();
    assert_eq!(Err(ParseError::Overflow), find_number(&mut buffer));
    assert_eq!("99999999999999999999999999 1", buffer);
}

#[test]
fn parse_number_reads_digits() {
    assert_eq!(Ok(0), parse_number("0"));
    assert_eq!(Ok(7), parse_number("7"));
    assert_eq!(Ok(41), parse_number("41"));
    assert_eq!(Ok(1234567890), parse_number("1234567890"));
}

#[test]
fn parse_number_takes_leading_zeros() {
    assert_eq!(Ok(7), parse_number("007"));
    assert_eq!(Ok(0), parse_number("000"));
    assert_eq!(Ok(10), parse_number("010"));
}

#[test]
fn parse_number_takes_no_sign() {
    assert_eq!(Err(ParseError::InvalidDigit), parse_number("+5"));
    assert_eq!(Err(ParseError::InvalidDigit), parse_number("-5"));
    assert_eq!(Err(ParseError::InvalidDigit), parse_number("+"));
    assert_eq!(Err(ParseError::InvalidDigit), parse_number("-"));
    assert_eq!(Err(ParseError::InvalidDigit), parse_number("+0"));
}

#[test]
fn parse_number_each_error() {
    assert_eq!(Err(ParseError::Empty), parse_number(""));
    assert_eq!(Err(ParseError::InvalidDigit), parse_number("1+"));
    assert_eq!(Err(ParseError::InvalidDigit), parse_number(" 1"));
    assert_eq!(Err(ParseError::InvalidDigit), parse_number("1 "));
    assert_eq!(Err(ParseError::InvalidDigit), parse_number("12a"));
    assert_eq!(Err(ParseError::InvalidDigit), parse_number("a12"));
    assert_eq!(Err(ParseError::InvalidDigit), parse_number("1_000"));
    assert_eq!(Err(ParseError::InvalidDigit), parse_number("1.5"));
    assert_eq!(Err(ParseError::InvalidDigit), parse_number("٣"));
    assert_eq!(Err(ParseError::Overflow), parse_number("340282366920938463463374607431768211456"));
}

#[test]
fn parse_number_a_bad_character_outweighs_the_size() {
    assert_eq!(Err(ParseError::InvalidDigit), parse_number("99999999999999999999999999x"));
    assert_eq!(Err(ParseError::InvalidDigit), parse_number("x99999999999999999999999999"));
}

#[test]
fn parse_number_at_the_limit() {
    let largest = format!("{}", usize::MAX);
    assert_eq!(Ok(usize::MAX), parse_number(&largest));
    let beyond = format!("{}", usize::MAX as u128 + 1);
    assert_eq!(Err(ParseError::Overflow), parse_number(&beyond));
    let last_digit = format!("{}", usize::MAX as u128 + 4);
    assert_eq!(Err(ParseError::Overflow), parse_number(&last_digit));
    let padded = format!("000{}", usize::MAX);
    assert_eq!(Ok(usize::MAX), parse_number(&padded));
    let ten_times = format!("{}0", usize::MAX);
    assert_eq!(Err(ParseError::Overflow), parse_number(&ten_times));
}

#[test]
fn push_decimal_writes_the_number_behind_the_text() {
    let mut text = String::from("n=");
    push_decimal(&mut text, 0);
    assert_eq!("n=0", text);
    push_decimal(&mut text, 10);
    assert_eq!("n=010", text);
    push_decimal(&mut text, 9);
    assert_eq!("n=0109", text);

    let mut largest = String::new();
    push_decimal(&mut largest, usize::MAX);
    assert_eq!(format!("{}", usize::MAX), largest);
}

#[test]
fn push_decimal_then_parse_number_gives_the_number_back() {
    for n in [0usize, 1, 9, 10, 11, 99, 100, 255, 256, 65535, 1000000, usize::MAX] {
        let mut text = String::new();
        push_decimal(&mut text, n);
        assert_eq!(Ok(n), parse_number(&text));
    }
}

#[test]
fn filter_start_espace_edge_cases() {
    let mut none = "a  b ".to_string();
    filter_start_espace(&mut none);
    assert_eq!("a  b ", none);

    let mut only = "    ".to_string();
    filter_start_espace(&mut only);
    assert_eq!("", only);

    let mut empty = String::new();
    filter_start_espace(&mut empty);
    assert_eq!("", empty);

    let mut tab = " \t a".to_string();
    filter_start_espace(&mut tab);
    assert_eq!("\t a", tab);
}
