use weaveconfig::template_file::integer::{parse_integer, ParseIntegerError};

#[test]
fn test_positive_integer() {
    let (number, remaining) = parse_integer("12345abc").unwrap();
    assert_eq!(number, 12345);
    assert_eq!(remaining, "abc");
}

#[test]
fn test_negative_integer() {
    let (number, remaining) = parse_integer("-6789xyz").unwrap();
    assert_eq!(number, -6789);
    assert_eq!(remaining, "xyz");
}

#[test]
fn test_integer_with_plus_sign() {
    let (number, remaining) = parse_integer("+42 remaining").unwrap();
    assert_eq!(number, 42);
    assert_eq!(remaining, " remaining");
}

#[test]
fn test_no_digits() {
    assert_eq!(parse_integer("abc123"), Err(ParseIntegerError::NoDigits));
}

#[test]
fn test_overflow() {
    assert_eq!(parse_integer("2147483648"), Err(ParseIntegerError::Overflow));
}

#[test]
fn integer_test_empty_input() {
    assert_eq!(parse_integer(""), Err(ParseIntegerError::NoDigits));
}

#[test]
fn test_only_sign() {
    assert_eq!(parse_integer("+"), Err(ParseIntegerError::NoDigits));
}

#[test]
fn test_invalid_character() {
    let (number, remaining) = parse_integer("12a34").unwrap();
    assert_eq!(number, 12);
    assert_eq!(remaining, "a34");
}

#[test]
fn test_zero() {
    let (number, remaining) = parse_integer("0remaining").unwrap();
    assert_eq!(number, 0);
    assert_eq!(remaining, "remaining");
}

#[test]
fn test_negative_zero() {
    let (number, remaining) = parse_integer("-0abc").unwrap();
    assert_eq!(number, 0);
    assert_eq!(remaining, "abc");
}

#[test]
fn integer_limits() {
    assert_eq!(parse_integer("2147483647"), Ok((2147483647, "")));
    assert_eq!(parse_integer("-2147483648x"), Ok((-2147483648, "x")));
    assert_eq!(parse_integer("-2147483649"), Err(ParseIntegerError::Overflow));
    assert_eq!(parse_integer("99999999999999999999999"), Err(ParseIntegerError::Overflow));
}
