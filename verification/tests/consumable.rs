use comlib::io::{split_float, strip_prefix, Consumable, ParseError};

fn s(text: &str) -> Vec<char> {
    text.chars().collect()
}

#[test]
fn test_consume_usize() {
    assert_eq!(usize::consume(&s("123")), Ok((123, &s("")[..])));
    assert_eq!(usize::consume(&s("123 ")), Ok((123, &s(" ")[..])));
    assert_eq!(usize::consume(&s("123 asdf")), Ok((123, &s(" asdf")[..])));
    assert_eq!(usize::consume(&s("123asdf")), Ok((123, &s("asdf")[..])));
    assert_eq!(usize::consume(&s("123 1234")), Ok((123, &s(" 1234")[..])));
    assert!(usize::consume(&s("ads")).is_err());
    assert!(usize::consume(&s("ads adsf")).is_err());
    assert!(usize::consume(&s("ads 123")).is_err());
    assert!(usize::consume(&s("")).is_err());
    assert!(usize::consume(&s("a123 1234")).is_err());

    assert_eq!(usize::consume(&s("+123")), Ok((123, &s("")[..])));
    assert_eq!(usize::consume(&s("+123 ")), Ok((123, &s(" ")[..])));
}

#[test]
fn test_consume_isize() {
    assert_eq!(isize::consume(&s("123")), Ok((123, &s("")[..])));
    assert_eq!(isize::consume(&s("123 ")), Ok((123, &s(" ")[..])));
    assert_eq!(isize::consume(&s("123 asdf")), Ok((123, &s(" asdf")[..])));
    assert_eq!(isize::consume(&s("123asdf")), Ok((123, &s("asdf")[..])));
    assert_eq!(isize::consume(&s("123 1234")), Ok((123, &s(" 1234")[..])));
    assert!(isize::consume(&s("ads")).is_err());
    assert!(isize::consume(&s("ads adsf")).is_err());
    assert!(isize::consume(&s("ads 123")).is_err());
    assert!(isize::consume(&s("")).is_err());
    assert!(isize::consume(&s("a123 1234")).is_err());

    assert_eq!(isize::consume(&s("-123")), Ok((-123, &s("")[..])));
    assert_eq!(isize::consume(&s("-123 ")), Ok((-123, &s(" ")[..])));
    assert_eq!(isize::consume(&s("-123 asdf")), Ok((-123, &s(" asdf")[..])));
    assert_eq!(isize::consume(&s("-123asdf")), Ok((-123, &s("asdf")[..])));
    assert_eq!(isize::consume(&s("-123 1234")), Ok((-123, &s(" 1234")[..])));
    assert_eq!(isize::consume(&s("-123-1234")), Ok((-123, &s("-1234")[..])));
    assert!(isize::consume(&s("-ads")).is_err());
    assert!(isize::consume(&s("-ads adsf")).is_err());
    assert!(isize::consume(&s("-ads 123")).is_err());
    assert!(isize::consume(&s("")).is_err());
    assert!(isize::consume(&s("-")).is_err());
    assert!(isize::consume(&s("-a123 1234")).is_err());

    assert_eq!(isize::consume(&s("+123")), Ok((123, &s("")[..])));
    assert_eq!(isize::consume(&s("+123 ")), Ok((123, &s(" ")[..])));
}

#[test]
fn test_consume_char() {
    assert_eq!(char::consume(&s("123")), Ok(('1', &s("23")[..])));
    assert_eq!(char::consume(&s(" 123")), Ok((' ', &s("123")[..])));
    assert_eq!(char::consume(&s("a")), Ok(('a', &s("")[..])));
    assert!(char::consume(&s("")).is_err());
}

#[test]
fn test_consume_string() {
    assert_eq!(Vec::<char>::consume(&s("123")), Ok((s("123"), &s("")[..])));
    assert_eq!(Vec::<char>::consume(&s("123 ")), Ok((s("123 "), &s("")[..])));
    assert_eq!(
        Vec::<char>::consume(&s("hello world!")),
        Ok((s("hello world!"), &s("")[..]))
    );
}

#[test]
fn consume_reports_each_error() {
    assert_eq!(u64::consume(&s("")), Err(ParseError::Empty));
    assert_eq!(u64::consume(&s("-1")), Err(ParseError::Empty));
    assert_eq!(u64::consume(&s("+")), Err(ParseError::InvalidDigit));
    assert_eq!(i64::consume(&s("-x")), Err(ParseError::InvalidDigit));
    assert_eq!(
        u64::consume(&s("18446744073709551616")),
        Err(ParseError::PosOverflow)
    );
    assert_eq!(
        u64::consume(&s("18446744073709551615")),
        Ok((u64::MAX, &s("")[..]))
    );
    assert_eq!(
        i64::consume(&s("-9223372036854775809")),
        Err(ParseError::NegOverflow)
    );
    assert_eq!(
        i64::consume(&s("-9223372036854775808 ")),
        Ok((i64::MIN, &s(" ")[..]))
    );
    assert_eq!(
        i64::consume(&s("9223372036854775808")),
        Err(ParseError::PosOverflow)
    );
    assert_eq!(i64::consume(&s("007")), Ok((7, &s("")[..])));
}

#[test]
fn strip_prefix_takes_the_prefix_away() {
    assert_eq!(strip_prefix(&s("hello world"), &s("hello ")), Some(&s("world")[..]));
    assert_eq!(strip_prefix(&s("hello"), &s("")), Some(&s("hello")[..]));
    assert_eq!(strip_prefix(&s("hello"), &s("hello")), Some(&s("")[..]));
    assert_eq!(strip_prefix(&s("hello"), &s("help")), None);
    assert_eq!(strip_prefix(&s("he"), &s("hello")), None);
}

/// A number with a fraction, read from the start of the text that the
/// library finds for it.
fn consume_f32(input: &str) -> Result<(f32, String), std::num::ParseFloatError> {
    let chars = s(input);
    let (token, rest) = split_float(&chars);
    let value = token.iter().collect::<String>().parse::<f32>()?;
    Ok((value, rest.iter().collect()))
}

fn float(value: f32, rest: &str) -> Result<(f32, String), std::num::ParseFloatError> {
    Ok((value, rest.to_string()))
}

#[test]
fn test_consume_f32() {
    assert_eq!(consume_f32("123"), float(123., ""));
    assert_eq!(consume_f32("123 "), float(123., " "));
    assert_eq!(consume_f32("123.4"), float(123.4, ""));
    assert_eq!(consume_f32("-123.4"), float(-123.4, ""));
    assert_eq!(consume_f32("-123"), float(-123., ""));
    assert_eq!(consume_f32("0123.4"), float(123.4, ""));
    assert_eq!(consume_f32("-0123.4"), float(-123.4, ""));
    assert_eq!(consume_f32("123.4.5"), float(123.4, ".5"));
    assert_eq!(consume_f32(".4.5"), float(0.4, ".5"));

    assert_eq!(consume_f32("+123.4"), float(123.4, ""));
    assert_eq!(consume_f32("+123"), float(123., ""));
}
