use schoenerd::input::{FloatSyntaxError, InteractionField, ParseFieldErrorKind};

fn invalid() -> Result<u64, ParseFieldErrorKind> {
    Err(ParseFieldErrorKind::ParseFloat(FloatSyntaxError::Invalid))
}

#[test]
fn whole_numbers_are_counts() {
    assert_eq!(InteractionField::parse("0"), Ok(0));
    assert_eq!(InteractionField::parse("3"), Ok(3));
    assert_eq!(InteractionField::parse("+7"), Ok(7));
    assert_eq!(InteractionField::parse("0042"), Ok(42));
    assert_eq!(InteractionField::parse("18446744073709551615"), Ok(u64::MAX));
}

#[test]
fn whole_valued_decimals_are_counts() {
    assert_eq!(InteractionField::parse("3.0"), Ok(3));
    assert_eq!(InteractionField::parse("3."), Ok(3));
    assert_eq!(InteractionField::parse("12.000"), Ok(12));
    assert_eq!(InteractionField::parse(".0"), Ok(0));
    assert_eq!(InteractionField::parse("0.0"), Ok(0));
}

#[test]
fn exponents_move_the_decimal_point() {
    assert_eq!(InteractionField::parse("1e3"), Ok(1000));
    assert_eq!(InteractionField::parse("1E3"), Ok(1000));
    assert_eq!(InteractionField::parse("1.5e1"), Ok(15));
    assert_eq!(InteractionField::parse("1.25e+2"), Ok(125));
    assert_eq!(InteractionField::parse("1200e-2"), Ok(12));
    assert_eq!(InteractionField::parse(".5e1"), Ok(5));
    assert_eq!(InteractionField::parse("1.e2"), Ok(100));
    assert_eq!(InteractionField::parse("0.00012e5"), Ok(12));
    assert_eq!(InteractionField::parse("1844674407370955161.5e1"), Ok(u64::MAX));
    assert_eq!(InteractionField::parse("1e19"), Ok(10_000_000_000_000_000_000));
}

#[test]
fn zero_is_a_count_whatever_its_exponent() {
    assert_eq!(InteractionField::parse("0e999999999999999999999999999999999999"), Ok(0));
    assert_eq!(InteractionField::parse("0e-999999999999999999999999999999999999"), Ok(0));
    assert_eq!(InteractionField::parse("0.000e5"), Ok(0));
}

#[test]
fn fractions_are_not_integers() {
    assert_eq!(InteractionField::parse("3.5"), Err(ParseFieldErrorKind::NotAnInteger));
    assert_eq!(InteractionField::parse("0.1"), Err(ParseFieldErrorKind::NotAnInteger));
    assert_eq!(InteractionField::parse("1e-1"), Err(ParseFieldErrorKind::NotAnInteger));
    assert_eq!(InteractionField::parse("125e-2"), Err(ParseFieldErrorKind::NotAnInteger));
    assert_eq!(InteractionField::parse("0.99999999999999999999"), Err(ParseFieldErrorKind::NotAnInteger));
    assert_eq!(InteractionField::parse("1e-400"), Err(ParseFieldErrorKind::NotAnInteger));
    assert_eq!(
        InteractionField::parse("1e-999999999999999999999999999999999999"),
        Err(ParseFieldErrorKind::NotAnInteger)
    );
    assert_eq!(
        InteractionField::parse("99999999999999999999999.5"),
        Err(ParseFieldErrorKind::NotAnInteger)
    );
}

#[test]
fn nan_and_infinity_are_not_integers() {
    for word in ["nan", "NaN", "NAN", "inf", "Inf", "INF", "infinity", "Infinity", "INFINITY", "+inf", "+nan"] {
        assert_eq!(InteractionField::parse(word), Err(ParseFieldErrorKind::NotAnInteger), "{}", word);
    }
}

#[test]
fn a_minus_sign_is_negative() {
    assert_eq!(InteractionField::parse("-3"), Err(ParseFieldErrorKind::IsNegative));
    assert_eq!(InteractionField::parse("-3.5"), Err(ParseFieldErrorKind::IsNegative));
    assert_eq!(InteractionField::parse("-0"), Err(ParseFieldErrorKind::IsNegative));
    assert_eq!(InteractionField::parse("-0.0"), Err(ParseFieldErrorKind::IsNegative));
    assert_eq!(InteractionField::parse("-inf"), Err(ParseFieldErrorKind::IsNegative));
    assert_eq!(InteractionField::parse("-nan"), Err(ParseFieldErrorKind::IsNegative));
    assert_eq!(InteractionField::parse("-1e30"), Err(ParseFieldErrorKind::IsNegative));
}

#[test]
fn an_empty_field_is_empty() {
    assert_eq!(
        InteractionField::parse(""),
        Err(ParseFieldErrorKind::ParseFloat(FloatSyntaxError::Empty))
    );
}

#[test]
fn other_text_is_not_numeric() {
    for text in [
        "abc", " 3", "3 ", "+", "-", ".", "e5", ".e5", "1e", "1e+", "1e-", "1_000", "0x10", "1,5",
        "--1", "+-1", "1.2.3", "1e5.0", "in", "infinit", "infinityy", "nane", "٣", "3é", "1e٣",
    ] {
        assert_eq!(InteractionField::parse(text), invalid(), "{:?}", text);
    }
}

#[test]
fn counts_beyond_64_bits_are_too_large() {
    assert_eq!(InteractionField::parse("18446744073709551616"), Err(ParseFieldErrorKind::TooLarge));
    assert_eq!(InteractionField::parse("1e20"), Err(ParseFieldErrorKind::TooLarge));
    assert_eq!(InteractionField::parse("2e19"), Err(ParseFieldErrorKind::TooLarge));
    assert_eq!(InteractionField::parse("1844674407370955161.6e1"), Err(ParseFieldErrorKind::TooLarge));
    assert_eq!(InteractionField::parse("99999999999999999999999"), Err(ParseFieldErrorKind::TooLarge));
    assert_eq!(
        InteractionField::parse("1e999999999999999999999999999999999999"),
        Err(ParseFieldErrorKind::TooLarge)
    );
    assert_eq!(
        InteractionField::parse("0.000000000000000000001e999999999999999999999999999999999999"),
        Err(ParseFieldErrorKind::TooLarge)
    );
}

#[test]
fn counts_agree_with_integer_parsing() {
    for n in [0u64, 1, 9, 10, 99, 100, 12345, 4294967295, 4294967296, 999999999999999999] {
        assert_eq!(InteractionField::parse(&n.to_string()), Ok(n));
        assert_eq!(InteractionField::parse(&format!("{}.0", n)), Ok(n));
        assert_eq!(InteractionField::parse(&format!("{}0e-1", n)), Ok(n));
    }
}
