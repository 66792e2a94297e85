use schoenerd::input::{FloatSyntaxError, ParseFieldError, ParseFieldErrorKind};
use schoenerd::text::decimal_string;
use schoenerd::Error;

#[test]
fn numbers_are_written_in_decimal() {
    assert_eq!(decimal_string(0), "0");
    assert_eq!(decimal_string(7), "7");
    assert_eq!(decimal_string(10), "10");
    assert_eq!(decimal_string(1234567890), "1234567890");
    assert_eq!(decimal_string(usize::MAX), usize::MAX.to_string());
    for n in (0..5000).chain([99_999, 100_000, 100_001]) {
        assert_eq!(decimal_string(n), n.to_string());
    }
}

#[test]
fn kinds_say_why_a_field_holds_no_count() {
    assert_eq!(
        ParseFieldErrorKind::ParseFloat(FloatSyntaxError::Empty).message(),
        "cannot parse float from empty string"
    );
    assert_eq!(
        ParseFieldErrorKind::ParseFloat(FloatSyntaxError::Invalid).message(),
        "invalid float literal"
    );
    assert_eq!(ParseFieldErrorKind::IsNegative.message(), "value must be a positive number");
    assert_eq!(ParseFieldErrorKind::NotAnInteger.message(), "value must be positive");
    assert_eq!(ParseFieldErrorKind::TooLarge.message(), "value is too large");
}

#[test]
fn field_error_cites_the_field() {
    let error = ParseFieldError {
        line_nr: 12,
        field_nr: 3,
        field_value: "-3".to_string(),
        kind: ParseFieldErrorKind::IsNegative,
    };
    assert_eq!(
        error.message(),
        "unable to parse input field value '-3' (line 12, field 3): value must be a positive number"
    );
    assert_eq!(Error::InvalidFieldValue(error).message(),
        "unable to parse input field value '-3' (line 12, field 3): value must be a positive number"
    );
}

#[test]
fn insufficient_columns_name_what_was_found() {
    assert_eq!(
        Error::InsufficientInputColumns { pollinators: vec![] }.message(),
        "insufficient number of columns in input data: required at least two species of pollinators, found 0"
    );
    assert_eq!(
        Error::InsufficientInputColumns { pollinators: vec!["Apis".to_string()] }.message(),
        "insufficient number of columns in input data: required at least two species of pollinators, found 1 ('Apis')"
    );
}

#[test]
fn row_errors_name_their_lines() {
    assert_eq!(
        Error::MissingPlantIdent { line_nr: 7 }.message(),
        "missing plant identifier at line 7"
    );
    assert_eq!(
        Error::DuplicatePlantIdent { prev_occ_line_nr: 2, line_nr: 5, plant: "Rosa".to_string() }
            .message(),
        "duplicate plant ('Rosa') at line 5, previous occurrence at line 2"
    );
    assert_eq!(
        Error::RaggedRecord { line_nr: 3, expected: 4, found: 2 }.message(),
        "invalid input record: found record with 2 fields at line 3, but the header has 4 fields"
    );
    assert_eq!(
        Error::MissingData.message(),
        "missing plant-pollinator interaction data, required at least one record"
    );
}
