use schoenerd::input::{FloatSyntaxError, ParseFieldError, ParseFieldErrorKind};
use schoenerd::{Error, Input, InteractionData, Loader, Ratio};

fn table(rows: &[&[&str]]) -> Vec<Vec<String>> {
    rows.iter()
        .map(|row| row.iter().map(|cell| cell.to_string()).collect())
        .collect()
}

fn load(rows: &[&[&str]]) -> Result<InteractionData, Error> {
    InteractionData::parse(Input::new(table(rows)))
}

fn names(list: &[&str]) -> Vec<String> {
    list.iter().map(|name| name.to_string()).collect()
}

fn field_error(line_nr: usize, field_nr: usize, value: &str, kind: ParseFieldErrorKind) -> Error {
    Error::InvalidFieldValue(ParseFieldError {
        line_nr,
        field_nr,
        field_value: value.to_string(),
        kind,
    })
}

fn whole(count: u128) -> (u128, u128) {
    (count, 1)
}

fn held(cell: Option<Ratio>) -> (u128, u128) {
    let ratio = cell.unwrap();
    (ratio.numerator, ratio.denominator)
}

#[test]
fn a_table_loads_into_names_and_counts() {
    let data = load(&[
        &["", "A", "B", "C"],
        &["Rosa", "2", "0", "4"],
        &["Salvia", "4", "0", "0"],
        &["Thymus", "2", "0", "4"],
    ])
    .unwrap();
    assert_eq!(data.pollinators(), &names(&["A", "B", "C"]));
    assert_eq!(data.plants(), &names(&["Rosa", "Salvia", "Thymus"]));
    let expected = [[2, 0, 4], [4, 0, 0], [2, 0, 4]];
    for row in 0..3 {
        for col in 0..3 {
            assert_eq!(held(data.cell(row, col)), whole(expected[row][col]));
        }
    }
    assert!(data.cell(3, 0).is_none());
    assert!(data.cell(0, 3).is_none());
}

#[test]
fn the_label_of_the_plant_column_is_ignored() {
    let data = load(&[&["whatever", "A", "B"], &["Rosa", "1", "2"]]).unwrap();
    assert_eq!(data.pollinators(), &names(&["A", "B"]));
}

#[test]
fn header_with_one_pollinator_fails_before_any_row() {
    assert_eq!(
        load(&[&["", "A"], &["Rosa", "not a number"], &["Rosa", "-3"]]).unwrap_err(),
        Error::InsufficientInputColumns { pollinators: names(&["A"]) }
    );
}

#[test]
fn header_without_pollinators_is_insufficient() {
    assert_eq!(
        load(&[&[""], &["Rosa"]]).unwrap_err(),
        Error::InsufficientInputColumns { pollinators: names(&[]) }
    );
    assert_eq!(
        load(&[&[], &["Rosa", "1", "2"]]).unwrap_err(),
        Error::InsufficientInputColumns { pollinators: names(&[]) }
    );
}

#[test]
fn no_records_at_all_are_insufficient_columns() {
    assert_eq!(
        load(&[]).unwrap_err(),
        Error::InsufficientInputColumns { pollinators: names(&[]) }
    );
}

#[test]
fn header_alone_is_missing_data() {
    assert_eq!(load(&[&["", "A", "B"]]).unwrap_err(), Error::MissingData);
}

#[test]
fn header_and_blank_records_are_missing_data() {
    assert_eq!(load(&[&["", "A", "B"], &[], &[]]).unwrap_err(), Error::MissingData);
}

#[test]
fn blank_records_are_passed_over() {
    let data = load(&[&["", "A", "B"], &[], &["Rosa", "1", "2"], &[], &["Salvia", "3", "4"]]).unwrap();
    assert_eq!(data.plants(), &names(&["Rosa", "Salvia"]));
    assert_eq!(held(data.cell(1, 0)), whole(3));
}

#[test]
fn duplicate_plant_reports_both_lines() {
    assert_eq!(
        load(&[
            &["", "A", "B"],
            &["Rosa", "1", "2"],
            &["Salvia", "1", "2"],
            &["Thymus", "1", "2"],
            &["Rosa", "1", "2"],
        ])
        .unwrap_err(),
        Error::DuplicatePlantIdent { prev_occ_line_nr: 2, line_nr: 5, plant: "Rosa".to_string() }
    );
}

#[test]
fn duplicate_plant_names_its_first_occurrence_past_blank_records() {
    assert_eq!(
        load(&[&["", "A", "B"], &[], &["Rosa", "1", "2"], &["Salvia", "1", "2"], &[], &["Salvia", "1", "2"]])
            .unwrap_err(),
        Error::DuplicatePlantIdent { prev_occ_line_nr: 4, line_nr: 6, plant: "Salvia".to_string() }
    );
}

#[test]
fn empty_plant_name_is_missing() {
    assert_eq!(
        load(&[&["", "A", "B"], &["Rosa", "1", "2"], &["", "1", "2"]]).unwrap_err(),
        Error::MissingPlantIdent { line_nr: 3 }
    );
}

#[test]
fn negative_field_is_cited() {
    assert_eq!(
        load(&[&["", "A", "B"], &["Rosa", "1", "2"], &["Salvia", "4", "-3"]]).unwrap_err(),
        field_error(3, 3, "-3", ParseFieldErrorKind::IsNegative)
    );
}

#[test]
fn fractional_field_is_cited() {
    assert_eq!(
        load(&[&["", "A", "B"], &["Rosa", "3.5", "2"]]).unwrap_err(),
        field_error(2, 2, "3.5", ParseFieldErrorKind::NotAnInteger)
    );
}

#[test]
fn field_that_is_no_number_is_cited() {
    assert_eq!(
        load(&[&["", "A", "B", "C"], &["Rosa", "1", "2", "x"]]).unwrap_err(),
        field_error(2, 4, "x", ParseFieldErrorKind::ParseFloat(FloatSyntaxError::Invalid))
    );
    assert_eq!(
        load(&[&["", "A", "B", "C"], &["Rosa", "1", "", "3"]]).unwrap_err(),
        field_error(2, 3, "", ParseFieldErrorKind::ParseFloat(FloatSyntaxError::Empty))
    );
}

#[test]
fn the_first_bad_field_of_a_row_is_reported() {
    assert_eq!(
        load(&[&["", "A", "B", "C"], &["Rosa", "1", "1.5", "-3"]]).unwrap_err(),
        field_error(2, 3, "1.5", ParseFieldErrorKind::NotAnInteger)
    );
}

#[test]
fn field_beyond_64_bits_is_too_large() {
    assert_eq!(
        load(&[&["", "A", "B"], &["Rosa", "1", "18446744073709551616"]]).unwrap_err(),
        field_error(2, 3, "18446744073709551616", ParseFieldErrorKind::TooLarge)
    );
}

#[test]
fn column_total_beyond_64_bits_is_too_large() {
    assert_eq!(
        load(&[
            &["", "A", "B"],
            &["Rosa", "1", "18446744073709551615"],
            &["Salvia", "1", "0"],
            &["Thymus", "1", "1"],
        ])
        .unwrap_err(),
        field_error(4, 3, "1", ParseFieldErrorKind::TooLarge)
    );
    assert!(load(&[&["", "A", "B"], &["Rosa", "1", "18446744073709551615"], &["Salvia", "1", "0"]]).is_ok());
}

#[test]
fn short_row_is_ragged() {
    assert_eq!(
        load(&[&["", "A", "B"], &["Rosa", "1", "2"], &["Salvia", "1"]]).unwrap_err(),
        Error::RaggedRecord { line_nr: 3, expected: 3, found: 2 }
    );
}

#[test]
fn long_row_is_ragged() {
    assert_eq!(
        load(&[&["", "A", "B"], &["Rosa", "1", "2", "3"]]).unwrap_err(),
        Error::RaggedRecord { line_nr: 2, expected: 3, found: 4 }
    );
}

#[test]
fn the_checks_of_a_row_come_in_order() {
    // The number of fields comes before the plant's name.
    assert_eq!(
        load(&[&["", "A", "B"], &["", "1"]]).unwrap_err(),
        Error::RaggedRecord { line_nr: 2, expected: 3, found: 2 }
    );
    // The plant's name comes before the counts.
    assert_eq!(
        load(&[&["", "A", "B"], &["", "x", "y"]]).unwrap_err(),
        Error::MissingPlantIdent { line_nr: 2 }
    );
    // A repeated plant comes before the counts.
    assert_eq!(
        load(&[&["", "A", "B"], &["Rosa", "1", "2"], &["Rosa", "x", "y"]]).unwrap_err(),
        Error::DuplicatePlantIdent { prev_occ_line_nr: 2, line_nr: 3, plant: "Rosa".to_string() }
    );
}

#[test]
fn the_first_failing_row_ends_the_loading() {
    assert_eq!(
        load(&[&["", "A", "B"], &["Rosa", "1", "2"], &["Salvia", "x", "2"], &["Rosa", "1", "2"], &["Thymus"]])
            .unwrap_err(),
        field_error(3, 2, "x", ParseFieldErrorKind::ParseFloat(FloatSyntaxError::Invalid))
    );
}

#[test]
fn input_gives_pollinators_and_rows() {
    let input = Input::new(table(&[&["", "A", "B"], &["Rosa", "1", "2"], &["Salvia", "3", "4"]]));
    assert_eq!(input.pollinators().unwrap(), names(&["A", "B"]));
    assert_eq!(
        input.plants_interactions().unwrap(),
        (names(&["Rosa", "Salvia"]), vec![1, 2, 3, 4])
    );
}

#[test]
fn input_reports_what_loading_reports() {
    let one = Input::new(table(&[&["", "A"], &["Rosa", "1"]]));
    assert_eq!(
        one.pollinators().unwrap_err(),
        Error::InsufficientInputColumns { pollinators: names(&["A"]) }
    );
    assert_eq!(
        one.plants_interactions().unwrap_err(),
        Error::InsufficientInputColumns { pollinators: names(&["A"]) }
    );
    let bare = Input::new(table(&[&["", "A", "B"]]));
    assert_eq!(bare.pollinators().unwrap(), names(&["A", "B"]));
    assert_eq!(bare.plants_interactions().unwrap_err(), Error::MissingData);
    let none = Input::new(table(&[]));
    assert_eq!(
        none.pollinators().unwrap_err(),
        Error::InsufficientInputColumns { pollinators: names(&[]) }
    );
}

#[test]
fn loader_reads_record_by_record() {
    let loader = Loader::new(&names(&["", "A", "B"])).unwrap();
    let loader = loader.push_record(2, &names(&["Rosa", "1", "2"])).unwrap();
    let loader = loader.push_record(3, &names(&[])).unwrap();
    let loader = loader.push_record(4, &names(&["Salvia", "3.0", "4e0"])).unwrap();
    let data = loader.finish().unwrap();
    assert_eq!(data.plants(), &names(&["Rosa", "Salvia"]));
    assert_eq!(held(data.cell(1, 1)), whole(4));
}

#[test]
fn loader_reports_the_lines_it_was_given() {
    let loader = Loader::new(&names(&["", "A", "B"])).unwrap();
    let loader = loader.push_record(10, &names(&["Rosa", "1", "2"])).unwrap();
    assert_eq!(
        loader.push_record(20, &names(&["Rosa", "1", "2"])).unwrap_err(),
        Error::DuplicatePlantIdent { prev_occ_line_nr: 10, line_nr: 20, plant: "Rosa".to_string() }
    );
}

#[test]
fn loader_fails_as_loading_does() {
    assert_eq!(
        Loader::new(&names(&["", "A"])).err(),
        Some(Error::InsufficientInputColumns { pollinators: names(&["A"]) })
    );
    let loader = Loader::new(&names(&["", "A", "B"])).unwrap();
    assert_eq!(loader.finish().unwrap_err(), Error::MissingData);
}

#[test]
fn field_error_becomes_error() {
    let error = ParseFieldError {
        line_nr: 2,
        field_nr: 3,
        field_value: "-3".to_string(),
        kind: ParseFieldErrorKind::IsNegative,
    };
    assert_eq!(Error::from(error), field_error(2, 3, "-3", ParseFieldErrorKind::IsNegative));
}
