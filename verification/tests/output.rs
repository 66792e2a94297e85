use schoenerd::cli::Cli;
use schoenerd::output::OUTPUT_HEADERS;
use schoenerd::{Output, OutputFormat, Ratio, SchoenerIndexes, SortDirection};
use std::path::PathBuf;

fn ratio(numerator: u128, denominator: u128) -> Ratio {
    Ratio::new(numerator, denominator)
}

fn result_set() -> SchoenerIndexes<'static> {
    let mut indexes = SchoenerIndexes::with_capacity(3);
    indexes.add_index("A", "B", ratio(1, 2));
    indexes.add_index("A", "C", ratio(1, 4));
    indexes.add_index("B", "C", ratio(3, 4));
    indexes
}

fn pairs(indexes: &SchoenerIndexes) -> Vec<(String, String)> {
    (0..indexes.len())
        .map(|k| {
            let entry = indexes.get(k).unwrap();
            (entry.first_species().to_string(), entry.second_species().to_string())
        })
        .collect()
}

fn pair(first: &str, second: &str) -> (String, String) {
    (first.to_string(), second.to_string())
}

fn options() -> Cli {
    Cli {
        input: Some(PathBuf::from("in.csv")),
        input_field_delimiter: Some(';'),
        input_record_terminator: None,
        input_quote_character: None,
        output: Some(PathBuf::from("out.csv")),
        output_field_delimiter: Some('\t'),
        output_record_terminator: Some('\n'),
        output_quote_character: Some('\''),
        disable_output_headers: false,
        sort: Some(SortDirection::Descending),
        pretty_table: false,
    }
}

#[test]
fn the_headers_name_the_three_columns() {
    assert_eq!(OUTPUT_HEADERS, ["FIRST SPECIES", "SECOND SPECIES", "D INDEX"]);
}

#[test]
fn output_holds_what_it_was_made_with() {
    let output = Output::new(true, Some(SortDirection::Ascending), OutputFormat::Table);
    assert!(output.headers());
    assert_eq!(output.sort(), Some(SortDirection::Ascending));
    assert!(matches!(output.format(), OutputFormat::Table));
    let output = Output::new(
        false,
        None,
        OutputFormat::Csv {
            path: Some(PathBuf::from("out.csv")),
            delimiter: Some(';'),
            terminator: None,
            quote: Some('"'),
        },
    );
    assert!(!output.headers());
    assert_eq!(output.sort(), None);
    match output.format() {
        OutputFormat::Csv { path, delimiter, terminator, quote } => {
            assert_eq!(path, &Some(PathBuf::from("out.csv")));
            assert_eq!(delimiter, &Some(';'));
            assert_eq!(terminator, &None);
            assert_eq!(quote, &Some('"'));
        }
        OutputFormat::Table => panic!("a table"),
    }
}

#[test]
fn finalize_without_a_direction_keeps_the_order() {
    let output = Output::new(true, None, OutputFormat::Table);
    let indexes = output.finalize(result_set());
    assert_eq!(pairs(&indexes), vec![pair("A", "B"), pair("A", "C"), pair("B", "C")]);
}

#[test]
fn finalize_sorts_in_the_direction_asked_for() {
    let output = Output::new(true, Some(SortDirection::Ascending), OutputFormat::Table);
    let indexes = output.finalize(result_set());
    assert_eq!(pairs(&indexes), vec![pair("A", "C"), pair("A", "B"), pair("B", "C")]);
    let output = Output::new(true, Some(SortDirection::Descending), OutputFormat::Table);
    let indexes = output.finalize(result_set());
    assert_eq!(pairs(&indexes), vec![pair("B", "C"), pair("A", "B"), pair("A", "C")]);
}

#[test]
fn options_ask_for_csv_with_their_settings() {
    let output = options().output();
    assert!(output.headers());
    assert_eq!(output.sort(), Some(SortDirection::Descending));
    match output.format() {
        OutputFormat::Csv { path, delimiter, terminator, quote } => {
            assert_eq!(path, &Some(PathBuf::from("out.csv")));
            assert_eq!(delimiter, &Some('\t'));
            assert_eq!(terminator, &Some('\n'));
            assert_eq!(quote, &Some('\''));
        }
        OutputFormat::Table => panic!("a table"),
    }
}

#[test]
fn options_ask_for_a_table() {
    let mut cli = options();
    cli.pretty_table = true;
    cli.disable_output_headers = true;
    cli.sort = None;
    let output = cli.output();
    assert!(!output.headers());
    assert_eq!(output.sort(), None);
    assert!(matches!(output.format(), OutputFormat::Table));
}
