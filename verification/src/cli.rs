//! The choices that a caller makes about input and output.

use crate::output::{Output, OutputFormat};
use std::path::PathBuf;
use vstd::prelude::*;

verus! {

/// Output D index value sort direction.
#[derive(Debug, Clone, Copy, PartialEq, Eq, Structural)]
pub enum SortDirection {
    Descending,
    Ascending,
}

/// Schoener's D index calculator for niche overlap.
#[derive(Debug)]
pub struct Cli {
    /// Input CSV file path.
    pub input: Option<PathBuf>,
    /// Input CSV field delimiter.
    pub input_field_delimiter: Option<char>,
    /// Input CSV record terminator.
    pub input_record_terminator: Option<char>,
    /// Input CSV quote character.
    pub input_quote_character: Option<char>,
    /// Output CSV file path.
    pub output: Option<PathBuf>,
    /// Output CSV field delimiter.
    pub output_field_delimiter: Option<char>,
    /// Output CSV record terminator.
    pub output_record_terminator: Option<char>,
    /// Output CSV quote character.
    pub output_quote_character: Option<char>,
    /// Disable output headers.
    pub disable_output_headers: bool,
    /// Sort output by D index value.
    pub sort: Option<SortDirection>,
    /// Display output as a pretty table on stdout.
    pub pretty_table: bool,
}

impl Cli {
    /// The output format that the options ask for: a table where one is
    /// asked for, else CSV with the options that concern it.
    pub open spec fn output_format(self) -> OutputFormat {
        if self.pretty_table {
            OutputFormat::Table
        } else {
            OutputFormat::Csv {
                path: self.output,
                delimiter: self.output_field_delimiter,
                terminator: self.output_record_terminator,
                quote: self.output_quote_character,
            }
        }
    }

    /// The output that the options ask for.
    pub fn output(self) -> (output: Output)
        ensures
            output.headers() == !self.disable_output_headers,
            output.sort() == self.sort,
            output.spec_format() == self.output_format(),
    {
        let format = if self.pretty_table {
            OutputFormat::Table
        } else {
            OutputFormat::Csv {
                path: self.output,
                delimiter: self.output_field_delimiter,
                terminator: self.output_record_terminator,
                quote: self.output_quote_character,
            }
        };
        Output::new(!self.disable_output_headers, self.sort, format)
    }
}

} // verus!
