//! How the indexes are to be presented.

use crate::cli::SortDirection;
use crate::data::SchoenerIndexes;
use crate::order::is_stable_sort;
use std::path::PathBuf;
use vstd::prelude::*;

verus! {

/// `std::path::PathBuf`, which is carried through and never looked into.
#[verifier::external_type_specification]
#[verifier::external_body]
pub struct ExPathBuf(PathBuf);

/// Output headers.
pub const OUTPUT_HEADERS: [&'static str; 3] = ["FIRST SPECIES", "SECOND SPECIES", "D INDEX"];

/// [`Output`] data format.
#[derive(Debug)]
pub enum OutputFormat {
    /// CSV output format (terminal or file).
    Csv {
        path: Option<PathBuf>,
        delimiter: Option<char>,
        terminator: Option<char>,
        quote: Option<char>,
    },
    /// Terminal pretty table output.
    Table,
}

/// Configured output.
#[derive(Debug)]
pub struct Output {
    headers: bool,
    sort: Option<SortDirection>,
    format: OutputFormat,
}

impl Output {
    /// Whether a header record comes before the entries.
    pub closed spec fn spec_headers(&self) -> bool {
        self.headers
    }

    /// The direction in which the entries are sorted, if they are.
    pub closed spec fn spec_sort(&self) -> Option<SortDirection> {
        self.sort
    }

    /// The format in which the entries are written.
    pub closed spec fn spec_format(&self) -> OutputFormat {
        self.format
    }

    /// Constructs a new [`Output`] instance.
    pub fn new(headers: bool, sort: Option<SortDirection>, format: OutputFormat) -> (output: Self)
        ensures
            output.spec_headers() == headers,
            output.spec_sort() == sort,
            output.spec_format() == format,
    {
        Output { headers, sort, format }
    }

    /// Whether a header record comes before the entries.
    #[verifier::when_used_as_spec(spec_headers)]
    pub fn headers(&self) -> (headers: bool)
        ensures
            headers == self.spec_headers(),
    {
        self.headers
    }

    /// The direction in which the entries are sorted, if they are.
    #[verifier::when_used_as_spec(spec_sort)]
    pub fn sort(&self) -> (sort: Option<SortDirection>)
        ensures
            sort == self.spec_sort(),
    {
        self.sort
    }

    /// The format in which the entries are written.
    pub fn format(&self) -> (format: &OutputFormat)
        ensures
            *format == self.spec_format(),
    {
        &self.format
    }

    /// Finalizes [`Output`]: brings the entries into the order in which they
    /// are written.
    pub fn finalize<'a>(&self, schoener_indexes: SchoenerIndexes<'a>) -> (indexes: SchoenerIndexes<
        'a,
    >)
        ensures
            match self.sort() {
                Some(direction) => is_stable_sort(schoener_indexes@, indexes@, direction),
                None => indexes@ == schoener_indexes@,
            },
    {
        let mut indexes = schoener_indexes;
        if let Some(direction) = self.sort {
            indexes.sort(direction);
        }
        indexes
    }
}

} // verus!
