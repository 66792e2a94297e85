//! Failures of loading an interaction matrix.

use crate::input::field::{field_error_text, ParseFieldError, ParseFieldErrorKind};
use crate::text::{decimal_string, decimal_text};
use vstd::prelude::*;
use vstd::string::StringExecFns;

verus! {

/// Errors that loading may end in. Line numbers count the header as line 1;
/// field numbers count the plant identifier as field 1.
#[derive(Debug, PartialEq, Eq)]
pub enum Error {
    /// Insufficient number of columns (pollinators) in input data:
    /// required at least two species of pollinators.
    InsufficientInputColumns { pollinators: Vec<String> },
    /// A record does not have as many fields as the header.
    RaggedRecord {
        /// Line number of the record.
        line_nr: usize,
        /// Number of fields of the header.
        expected: usize,
        /// Number of fields of the record.
        found: usize,
    },
    /// A field does not hold an interaction count.
    InvalidFieldValue(ParseFieldError),
    /// Missing plant identifier in input record.
    MissingPlantIdent {
        /// Missing plant line number.
        line_nr: usize,
    },
    /// Duplicate plant in input record.
    DuplicatePlantIdent {
        /// Previous occurrence line number.
        prev_occ_line_nr: usize,
        /// Duplicate line number.
        line_nr: usize,
        /// Plant ident.
        plant: String,
    },
    /// Missing interaction (input) data.
    MissingData,
}

/// An [`Error`] with its texts as character sequences.
pub ghost enum ErrorView {
    InsufficientInputColumns { pollinators: Seq<Seq<char>> },
    RaggedRecord { line_nr: usize, expected: usize, found: usize },
    InvalidFieldValue {
        line_nr: usize,
        field_nr: usize,
        field_value: Seq<char>,
        kind: ParseFieldErrorKind,
    },
    MissingPlantIdent { line_nr: usize },
    DuplicatePlantIdent { prev_occ_line_nr: usize, line_nr: usize, plant: Seq<char> },
    MissingData,
}

impl View for Error {
    type V = ErrorView;

    open spec fn view(&self) -> ErrorView {
        match *self {
            Error::InsufficientInputColumns { pollinators } => ErrorView::InsufficientInputColumns {
                pollinators: pollinators.deep_view(),
            },
            Error::RaggedRecord { line_nr, expected, found } => ErrorView::RaggedRecord {
                line_nr,
                expected,
                found,
            },
            Error::InvalidFieldValue(error) => ErrorView::InvalidFieldValue {
                line_nr: error.line_nr,
                field_nr: error.field_nr,
                field_value: error.field_value@,
                kind: error.kind,
            },
            Error::MissingPlantIdent { line_nr } => ErrorView::MissingPlantIdent { line_nr },
            Error::DuplicatePlantIdent {
                prev_occ_line_nr,
                line_nr,
                plant,
            } => ErrorView::DuplicatePlantIdent { prev_occ_line_nr, line_nr, plant: plant@ },
            Error::MissingData => ErrorView::MissingData,
        }
    }
}

impl ErrorView {
    /// The error in words.
    pub open spec fn text(self) -> Seq<char> {
        match self {
            ErrorView::InsufficientInputColumns { pollinators } => {
                "insufficient number of columns in input data: required at least two species of pollinators, found "@
                    + decimal_text(pollinators.len()) + if pollinators.len() > 0 {
                    " ('"@ + pollinators[0] + "')"@
                } else {
                    Seq::empty()
                }
            },
            ErrorView::RaggedRecord { line_nr, expected, found } => {
                "invalid input record: found record with "@ + decimal_text(found as nat)
                    + " fields at line "@ + decimal_text(line_nr as nat) + ", but the header has "@
                    + decimal_text(expected as nat) + " fields"@
            },
            ErrorView::InvalidFieldValue {
                line_nr,
                field_nr,
                field_value,
                kind,
            } => field_error_text(line_nr, field_nr, field_value, kind),
            ErrorView::MissingPlantIdent { line_nr } => {
                "missing plant identifier at line "@ + decimal_text(line_nr as nat)
            },
            ErrorView::DuplicatePlantIdent { prev_occ_line_nr, line_nr, plant } => {
                "duplicate plant ('"@ + plant + "') at line "@ + decimal_text(line_nr as nat)
                    + ", previous occurrence at line "@ + decimal_text(prev_occ_line_nr as nat)
            },
            ErrorView::MissingData => {
                "missing plant-pollinator interaction data, required at least one record"@
            },
        }
    }
}

impl Error {
    /// The error in words.
    pub fn message(&self) -> (text: String)
        ensures
            text@ == self@.text(),
    {
        match self {
            Error::InsufficientInputColumns { pollinators } => {
                let mut text = String::from_str(
                    "insufficient number of columns in input data: required at least two species of pollinators, found ",
                );
                text.append(decimal_string(pollinators.len()).as_str());
                if pollinators.len() > 0 {
                    assert(pollinators.deep_view()[0] == pollinators[0]@);
                    let ghost before = text@;
                    text.append(" ('");
                    text.append(pollinators[0].as_str());
                    text.append("')");
                    assert(text@ =~= before + (" ('"@ + pollinators[0]@ + "')"@));
                } else {
                    assert(text@ =~= text@ + Seq::<char>::empty());
                }
                text
            },
            Error::RaggedRecord { line_nr, expected, found } => {
                let mut text = String::from_str("invalid input record: found record with ");
                text.append(decimal_string(*found).as_str());
                text.append(" fields at line ");
                text.append(decimal_string(*line_nr).as_str());
                text.append(", but the header has ");
                text.append(decimal_string(*expected).as_str());
                text.append(" fields");
                text
            },
            Error::InvalidFieldValue(error) => error.message(),
            Error::MissingPlantIdent { line_nr } => {
                let mut text = String::from_str("missing plant identifier at line ");
                text.append(decimal_string(*line_nr).as_str());
                text
            },
            Error::DuplicatePlantIdent { prev_occ_line_nr, line_nr, plant } => {
                let mut text = String::from_str("duplicate plant ('");
                text.append(plant.as_str());
                text.append("') at line ");
                text.append(decimal_string(*line_nr).as_str());
                text.append(", previous occurrence at line ");
                text.append(decimal_string(*prev_occ_line_nr).as_str());
                text
            },
            Error::MissingData => String::from_str(
                "missing plant-pollinator interaction data, required at least one record",
            ),
        }
    }
}

impl From<ParseFieldError> for Error {
    fn from(error: ParseFieldError) -> (r: Error) {
        Error::InvalidFieldValue(error)
    }
}

impl vstd::std_specs::convert::FromSpecImpl<ParseFieldError> for Error {
    open spec fn obeys_from_spec() -> bool {
        true
    }

    open spec fn from_spec(error: ParseFieldError) -> Error {
        Error::InvalidFieldValue(error)
    }
}

} // verus!
