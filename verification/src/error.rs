//! The errors of the library.
use crate::text::joined;
use vstd::prelude::*;
use vstd::std_specs::convert::FromSpecImpl;

verus! {

/// An error of the input and output system, opaque to the library.
#[verifier::external_type_specification]
#[verifier::external_body]
pub struct ExIoError(std::io::Error);

/// What can go wrong around a table.
#[derive(Debug)]
pub enum DaxError {
    /// A formula could not be read.
    ParseError(String),
    /// A formula could not be evaluated.
    EvaluationError(String),
    /// The source of a table could not be read.
    IoError(std::io::Error),
}

/// The text that `std::io::Error` displays. Nothing is claimed of it.
#[verifier::external_body]
fn io_error_text(err: &std::io::Error) -> (text: String) {
    format!("{}", err)
}

impl DaxError {
    /// The error as a line for a reader: the kind of error, a colon and the
    /// detail.
    pub fn message(&self) -> (text: String)
        ensures
            match self {
                DaxError::ParseError(detail) => text@ == "Parse error: "@ + detail@,
                DaxError::EvaluationError(detail) => text@ == "Evaluation error: "@ + detail@,
                DaxError::IoError(_) => "IO error: "@.is_prefix_of(text@),
            },
    {
        match self {
            DaxError::ParseError(detail) => joined("Parse error: ", detail.as_str()),
            DaxError::EvaluationError(detail) => joined("Evaluation error: ", detail.as_str()),
            DaxError::IoError(err) => {
                let detail = io_error_text(err);
                joined("IO error: ", detail.as_str())
            },
        }
    }
}

impl From<std::io::Error> for DaxError {
    fn from(err: std::io::Error) -> (error: DaxError) {
        DaxError::IoError(err)
    }
}

impl FromSpecImpl<std::io::Error> for DaxError {
    open spec fn obeys_from_spec() -> bool {
        true
    }

    open spec fn from_spec(err: std::io::Error) -> DaxError {
        DaxError::IoError(err)
    }
}

} // verus!
