//! Decoding configuration and workflow documents into typed records.
pub mod config;
pub mod workflow;

use vstd::prelude::*;
use crate::error::{display_parse_error, ParseError};
use crate::text::copy_string;

verus! {

/// Why a document could not be decoded: it does not parse, or it parses
/// but does not have the expected shape.
#[derive(Debug)]
pub enum SchemaError {
    Parse(ParseError),
    Invalid(String),
}

impl SchemaError {
    /// The text of the error: the parse error's text, or the message.
    pub fn display(&self) -> (r: String)
        ensures
            r@ == match self {
                SchemaError::Parse(e) => display_parse_error(
                    e.message@,
                    e.line as nat,
                    e.column as nat,
                    e.snippet@,
                ),
                SchemaError::Invalid(m) => m@,
            },
    {
        match self {
            SchemaError::Parse(e) => e.display(),
            SchemaError::Invalid(m) => copy_string(m),
        }
    }
}

} // verus!
