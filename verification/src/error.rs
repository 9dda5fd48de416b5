//! Error taxonomy of the pipeline: parse-time syntax errors, table
//! validation errors and format-tag errors, each with an exactly specified
//! human-readable message.

use vstd::prelude::*;
use vstd::string::*;

use crate::text::{spec_dec_str, usize_to_string};

verus! {

/// What can go wrong while parsing or validating a document.
#[derive(Debug, PartialEq)]
pub enum TqError {
    /// A malformed line, with its 1-based line number.
    Parse { line: usize, message: String },
    /// A validation failure that is neither of the table errors.
    Validation(String),
    /// A table whose parsed row count differs from its declared count.
    TableRowMismatch { name: String, declared: usize, actual: usize },
    /// A table row whose key set differs from the first row's.
    TableSchemaInconsistent { name: String, message: String },
    /// An unrecognized format tag.
    InvalidFormat(String),
}

impl TqError {
    /// The rendered message of this error.
    pub open spec fn spec_message(self) -> Seq<char> {
        match self {
            TqError::Parse { line, message } => "Parse error at line "@ + spec_dec_str(
                line as nat,
            ) + ": "@ + message@,
            TqError::Validation(m) => "Validation error: "@ + m@,
            TqError::TableRowMismatch { name, declared, actual } => "Table "@ + name@
                + " declared with "@ + spec_dec_str(declared as nat) + " rows but found "@
                + spec_dec_str(actual as nat),
            TqError::TableSchemaInconsistent { name, message } => "Inconsistent table schema in "@
                + name@ + ": "@ + message@,
            TqError::InvalidFormat(m) => "Invalid input format: "@ + m@,
        }
    }

    /// Renders this error as one line of text.
    pub fn message(&self) -> (r: String)
        ensures
            r@ == self.spec_message(),
    {
        match self {
            TqError::Parse { line, message } => {
                let mut s = String::from_str("Parse error at line ");
                let num = usize_to_string(*line);
                s.append(num.as_str());
                s.append(": ");
                s.append(message.as_str());
                proof {
                    assert(s@ =~= self.spec_message());
                }
                s
            },
            TqError::Validation(m) => {
                let mut s = String::from_str("Validation error: ");
                s.append(m.as_str());
                proof {
                    assert(s@ =~= self.spec_message());
                }
                s
            },
            TqError::TableRowMismatch { name, declared, actual } => {
                let mut s = String::from_str("Table ");
                s.append(name.as_str());
                s.append(" declared with ");
                let d = usize_to_string(*declared);
                s.append(d.as_str());
                s.append(" rows but found ");
                let a = usize_to_string(*actual);
                s.append(a.as_str());
                proof {
                    assert(s@ =~= self.spec_message());
                }
                s
            },
            TqError::TableSchemaInconsistent { name, message } => {
                let mut s = String::from_str("Inconsistent table schema in ");
                s.append(name.as_str());
                s.append(": ");
                s.append(message.as_str());
                proof {
                    assert(s@ =~= self.spec_message());
                }
                s
            },
            TqError::InvalidFormat(m) => {
                let mut s = String::from_str("Invalid input format: ");
                s.append(m.as_str());
                proof {
                    assert(s@ =~= self.spec_message());
                }
                s
            },
        }
    }
}

} // verus!
