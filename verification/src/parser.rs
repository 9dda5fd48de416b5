//! Format selection: an explicit tag read case-insensitively, or detection
//! by the first non-blank character (`{` or `[` reads as JSON, anything
//! else as TOON — a TOON document that happens to open with a bracket is
//! misclassified by design).

use vstd::prelude::*;
use vstd::string::*;

use crate::error::TqError;
use crate::text::{eq_ignore_case, lower_code, spec_eq_ignore_case, spec_trim, trim};

verus! {

/// The two input formats the pipeline accepts.
#[derive(Debug, Clone, Copy, PartialEq, Eq, Structural)]
pub enum InputFormat {
    Toon,
    Json,
}

impl InputFormat {
    /// Reads a format tag, ignoring ASCII case: exactly `toon` and `json`
    /// are accepted; anything else is an `InvalidFormat` error naming the
    /// rejected tag.
    pub fn from_str(s: &str) -> (r: Result<InputFormat, TqError>)
        ensures
            spec_eq_ignore_case(s@, "toon"@) ==> r == Ok::<InputFormat, TqError>(
                InputFormat::Toon,
            ),
            spec_eq_ignore_case(s@, "json"@) ==> r == Ok::<InputFormat, TqError>(
                InputFormat::Json,
            ),
            !spec_eq_ignore_case(s@, "toon"@) && !spec_eq_ignore_case(s@, "json"@) ==> (r matches
                Err(TqError::InvalidFormat(m)) && m@ == "Unknown format: "@ + s@),
    {
        if eq_ignore_case(s, "toon") {
            proof {
                reveal_strlit("toon");
                reveal_strlit("json");
                if spec_eq_ignore_case(s@, "json"@) {
                    assert(lower_code(s@[0] as u32) == lower_code("toon"@[0] as u32));
                    assert(lower_code(s@[0] as u32) == lower_code("json"@[0] as u32));
                    assert(false);
                }
            }
            Ok(InputFormat::Toon)
        } else if eq_ignore_case(s, "json") {
            Ok(InputFormat::Json)
        } else {
            let mut m = String::from_str("Unknown format: ");
            m.append(s);
            Err(TqError::InvalidFormat(m))
        }
    }
}

/// Format detection over raw input text.
pub struct Parser;

impl Parser {
    /// Sniffs the format from the trimmed input's first character.
    pub fn detect_format(input: &str) -> (r: InputFormat)
        ensures
            ({
                let t = spec_trim(input@);
                if t.len() > 0 && (t[0] == '{' || t[0] == '[') {
                    r == InputFormat::Json
                } else {
                    r == InputFormat::Toon
                }
            }),
    {
        let t = trim(input);
        if t.unicode_len() > 0 {
            let c = t.get_char(0);
            if c == '{' || c == '[' {
                return InputFormat::Json;
            }
        }
        InputFormat::Toon
    }
}

} // verus!
