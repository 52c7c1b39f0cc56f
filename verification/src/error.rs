//! The error that the parser reports.
use vstd::prelude::*;
use crate::text::{debug_quoted, debug_string, decimal, push_all, push_decimal};

verus! {

/// Where and why parsing failed: the message, the 1-based line and column,
/// and the text of that line.
#[derive(Debug, Clone)]
pub struct ParseError {
    pub message: String,
    pub line: usize,
    pub column: usize,
    pub snippet: String,
}

/// The text of a parse error:
/// ``parse error at line L, column C: MESSAGE. line: `"SNIPPET"` ``.
pub open spec fn display_parse_error(message: Seq<char>, line: nat, column: nat, snippet: Seq<char>) -> Seq<char> {
    "parse error at line "@ + decimal(line) + ", column "@ + decimal(column) + ": "@ + message
        + ". line: `"@ + debug_quoted(snippet) + "`"@
}

impl ParseError {
    /// The text that displaying this error writes (see `display_parse_error`).
    pub fn display(&self) -> (r: String)
        ensures
            r@ == display_parse_error(
                self.message@,
                self.line as nat,
                self.column as nat,
                self.snippet@,
            ),
    {
        let mut out = String::new();
        push_all(&mut out, "parse error at line ");
        push_decimal(&mut out, self.line as u64);
        push_all(&mut out, ", column ");
        push_decimal(&mut out, self.column as u64);
        push_all(&mut out, ": ");
        push_all(&mut out, self.message.as_str());
        push_all(&mut out, ". line: `");
        let q = debug_string(self.snippet.as_str());
        push_all(&mut out, q.as_str());
        push_all(&mut out, "`");
        proof {
            assert(out@ =~= display_parse_error(
                self.message@,
                self.line as nat,
                self.column as nat,
                self.snippet@,
            ));
        }
        out
    }
}

} // verus!
