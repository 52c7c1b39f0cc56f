//! Basic (`"..."`, `"""..."""`) and literal (`'...'`, `'''...'''`) strings.
use vstd::prelude::*;
use crate::error::ParseError;
use crate::parser::cursor::{agrees_str, Parser};
use crate::parser::spec::{basic_body, basic_string, literal_body, literal_string, ml_basic, ml_basic_body, ml_literal, ml_literal_body, ml_start, peek};


verus! {

impl Parser {
    /// Reads a basic string whose opening quote is at the cursor; `"""`
    /// opens a multi-line string.
    pub fn parse_basic_string(&mut self) -> (r: Result<String, ParseError>)
        requires
            old(self).wf(),
        ensures
            final(self).moved_from(old(self)),
            old(self).index < old(self).input@.len() ==> old(self).index < final(self).index,
            final(self).index == basic_string(old(self).input@, old(self).index as int).0,
            agrees_str(
                r,
                final(self).input@,
                final(self).index as int,
                basic_string(old(self).input@, old(self).index as int).1,
            ),
    {
        let ghost s = self.input@;
        let ghost p0 = self.index as int;
        proof {
            reveal_strlit("\"\"");
        }
        self.advance();
        if self.starts_with("\"\"") {
            self.advance();
            self.advance();
            return self.parse_multiline_basic_string();
        }
        let mut out = String::new();
        loop
            invariant
                self.wf(),
                self.input@ == s,
                s == old(self).input@,
                p0 == old(self).index,
                p0 <= self.index,
                basic_body(s, self.index as int, out@) == basic_string(s, p0),
                p0 < s.len() ==> p0 < self.index,
            decreases s.len() - self.index,
        {
            let ghost p = self.index as int;
            match self.peek() {
                None => {
                    return Err(self.err("unterminated string"));
                },
                Some(c) => {
                    if c == '\n' {
                        return Err(self.err("unterminated string"));
                    } else if c == '"' {
                        self.advance();
                        return Ok(out);
                    } else if c == '\\' {
                        let ch = self.parse_escape()?;
                        out.push(ch);
                    } else {
                        self.advance();
                        out.push(c);
                    }
                },
            }
        }
    }

    /// Reads the rest of a multi-line basic string after its opening `"""`.
    /// A backslash followed by blanks or line endings skips them all.
    pub fn parse_multiline_basic_string(&mut self) -> (r: Result<String, ParseError>)
        requires
            old(self).wf(),
        ensures
            final(self).moved_from(old(self)),
            final(self).index == ml_basic(old(self).input@, old(self).index as int).0,
            agrees_str(
                r,
                final(self).input@,
                final(self).index as int,
                ml_basic(old(self).input@, old(self).index as int).1,
            ),
    {
        let ghost s = self.input@;
        let ghost p0 = self.index as int;
        proof {
            reveal_strlit("\r\n");
        }
        if self.peek() == Some('\n') {
            self.advance();
        } else if self.starts_with("\r\n") {
            self.advance();
            self.advance();
        }
        assert(self.index == ml_start(s, p0));
        let mut out = String::new();
        loop
            invariant
                self.wf(),
                self.input@ == s,
                s == old(self).input@,
                p0 == old(self).index,
                p0 <= self.index,
                ml_basic_body(s, self.index as int, out@) == ml_basic(s, p0),
            decreases s.len() - self.index,
        {
            proof {
                reveal_strlit("\"\"\"");
            }
            if self.starts_with("\"\"\"") {
                self.advance();
                self.advance();
                self.advance();
                return Ok(out);
            }
            match self.peek() {
                None => {
                    return Err(self.err("unterminated multi-line string"));
                },
                Some(c) => {
                    if c == '\\' {
                        self.advance();
                        match self.peek() {
                            Some(d) => {
                                if d == ' ' || d == '\t' || d == '\n' || d == '\r' {
                                    self.skip_whitespace_and_newlines();
                                } else {
                                    let ch = self.parse_escape_char()?;
                                    out.push(ch);
                                }
                            },
                            None => {
                                let ch = self.parse_escape_char()?;
                                out.push(ch);
                            },
                        }
                    } else {
                        self.advance();
                        out.push(c);
                    }
                },
            }
        }
    }

    /// Reads a literal string whose opening quote is at the cursor; `'''`
    /// opens a multi-line literal string. No escapes are recognised.
    pub fn parse_literal_string(&mut self) -> (r: Result<String, ParseError>)
        requires
            old(self).wf(),
        ensures
            final(self).moved_from(old(self)),
            old(self).index < old(self).input@.len() ==> old(self).index < final(self).index,
            final(self).index == literal_string(old(self).input@, old(self).index as int).0,
            agrees_str(
                r,
                final(self).input@,
                final(self).index as int,
                literal_string(old(self).input@, old(self).index as int).1,
            ),
    {
        let ghost s = self.input@;
        let ghost p0 = self.index as int;
        proof {
            reveal_strlit("''");
        }
        self.advance();
        if self.starts_with("''") {
            self.advance();
            self.advance();
            return self.parse_multiline_literal_string();
        }
        let mut out = String::new();
        loop
            invariant
                self.wf(),
                self.input@ == s,
                s == old(self).input@,
                p0 == old(self).index,
                p0 <= self.index,
                literal_body(s, self.index as int, out@) == literal_string(s, p0),
                p0 < s.len() ==> p0 < self.index,
            decreases s.len() - self.index,
        {
            match self.peek() {
                None => {
                    return Err(self.err("unterminated literal string"));
                },
                Some(c) => {
                    if c == '\n' {
                        return Err(self.err("unterminated literal string"));
                    } else if c == '\'' {
                        self.advance();
                        return Ok(out);
                    } else {
                        self.advance();
                        out.push(c);
                    }
                },
            }
        }
    }

    /// Reads the rest of a multi-line literal string after its opening `'''`.
    pub fn parse_multiline_literal_string(&mut self) -> (r: Result<String, ParseError>)
        requires
            old(self).wf(),
        ensures
            final(self).moved_from(old(self)),
            final(self).index == ml_literal(old(self).input@, old(self).index as int).0,
            agrees_str(
                r,
                final(self).input@,
                final(self).index as int,
                ml_literal(old(self).input@, old(self).index as int).1,
            ),
    {
        let ghost s = self.input@;
        let ghost p0 = self.index as int;
        proof {
            reveal_strlit("\r\n");
        }
        if self.peek() == Some('\n') {
            self.advance();
        } else if self.starts_with("\r\n") {
            self.advance();
            self.advance();
        }
        assert(self.index == ml_start(s, p0));
        let mut out = String::new();
        loop
            invariant
                self.wf(),
                self.input@ == s,
                s == old(self).input@,
                p0 == old(self).index,
                p0 <= self.index,
                ml_literal_body(s, self.index as int, out@) == ml_literal(s, p0),
            decreases s.len() - self.index,
        {
            proof {
                reveal_strlit("'''");
            }
            if self.starts_with("'''") {
                self.advance();
                self.advance();
                self.advance();
                return Ok(out);
            }
            match self.peek() {
                None => {
                    return Err(self.err("unterminated multi-line literal string"));
                },
                Some(c) => {
                    self.advance();
                    out.push(c);
                },
            }
        }
    }
}

} // verus!
