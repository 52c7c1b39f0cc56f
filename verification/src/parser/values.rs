//! Keys, escapes, and values: conditionals, strings, arrays, blocks, inline
//! tables, booleans and numbers.
use vstd::prelude::*;
use vstd::string::StringSliceAdditionalSpecFns;
use crate::error::ParseError;
use crate::ast::{lemma_values_view_push, values_view, SValue, Value};
use crate::parser::cursor::{agrees_char, agrees_keys, agrees_str, agrees_value, reports, Parser};
use crate::parser::scalar::{classify_scalar, sub_chars, trimmed_end};
use crate::parser::spec::{array, array_items, block, conditional, dotted_key, escape_char, expect_keyword, hex_digits, is_block, is_scalar, key_rest, key_run, next, peek, scalar, scalar_end, simple_key, skip_ws_nl, unicode, value, word_char_at};
use crate::text::{concat, debug_char_option, digit_of, digit_value, is_alphanumeric, lemma_strings_view_push, starts_at_exec, string_from_range, strings_view};

verus! {

impl Parser {
    /// Reads a value: a conditional (when the text starts with `if`), a
    /// basic or literal string, an array, a block (`{` followed by `if` or
    /// `[`), an inline table, or a boolean or number.
    pub fn parse_value(&mut self) -> (r: Result<Value, ParseError>)
        requires
            old(self).wf(),
        ensures
            final(self).moved_from(old(self)),
            final(self).index == value(old(self).input@, old(self).index as int).0,
            agrees_value(
                r,
                final(self).input@,
                final(self).index as int,
                value(old(self).input@, old(self).index as int).1,
            ),
        decreases old(self).input@.len() - old(self).index, 4int,
    {
        if self.starts_with("if") {
            return self.parse_conditional();
        }
        match self.peek() {
            Some(c) => {
                if c == '"' {
                    let t = self.parse_basic_string()?;
                    Ok(Value::String(t))
                } else if c == '\'' {
                    let t = self.parse_literal_string()?;
                    Ok(Value::String(t))
                } else if c == '[' {
                    self.parse_array()
                } else if c == '{' {
                    if self.is_block_value()? {
                        self.parse_block_value()
                    } else {
                        self.parse_inline_table()
                    }
                } else {
                    self.parse_number_or_bool_or_date()
                }
            },
            None => self.parse_number_or_bool_or_date(),
        }
    }

    /// The text after the `{` at the cursor (past blanks and line endings)
    /// starts with `if` or `[`. Does not move the cursor.
    pub fn is_block_value(&mut self) -> (r: Result<bool, ParseError>)
        requires
            old(self).wf(),
        ensures
            final(self).moved_from(old(self)),
            final(self).index == old(self).index,
            r == Ok::<bool, ParseError>(is_block(old(self).input@, old(self).index as int)),
    {
        let ghost s = self.input@;
        if self.index >= self.input.len() {
            return Ok(false);
        }
        let mut q = self.index + 1;
        while q < self.input.len() && (self.input[q] == ' ' || self.input[q] == '\t'
            || self.input[q] == '\n' || self.input[q] == '\r')
            invariant
                self.wf(),
                self.input@ == s,
                s == old(self).input@,
                self.index == old(self).index,
                self.index < q <= s.len(),
                skip_ws_nl(s, q as int) == skip_ws_nl(s, self.index + 1),
            decreases s.len() - q,
        {
            q = q + 1;
        }
        Ok(starts_at_exec(&self.input, q, "if") || starts_at_exec(&self.input, q, "["))
    }

    /// Moves over the keyword `kw` (as many characters as `kw` has bytes)
    /// when the text starts with it; fails otherwise.
    pub fn expect_keyword(&mut self, kw: &str) -> (r: Result<(), ParseError>)
        requires
            old(self).wf(),
        ensures
            final(self).moved_from(old(self)),
            final(self).index == expect_keyword(
                old(self).input@,
                old(self).index as int,
                kw@,
                kw.len() as int,
            ).0,
            match expect_keyword(
                old(self).input@,
                old(self).index as int,
                kw@,
                kw.len() as int,
            ).1 {
                Ok(_) => r is Ok,
                Err(m) => r is Err && reports(r->Err_0, final(self).input@, final(self).index as int, m),
            },
    {
        if self.starts_with(kw) {
            let n = kw.len();
            let mut i: usize = 0;
            while i < n
                invariant
                    self.wf(),
                    self.input@ == old(self).input@,
                    i <= n,
                    n == kw.len(),
                    self.index == if old(self).index + i <= self.input@.len() {
                        old(self).index + i
                    } else {
                        self.input@.len() as int
                    },
                decreases n - i,
            {
                self.advance();
                i = i + 1;
            }
            Ok(())
        } else {
            let m = concat(concat("expected '", kw).as_str(), "'");
            Err(self.err_string(m))
        }
    }

    /// Reads an array whose `[` is at the cursor: values separated by
    /// commas, with blanks, line endings and a comment allowed around them,
    /// and an optional trailing comma.
    pub fn parse_array(&mut self) -> (r: Result<Value, ParseError>)
        requires
            old(self).wf(),
        ensures
            final(self).moved_from(old(self)),
            final(self).index == array(old(self).input@, old(self).index as int).0,
            agrees_value(
                r,
                final(self).input@,
                final(self).index as int,
                array(old(self).input@, old(self).index as int).1,
            ),
        decreases old(self).input@.len() - old(self).index, 2int,
    {
        let ghost s = self.input@;
        let ghost p0 = self.index as int;
        if self.index >= self.input.len() {
            return self.parse_number_or_bool_or_date();
        }
        self.advance();
        let mut arr: Vec<Value> = Vec::new();
        proof {
            assert(values_view(arr@) =~= Seq::<SValue>::empty());
        }
        loop
            invariant
                self.wf(),
                self.input@ == s,
                s == old(self).input@,
                p0 == old(self).index,
                p0 < self.index,
                array_items(s, self.index as int, values_view(arr@)) == array(s, p0),
            decreases s.len() - self.index,
        {
            self.skip_whitespace_and_newlines();
            self.skip_comment();
            self.skip_whitespace_and_newlines();
            if self.peek() == Some(']') {
                self.advance();
                return Ok(Value::Array(arr));
            }
            let v = self.parse_value()?;
            proof {
                lemma_values_view_push(arr@, v);
            }
            arr.push(v);
            self.skip_whitespace_and_newlines();
            self.skip_comment();
            self.skip_whitespace_and_newlines();
            match self.peek() {
                Some(c) => {
                    if c == ',' {
                        self.advance();
                    } else if c == ']' {
                        self.advance();
                        return Ok(Value::Array(arr));
                    } else {
                        return Err(self.err("expected ',' or ']' in array"));
                    }
                },
                None => {
                    return Err(self.err("expected ',' or ']' in array"));
                },
            }
        }
    }

    /// Reads `if cond { a }`, optionally followed by `else { b }`.
    pub fn parse_conditional(&mut self) -> (r: Result<Value, ParseError>)
        requires
            old(self).wf(),
        ensures
            final(self).moved_from(old(self)),
            final(self).index == conditional(old(self).input@, old(self).index as int).0,
            agrees_value(
                r,
                final(self).input@,
                final(self).index as int,
                conditional(old(self).input@, old(self).index as int).1,
            ),
        decreases old(self).input@.len() - old(self).index, 3int,
    {
        let ghost s = self.input@;
        let ghost p0 = self.index as int;
        proof {
            lemma_keyword_bytes();
        }
        self.expect_keyword("if")?;
        self.skip_whitespace_inline();
        let condition = self.parse_expr()?;
        self.skip_whitespace_inline();
        let then_branch = self.parse_block_value()?;
        self.skip_whitespace_inline();
        let else_branch = if self.starts_with("else") {
            self.expect_keyword("else")?;
            self.skip_whitespace_inline();
            let b = self.parse_block_value()?;
            Some(Box::new(b))
        } else {
            None
        };
        Ok(Value::Conditional { condition, then_branch: Box::new(then_branch), else_branch })
    }

    /// Reads `{ value }`.
    pub fn parse_block_value(&mut self) -> (r: Result<Value, ParseError>)
        requires
            old(self).wf(),
        ensures
            final(self).moved_from(old(self)),
            final(self).index == block(old(self).input@, old(self).index as int).0,
            agrees_value(
                r,
                final(self).input@,
                final(self).index as int,
                block(old(self).input@, old(self).index as int).1,
            ),
        decreases old(self).input@.len() - old(self).index, 2int,
    {
        if self.peek() != Some('{') {
            return Err(self.err("expected '{'"));
        }
        self.advance();
        self.skip_whitespace_and_newlines();
        let val = self.parse_value()?;
        self.skip_whitespace_and_newlines();
        if self.peek() != Some('}') {
            return Err(self.err("expected '}'"));
        }
        self.advance();
        Ok(val)
    }

    /// Reads a boolean (`true`/`false` not followed by a word character) or
    /// the text up to the next `,` `]` `}` `#` or line ending as a number.
    pub fn parse_number_or_bool_or_date(&mut self) -> (r: Result<Value, ParseError>)
        requires
            old(self).wf(),
        ensures
            final(self).moved_from(old(self)),
            final(self).index == scalar(old(self).input@, old(self).index as int).0,
            agrees_value(
                r,
                final(self).input@,
                final(self).index as int,
                scalar(old(self).input@, old(self).index as int).1,
            ),
    {
        let ghost s = self.input@;
        proof {
            reveal_strlit("true");
            reveal_strlit("false");
        }
        if self.starts_with("true") && !self.word_char_at(self.index + 4) {
            self.advance_by(4);
            return Ok(Value::Boolean(true));
        }
        if self.starts_with("false") && !self.word_char_at(self.index + 5) {
            self.advance_by(5);
            return Ok(Value::Boolean(false));
        }
        let start = self.index;
        loop
            invariant
                self.wf(),
                self.input@ == s,
                s == old(self).input@,
                start == old(self).index,
                start <= self.index,
                scalar_end(s, self.index as int) == scalar_end(s, start as int),
            ensures
                self.wf(),
                self.input@ == s,
                start <= self.index,
                self.index == scalar_end(s, start as int),
            decreases s.len() - self.index,
        {
            match self.peek() {
                Some(c) => {
                    if c == ',' || c == ']' || c == '}' || c == '\n' || c == '\r' || c == '#' {
                        break;
                    }
                    self.advance();
                },
                None => {
                    break;
                },
            }
        }
        let end = trimmed_end(&self.input, start, self.index);
        let raw = sub_chars(&self.input, start, end);
        match classify_scalar(&raw) {
            Ok(v) => Ok(v),
            Err(m) => Err(self.err_string(m)),
        }
    }

    /// The character at `i` could continue a word (alphanumeric or `_`).
    fn word_char_at(&self, i: usize) -> (b: bool)
        requires
            self.wf(),
        ensures
            b == word_char_at(self.input@, i as int),
    {
        if i < self.input.len() {
            let c = self.input[i];
            is_alphanumeric(c) || c == '_'
        } else {
            false
        }
    }

    /// Reads a dotted key: keys separated by `.`.
    pub fn parse_key(&mut self) -> (r: Result<Vec<String>, ParseError>)
        requires
            old(self).wf(),
        ensures
            final(self).moved_from(old(self)),
            final(self).index == dotted_key(old(self).input@, old(self).index as int).0,
            agrees_keys(
                r,
                final(self).input@,
                final(self).index as int,
                dotted_key(old(self).input@, old(self).index as int).1,
            ),
    {
        let ghost s = self.input@;
        let ghost p0 = self.index as int;
        let first = self.parse_simple_key()?;
        let mut parts: Vec<String> = Vec::new();
        parts.push(first);
        proof {
            assert(strings_view(parts@) =~= seq![first@]);
        }
        while self.peek() == Some('.')
            invariant
                self.wf(),
                self.input@ == s,
                s == old(self).input@,
                p0 == old(self).index,
                p0 <= self.index,
                key_rest(s, self.index as int, strings_view(parts@)) == dotted_key(s, p0),
            decreases s.len() - self.index,
        {
            self.advance();
            let k = self.parse_simple_key()?;
            proof {
                lemma_strings_view_push(parts@, k);
            }
            parts.push(k);
        }
        Ok(parts)
    }

    /// Reads one key: a basic string, a literal string, or a bare key of
    /// alphanumerics, `-` and `_`.
    pub fn parse_simple_key(&mut self) -> (r: Result<String, ParseError>)
        requires
            old(self).wf(),
        ensures
            final(self).moved_from(old(self)),
            old(self).index < final(self).index || r is Err,
            final(self).index == simple_key(old(self).input@, old(self).index as int).0,
            agrees_str(
                r,
                final(self).input@,
                final(self).index as int,
                simple_key(old(self).input@, old(self).index as int).1,
            ),
    {
        match self.peek() {
            Some(c) => {
                if c == '"' {
                    self.parse_basic_string()
                } else if c == '\'' {
                    self.parse_literal_string()
                } else if is_alphanumeric(c) || c == '-' || c == '_' {
                    let ghost s = self.input@;
                    let start = self.index;
                    self.advance();
                    loop
                        invariant
                            self.wf(),
                            self.input@ == s,
                            s == old(self).input@,
                            start == old(self).index,
                            start < self.index,
                            key_run(s, self.index as int) == key_run(s, start as int),
                        ensures
                            self.wf(),
                            self.input@ == s,
                            start < self.index,
                            self.index == key_run(s, start as int),
                        decreases s.len() - self.index,
                    {
                        match self.peek() {
                            Some(d) => {
                                if is_alphanumeric(d) || d == '-' || d == '_' {
                                    self.advance();
                                } else {
                                    break;
                                }
                            },
                            None => {
                                break;
                            },
                        }
                    }
                    Ok(string_from_range(&self.input, start, self.index))
                } else {
                    Err(self.err("expected a key"))
                }
            },
            None => Err(self.err("expected a key")),
        }
    }

    /// Reads an escape whose backslash is at the cursor.
    pub fn parse_escape(&mut self) -> (r: Result<char, ParseError>)
        requires
            old(self).wf(),
        ensures
            final(self).moved_from(old(self)),
            old(self).index < old(self).input@.len() ==> old(self).index < final(self).index,
            final(self).index == escape_char(
                old(self).input@,
                next(old(self).input@, old(self).index as int),
            ).0,
            agrees_char(
                r,
                final(self).input@,
                final(self).index as int,
                escape_char(old(self).input@, next(old(self).input@, old(self).index as int)).1,
            ),
    {
        self.advance();
        self.parse_escape_char()
    }

    /// Reads the character after the backslash of an escape: `b t n f r " \`
    /// or a `u`/`U` escape of 4/8 hexadecimal digits.
    pub fn parse_escape_char(&mut self) -> (r: Result<char, ParseError>)
        requires
            old(self).wf(),
        ensures
            final(self).moved_from(old(self)),
            final(self).index == escape_char(old(self).input@, old(self).index as int).0,
            agrees_char(
                r,
                final(self).input@,
                final(self).index as int,
                escape_char(old(self).input@, old(self).index as int).1,
            ),
    {
        let c = self.advance();
        match c {
            Some(ch) => {
                if ch == 'b' {
                    Ok('\x08')
                } else if ch == 't' {
                    Ok('\t')
                } else if ch == 'n' {
                    Ok('\n')
                } else if ch == 'f' {
                    Ok('\x0C')
                } else if ch == 'r' {
                    Ok('\r')
                } else if ch == '"' {
                    Ok('"')
                } else if ch == '\\' {
                    Ok('\\')
                } else if ch == 'u' {
                    self.parse_unicode(4)
                } else if ch == 'U' {
                    self.parse_unicode(8)
                } else {
                    let d = debug_char_option(c);
                    let m = concat("invalid escape: ", d.as_str());
                    Err(self.err_string(m))
                }
            },
            None => {
                let d = debug_char_option(c);
                let m = concat("invalid escape: ", d.as_str());
                Err(self.err_string(m))
            },
        }
    }

    /// Reads `digits` hexadecimal digits and the character they encode.
    pub fn parse_unicode(&mut self, digits: usize) -> (r: Result<char, ParseError>)
        requires
            old(self).wf(),
        ensures
            final(self).moved_from(old(self)),
            final(self).index == unicode(old(self).input@, old(self).index as int, digits as nat).0,
            agrees_char(
                r,
                final(self).input@,
                final(self).index as int,
                unicode(old(self).input@, old(self).index as int, digits as nat).1,
            ),
    {
        let ghost s = self.input@;
        let ghost p0 = self.index as int;
        let ghost mut acc: int = 0;
        let mut code: u32 = 0;
        let mut i: usize = 0;
        while i < digits
            invariant
                self.wf(),
                self.input@ == s,
                s == old(self).input@,
                p0 == old(self).index,
                p0 <= self.index,
                i <= digits,
                0 <= acc,
                acc <= 0x10FFFF ==> code == acc,
                acc > 0x10FFFF ==> code == 0x110000,
                hex_digits(s, self.index as int, (digits - i) as nat, acc) == hex_digits(
                    s,
                    p0,
                    digits as nat,
                    0,
                ),
            decreases digits - i,
        {
            match self.advance() {
                Some(c) => {
                    match digit_of(c) {
                        Some(d) => {
                            if d < 16 {
                                proof {
                                    acc = acc * 16 + digit_value(c)->0;
                                }
                                if code >= 0x110000 || code * 16 + d > 0x10FFFF {
                                    code = 0x110000;
                                } else {
                                    code = code * 16 + d;
                                }
                            } else {
                                return Err(self.err("invalid unicode escape"));
                            }
                        },
                        None => {
                            return Err(self.err("invalid unicode escape"));
                        },
                    }
                },
                None => {
                    return Err(self.err("invalid unicode escape"));
                },
            }
            i = i + 1;
        }
        match std::char::from_u32(code) {
            Some(ch) => Ok(ch),
            None => Err(self.err("invalid unicode codepoint")),
        }
    }
}

/// The keywords of conditionals are ASCII: as many bytes as characters.
proof fn lemma_keyword_bytes()
    ensures
        "if".len() == 2,
        "else".len() == 4,
        "if"@.len() == 2,
        "else"@.len() == 4,
        "expected '"@ + "if"@ + "'"@ == "expected 'if'"@,
{
    reveal_strlit("if");
    reveal_strlit("else");
    reveal_strlit("expected '");
    reveal_strlit("'");
    reveal_strlit("expected 'if'");
    broadcast use vstd::string::is_ascii_spec_bytes;
    assert(vstd::string::is_ascii("if"));
    assert(vstd::string::is_ascii("else"));
    assert("expected '"@ + "if"@ + "'"@ =~= "expected 'if'"@);
}

/// `char::from_u32` returns the character of a Unicode scalar value and
/// nothing for any other number.
pub assume_specification[ std::char::from_u32 ](i: u32) -> (r: Option<char>)
    ensures
        is_scalar(i as int) ==> r == Some(i as char),
        !is_scalar(i as int) ==> r is None,
;

} // verus!
