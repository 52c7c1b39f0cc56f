//! The parser's cursor: the input, the position in it, and the line and
//! column of that position, with the moves that every parsing step is made
//! of.
use vstd::prelude::*;
use crate::ast::{Expr, SExpr, SValue, Value};
use crate::error::ParseError;
use crate::parser::spec::{column_at, column_in, line_at, line_end, newlines, next, nth_line, peek, skip_comment, skip_inline, skip_line_end, skip_ws_comments, skip_ws_nl};
use crate::text::{chars_of, lemma_encode_prefix, string_from_range, strings_view, utf8_width};
use vstd::utf8::encode_utf8;

verus! {

/// A cursor over the characters of a document: `index` counts the
/// characters before the cursor, `pos` the bytes they take in UTF-8, and
/// `line` and `column` (from 1) locate the cursor.
pub struct Parser {
    pub input: Vec<char>,
    pub index: usize,
    pub pos: usize,
    pub line: usize,
    pub column: usize,
}

/// `e` reports `msg` at position `p` of `s`: its line and column are those
/// of `p` and its snippet is the text of that line.
pub open spec fn reports(e: ParseError, s: Seq<char>, p: int, msg: Seq<char>) -> bool {
    &&& e.message@ == msg
    &&& e.line == line_at(s, p)
    &&& e.column == column_at(s, p)
    &&& e.snippet@ == nth_line(s, (line_at(s, p) - 1) as nat)
}

/// A result agrees with the model's outcome `m`, the error being reported
/// at `p` (the same for each kind of result below).
pub open spec fn agrees_str(r: Result<String, ParseError>, s: Seq<char>, p: int, m: Result<Seq<char>, Seq<char>>) -> bool {
    match (r, m) {
        (Ok(x), Ok(y)) => x@ == y,
        (Err(e), Err(msg)) => reports(e, s, p, msg),
        _ => false,
    }
}

pub open spec fn agrees_char(r: Result<char, ParseError>, s: Seq<char>, p: int, m: Result<char, Seq<char>>) -> bool {
    match (r, m) {
        (Ok(x), Ok(y)) => x == y,
        (Err(e), Err(msg)) => reports(e, s, p, msg),
        _ => false,
    }
}

pub open spec fn agrees_keys(r: Result<Vec<String>, ParseError>, s: Seq<char>, p: int, m: Result<Seq<Seq<char>>, Seq<char>>) -> bool {
    match (r, m) {
        (Ok(x), Ok(y)) => strings_view(x@) == y,
        (Err(e), Err(msg)) => reports(e, s, p, msg),
        _ => false,
    }
}

pub open spec fn agrees_expr(r: Result<Expr, ParseError>, s: Seq<char>, p: int, m: Result<SExpr, Seq<char>>) -> bool {
    match (r, m) {
        (Ok(x), Ok(y)) => x@ == y,
        (Err(e), Err(msg)) => reports(e, s, p, msg),
        _ => false,
    }
}

pub open spec fn agrees_value(r: Result<Value, ParseError>, s: Seq<char>, p: int, m: Result<SValue, Seq<char>>) -> bool {
    match (r, m) {
        (Ok(x), Ok(y)) => x@ == y,
        (Err(e), Err(msg)) => reports(e, s, p, msg),
        _ => false,
    }
}

pub proof fn lemma_newlines_bound(t: Seq<char>)
    ensures
        newlines(t) <= t.len(),
        column_in(t) <= t.len(),
    decreases t.len(),
{
    if t.len() > 0 {
        lemma_newlines_bound(t.drop_last());
    }
}

proof fn lemma_step(s: Seq<char>, p: int)
    requires
        0 <= p < s.len(),
    ensures
        newlines(s.take(p + 1)) == newlines(s.take(p)) + if s[p] == '\n' {
            1nat
        } else {
            0nat
        },
        column_in(s.take(p + 1)) == if s[p] == '\n' {
            0
        } else {
            column_in(s.take(p)) + 1
        },
{
    assert(s.take(p + 1).drop_last() =~= s.take(p));
    assert(s.take(p + 1).last() == s[p]);
}

impl Parser {
    /// The cursor's fields describe a position of its input.
    pub open spec fn wf(&self) -> bool {
        &&& self.index <= self.input@.len()
        &&& self.input@.len() < usize::MAX
        &&& encode_utf8(self.input@).len() <= usize::MAX
        &&& self.pos == encode_utf8(self.input@.take(self.index as int)).len()
        &&& self.line == line_at(self.input@, self.index as int)
        &&& self.column == column_at(self.input@, self.index as int)
    }

    /// `self` is a well-formed cursor over the same input as `old`, not
    /// before it.
    pub open spec fn moved_from(&self, old: &Parser) -> bool {
        &&& self.wf()
        &&& self.input@ == old.input@
        &&& old.index <= self.index
    }

    /// A cursor at the start of `input`. (The text's length in characters
    /// and in UTF-8 bytes must fit in a `usize`.)
    pub fn new(input: &str) -> (r: Parser)
        requires
            input@.len() < usize::MAX,
            encode_utf8(input@).len() <= usize::MAX,
        ensures
            r.wf(),
            r.input@ == input@,
            r.index == 0,
            r.pos == 0,
    {
        let chars = chars_of(input);
        proof {
            assert(chars@.take(0) =~= Seq::<char>::empty());
            assert(encode_utf8(chars@.take(0)) =~= Seq::<u8>::empty());
        }
        Parser { input: chars, index: 0, pos: 0, line: 1, column: 1 }
    }

    /// The text from the current position to the end.
    pub fn remaining(&self) -> (r: String)
        requires
            self.wf(),
        ensures
            r@ == self.input@.skip(self.index as int),
    {
        let r = string_from_range(&self.input, self.index, self.input.len());
        proof {
            assert(self.input@.subrange(self.index as int, self.input@.len() as int) =~= self.input@.skip(
                self.index as int,
            ));
        }
        r
    }

    /// The character at the current position, if any.
    pub fn peek(&self) -> (r: Option<char>)
        requires
            self.wf(),
        ensures
            r == peek(self.input@, self.index as int),
    {
        if self.index < self.input.len() {
            Some(self.input[self.index])
        } else {
            None
        }
    }

    /// Moves over one character and returns it (nothing at the end).
    pub fn advance(&mut self) -> (r: Option<char>)
        requires
            old(self).wf(),
        ensures
            final(self).moved_from(old(self)),
            r == peek(old(self).input@, old(self).index as int),
            final(self).index == next(old(self).input@, old(self).index as int),
    {
        if self.index >= self.input.len() {
            return None;
        }
        let ch = self.input[self.index];
        proof {
            lemma_step(self.input@, self.index as int);
            lemma_newlines_bound(self.input@.take(self.index as int));
            lemma_encode_prefix(self.input@, self.index as int);
        }
        self.pos = self.pos + utf8_width(ch);
        self.index = self.index + 1;
        if ch == '\n' {
            self.line = self.line + 1;
            self.column = 1;
        } else {
            self.column = self.column + 1;
        }
        Some(ch)
    }

    /// The input starts with `pat` at the current position.
    pub fn starts_with(&self, pat: &str) -> (b: bool)
        requires
            self.wf(),
        ensures
            b == crate::text::starts_at(self.input@, self.index as int, pat@),
    {
        crate::text::starts_at_exec(&self.input, self.index, pat)
    }

    /// Moves over `n` characters.
    pub fn advance_by(&mut self, n: usize)
        requires
            old(self).wf(),
            old(self).index + n <= old(self).input@.len(),
        ensures
            final(self).moved_from(old(self)),
            final(self).index == old(self).index + n,
    {
        let mut i: usize = 0;
        while i < n
            invariant
                self.wf(),
                self.input@ == old(self).input@,
                i <= n,
                self.index == old(self).index + i,
                old(self).index + n <= old(self).input@.len(),
            decreases n - i,
        {
            self.advance();
            i = i + 1;
        }
    }

    /// Skips spaces and tabs.
    pub fn skip_whitespace_inline(&mut self)
        requires
            old(self).wf(),
        ensures
            final(self).moved_from(old(self)),
            final(self).index == skip_inline(old(self).input@, old(self).index as int),
    {
        while self.index < self.input.len() && (self.input[self.index] == ' ' || self.input[self.index]
            == '\t')
            invariant
                self.wf(),
                self.input@ == old(self).input@,
                old(self).index <= self.index,
                skip_inline(self.input@, self.index as int) == skip_inline(
                    old(self).input@,
                    old(self).index as int,
                ),
            decreases self.input@.len() - self.index,
        {
            self.advance();
        }
    }

    /// Skips spaces, tabs, line feeds and carriage returns.
    pub fn skip_whitespace_and_newlines(&mut self)
        requires
            old(self).wf(),
        ensures
            final(self).moved_from(old(self)),
            final(self).index == skip_ws_nl(old(self).input@, old(self).index as int),
    {
        while self.index < self.input.len() && (self.input[self.index] == ' ' || self.input[self.index]
            == '\t' || self.input[self.index] == '\n' || self.input[self.index] == '\r')
            invariant
                self.wf(),
                self.input@ == old(self).input@,
                old(self).index <= self.index,
                skip_ws_nl(self.input@, self.index as int) == skip_ws_nl(
                    old(self).input@,
                    old(self).index as int,
                ),
            decreases self.input@.len() - self.index,
        {
            self.advance();
        }
    }

    /// Skips a comment (a `#` and the rest of its line, not the line feed).
    pub fn skip_comment(&mut self)
        requires
            old(self).wf(),
        ensures
            final(self).moved_from(old(self)),
            final(self).index == skip_comment(old(self).input@, old(self).index as int),
    {
        if self.peek() == Some('#') {
            while self.index < self.input.len() && self.input[self.index] != '\n'
                invariant
                    self.wf(),
                    self.input@ == old(self).input@,
                    old(self).index <= self.index,
                    line_end(self.input@, self.index as int) == line_end(
                        old(self).input@,
                        old(self).index as int,
                    ),
                decreases self.input@.len() - self.index,
            {
                self.advance();
            }
        }
    }

    /// Skips blanks, a comment, and one line ending.
    pub fn skip_line_end(&mut self)
        requires
            old(self).wf(),
        ensures
            final(self).moved_from(old(self)),
            final(self).index == skip_line_end(old(self).input@, old(self).index as int),
    {
        self.skip_whitespace_inline();
        self.skip_comment();
        if self.peek() == Some('\r') {
            self.advance();
        }
        if self.peek() == Some('\n') {
            self.advance();
        }
    }

    /// Skips blanks, line endings and comments.
    pub fn skip_ws_and_comments(&mut self)
        requires
            old(self).wf(),
        ensures
            final(self).moved_from(old(self)),
            final(self).index == skip_ws_comments(old(self).input@, old(self).index as int),
    {
        loop
            invariant
                self.wf(),
                self.input@ == old(self).input@,
                old(self).index <= self.index,
                skip_ws_comments(self.input@, self.index as int) == skip_ws_comments(
                    old(self).input@,
                    old(self).index as int,
                ),
            ensures
                self.wf(),
                self.input@ == old(self).input@,
                old(self).index <= self.index,
                self.index == skip_ws_comments(old(self).input@, old(self).index as int),
            decreases self.input@.len() - self.index,
        {
            let before = self.index;
            self.skip_whitespace_and_newlines();
            self.skip_comment();
            if self.index == before {
                assert(skip_ws_comments(self.input@, before as int) == before);
                break;
            }
        }
    }

    /// An error with message `msg` at the current position.
    pub fn err(&self, msg: &str) -> (e: ParseError)
        requires
            self.wf(),
        ensures
            reports(e, self.input@, self.index as int, msg@),
    {
        ParseError {
            message: crate::text::string_of(msg),
            line: self.line,
            column: self.column,
            snippet: self.current_line(),
        }
    }

    /// An error with message `msg` at the current position.
    pub fn err_string(&self, msg: String) -> (e: ParseError)
        requires
            self.wf(),
        ensures
            reports(e, self.input@, self.index as int, msg@),
    {
        ParseError { message: msg, line: self.line, column: self.column, snippet: self.current_line() }
    }

    /// The text of the current line.
    pub fn current_line(&self) -> (r: String)
        requires
            self.wf(),
        ensures
            r@ == nth_line(self.input@, (self.line - 1) as nat),
    {
        proof {
            lemma_newlines_bound(self.input@.take(self.index as int));
        }
        proof {
            assert(self.input@.skip(0) =~= self.input@);
        }
        line_text(&self.input, 0, self.line - 1)
    }
}

/// Line `k` of `s.skip(start)`.
fn line_text(s: &Vec<char>, start: usize, k: usize) -> (r: String)
    requires
        start <= s@.len(),
    ensures
        r@ == nth_line(s@.skip(start as int), k as nat),
    decreases s@.len() - start, k,
{
    let ghost t = s@.skip(start as int);
    let mut e = start;
    while e < s.len() && s[e] != '\n'
        invariant
            start <= e <= s@.len(),
            t == s@.skip(start as int),
            line_end(t, e - start) == line_end(t, 0),
        decreases s@.len() - e,
    {
        proof {
            assert(t[e - start] == s@[e as int]);
        }
        e = e + 1;
    }
    proof {
        if e < s@.len() {
            assert(t[e - start] == s@[e as int]);
        }
        assert(line_end(t, e - start) == e - start);
    }
    if k == 0 {
        if e < s.len() {
            let mut end = e;
            if end > start && s[end - 1] == '\r' {
                end = end - 1;
            }
            let r = string_from_range(s, start, end);
            proof {
                assert(t.take(e - start).len() == e - start);
                if e > start && s@[e - 1] == '\r' {
                    assert(t.take(e - start).last() == s@[e - 1]);
                    assert(s@.subrange(start as int, end as int) =~= t.take(e - start).drop_last());
                } else {
                    if e > start {
                        assert(t.take(e - start).last() == s@[e - 1]);
                    }
                    assert(s@.subrange(start as int, end as int) =~= t.take(e - start));
                }
            }
            r
        } else {
            let r = string_from_range(s, start, s.len());
            proof {
                assert(s@.subrange(start as int, s@.len() as int) =~= t);
            }
            r
        }
    } else if e < s.len() {
        let r = line_text(s, e + 1, k - 1);
        proof {
            assert(t.skip(e - start + 1) =~= s@.skip(e + 1));
        }
        r
    } else {
        String::new()
    }
}

} // verus!
