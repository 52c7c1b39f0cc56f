//! Whole documents: `key = value` lines and `[table]` / `[[array]]` headers.
use vstd::prelude::*;
use vstd::utf8::encode_utf8;
use crate::ast::{entries_view, SValue, Value};
use crate::error::ParseError;
use crate::parser::cursor::{reports, Parser};
use crate::parser::spec::{document, entry_step, header_step, parse_document, peek};
use crate::text::{copy_string, copy_strings, lemma_strings_view_push, strings_view};

verus! {

/// A document result agrees with the model's outcome `m`.
pub open spec fn agrees_table(r: Result<Vec<(String, Value)>, ParseError>, s: Seq<char>, p: int, m: Result<Seq<(Seq<char>, SValue)>, Seq<char>>) -> bool {
    match (r, m) {
        (Ok(x), Ok(y)) => entries_view(x@) == y,
        (Err(e), Err(msg)) => reports(e, s, p, msg),
        _ => false,
    }
}

/// `a` followed by `b`, as a new list.
fn joined(a: &Vec<String>, b: &Vec<String>) -> (r: Vec<String>)
    ensures
        strings_view(r@) == strings_view(a@) + strings_view(b@),
{
    let mut out = copy_strings(a);
    proof {
        assert(strings_view(out@) =~= strings_view(a@));
    }
    let mut i: usize = 0;
    while i < b.len()
        invariant
            i <= b@.len(),
            strings_view(out@) == strings_view(a@) + strings_view(b@.take(i as int)),
        decreases b@.len() - i,
    {
        let x = copy_string(&b[i]);
        proof {
            lemma_strings_view_push(out@, x);
            assert(b@.take(i + 1) =~= b@.take(i as int).push(b@[i as int]));
            lemma_strings_view_push(b@.take(i as int), b@[i as int]);
        }
        out.push(x);
        i = i + 1;
    }
    assert(b@.take(b@.len() as int) =~= b@);
    out
}

/// A header's result agrees with the model's outcome `m`, given the root
/// table `root` after the call.
pub open spec fn agrees_header(r: Result<(Vec<String>, bool), ParseError>, root: Seq<(String, Value)>, s: Seq<char>, p: int, m: Result<(Seq<(Seq<char>, SValue)>, Seq<Seq<char>>, bool), Seq<char>>) -> bool {
    match (r, m) {
        (Ok((path, arr)), Ok((t, mp, ma))) => entries_view(root) == t && strings_view(path@) == mp && arr == ma,
        (Err(e), Err(msg)) => reports(e, s, p, msg),
        _ => false,
    }
}

/// An entry's result agrees with the model's outcome `m`, given the root
/// table `root` after the call.
pub open spec fn agrees_entry(r: Result<(), ParseError>, root: Seq<(String, Value)>, s: Seq<char>, p: int, m: Result<Seq<(Seq<char>, SValue)>, Seq<char>>) -> bool {
    match (r, m) {
        (Ok(()), Ok(t)) => entries_view(root) == t,
        (Err(e), Err(msg)) => reports(e, s, p, msg),
        _ => false,
    }
}

impl Parser {
    /// Reads a `[table]` or `[[array]]` header whose `[` is at the cursor,
    /// and for an array of tables appends a fresh table to it.
    #[verifier::spinoff_prover]
    fn parse_header(&mut self, root: &mut Vec<(String, Value)>) -> (r: Result<(Vec<String>, bool), ParseError>)
        requires
            old(self).wf(),
            peek(old(self).input@, old(self).index as int) == Some('['),
        ensures
            final(self).moved_from(old(self)),
            old(self).index < final(self).index,
            final(self).index == header_step(old(self).input@, old(self).index as int, entries_view(old(root)@)).0,
            agrees_header(
                r,
                final(root)@,
                final(self).input@,
                final(self).index as int,
                header_step(old(self).input@, old(self).index as int, entries_view(old(root)@)).1,
            ),
    {
        self.advance();
        let arr = self.peek() == Some('[');
        if arr {
            self.advance();
        }
        self.skip_whitespace_inline();
        let path = self.parse_key()?;
        self.skip_whitespace_inline();
        if arr {
            if self.peek() != Some(']') {
                return Err(self.err("expected ']]'"));
            }
            self.advance();
            if self.peek() != Some(']') {
                return Err(self.err("expected ']]'"));
            }
            self.advance();
        } else {
            if self.peek() != Some(']') {
                return Err(self.err("expected ']'"));
            }
            self.advance();
        }
        self.skip_line_end();
        if arr {
            match self.ensure_array(root, path.as_slice()) {
                Ok(()) => {},
                Err(e) => {
                    return Err(self.err_string(e));
                },
            }
            match self.push_array_entry(root, path.as_slice()) {
                Ok(()) => {},
                Err(e) => {
                    return Err(self.err_string(e));
                },
            }
        }
        Ok((path, arr))
    }

    /// Reads a `key = value` line and inserts the value: under `current`, or
    /// into the last table of the array `current` when `is_array` holds.
    fn parse_entry(&mut self, root: &mut Vec<(String, Value)>, current: &Vec<String>, is_array: bool) -> (r: Result<(), ParseError>)
        requires
            old(self).wf(),
        ensures
            final(self).moved_from(old(self)),
            r is Ok ==> old(self).index < final(self).index,
            final(self).index == entry_step(
                old(self).input@,
                old(self).index as int,
                entries_view(old(root)@),
                strings_view(current@),
                is_array,
            ).0,
            agrees_entry(
                r,
                final(root)@,
                final(self).input@,
                final(self).index as int,
                entry_step(
                    old(self).input@,
                    old(self).index as int,
                    entries_view(old(root)@),
                    strings_view(current@),
                    is_array,
                ).1,
            ),
    {
        let keys = self.parse_key()?;
        self.skip_whitespace_inline();
        if self.peek() != Some('=') {
            return Err(self.err("expected '='"));
        }
        self.advance();
        self.skip_whitespace_inline();
        let val = self.parse_value()?;
        self.skip_line_end();
        if is_array && current.len() > 0 {
            match self.insert_into_last_array_entry(root, current.as_slice(), keys.as_slice(), val) {
                Ok(()) => Ok(()),
                Err(e) => Err(self.err_string(e)),
            }
        } else {
            let full_path = joined(current, &keys);
            match self.insert_dotted(root, full_path.as_slice(), val) {
                Ok(()) => Ok(()),
                Err(e) => Err(self.err_string(e)),
            }
        }
    }

    /// Reads the document from the cursor to the end: its root table, with
    /// the entries of `[table]` sections under their path and those of
    /// `[[array]]` sections in the last table of that array.
    pub fn parse(&mut self) -> (r: Result<Vec<(String, Value)>, ParseError>)
        requires
            old(self).wf(),
        ensures
            final(self).moved_from(old(self)),
            final(self).index == document(
                old(self).input@,
                old(self).index as int,
                Seq::empty(),
                Seq::empty(),
                false,
            ).0,
            agrees_table(
                r,
                final(self).input@,
                final(self).index as int,
                document(old(self).input@, old(self).index as int, Seq::empty(), Seq::empty(), false).1,
            ),
    {
        let ghost s = self.input@;
        let ghost p0 = self.index as int;
        let mut root: Vec<(String, Value)> = Vec::new();
        let mut current_path: Vec<String> = Vec::new();
        let mut is_array_table = false;
        proof {
            assert(entries_view(root@) =~= Seq::<(Seq<char>, SValue)>::empty());
            assert(strings_view(current_path@) =~= Seq::<Seq<char>>::empty());
        }
        loop
            invariant
                self.wf(),
                self.input@ == s,
                s == old(self).input@,
                p0 == old(self).index,
                p0 <= self.index,
                document(
                    s,
                    self.index as int,
                    entries_view(root@),
                    strings_view(current_path@),
                    is_array_table,
                ) == document(s, p0, Seq::empty(), Seq::empty(), false),
            decreases s.len() - self.index,
        {
            let ghost p = self.index as int;
            self.skip_ws_and_comments();
            match self.peek() {
                None => {
                    return Ok(root);
                },
                Some(c) => {
                    if c == '[' {
                        let (path, arr) = self.parse_header(&mut root)?;
                        current_path = path;
                        is_array_table = arr;
                    } else {
                        self.parse_entry(&mut root, &current_path, is_array_table)?;
                    }
                    proof {
                        assert(p < self.index);
                    }
                },
            }
        }
    }
}

/// Parses a whole document into its root table.
pub fn parse(input: &str) -> (r: Result<Vec<(String, Value)>, ParseError>)
    requires
        input@.len() < usize::MAX,
        encode_utf8(input@).len() <= usize::MAX,
    ensures
        agrees_table(r, input@, parse_document(input@).0, parse_document(input@).1),
{
    let mut parser = Parser::new(input);
    parser.parse()
}

} // verus!
