//! The meaning of the parser, stated over the input as a sequence of
//! characters and positions in it.
//!
//! Each parsing step is a function from a position `p` to the position `q`
//! where it stops and either what it read or the message of the error it
//! reports (an error is always reported at the position where the step
//! stops). A few branches below are guarded by `p < q <= s.len()`-style
//! conditions on the progress of a sub-step; the executable parser proves
//! that those conditions always hold, so the alternative branches (which
//! report an empty message) are never taken.
use vstd::prelude::*;
use crate::ast::{SExpr, SValue};
use crate::text::{
    alphanumeric, debug_option_char, digit_value, has_char, is_decimal_digit, is_digit_of,
    is_hex_digit, is_inline_ws, is_ws_or_newline, remove_underscores, starts_at, trim_end,
};

verus! {

// ---------------------------------------------------------------------------
// Positions, lines and columns
// ---------------------------------------------------------------------------
/// The character at `p`, if any.
pub open spec fn peek(s: Seq<char>, p: int) -> Option<char> {
    if 0 <= p < s.len() {
        Some(s[p])
    } else {
        None
    }
}

/// The position after advancing over one character (unchanged at the end).
pub open spec fn next(s: Seq<char>, p: int) -> int {
    if 0 <= p < s.len() {
        p + 1
    } else {
        p
    }
}

/// The number of line feeds in `s`.
pub open spec fn newlines(s: Seq<char>) -> nat
    decreases s.len(),
{
    if s.len() == 0 {
        0
    } else {
        newlines(s.drop_last()) + if s.last() == '\n' {
            1nat
        } else {
            0nat
        }
    }
}

/// The number of characters after the last line feed of `s`.
pub open spec fn column_in(s: Seq<char>) -> nat
    decreases s.len(),
{
    if s.len() == 0 {
        0
    } else if s.last() == '\n' {
        0
    } else {
        column_in(s.drop_last()) + 1
    }
}

/// The 1-based line of position `p`.
pub open spec fn line_at(s: Seq<char>, p: int) -> int {
    1 + newlines(s.take(p)) as int
}

/// The 1-based column of position `p`.
pub open spec fn column_at(s: Seq<char>, p: int) -> int {
    1 + column_in(s.take(p)) as int
}

/// Removes a carriage return that ends `t`.
pub open spec fn strip_cr(t: Seq<char>) -> Seq<char> {
    if t.len() > 0 && t.last() == '\r' {
        t.drop_last()
    } else {
        t
    }
}

/// Index of the first line feed at or after `i`, or `s.len()`.
pub open spec fn line_end(s: Seq<char>, i: int) -> int
    decreases s.len() - i,
{
    if 0 <= i < s.len() && s[i] != '\n' {
        line_end(s, i + 1)
    } else {
        i
    }
}

/// Line `k` (0-based) of `s` as `str::lines` yields it: lines end at a line
/// feed, a carriage return right before that line feed is dropped, and a
/// line feed at the very end does not start another line. Missing lines are
/// empty.
pub open spec fn nth_line(s: Seq<char>, k: nat) -> Seq<char>
    decreases s.len(), k,
{
    let e = line_end(s, 0);
    if k == 0 {
        if e < s.len() {
            strip_cr(s.take(e))
        } else {
            s
        }
    } else if 0 <= e < s.len() {
        nth_line(s.skip(e + 1), (k - 1) as nat)
    } else {
        Seq::empty()
    }
}

// ---------------------------------------------------------------------------
// Skipping
// ---------------------------------------------------------------------------
/// The first position at or after `p` that does not hold a space or a tab.
pub open spec fn skip_inline(s: Seq<char>, p: int) -> int
    decreases s.len() - p,
{
    if 0 <= p < s.len() && is_inline_ws(s[p]) {
        skip_inline(s, p + 1)
    } else {
        p
    }
}

/// The first position at or after `p` that holds no space, tab, line feed or
/// carriage return.
pub open spec fn skip_ws_nl(s: Seq<char>, p: int) -> int
    decreases s.len() - p,
{
    if 0 <= p < s.len() && is_ws_or_newline(s[p]) {
        skip_ws_nl(s, p + 1)
    } else {
        p
    }
}

/// A comment starting at `p` skipped up to (not over) the line feed that ends it.
pub open spec fn skip_comment(s: Seq<char>, p: int) -> int {
    if peek(s, p) == Some('#') {
        line_end(s, p)
    } else {
        p
    }
}

/// Trailing blanks, a comment, and one line ending (`\r\n`, `\r` or `\n`).
pub open spec fn skip_line_end(s: Seq<char>, p: int) -> int {
    let q = skip_comment(s, skip_inline(s, p));
    let q2 = if peek(s, q) == Some('\r') {
        q + 1
    } else {
        q
    };
    if peek(s, q2) == Some('\n') {
        q2 + 1
    } else {
        q2
    }
}

/// Blanks, line endings and comments, as many as follow `p`.
pub open spec fn skip_ws_comments(s: Seq<char>, p: int) -> int
    decreases s.len() - p,
{
    let q = skip_comment(s, skip_ws_nl(s, p));
    if p < q <= s.len() {
        skip_ws_comments(s, q)
    } else {
        q
    }
}

proof fn lemma_skip_ws_nl_bounds(s: Seq<char>, p: int)
    requires
        0 <= p <= s.len(),
    ensures
        p <= skip_ws_nl(s, p) <= s.len(),
    decreases s.len() - p,
{
    if 0 <= p < s.len() && is_ws_or_newline(s[p]) {
        lemma_skip_ws_nl_bounds(s, p + 1);
    }
}

proof fn lemma_line_end_bounds(s: Seq<char>, p: int)
    requires
        0 <= p <= s.len(),
    ensures
        p <= line_end(s, p) <= s.len(),
    decreases s.len() - p,
{
    if 0 <= p < s.len() && s[p] != '\n' {
        lemma_line_end_bounds(s, p + 1);
    }
}

/// Skipping blanks, line endings and comments stops at the end of the input
/// or where one more round would not move: skipping again changes nothing.
pub proof fn law_skipping_is_idempotent(s: Seq<char>, p: int)
    requires
        0 <= p <= s.len(),
    ensures
        p <= skip_ws_comments(s, p) <= s.len(),
        skip_comment(s, skip_ws_nl(s, skip_ws_comments(s, p))) == skip_ws_comments(s, p),
        skip_ws_comments(s, skip_ws_comments(s, p)) == skip_ws_comments(s, p),
    decreases s.len() - p,
{
    let a = skip_ws_nl(s, p);
    lemma_skip_ws_nl_bounds(s, p);
    if peek(s, a) == Some('#') {
        lemma_line_end_bounds(s, a);
    }
    let q = skip_comment(s, a);
    if p < q {
        law_skipping_is_idempotent(s, q);
    } else {
        assert(q == p);
    }
}

/// Blanks and line endings, then a comment, then blanks and line endings.
pub open spec fn skip_around_comment(s: Seq<char>, p: int) -> int {
    skip_ws_nl(s, skip_comment(s, skip_ws_nl(s, p)))
}

// ---------------------------------------------------------------------------
// Escapes and strings
// ---------------------------------------------------------------------------
/// A Unicode scalar value (what `char::from_u32` accepts).
pub open spec fn is_scalar(v: int) -> bool {
    0 <= v <= 0x10FFFF && !(0xD800 <= v <= 0xDFFF)
}

/// `n` hexadecimal digits from `p`, accumulated onto `acc`.
pub open spec fn hex_digits(s: Seq<char>, p: int, n: nat, acc: int) -> (int, Result<int, Seq<char>>)
    decreases n,
{
    if n == 0 {
        (p, Ok(acc))
    } else {
        match peek(s, p) {
            Some(c) => if is_hex_digit(c) {
                hex_digits(s, p + 1, (n - 1) as nat, acc * 16 + digit_value(c)->0)
            } else {
                (p + 1, Err("invalid unicode escape"@))
            },
            None => (p, Err("invalid unicode escape"@)),
        }
    }
}

/// A `\u`/`\U` escape body of `n` hexadecimal digits.
pub open spec fn unicode(s: Seq<char>, p: int, n: nat) -> (int, Result<char, Seq<char>>) {
    let (q, r) = hex_digits(s, p, n, 0);
    match r {
        Ok(v) => if is_scalar(v) {
            (q, Ok(v as char))
        } else {
            (q, Err("invalid unicode codepoint"@))
        },
        Err(m) => (q, Err(m)),
    }
}

/// The message for an unknown escape.
pub open spec fn invalid_escape(c: Option<char>) -> Seq<char> {
    "invalid escape: "@ + debug_option_char(c)
}

/// The character of an escape, read after its backslash.
pub open spec fn escape_char(s: Seq<char>, p: int) -> (int, Result<char, Seq<char>>) {
    match peek(s, p) {
        None => (p, Err(invalid_escape(None))),
        Some(c) => {
            let q = p + 1;
            if c == 'b' {
                (q, Ok('\x08'))
            } else if c == 't' {
                (q, Ok('\t'))
            } else if c == 'n' {
                (q, Ok('\n'))
            } else if c == 'f' {
                (q, Ok('\x0C'))
            } else if c == 'r' {
                (q, Ok('\r'))
            } else if c == '"' {
                (q, Ok('"'))
            } else if c == '\\' {
                (q, Ok('\\'))
            } else if c == 'u' {
                unicode(s, q, 4)
            } else if c == 'U' {
                unicode(s, q, 8)
            } else {
                (q, Err(invalid_escape(Some(c))))
            }
        },
    }
}

/// Each escape stands for the character TOML gives it: `\b` backspace,
/// `\t` tab, `\n` line feed, `\f` form feed, `\r` carriage return, `\"`
/// a double quote and `\\` a backslash, each reading one character after
/// the backslash; any other character but `u` and `U` is no escape.
pub proof fn law_escape_meanings(s: Seq<char>, p: int)
    requires
        0 <= p < s.len(),
    ensures
        s[p] == 'b' ==> escape_char(s, p) == (p + 1, Ok::<char, Seq<char>>('\x08')),
        s[p] == 't' ==> escape_char(s, p) == (p + 1, Ok::<char, Seq<char>>('\t')),
        s[p] == 'n' ==> escape_char(s, p) == (p + 1, Ok::<char, Seq<char>>('\n')),
        s[p] == 'f' ==> escape_char(s, p) == (p + 1, Ok::<char, Seq<char>>('\x0C')),
        s[p] == 'r' ==> escape_char(s, p) == (p + 1, Ok::<char, Seq<char>>('\r')),
        s[p] == '"' ==> escape_char(s, p) == (p + 1, Ok::<char, Seq<char>>('"')),
        s[p] == '\\' ==> escape_char(s, p) == (p + 1, Ok::<char, Seq<char>>('\\')),
        !(s[p] == 'b' || s[p] == 't' || s[p] == 'n' || s[p] == 'f' || s[p] == 'r' || s[p] == '"'
            || s[p] == '\\' || s[p] == 'u' || s[p] == 'U') ==> escape_char(s, p).1 is Err,
{
}

/// Reading a basic string's body, one step at a time: a double quote ends
/// it; a backslash and a double quote add a double quote; a backslash and
/// a backslash add a backslash; any other character but a line feed adds
/// itself.
pub proof fn law_basic_string_steps(s: Seq<char>, p: int, acc: Seq<char>)
    requires
        0 <= p < s.len(),
    ensures
        s[p] == '"' ==> basic_body(s, p, acc) == (p + 1, Ok::<Seq<char>, Seq<char>>(acc)),
        s[p] == '\\' && p + 1 < s.len() && s[p + 1] == '"' ==> basic_body(s, p, acc) == basic_body(
            s,
            p + 2,
            acc.push('"'),
        ),
        s[p] == '\\' && p + 1 < s.len() && s[p + 1] == '\\' ==> basic_body(s, p, acc) == basic_body(
            s,
            p + 2,
            acc.push('\\'),
        ),
        s[p] != '"' && s[p] != '\\' && s[p] != '\n' ==> basic_body(s, p, acc) == basic_body(
            s,
            p + 1,
            acc.push(s[p]),
        ),
{
    if s[p] == '\\' && p + 1 < s.len() {
        law_escape_meanings(s, p + 1);
    }
}

/// Skips a line feed, or a carriage return and line feed, right after the
/// opening delimiter of a multi-line string.
pub open spec fn ml_start(s: Seq<char>, p: int) -> int {
    if peek(s, p) == Some('\n') {
        p + 1
    } else if starts_at(s, p, "\r\n"@) {
        p + 2
    } else {
        p
    }
}

/// The rest of a single-line basic string, read onto `acc`.
pub open spec fn basic_body(s: Seq<char>, p: int, acc: Seq<char>) -> (int, Result<Seq<char>, Seq<char>>)
    decreases s.len() - p,
{
    match peek(s, p) {
        None => (p, Err("unterminated string"@)),
        Some(c) => if c == '\n' {
            (p, Err("unterminated string"@))
        } else if c == '"' {
            (p + 1, Ok(acc))
        } else if c == '\\' {
            let (q, r) = escape_char(s, p + 1);
            match r {
                Err(m) => (q, Err(m)),
                Ok(ch) => if p < q <= s.len() {
                    basic_body(s, q, acc.push(ch))
                } else {
                    (q, Err(Seq::empty()))
                },
            }
        } else {
            basic_body(s, p + 1, acc.push(c))
        },
    }
}

/// The rest of a multi-line basic string, read onto `acc`.
pub open spec fn ml_basic_body(s: Seq<char>, p: int, acc: Seq<char>) -> (int, Result<Seq<char>, Seq<char>>)
    decreases s.len() - p,
{
    if starts_at(s, p, "\"\"\""@) {
        (p + 3, Ok(acc))
    } else {
        match peek(s, p) {
            None => (p, Err("unterminated multi-line string"@)),
            Some(c) => if c == '\\' {
                let q = p + 1;
                if peek(s, q) is Some && is_ws_or_newline(peek(s, q)->0) {
                    let r = skip_ws_nl(s, q);
                    if p < r <= s.len() {
                        ml_basic_body(s, r, acc)
                    } else {
                        (r, Err(Seq::empty()))
                    }
                } else {
                    let (r, e) = escape_char(s, q);
                    match e {
                        Err(m) => (r, Err(m)),
                        Ok(ch) => if p < r <= s.len() {
                            ml_basic_body(s, r, acc.push(ch))
                        } else {
                            (r, Err(Seq::empty()))
                        },
                    }
                }
            } else {
                ml_basic_body(s, p + 1, acc.push(c))
            },
        }
    }
}

/// A multi-line basic string whose opening `"""` ends before `p`.
pub open spec fn ml_basic(s: Seq<char>, p: int) -> (int, Result<Seq<char>, Seq<char>>) {
    ml_basic_body(s, ml_start(s, p), Seq::empty())
}

/// A basic string (`"..."` or `"""..."""`) whose opening quote is at `p`.
pub open spec fn basic_string(s: Seq<char>, p: int) -> (int, Result<Seq<char>, Seq<char>>) {
    let p1 = next(s, p);
    if starts_at(s, p1, "\"\""@) {
        ml_basic(s, p1 + 2)
    } else {
        basic_body(s, p1, Seq::empty())
    }
}

/// The rest of a single-line literal string, read onto `acc`.
pub open spec fn literal_body(s: Seq<char>, p: int, acc: Seq<char>) -> (int, Result<Seq<char>, Seq<char>>)
    decreases s.len() - p,
{
    match peek(s, p) {
        None => (p, Err("unterminated literal string"@)),
        Some(c) => if c == '\n' {
            (p, Err("unterminated literal string"@))
        } else if c == '\'' {
            (p + 1, Ok(acc))
        } else {
            literal_body(s, p + 1, acc.push(c))
        },
    }
}

/// The rest of a multi-line literal string, read onto `acc`.
pub open spec fn ml_literal_body(s: Seq<char>, p: int, acc: Seq<char>) -> (int, Result<Seq<char>, Seq<char>>)
    decreases s.len() - p,
{
    if starts_at(s, p, "'''"@) {
        (p + 3, Ok(acc))
    } else {
        match peek(s, p) {
            None => (p, Err("unterminated multi-line literal string"@)),
            Some(c) => ml_literal_body(s, p + 1, acc.push(c)),
        }
    }
}

/// A multi-line literal string whose opening `'''` ends before `p`.
pub open spec fn ml_literal(s: Seq<char>, p: int) -> (int, Result<Seq<char>, Seq<char>>) {
    ml_literal_body(s, ml_start(s, p), Seq::empty())
}

/// A literal string (`'...'` or `'''...'''`) whose opening quote is at `p`.
pub open spec fn literal_string(s: Seq<char>, p: int) -> (int, Result<Seq<char>, Seq<char>>) {
    let p1 = next(s, p);
    if starts_at(s, p1, "''"@) {
        ml_literal(s, p1 + 2)
    } else {
        literal_body(s, p1, Seq::empty())
    }
}

// ---------------------------------------------------------------------------
// Keys
// ---------------------------------------------------------------------------
/// A character of a bare key.
pub open spec fn is_key_char(c: char) -> bool {
    alphanumeric(c) || c == '-' || c == '_'
}

/// A character of an identifier.
pub open spec fn is_ident_char(c: char) -> bool {
    alphanumeric(c) || c == '_'
}

/// The end of the run of bare-key characters starting at `p`.
pub open spec fn key_run(s: Seq<char>, p: int) -> int
    decreases s.len() - p,
{
    if 0 <= p < s.len() && is_key_char(s[p]) {
        key_run(s, p + 1)
    } else {
        p
    }
}

/// The end of the run of identifier characters starting at `p`.
pub open spec fn ident_run(s: Seq<char>, p: int) -> int
    decreases s.len() - p,
{
    if 0 <= p < s.len() && is_ident_char(s[p]) {
        ident_run(s, p + 1)
    } else {
        p
    }
}

/// One key: a basic string, a literal string, or a bare key.
pub open spec fn simple_key(s: Seq<char>, p: int) -> (int, Result<Seq<char>, Seq<char>>) {
    match peek(s, p) {
        Some(c) => if c == '"' {
            basic_string(s, p)
        } else if c == '\'' {
            literal_string(s, p)
        } else if is_key_char(c) {
            let q = key_run(s, p);
            (q, Ok(s.subrange(p, q)))
        } else {
            (p, Err("expected a key"@))
        },
        None => (p, Err("expected a key"@)),
    }
}

/// Further `.`-separated keys, appended to `acc`.
pub open spec fn key_rest(s: Seq<char>, p: int, acc: Seq<Seq<char>>) -> (int, Result<Seq<Seq<char>>, Seq<char>>)
    decreases s.len() - p,
{
    if peek(s, p) == Some('.') {
        let (q, r) = simple_key(s, p + 1);
        match r {
            Err(m) => (q, Err(m)),
            Ok(k) => if p < q <= s.len() {
                key_rest(s, q, acc.push(k))
            } else {
                (q, Err(Seq::empty()))
            },
        }
    } else {
        (p, Ok(acc))
    }
}

/// A dotted key: one or more keys separated by `.`.
pub open spec fn dotted_key(s: Seq<char>, p: int) -> (int, Result<Seq<Seq<char>>, Seq<char>>) {
    let (q, r) = simple_key(s, p);
    match r {
        Err(m) => (q, Err(m)),
        Ok(k) => key_rest(s, q, seq![k]),
    }
}

// ---------------------------------------------------------------------------
// Expressions
// ---------------------------------------------------------------------------
/// An operand: a basic string or an identifier.
pub open spec fn expr_atom(s: Seq<char>, p: int) -> (int, Result<SExpr, Seq<char>>) {
    match peek(s, p) {
        Some(c) => if c == '"' {
            let (q, r) = basic_string(s, p);
            match r {
                Ok(t) => (q, Ok(SExpr::Str(t))),
                Err(m) => (q, Err(m)),
            }
        } else if is_ident_char(c) {
            let q = ident_run(s, p);
            (q, Ok(SExpr::Identifier(s.subrange(p, q))))
        } else {
            (p, Err("invalid expression"@))
        },
        None => (p, Err("invalid expression"@)),
    }
}

/// The right operand of a comparison whose two-character operator is at `p`.
pub open spec fn binary(s: Seq<char>, p: int, left: SExpr, equals: bool) -> (int, Result<SExpr, Seq<char>>) {
    let (q, r) = expr_atom(s, skip_inline(s, p + 2));
    match r {
        Ok(right) => (q, Ok(
            if equals {
                SExpr::Equals(Box::new(left), Box::new(right))
            } else {
                SExpr::NotEquals(Box::new(left), Box::new(right))
            },
        )),
        Err(m) => (q, Err(m)),
    }
}

/// An operand, optionally compared with `!=` or `==` to a second one.
pub open spec fn expr(s: Seq<char>, p: int) -> (int, Result<SExpr, Seq<char>>) {
    let (q, r) = expr_atom(s, skip_inline(s, p));
    match r {
        Err(m) => (q, Err(m)),
        Ok(left) => {
            let q1 = skip_inline(s, q);
            if starts_at(s, q1, "!="@) {
                binary(s, q1, left, false)
            } else if starts_at(s, q1, "=="@) {
                binary(s, q1, left, true)
            } else {
                (q1, Ok(left))
            }
        },
    }
}

// ---------------------------------------------------------------------------
// Numbers
// ---------------------------------------------------------------------------
/// The value of a run of digits in base `radix`, most significant first.
pub open spec fn digits_value(d: Seq<char>, radix: int) -> int
    decreases d.len(),
{
    if d.len() == 0 {
        0
    } else {
        digits_value(d.drop_last(), radix) * radix + digit_value(d.last())->0
    }
}

/// The number of sign characters (`+` or `-`) that `t` starts with (0 or 1).
pub open spec fn sign_len(t: Seq<char>, from: int) -> int {
    if from < t.len() && (t[from] == '+' || t[from] == '-') {
        from + 1
    } else {
        from
    }
}

/// What `i64::from_str_radix(t, radix)` returns: an optional sign and at
/// least one digit of the base, whose value fits in an `i64`.
pub open spec fn parse_i64(t: Seq<char>, radix: int) -> Option<int> {
    let s0 = sign_len(t, 0);
    if t.len() <= s0 {
        None
    } else if exists|i: int| s0 <= i < t.len() && !is_digit_of(#[trigger] t[i], radix) {
        None
    } else {
        let m = digits_value(t.subrange(s0, t.len() as int), radix);
        let v = if t[0] == '-' {
            -m
        } else {
            m
        };
        if i64::MIN <= v <= i64::MAX {
            Some(v)
        } else {
            None
        }
    }
}

/// The end of the run of decimal digits starting at `i`.
pub open spec fn decimal_run(u: Seq<char>, i: int) -> int
    decreases u.len() - i,
{
    if 0 <= i < u.len() && is_decimal_digit(u[i]) {
        decimal_run(u, i + 1)
    } else {
        i
    }
}

/// An exponent starting at `k` (after its `e`) and running to the end: an
/// optional sign and at least one digit.
pub open spec fn exponent_ok(t: Seq<char>, k: int) -> bool {
    let k2 = sign_len(t, k);
    k2 < t.len() && forall|m: int| k2 <= m < t.len() ==> is_decimal_digit(#[trigger] t[m])
}

/// A decimal number as `f64::from_str` accepts it: an optional sign, digits
/// with an optional fraction (at least one digit in all), and an optional
/// exponent.
pub open spec fn decimal_float_syntax(t: Seq<char>) -> bool {
    let s0 = sign_len(t, 0);
    let i = decimal_run(t, s0);
    let has_point = i < t.len() && t[i] == '.';
    let j = if has_point {
        decimal_run(t, i + 1)
    } else {
        i
    };
    let mantissa_ok = if has_point {
        i > s0 || j > i + 1
    } else {
        i > s0
    };
    mantissa_ok && (j == t.len() || ((t[j] == 'e' || t[j] == 'E') && exponent_ok(t, j + 1)))
}

/// The infinities and not-a-numbers that the scalar reader accepts by name.
pub open spec fn is_special_float(t: Seq<char>) -> bool {
    t == "inf"@ || t == "+inf"@ || t == "-inf"@ || t == "nan"@ || t == "+nan"@ || t == "-nan"@
}

/// An integer result, or `msg` when the digits are not an `i64`.
pub open spec fn integer_or(t: Seq<char>, radix: int, msg: Seq<char>) -> Result<SValue, Seq<char>> {
    match parse_i64(t, radix) {
        Some(v) => Ok(SValue::Integer(v)),
        None => Err(msg),
    }
}

/// The meaning of a scalar's text `raw` (trimmed) once underscores are
/// removed (`clean`): a float when it has a `.`, `e` or `E` or names an
/// infinity or not-a-number, else a hexadecimal, octal, binary or decimal
/// integer.
pub open spec fn scalar_value(raw: Seq<char>) -> Result<SValue, Seq<char>> {
    let clean = remove_underscores(raw);
    if has_char(clean, '.') || has_char(clean, 'e') || has_char(clean, 'E') || is_special_float(
        clean,
    ) {
        if is_special_float(clean) || decimal_float_syntax(clean) {
            Ok(SValue::Float(clean))
        } else {
            Err("invalid float: "@ + raw)
        }
    } else if starts_at(clean, 0, "0x"@) {
        integer_or(clean.skip(2), 16, "invalid hex: "@ + raw)
    } else if starts_at(clean, 0, "0o"@) {
        integer_or(clean.skip(2), 8, "invalid octal: "@ + raw)
    } else if starts_at(clean, 0, "0b"@) {
        integer_or(clean.skip(2), 2, "invalid binary: "@ + raw)
    } else {
        integer_or(clean, 10, "invalid value: "@ + raw)
    }
}

/// A character that ends the text of a scalar.
pub open spec fn is_scalar_stop(c: char) -> bool {
    c == ',' || c == ']' || c == '}' || c == '\n' || c == '\r' || c == '#'
}

/// The end of the text of a scalar starting at `p`.
pub open spec fn scalar_end(s: Seq<char>, p: int) -> int
    decreases s.len() - p,
{
    if 0 <= p < s.len() && !is_scalar_stop(s[p]) {
        scalar_end(s, p + 1)
    } else {
        p
    }
}

/// The character at `i` could continue a word.
pub open spec fn word_char_at(s: Seq<char>, i: int) -> bool {
    peek(s, i) is Some && (alphanumeric(peek(s, i)->0) || peek(s, i)->0 == '_')
}

/// A boolean or a number starting at `p`.
pub open spec fn scalar(s: Seq<char>, p: int) -> (int, Result<SValue, Seq<char>>) {
    if starts_at(s, p, "true"@) && !word_char_at(s, p + 4) {
        (p + 4, Ok(SValue::Boolean(true)))
    } else if starts_at(s, p, "false"@) && !word_char_at(s, p + 5) {
        (p + 5, Ok(SValue::Boolean(false)))
    } else {
        let q = scalar_end(s, p);
        (q, scalar_value(trim_end(s.subrange(p, q))))
    }
}

// ---------------------------------------------------------------------------
// Tables
// ---------------------------------------------------------------------------
/// The table holds an entry with key `k`.
pub open spec fn has_key(t: Seq<(Seq<char>, SValue)>, k: Seq<char>) -> bool {
    exists|i: int| 0 <= i < t.len() && t[i].0 == k
}

/// The index of the first entry with key `k`.
pub open spec fn key_index(t: Seq<(Seq<char>, SValue)>, k: Seq<char>) -> int {
    choose|i: int|
        0 <= i < t.len() && t[i].0 == k && forall|j: int| 0 <= j < i ==> t[j].0 != k
}

/// The value of the entry with key `k`, if any.
#[verifier::opaque]
pub open spec fn table_get(t: Seq<(Seq<char>, SValue)>, k: Seq<char>) -> Option<SValue> {
    if has_key(t, k) {
        Some(t[key_index(t, k)].1)
    } else {
        None
    }
}

/// A step into entry `i` of `t` (whose key is `key`): the table with that
/// entry's value replaced by the step's result.
pub open spec fn descend(t: Seq<(Seq<char>, SValue)>, i: int, key: Seq<char>, r: Result<SValue, Seq<char>>) -> Result<Seq<(Seq<char>, SValue)>, Seq<char>> {
    match r {
        Ok(v2) => Ok(t.update(i, (key, v2))),
        Err(e) => Err(e),
    }
}

/// A table result as a value.
pub open spec fn as_table(r: Result<Seq<(Seq<char>, SValue)>, Seq<char>>) -> Result<SValue, Seq<char>> {
    match r {
        Ok(t) => Ok(SValue::Table(t)),
        Err(e) => Err(e),
    }
}

/// The array with its last item replaced by the table result `r`.
pub open spec fn in_last(arr: Seq<SValue>, r: Result<Seq<(Seq<char>, SValue)>, Seq<char>>) -> Result<SValue, Seq<char>> {
    match r {
        Ok(t2) => Ok(SValue::Array(arr.update(arr.len() - 1, SValue::Table(t2)))),
        Err(e) => Err(e),
    }
}

/// The array's last item is a table.
pub open spec fn last_is_table(arr: Seq<SValue>) -> bool {
    arr.len() > 0 && arr.last() is Table
}

/// The table that is the last item of the array.
pub open spec fn last_table(arr: Seq<SValue>) -> Seq<(Seq<char>, SValue)> {
    arr.last()->Table_0
}

/// Inserts `v` at the dotted path `keys`, creating the tables on the way.
pub open spec fn insert_dotted(t: Seq<(Seq<char>, SValue)>, keys: Seq<Seq<char>>, v: SValue) -> Result<Seq<(Seq<char>, SValue)>, Seq<char>>
    decreases keys.len(), 0int,
{
    if keys.len() == 0 {
        Err("empty key"@)
    } else if keys.len() == 1 {
        if has_key(t, keys[0]) {
            Err("duplicate key: "@ + keys[0])
        } else {
            Ok(t.push((keys[0], v)))
        }
    } else if !has_key(t, keys[0]) {
        match insert_dotted(Seq::empty(), keys.drop_first(), v) {
            Ok(inner) => Ok(t.push((keys[0], SValue::Table(inner)))),
            Err(e) => Err(e),
        }
    } else {
        let i = key_index(t, keys[0]);
        descend(t, i, keys[0], insert_dotted_value(t[i].1, keys[0], keys.drop_first(), v))
    }
}

/// Inserts `v` at `rest` inside the value held under `key`, which must be a table.
pub open spec fn insert_dotted_value(x: SValue, key: Seq<char>, rest: Seq<Seq<char>>, v: SValue) -> Result<SValue, Seq<char>>
    decreases rest.len(), 1int,
{
    match x {
        SValue::Table(inner) => as_table(insert_dotted(inner, rest, v)),
        _ => Err("key "@ + key + " is not a table"@),
    }
}

/// Makes sure an array of tables exists at `path`, creating tables on the
/// way and descending into the last item of arrays.
pub open spec fn ensure_array(t: Seq<(Seq<char>, SValue)>, path: Seq<Seq<char>>) -> Result<Seq<(Seq<char>, SValue)>, Seq<char>>
    decreases path.len(), 0int,
{
    if path.len() == 0 {
        Err("empty path"@)
    } else if path.len() == 1 {
        if !has_key(t, path[0]) {
            Ok(t.push((path[0], SValue::Array(Seq::empty()))))
        } else if t[key_index(t, path[0])].1 is Array {
            Ok(t)
        } else {
            Err(path[0] + " is not an array"@)
        }
    } else if !has_key(t, path[0]) {
        match ensure_array(Seq::empty(), path.drop_first()) {
            Ok(inner) => Ok(t.push((path[0], SValue::Table(inner)))),
            Err(e) => Err(e),
        }
    } else {
        let i = key_index(t, path[0]);
        descend(t, i, path[0], ensure_array_value(t[i].1, path[0], path.drop_first()))
    }
}

/// `ensure_array` on the rest of the path inside the value held under `key`.
pub open spec fn ensure_array_value(x: SValue, key: Seq<char>, rest: Seq<Seq<char>>) -> Result<SValue, Seq<char>>
    decreases rest.len(), 1int,
{
    match x {
        SValue::Table(inner) => as_table(ensure_array(inner, rest)),
        SValue::Array(arr) => if last_is_table(arr) {
            in_last(arr, ensure_array(last_table(arr), rest))
        } else {
            Err(key + " has no table entries"@)
        },
        _ => Err(key + " is not a table"@),
    }
}

/// Appends an empty table to the array of tables at `path`.
pub open spec fn push_array_entry(t: Seq<(Seq<char>, SValue)>, path: Seq<Seq<char>>) -> Result<Seq<(Seq<char>, SValue)>, Seq<char>>
    decreases path.len(), 0int,
{
    if path.len() == 0 {
        Err("empty path"@)
    } else if !has_key(t, path[0]) {
        if path.len() == 1 {
            Err(path[0] + " is not an array"@)
        } else {
            Err(path[0] + " is not a table"@)
        }
    } else {
        let i = key_index(t, path[0]);
        descend(t, i, path[0], push_array_entry_value(t[i].1, path[0], path.drop_first()))
    }
}

/// `push_array_entry` on the rest of the path inside the value held under
/// `key` (the value itself is the array when the rest is empty).
pub open spec fn push_array_entry_value(x: SValue, key: Seq<char>, rest: Seq<Seq<char>>) -> Result<SValue, Seq<char>>
    decreases rest.len(), 1int,
{
    if rest.len() == 0 {
        match x {
            SValue::Array(arr) => Ok(SValue::Array(arr.push(SValue::Table(Seq::empty())))),
            _ => Err(key + " is not an array"@),
        }
    } else {
        match x {
            SValue::Table(inner) => as_table(push_array_entry(inner, rest)),
            SValue::Array(arr) => if last_is_table(arr) {
                in_last(arr, push_array_entry(last_table(arr), rest))
            } else {
                Err(key + " has no table entries"@)
            },
            _ => Err(key + " is not a table"@),
        }
    }
}

/// Inserts `v` at `rel` inside the last table of the array of tables at
/// `array_path`.
pub open spec fn insert_into_last(t: Seq<(Seq<char>, SValue)>, array_path: Seq<Seq<char>>, rel: Seq<Seq<char>>, v: SValue) -> Result<Seq<(Seq<char>, SValue)>, Seq<char>>
    decreases array_path.len(), 0int,
{
    if array_path.len() == 0 {
        insert_dotted(t, rel, v)
    } else if !has_key(t, array_path[0]) {
        Err(array_path[0] + " not found"@)
    } else {
        let i = key_index(t, array_path[0]);
        descend(
            t,
            i,
            array_path[0],
            insert_into_last_value(t[i].1, array_path[0], array_path.drop_first(), rel, v),
        )
    }
}

/// `insert_into_last` on the rest of the array path inside the value held
/// under `key`.
pub open spec fn insert_into_last_value(x: SValue, key: Seq<char>, rest: Seq<Seq<char>>, rel: Seq<Seq<char>>, v: SValue) -> Result<SValue, Seq<char>>
    decreases rest.len(), 1int,
{
    match x {
        SValue::Array(arr) => if last_is_table(arr) {
            in_last(
                arr,
                if rest.len() == 0 {
                    insert_dotted(last_table(arr), rel, v)
                } else {
                    insert_into_last(last_table(arr), rest, rel, v)
                },
            )
        } else {
            Err("array has no table entry"@)
        },
        SValue::Table(inner) => as_table(insert_into_last(inner, rest, rel, v)),
        _ => Err(key + " not found"@),
    }
}

// ---------------------------------------------------------------------------
// Values
// ---------------------------------------------------------------------------
/// The text after the `{` at `p` starts (after blanks and line endings)
/// with `if` or `[`.
pub open spec fn is_block(s: Seq<char>, p: int) -> bool {
    let q = skip_ws_nl(s, p + 1);
    starts_at(s, q, "if"@) || starts_at(s, q, "["@)
}

/// A value: a conditional, a string, an array, a block or inline table, or
/// a scalar.
pub open spec fn value(s: Seq<char>, p: int) -> (int, Result<SValue, Seq<char>>)
    decreases s.len() - p, 4int,
{
    if starts_at(s, p, "if"@) {
        conditional(s, p)
    } else {
        match peek(s, p) {
            Some(c) => if c == '"' {
                let (q, r) = basic_string(s, p);
                match r {
                    Ok(t) => (q, Ok(SValue::Str(t))),
                    Err(m) => (q, Err(m)),
                }
            } else if c == '\'' {
                let (q, r) = literal_string(s, p);
                match r {
                    Ok(t) => (q, Ok(SValue::Str(t))),
                    Err(m) => (q, Err(m)),
                }
            } else if c == '[' {
                array(s, p)
            } else if c == '{' {
                if is_block(s, p) {
                    block(s, p)
                } else {
                    inline_table(s, p)
                }
            } else {
                scalar(s, p)
            },
            None => scalar(s, p),
        }
    }
}

/// The keyword `kw` (of `n_bytes` bytes in UTF-8): advances over that many
/// characters (at most to the end) when the input starts with it at `p`.
pub open spec fn expect_keyword(s: Seq<char>, p: int, kw: Seq<char>, n_bytes: int) -> (int, Result<(), Seq<char>>) {
    if starts_at(s, p, kw) {
        (if p + n_bytes <= s.len() {
            p + n_bytes
        } else {
            s.len() as int
        }, Ok(()))
    } else {
        (p, Err("expected '"@ + kw + "'"@))
    }
}

/// `if cond { a }`, optionally followed by `else { b }`.
pub open spec fn conditional(s: Seq<char>, p: int) -> (int, Result<SValue, Seq<char>>)
    decreases s.len() - p, 3int,
{
    if !starts_at(s, p, "if"@) {
        (p, Err("expected 'if'"@))
    } else {
        let (q, r) = expr(s, skip_inline(s, p + 2));
        match r {
            Err(m) => (q, Err(m)),
            Ok(c) => {
                let q1 = skip_inline(s, q);
                if p < q1 <= s.len() {
                    let (q2, t) = block(s, q1);
                    match t {
                        Err(m) => (q2, Err(m)),
                        Ok(tv) => {
                            let q3 = skip_inline(s, q2);
                            if starts_at(s, q3, "else"@) {
                                let q4 = skip_inline(s, q3 + 4);
                                if p < q4 <= s.len() {
                                    let (q5, e) = block(s, q4);
                                    match e {
                                        Err(m) => (q5, Err(m)),
                                        Ok(ev) => (q5, Ok(
                                            SValue::Conditional(c, Box::new(tv), Some(Box::new(ev))),
                                        )),
                                    }
                                } else {
                                    (q4, Err(Seq::empty()))
                                }
                            } else {
                                (q3, Ok(SValue::Conditional(c, Box::new(tv), None)))
                            }
                        },
                    }
                } else {
                    (q1, Err(Seq::empty()))
                }
            },
        }
    }
}

/// `{ value }`.
pub open spec fn block(s: Seq<char>, p: int) -> (int, Result<SValue, Seq<char>>)
    decreases s.len() - p, 2int,
{
    if peek(s, p) != Some('{') {
        (p, Err("expected '{'"@))
    } else {
        let q = skip_ws_nl(s, p + 1);
        if p < q <= s.len() {
            let (r, v) = value(s, q);
            match v {
                Err(m) => (r, Err(m)),
                Ok(x) => {
                    let r1 = skip_ws_nl(s, r);
                    if peek(s, r1) != Some('}') {
                        (r1, Err("expected '}'"@))
                    } else {
                        (r1 + 1, Ok(x))
                    }
                },
            }
        } else {
            (q, Err(Seq::empty()))
        }
    }
}

/// An array whose `[` is at `p`.
pub open spec fn array(s: Seq<char>, p: int) -> (int, Result<SValue, Seq<char>>)
    decreases s.len() - p, 2int,
{
    if 0 <= p < s.len() {
        array_items(s, p + 1, Seq::empty())
    } else {
        // At the end of the input the first item is read where the `[`
        // should have been: a scalar over empty text, which fails.
        scalar(s, p)
    }
}

/// The remaining items of an array, appended to `acc`.
pub open spec fn array_items(s: Seq<char>, p: int, acc: Seq<SValue>) -> (int, Result<SValue, Seq<char>>)
    decreases s.len() - p, 5int,
{
    let q = skip_around_comment(s, p);
    if peek(s, q) == Some(']') {
        (q + 1, Ok(SValue::Array(acc)))
    } else if p <= q <= s.len() {
        let (r, v) = value(s, q);
        match v {
            Err(m) => (r, Err(m)),
            Ok(x) => {
                let r1 = skip_around_comment(s, r);
                if peek(s, r1) == Some(',') {
                    if p < r1 + 1 <= s.len() {
                        array_items(s, r1 + 1, acc.push(x))
                    } else {
                        (r1 + 1, Err(Seq::empty()))
                    }
                } else if peek(s, r1) == Some(']') {
                    (r1 + 1, Ok(SValue::Array(acc.push(x))))
                } else {
                    (r1, Err("expected ',' or ']' in array"@))
                }
            },
        }
    } else {
        (q, Err(Seq::empty()))
    }
}

/// An inline table whose `{` is at `p`.
pub open spec fn inline_table(s: Seq<char>, p: int) -> (int, Result<SValue, Seq<char>>)
    decreases s.len() - p, 2int,
{
    if !(0 <= p < s.len()) {
        // At the end of the input the first key is missing.
        (p, Err("expected a key"@))
    } else {
        let q = skip_ws_comments(s, p + 1);
        if peek(s, q) == Some('}') {
            (q + 1, Ok(SValue::Table(Seq::empty())))
        } else if p < q <= s.len() {
            table_entries(s, q, Seq::empty())
        } else {
            (q, Err(Seq::empty()))
        }
    }
}

/// The remaining `key = value` entries of an inline table, inserted into `t`.
pub open spec fn table_entries(s: Seq<char>, p: int, t: Seq<(Seq<char>, SValue)>) -> (int, Result<SValue, Seq<char>>)
    decreases s.len() - p, 5int,
{
    let q = skip_ws_comments(s, p);
    let (r, kr) = dotted_key(s, q);
    match kr {
        Err(m) => (r, Err(m)),
        Ok(keys) => {
            let r1 = skip_ws_comments(s, r);
            if peek(s, r1) != Some('=') {
                (r1, Err("expected '=' in inline table"@))
            } else {
                let r2 = skip_ws_comments(s, r1 + 1);
                if p <= r2 <= s.len() {
                    let (r3, vr) = value(s, r2);
                    match vr {
                        Err(m) => (r3, Err(m)),
                        Ok(v) => match insert_dotted(t, keys, v) {
                            Err(e) => (r3, Err(e)),
                            Ok(t2) => {
                                let r4 = skip_ws_comments(s, r3);
                                if peek(s, r4) == Some(',') {
                                    let r5 = skip_ws_comments(s, r4 + 1);
                                    if peek(s, r5) == Some('}') {
                                        (r5 + 1, Ok(SValue::Table(t2)))
                                    } else if p < r5 <= s.len() {
                                        table_entries(s, r5, t2)
                                    } else {
                                        (r5, Err(Seq::empty()))
                                    }
                                } else if peek(s, r4) == Some('}') {
                                    (r4 + 1, Ok(SValue::Table(t2)))
                                } else {
                                    (r4, Err("expected ',' or '}' in inline table"@))
                                }
                            },
                        },
                    }
                } else {
                    (r2, Err(Seq::empty()))
                }
            }
        },
    }
}

// ---------------------------------------------------------------------------
// Documents
// ---------------------------------------------------------------------------
/// The closing bracket(s) of a table header whose path ends before `p`:
/// where reading stops, and whether the header is well closed.
pub open spec fn header_close(s: Seq<char>, p: int, is_array: bool) -> (int, bool) {
    if is_array {
        if peek(s, p) != Some(']') {
            (p, false)
        } else if peek(s, p + 1) != Some(']') {
            (p + 1, false)
        } else {
            (p + 2, true)
        }
    } else if peek(s, p) != Some(']') {
        (p, false)
    } else {
        (p + 1, true)
    }
}

/// A table header whose `[` is at `q`: where reading stops, and either the
/// root table after it together with the header's path and whether it names
/// an array of tables, or the error's message.
pub open spec fn header_step(s: Seq<char>, q: int, root: Seq<(Seq<char>, SValue)>) -> (int, Result<(Seq<(Seq<char>, SValue)>, Seq<Seq<char>>, bool), Seq<char>>) {
    let arr = peek(s, q + 1) == Some('[');
    let q2 = if arr {
        q + 2
    } else {
        q + 1
    };
    let (r, kr) = dotted_key(s, skip_inline(s, q2));
    match kr {
        Err(m) => (r, Err(m)),
        Ok(path) => {
            let (r3, closed) = header_close(s, skip_inline(s, r), arr);
            if !closed {
                (r3, Err(
                    if arr {
                        "expected ']]'"@
                    } else {
                        "expected ']'"@
                    },
                ))
            } else {
                let r4 = skip_line_end(s, r3);
                let step = if arr {
                    match ensure_array(root, path) {
                        Err(e) => Err(e),
                        Ok(t1) => push_array_entry(t1, path),
                    }
                } else {
                    Ok(root)
                };
                match step {
                    Err(e) => (r4, Err(e)),
                    Ok(root2) => (r4, Ok((root2, path, arr))),
                }
            }
        },
    }
}

/// A `key = value` line that starts at `q`, under the last table header
/// `current` (`is_array`: that header named an array of tables): where
/// reading stops, and the root table after it or the error's message.
pub open spec fn entry_step(s: Seq<char>, q: int, root: Seq<(Seq<char>, SValue)>, current: Seq<Seq<char>>, is_array: bool) -> (int, Result<Seq<(Seq<char>, SValue)>, Seq<char>>) {
    let (r, kr) = dotted_key(s, q);
    match kr {
        Err(m) => (r, Err(m)),
        Ok(keys) => {
            let r1 = skip_inline(s, r);
            if peek(s, r1) != Some('=') {
                (r1, Err("expected '='"@))
            } else {
                let (r3, vr) = value(s, skip_inline(s, r1 + 1));
                match vr {
                    Err(m) => (r3, Err(m)),
                    Ok(v) => {
                        let r4 = skip_line_end(s, r3);
                        let ins = if is_array && current.len() > 0 {
                            insert_into_last(root, current, keys, v)
                        } else {
                            insert_dotted(root, current + keys, v)
                        };
                        (r4, ins)
                    },
                }
            }
        },
    }
}

/// The rest of a document from `p`, into the root table `root`, under the
/// last table header `current` (`is_array`: that header named an array of
/// tables).
pub open spec fn document(s: Seq<char>, p: int, root: Seq<(Seq<char>, SValue)>, current: Seq<Seq<char>>, is_array: bool) -> (int, Result<Seq<(Seq<char>, SValue)>, Seq<char>>)
    decreases s.len() - p,
{
    let q = skip_ws_comments(s, p);
    match peek(s, q) {
        None => (q, Ok(root)),
        Some(c) => if c == '[' {
            let (r, h) = header_step(s, q, root);
            match h {
                Err(e) => (r, Err(e)),
                Ok((root2, path, arr)) => if p < r <= s.len() {
                    document(s, r, root2, path, arr)
                } else {
                    (r, Err(Seq::empty()))
                },
            }
        } else {
            let (r, e) = entry_step(s, q, root, current, is_array);
            match e {
                Err(m) => (r, Err(m)),
                Ok(root2) => if p < r <= s.len() {
                    document(s, r, root2, current, is_array)
                } else {
                    (r, Err(Seq::empty()))
                },
            }
        },
    }
}

/// A whole document: its root table, or the message of the first error and
/// the position where it was found.
pub open spec fn parse_document(s: Seq<char>) -> (int, Result<Seq<(Seq<char>, SValue)>, Seq<char>>) {
    document(s, 0, Seq::empty(), Seq::empty(), false)
}

} // verus!
