//! Character-level helpers shared by the parser, the evaluator and the
//! renderers: classification of characters, conversion between `&str`,
//! `Vec<char>` and `String`, decimal rendering, and the textual rewriting
//! (`replace`) used by argument interpolation.
use vstd::prelude::*;
use vstd::utf8::{encode_scalar, encode_utf8};

verus! {

/// `String::push` appends one character at the end of the string.
pub assume_specification[ std::string::String::push ](string: &mut std::string::String, ch: char)
    ensures
        final(string)@ == old(string)@.push(ch),
;

// ---------------------------------------------------------------------------
// Character classes
// ---------------------------------------------------------------------------
/// The Unicode `Alphanumeric` class that `char::is_alphanumeric` decides.
pub uninterp spec fn alphanumeric(c: char) -> bool;

/// Calls `char::is_alphanumeric`; the result is named by `alphanumeric`.
/// For ASCII it holds exactly for letters and digits; the Unicode tables
/// behind the rest are not restated here.
#[verifier::external_body]
pub fn is_alphanumeric(c: char) -> (b: bool)
    ensures
        b == alphanumeric(c),
        (c as u32) < 128 ==> (b <==> ('a' <= c <= 'z' || 'A' <= c <= 'Z' || '0' <= c <= '9')),
{
    c.is_alphanumeric()
}

/// Space or tab.
pub open spec fn is_inline_ws(c: char) -> bool {
    c == ' ' || c == '\t'
}

/// Space, tab, line feed or carriage return.
pub open spec fn is_ws_or_newline(c: char) -> bool {
    c == ' ' || c == '\t' || c == '\n' || c == '\r'
}

/// The characters with the Unicode `White_Space` property, the class that
/// `char::is_whitespace` (and hence `str::trim_end`) uses.
pub open spec fn is_unicode_whitespace(c: char) -> bool {
    let u = c as u32;
    ||| 0x09 <= u <= 0x0D
    ||| u == 0x20
    ||| u == 0x85
    ||| u == 0xA0
    ||| u == 0x1680
    ||| 0x2000 <= u <= 0x200A
    ||| u == 0x2028
    ||| u == 0x2029
    ||| u == 0x202F
    ||| u == 0x205F
    ||| u == 0x3000
}

pub fn unicode_whitespace(c: char) -> (b: bool)
    ensures
        b == is_unicode_whitespace(c),
{
    let u = c as u32;
    (0x09 <= u && u <= 0x0D) || u == 0x20 || u == 0x85 || u == 0xA0 || u == 0x1680 || (0x2000
        <= u && u <= 0x200A) || u == 0x2028 || u == 0x2029 || u == 0x202F || u == 0x205F || u
        == 0x3000
}

pub open spec fn is_decimal_digit(c: char) -> bool {
    '0' <= c && c <= '9'
}

/// The value of `c` as a digit in base 36 (`0-9`, then `a-z` or `A-Z`), if any.
pub open spec fn digit_value(c: char) -> Option<int> {
    if '0' <= c && c <= '9' {
        Some(c as int - '0' as int)
    } else if 'a' <= c && c <= 'z' {
        Some(c as int - 'a' as int + 10)
    } else if 'A' <= c && c <= 'Z' {
        Some(c as int - 'A' as int + 10)
    } else {
        None
    }
}

/// `c` is a digit of base `radix`, as `char::to_digit(radix)` decides.
pub open spec fn is_digit_of(c: char, radix: int) -> bool {
    digit_value(c) is Some && digit_value(c)->0 < radix
}

pub fn digit_of(c: char) -> (r: Option<u32>)
    ensures
        r is Some == (digit_value(c) is Some),
        r is Some ==> r->0 as int == digit_value(c)->0,
{
    if '0' <= c && c <= '9' {
        Some(c as u32 - '0' as u32)
    } else if 'a' <= c && c <= 'z' {
        Some(c as u32 - 'a' as u32 + 10)
    } else if 'A' <= c && c <= 'Z' {
        Some(c as u32 - 'A' as u32 + 10)
    } else {
        None
    }
}

/// ASCII hexadecimal digit, as `char::is_ascii_hexdigit` decides.
pub open spec fn is_hex_digit(c: char) -> bool {
    is_digit_of(c, 16)
}

// ---------------------------------------------------------------------------
// Conversions
// ---------------------------------------------------------------------------
/// The characters of `s`, in order.
pub fn chars_of(s: &str) -> (r: Vec<char>)
    ensures
        r@ == s@,
{
    let mut out: Vec<char> = Vec::new();
    for c in it: s.chars()
        invariant
            out@ == it.seq().take(it.index() as int),
            it.seq() == s@,
    {
        out.push(c);
    }
    out
}

/// A `String` holding `chars[from..to]`.
pub fn string_from_range(chars: &Vec<char>, from: usize, to: usize) -> (r: String)
    requires
        from <= to <= chars@.len(),
    ensures
        r@ == chars@.subrange(from as int, to as int),
{
    let mut out = String::new();
    let mut i = from;
    while i < to
        invariant
            from <= i <= to <= chars@.len(),
            out@ == chars@.subrange(from as int, i as int),
        decreases to - i,
    {
        out.push(chars[i]);
        i = i + 1;
    }
    out
}

/// Appends the characters of `other` to `out`.
pub fn push_all(out: &mut String, other: &str)
    ensures
        final(out)@ == old(out)@ + other@,
{
    for c in it: other.chars()
        invariant
            out@ == old(out)@ + it.seq().take(it.index() as int),
            it.seq() == other@,
    {
        out.push(c);
    }
}

/// A `String` holding the characters of `s`.
pub fn string_of(s: &str) -> (r: String)
    ensures
        r@ == s@,
{
    let mut out = String::new();
    push_all(&mut out, s);
    assert(out@ =~= s@);
    out
}

/// A fresh copy of `s`.
pub fn copy_string(s: &String) -> (r: String)
    ensures
        r@ == s@,
{
    s.clone()
}

/// The concatenation `a + b` as a new `String`.
pub fn concat(a: &str, b: &str) -> (r: String)
    ensures
        r@ == a@ + b@,
{
    let mut out = String::new();
    push_all(&mut out, a);
    push_all(&mut out, b);
    out
}

/// The concatenation `a + b + c` as a new `String`.
pub fn concat3(a: &str, b: &str, c: &str) -> (r: String)
    ensures
        r@ == a@ + b@ + c@,
{
    let mut out = String::new();
    push_all(&mut out, a);
    push_all(&mut out, b);
    push_all(&mut out, c);
    out
}

/// A copy of a list of strings.
pub fn copy_strings(v: &Vec<String>) -> (r: Vec<String>)
    ensures
        r@.len() == v@.len(),
        forall|i: int| 0 <= i < v@.len() ==> #[trigger] r@[i]@ == v@[i]@,
{
    let mut out: Vec<String> = Vec::new();
    let mut i: usize = 0;
    while i < v.len()
        invariant
            i <= v@.len(),
            out@.len() == i,
            forall|j: int| 0 <= j < i ==> #[trigger] out@[j]@ == v@[j]@,
        decreases v@.len() - i,
    {
        out.push(copy_string(&v[i]));
        i = i + 1;
    }
    out
}

/// The views of a list of strings.
pub open spec fn strings_view(v: Seq<String>) -> Seq<Seq<char>> {
    v.map_values(|s: String| s@)
}

pub proof fn lemma_strings_view_push(v: Seq<String>, s: String)
    ensures
        strings_view(v.push(s)) == strings_view(v).push(s@),
{
    assert(strings_view(v.push(s)) =~= strings_view(v).push(s@));
}

// ---------------------------------------------------------------------------
// Sequence predicates
// ---------------------------------------------------------------------------
/// `pat` occurs in `s` starting at index `p`.
pub open spec fn starts_at(s: Seq<char>, p: int, pat: Seq<char>) -> bool {
    0 <= p && p + pat.len() <= s.len() && s.subrange(p, p + pat.len()) == pat
}

pub fn starts_at_exec(s: &Vec<char>, p: usize, pat: &str) -> (b: bool)
    requires
        p <= s@.len(),
    ensures
        b == starts_at(s@, p as int, pat@),
{
    let pv = chars_of(pat);
    if pv.len() > s.len() - p {
        return false;
    }
    let mut i: usize = 0;
    while i < pv.len()
        invariant
            i <= pv@.len(),
            pv@ == pat@,
            p + pv@.len() <= s@.len(),
            forall|j: int| 0 <= j < i ==> s@[p + j] == pv@[j],
        decreases pv@.len() - i,
    {
        assert(p + i < s.len());
        if s[p + i] != pv[i] {
            assert(s@.subrange(p as int, p + pv@.len())[i as int] != pv@[i as int]);
            return false;
        }
        i = i + 1;
    }
    assert(s@.subrange(p as int, p + pv@.len()) =~= pv@);
    true
}

/// The sequence without its `'_'` characters.
pub open spec fn remove_underscores(s: Seq<char>) -> Seq<char>
    decreases s.len(),
{
    if s.len() == 0 {
        s
    } else if s.last() == '_' {
        remove_underscores(s.drop_last())
    } else {
        remove_underscores(s.drop_last()).push(s.last())
    }
}

/// The sequence without its trailing `White_Space` characters (`str::trim_end`).
pub open spec fn trim_end(s: Seq<char>) -> Seq<char>
    decreases s.len(),
{
    if s.len() > 0 && is_unicode_whitespace(s.last()) {
        trim_end(s.drop_last())
    } else {
        s
    }
}

/// `s` contains `c`.
pub open spec fn has_char(s: Seq<char>, c: char) -> bool {
    exists|i: int| 0 <= i < s.len() && s[i] == c
}

pub fn contains_char(s: &Vec<char>, c: char) -> (b: bool)
    ensures
        b == has_char(s@, c),
{
    let mut i: usize = 0;
    while i < s.len()
        invariant
            i <= s@.len(),
            forall|j: int| 0 <= j < i ==> s@[j] != c,
        decreases s@.len() - i,
    {
        if s[i] == c {
            return true;
        }
        i = i + 1;
    }
    false
}

pub fn seq_equals(s: &Vec<char>, pat: &str) -> (b: bool)
    ensures
        b == (s@ == pat@),
{
    let pv = chars_of(pat);
    if s.len() != pv.len() {
        return false;
    }
    let mut i: usize = 0;
    while i < s.len()
        invariant
            i <= s@.len(),
            pv@ == pat@,
            s@.len() == pv@.len(),
            forall|j: int| 0 <= j < i ==> s@[j] == pv@[j],
        decreases s@.len() - i,
    {
        if s[i] != pv[i] {
            assert(s@[i as int] != pat@[i as int]);
            return false;
        }
        i = i + 1;
    }
    assert(s@ =~= pat@);
    true
}

// ---------------------------------------------------------------------------
// Replacement
// ---------------------------------------------------------------------------
/// Every non-overlapping occurrence of `pat` in `s`, scanned from the left,
/// replaced by `rep` (`str::replace` for a non-empty pattern).
pub open spec fn replace_all(s: Seq<char>, pat: Seq<char>, rep: Seq<char>) -> Seq<char>
    recommends
        pat.len() > 0,
    decreases s.len(),
{
    if s.len() == 0 || pat.len() == 0 {
        s
    } else if starts_at(s, 0, pat) {
        rep + replace_all(s.skip(pat.len() as int), pat, rep)
    } else {
        seq![s[0]] + replace_all(s.skip(1), pat, rep)
    }
}

proof fn lemma_replace_step(s: Seq<char>, i: int, pat: Seq<char>, rep: Seq<char>)
    requires
        0 <= i < s.len(),
        pat.len() > 0,
    ensures
        starts_at(s, i, pat) ==> replace_all(s.skip(i), pat, rep) == rep + replace_all(
            s.skip(i + pat.len()),
            pat,
            rep,
        ),
        !starts_at(s, i, pat) ==> replace_all(s.skip(i), pat, rep) == seq![s[i]] + replace_all(
            s.skip(i + 1),
            pat,
            rep,
        ),
{
    let t = s.skip(i);
    assert(t.len() > 0);
    assert(starts_at(s, i, pat) == starts_at(t, 0, pat)) by {
        if i + pat.len() <= s.len() {
            assert(t.subrange(0, pat.len() as int) =~= s.subrange(i, i + pat.len()));
        }
    }
    if starts_at(s, i, pat) {
        assert(t.skip(pat.len() as int) =~= s.skip(i + pat.len()));
    }
    assert(t.skip(1) =~= s.skip(i + 1));
}

/// `s` with every occurrence of `pat` replaced by `rep`.
pub fn replace(s: &str, pat: &str, rep: &str) -> (r: String)
    requires
        pat@.len() > 0,
    ensures
        r@ == replace_all(s@, pat@, rep@),
{
    let sv = chars_of(s);
    let pv = chars_of(pat);
    let rv = chars_of(rep);
    let mut out = String::new();
    let mut i: usize = 0;
    assert(sv@.skip(0) =~= sv@);
    while i < sv.len()
        invariant
            i <= sv@.len(),
            pv@.len() > 0,
            sv@ == s@,
            pv@ == pat@,
            rv@ == rep@,
            out@ + replace_all(sv@.skip(i as int), pv@, rv@) == replace_all(s@, pat@, rep@),
        decreases sv@.len() - i,
    {
        proof {
            lemma_replace_step(sv@, i as int, pv@, rv@);
        }
        if starts_at_exec(&sv, i, pat) {
            push_all(&mut out, rep);
            i = i + pv.len();
            assert(out@ + replace_all(sv@.skip(i as int), pv@, rv@) == replace_all(
                s@,
                pat@,
                rep@,
            )) by {
                assert(out@ + replace_all(sv@.skip(i as int), pv@, rv@) =~= (out@.subrange(
                    0,
                    out@.len() - rv@.len(),
                ) + rv@) + replace_all(sv@.skip(i as int), pv@, rv@));
            }
        } else {
            let ghost before = out@;
            out.push(sv[i]);
            i = i + 1;
            assert(out@ + replace_all(sv@.skip(i as int), pv@, rv@) =~= before + (seq![
                sv@[i - 1],
            ] + replace_all(sv@.skip(i as int), pv@, rv@)));
        }
    }
    assert(sv@.skip(i as int).len() == 0);
    assert(out@ + replace_all(sv@.skip(i as int), pv@, rv@) =~= out@);
    out
}

// ---------------------------------------------------------------------------
// Decimal rendering
// ---------------------------------------------------------------------------
pub open spec fn digit_char(d: nat) -> char {
    (('0' as u32) + d) as char
}

/// The decimal digits of `n`, most significant first, without leading zeros.
pub open spec fn decimal(n: nat) -> Seq<char>
    decreases n,
{
    if n < 10 {
        seq![digit_char(n)]
    } else {
        decimal(n / 10).push(digit_char(n % 10))
    }
}

/// The decimal rendering of a signed integer, with a leading `-` when negative.
pub open spec fn signed_decimal(n: int) -> Seq<char> {
    if n < 0 {
        seq!['-'] + decimal((-n) as nat)
    } else {
        decimal(n as nat)
    }
}

fn digit_to_char(d: u64) -> (c: char)
    requires
        d < 10,
    ensures
        c == digit_char(d as nat),
{
    match d {
        0 => '0',
        1 => '1',
        2 => '2',
        3 => '3',
        4 => '4',
        5 => '5',
        6 => '6',
        7 => '7',
        8 => '8',
        _ => '9',
    }
}

/// Appends the decimal digits of `n` to `out`.
pub fn push_decimal(out: &mut String, n: u64)
    ensures
        final(out)@ == old(out)@ + decimal(n as nat),
    decreases n,
{
    if n >= 10 {
        push_decimal(out, n / 10);
    }
    out.push(digit_to_char(n % 10));
    assert(final(out)@ == old(out)@ + decimal(n as nat)) by {
        assert(decimal(n as nat) == if n < 10 {
            seq![digit_char(n as nat)]
        } else {
            decimal((n / 10) as nat).push(digit_char((n % 10) as nat))
        });
    }
}

/// Appends the decimal rendering of `n` to `out`.
pub fn push_signed_decimal(out: &mut String, n: i64)
    ensures
        final(out)@ == old(out)@ + signed_decimal(n as int),
{
    if n < 0 {
        out.push('-');
        let magnitude: u64 = if n == i64::MIN {
            9223372036854775808u64
        } else {
            (-n) as u64
        };
        push_decimal(out, magnitude);
        assert(final(out)@ =~= old(out)@ + signed_decimal(n as int));
    } else {
        push_decimal(out, n as u64);
    }
}

// ---------------------------------------------------------------------------
// UTF-8 lengths
// ---------------------------------------------------------------------------
/// Encoding a concatenation encodes each part in turn.
pub proof fn lemma_encode_concat(a: Seq<char>, b: Seq<char>)
    ensures
        encode_utf8(a + b) == encode_utf8(a) + encode_utf8(b),
    decreases a.len(),
{
    if a.len() == 0 {
        assert(a + b =~= b);
    } else {
        lemma_encode_concat(a.drop_first(), b);
        assert((a + b).drop_first() =~= a.drop_first() + b);
        assert((a + b)[0] == a[0]);
    }
}

/// The UTF-8 length of a prefix grows by the width of the next character
/// and stays within that of the whole text.
pub proof fn lemma_encode_prefix(s: Seq<char>, i: int)
    requires
        0 <= i < s.len(),
    ensures
        encode_utf8(s.take(i + 1)).len() == encode_utf8(s.take(i)).len() + encode_scalar(s[i] as u32).len(),
        encode_utf8(s.take(i + 1)).len() <= encode_utf8(s).len(),
{
    lemma_encode_concat(s.take(i), seq![s[i]]);
    assert(s.take(i) + seq![s[i]] =~= s.take(i + 1));
    let one = seq![s[i]];
    assert(one.drop_first() =~= Seq::<char>::empty());
    assert(encode_utf8(one.drop_first()) =~= Seq::<u8>::empty());
    assert(encode_utf8(one) == encode_scalar(one[0] as u32) + encode_utf8(one.drop_first()));
    assert(encode_scalar(s[i] as u32) + Seq::<u8>::empty() =~= encode_scalar(s[i] as u32));
    lemma_encode_concat(s.take(i + 1), s.skip(i + 1));
    assert(s.take(i + 1) + s.skip(i + 1) =~= s);
}

/// The number of bytes of `c` in UTF-8.
pub fn utf8_width(c: char) -> (w: usize)
    ensures
        w == encode_scalar(c as u32).len(),
        1 <= w <= 4,
{
    proof {
        vstd::utf8::char_is_scalar(c);
    }
    let u = c as u32;
    if u <= 0x7F {
        1
    } else if u <= 0x7FF {
        2
    } else if u <= 0xFFFF {
        3
    } else {
        4
    }
}

// ---------------------------------------------------------------------------
// Debug rendering
// ---------------------------------------------------------------------------
/// The text that `{:?}` writes for a string: quoted and escaped.
pub uninterp spec fn debug_quoted(s: Seq<char>) -> Seq<char>;

/// A printable ASCII character that `{:?}` writes as itself inside quotes:
/// anything from space to `~` except a quote and the backslash.
pub open spec fn plain_ascii(c: char) -> bool {
    ' ' <= c <= '~' && c != '"' && c != '\'' && c != '\\'
}

/// Formats `s` with `{:?}` (the quoted, escaped form that `Debug for str`
/// writes). Text of plain printable ASCII characters comes out as itself
/// between double quotes; how other characters are escaped is left to the
/// name `debug_quoted`.
#[verifier::external_body]
pub fn debug_string(s: &str) -> (r: String)
    ensures
        r@ == debug_quoted(s@),
        (forall|i: int| 0 <= i < s@.len() ==> plain_ascii(#[trigger] s@[i])) ==> r@ == seq!['"'] + s@
            + seq!['"'],
{
    format!("{:?}", s)
}

/// The text that `{:?}` writes for an `Option<char>`.
pub uninterp spec fn debug_option_char(c: Option<char>) -> Seq<char>;

/// Formats `c` with `{:?}`: `None`, or `Some(`, the character between
/// single quotes, and `)`, a plain printable ASCII character standing for
/// itself (how others are escaped is left to the name `debug_option_char`).
#[verifier::external_body]
pub fn debug_char_option(c: Option<char>) -> (r: String)
    ensures
        r@ == debug_option_char(c),
        c is None ==> r@ == "None"@,
        c is Some && plain_ascii(c->Some_0) ==> r@ == "Some('"@ + seq![c->Some_0] + "')"@,
{
    format!("{:?}", c)
}

} // verus!
