//! Reading the text of a scalar: trimming, removing digit separators,
//! recognising floats, and integers in bases 2, 8, 10 and 16.
use vstd::prelude::*;
use crate::ast::{SValue, Value};
use crate::parser::spec::{decimal_float_syntax, decimal_run, digits_value, exponent_ok, is_special_float, parse_i64, scalar_value, sign_len};
use crate::text::{concat, contains_char, digit_of, digit_value, is_decimal_digit, is_digit_of, remove_underscores, seq_equals, starts_at_exec, trim_end, unicode_whitespace};

verus! {

/// The end of `s[from..to]` once trailing `White_Space` is removed.
pub fn trimmed_end(s: &Vec<char>, from: usize, to: usize) -> (end: usize)
    requires
        from <= to <= s@.len(),
    ensures
        from <= end <= to,
        s@.subrange(from as int, end as int) == trim_end(s@.subrange(from as int, to as int)),
{
    let mut end = to;
    while end > from && unicode_whitespace(s[end - 1])
        invariant
            from <= end <= to <= s@.len(),
            trim_end(s@.subrange(from as int, end as int)) == trim_end(
                s@.subrange(from as int, to as int),
            ),
        decreases end,
    {
        proof {
            let t = s@.subrange(from as int, end as int);
            assert(t.last() == s@[end - 1]);
            assert(t.drop_last() =~= s@.subrange(from as int, end - 1));
        }
        end = end - 1;
    }
    proof {
        let t = s@.subrange(from as int, end as int);
        if end > from {
            assert(t.last() == s@[end - 1]);
        }
        assert(trim_end(t) == t);
    }
    end
}

/// The characters of `s[from..to]`.
pub fn sub_chars(s: &Vec<char>, from: usize, to: usize) -> (r: Vec<char>)
    requires
        from <= to <= s@.len(),
    ensures
        r@ == s@.subrange(from as int, to as int),
{
    let mut out: Vec<char> = Vec::new();
    let mut i = from;
    while i < to
        invariant
            from <= i <= to <= s@.len(),
            out@ == s@.subrange(from as int, i as int),
        decreases to - i,
    {
        out.push(s[i]);
        i = i + 1;
        assert(out@ =~= s@.subrange(from as int, i as int));
    }
    out
}

/// The characters of `s` without its `_`.
pub fn without_underscores(s: &Vec<char>) -> (r: Vec<char>)
    ensures
        r@ == remove_underscores(s@),
{
    let mut out: Vec<char> = Vec::new();
    let mut i: usize = 0;
    while i < s.len()
        invariant
            i <= s@.len(),
            out@ == remove_underscores(s@.take(i as int)),
        decreases s@.len() - i,
    {
        proof {
            assert(s@.take(i + 1).drop_last() =~= s@.take(i as int));
            assert(s@.take(i + 1).last() == s@[i as int]);
        }
        if s[i] != '_' {
            out.push(s[i]);
        }
        i = i + 1;
    }
    assert(s@.take(s@.len() as int) =~= s@);
    out
}

fn decimal_run_exec(t: &Vec<char>, from: usize) -> (r: usize)
    requires
        from <= t@.len(),
    ensures
        r == decimal_run(t@, from as int),
        from <= r <= t@.len(),
{
    let mut i = from;
    while i < t.len() && '0' <= t[i] && t[i] <= '9'
        invariant
            from <= i <= t@.len(),
            decimal_run(t@, i as int) == decimal_run(t@, from as int),
        decreases t@.len() - i,
    {
        i = i + 1;
    }
    i
}

fn sign_len_exec(t: &Vec<char>, from: usize) -> (r: usize)
    requires
        from <= t@.len(),
    ensures
        r == sign_len(t@, from as int),
        r <= t@.len(),
{
    if from < t.len() && (t[from] == '+' || t[from] == '-') {
        from + 1
    } else {
        from
    }
}

fn exponent_ok_exec(t: &Vec<char>, k: usize) -> (b: bool)
    requires
        k <= t@.len(),
    ensures
        b == exponent_ok(t@, k as int),
{
    let k2 = sign_len_exec(t, k);
    if k2 >= t.len() {
        return false;
    }
    let mut m = k2;
    while m < t.len()
        invariant
            k2 <= m <= t@.len(),
            k <= t@.len(),
            k2 == sign_len(t@, k as int),
            forall|j: int| k2 <= j < m ==> is_decimal_digit(#[trigger] t@[j]),
        decreases t@.len() - m,
    {
        if !('0' <= t[m] && t[m] <= '9') {
            assert(!is_decimal_digit(t@[m as int]));
            return false;
        }
        m = m + 1;
    }
    true
}

/// `t` is a decimal float as `f64::from_str` accepts it.
pub fn float_syntax(t: &Vec<char>) -> (b: bool)
    ensures
        b == decimal_float_syntax(t@),
{
    let s0 = sign_len_exec(t, 0);
    let i = decimal_run_exec(t, s0);
    let has_point = i < t.len() && t[i] == '.';
    let j = if has_point {
        decimal_run_exec(t, i + 1)
    } else {
        i
    };
    let mantissa_ok = if has_point {
        i > s0 || j > i + 1
    } else {
        i > s0
    };
    if !mantissa_ok {
        return false;
    }
    if j == t.len() {
        return true;
    }
    (t[j] == 'e' || t[j] == 'E') && exponent_ok_exec(t, j + 1)
}

/// `t` names an infinity or a not-a-number.
pub fn special_float(t: &Vec<char>) -> (b: bool)
    ensures
        b == is_special_float(t@),
{
    seq_equals(t, "inf") || seq_equals(t, "+inf") || seq_equals(t, "-inf") || seq_equals(t, "nan")
        || seq_equals(t, "+nan") || seq_equals(t, "-nan")
}

proof fn lemma_digits_step(t: Seq<char>, s0: int, i: int, radix: int)
    requires
        0 <= s0 <= i < t.len(),
    ensures
        digits_value(t.subrange(s0, i + 1), radix) == digits_value(t.subrange(s0, i), radix)
            * radix + digit_value(t[i])->0,
{
    assert(t.subrange(s0, i + 1).drop_last() =~= t.subrange(s0, i));
    assert(t.subrange(s0, i + 1).last() == t[i]);
}

proof fn lemma_digits_nonneg(d: Seq<char>, radix: int)
    requires
        radix >= 1,
        forall|i: int| 0 <= i < d.len() ==> is_digit_of(#[trigger] d[i], radix),
    ensures
        digits_value(d, radix) >= 0,
    decreases d.len(),
{
    if d.len() > 0 {
        assert forall|i: int| 0 <= i < d.drop_last().len() implies is_digit_of(
            #[trigger] d.drop_last()[i],
            radix,
        ) by {
            assert(d.drop_last()[i] == d[i]);
        }
        lemma_digits_nonneg(d.drop_last(), radix);
        assert(is_digit_of(d[d.len() - 1], radix));
        assert(digits_value(d.drop_last(), radix) * radix >= 0) by (nonlinear_arith)
            requires
                digits_value(d.drop_last(), radix) >= 0,
                radix >= 1,
        ;
    }
}

/// The integer that `t` denotes in base `radix` (`i64::from_str_radix`).
pub fn parse_i64_exec(t: &Vec<char>, radix: u32) -> (r: Option<i64>)
    requires
        2 <= radix <= 36,
    ensures
        r is Some == parse_i64(t@, radix as int) is Some,
        r is Some ==> r->0 as int == parse_i64(t@, radix as int)->0,
{
    let s0 = sign_len_exec(t, 0);
    if t.len() <= s0 {
        return None;
    }
    let cap: u128 = 0x1_0000_0000_0000_0000u128;
    let mut m: u128 = 0;
    let mut i = s0;
    proof {
        assert(t@.subrange(s0 as int, s0 as int) =~= Seq::<char>::empty());
    }
    while i < t.len()
        invariant
            s0 <= i <= t@.len(),
            s0 == sign_len(t@, 0),
            2 <= radix <= 36,
            cap == 0x1_0000_0000_0000_0000u128,
            forall|j: int| s0 <= j < i ==> is_digit_of(#[trigger] t@[j], radix as int),
            digits_value(t@.subrange(s0 as int, i as int), radix as int) >= 0,
            digits_value(t@.subrange(s0 as int, i as int), radix as int) < cap ==> m
                == digits_value(t@.subrange(s0 as int, i as int), radix as int),
            digits_value(t@.subrange(s0 as int, i as int), radix as int) >= cap ==> m == cap,
        decreases t@.len() - i,
    {
        let ghost dv = digits_value(t@.subrange(s0 as int, i as int), radix as int);
        match digit_of(t[i]) {
            Some(d) => {
                if d >= radix {
                    assert(!is_digit_of(t@[i as int], radix as int));
                    return None;
                }
                proof {
                    lemma_digits_step(t@, s0 as int, i as int, radix as int);
                }
                let ghost ndv = dv * radix + d;
                assert(ndv == digits_value(t@.subrange(s0 as int, i + 1), radix as int));
                if m >= cap {
                    assert(ndv >= cap) by (nonlinear_arith)
                        requires
                            dv >= cap,
                            radix >= 2,
                            d >= 0,
                            ndv == dv * radix + d,
                    ;
                } else {
                    assert(m * (radix as u128) + (d as u128) < 0x1_0000_0000_0000_0000_0000u128)
                        by (nonlinear_arith)
                        requires
                            m < 0x1_0000_0000_0000_0000u128,
                            radix <= 36,
                            d < radix,
                    ;
                    let next = m * (radix as u128) + (d as u128);
                    assert(next == ndv);
                    if next >= cap {
                        m = cap;
                    } else {
                        m = next;
                    }
                }
                assert(ndv >= 0) by (nonlinear_arith)
                    requires
                        dv >= 0,
                        radix >= 2,
                        d >= 0,
                        ndv == dv * radix + d,
                ;
            },
            None => {
                assert(!is_digit_of(t@[i as int], radix as int));
                return None;
            },
        }
        i = i + 1;
    }
    let ghost mv = digits_value(t@.subrange(s0 as int, t@.len() as int), radix as int);
    if t[0] == '-' {
        if m <= 0x8000_0000_0000_0000u128 {
            let r: i128 = -(m as i128);
            Some(r as i64)
        } else {
            None
        }
    } else {
        if m <= 0x7fff_ffff_ffff_ffffu128 {
            Some(m as i64)
        } else {
            None
        }
    }
}

/// The characters of `t` from index `from` on.
fn skip_chars(t: &Vec<char>, from: usize) -> (r: Vec<char>)
    requires
        from <= t@.len(),
    ensures
        r@ == t@.skip(from as int),
{
    let r = sub_chars(t, from, t.len());
    assert(t@.subrange(from as int, t@.len() as int) =~= t@.skip(from as int));
    r
}

fn integer_or(t: &Vec<char>, radix: u32, prefix: &str, raw: &String) -> (r: Result<Value, String>)
    requires
        2 <= radix <= 36,
    ensures
        match parse_i64(t@, radix as int) {
            Some(v) => r is Ok && r->Ok_0@ == SValue::Integer(v),
            None => r is Err && r->Err_0@ == prefix@ + raw@,
        },
{
    match parse_i64_exec(t, radix) {
        Some(v) => Ok(Value::Integer(v)),
        None => Err(concat(prefix, raw.as_str())),
    }
}

/// The meaning of the trimmed text `raw` of a scalar (see `scalar_value`).
pub fn classify_scalar(raw: &Vec<char>) -> (r: Result<Value, String>)
    ensures
        match scalar_value(raw@) {
            Ok(v) => r is Ok && r->Ok_0@ == v,
            Err(m) => r is Err && r->Err_0@ == m,
        },
{
    let raw_text = crate::text::string_from_range(raw, 0, raw.len());
    proof {
        assert(raw@.subrange(0, raw@.len() as int) =~= raw@);
    }
    let clean = without_underscores(raw);
    let special = special_float(&clean);
    if contains_char(&clean, '.') || contains_char(&clean, 'e') || contains_char(&clean, 'E')
        || special {
        if special || float_syntax(&clean) {
            proof {
                assert(clean@.subrange(0, clean@.len() as int) =~= clean@);
            }
            Ok(Value::Float(crate::text::string_from_range(&clean, 0, clean.len())))
        } else {
            Err(concat("invalid float: ", raw_text.as_str()))
        }
    } else {
        proof {
            reveal_strlit("0x");
            reveal_strlit("0o");
            reveal_strlit("0b");
        }
        if clean.len() >= 2 && starts_at_exec(&clean, 0, "0x") {
            integer_or(&skip_chars(&clean, 2), 16, "invalid hex: ", &raw_text)
        } else if clean.len() >= 2 && starts_at_exec(&clean, 0, "0o") {
            integer_or(&skip_chars(&clean, 2), 8, "invalid octal: ", &raw_text)
        } else if clean.len() >= 2 && starts_at_exec(&clean, 0, "0b") {
            integer_or(&skip_chars(&clean, 2), 2, "invalid binary: ", &raw_text)
        } else {
            integer_or(&clean, 10, "invalid value: ", &raw_text)
        }
    }
}

} // verus!
