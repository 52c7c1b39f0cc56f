//! Evaluating conditions and conditional values against a context.
use vstd::prelude::*;
use crate::ast::{
    entries_view, lemma_entries_view, lemma_entries_view_push, lemma_values_view,
    lemma_values_view_push, values_view, Expr, SExpr, SValue, Value,
};
use crate::engine::context::{lookup, Context};
use crate::parser::keys::{distinct_keys, well_keyed};
use crate::text::{concat, copy_string, string_of};

verus! {

/// The text of an operand: a variable's value or a string literal.
pub open spec fn atom_value(e: SExpr, vars: Seq<(Seq<char>, Seq<char>)>) -> Result<Seq<char>, Seq<char>> {
    match e {
        SExpr::Identifier(n) => match lookup(vars, n) {
            Some(v) => Ok(v),
            None => Err("unknown variable: "@ + n),
        },
        SExpr::Str(s) => Ok(s),
        _ => Err("invalid atom"@),
    }
}

/// The truth of a comparison; the left operand is evaluated first.
pub open spec fn expr_value(e: SExpr, vars: Seq<(Seq<char>, Seq<char>)>) -> Result<bool, Seq<char>> {
    match e {
        SExpr::Equals(l, r) => match atom_value(*l, vars) {
            Err(m) => Err(m),
            Ok(a) => match atom_value(*r, vars) {
                Err(m) => Err(m),
                Ok(b) => Ok(a == b),
            },
        },
        SExpr::NotEquals(l, r) => match atom_value(*l, vars) {
            Err(m) => Err(m),
            Ok(a) => match atom_value(*r, vars) {
                Err(m) => Err(m),
                Ok(b) => Ok(a != b),
            },
        },
        _ => Err("unsupported expression"@),
    }
}

/// A value with every conditional replaced by the branch its condition
/// selects, inside arrays and tables too; the first error in reading order
/// stops the evaluation.
pub open spec fn value_result(v: SValue, vars: Seq<(Seq<char>, Seq<char>)>) -> Result<SValue, Seq<char>>
    decreases v,
{
    match v {
        SValue::Conditional(c, t, e) => match expr_value(c, vars) {
            Err(m) => Err(m),
            Ok(b) => if b {
                value_result(*t, vars)
            } else {
                match e {
                    Some(eb) => value_result(*eb, vars),
                    None => Err("no else branch"@),
                }
            },
        },
        SValue::Array(items) => match items_result(items, vars) {
            Err(m) => Err(m),
            Ok(xs) => Ok(SValue::Array(xs)),
        },
        SValue::Table(entries) => match entries_result(entries, vars) {
            Err(m) => Err(m),
            Ok(ys) => Ok(SValue::Table(ys)),
        },
        _ => Ok(v),
    }
}

/// The items of an array, each evaluated.
pub open spec fn items_result(items: Seq<SValue>, vars: Seq<(Seq<char>, Seq<char>)>) -> Result<Seq<SValue>, Seq<char>>
    decreases items,
{
    if items.len() == 0 {
        Ok(Seq::empty())
    } else {
        match value_result(items[0], vars) {
            Err(m) => Err(m),
            Ok(x) => match items_result(items.drop_first(), vars) {
                Err(m) => Err(m),
                Ok(xs) => Ok(seq![x] + xs),
            },
        }
    }
}

/// The entries of a table, each value evaluated under the same key.
pub open spec fn entries_result(entries: Seq<(Seq<char>, SValue)>, vars: Seq<(Seq<char>, Seq<char>)>) -> Result<Seq<(Seq<char>, SValue)>, Seq<char>>
    decreases entries,
{
    if entries.len() == 0 {
        Ok(Seq::empty())
    } else {
        match value_result(entries[0].1, vars) {
            Err(m) => Err(m),
            Ok(x) => match entries_result(entries.drop_first(), vars) {
                Err(m) => Err(m),
                Ok(ys) => Ok(seq![(entries[0].0, x)] + ys),
            },
        }
    }
}

/// `r` with `pre` in front of its sequence.
pub open spec fn with_prefix<T>(pre: Seq<T>, r: Result<Seq<T>, Seq<char>>) -> Result<Seq<T>, Seq<char>> {
    match r {
        Err(m) => Err(m),
        Ok(xs) => Ok(pre + xs),
    }
}

pub proof fn lemma_with_prefix<T>(pre: Seq<T>, x: T, r: Result<Seq<T>, Seq<char>>)
    ensures
        with_prefix(pre, with_prefix(seq![x], r)) == with_prefix(pre.push(x), r),
{
    if let Ok(xs) = r {
        assert(pre + (seq![x] + xs) =~= pre.push(x) + xs);
    }
}

proof fn lemma_items_split(items: Seq<SValue>, i: int, vars: Seq<(Seq<char>, Seq<char>)>)
    requires
        0 <= i < items.len(),
    ensures
        items_result(items.skip(i), vars) == match value_result(items[i], vars) {
            Err(m) => Err(m),
            Ok(x) => with_prefix(seq![x], items_result(items.skip(i + 1), vars)),
        },
{
    assert(items.skip(i).drop_first() =~= items.skip(i + 1));
}

proof fn lemma_entries_split(entries: Seq<(Seq<char>, SValue)>, i: int, vars: Seq<(Seq<char>, Seq<char>)>)
    requires
        0 <= i < entries.len(),
    ensures
        entries_result(entries.skip(i), vars) == match value_result(entries[i].1, vars) {
            Err(m) => Err(m),
            Ok(x) => with_prefix(seq![(entries[i].0, x)], entries_result(entries.skip(i + 1), vars)),
        },
{
    assert(entries.skip(i).drop_first() =~= entries.skip(i + 1));
}

fn eval_atom(expr: &Expr, ctx: &Context) -> (r: Result<String, String>)
    ensures
        match (r, atom_value(expr@, ctx@)) {
            (Ok(x), Ok(y)) => x@ == y,
            (Err(x), Err(y)) => x@ == y,
            _ => false,
        },
{
    match expr {
        Expr::Identifier(name) => match ctx.get(name.as_str()) {
            Some(v) => Ok(copy_string(v)),
            None => Err(concat("unknown variable: ", name.as_str())),
        },
        Expr::String(s) => Ok(copy_string(s)),
        _ => Err(string_of("invalid atom")),
    }
}

/// Evaluates a comparison: `Ok(true)` or `Ok(false)`, or the message of the
/// first operand that cannot be read; anything but `==` and `!=` at the top
/// is refused.
pub fn eval_expr(expr: &Expr, ctx: &Context) -> (r: Result<bool, String>)
    ensures
        match (r, expr_value(expr@, ctx@)) {
            (Ok(x), Ok(y)) => x == y,
            (Err(x), Err(y)) => x@ == y,
            _ => false,
        },
{
    match expr {
        Expr::Equals(lhs, rhs) => {
            let a = eval_atom(lhs, ctx)?;
            let b = eval_atom(rhs, ctx)?;
            Ok(a == b)
        },
        Expr::NotEquals(lhs, rhs) => {
            let a = eval_atom(lhs, ctx)?;
            let b = eval_atom(rhs, ctx)?;
            Ok(a != b)
        },
        _ => Err(string_of("unsupported expression")),
    }
}

/// Evaluates every conditional inside `value` (see `value_result`).
pub fn eval_value(value: &Value, ctx: &Context) -> (r: Result<Value, String>)
    ensures
        match (r, value_result(value@, ctx@)) {
            (Ok(x), Ok(y)) => x@ == y,
            (Err(x), Err(y)) => x@ == y,
            _ => false,
        },
    decreases value,
{
    match value {
        Value::Conditional { condition, then_branch, else_branch } => {
            if eval_expr(condition, ctx)? {
                eval_value(then_branch, ctx)
            } else {
                match else_branch {
                    Some(else_b) => eval_value(else_b, ctx),
                    None => Err(string_of("no else branch")),
                }
            }
        },
        Value::Array(arr) => {
            proof {
                assert(decreases_to!(*value => *arr));
            }
            let xs = eval_items(arr, ctx)?;
            Ok(Value::Array(xs))
        },
        Value::Table(map) => {
            proof {
                assert(decreases_to!(*value => *map));
            }
            let ys = eval_entries(map, ctx)?;
            Ok(Value::Table(ys))
        },
        _ => Ok(value.duplicate()),
    }
}

fn eval_items(arr: &Vec<Value>, ctx: &Context) -> (r: Result<Vec<Value>, String>)
    ensures
        match (r, items_result(values_view(arr@), ctx@)) {
            (Ok(x), Ok(y)) => values_view(x@) == y,
            (Err(x), Err(y)) => x@ == y,
            _ => false,
        },
    decreases arr,
{
    let mut result: Vec<Value> = Vec::new();
    let mut i: usize = 0;
    let ghost all = values_view(arr@);
    proof {
        lemma_values_view(arr@);
        assert(all.skip(0) =~= all);
        assert(values_view(result@) =~= Seq::<SValue>::empty());
        if let Ok(xs) = items_result(all, ctx@) {
            assert(Seq::<SValue>::empty() + xs =~= xs);
        }
    }
    while i < arr.len()
        invariant
            i <= arr@.len(),
            all == values_view(arr@),
            all.len() == arr@.len(),
            forall|j: int| 0 <= j < arr@.len() ==> #[trigger] all[j] == arr@[j]@,
            items_result(all, ctx@) == with_prefix(values_view(result@), items_result(all.skip(i as int), ctx@)),
        decreases arr@.len() - i,
    {
        proof {
            lemma_items_split(all, i as int, ctx@);
            assert(decreases_to!(*arr => arr@));
            assert(decreases_to!(arr@ => arr@[i as int]));
        }
        let x = eval_value(&arr[i], ctx)?;
        proof {
            lemma_values_view_push(result@, x);
            lemma_with_prefix(values_view(result@), x@, items_result(all.skip(i + 1), ctx@));
        }
        result.push(x);
        i = i + 1;
    }
    proof {
        assert(all.skip(i as int) =~= Seq::<SValue>::empty());
        assert(values_view(result@) + Seq::<SValue>::empty() =~= values_view(result@));
    }
    Ok(result)
}

fn eval_entries(map: &Vec<(String, Value)>, ctx: &Context) -> (r: Result<Vec<(String, Value)>, String>)
    ensures
        match (r, entries_result(entries_view(map@), ctx@)) {
            (Ok(x), Ok(y)) => entries_view(x@) == y,
            (Err(x), Err(y)) => x@ == y,
            _ => false,
        },
    decreases map,
{
    let mut result: Vec<(String, Value)> = Vec::new();
    let mut i: usize = 0;
    let ghost all = entries_view(map@);
    proof {
        lemma_entries_view(map@);
        assert(all.skip(0) =~= all);
        assert(entries_view(result@) =~= Seq::<(Seq<char>, SValue)>::empty());
        if let Ok(ys) = entries_result(all, ctx@) {
            assert(Seq::<(Seq<char>, SValue)>::empty() + ys =~= ys);
        }
    }
    while i < map.len()
        invariant
            i <= map@.len(),
            all == entries_view(map@),
            all.len() == map@.len(),
            forall|j: int| 0 <= j < map@.len() ==> #[trigger] all[j] == (map@[j].0@, map@[j].1@),
            entries_result(all, ctx@) == with_prefix(entries_view(result@), entries_result(all.skip(i as int), ctx@)),
        decreases map@.len() - i,
    {
        proof {
            lemma_entries_split(all, i as int, ctx@);
            assert(decreases_to!(*map => map@));
            assert(decreases_to!(map@ => map@[i as int]));
            assert(decreases_to!(map@[i as int] => map@[i as int].1));
        }
        let x = eval_value(&map[i].1, ctx)?;
        let k = copy_string(&map[i].0);
        proof {
            lemma_entries_view_push(result@, (k, x));
            lemma_with_prefix(entries_view(result@), (k@, x@), entries_result(all.skip(i + 1), ctx@));
        }
        result.push((k, x));
        i = i + 1;
    }
    proof {
        assert(all.skip(i as int) =~= Seq::<(Seq<char>, SValue)>::empty());
        assert(entries_view(result@) + Seq::<(Seq<char>, SValue)>::empty() =~= entries_view(result@));
    }
    Ok(result)
}

/// A value without conditionals, at any depth.
pub open spec fn settled(v: SValue) -> bool
    decreases v,
{
    match v {
        SValue::Conditional(..) => false,
        SValue::Array(items) => forall|i: int| 0 <= i < items.len() ==> settled(#[trigger] items[i]),
        SValue::Table(t) => forall|i: int| 0 <= i < t.len() ==> settled(#[trigger] t[i].1),
        _ => true,
    }
}

proof fn lemma_settled_value(v: SValue, vars: Seq<(Seq<char>, Seq<char>)>)
    requires
        settled(v),
    ensures
        value_result(v, vars) == Ok::<SValue, Seq<char>>(v),
    decreases v, 1int,
{
    match v {
        SValue::Array(items) => {
            lemma_settled_items(items, vars);
        },
        SValue::Table(t) => {
            lemma_settled_entries(t, vars);
        },
        _ => {},
    }
}

#[verifier::spinoff_prover]
proof fn lemma_settled_items(items: Seq<SValue>, vars: Seq<(Seq<char>, Seq<char>)>)
    requires
        forall|i: int| 0 <= i < items.len() ==> settled(#[trigger] items[i]),
    ensures
        items_result(items, vars) == Ok::<Seq<SValue>, Seq<char>>(items),
    decreases items, 0int,
{
    if items.len() == 0 {
        assert(items =~= Seq::<SValue>::empty());
    } else {
        let first = items[0];
        assert(settled(first));
        lemma_settled_value(first, vars);
        let rest = items.drop_first();
        assert forall|i: int| 0 <= i < rest.len() implies settled(#[trigger] rest[i]) by {
            assert(rest[i] == items[i + 1]);
        }
        lemma_settled_items(rest, vars);
        assert(items_result(items, vars) == with_prefix(seq![first], items_result(rest, vars)));
        assert(seq![first] + rest =~= items);
    }
}

#[verifier::spinoff_prover]
proof fn lemma_settled_entries(t: Seq<(Seq<char>, SValue)>, vars: Seq<(Seq<char>, Seq<char>)>)
    requires
        forall|i: int| 0 <= i < t.len() ==> settled(#[trigger] t[i].1),
    ensures
        entries_result(t, vars) == Ok::<Seq<(Seq<char>, SValue)>, Seq<char>>(t),
    decreases t, 0int,
{
    if t.len() == 0 {
        assert(t =~= Seq::<(Seq<char>, SValue)>::empty());
    } else {
        let first = t[0];
        assert(settled(first.1));
        lemma_settled_value(first.1, vars);
        let rest = t.drop_first();
        assert forall|i: int| 0 <= i < rest.len() implies settled(#[trigger] rest[i].1) by {
            assert(rest[i] == t[i + 1]);
        }
        lemma_settled_entries(rest, vars);
        assert(entries_result(t, vars) == with_prefix(seq![(first.0, first.1)], entries_result(rest, vars)));
        assert(seq![(first.0, first.1)] + rest =~= t);
    }
}

proof fn lemma_result_settled(v: SValue, vars: Seq<(Seq<char>, Seq<char>)>)
    requires
        value_result(v, vars) is Ok,
    ensures
        settled(value_result(v, vars)->Ok_0),
    decreases v, 1int,
{
    match v {
        SValue::Conditional(c, th, el) => {
            if expr_value(c, vars)->Ok_0 {
                lemma_result_settled(*th, vars);
            } else {
                lemma_result_settled(*el->Some_0, vars);
            }
        },
        SValue::Array(items) => {
            lemma_items_settled(items, vars);
        },
        SValue::Table(t) => {
            lemma_entries_settled(t, vars);
        },
        _ => {},
    }
}

proof fn lemma_items_settled(items: Seq<SValue>, vars: Seq<(Seq<char>, Seq<char>)>)
    requires
        items_result(items, vars) is Ok,
    ensures
        forall|i: int| 0 <= i < items_result(items, vars)->Ok_0.len() ==> settled(#[trigger] items_result(items, vars)->Ok_0[i]),
        items_result(items, vars)->Ok_0.len() == items.len(),
    decreases items, 0int,
{
    if items.len() > 0 {
        lemma_result_settled(items[0], vars);
        lemma_items_settled(items.drop_first(), vars);
        let x = value_result(items[0], vars)->Ok_0;
        let xs = items_result(items.drop_first(), vars)->Ok_0;
        let all = items_result(items, vars)->Ok_0;
        assert(all == seq![x] + xs);
        assert forall|i: int| 0 <= i < all.len() implies settled(#[trigger] all[i]) by {
            if i > 0 {
                assert(all[i] == xs[i - 1]);
            }
        }
    }
}

proof fn lemma_entries_settled(t: Seq<(Seq<char>, SValue)>, vars: Seq<(Seq<char>, Seq<char>)>)
    requires
        entries_result(t, vars) is Ok,
    ensures
        forall|i: int| 0 <= i < entries_result(t, vars)->Ok_0.len() ==> settled(#[trigger] entries_result(t, vars)->Ok_0[i].1),
        forall|i: int| 0 <= i < entries_result(t, vars)->Ok_0.len() ==> #[trigger] entries_result(t, vars)->Ok_0[i].0 == t[i].0,
        entries_result(t, vars)->Ok_0.len() == t.len(),
    decreases t, 0int,
{
    if t.len() > 0 {
        lemma_result_settled(t[0].1, vars);
        lemma_entries_settled(t.drop_first(), vars);
        let x = value_result(t[0].1, vars)->Ok_0;
        let ys = entries_result(t.drop_first(), vars)->Ok_0;
        let all = entries_result(t, vars)->Ok_0;
        assert(all == seq![(t[0].0, x)] + ys);
        assert forall|i: int| 0 <= i < all.len() implies settled(#[trigger] all[i].1) by {
            if i > 0 {
                assert(all[i] == ys[i - 1]);
            }
        }
        assert forall|i: int| 0 <= i < all.len() implies #[trigger] all[i].0 == t[i].0 by {
            if i > 0 {
                assert(all[i] == ys[i - 1]);
                assert(t.drop_first()[i - 1] == t[i]);
            }
        }
    }
}

/// Evaluation leaves no conditional behind, and a value without
/// conditionals evaluates to itself in every context: evaluating a second
/// time changes nothing.
pub proof fn law_evaluation_settles(v: SValue, vars: Seq<(Seq<char>, Seq<char>)>, other: Seq<(Seq<char>, Seq<char>)>)
    ensures
        value_result(v, vars) is Ok ==> settled(value_result(v, vars)->Ok_0),
        settled(v) ==> value_result(v, other) == Ok::<SValue, Seq<char>>(v),
        value_result(v, vars) is Ok ==> value_result(value_result(v, vars)->Ok_0, other) == value_result(v, vars),
{
    if value_result(v, vars) is Ok {
        lemma_result_settled(v, vars);
        lemma_settled_value(value_result(v, vars)->Ok_0, other);
    }
    if settled(v) {
        lemma_settled_value(v, other);
    }
}

proof fn lemma_result_well_keyed(v: SValue, vars: Seq<(Seq<char>, Seq<char>)>)
    requires
        well_keyed(v),
        value_result(v, vars) is Ok,
    ensures
        well_keyed(value_result(v, vars)->Ok_0),
    decreases v, 1int,
{
    match v {
        SValue::Conditional(c, th, el) => {
            if expr_value(c, vars)->Ok_0 {
                lemma_result_well_keyed(*th, vars);
            } else {
                lemma_result_well_keyed(*el->Some_0, vars);
            }
        },
        SValue::Array(items) => {
            assert(forall|i: int| 0 <= i < items.len() ==> well_keyed(#[trigger] items[i]));
            lemma_items_well_keyed(items, vars);
        },
        SValue::Table(t) => {
            assert(forall|i: int| 0 <= i < t.len() ==> well_keyed(#[trigger] t[i].1));
            lemma_entries_well_keyed(t, vars);
            lemma_entries_settled(t, vars);
            let ys = entries_result(t, vars)->Ok_0;
            assert forall|i: int, j: int| 0 <= i < j < ys.len() implies #[trigger] ys[i].0 != #[trigger] ys[j].0 by {
                assert(ys[i].0 == t[i].0 && ys[j].0 == t[j].0);
                assert(t[i].0 != t[j].0);
            }
            assert(distinct_keys(ys));
        },
        _ => {},
    }
}

proof fn lemma_items_well_keyed(items: Seq<SValue>, vars: Seq<(Seq<char>, Seq<char>)>)
    requires
        forall|i: int| 0 <= i < items.len() ==> well_keyed(#[trigger] items[i]),
        items_result(items, vars) is Ok,
    ensures
        forall|i: int| 0 <= i < items_result(items, vars)->Ok_0.len() ==> well_keyed(#[trigger] items_result(items, vars)->Ok_0[i]),
    decreases items, 0int,
{
    if items.len() > 0 {
        assert(well_keyed(items[0]));
        lemma_result_well_keyed(items[0], vars);
        let rest = items.drop_first();
        assert forall|i: int| 0 <= i < rest.len() implies well_keyed(#[trigger] rest[i]) by {
            assert(rest[i] == items[i + 1]);
        }
        lemma_items_well_keyed(rest, vars);
        let x = value_result(items[0], vars)->Ok_0;
        let xs = items_result(rest, vars)->Ok_0;
        let all = items_result(items, vars)->Ok_0;
        assert(all == seq![x] + xs);
        assert forall|i: int| 0 <= i < all.len() implies well_keyed(#[trigger] all[i]) by {
            if i > 0 {
                assert(all[i] == xs[i - 1]);
            }
        }
    }
}

proof fn lemma_entries_well_keyed(t: Seq<(Seq<char>, SValue)>, vars: Seq<(Seq<char>, Seq<char>)>)
    requires
        forall|i: int| 0 <= i < t.len() ==> well_keyed(#[trigger] t[i].1),
        entries_result(t, vars) is Ok,
    ensures
        forall|i: int| 0 <= i < entries_result(t, vars)->Ok_0.len() ==> well_keyed(#[trigger] entries_result(t, vars)->Ok_0[i].1),
    decreases t, 0int,
{
    if t.len() > 0 {
        assert(well_keyed(t[0].1));
        lemma_result_well_keyed(t[0].1, vars);
        let rest = t.drop_first();
        assert forall|i: int| 0 <= i < rest.len() implies well_keyed(#[trigger] rest[i].1) by {
            assert(rest[i] == t[i + 1]);
        }
        lemma_entries_well_keyed(rest, vars);
        let x = value_result(t[0].1, vars)->Ok_0;
        let ys = entries_result(rest, vars)->Ok_0;
        let all = entries_result(t, vars)->Ok_0;
        assert(all == seq![(t[0].0, x)] + ys);
        assert forall|i: int| 0 <= i < all.len() implies well_keyed(#[trigger] all[i].1) by {
            if i > 0 {
                assert(all[i] == ys[i - 1]);
            }
        }
    }
}

/// Evaluation keeps every table's keys distinct: it keeps each table's
/// keys, in order, and replaces only values.
pub proof fn law_evaluation_keeps_keys_distinct(v: SValue, vars: Seq<(Seq<char>, Seq<char>)>)
    requires
        well_keyed(v),
    ensures
        value_result(v, vars) is Ok ==> well_keyed(value_result(v, vars)->Ok_0),
{
    if value_result(v, vars) is Ok {
        lemma_result_well_keyed(v, vars);
    }
}

/// A comparison compares the texts of its operands: `==` holds exactly
/// when they are identical and `!=` exactly when they differ, a variable
/// standing for its value; an unset variable is an error.
pub proof fn law_comparisons_compare_texts(x: Seq<char>, y: Seq<char>, n: Seq<char>, vars: Seq<(Seq<char>, Seq<char>)>)
    ensures
        expr_value(SExpr::Equals(Box::new(SExpr::Str(x)), Box::new(SExpr::Str(y))), vars) == Ok::<bool, Seq<char>>(x == y),
        expr_value(SExpr::NotEquals(Box::new(SExpr::Str(x)), Box::new(SExpr::Str(y))), vars) == Ok::<bool, Seq<char>>(x != y),
        lookup(vars, n) == Some(x) ==> expr_value(
            SExpr::Equals(Box::new(SExpr::Identifier(n)), Box::new(SExpr::Str(y))),
            vars,
        ) == Ok::<bool, Seq<char>>(x == y),
        lookup(vars, n) == Some(x) ==> expr_value(
            SExpr::NotEquals(Box::new(SExpr::Identifier(n)), Box::new(SExpr::Str(y))),
            vars,
        ) == Ok::<bool, Seq<char>>(x != y),
        lookup(vars, n) == Some(x) ==> expr_value(
            SExpr::Equals(Box::new(SExpr::Str(y)), Box::new(SExpr::Identifier(n))),
            vars,
        ) == Ok::<bool, Seq<char>>(y == x),
        lookup(vars, n) is None ==> expr_value(
            SExpr::Equals(Box::new(SExpr::Identifier(n)), Box::new(SExpr::Str(y))),
            vars,
        ) == Err::<bool, Seq<char>>("unknown variable: "@ + n),
{
}

} // verus!
