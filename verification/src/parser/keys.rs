//! No table that parsing builds holds a key twice, at any depth.
use vstd::prelude::*;
use crate::ast::SValue;
use crate::text::starts_at;
use crate::parser::spec::{array, array_items, block, conditional, descend, document, ensure_array, ensure_array_value, entry_step, has_key, header_step, in_last, inline_table, insert_dotted, insert_dotted_value, insert_into_last, insert_into_last_value, key_index, last_is_table, last_table, parse_document, push_array_entry, push_array_entry_value, table_entries, value, dotted_key, expr, is_block, peek, skip_around_comment, skip_inline, skip_ws_comments, skip_ws_nl};

verus! {

/// No key occurs twice in `t`.
pub open spec fn distinct_keys(t: Seq<(Seq<char>, SValue)>) -> bool {
    forall|i: int, j: int| 0 <= i < j < t.len() ==> #[trigger] t[i].0 != #[trigger] t[j].0
}

/// Every table inside `v`, at any depth, has distinct keys.
pub open spec fn well_keyed(v: SValue) -> bool
    decreases v,
{
    match v {
        SValue::Table(t) => distinct_keys(t) && forall|i: int| 0 <= i < t.len() ==> well_keyed(#[trigger] t[i].1),
        SValue::Array(items) => forall|i: int| 0 <= i < items.len() ==> well_keyed(#[trigger] items[i]),
        SValue::Conditional(_, th, el) => well_keyed(*th) && match el {
            Some(e) => well_keyed(*e),
            None => true,
        },
        _ => true,
    }
}

/// `t` and every table inside it have distinct keys.
pub open spec fn well_keyed_table(t: Seq<(Seq<char>, SValue)>) -> bool {
    well_keyed(SValue::Table(t))
}

/// In a table with distinct keys, `key_index` finds the entry with key `k`.
proof fn lemma_index_of_key(t: Seq<(Seq<char>, SValue)>, k: Seq<char>)
    requires
        distinct_keys(t),
        has_key(t, k),
    ensures
        0 <= key_index(t, k) < t.len(),
        t[key_index(t, k)].0 == k,
{
    let i = choose|i: int| 0 <= i < t.len() && t[i].0 == k;
    assert forall|j: int| 0 <= j < i implies t[j].0 != k by {
        assert(t[j].0 != t[i].0);
    }
    let w = key_index(t, k);
    assert(0 <= w < t.len() && t[w].0 == k && forall|j: int| 0 <= j < w ==> t[j].0 != k);
}

/// Appending an entry under a new key keeps a table well keyed.
proof fn lemma_push_entry(t: Seq<(Seq<char>, SValue)>, k: Seq<char>, v: SValue)
    requires
        well_keyed_table(t),
        !has_key(t, k),
        well_keyed(v),
    ensures
        well_keyed_table(t.push((k, v))),
{
    let t2 = t.push((k, v));
    assert forall|i: int, j: int| 0 <= i < j < t2.len() implies #[trigger] t2[i].0 != #[trigger] t2[j].0 by {
        if j == t.len() {
            assert(t2[i] == t[i]);
            assert(!(0 <= i < t.len() && t[i].0 == k));
        } else {
            assert(t2[i] == t[i] && t2[j] == t[j]);
        }
    }
    assert forall|i: int| 0 <= i < t2.len() implies well_keyed(#[trigger] t2[i].1) by {
        if i < t.len() {
            assert(t2[i] == t[i]);
        }
    }
}

/// Replacing the value of an entry, under the same key, by a well keyed
/// value keeps a table well keyed.
proof fn lemma_descend(t: Seq<(Seq<char>, SValue)>, i: int, key: Seq<char>, r: Result<SValue, Seq<char>>)
    requires
        well_keyed_table(t),
        0 <= i < t.len(),
        t[i].0 == key,
        r is Ok ==> well_keyed(r->Ok_0),
    ensures
        descend(t, i, key, r) is Ok ==> well_keyed_table(descend(t, i, key, r)->Ok_0),
{
    if let Ok(v2) = r {
        let t2 = t.update(i, (key, v2));
        assert forall|a: int, b: int| 0 <= a < b < t2.len() implies #[trigger] t2[a].0 != #[trigger] t2[b].0 by {
            assert(t2[a].0 == t[a].0 && t2[b].0 == t[b].0);
        }
        assert forall|a: int| 0 <= a < t2.len() implies well_keyed(#[trigger] t2[a].1) by {
            if a != i {
                assert(t2[a] == t[a]);
            }
        }
    }
}

/// Replacing the last table of an array by a well keyed table keeps the
/// array well keyed.
proof fn lemma_in_last(arr: Seq<SValue>, r: Result<Seq<(Seq<char>, SValue)>, Seq<char>>)
    requires
        forall|i: int| 0 <= i < arr.len() ==> well_keyed(#[trigger] arr[i]),
        arr.len() > 0,
        r is Ok ==> well_keyed_table(r->Ok_0),
    ensures
        in_last(arr, r) is Ok ==> well_keyed(in_last(arr, r)->Ok_0),
{
    if let Ok(t2) = r {
        let a2 = arr.update(arr.len() - 1, SValue::Table(t2));
        assert forall|k: int| 0 <= k < a2.len() implies well_keyed(#[trigger] a2[k]) by {
            if k != arr.len() - 1 {
                assert(a2[k] == arr[k]);
                assert(well_keyed(arr[k]));
            } else {
                assert(a2[k] == SValue::Table(t2));
                assert(well_keyed_table(t2));
                assert(well_keyed(SValue::Table(t2)));
            }
        }
    }
}

/// Inserting at a dotted path keeps a table well keyed.
pub proof fn lemma_insert_dotted(t: Seq<(Seq<char>, SValue)>, keys: Seq<Seq<char>>, v: SValue)
    requires
        well_keyed_table(t),
        well_keyed(v),
    ensures
        insert_dotted(t, keys, v) is Ok ==> well_keyed_table(insert_dotted(t, keys, v)->Ok_0),
    decreases keys.len(), 0int,
{
    if keys.len() == 1 {
        if !has_key(t, keys[0]) {
            lemma_push_entry(t, keys[0], v);
        }
    } else if keys.len() > 1 {
        if !has_key(t, keys[0]) {
            lemma_insert_dotted(Seq::empty(), keys.drop_first(), v);
            if let Ok(inner) = insert_dotted(Seq::empty(), keys.drop_first(), v) {
                lemma_push_entry(t, keys[0], SValue::Table(inner));
            }
        } else {
            lemma_index_of_key(t, keys[0]);
            let i = key_index(t, keys[0]);
            assert(well_keyed(t[i].1));
            lemma_insert_dotted_value(t[i].1, keys[0], keys.drop_first(), v);
            lemma_descend(t, i, keys[0], insert_dotted_value(t[i].1, keys[0], keys.drop_first(), v));
        }
    }
}

proof fn lemma_insert_dotted_value(x: SValue, key: Seq<char>, rest: Seq<Seq<char>>, v: SValue)
    requires
        well_keyed(x),
        well_keyed(v),
    ensures
        insert_dotted_value(x, key, rest, v) is Ok ==> well_keyed(insert_dotted_value(x, key, rest, v)->Ok_0),
    decreases rest.len(), 1int,
{
    if let SValue::Table(inner) = x {
        lemma_insert_dotted(inner, rest, v);
    }
}

/// Making sure an array of tables exists keeps a table well keyed.
pub proof fn lemma_ensure_array(t: Seq<(Seq<char>, SValue)>, path: Seq<Seq<char>>)
    requires
        well_keyed_table(t),
    ensures
        ensure_array(t, path) is Ok ==> well_keyed_table(ensure_array(t, path)->Ok_0),
    decreases path.len(), 0int,
{
    if path.len() == 1 {
        if !has_key(t, path[0]) {
            lemma_push_entry(t, path[0], SValue::Array(Seq::empty()));
        }
    } else if path.len() > 1 {
        if !has_key(t, path[0]) {
            lemma_ensure_array(Seq::empty(), path.drop_first());
            if let Ok(inner) = ensure_array(Seq::empty(), path.drop_first()) {
                lemma_push_entry(t, path[0], SValue::Table(inner));
            }
        } else {
            lemma_index_of_key(t, path[0]);
            let i = key_index(t, path[0]);
            assert(well_keyed(t[i].1));
            lemma_ensure_array_value(t[i].1, path[0], path.drop_first());
            lemma_descend(t, i, path[0], ensure_array_value(t[i].1, path[0], path.drop_first()));
        }
    }
}

proof fn lemma_ensure_array_value(x: SValue, key: Seq<char>, rest: Seq<Seq<char>>)
    requires
        well_keyed(x),
    ensures
        ensure_array_value(x, key, rest) is Ok ==> well_keyed(ensure_array_value(x, key, rest)->Ok_0),
    decreases rest.len(), 1int,
{
    match x {
        SValue::Table(inner) => {
            lemma_ensure_array(inner, rest);
        },
        SValue::Array(arr) => {
            if last_is_table(arr) {
                assert(forall|i: int| 0 <= i < arr.len() ==> well_keyed(#[trigger] arr[i]));
                lemma_ensure_array(last_table(arr), rest);
                lemma_in_last(arr, ensure_array(last_table(arr), rest));
            }
        },
        _ => {},
    }
}

/// Appending a table to an array of tables keeps a table well keyed.
pub proof fn lemma_push_array_entry(t: Seq<(Seq<char>, SValue)>, path: Seq<Seq<char>>)
    requires
        well_keyed_table(t),
    ensures
        push_array_entry(t, path) is Ok ==> well_keyed_table(push_array_entry(t, path)->Ok_0),
    decreases path.len(), 0int,
{
    if path.len() > 0 && has_key(t, path[0]) {
        lemma_index_of_key(t, path[0]);
        let i = key_index(t, path[0]);
        assert(well_keyed(t[i].1));
        lemma_push_array_entry_value(t[i].1, path[0], path.drop_first());
        lemma_descend(t, i, path[0], push_array_entry_value(t[i].1, path[0], path.drop_first()));
    }
}

proof fn lemma_push_array_entry_value(x: SValue, key: Seq<char>, rest: Seq<Seq<char>>)
    requires
        well_keyed(x),
    ensures
        push_array_entry_value(x, key, rest) is Ok ==> well_keyed(push_array_entry_value(x, key, rest)->Ok_0),
    decreases rest.len(), 1int,
{
    if rest.len() == 0 {
        if let SValue::Array(arr) = x {
            let a2 = arr.push(SValue::Table(Seq::empty()));
            assert forall|k: int| 0 <= k < a2.len() implies well_keyed(#[trigger] a2[k]) by {
                if k < arr.len() {
                    assert(a2[k] == arr[k]);
                }
            }
        }
    } else {
        match x {
            SValue::Table(inner) => {
                lemma_push_array_entry(inner, rest);
            },
            SValue::Array(arr) => {
                if last_is_table(arr) {
                    assert(forall|i: int| 0 <= i < arr.len() ==> well_keyed(#[trigger] arr[i]));
                    lemma_push_array_entry(last_table(arr), rest);
                    lemma_in_last(arr, push_array_entry(last_table(arr), rest));
                }
            },
            _ => {},
        }
    }
}

/// Inserting into the last table of an array of tables keeps a table well
/// keyed.
pub proof fn lemma_insert_into_last(t: Seq<(Seq<char>, SValue)>, array_path: Seq<Seq<char>>, rel: Seq<Seq<char>>, v: SValue)
    requires
        well_keyed_table(t),
        well_keyed(v),
    ensures
        insert_into_last(t, array_path, rel, v) is Ok ==> well_keyed_table(insert_into_last(t, array_path, rel, v)->Ok_0),
    decreases array_path.len(), 0int,
{
    if array_path.len() == 0 {
        lemma_insert_dotted(t, rel, v);
    } else if has_key(t, array_path[0]) {
        lemma_index_of_key(t, array_path[0]);
        let i = key_index(t, array_path[0]);
        assert(well_keyed(t[i].1));
        lemma_insert_into_last_value(t[i].1, array_path[0], array_path.drop_first(), rel, v);
        lemma_descend(
            t,
            i,
            array_path[0],
            insert_into_last_value(t[i].1, array_path[0], array_path.drop_first(), rel, v),
        );
    }
}

proof fn lemma_insert_into_last_value(x: SValue, key: Seq<char>, rest: Seq<Seq<char>>, rel: Seq<Seq<char>>, v: SValue)
    requires
        well_keyed(x),
        well_keyed(v),
    ensures
        insert_into_last_value(x, key, rest, rel, v) is Ok ==> well_keyed(insert_into_last_value(x, key, rest, rel, v)->Ok_0),
    decreases rest.len(), 1int,
{
    match x {
        SValue::Array(arr) => {
            if last_is_table(arr) {
                assert(forall|i: int| 0 <= i < arr.len() ==> well_keyed(#[trigger] arr[i]));
                if rest.len() == 0 {
                    lemma_insert_dotted(last_table(arr), rel, v);
                    lemma_in_last(arr, insert_dotted(last_table(arr), rel, v));
                } else {
                    lemma_insert_into_last(last_table(arr), rest, rel, v);
                    lemma_in_last(arr, insert_into_last(last_table(arr), rest, rel, v));
                }
            }
        },
        SValue::Table(inner) => {
            lemma_insert_into_last(inner, rest, rel, v);
        },
        _ => {},
    }
}

/// A parsed value is well keyed.
pub proof fn lemma_value(s: Seq<char>, p: int)
    ensures
        value(s, p).1 is Ok ==> well_keyed(value(s, p).1->Ok_0),
    decreases s.len() - p, 4int,
{
    if starts_at(s, p, "if"@) {
        lemma_conditional(s, p);
    } else {
        match peek(s, p) {
            Some(c) => {
                if c == '[' {
                    lemma_array(s, p);
                } else if c == '{' {
                    if is_block(s, p) {
                        lemma_block(s, p);
                    } else {
                        lemma_inline_table(s, p);
                    }
                }
            },
            None => {},
        }
    }
}

proof fn lemma_conditional(s: Seq<char>, p: int)
    ensures
        conditional(s, p).1 is Ok ==> well_keyed(conditional(s, p).1->Ok_0),
    decreases s.len() - p, 3int,
{
    if starts_at(s, p, "if"@) {
        let (q, r) = expr(s, skip_inline(s, p + 2));
        if r is Ok {
            let q1 = skip_inline(s, q);
            if p < q1 <= s.len() {
                lemma_block(s, q1);
                let (q2, tb) = block(s, q1);
                if tb is Ok {
                    let q3 = skip_inline(s, q2);
                    if starts_at(s, q3, "else"@) {
                        let q4 = skip_inline(s, q3 + 4);
                        if p < q4 <= s.len() {
                            lemma_block(s, q4);
                        }
                    }
                }
            }
        }
    }
}

proof fn lemma_block(s: Seq<char>, p: int)
    ensures
        block(s, p).1 is Ok ==> well_keyed(block(s, p).1->Ok_0),
    decreases s.len() - p, 2int,
{
    if peek(s, p) == Some('{') {
        let q = skip_ws_nl(s, p + 1);
        if p < q <= s.len() {
            lemma_value(s, q);
        }
    }
}

proof fn lemma_array(s: Seq<char>, p: int)
    ensures
        array(s, p).1 is Ok ==> well_keyed(array(s, p).1->Ok_0),
    decreases s.len() - p, 2int,
{
    if 0 <= p < s.len() {
        lemma_array_items(s, p + 1, Seq::empty());
    }
}

proof fn lemma_array_items(s: Seq<char>, p: int, acc: Seq<SValue>)
    requires
        forall|i: int| 0 <= i < acc.len() ==> well_keyed(#[trigger] acc[i]),
    ensures
        array_items(s, p, acc).1 is Ok ==> well_keyed(array_items(s, p, acc).1->Ok_0),
    decreases s.len() - p, 5int,
{
    let q = skip_around_comment(s, p);
    if peek(s, q) != Some(']') && p <= q <= s.len() {
        lemma_value(s, q);
        let (r, v) = value(s, q);
        if let Ok(x) = v {
            let acc2 = acc.push(x);
            assert forall|i: int| 0 <= i < acc2.len() implies well_keyed(#[trigger] acc2[i]) by {
                if i < acc.len() {
                    assert(acc2[i] == acc[i]);
                }
            }
            let r1 = skip_around_comment(s, r);
            if peek(s, r1) == Some(',') && p < r1 + 1 <= s.len() {
                lemma_array_items(s, r1 + 1, acc2);
            }
        }
    }
}

proof fn lemma_inline_table(s: Seq<char>, p: int)
    ensures
        inline_table(s, p).1 is Ok ==> well_keyed(inline_table(s, p).1->Ok_0),
    decreases s.len() - p, 2int,
{
    if 0 <= p < s.len() {
        let q = skip_ws_comments(s, p + 1);
        if peek(s, q) != Some('}') && p < q <= s.len() {
            lemma_table_entries(s, q, Seq::empty());
        }
    }
}

proof fn lemma_table_entries(s: Seq<char>, p: int, t: Seq<(Seq<char>, SValue)>)
    requires
        well_keyed_table(t),
    ensures
        table_entries(s, p, t).1 is Ok ==> well_keyed(table_entries(s, p, t).1->Ok_0),
    decreases s.len() - p, 5int,
{
    let q = skip_ws_comments(s, p);
    let (r, kr) = dotted_key(s, q);
    if let Ok(keys) = kr {
        let r1 = skip_ws_comments(s, r);
        if peek(s, r1) == Some('=') {
            let r2 = skip_ws_comments(s, r1 + 1);
            if p <= r2 <= s.len() {
                lemma_value(s, r2);
                let (r3, vr) = value(s, r2);
                if let Ok(v) = vr {
                    lemma_insert_dotted(t, keys, v);
                    if let Ok(t2) = insert_dotted(t, keys, v) {
                        let r4 = skip_ws_comments(s, r3);
                        if peek(s, r4) == Some(',') {
                            let r5 = skip_ws_comments(s, r4 + 1);
                            if peek(s, r5) != Some('}') && p < r5 <= s.len() {
                                lemma_table_entries(s, r5, t2);
                            }
                        }
                    }
                }
            }
        }
    }
}

proof fn lemma_header_step(s: Seq<char>, q: int, root: Seq<(Seq<char>, SValue)>)
    requires
        well_keyed_table(root),
    ensures
        header_step(s, q, root).1 is Ok ==> well_keyed_table(header_step(s, q, root).1->Ok_0.0),
{
    let arr = peek(s, q + 1) == Some('[');
    let q2 = if arr {
        q + 2
    } else {
        q + 1
    };
    let (r, kr) = dotted_key(s, skip_inline(s, q2));
    if let Ok(path) = kr {
        if arr {
            lemma_ensure_array(root, path);
            if let Ok(t1) = ensure_array(root, path) {
                lemma_push_array_entry(t1, path);
            }
        }
    }
}

proof fn lemma_entry_step(s: Seq<char>, q: int, root: Seq<(Seq<char>, SValue)>, current: Seq<Seq<char>>, is_array: bool)
    requires
        well_keyed_table(root),
    ensures
        entry_step(s, q, root, current, is_array).1 is Ok ==> well_keyed_table(
            entry_step(s, q, root, current, is_array).1->Ok_0,
        ),
{
    let (r, kr) = dotted_key(s, q);
    if let Ok(keys) = kr {
        let r1 = skip_inline(s, r);
        if peek(s, r1) == Some('=') {
            lemma_value(s, skip_inline(s, r1 + 1));
            let (r3, vr) = value(s, skip_inline(s, r1 + 1));
            if let Ok(v) = vr {
                if is_array && current.len() > 0 {
                    lemma_insert_into_last(root, current, keys, v);
                } else {
                    lemma_insert_dotted(root, current + keys, v);
                }
            }
        }
    }
}

proof fn lemma_document(s: Seq<char>, p: int, root: Seq<(Seq<char>, SValue)>, current: Seq<Seq<char>>, is_array: bool)
    requires
        well_keyed_table(root),
    ensures
        document(s, p, root, current, is_array).1 is Ok ==> well_keyed_table(
            document(s, p, root, current, is_array).1->Ok_0,
        ),
    decreases s.len() - p,
{
    let q = skip_ws_comments(s, p);
    match peek(s, q) {
        None => {},
        Some(c) => {
            if c == '[' {
                lemma_header_step(s, q, root);
                let (r, h) = header_step(s, q, root);
                if let Ok((root2, path, arr)) = h {
                    if p < r <= s.len() {
                        lemma_document(s, r, root2, path, arr);
                    }
                }
            } else {
                lemma_entry_step(s, q, root, current, is_array);
                let (r, e) = entry_step(s, q, root, current, is_array);
                if let Ok(root2) = e {
                    if p < r <= s.len() {
                        lemma_document(s, r, root2, current, is_array);
                    }
                }
            }
        },
    }
}

/// No table of a parsed document, the root or any inside it, holds a key
/// twice.
pub proof fn law_parsed_keys_are_distinct(s: Seq<char>)
    ensures
        parse_document(s).1 is Ok ==> well_keyed_table(parse_document(s).1->Ok_0),
{
    assert(well_keyed_table(Seq::empty()));
    lemma_document(s, 0, Seq::empty(), Seq::empty(), false);
}

} // verus!
