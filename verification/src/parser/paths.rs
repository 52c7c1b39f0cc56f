//! What the table operations of the parser do, stated over the paths of a
//! table: where a value lands, when an operation fails, and that every path
//! that parts from the operation's path keeps its value.
use vstd::prelude::*;
use crate::ast::SValue;
use crate::parser::spec::{
    ensure_array, ensure_array_value, has_key, insert_dotted, insert_dotted_value, key_index,
    last_is_table, last_table, push_array_entry, push_array_entry_value,
};

verus! {

/// The value at the path `q` of `t`: each key is looked up in a table;
/// with `arrays`, a key may also be looked up in the last table of an array
/// of tables met on the way.
pub open spec fn lookup_path(t: Seq<(Seq<char>, SValue)>, q: Seq<Seq<char>>, arrays: bool) -> Option<SValue>
    decreases q.len(), 0int,
{
    if q.len() == 0 || !has_key(t, q[0]) {
        None
    } else {
        value_path(t[key_index(t, q[0])].1, q.drop_first(), arrays)
    }
}

/// The value at the path `rest` below the value `x` (`x` itself when the
/// path is empty).
pub open spec fn value_path(x: SValue, rest: Seq<Seq<char>>, arrays: bool) -> Option<SValue>
    decreases rest.len(), 1int,
{
    if rest.len() == 0 {
        Some(x)
    } else {
        match x {
            SValue::Table(inner) => lookup_path(inner, rest, arrays),
            SValue::Array(arr) => if arrays && last_is_table(arr) {
                lookup_path(last_table(arr), rest, arrays)
            } else {
                None
            },
            _ => None,
        }
    }
}

/// The paths `q` and `p` part: at some position both have a key, and the
/// keys differ (neither path is a prefix of the other).
pub open spec fn diverge(q: Seq<Seq<char>>, p: Seq<Seq<char>>) -> bool
    decreases q.len(),
{
    q.len() > 0 && p.len() > 0 && (q[0] != p[0] || diverge(q.drop_first(), p.drop_first()))
}

/// Some proper prefix of `keys` leads, through tables, to a value that is
/// not a table.
pub open spec fn blocked(t: Seq<(Seq<char>, SValue)>, keys: Seq<Seq<char>>) -> bool
    decreases keys.len(),
{
    keys.len() >= 2 && has_key(t, keys[0]) && match t[key_index(t, keys[0])].1 {
        SValue::Table(inner) => blocked(inner, keys.drop_first()),
        _ => true,
    }
}

/// The first entry with key `k` is at `i`.
proof fn lemma_first_key(t: Seq<(Seq<char>, SValue)>, k: Seq<char>, i: int)
    requires
        0 <= i < t.len(),
        t[i].0 == k,
        forall|j: int| 0 <= j < i ==> t[j].0 != k,
    ensures
        has_key(t, k),
        key_index(t, k) == i,
{
    let w = key_index(t, k);
    assert(0 <= w < t.len() && t[w].0 == k && forall|j: int| 0 <= j < w ==> t[j].0 != k);
    if w < i {
        assert(t[w].0 != k);
    } else if w > i {
        assert(t[i].0 != k);
    }
}

proof fn lemma_scan(t: Seq<(Seq<char>, SValue)>, k: Seq<char>, i: int) -> (w: int)
    requires
        0 <= i <= t.len(),
        forall|j: int| 0 <= j < i ==> t[j].0 != k,
        exists|j: int| i <= j < t.len() && t[j].0 == k,
    ensures
        0 <= w < t.len(),
        t[w].0 == k,
        forall|j: int| 0 <= j < w ==> t[j].0 != k,
    decreases t.len() - i,
{
    if t[i].0 == k {
        i
    } else {
        lemma_scan(t, k, i + 1)
    }
}

/// A key that the table holds is found at its first entry.
pub proof fn lemma_key_found(t: Seq<(Seq<char>, SValue)>, k: Seq<char>)
    requires
        has_key(t, k),
    ensures
        0 <= key_index(t, k) < t.len(),
        t[key_index(t, k)].0 == k,
        forall|j: int| 0 <= j < key_index(t, k) ==> t[j].0 != k,
{
    let w = lemma_scan(t, k, 0);
    lemma_first_key(t, k, w);
}

/// A table whose first keys are those of `t`, and whose further keys
/// differ from `c`, finds `c` where `t` does.
proof fn lemma_same_keys(t: Seq<(Seq<char>, SValue)>, t2: Seq<(Seq<char>, SValue)>, c: Seq<char>)
    requires
        t2.len() >= t.len(),
        forall|j: int| 0 <= j < t.len() ==> #[trigger] t2[j].0 == t[j].0,
        forall|j: int| t.len() <= j < t2.len() ==> #[trigger] t2[j].0 != c,
    ensures
        has_key(t2, c) == has_key(t, c),
        has_key(t, c) ==> key_index(t2, c) == key_index(t, c),
{
    if has_key(t, c) {
        lemma_key_found(t, c);
        let w = key_index(t, c);
        assert(t2[w].0 == t[w].0);
        assert forall|j: int| 0 <= j < w implies t2[j].0 != c by {
            assert(t2[j].0 == t[j].0);
        }
        lemma_first_key(t2, c, w);
    } else if has_key(t2, c) {
        let j = choose|j: int| 0 <= j < t2.len() && t2[j].0 == c;
        if j < t.len() {
            assert(t2[j].0 == t[j].0);
        }
    }
}

/// Setting the value under `k` (in place, or appended when `k` is new):
/// a path that starts with another key keeps its value, and a path that
/// starts with `k` continues in the new value.
proof fn lemma_frame_top(t: Seq<(Seq<char>, SValue)>, t2: Seq<(Seq<char>, SValue)>, k: Seq<char>, x: SValue, q: Seq<Seq<char>>, arrays: bool)
    requires
        (has_key(t, k) && t2 == t.update(key_index(t, k), (k, x))) || (!has_key(t, k) && t2 == t.push((k, x))),
        q.len() > 0,
    ensures
        q[0] != k ==> lookup_path(t2, q, arrays) == lookup_path(t, q, arrays),
        q[0] == k ==> lookup_path(t2, q, arrays) == value_path(x, q.drop_first(), arrays),
{
    let c = q[0];
    if has_key(t, k) {
        lemma_key_found(t, k);
        let i = key_index(t, k);
        assert forall|j: int| 0 <= j < t.len() implies #[trigger] t2[j].0 == t[j].0 by {}
        lemma_same_keys(t, t2, c);
        if c == k {
            assert(t2[i] == (k, x));
        } else if has_key(t, c) {
            lemma_key_found(t, c);
            assert(key_index(t, c) != i);
            assert(t2[key_index(t, c)] == t[key_index(t, c)]);
        }
    } else {
        assert forall|j: int| 0 <= j < t.len() implies #[trigger] t2[j].0 == t[j].0 by {
            assert(t2[j] == t[j]);
        }
        if c == k {
            assert forall|j: int| 0 <= j < t.len() implies t2[j].0 != k by {
                assert(t2[j] == t[j]);
                assert(!(0 <= j < t.len() && t[j].0 == k));
            }
            lemma_first_key(t2, k, t.len() as int);
        } else {
            assert forall|j: int| t.len() <= j < t2.len() implies #[trigger] t2[j].0 != c by {}
            lemma_same_keys(t, t2, c);
            if has_key(t, c) {
                lemma_key_found(t, c);
                assert(t2[key_index(t, c)] == t[key_index(t, c)]);
            }
        }
    }
}

/// The value of the first entry with the first key of `q`, followed further.
proof fn lemma_lookup_at(t: Seq<(Seq<char>, SValue)>, q: Seq<Seq<char>>, arrays: bool)
    requires
        q.len() > 0,
        has_key(t, q[0]),
    ensures
        lookup_path(t, q, arrays) == value_path(t[key_index(t, q[0])].1, q.drop_first(), arrays),
{
}

/// Inserting into an empty table never fails on a non-empty path.
proof fn lemma_insert_into_empty(keys: Seq<Seq<char>>, v: SValue)
    requires
        keys.len() > 0,
    ensures
        insert_dotted(Seq::empty(), keys, v) is Ok,
    decreases keys.len(),
{
    if keys.len() > 1 {
        lemma_insert_into_empty(keys.drop_first(), v);
    }
}

/// The outcome of `insert_dotted` as the law below states it.
pub open spec fn insert_outcome_holds(t: Seq<(Seq<char>, SValue)>, keys: Seq<Seq<char>>, v: SValue) -> bool {
    &&& (insert_dotted(t, keys, v) is Err <==> (keys.len() == 0 || blocked(t, keys) || lookup_path(t, keys, false) is Some))
    &&& (insert_dotted(t, keys, v) is Ok ==> lookup_path(insert_dotted(t, keys, v)->Ok_0, keys, false) == Some(v))
}

proof fn lemma_insert_single(t: Seq<(Seq<char>, SValue)>, keys: Seq<Seq<char>>, v: SValue)
    requires
        keys.len() == 1,
    ensures
        insert_outcome_holds(t, keys, v),
{
    let k = keys[0];
    assert(!blocked(t, keys));
    if has_key(t, k) {
        lemma_key_found(t, k);
        assert(keys.drop_first().len() == 0);
        assert(lookup_path(t, keys, false) == Some(t[key_index(t, k)].1));
        assert(insert_dotted(t, keys, v) is Err);
    } else {
        assert(lookup_path(t, keys, false) is None);
        assert(insert_dotted(t, keys, v) == Ok::<Seq<(Seq<char>, SValue)>, Seq<char>>(t.push((k, v))));
        lemma_frame_top(t, t.push((k, v)), k, v, keys, false);
        assert(value_path(v, keys.drop_first(), false) == Some(v));
    }
}

proof fn lemma_insert_new(t: Seq<(Seq<char>, SValue)>, keys: Seq<Seq<char>>, v: SValue)
    requires
        keys.len() > 1,
        !has_key(t, keys[0]),
        insert_outcome_holds(Seq::empty(), keys.drop_first(), v),
    ensures
        insert_outcome_holds(t, keys, v),
{
    let k = keys[0];
    let rest = keys.drop_first();
    lemma_insert_into_empty(rest, v);
    let inner = insert_dotted(Seq::empty(), rest, v)->Ok_0;
    assert(insert_dotted(t, keys, v) == Ok::<Seq<(Seq<char>, SValue)>, Seq<char>>(t.push((k, SValue::Table(inner)))));
    assert(!blocked(t, keys));
    assert(lookup_path(t, keys, false) is None);
    lemma_frame_top(t, t.push((k, SValue::Table(inner))), k, SValue::Table(inner), keys, false);
    assert(value_path(SValue::Table(inner), rest, false) == lookup_path(inner, rest, false));
}

proof fn lemma_insert_existing(t: Seq<(Seq<char>, SValue)>, keys: Seq<Seq<char>>, v: SValue)
    requires
        keys.len() > 1,
        has_key(t, keys[0]),
        t[key_index(t, keys[0])].1 is Table ==> insert_outcome_holds(
            t[key_index(t, keys[0])].1->Table_0,
            keys.drop_first(),
            v,
        ),
    ensures
        insert_outcome_holds(t, keys, v),
{
    let k = keys[0];
    let rest = keys.drop_first();
    lemma_key_found(t, k);
    let i = key_index(t, k);
    lemma_lookup_at(t, keys, false);
    match t[i].1 {
        SValue::Table(inner) => {
            assert(blocked(t, keys) == blocked(inner, rest));
            assert(lookup_path(t, keys, false) == lookup_path(inner, rest, false));
            assert(insert_dotted_value(t[i].1, k, rest, v) == match insert_dotted(inner, rest, v) {
                Ok(x) => Ok::<SValue, Seq<char>>(SValue::Table(x)),
                Err(e) => Err(e),
            });
            if let Ok(inner2) = insert_dotted(inner, rest, v) {
                assert(insert_dotted(t, keys, v) == Ok::<Seq<(Seq<char>, SValue)>, Seq<char>>(t.update(i, (k, SValue::Table(inner2)))));
                lemma_frame_top(t, t.update(i, (k, SValue::Table(inner2))), k, SValue::Table(inner2), keys, false);
            } else {
                assert(insert_dotted(t, keys, v) is Err);
            }
        },
        _ => {
            assert(blocked(t, keys));
            assert(insert_dotted(t, keys, v) is Err);
        },
    }
}

/// `insert_dotted` fails exactly when the path is empty, when a proper
/// prefix of it leads to something other than a table (`blocked`), or when
/// the path already holds a value; on success the value is at the path.
pub proof fn law_insert_dotted_outcome(t: Seq<(Seq<char>, SValue)>, keys: Seq<Seq<char>>, v: SValue)
    ensures
        insert_dotted(t, keys, v) is Err <==> (keys.len() == 0 || blocked(t, keys) || lookup_path(t, keys, false) is Some),
        insert_dotted(t, keys, v) is Ok ==> lookup_path(insert_dotted(t, keys, v)->Ok_0, keys, false) == Some(v),
    decreases keys.len(),
{
    if keys.len() == 0 {
        assert(insert_dotted(t, keys, v) is Err);
    } else if keys.len() == 1 {
        lemma_insert_single(t, keys, v);
    } else if !has_key(t, keys[0]) {
        law_insert_dotted_outcome(Seq::empty(), keys.drop_first(), v);
        lemma_insert_new(t, keys, v);
    } else {
        lemma_key_found(t, keys[0]);
        if let SValue::Table(inner) = t[key_index(t, keys[0])].1 {
            law_insert_dotted_outcome(inner, keys.drop_first(), v);
        }
        lemma_insert_existing(t, keys, v);
    }
}

/// The frame of `insert_dotted` for the path `q`, as the law below states it.
pub open spec fn insert_frame_holds(t: Seq<(Seq<char>, SValue)>, keys: Seq<Seq<char>>, v: SValue, q: Seq<Seq<char>>) -> bool {
    insert_dotted(t, keys, v) is Ok && diverge(q, keys) ==> lookup_path(insert_dotted(t, keys, v)->Ok_0, q, false) == lookup_path(t, q, false)
}

proof fn lemma_frame_single(t: Seq<(Seq<char>, SValue)>, keys: Seq<Seq<char>>, v: SValue, q: Seq<Seq<char>>)
    requires
        keys.len() == 1,
    ensures
        insert_frame_holds(t, keys, v, q),
{
    let k = keys[0];
    if insert_dotted(t, keys, v) is Ok && diverge(q, keys) {
        assert(!has_key(t, k));
        assert(q[0] != k) by {
            if q[0] == k {
                assert(!diverge(q.drop_first(), keys.drop_first()));
            }
        }
        lemma_frame_top(t, t.push((k, v)), k, v, q, false);
    }
}

proof fn lemma_frame_new(t: Seq<(Seq<char>, SValue)>, keys: Seq<Seq<char>>, v: SValue, q: Seq<Seq<char>>)
    requires
        keys.len() > 1,
        !has_key(t, keys[0]),
        q.len() > 0 ==> insert_frame_holds(Seq::empty(), keys.drop_first(), v, q.drop_first()),
    ensures
        insert_frame_holds(t, keys, v, q),
{
    let k = keys[0];
    let rest = keys.drop_first();
    if diverge(q, keys) {
        lemma_insert_into_empty(rest, v);
        let inner = insert_dotted(Seq::empty(), rest, v)->Ok_0;
        assert(insert_dotted(t, keys, v) == Ok::<Seq<(Seq<char>, SValue)>, Seq<char>>(t.push((k, SValue::Table(inner)))));
        lemma_frame_top(t, t.push((k, SValue::Table(inner))), k, SValue::Table(inner), q, false);
        if q[0] == k {
            assert(diverge(q.drop_first(), rest));
            assert(lookup_path(Seq::<(Seq<char>, SValue)>::empty(), q.drop_first(), false) is None);
            assert(lookup_path(t, q, false) is None);
        }
    }
}

#[verifier::spinoff_prover]
proof fn lemma_frame_existing(t: Seq<(Seq<char>, SValue)>, keys: Seq<Seq<char>>, v: SValue, q: Seq<Seq<char>>)
    requires
        keys.len() > 1,
        has_key(t, keys[0]),
        q.len() > 0 && t[key_index(t, keys[0])].1 is Table ==> insert_frame_holds(
            t[key_index(t, keys[0])].1->Table_0,
            keys.drop_first(),
            v,
            q.drop_first(),
        ),
    ensures
        insert_frame_holds(t, keys, v, q),
{
    let k = keys[0];
    let rest = keys.drop_first();
    lemma_key_found(t, k);
    let i = key_index(t, k);
    if diverge(q, keys) {
        match t[i].1 {
            SValue::Table(inner) => {
                assert(insert_dotted_value(t[i].1, k, rest, v) == match insert_dotted(inner, rest, v) {
                    Ok(x) => Ok::<SValue, Seq<char>>(SValue::Table(x)),
                    Err(e) => Err(e),
                });
                if let Ok(inner2) = insert_dotted(inner, rest, v) {
                    assert(insert_dotted(t, keys, v) == Ok::<Seq<(Seq<char>, SValue)>, Seq<char>>(t.update(i, (k, SValue::Table(inner2)))));
                    lemma_frame_top(t, t.update(i, (k, SValue::Table(inner2))), k, SValue::Table(inner2), q, false);
                    if q[0] == k {
                        assert(diverge(q.drop_first(), rest));
                        lemma_lookup_at(t, q, false);
                        assert(insert_frame_holds(inner, rest, v, q.drop_first()));
                    }
                } else {
                    assert(insert_dotted(t, keys, v) is Err);
                }
            },
            _ => {
                assert(insert_dotted_value(t[i].1, k, rest, v) is Err);
                assert(insert_dotted(t, keys, v) is Err);
            },
        }
    }
}

proof fn lemma_frame(t: Seq<(Seq<char>, SValue)>, keys: Seq<Seq<char>>, v: SValue, q: Seq<Seq<char>>)
    ensures
        insert_frame_holds(t, keys, v, q),
    decreases keys.len(),
{
    if keys.len() == 1 {
        lemma_frame_single(t, keys, v, q);
    } else if keys.len() > 1 {
        if !has_key(t, keys[0]) {
            if q.len() > 0 {
                lemma_frame(Seq::empty(), keys.drop_first(), v, q.drop_first());
            }
            lemma_frame_new(t, keys, v, q);
        } else {
            let x = t[key_index(t, keys[0])].1;
            if q.len() > 0 && x is Table {
                lemma_frame(x->Table_0, keys.drop_first(), v, q.drop_first());
            }
            lemma_frame_existing(t, keys, v, q);
        }
    }
}

/// `insert_dotted` changes no path that parts from the path it inserts at.
pub proof fn law_insert_dotted_frame(t: Seq<(Seq<char>, SValue)>, keys: Seq<Seq<char>>, v: SValue, q: Seq<Seq<char>>)
    requires
        insert_dotted(t, keys, v) is Ok,
        diverge(q, keys),
    ensures
        lookup_path(insert_dotted(t, keys, v)->Ok_0, q, false) == lookup_path(t, q, false),
{
    lemma_frame(t, keys, v, q);
}

/// The value holds an array.
pub open spec fn is_array_at(r: Option<SValue>) -> bool {
    r matches Some(SValue::Array(_))
}

/// What `ensure_array` does, for the path `path` and a path `q`: on success
/// the path leads to an array; when it already did, nothing changes; and a
/// path that parts from it keeps its value.
pub open spec fn ensure_holds(t: Seq<(Seq<char>, SValue)>, path: Seq<Seq<char>>, q: Seq<Seq<char>>) -> bool {
    &&& (ensure_array(t, path) is Ok ==> is_array_at(lookup_path(ensure_array(t, path)->Ok_0, path, true)))
    &&& (is_array_at(lookup_path(t, path, true)) ==> ensure_array(t, path) == Ok::<Seq<(Seq<char>, SValue)>, Seq<char>>(t))
    &&& (ensure_array(t, path) is Ok && diverge(q, path) ==> lookup_path(ensure_array(t, path)->Ok_0, q, true) == lookup_path(t, q, true))
}

/// The same for `ensure_array_value` on the value `x` and the rest `rest`
/// of the path (not empty), with `r` a path below `x`.
pub open spec fn ensure_value_holds(x: SValue, key: Seq<char>, rest: Seq<Seq<char>>, r: Seq<Seq<char>>) -> bool {
    &&& (ensure_array_value(x, key, rest) is Ok ==> is_array_at(value_path(ensure_array_value(x, key, rest)->Ok_0, rest, true)))
    &&& (is_array_at(value_path(x, rest, true)) ==> ensure_array_value(x, key, rest) == Ok::<SValue, Seq<char>>(x))
    &&& (ensure_array_value(x, key, rest) is Ok && diverge(r, rest) ==> value_path(ensure_array_value(x, key, rest)->Ok_0, r, true) == value_path(x, r, true))
}

proof fn lemma_ensure_single(t: Seq<(Seq<char>, SValue)>, path: Seq<Seq<char>>, q: Seq<Seq<char>>)
    requires
        path.len() == 1,
    ensures
        ensure_holds(t, path, q),
{
    let k = path[0];
    assert(path.drop_first().len() == 0);
    if !has_key(t, k) {
        let x = SValue::Array(Seq::empty());
        assert(ensure_array(t, path) == Ok::<Seq<(Seq<char>, SValue)>, Seq<char>>(t.push((k, x))));
        lemma_frame_top(t, t.push((k, x)), k, x, path, true);
        assert(lookup_path(t, path, true) is None);
        if q.len() > 0 {
            lemma_frame_top(t, t.push((k, x)), k, x, q, true);
            if q[0] == k {
                assert(!diverge(q.drop_first(), path.drop_first()));
            }
        }
    } else {
        lemma_key_found(t, k);
        lemma_lookup_at(t, path, true);
    }
}

proof fn lemma_ensure_new(t: Seq<(Seq<char>, SValue)>, path: Seq<Seq<char>>, q: Seq<Seq<char>>)
    requires
        path.len() > 1,
        !has_key(t, path[0]),
        ensure_holds(Seq::empty(), path.drop_first(), if q.len() > 0 {
            q.drop_first()
        } else {
            q
        }),
    ensures
        ensure_holds(t, path, q),
{
    let k = path[0];
    let rest = path.drop_first();
    assert(lookup_path(t, path, true) is None);
    if let Ok(inner) = ensure_array(Seq::empty(), rest) {
        let x = SValue::Table(inner);
        assert(ensure_array(t, path) == Ok::<Seq<(Seq<char>, SValue)>, Seq<char>>(t.push((k, x))));
        lemma_frame_top(t, t.push((k, x)), k, x, path, true);
        if q.len() > 0 {
            lemma_frame_top(t, t.push((k, x)), k, x, q, true);
            if q[0] == k && diverge(q, path) {
                assert(diverge(q.drop_first(), rest));
                assert(lookup_path(Seq::<(Seq<char>, SValue)>::empty(), q.drop_first(), true) is None);
                assert(lookup_path(t, q, true) is None);
            }
        }
    } else {
        assert(ensure_array(t, path) is Err);
    }
}

#[verifier::spinoff_prover]
proof fn lemma_ensure_existing(t: Seq<(Seq<char>, SValue)>, path: Seq<Seq<char>>, q: Seq<Seq<char>>)
    requires
        path.len() > 1,
        has_key(t, path[0]),
        ensure_value_holds(t[key_index(t, path[0])].1, path[0], path.drop_first(), if q.len() > 0 {
            q.drop_first()
        } else {
            q
        }),
    ensures
        ensure_holds(t, path, q),
{
    let k = path[0];
    let rest = path.drop_first();
    lemma_key_found(t, k);
    let i = key_index(t, k);
    let x = t[i].1;
    lemma_lookup_at(t, path, true);
    assert(ensure_array(t, path) == match ensure_array_value(x, k, rest) {
        Ok(x2) => Ok::<Seq<(Seq<char>, SValue)>, Seq<char>>(t.update(i, (k, x2))),
        Err(e) => Err(e),
    });
    if let Ok(x2) = ensure_array_value(x, k, rest) {
        lemma_frame_top(t, t.update(i, (k, x2)), k, x2, path, true);
        if is_array_at(lookup_path(t, path, true)) {
            assert(t.update(i, (k, x)) =~= t);
        }
        if q.len() > 0 {
            lemma_frame_top(t, t.update(i, (k, x2)), k, x2, q, true);
            if q[0] == k && diverge(q, path) {
                assert(diverge(q.drop_first(), rest));
                lemma_lookup_at(t, q, true);
            }
        }
    }
}

#[verifier::spinoff_prover]
proof fn lemma_ensure_value_step(x: SValue, key: Seq<char>, rest: Seq<Seq<char>>, r: Seq<Seq<char>>)
    requires
        rest.len() > 0,
        x is Table ==> ensure_holds(x->Table_0, rest, r),
        x is Array && last_is_table(x->Array_0) ==> ensure_holds(last_table(x->Array_0), rest, r),
    ensures
        ensure_value_holds(x, key, rest, r),
{
    match x {
        SValue::Table(inner) => {
            assert(ensure_array_value(x, key, rest) == match ensure_array(inner, rest) {
                Ok(t2) => Ok::<SValue, Seq<char>>(SValue::Table(t2)),
                Err(e) => Err(e),
            });
            if r.len() > 0 {
                assert(value_path(x, r, true) == lookup_path(inner, r, true));
            }
        },
        SValue::Array(arr) => {
            if last_is_table(arr) {
                let n = arr.len() - 1;
                assert(ensure_array_value(x, key, rest) == match ensure_array(last_table(arr), rest) {
                    Ok(t3) => Ok::<SValue, Seq<char>>(SValue::Array(arr.update(n, SValue::Table(t3)))),
                    Err(e) => Err(e),
                });
                if let Ok(t3) = ensure_array(last_table(arr), rest) {
                    let arr2 = arr.update(n, SValue::Table(t3));
                    assert(last_is_table(arr2) && last_table(arr2) == t3);
                    if r.len() > 0 {
                        assert(value_path(SValue::Array(arr2), r, true) == lookup_path(t3, r, true));
                    }
                    assert(value_path(SValue::Array(arr2), rest, true) == lookup_path(t3, rest, true));
                    if t3 == last_table(arr) {
                        assert(arr2 =~= arr);
                    }
                }
            } else {
                assert(ensure_array_value(x, key, rest) is Err);
            }
        },
        _ => {
            assert(ensure_array_value(x, key, rest) is Err);
        },
    }
}

proof fn lemma_ensure(t: Seq<(Seq<char>, SValue)>, path: Seq<Seq<char>>, q: Seq<Seq<char>>)
    ensures
        ensure_holds(t, path, q),
    decreases path.len(), 0int,
{
    let q1 = if q.len() > 0 {
        q.drop_first()
    } else {
        q
    };
    if path.len() == 0 {
        assert(ensure_array(t, path) is Err);
        assert(lookup_path(t, path, true) is None);
    } else if path.len() == 1 {
        lemma_ensure_single(t, path, q);
    } else if !has_key(t, path[0]) {
        lemma_ensure(Seq::empty(), path.drop_first(), q1);
        lemma_ensure_new(t, path, q);
    } else {
        lemma_ensure_value(t[key_index(t, path[0])].1, path[0], path.drop_first(), q1);
        lemma_ensure_existing(t, path, q);
    }
}

proof fn lemma_ensure_value(x: SValue, key: Seq<char>, rest: Seq<Seq<char>>, r: Seq<Seq<char>>)
    requires
        rest.len() > 0,
    ensures
        ensure_value_holds(x, key, rest, r),
    decreases rest.len(), 1int,
{
    match x {
        SValue::Table(inner) => {
            lemma_ensure(inner, rest, r);
        },
        SValue::Array(arr) => {
            if last_is_table(arr) {
                lemma_ensure(last_table(arr), rest, r);
            }
        },
        _ => {},
    }
    lemma_ensure_value_step(x, key, rest, r);
}

/// The value holds a table.
pub open spec fn is_table_at(r: Option<SValue>) -> bool {
    r matches Some(SValue::Table(_))
}

/// What `ensure_array` creates: where no array was at the path, an empty
/// one; and where a proper prefix of the path led nowhere, a table.
pub open spec fn ensure_creates(t: Seq<(Seq<char>, SValue)>, path: Seq<Seq<char>>) -> bool {
    ensure_array(t, path) is Ok ==> {
        &&& (!is_array_at(lookup_path(t, path, true)) ==> lookup_path(ensure_array(t, path)->Ok_0, path, true)
            == Some(SValue::Array(Seq::empty())))
        &&& forall|j: int|
            1 <= j < path.len() && lookup_path(t, #[trigger] path.take(j), true) is None ==> is_table_at(
                lookup_path(ensure_array(t, path)->Ok_0, path.take(j), true),
            )
    }
}

/// The same for `ensure_array_value` on the value `x` and the rest `rest`
/// of the path (not empty).
pub open spec fn ensure_value_creates(x: SValue, key: Seq<char>, rest: Seq<Seq<char>>) -> bool {
    ensure_array_value(x, key, rest) is Ok ==> {
        &&& (!is_array_at(value_path(x, rest, true)) ==> value_path(ensure_array_value(x, key, rest)->Ok_0, rest, true)
            == Some(SValue::Array(Seq::empty())))
        &&& forall|j: int|
            1 <= j < rest.len() && value_path(x, #[trigger] rest.take(j), true) is None ==> is_table_at(
                value_path(ensure_array_value(x, key, rest)->Ok_0, rest.take(j), true),
            )
    }
}

proof fn lemma_creates_single(t: Seq<(Seq<char>, SValue)>, path: Seq<Seq<char>>)
    requires
        path.len() == 1,
    ensures
        ensure_creates(t, path),
{
    let k = path[0];
    assert(path.drop_first().len() == 0);
    if !has_key(t, k) {
        let x = SValue::Array(Seq::empty());
        assert(ensure_array(t, path) == Ok::<Seq<(Seq<char>, SValue)>, Seq<char>>(t.push((k, x))));
        lemma_frame_top(t, t.push((k, x)), k, x, path, true);
    } else {
        lemma_key_found(t, k);
        lemma_lookup_at(t, path, true);
    }
}

#[verifier::spinoff_prover]
proof fn lemma_creates_new(t: Seq<(Seq<char>, SValue)>, path: Seq<Seq<char>>)
    requires
        path.len() > 1,
        !has_key(t, path[0]),
        ensure_creates(Seq::empty(), path.drop_first()),
    ensures
        ensure_creates(t, path),
{
    let k = path[0];
    let rest = path.drop_first();
    if let Ok(inner) = ensure_array(Seq::empty(), rest) {
        let x = SValue::Table(inner);
        let t2 = t.push((k, x));
        assert(ensure_array(t, path) == Ok::<Seq<(Seq<char>, SValue)>, Seq<char>>(t2));
        lemma_frame_top(t, t2, k, x, path, true);
        assert(lookup_path(Seq::<(Seq<char>, SValue)>::empty(), rest, true) is None);
        assert forall|j: int| 1 <= j < path.len() && lookup_path(t, #[trigger] path.take(j), true) is None
            implies is_table_at(lookup_path(t2, path.take(j), true)) by {
            let q = path.take(j);
            lemma_frame_top(t, t2, k, x, q, true);
            if j > 1 {
                assert(q.drop_first() =~= rest.take(j - 1));
                assert(lookup_path(Seq::<(Seq<char>, SValue)>::empty(), rest.take(j - 1), true) is None);
            } else {
                assert(q.drop_first().len() == 0);
            }
        }
    } else {
        assert(ensure_array(t, path) is Err);
    }
}

#[verifier::spinoff_prover]
proof fn lemma_creates_existing(t: Seq<(Seq<char>, SValue)>, path: Seq<Seq<char>>)
    requires
        path.len() > 1,
        has_key(t, path[0]),
        ensure_value_creates(t[key_index(t, path[0])].1, path[0], path.drop_first()),
    ensures
        ensure_creates(t, path),
{
    let k = path[0];
    let rest = path.drop_first();
    lemma_key_found(t, k);
    let i = key_index(t, k);
    let x = t[i].1;
    lemma_lookup_at(t, path, true);
    assert(ensure_array(t, path) == match ensure_array_value(x, k, rest) {
        Ok(x2) => Ok::<Seq<(Seq<char>, SValue)>, Seq<char>>(t.update(i, (k, x2))),
        Err(e) => Err(e),
    });
    if let Ok(x2) = ensure_array_value(x, k, rest) {
        let t2 = t.update(i, (k, x2));
        lemma_frame_top(t, t2, k, x2, path, true);
        assert forall|j: int| 1 <= j < path.len() && lookup_path(t, #[trigger] path.take(j), true) is None
            implies is_table_at(lookup_path(t2, path.take(j), true)) by {
            let q = path.take(j);
            lemma_frame_top(t, t2, k, x2, q, true);
            lemma_lookup_at(t, q, true);
            if j > 1 {
                assert(q.drop_first() =~= rest.take(j - 1));
            } else {
                assert(q.drop_first().len() == 0);
            }
        }
    }
}

#[verifier::spinoff_prover]
proof fn lemma_creates_value_step(x: SValue, key: Seq<char>, rest: Seq<Seq<char>>)
    requires
        rest.len() > 0,
        x is Table ==> ensure_creates(x->Table_0, rest),
        x is Array && last_is_table(x->Array_0) ==> ensure_creates(last_table(x->Array_0), rest),
    ensures
        ensure_value_creates(x, key, rest),
{
    match x {
        SValue::Table(inner) => {
            assert(ensure_array_value(x, key, rest) == match ensure_array(inner, rest) {
                Ok(t2) => Ok::<SValue, Seq<char>>(SValue::Table(t2)),
                Err(e) => Err(e),
            });
            if let Ok(t2) = ensure_array(inner, rest) {
                assert forall|j: int| 1 <= j < rest.len() && value_path(x, #[trigger] rest.take(j), true) is None
                    implies is_table_at(value_path(SValue::Table(t2), rest.take(j), true)) by {
                    assert(rest.take(j).len() > 0);
                }
            }
        },
        SValue::Array(arr) => {
            if last_is_table(arr) {
                let n = arr.len() - 1;
                assert(ensure_array_value(x, key, rest) == match ensure_array(last_table(arr), rest) {
                    Ok(t3) => Ok::<SValue, Seq<char>>(SValue::Array(arr.update(n, SValue::Table(t3)))),
                    Err(e) => Err(e),
                });
                if let Ok(t3) = ensure_array(last_table(arr), rest) {
                    let arr2 = arr.update(n, SValue::Table(t3));
                    assert(last_is_table(arr2) && last_table(arr2) == t3);
                    assert(value_path(SValue::Array(arr2), rest, true) == lookup_path(t3, rest, true));
                    assert forall|j: int| 1 <= j < rest.len() && value_path(x, #[trigger] rest.take(j), true) is None
                        implies is_table_at(value_path(SValue::Array(arr2), rest.take(j), true)) by {
                        assert(rest.take(j).len() > 0);
                    }
                }
            } else {
                assert(ensure_array_value(x, key, rest) is Err);
            }
        },
        _ => {
            assert(ensure_array_value(x, key, rest) is Err);
        },
    }
}

proof fn lemma_creates(t: Seq<(Seq<char>, SValue)>, path: Seq<Seq<char>>)
    ensures
        ensure_creates(t, path),
    decreases path.len(), 0int,
{
    if path.len() == 0 {
        assert(ensure_array(t, path) is Err);
    } else if path.len() == 1 {
        lemma_creates_single(t, path);
    } else if !has_key(t, path[0]) {
        lemma_creates(Seq::empty(), path.drop_first());
        lemma_creates_new(t, path);
    } else {
        lemma_creates_value(t[key_index(t, path[0])].1, path[0], path.drop_first());
        lemma_creates_existing(t, path);
    }
}

proof fn lemma_creates_value(x: SValue, key: Seq<char>, rest: Seq<Seq<char>>)
    requires
        rest.len() > 0,
    ensures
        ensure_value_creates(x, key, rest),
    decreases rest.len(), 1int,
{
    match x {
        SValue::Table(inner) => {
            lemma_creates(inner, rest);
        },
        SValue::Array(arr) => {
            if last_is_table(arr) {
                lemma_creates(last_table(arr), rest);
            }
        },
        _ => {},
    }
    lemma_creates_value_step(x, key, rest);
}

/// `ensure_array` leaves an array at its path, changes nothing when one
/// was there already, creates an empty array when none was, creates only
/// tables along the way where a prefix of the path led nowhere, and
/// changes no path that parts from its path.
pub proof fn law_ensure_array(t: Seq<(Seq<char>, SValue)>, path: Seq<Seq<char>>, q: Seq<Seq<char>>)
    ensures
        ensure_array(t, path) is Ok && !is_array_at(lookup_path(t, path, true)) ==> lookup_path(
            ensure_array(t, path)->Ok_0,
            path,
            true,
        ) == Some(SValue::Array(Seq::empty())),
        ensure_array(t, path) is Ok ==> forall|j: int|
            1 <= j < path.len() && lookup_path(t, #[trigger] path.take(j), true) is None ==> is_table_at(
                lookup_path(ensure_array(t, path)->Ok_0, path.take(j), true),
            ),
        ensure_array(t, path) is Ok ==> is_array_at(lookup_path(ensure_array(t, path)->Ok_0, path, true)),
        is_array_at(lookup_path(t, path, true)) ==> ensure_array(t, path) == Ok::<Seq<(Seq<char>, SValue)>, Seq<char>>(t),
        ensure_array(t, path) is Ok && diverge(q, path) ==> lookup_path(ensure_array(t, path)->Ok_0, q, true) == lookup_path(t, q, true),
{
    lemma_ensure(t, path, q);
    lemma_creates(t, path);
}

/// `before` holds an array and `after` holds that array with one empty
/// table appended.
pub open spec fn one_table_appended(before: Option<SValue>, after: Option<SValue>) -> bool {
    &&& before matches Some(SValue::Array(_))
    &&& after == Some(SValue::Array(before->Some_0->Array_0.push(SValue::Table(Seq::empty()))))
}

/// What `push_array_entry` does, for the path `path` and a path `q`: on
/// success the array at the path gains one empty table at its end, and a
/// path that parts from it keeps its value.
pub open spec fn push_holds(t: Seq<(Seq<char>, SValue)>, path: Seq<Seq<char>>, q: Seq<Seq<char>>) -> bool {
    &&& (push_array_entry(t, path) is Ok ==> one_table_appended(
        lookup_path(t, path, true),
        lookup_path(push_array_entry(t, path)->Ok_0, path, true),
    ))
    &&& (push_array_entry(t, path) is Ok && diverge(q, path) ==> lookup_path(push_array_entry(t, path)->Ok_0, q, true) == lookup_path(t, q, true))
}

/// The same for `push_array_entry_value` on the value `x` and the rest
/// `rest` of the path, with `r` a path below `x`.
pub open spec fn push_value_holds(x: SValue, key: Seq<char>, rest: Seq<Seq<char>>, r: Seq<Seq<char>>) -> bool {
    &&& (push_array_entry_value(x, key, rest) is Ok ==> one_table_appended(
        value_path(x, rest, true),
        value_path(push_array_entry_value(x, key, rest)->Ok_0, rest, true),
    ))
    &&& (push_array_entry_value(x, key, rest) is Ok && diverge(r, rest) ==> value_path(push_array_entry_value(x, key, rest)->Ok_0, r, true) == value_path(x, r, true))
}

#[verifier::spinoff_prover]
proof fn lemma_push_existing(t: Seq<(Seq<char>, SValue)>, path: Seq<Seq<char>>, q: Seq<Seq<char>>)
    requires
        path.len() > 0,
        has_key(t, path[0]),
        push_value_holds(t[key_index(t, path[0])].1, path[0], path.drop_first(), if q.len() > 0 {
            q.drop_first()
        } else {
            q
        }),
    ensures
        push_holds(t, path, q),
{
    let k = path[0];
    let rest = path.drop_first();
    lemma_key_found(t, k);
    let i = key_index(t, k);
    let x = t[i].1;
    lemma_lookup_at(t, path, true);
    assert(push_array_entry(t, path) == match push_array_entry_value(x, k, rest) {
        Ok(x2) => Ok::<Seq<(Seq<char>, SValue)>, Seq<char>>(t.update(i, (k, x2))),
        Err(e) => Err(e),
    });
    if let Ok(x2) = push_array_entry_value(x, k, rest) {
        lemma_frame_top(t, t.update(i, (k, x2)), k, x2, path, true);
        if q.len() > 0 {
            lemma_frame_top(t, t.update(i, (k, x2)), k, x2, q, true);
            if q[0] == k && diverge(q, path) {
                assert(diverge(q.drop_first(), rest));
                lemma_lookup_at(t, q, true);
            }
        }
    }
}

#[verifier::spinoff_prover]
proof fn lemma_push_value_step(x: SValue, key: Seq<char>, rest: Seq<Seq<char>>, r: Seq<Seq<char>>)
    requires
        rest.len() > 0 && x is Table ==> push_holds(x->Table_0, rest, r),
        rest.len() > 0 && x is Array && last_is_table(x->Array_0) ==> push_holds(last_table(x->Array_0), rest, r),
    ensures
        push_value_holds(x, key, rest, r),
{
    if rest.len() == 0 {
        assert(!diverge(r, rest));
        if let SValue::Array(arr) = x {
            assert(push_array_entry_value(x, key, rest) == Ok::<SValue, Seq<char>>(SValue::Array(arr.push(SValue::Table(Seq::empty())))));
        } else {
            assert(push_array_entry_value(x, key, rest) is Err);
        }
    } else {
        match x {
            SValue::Table(inner) => {
                assert(push_array_entry_value(x, key, rest) == match push_array_entry(inner, rest) {
                    Ok(t2) => Ok::<SValue, Seq<char>>(SValue::Table(t2)),
                    Err(e) => Err(e),
                });
                if r.len() > 0 {
                    assert(value_path(x, r, true) == lookup_path(inner, r, true));
                }
            },
            SValue::Array(arr) => {
                if last_is_table(arr) {
                    let n = arr.len() - 1;
                    assert(push_array_entry_value(x, key, rest) == match push_array_entry(last_table(arr), rest) {
                        Ok(t3) => Ok::<SValue, Seq<char>>(SValue::Array(arr.update(n, SValue::Table(t3)))),
                        Err(e) => Err(e),
                    });
                    if let Ok(t3) = push_array_entry(last_table(arr), rest) {
                        let arr2 = arr.update(n, SValue::Table(t3));
                        assert(last_is_table(arr2) && last_table(arr2) == t3);
                        if r.len() > 0 {
                            assert(value_path(SValue::Array(arr2), r, true) == lookup_path(t3, r, true));
                        }
                        assert(value_path(SValue::Array(arr2), rest, true) == lookup_path(t3, rest, true));
                    }
                } else {
                    assert(push_array_entry_value(x, key, rest) is Err);
                }
            },
            _ => {
                assert(push_array_entry_value(x, key, rest) is Err);
            },
        }
    }
}

proof fn lemma_push(t: Seq<(Seq<char>, SValue)>, path: Seq<Seq<char>>, q: Seq<Seq<char>>)
    ensures
        push_holds(t, path, q),
    decreases path.len(), 0int,
{
    if path.len() == 0 || !has_key(t, path[0]) {
        assert(push_array_entry(t, path) is Err);
    } else {
        let q1 = if q.len() > 0 {
            q.drop_first()
        } else {
            q
        };
        lemma_push_value(t[key_index(t, path[0])].1, path[0], path.drop_first(), q1);
        lemma_push_existing(t, path, q);
    }
}

proof fn lemma_push_value(x: SValue, key: Seq<char>, rest: Seq<Seq<char>>, r: Seq<Seq<char>>)
    ensures
        push_value_holds(x, key, rest, r),
    decreases rest.len(), 1int,
{
    if rest.len() > 0 {
        match x {
            SValue::Table(inner) => {
                lemma_push(inner, rest, r);
            },
            SValue::Array(arr) => {
                if last_is_table(arr) {
                    lemma_push(last_table(arr), rest, r);
                }
            },
            _ => {},
        }
    }
    lemma_push_value_step(x, key, rest, r);
}

/// `push_array_entry` appends exactly one empty table to the array at its
/// path and changes no path that parts from its path.
pub proof fn law_push_array_entry(t: Seq<(Seq<char>, SValue)>, path: Seq<Seq<char>>, q: Seq<Seq<char>>)
    ensures
        push_array_entry(t, path) is Ok ==> one_table_appended(
            lookup_path(t, path, true),
            lookup_path(push_array_entry(t, path)->Ok_0, path, true),
        ),
        push_array_entry(t, path) is Ok && diverge(q, path) ==> lookup_path(push_array_entry(t, path)->Ok_0, q, true) == lookup_path(t, q, true),
{
    lemma_push(t, path, q);
}

} // verus!
