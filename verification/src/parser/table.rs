//! Building tables: dotted keys, arrays of tables, and inline tables.
//!
//! Every operation either succeeds with the table the model describes, or
//! fails with the model's message and leaves the table as it was.
use vstd::prelude::*;
use crate::ast::{
    entries_view, lemma_entries_view, lemma_entries_view_push, lemma_entries_view_update,
    lemma_values_view, lemma_values_view_push, lemma_values_view_update, values_view, SValue, Value,
};
use crate::parser::spec::{
    descend, ensure_array, ensure_array_value, has_key, in_last, insert_dotted, insert_dotted_value,
    inline_table, insert_into_last, insert_into_last_value, key_index, last_table,
    push_array_entry, push_array_entry_value, table_entries, table_get,
};
use crate::error::ParseError;
use crate::parser::cursor::{agrees_value, Parser};
use crate::text::{concat, copy_string, string_of, strings_view};

verus! {

/// The outcome of a table operation agrees with the model's `m`: on success
/// the table is the model's, on failure the message is the model's and the
/// table is unchanged.
pub open spec fn table_outcome(before: Seq<(String, Value)>, after: Seq<(String, Value)>, r: Result<(), String>, m: Result<Seq<(Seq<char>, SValue)>, Seq<char>>) -> bool {
    match m {
        Ok(t) => r is Ok && entries_view(after) == t,
        Err(msg) => r is Err && r->Err_0@ == msg && entries_view(after) == entries_view(before),
    }
}

proof fn lemma_key_index(t: Seq<(Seq<char>, SValue)>, k: Seq<char>, i: int)
    requires
        0 <= i < t.len(),
        t[i].0 == k,
        forall|j: int| 0 <= j < i ==> t[j].0 != k,
    ensures
        has_key(t, k),
        key_index(t, k) == i,
{
    let w = key_index(t, k);
    assert(0 <= w < t.len() && t[w].0 == k && forall|j: int| 0 <= j < w ==> t[j].0 != k);
    if w < i {
        assert(t[w].0 != k);
    } else if w > i {
        assert(t[i].0 != k);
    }
}

/// The index of the entry with key `key`, if any.
pub fn find_key(map: &Vec<(String, Value)>, key: &String) -> (r: Option<usize>)
    ensures
        r is None ==> !has_key(entries_view(map@), key@),
        r is Some ==> r->0 < map@.len() && has_key(entries_view(map@), key@) && key_index(
            entries_view(map@),
            key@,
        ) == r->0 && map@[r->0 as int].0@ == key@,
{
    proof {
        lemma_entries_view(map@);
    }
    let mut i: usize = 0;
    while i < map.len()
        invariant
            i <= map@.len(),
            entries_view(map@).len() == map@.len(),
            forall|j: int|
                0 <= j < map@.len() ==> #[trigger] entries_view(map@)[j] == (
                    map@[j].0@,
                    map@[j].1@,
                ),
            forall|j: int| 0 <= j < i ==> entries_view(map@)[j].0 != key@,
        decreases map@.len() - i,
    {
        if map[i].0 == *key {
            proof {
                lemma_key_index(entries_view(map@), key@, i as int);
            }
            return Some(i);
        }
        i = i + 1;
    }
    None
}

/// The value of the entry with key `key`, if any.
pub fn get_entry<'a>(map: &'a Vec<(String, Value)>, key: &str) -> (r: Option<&'a Value>)
    ensures
        match r {
            Some(v) => table_get(entries_view(map@), key@) == Some(v@),
            None => table_get(entries_view(map@), key@) is None,
        },
{
    reveal(table_get);
    let k = key.to_owned();
    match find_key(map, &k) {
        Some(i) => {
            proof {
                lemma_entries_view(map@);
            }
            Some(&map[i].1)
        },
        None => None,
    }
}

proof fn lemma_keys_skip(keys: Seq<String>, k: int)
    requires
        0 <= k < keys.len(),
    ensures
        strings_view(keys.skip(k)).len() > 0,
        strings_view(keys.skip(k))[0] == keys[k]@,
        strings_view(keys.skip(k)).drop_first() == strings_view(keys.skip(k + 1)),
        strings_view(keys.skip(k)).len() == keys.len() - k,
{
    assert(strings_view(keys.skip(k)).drop_first() =~= strings_view(keys.skip(k + 1)));
}

/// The outcome of a step on one value agrees with the model's `m`: on
/// success the value is the model's, on failure the message is the model's
/// and the value is unchanged.
pub open spec fn value_outcome(before: SValue, after: SValue, r: Result<(), String>, m: Result<SValue, Seq<char>>) -> bool {
    match m {
        Ok(v2) => r is Ok && after == v2,
        Err(e) => r is Err && r->Err_0@ == e && after == before,
    }
}

/// After a step on entry `i` of `map`, the table agrees with `descend`.
proof fn lemma_descend(before: Seq<(String, Value)>, after: Seq<(String, Value)>, i: int, key: Seq<char>, r: Result<(), String>, m: Result<SValue, Seq<char>>)
    requires
        0 <= i < before.len(),
        before[i].0@ == key,
        after == before.update(i, after[i]),
        after[i].0 == before[i].0,
        value_outcome(before[i].1@, after[i].1@, r, m),
    ensures
        table_outcome(before, after, r, descend(entries_view(before), i, key, m)),
{
    lemma_entries_view(before);
    lemma_entries_view(after);
    lemma_entries_view_update(before, i, after[i]);
    if m is Err {
        assert(entries_view(after) =~= entries_view(before));
    }
}

/// After a step on the last table of `arr`, the array agrees with `in_last`.
proof fn lemma_in_last(before: Seq<Value>, after: Seq<Value>, r: Result<(), String>, m: Result<Seq<(Seq<char>, SValue)>, Seq<char>>)
    requires
        before.len() > 0,
        after == before.update(before.len() - 1, after[before.len() - 1]),
        table_outcome_value(before.last(), after.last(), r, m),
    ensures
        values_view(before).len() == before.len(),
        values_view(before).last() == before.last()@,
        value_outcome(
            SValue::Array(values_view(before)),
            SValue::Array(values_view(after)),
            r,
            in_last(values_view(before), m),
        ),
{
    lemma_values_view(before);
    lemma_values_view(after);
    lemma_values_view_update(before, before.len() - 1, after[before.len() - 1]);
    if m is Err {
        assert(values_view(after) =~= values_view(before));
    }
}

/// A table step on a value holding a table.
pub open spec fn table_outcome_value(before: Value, after: Value, r: Result<(), String>, m: Result<Seq<(Seq<char>, SValue)>, Seq<char>>) -> bool {
    &&& before is Table
    &&& after is Table
    &&& table_outcome(before->Table_0@, after->Table_0@, r, m)
}

fn insert_leaf(map: &mut Vec<(String, Value)>, key: &String, val: Value) -> (r: Result<(), String>)
    ensures
        table_outcome(
            old(map)@,
            final(map)@,
            r,
            if has_key(entries_view(old(map)@), key@) {
                Err("duplicate key: "@ + key@)
            } else {
                Ok(entries_view(old(map)@).push((key@, val@)))
            },
        ),
{
    match find_key(map, key) {
        Some(_) => Err(concat("duplicate key: ", key.as_str())),
        None => {
            let e = (copy_string(key), val);
            proof {
                lemma_entries_view_push(map@, e);
            }
            map.push(e);
            Ok(())
        },
    }
}

fn insert_dotted_in_value(v: &mut Value, keys: &[String], k: usize, val: Value) -> (r: Result<(), String>)
    requires
        1 <= k <= keys@.len(),
    ensures
        value_outcome(
            old(v)@,
            final(v)@,
            r,
            insert_dotted_value(old(v)@, keys@[k - 1]@, strings_view(keys@.skip(k as int)), val@),
        ),
    decreases keys@.len() - k, 1int,
{
    match v {
        Value::Table(inner) => insert_dotted_at(inner, keys, k, val),
        _ => Err(concat(concat("key ", keys[k - 1].as_str()).as_str(), " is not a table")),
    }
}

fn insert_dotted_at(map: &mut Vec<(String, Value)>, keys: &[String], k: usize, val: Value) -> (r: Result<(), String>)
    requires
        k <= keys@.len(),
    ensures
        table_outcome(
            old(map)@,
            final(map)@,
            r,
            insert_dotted(entries_view(old(map)@), strings_view(keys@.skip(k as int)), val@),
        ),
    decreases keys@.len() - k, 0int,
{
    if k >= keys.len() {
        return Err(string_of("empty key"));
    }
    proof {
        lemma_keys_skip(keys@, k as int);
        lemma_entries_view(map@);
    }
    if k + 1 == keys.len() {
        return insert_leaf(map, &keys[k], val);
    }
    match find_key(map, &keys[k]) {
        None => {
            let mut inner: Vec<(String, Value)> = Vec::new();
            proof {
                assert(entries_view(inner@) =~= Seq::<(Seq<char>, SValue)>::empty());
            }
            match insert_dotted_at(&mut inner, keys, k + 1, val) {
                Ok(()) => {
                    let e = (copy_string(&keys[k]), Value::Table(inner));
                    proof {
                        lemma_entries_view_push(map@, e);
                    }
                    map.push(e);
                    Ok(())
                },
                Err(e) => Err(e),
            }
        },
        Some(i) => {
            let ghost before = map@;
            let r = insert_dotted_in_value(&mut map[i].1, keys, k + 1, val);
            proof {
                lemma_descend(
                    before,
                    map@,
                    i as int,
                    keys@[k as int]@,
                    r,
                    insert_dotted_value(
                        before[i as int].1@,
                        keys@[k as int]@,
                        strings_view(keys@.skip(k + 1)),
                        val@,
                    ),
                );
            }
            r
        },
    }
}

/// The value that a missing entry on the way to `path.skip(k - 1)` gets: an
/// empty array at the end of the path, else a new table holding the rest.
fn ensure_array_fresh(path: &[String], k: usize) -> (r: Result<Value, String>)
    requires
        1 <= k <= path@.len(),
    ensures
        k == path@.len() ==> r is Ok && r->Ok_0@ == SValue::Array(Seq::empty()),
        k < path@.len() ==> match ensure_array(Seq::empty(), strings_view(path@.skip(k as int))) {
            Ok(t) => r is Ok && r->Ok_0@ == SValue::Table(t),
            Err(e) => r is Err && r->Err_0@ == e,
        },
    decreases path@.len() - k, 5int,
{
    if k == path.len() {
        proof {
            assert(values_view(Seq::<Value>::empty()) =~= Seq::<SValue>::empty());
        }
        Ok(Value::Array(Vec::new()))
    } else {
        let mut inner: Vec<(String, Value)> = Vec::new();
        proof {
            assert(entries_view(inner@) =~= Seq::<(Seq<char>, SValue)>::empty());
        }
        match ensure_array_at(&mut inner, path, k) {
            Ok(()) => Ok(Value::Table(inner)),
            Err(e) => Err(e),
        }
    }
}

fn ensure_array_in_value(v: &mut Value, path: &[String], k: usize) -> (r: Result<(), String>)
    requires
        1 <= k < path@.len(),
    ensures
        value_outcome(
            old(v)@,
            final(v)@,
            r,
            ensure_array_value(old(v)@, path@[k - 1]@, strings_view(path@.skip(k as int))),
        ),
    decreases path@.len() - k, 5int,
{
    match v {
        Value::Table(inner) => ensure_array_at(inner, path, k),
        Value::Array(arr) => {
            let n = arr.len();
            let ghost arr0 = arr@;
            proof {
                lemma_values_view(arr0);
            }
            if n == 0 || !matches!(arr[n - 1], Value::Table(_)) {
                return Err(concat(path[k - 1].as_str(), " has no table entries"));
            }
            let ghost last0 = arr0[n - 1];
            let r = match &mut arr[n - 1] {
                Value::Table(lt) => ensure_array_at(lt, path, k),
                _ => Err(string_of("")),
            };
            proof {
                assert(arr@ =~= arr0.update(n - 1, arr@[n - 1]));
                lemma_in_last(
                    arr0,
                    arr@,
                    r,
                    ensure_array(last_table(values_view(arr0)), strings_view(path@.skip(k as int))),
                );
            }
            r
        },
        _ => Err(concat(path[k - 1].as_str(), " is not a table")),
    }
}

fn ensure_array_at(map: &mut Vec<(String, Value)>, path: &[String], k: usize) -> (r: Result<(), String>)
    requires
        k <= path@.len(),
    ensures
        table_outcome(
            old(map)@,
            final(map)@,
            r,
            ensure_array(entries_view(old(map)@), strings_view(path@.skip(k as int))),
        ),
    decreases path@.len() - k, 4int,
{
    if k >= path.len() {
        return Err(string_of("empty path"));
    }
    proof {
        lemma_keys_skip(path@, k as int);
    }
    match find_key(map, &path[k]) {
        None => ensure_array_missing(map, path, k),
        Some(i) => ensure_array_existing(map, i, path, k),
    }
}

/// `ensure_array` when the table has no entry for `path[k]`.
fn ensure_array_missing(map: &mut Vec<(String, Value)>, path: &[String], k: usize) -> (r: Result<(), String>)
    requires
        k < path@.len(),
        !has_key(entries_view(old(map)@), path@[k as int]@),
    ensures
        table_outcome(
            old(map)@,
            final(map)@,
            r,
            if k + 1 == path@.len() {
                Ok(entries_view(old(map)@).push((path@[k as int]@, SValue::Array(Seq::empty()))))
            } else {
                match ensure_array(Seq::empty(), strings_view(path@.skip(k + 1))) {
                    Ok(inner) => Ok(entries_view(old(map)@).push((path@[k as int]@, SValue::Table(inner)))),
                    Err(e) => Err(e),
                }
            },
        ),
    decreases path@.len() - k, 3int,
{
    assert(k < path.len());
    let r = ensure_array_fresh(path, k + 1);
    match r {
        Ok(v) => {
            let e = (copy_string(&path[k]), v);
            proof {
                lemma_entries_view_push(map@, e);
            }
            map.push(e);
            Ok(())
        },
        Err(e) => Err(e),
    }
}

/// `ensure_array` when entry `i` of the table has the key `path[k]`.
fn ensure_array_existing(map: &mut Vec<(String, Value)>, i: usize, path: &[String], k: usize) -> (r: Result<(), String>)
    requires
        k < path@.len(),
        i < old(map)@.len(),
        old(map)@[i as int].0@ == path@[k as int]@,
    ensures
        table_outcome(
            old(map)@,
            final(map)@,
            r,
            if k + 1 == path@.len() {
                if entries_view(old(map)@)[i as int].1 is Array {
                    Ok(entries_view(old(map)@))
                } else {
                    Err(path@[k as int]@ + " is not an array"@)
                }
            } else {
                descend(
                    entries_view(old(map)@),
                    i as int,
                    path@[k as int]@,
                    ensure_array_value(
                        entries_view(old(map)@)[i as int].1,
                        path@[k as int]@,
                        strings_view(path@.skip(k + 1)),
                    ),
                )
            },
        ),
    decreases path@.len() - k, 3int,
{
    proof {
        lemma_entries_view(map@);
    }
    assert(k < path.len());
    if k + 1 == path.len() {
        if let Value::Array(_) = &map[i].1 {
            Ok(())
        } else {
            Err(concat(path[k].as_str(), " is not an array"))
        }
    } else {
        let ghost before = map@;
        let r = ensure_array_in_value(&mut map[i].1, path, k + 1);
        proof {
            lemma_descend(
                before,
                map@,
                i as int,
                path@[k as int]@,
                r,
                ensure_array_value(before[i as int].1@, path@[k as int]@, strings_view(path@.skip(k + 1))),
            );
        }
        r
    }
}

fn push_array_entry_in_value(v: &mut Value, path: &[String], k: usize) -> (r: Result<(), String>)
    requires
        1 <= k <= path@.len(),
    ensures
        value_outcome(
            old(v)@,
            final(v)@,
            r,
            push_array_entry_value(old(v)@, path@[k - 1]@, strings_view(path@.skip(k as int))),
        ),
    decreases path@.len() - k, 5int,
{
    if k == path.len() {
        proof {
            assert(strings_view(path@.skip(k as int)).len() == 0);
        }
        match v {
            Value::Array(arr) => {
                let ghost arr0 = arr@;
                let item = Value::Table(Vec::new());
                proof {
                    assert(entries_view(Seq::<(String, Value)>::empty()) =~= Seq::<
                        (Seq<char>, SValue),
                    >::empty());
                    lemma_values_view_push(arr0, item);
                }
                arr.push(item);
                Ok(())
            },
            _ => Err(concat(path[k - 1].as_str(), " is not an array")),
        }
    } else {
        proof {
            lemma_keys_skip(path@, k as int);
        }
        match v {
            Value::Table(inner) => push_array_entry_at(inner, path, k),
            Value::Array(arr) => {
                let n = arr.len();
                let ghost arr0 = arr@;
                proof {
                    lemma_values_view(arr0);
                }
                if n == 0 || !matches!(arr[n - 1], Value::Table(_)) {
                    return Err(concat(path[k - 1].as_str(), " has no table entries"));
                }
                let r = match &mut arr[n - 1] {
                    Value::Table(lt) => push_array_entry_at(lt, path, k),
                    _ => Err(string_of("")),
                };
                proof {
                    assert(arr@ =~= arr0.update(n - 1, arr@[n - 1]));
                    lemma_in_last(
                        arr0,
                        arr@,
                        r,
                        push_array_entry(
                            last_table(values_view(arr0)),
                            strings_view(path@.skip(k as int)),
                        ),
                    );
                }
                r
            },
            _ => Err(concat(path[k - 1].as_str(), " is not a table")),
        }
    }
}

fn push_array_entry_at(map: &mut Vec<(String, Value)>, path: &[String], k: usize) -> (r: Result<(), String>)
    requires
        k <= path@.len(),
    ensures
        table_outcome(
            old(map)@,
            final(map)@,
            r,
            push_array_entry(entries_view(old(map)@), strings_view(path@.skip(k as int))),
        ),
    decreases path@.len() - k, 4int,
{
    if k >= path.len() {
        return Err(string_of("empty path"));
    }
    proof {
        lemma_keys_skip(path@, k as int);
    }
    match find_key(map, &path[k]) {
        None => {
            if k + 1 == path.len() {
                Err(concat(path[k].as_str(), " is not an array"))
            } else {
                Err(concat(path[k].as_str(), " is not a table"))
            }
        },
        Some(i) => push_array_entry_existing(map, i, path, k),
    }
}

/// `push_array_entry` when entry `i` of the table has the key `path[k]`.
fn push_array_entry_existing(map: &mut Vec<(String, Value)>, i: usize, path: &[String], k: usize) -> (r: Result<(), String>)
    requires
        k < path@.len(),
        i < old(map)@.len(),
        old(map)@[i as int].0@ == path@[k as int]@,
    ensures
        table_outcome(
            old(map)@,
            final(map)@,
            r,
            descend(
                entries_view(old(map)@),
                i as int,
                path@[k as int]@,
                push_array_entry_value(
                    entries_view(old(map)@)[i as int].1,
                    path@[k as int]@,
                    strings_view(path@.skip(k + 1)),
                ),
            ),
        ),
    decreases path@.len() - k, 3int,
{
    proof {
        lemma_entries_view(map@);
    }
    assert(k < path.len());
    let ghost before = map@;
    let r = push_array_entry_in_value(&mut map[i].1, path, k + 1);
    proof {
        lemma_descend(
            before,
            map@,
            i as int,
            path@[k as int]@,
            r,
            push_array_entry_value(before[i as int].1@, path@[k as int]@, strings_view(path@.skip(k + 1))),
        );
    }
    r
}

fn insert_into_last_in_value(v: &mut Value, array_path: &[String], k: usize, rel: &[String], val: Value) -> (r: Result<(), String>)
    requires
        1 <= k <= array_path@.len(),
    ensures
        value_outcome(
            old(v)@,
            final(v)@,
            r,
            insert_into_last_value(
                old(v)@,
                array_path@[k - 1]@,
                strings_view(array_path@.skip(k as int)),
                strings_view(rel@),
                val@,
            ),
        ),
    decreases array_path@.len() - k, 5int,
{
    proof {
        assert(rel@.skip(0) =~= rel@);
        if k == array_path@.len() {
            assert(strings_view(array_path@.skip(k as int)).len() == 0);
        } else {
            lemma_keys_skip(array_path@, k as int);
        }
    }
    match v {
        Value::Array(arr) => {
            let n = arr.len();
            let ghost arr0 = arr@;
            proof {
                lemma_values_view(arr0);
            }
            if n == 0 || !matches!(arr[n - 1], Value::Table(_)) {
                return Err(string_of("array has no table entry"));
            }
            let r = match &mut arr[n - 1] {
                Value::Table(lt) => {
                    if k == array_path.len() {
                        insert_dotted_at(lt, rel, 0, val)
                    } else {
                        insert_into_last_at(lt, array_path, k, rel, val)
                    }
                },
                _ => Err(string_of("")),
            };
            proof {
                assert(arr@ =~= arr0.update(n - 1, arr@[n - 1]));
                lemma_in_last(
                    arr0,
                    arr@,
                    r,
                    if k == array_path@.len() {
                        insert_dotted(last_table(values_view(arr0)), strings_view(rel@), val@)
                    } else {
                        insert_into_last(
                            last_table(values_view(arr0)),
                            strings_view(array_path@.skip(k as int)),
                            strings_view(rel@),
                            val@,
                        )
                    },
                );
            }
            r
        },
        Value::Table(inner) => insert_into_last_at(inner, array_path, k, rel, val),
        _ => Err(concat(array_path[k - 1].as_str(), " not found")),
    }
}

fn insert_into_last_at(map: &mut Vec<(String, Value)>, array_path: &[String], k: usize, rel: &[String], val: Value) -> (r: Result<(), String>)
    requires
        k <= array_path@.len(),
    ensures
        table_outcome(
            old(map)@,
            final(map)@,
            r,
            insert_into_last(
                entries_view(old(map)@),
                strings_view(array_path@.skip(k as int)),
                strings_view(rel@),
                val@,
            ),
        ),
    decreases array_path@.len() - k, 4int,
{
    if k >= array_path.len() {
        proof {
            assert(strings_view(array_path@.skip(k as int)).len() == 0);
            assert(rel@.skip(0) =~= rel@);
        }
        return insert_dotted_at(map, rel, 0, val);
    }
    proof {
        lemma_keys_skip(array_path@, k as int);
    }
    match find_key(map, &array_path[k]) {
        None => Err(concat(array_path[k].as_str(), " not found")),
        Some(i) => insert_into_last_existing(map, i, array_path, k, rel, val),
    }
}

/// `insert_into_last` when entry `i` of the table has the key `array_path[k]`.
fn insert_into_last_existing(map: &mut Vec<(String, Value)>, i: usize, array_path: &[String], k: usize, rel: &[String], val: Value) -> (r: Result<(), String>)
    requires
        k < array_path@.len(),
        i < old(map)@.len(),
        old(map)@[i as int].0@ == array_path@[k as int]@,
    ensures
        table_outcome(
            old(map)@,
            final(map)@,
            r,
            descend(
                entries_view(old(map)@),
                i as int,
                array_path@[k as int]@,
                insert_into_last_value(
                    entries_view(old(map)@)[i as int].1,
                    array_path@[k as int]@,
                    strings_view(array_path@.skip(k + 1)),
                    strings_view(rel@),
                    val@,
                ),
            ),
        ),
    decreases array_path@.len() - k, 3int,
{
    proof {
        lemma_entries_view(map@);
    }
    assert(k < array_path.len());
    let ghost before = map@;
    let r = insert_into_last_in_value(&mut map[i].1, array_path, k + 1, rel, val);
    proof {
        lemma_descend(
            before,
            map@,
            i as int,
            array_path@[k as int]@,
            r,
            insert_into_last_value(
                before[i as int].1@,
                array_path@[k as int]@,
                strings_view(array_path@.skip(k + 1)),
                strings_view(rel@),
                val@,
            ),
        );
    }
    r
}

impl Parser {
    /// Reads an inline table whose `{` is at the cursor: `key = value`
    /// entries separated by commas, with an optional trailing comma.
    pub fn parse_inline_table(&mut self) -> (r: Result<Value, ParseError>)
        requires
            old(self).wf(),
        ensures
            final(self).moved_from(old(self)),
            final(self).index == inline_table(old(self).input@, old(self).index as int).0,
            agrees_value(
                r,
                final(self).input@,
                final(self).index as int,
                inline_table(old(self).input@, old(self).index as int).1,
            ),
        decreases old(self).input@.len() - old(self).index, 2int,
    {
        let ghost s = self.input@;
        let ghost p0 = self.index as int;
        if self.index >= self.input.len() {
            return Err(self.err("expected a key"));
        }
        self.advance();
        let mut map: Vec<(String, Value)> = Vec::new();
        proof {
            assert(entries_view(map@) =~= Seq::<(Seq<char>, SValue)>::empty());
        }
        self.skip_ws_and_comments();
        if self.peek() == Some('}') {
            self.advance();
            return Ok(Value::Table(map));
        }
        loop
            invariant
                self.wf(),
                self.input@ == s,
                s == old(self).input@,
                p0 == old(self).index,
                p0 < self.index,
                table_entries(s, self.index as int, entries_view(map@)) == inline_table(s, p0),
            decreases s.len() - self.index,
        {
            self.skip_ws_and_comments();
            let keys = self.parse_key()?;
            self.skip_ws_and_comments();
            if self.peek() != Some('=') {
                return Err(self.err("expected '=' in inline table"));
            }
            self.advance();
            self.skip_ws_and_comments();
            let val = self.parse_value()?;
            match self.insert_dotted(&mut map, keys.as_slice(), val) {
                Ok(()) => {},
                Err(e) => {
                    return Err(self.err_string(e));
                },
            }
            self.skip_ws_and_comments();
            match self.peek() {
                Some(c) => {
                    if c == ',' {
                        self.advance();
                        self.skip_ws_and_comments();
                        if self.peek() == Some('}') {
                            self.advance();
                            return Ok(Value::Table(map));
                        }
                    } else if c == '}' {
                        self.advance();
                        return Ok(Value::Table(map));
                    } else {
                        return Err(self.err("expected ',' or '}' in inline table"));
                    }
                },
                None => {
                    return Err(self.err("expected ',' or '}' in inline table"));
                },
            }
        }
    }

    /// Inserts `val` at the dotted path `keys` of `map`, creating tables on
    /// the way. Fails on an empty path, a duplicate key, or a key on the way
    /// that holds something other than a table.
    pub fn insert_dotted(&mut self, map: &mut Vec<(String, Value)>, keys: &[String], val: Value) -> (r: Result<(), String>)
        ensures
            *final(self) == *old(self),
            table_outcome(
                old(map)@,
                final(map)@,
                r,
                insert_dotted(entries_view(old(map)@), strings_view(keys@), val@),
            ),
    {
        proof {
            assert(keys@.skip(0) =~= keys@);
        }
        insert_dotted_at(map, keys, 0, val)
    }

    /// Makes sure that an array exists at `path` of `map`, creating tables
    /// on the way and descending into the last table of arrays.
    pub fn ensure_array(&mut self, map: &mut Vec<(String, Value)>, path: &[String]) -> (r: Result<(), String>)
        ensures
            *final(self) == *old(self),
            table_outcome(
                old(map)@,
                final(map)@,
                r,
                ensure_array(entries_view(old(map)@), strings_view(path@)),
            ),
    {
        proof {
            assert(path@.skip(0) =~= path@);
        }
        ensure_array_at(map, path, 0)
    }

    /// Appends an empty table to the array at `path` of `map`.
    pub fn push_array_entry(&mut self, map: &mut Vec<(String, Value)>, path: &[String]) -> (r: Result<(), String>)
        ensures
            *final(self) == *old(self),
            table_outcome(
                old(map)@,
                final(map)@,
                r,
                push_array_entry(entries_view(old(map)@), strings_view(path@)),
            ),
    {
        proof {
            assert(path@.skip(0) =~= path@);
        }
        push_array_entry_at(map, path, 0)
    }

    /// Inserts `val` at the dotted path `rel_keys` inside the last table of
    /// the array at `array_path` of `root`.
    pub fn insert_into_last_array_entry(&mut self, root: &mut Vec<(String, Value)>, array_path: &[String], rel_keys: &[String], val: Value) -> (r: Result<(), String>)
        ensures
            *final(self) == *old(self),
            table_outcome(
                old(root)@,
                final(root)@,
                r,
                insert_into_last(
                    entries_view(old(root)@),
                    strings_view(array_path@),
                    strings_view(rel_keys@),
                    val@,
                ),
            ),
    {
        proof {
            assert(array_path@.skip(0) =~= array_path@);
        }
        insert_into_last_at(root, array_path, 0, rel_keys, val)
    }
}

} // verus!
