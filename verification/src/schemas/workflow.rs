//! The workflow document: `name`, `description` and `version` strings, an
//! optional `author`, and a `[workflow]` table with an optional `env`
//! table and the `steps` table, whose steps run in the order of their
//! `order` field.
use vstd::prelude::*;
use vstd::utf8::encode_utf8;
use crate::ast::{entries_view, lemma_entries_view, lemma_values_view, values_view, Expr, SExpr, SValue, Value};
use crate::engine::eval::{lemma_with_prefix, with_prefix};
use crate::engine::exec::all_strings;

use crate::parser::cursor::reports;
use crate::parser::document::parse;
use crate::parser::spec::{parse_document, table_get};
use crate::schemas::SchemaError;
use crate::parser::table::get_entry;
use crate::text::{concat3, copy_string, string_of, strings_view};

verus! {

/// The arguments of a step: a list, or lists chosen by a condition.
#[derive(Debug)]
pub enum Arguments {
    List(Vec<String>),
    Conditional { condition: Expr, then_args: Vec<String>, else_args: Option<Vec<String>> },
}

/// The model of [`Arguments`].
pub enum SArguments {
    List(Seq<Seq<char>>),
    Conditional(SExpr, Seq<Seq<char>>, Option<Seq<Seq<char>>>),
}

impl Arguments {
    pub open spec fn view(&self) -> SArguments {
        match self {
            Arguments::List(l) => SArguments::List(strings_view(l@)),
            Arguments::Conditional { condition, then_args, else_args } => SArguments::Conditional(
                condition@,
                strings_view(then_args@),
                match else_args {
                    Some(e) => Some(strings_view(e@)),
                    None => None,
                },
            ),
        }
    }
}

/// The text of each item, all of which are strings.
pub open spec fn item_texts(items: Seq<SValue>) -> Seq<Seq<char>> {
    items.map_values(|v: SValue| v->Str_0)
}

/// The string under `k`, which must be present.
pub open spec fn required_string(t: Seq<(Seq<char>, SValue)>, k: Seq<char>) -> Result<Seq<char>, Seq<char>> {
    match table_get(t, k) {
        Some(SValue::Str(s)) => Ok(s),
        Some(_) => Err("expected '"@ + k + "' to be a string"@),
        None => Err("missing required key '"@ + k + "'"@),
    }
}

/// The string under `k`, if there is one.
pub open spec fn optional_string(t: Seq<(Seq<char>, SValue)>, k: Seq<char>) -> Option<Seq<char>> {
    match table_get(t, k) {
        Some(SValue::Str(s)) => Some(s),
        _ => None,
    }
}

/// The table under `k`, which must be present.
pub open spec fn required_table(t: Seq<(Seq<char>, SValue)>, k: Seq<char>) -> Result<Seq<(Seq<char>, SValue)>, Seq<char>> {
    match table_get(t, k) {
        Some(SValue::Table(x)) => Ok(x),
        Some(_) => Err("expected '"@ + k + "' to be a table"@),
        None => Err("missing required table '"@ + k + "'"@),
    }
}

/// The strings of an array of strings.
pub open spec fn array_strings(v: SValue) -> Result<Seq<Seq<char>>, Seq<char>> {
    match v {
        SValue::Array(items) => if all_strings(items) {
            Ok(item_texts(items))
        } else {
            Err("array must contain only strings"@)
        },
        _ => Err("expected array"@),
    }
}

/// The `arguments` of a step table: an array of strings, or a conditional
/// whose branches are arrays of strings.
pub open spec fn arguments_model(t: Seq<(Seq<char>, SValue)>) -> Result<SArguments, Seq<char>> {
    match table_get(t, "arguments"@) {
        None => Err("missing 'arguments'"@),
        Some(SValue::Array(items)) => if all_strings(items) {
            Ok(SArguments::List(item_texts(items)))
        } else {
            Err("arguments must be strings"@)
        },
        Some(SValue::Conditional(c, th, el)) => match array_strings(*th) {
            Err(m) => Err(m),
            Ok(ta) => match el {
                None => Ok(SArguments::Conditional(c, ta, None)),
                Some(e) => match array_strings(*e) {
                    Err(m) => Err(m),
                    Ok(ea) => Ok(SArguments::Conditional(c, ta, Some(ea))),
                },
            },
        },
        Some(_) => Err("invalid arguments type"@),
    }
}

/// The strings among `items`, when all of them are strings.
fn strings_in(items: &Vec<Value>) -> (r: Option<Vec<String>>)
    ensures
        match r {
            Some(w) => all_strings(values_view(items@)) && strings_view(w@) == item_texts(values_view(items@)),
            None => !all_strings(values_view(items@)),
        },
{
    proof {
        lemma_values_view(items@);
    }
    let mut out: Vec<String> = Vec::new();
    let mut i: usize = 0;
    while i < items.len()
        invariant
            i <= items@.len(),
            values_view(items@).len() == items@.len(),
            forall|j: int| 0 <= j < items@.len() ==> #[trigger] values_view(items@)[j] == items@[j]@,
            all_strings(values_view(items@).take(i as int)),
            strings_view(out@) == item_texts(values_view(items@).take(i as int)),
        decreases items@.len() - i,
    {
        match &items[i] {
            Value::String(s) => {
                let w = copy_string(s);
                let ghost before = out@;
                out.push(w);
                proof {
                    let vs = values_view(items@);
                    assert(vs.take(i + 1) =~= vs.take(i as int).push(vs[i as int]));
                    assert(strings_view(out@) =~= strings_view(before).push(w@));
                    assert(item_texts(vs.take(i + 1)) =~= item_texts(vs.take(i as int)).push(w@));
                }
            },
            _ => {
                proof {
                    assert(!(values_view(items@)[i as int] is Str));
                }
                return None;
            },
        }
        i = i + 1;
    }
    proof {
        assert(values_view(items@).take(i as int) =~= values_view(items@));
    }
    Some(out)
}

fn get_string(map: &Vec<(String, Value)>, key: &str) -> (r: Result<String, String>)
    ensures
        match (r, required_string(entries_view(map@), key@)) {
            (Ok(x), Ok(y)) => x@ == y,
            (Err(x), Err(y)) => x@ == y,
            _ => false,
        },
{
    match get_entry(map, key) {
        Some(Value::String(s)) => Ok(copy_string(s)),
        Some(_) => Err(concat3("expected '", key, "' to be a string")),
        None => Err(concat3("missing required key '", key, "'")),
    }
}

fn get_optional_string(map: &Vec<(String, Value)>, key: &str) -> (r: Option<String>)
    ensures
        match r {
            Some(x) => optional_string(entries_view(map@), key@) == Some(x@),
            None => optional_string(entries_view(map@), key@) is None,
        },
{
    match get_entry(map, key) {
        Some(Value::String(s)) => Some(copy_string(s)),
        _ => None,
    }
}

fn get_table<'a>(map: &'a Vec<(String, Value)>, key: &str) -> (r: Result<&'a Vec<(String, Value)>, String>)
    ensures
        match (r, required_table(entries_view(map@), key@)) {
            (Ok(x), Ok(y)) => entries_view(x@) == y,
            (Err(x), Err(y)) => x@ == y,
            _ => false,
        },
{
    match get_entry(map, key) {
        Some(Value::Table(t)) => Ok(t),
        Some(_) => Err(concat3("expected '", key, "' to be a table")),
        None => Err(concat3("missing required table '", key, "'")),
    }
}

fn extract_array(value: &Value) -> (r: Result<Vec<String>, String>)
    ensures
        match (r, array_strings(value@)) {
            (Ok(x), Ok(y)) => strings_view(x@) == y,
            (Err(x), Err(y)) => x@ == y,
            _ => false,
        },
{
    match value {
        Value::Array(arr) => match strings_in(arr) {
            Some(w) => Ok(w),
            None => Err(string_of("array must contain only strings")),
        },
        _ => Err(string_of("expected array")),
    }
}

fn parse_arguments(step: &Vec<(String, Value)>) -> (r: Result<Arguments, String>)
    ensures
        match (r, arguments_model(entries_view(step@))) {
            (Ok(x), Ok(y)) => x@ == y,
            (Err(x), Err(y)) => x@ == y,
            _ => false,
        },
{
    let value = match get_entry(step, "arguments") {
        Some(v) => v,
        None => {
            return Err(string_of("missing 'arguments'"));
        },
    };
    match value {
        Value::Array(arr) => match strings_in(arr) {
            Some(w) => Ok(Arguments::List(w)),
            None => Err(string_of("arguments must be strings")),
        },
        Value::Conditional { condition, then_branch, else_branch } => {
            let then_args = extract_array(then_branch)?;
            let else_args = match else_branch {
                Some(v) => Some(extract_array(v)?),
                None => None,
            };
            Ok(Arguments::Conditional { condition: condition.duplicate(), then_args, else_args })
        },
        _ => Err(string_of("invalid arguments type")),
    }
}

/// The `env` table of a workflow.
#[derive(Debug)]
pub struct EnvConfig {
    pub shell: Option<String>,
    pub cwd: Option<String>,
    /// The environment variables that commands run with, in the order of
    /// the document.
    pub vars: Vec<(String, String)>,
}

/// The model of an [`EnvConfig`]: shell, working directory, variables.
pub open spec fn env_view(e: EnvConfig) -> (Option<Seq<char>>, Option<Seq<char>>, Seq<(Seq<char>, Seq<char>)>) {
    (
        match e.shell {
            Some(s) => Some(s@),
            None => None,
        },
        match e.cwd {
            Some(s) => Some(s@),
            None => None,
        },
        e.vars@.map_values(|p: (String, String)| (p.0@, p.1@)),
    )
}

/// The entries of a table of strings as name/value pairs.
pub open spec fn string_pairs(m: Seq<(Seq<char>, SValue)>) -> Result<Seq<(Seq<char>, Seq<char>)>, Seq<char>>
    decreases m.len(),
{
    if m.len() == 0 {
        Ok(Seq::empty())
    } else {
        match m[0].1 {
            SValue::Str(s) => with_prefix(seq![(m[0].0, s)], string_pairs(m.drop_first())),
            _ => Err("env var '"@ + m[0].0 + "' must be string"@),
        }
    }
}

/// The `env` table of a workflow table, if there is one.
pub open spec fn env_model(w: Seq<(Seq<char>, SValue)>) -> Result<Option<(Option<Seq<char>>, Option<Seq<char>>, Seq<(Seq<char>, Seq<char>)>)>, Seq<char>> {
    match table_get(w, "env"@) {
        Some(SValue::Table(e)) => {
            let vars = match table_get(e, "env"@) {
                Some(SValue::Table(m)) => string_pairs(m),
                _ => Ok(Seq::empty()),
            };
            match vars {
                Err(m) => Err(m),
                Ok(vs) => Ok(Some((optional_string(e, "shell"@), optional_string(e, "cwd"@), vs))),
            }
        },
        None => Ok(None),
        Some(_) => Err("workflow.env must be a table"@),
    }
}

fn string_pairs_of(m: &Vec<(String, Value)>) -> (r: Result<Vec<(String, String)>, String>)
    ensures
        match (r, string_pairs(entries_view(m@))) {
            (Ok(x), Ok(y)) => x@.map_values(|p: (String, String)| (p.0@, p.1@)) == y,
            (Err(x), Err(y)) => x@ == y,
            _ => false,
        },
{
    let ghost all = entries_view(m@);
    proof {
        lemma_entries_view(m@);
        assert(all.skip(0) =~= all);
    }
    let mut out: Vec<(String, String)> = Vec::new();
    let mut i: usize = 0;
    proof {
        if let Ok(ys) = string_pairs(all) {
            assert(out@.map_values(|p: (String, String)| (p.0@, p.1@)) + ys =~= ys);
        }
    }
    while i < m.len()
        invariant
            i <= m@.len(),
            all == entries_view(m@),
            all.len() == m@.len(),
            forall|j: int| 0 <= j < m@.len() ==> #[trigger] all[j] == (m@[j].0@, m@[j].1@),
            string_pairs(all) == with_prefix(
                out@.map_values(|p: (String, String)| (p.0@, p.1@)),
                string_pairs(all.skip(i as int)),
            ),
        decreases m@.len() - i,
    {
        proof {
            assert(all.skip(i as int).drop_first() =~= all.skip(i + 1));
            assert(all.skip(i as int)[0] == all[i as int]);
        }
        match &m[i].1 {
            Value::String(s) => {
                let k = copy_string(&m[i].0);
                let v = copy_string(s);
                let ghost before = out@;
                out.push((k, v));
                proof {
                    let f = |p: (String, String)| (p.0@, p.1@);
                    assert(out@.map_values(f) =~= before.map_values(f).push((k@, v@)));
                    if let Ok(ys) = string_pairs(all.skip(i + 1)) {
                        assert(before.map_values(f) + (seq![(k@, v@)] + ys) =~= out@.map_values(f) + ys);
                    }
                }
            },
            _ => {
                return Err(concat3("env var '", m[i].0.as_str(), "' must be string"));
            },
        }
        i = i + 1;
    }
    proof {
        assert(all.skip(i as int) =~= Seq::<(Seq<char>, SValue)>::empty());
        let f = |p: (String, String)| (p.0@, p.1@);
        assert(out@.map_values(f) + Seq::<(Seq<char>, Seq<char>)>::empty() =~= out@.map_values(f));
    }
    Ok(out)
}

fn parse_env(workflow: &Vec<(String, Value)>) -> (r: Result<Option<EnvConfig>, String>)
    ensures
        match (r, env_model(entries_view(workflow@))) {
            (Ok(Some(x)), Ok(Some(y))) => env_view(x) == y,
            (Ok(None), Ok(None)) => true,
            (Err(x), Err(y)) => x@ == y,
            _ => false,
        },
{
    let env_tbl = match get_entry(workflow, "env") {
        Some(Value::Table(t)) => t,
        None => {
            return Ok(None);
        },
        _ => {
            return Err(string_of("workflow.env must be a table"));
        },
    };
    let shell = get_optional_string(env_tbl, "shell");
    let cwd = get_optional_string(env_tbl, "cwd");
    let vars = match get_entry(env_tbl, "env") {
        Some(Value::Table(env_map)) => string_pairs_of(env_map)?,
        _ => {
            let empty: Vec<(String, String)> = Vec::new();
            assert(empty@.map_values(|p: (String, String)| (p.0@, p.1@)) =~= Seq::<(Seq<char>, Seq<char>)>::empty());
            empty
        },
    };
    Ok(Some(EnvConfig { shell, cwd, vars }))
}

/// One step of a workflow.
#[derive(Debug)]
pub struct Step {
    pub name: String,
    pub command: String,
    pub arguments: Arguments,
    pub order: usize,
}

/// The model of a [`Step`].
pub struct SStep {
    pub name: Seq<char>,
    pub command: Seq<char>,
    pub arguments: SArguments,
    pub order: usize,
}

impl Step {
    pub open spec fn view(&self) -> SStep {
        SStep { name: self.name@, command: self.command@, arguments: self.arguments@, order: self.order }
    }
}

/// The models of a list of steps.
pub open spec fn steps_view(s: Seq<Step>) -> Seq<SStep> {
    s.map_values(|x: Step| x@)
}

/// The step named `name` from its table `v`: its `command`, its
/// `arguments`, and its `order`, a non-negative integer.
pub open spec fn step_model(name: Seq<char>, v: SValue) -> Result<SStep, Seq<char>> {
    match v {
        SValue::Table(t) => match required_string(t, "command"@) {
            Err(m) => Err(m),
            Ok(cmd) => match arguments_model(t) {
                Err(m) => Err(m),
                Ok(a) => match table_get(t, "order"@) {
                    Some(SValue::Integer(i)) => if i >= 0 {
                        Ok(SStep { name, command: cmd, arguments: a, order: i as usize })
                    } else {
                        Err("step '"@ + name + "' order must be a non-negative integer"@)
                    },
                    Some(_) => Err("step '"@ + name + "' order must be a non-negative integer"@),
                    None => Err("step '"@ + name + "' is missing required field 'order'"@),
                },
            },
        },
        _ => Err("step '"@ + name + "' must be a table"@),
    }
}

/// The steps of a steps table, in the order of the table.
pub open spec fn steps_in_table(t: Seq<(Seq<char>, SValue)>) -> Result<Seq<SStep>, Seq<char>>
    decreases t.len(),
{
    if t.len() == 0 {
        Ok(Seq::empty())
    } else {
        match step_model(t[0].0, t[0].1) {
            Err(m) => Err(m),
            Ok(s) => with_prefix(seq![s], steps_in_table(t.drop_first())),
        }
    }
}

/// Where a step of order `o` goes in `s`: before the first step of a
/// greater order.
pub open spec fn insert_pos(s: Seq<SStep>, o: usize) -> int
    decreases s.len(),
{
    if s.len() == 0 {
        0
    } else if s[0].order > o {
        0
    } else {
        1 + insert_pos(s.drop_first(), o)
    }
}

/// `x` inserted into `s` before the first step of a greater order.
pub open spec fn insert_by_order(s: Seq<SStep>, x: SStep) -> Seq<SStep> {
    s.insert(insert_pos(s, x.order), x)
}

/// The steps sorted by order; steps of equal order keep their relative
/// order.
pub open spec fn sort_by_order(s: Seq<SStep>) -> Seq<SStep>
    decreases s.len(),
{
    if s.len() == 0 {
        s
    } else {
        insert_by_order(sort_by_order(s.drop_last()), s.last())
    }
}

/// The steps of a workflow table, sorted by order.
pub open spec fn steps_model(w: Seq<(Seq<char>, SValue)>) -> Result<Seq<SStep>, Seq<char>> {
    match required_table(w, "steps"@) {
        Err(m) => Err(m),
        Ok(t) => match steps_in_table(t) {
            Err(m) => Err(m),
            Ok(s) => Ok(sort_by_order(s)),
        },
    }
}

/// Steps in nondecreasing order.
pub open spec fn ordered(s: Seq<SStep>) -> bool {
    forall|i: int, j: int| 0 <= i <= j < s.len() ==> #[trigger] s[i].order <= #[trigger] s[j].order
}

/// `insert_pos` is the first index whose step has a greater order.
proof fn lemma_insert_pos(s: Seq<SStep>, o: usize, j: int)
    requires
        0 <= j <= s.len(),
        forall|k: int| 0 <= k < j ==> #[trigger] s[k].order <= o,
        j == s.len() || s[j].order > o,
    ensures
        insert_pos(s, o) == j,
    decreases s.len(),
{
    if s.len() > 0 && j > 0 {
        assert(s[0].order <= o);
        assert forall|k: int| 0 <= k < j - 1 implies #[trigger] s.drop_first()[k].order <= o by {
            assert(s.drop_first()[k] == s[k + 1]);
        }
        lemma_insert_pos(s.drop_first(), o, j - 1);
    }
}

/// The steps before `insert_pos` have an order of at most `o`.
proof fn lemma_insert_pos_bounds(s: Seq<SStep>, o: usize)
    ensures
        0 <= insert_pos(s, o) <= s.len(),
        forall|k: int| 0 <= k < insert_pos(s, o) ==> #[trigger] s[k].order <= o,
        insert_pos(s, o) < s.len() ==> s[insert_pos(s, o)].order > o,
    decreases s.len(),
{
    if s.len() > 0 && s[0].order <= o {
        lemma_insert_pos_bounds(s.drop_first(), o);
        assert forall|k: int| 0 <= k < insert_pos(s, o) implies #[trigger] s[k].order <= o by {
            if k > 0 {
                assert(s[k] == s.drop_first()[k - 1]);
            }
        }
    }
}

/// Inserting by order into ordered steps keeps them ordered.
proof fn lemma_insert_ordered(s: Seq<SStep>, x: SStep)
    requires
        ordered(s),
    ensures
        ordered(insert_by_order(s, x)),
{
    lemma_insert_pos_bounds(s, x.order);
    let p = insert_pos(s, x.order);
    let t = insert_by_order(s, x);
    assert forall|i: int, j: int| 0 <= i <= j < t.len() implies #[trigger] t[i].order <= #[trigger] t[j].order by {
        if j < p {
            assert(t[i] == s[i] && t[j] == s[j]);
        } else if j == p {
            if i < p {
                assert(t[i] == s[i]);
            }
        } else if i > p {
            assert(t[i] == s[i - 1] && t[j] == s[j - 1]);
        } else if i == p {
            assert(t[j] == s[j - 1]);
            assert(s[p].order <= s[j - 1].order);
        } else {
            assert(t[i] == s[i] && t[j] == s[j - 1]);
        }
    }
}

/// Sorting by order gives ordered steps.
pub proof fn law_sorted_steps_are_ordered(s: Seq<SStep>)
    ensures
        ordered(sort_by_order(s)),
    decreases s.len(),
{
    if s.len() > 0 {
        law_sorted_steps_are_ordered(s.drop_last());
        lemma_insert_ordered(sort_by_order(s.drop_last()), s.last());
    }
}

/// Sorting by order neither drops nor adds a step.
pub proof fn law_sorting_keeps_steps(s: Seq<SStep>)
    ensures
        sort_by_order(s).to_multiset() == s.to_multiset(),
    decreases s.len(),
{
    broadcast use vstd::seq_lib::to_multiset_insert, vstd::seq_lib::to_multiset_build;
    if s.len() > 0 {
        law_sorting_keeps_steps(s.drop_last());
        lemma_insert_pos_bounds(sort_by_order(s.drop_last()), s.last().order);
        assert(s.drop_last().push(s.last()) =~= s);
    }
}

/// The steps of order `o`.
pub open spec fn of_order(o: usize) -> spec_fn(SStep) -> bool {
    |x: SStep| x.order == o
}

/// Sorting by order is stable: the steps of each order come out in the
/// order in which they went in.
pub proof fn law_sorting_is_stable(s: Seq<SStep>, o: usize)
    ensures
        sort_by_order(s).filter(of_order(o)) == s.filter(of_order(o)),
    decreases s.len(),
{
    if s.len() > 0 {
        let prev = sort_by_order(s.drop_last());
        let x = s.last();
        law_sorting_is_stable(s.drop_last(), o);
        law_sorted_steps_are_ordered(s.drop_last());
        lemma_insert_pos_bounds(prev, x.order);
        let p = insert_pos(prev, x.order);
        let before = prev.take(p);
        let after = prev.skip(p);
        assert(prev =~= before + after);
        Seq::filter_distributes_over_add(before, after, of_order(o));
        Seq::filter_distributes_over_add(before, seq![x] + after, of_order(o));
        Seq::filter_distributes_over_add(seq![x], after, of_order(o));
        assert(insert_by_order(prev, x) =~= before + (seq![x] + after));
        assert(s =~= s.drop_last().push(x));
        s.drop_last().lemma_filter_push(x, of_order(o));
        assert(seq![x].filter(of_order(o)) =~= if x.order == o {
            seq![x]
        } else {
            Seq::<SStep>::empty()
        }) by {
            Seq::<SStep>::empty().lemma_filter_push(x, of_order(o));
            assert(Seq::<SStep>::empty().push(x) =~= seq![x]);
            assert(Seq::<SStep>::empty().filter(of_order(o)) =~= Seq::<SStep>::empty()) by {
                Seq::<SStep>::empty().lemma_filter_len(of_order(o));
            }
        }
        if x.order == o {
            assert(after.filter(of_order(o)) =~= Seq::<SStep>::empty()) by {
                assert forall|k: int| 0 <= k < after.len() implies !(#[trigger] of_order(o)(after[k])) by {
                    assert(after[k] == prev[p + k]);
                    assert(prev[p].order <= prev[p + k].order);
                }
                after.lemma_all_neg_filter_empty(of_order(o));
            }
            assert(before.filter(of_order(o)) + after.filter(of_order(o)) =~= before.filter(of_order(o)));
            assert(prev.filter(of_order(o)) == before.filter(of_order(o)) + after.filter(of_order(o)));
            assert(insert_by_order(prev, x).filter(of_order(o)) =~= before.filter(of_order(o)) + (seq![x] + after.filter(of_order(o))));
        } else {
            assert(insert_by_order(prev, x).filter(of_order(o)) =~= before.filter(of_order(o)) + (Seq::<SStep>::empty() + after.filter(of_order(o))));
            assert(prev.filter(of_order(o)) == before.filter(of_order(o)) + after.filter(of_order(o)));
        }
    }
}

fn parse_step(name: &String, value: &Value) -> (r: Result<Step, String>)
    ensures
        match (r, step_model(name@, value@)) {
            (Ok(x), Ok(y)) => x@ == y,
            (Err(x), Err(y)) => x@ == y,
            _ => false,
        },
{
    let step_tbl = match value {
        Value::Table(t) => t,
        _ => {
            return Err(concat3("step '", name.as_str(), "' must be a table"));
        },
    };
    let command = get_string(step_tbl, "command")?;
    let arguments = parse_arguments(step_tbl)?;
    let order = match get_entry(step_tbl, "order") {
        Some(Value::Integer(i)) => {
            if *i >= 0 {
                *i as usize
            } else {
                return Err(concat3("step '", name.as_str(), "' order must be a non-negative integer"));
            }
        },
        Some(_) => {
            return Err(concat3("step '", name.as_str(), "' order must be a non-negative integer"));
        },
        None => {
            return Err(concat3("step '", name.as_str(), "' is missing required field 'order'"));
        },
    };
    Ok(Step { name: copy_string(name), command, arguments, order })
}

/// Inserts `x` before the first step of a greater order.
fn insert_step(steps: &mut Vec<Step>, x: Step)
    ensures
        steps_view(final(steps)@) == insert_by_order(steps_view(old(steps)@), x@),
{
    let ghost s = steps_view(steps@);
    let mut j: usize = 0;
    while j < steps.len()
        invariant
            j <= steps@.len(),
            s == steps_view(steps@),
            steps@ == old(steps)@,
            forall|k: int| 0 <= k < j ==> #[trigger] s[k].order <= x.order,
        ensures
            j <= steps@.len(),
            s == steps_view(steps@),
            steps@ == old(steps)@,
            forall|k: int| 0 <= k < j ==> #[trigger] s[k].order <= x.order,
            j == steps@.len() || s[j as int].order > x.order,
        decreases steps@.len() - j,
    {
        if steps[j].order > x.order {
            break;
        }
        j = j + 1;
    }
    proof {
        lemma_insert_pos(s, x.order, j as int);
    }
    steps.insert(j, x);
    assert(steps_view(steps@) =~= s.insert(j as int, x@));
}

fn parse_steps(workflow: &Vec<(String, Value)>) -> (r: Result<Vec<Step>, String>)
    ensures
        match (r, steps_model(entries_view(workflow@))) {
            (Ok(x), Ok(y)) => steps_view(x@) == y,
            (Err(x), Err(y)) => x@ == y,
            _ => false,
        },
{
    let steps_tbl = get_table(workflow, "steps")?;
    let ghost all = entries_view(steps_tbl@);
    let ghost mut done: Seq<SStep> = Seq::empty();
    let mut steps: Vec<Step> = Vec::new();
    proof {
        lemma_entries_view(steps_tbl@);
        assert(all.skip(0) =~= all);
        assert(steps_view(steps@) =~= Seq::<SStep>::empty());
        if let Ok(ys) = steps_in_table(all) {
            assert(done + ys =~= ys);
        }
    }
    let mut i: usize = 0;
    while i < steps_tbl.len()
        invariant
            i <= steps_tbl@.len(),
            all == entries_view(steps_tbl@),
            required_table(entries_view(workflow@), "steps"@) == Ok::<Seq<(Seq<char>, SValue)>, Seq<char>>(all),
            all.len() == steps_tbl@.len(),
            forall|j: int| 0 <= j < steps_tbl@.len() ==> #[trigger] all[j] == (steps_tbl@[j].0@, steps_tbl@[j].1@),
            steps_in_table(all) == with_prefix(done, steps_in_table(all.skip(i as int))),
            steps_view(steps@) == sort_by_order(done),
        decreases steps_tbl@.len() - i,
    {
        proof {
            assert(all.skip(i as int).drop_first() =~= all.skip(i + 1));
            assert(all.skip(i as int)[0] == all[i as int]);
        }
        let step = match parse_step(&steps_tbl[i].0, &steps_tbl[i].1) {
            Ok(s) => s,
            Err(e) => {
                proof {
                    assert(step_model(all[i as int].0, all[i as int].1) == Err::<SStep, Seq<char>>(e@));
                    assert(steps_in_table(all.skip(i as int)) == Err::<Seq<SStep>, Seq<char>>(e@));
                    assert(steps_in_table(all) == Err::<Seq<SStep>, Seq<char>>(e@));
                    assert(required_table(entries_view(workflow@), "steps"@) == Ok::<Seq<(Seq<char>, SValue)>, Seq<char>>(all));
                }
                return Err(e);
            },
        };
        proof {
            lemma_with_prefix(done, step@, steps_in_table(all.skip(i + 1)));
            assert(done.push(step@).drop_last() =~= done);
        }
        insert_step(&mut steps, step);
        proof {
            done = done.push(step@);
        }
        i = i + 1;
    }
    proof {
        assert(all.skip(i as int) =~= Seq::<(Seq<char>, SValue)>::empty());
        assert(done + Seq::<SStep>::empty() =~= done);
    }
    Ok(steps)
}

/// An argument that a workflow declares under `[workflow.arguments]`: the
/// variable it binds, its kind (`positional` takes a bare command-line
/// argument), and whether a run needs it. Declarations of another shape
/// are skipped, so that a workflow decodes whatever its arguments table
/// holds.
#[derive(Debug)]
pub struct DeclaredArgument {
    pub name: String,
    pub kind: String,
    pub required: bool,
}

/// The model of a [`DeclaredArgument`]: name, kind, required.
pub open spec fn declared_view(a: DeclaredArgument) -> (Seq<char>, Seq<char>, bool) {
    (a.name@, a.kind@, a.required)
}

/// The models of a list of declared arguments.
pub open spec fn declared_views(s: Seq<DeclaredArgument>) -> Seq<(Seq<char>, Seq<char>, bool)> {
    s.map_values(|a: DeclaredArgument| declared_view(a))
}

/// The argument declared by the table `v`: its `name` string, its `type`
/// (`positional` when absent) and its `required` flag (false when absent).
/// A declaration of another shape declares nothing.
pub open spec fn declared_model(v: SValue) -> Option<(Seq<char>, Seq<char>, bool)> {
    match v {
        SValue::Table(a) => match table_get(a, "name"@) {
            Some(SValue::Str(name)) => {
                let kind = match table_get(a, "type"@) {
                    Some(SValue::Str(s)) => Some(s),
                    None => Some("positional"@),
                    Some(_) => None,
                };
                let required = match table_get(a, "required"@) {
                    Some(SValue::Boolean(b)) => Some(b),
                    None => Some(false),
                    Some(_) => None,
                };
                match (kind, required) {
                    (Some(kd), Some(rq)) => Some((name, kd, rq)),
                    _ => None,
                }
            },
            _ => None,
        },
        _ => None,
    }
}

/// The arguments declared by the entries of `t`, in their order.
pub open spec fn declared_in_table(t: Seq<(Seq<char>, SValue)>) -> Seq<(Seq<char>, Seq<char>, bool)>
    decreases t.len(),
{
    if t.len() == 0 {
        Seq::empty()
    } else {
        match declared_model(t[0].1) {
            Some(a) => seq![a] + declared_in_table(t.drop_first()),
            None => declared_in_table(t.drop_first()),
        }
    }
}

/// The arguments that a workflow table declares in its `arguments` table
/// (none when it has no such table).
pub open spec fn arguments_decl(w: Seq<(Seq<char>, SValue)>) -> Seq<(Seq<char>, Seq<char>, bool)> {
    match table_get(w, "arguments"@) {
        Some(SValue::Table(t)) => declared_in_table(t),
        _ => Seq::empty(),
    }
}

fn parse_declared_argument(value: &Value) -> (r: Option<DeclaredArgument>)
    ensures
        match (r, declared_model(value@)) {
            (Some(x), Some(y)) => declared_view(x) == y,
            (None, None) => true,
            _ => false,
        },
{
    let tbl = match value {
        Value::Table(t) => t,
        _ => {
            return None;
        },
    };
    let name = match get_entry(tbl, "name") {
        Some(Value::String(s)) => copy_string(s),
        _ => {
            return None;
        },
    };
    let kind = match get_entry(tbl, "type") {
        Some(Value::String(s)) => copy_string(s),
        None => string_of("positional"),
        Some(_) => {
            return None;
        },
    };
    let required = match get_entry(tbl, "required") {
        Some(Value::Boolean(b)) => *b,
        None => false,
        Some(_) => {
            return None;
        },
    };
    Some(DeclaredArgument { name, kind, required })
}

fn parse_declared(workflow: &Vec<(String, Value)>) -> (r: Vec<DeclaredArgument>)
    ensures
        declared_views(r@) == arguments_decl(entries_view(workflow@)),
{
    let tbl = match get_entry(workflow, "arguments") {
        Some(Value::Table(t)) => t,
        _ => {
            let empty: Vec<DeclaredArgument> = Vec::new();
            assert(declared_views(empty@) =~= Seq::<(Seq<char>, Seq<char>, bool)>::empty());
            return empty;
        },
    };
    let ghost all = entries_view(tbl@);
    let mut out: Vec<DeclaredArgument> = Vec::new();
    proof {
        lemma_entries_view(tbl@);
        assert(all.skip(0) =~= all);
        assert(declared_views(out@) + declared_in_table(all) =~= declared_in_table(all));
    }
    let mut i: usize = 0;
    while i < tbl.len()
        invariant
            i <= tbl@.len(),
            all == entries_view(tbl@),
            arguments_decl(entries_view(workflow@)) == declared_in_table(all),
            all.len() == tbl@.len(),
            forall|j: int| 0 <= j < tbl@.len() ==> #[trigger] all[j] == (tbl@[j].0@, tbl@[j].1@),
            declared_in_table(all) == declared_views(out@) + declared_in_table(all.skip(i as int)),
        decreases tbl@.len() - i,
    {
        proof {
            assert(all.skip(i as int).drop_first() =~= all.skip(i + 1));
            assert(all.skip(i as int)[0] == all[i as int]);
        }
        let ghost before = out@;
        match parse_declared_argument(&tbl[i].1) {
            Some(a) => {
                out.push(a);
                proof {
                    assert(declared_views(out@) =~= declared_views(before).push(declared_view(a)));
                    assert(declared_views(before) + (seq![declared_view(a)] + declared_in_table(all.skip(i + 1)))
                        =~= declared_views(out@) + declared_in_table(all.skip(i + 1)));
                }
            },
            None => {},
        }
        i = i + 1;
    }
    proof {
        assert(all.skip(i as int) =~= Seq::<(Seq<char>, SValue)>::empty());
        assert(declared_views(out@) + Seq::<(Seq<char>, Seq<char>, bool)>::empty() =~= declared_views(out@));
    }
    out
}

/// A decoded workflow.
#[derive(Debug)]
pub struct WorkflowSchema {
    pub name: String,
    pub description: String,
    pub version: String,
    pub author: Option<String>,
    pub env: Option<EnvConfig>,
    /// The steps, sorted by order.
    pub steps: Vec<Step>,
    /// The arguments declared under `[workflow.arguments]`, in order.
    pub arguments: Vec<DeclaredArgument>,
}

/// The model of a [`WorkflowSchema`].
pub struct WorkflowModel {
    pub name: Seq<char>,
    pub description: Seq<char>,
    pub version: Seq<char>,
    pub author: Option<Seq<char>>,
    pub env: Option<(Option<Seq<char>>, Option<Seq<char>>, Seq<(Seq<char>, Seq<char>)>)>,
    pub steps: Seq<SStep>,
    pub arguments: Seq<(Seq<char>, Seq<char>, bool)>,
}

impl WorkflowSchema {
    pub open spec fn view(&self) -> WorkflowModel {
        WorkflowModel {
            name: self.name@,
            description: self.description@,
            version: self.version@,
            author: match self.author {
                Some(a) => Some(a@),
                None => None,
            },
            env: match self.env {
                Some(e) => Some(env_view(e)),
                None => None,
            },
            steps: steps_view(self.steps@),
            arguments: declared_views(self.arguments@),
        }
    }
}

/// A parsed workflow document decoded, each part in turn; the first error
/// stops it.
pub open spec fn workflow_model(root: Seq<(Seq<char>, SValue)>) -> Result<WorkflowModel, Seq<char>> {
    match required_string(root, "name"@) {
        Err(m) => Err(m),
        Ok(name) => match required_string(root, "description"@) {
            Err(m) => Err(m),
            Ok(description) => match required_string(root, "version"@) {
                Err(m) => Err(m),
                Ok(version) => match required_table(root, "workflow"@) {
                    Err(m) => Err(m),
                    Ok(w) => match env_model(w) {
                        Err(m) => Err(m),
                        Ok(env) => match steps_model(w) {
                            Err(m) => Err(m),
                            Ok(steps) => Ok(
                                WorkflowModel {
                                    name,
                                    description,
                                    version,
                                    author: optional_string(root, "author"@),
                                    env,
                                    steps,
                                    arguments: arguments_decl(w),
                                },
                            ),
                        },
                    },
                },
            },
        },
    }
}

/// The outcome of decoding the workflow text `content`.
pub open spec fn workflow_outcome(r: Result<WorkflowSchema, SchemaError>, content: Seq<char>) -> bool {
    match parse_document(content).1 {
        Err(msg) => r matches Err(SchemaError::Parse(e)) && reports(e, content, parse_document(content).0, msg),
        Ok(root) => match (r, workflow_model(root)) {
            (Ok(w), Ok(m)) => w@ == m,
            (Err(SchemaError::Invalid(x)), Err(m)) => x@ == m,
            _ => false,
        },
    }
}

fn decode_parsed(parsed: &Vec<(String, Value)>) -> (r: Result<WorkflowSchema, String>)
    ensures
        match (r, workflow_model(entries_view(parsed@))) {
            (Ok(x), Ok(y)) => x@ == y,
            (Err(x), Err(y)) => x@ == y,
            _ => false,
        },
{
    let name = get_string(parsed, "name")?;
    let description = get_string(parsed, "description")?;
    let version = get_string(parsed, "version")?;
    let author = get_optional_string(parsed, "author");
    let workflow = get_table(parsed, "workflow")?;
    let env = parse_env(workflow)?;
    let steps = parse_steps(workflow)?;
    let arguments = parse_declared(workflow);
    Ok(WorkflowSchema { name, description, version, author, env, steps, arguments })
}

/// Decodes a workflow document.
pub fn decode_workflow(content: &str) -> (r: Result<WorkflowSchema, SchemaError>)
    requires
        content@.len() < usize::MAX,
        encode_utf8(content@).len() <= usize::MAX,
    ensures
        workflow_outcome(r, content@),
{
    let parsed = match parse(content) {
        Ok(p) => p,
        Err(e) => {
            return Err(SchemaError::Parse(e));
        },
    };
    match decode_parsed(&parsed) {
        Ok(w) => Ok(w),
        Err(m) => Err(SchemaError::Invalid(m)),
    }
}

} // verus!
