//! What running the steps of a workflow asks for: for each step, the
//! program and its arguments. Running them is left to the caller, step by
//! step, in the order of the steps table.
use vstd::prelude::*;
use crate::ast::{entries_view, lemma_values_view, values_view, SValue, Value};
use crate::engine::context::Context;
use crate::engine::eval::{eval_value, value_result};
use crate::parser::spec::table_get;
use crate::parser::table::get_entry;
use crate::text::{copy_string, string_of, strings_view};
use crate::workflow::args::{interpolate, interpolated};

verus! {

/// A program to start, the arguments to hand it, and the working directory
/// and environment variables to start it with (none: those of the caller).
#[derive(Debug, Clone)]
pub struct Invocation {
    pub program: String,
    pub args: Vec<String>,
    pub cwd: Option<String>,
    pub env: Vec<(String, String)>,
}

impl Invocation {
    /// The program and its arguments as plain text.
    pub open spec fn view(&self) -> (Seq<char>, Seq<Seq<char>>) {
        (self.program@, strings_view(self.args@))
    }
}

/// Every item is a string.
pub open spec fn all_strings(items: Seq<SValue>) -> bool {
    forall|i: int| 0 <= i < items.len() ==> #[trigger] items[i] is Str
}

/// The arguments of a step: each string item, interpolated.
pub open spec fn step_words(items: Seq<SValue>, vars: Seq<(Seq<char>, Seq<char>)>) -> Seq<Seq<char>> {
    items.map_values(|v: SValue| interpolated(v->Str_0, vars))
}

/// The arguments of a step from its `arguments` value: evaluated, then
/// each item, which must be a string, interpolated.
pub open spec fn argument_words(a: SValue, vars: Seq<(Seq<char>, Seq<char>)>) -> Result<Seq<Seq<char>>, Seq<char>> {
    match value_result(a, vars) {
        Err(m) => Err(m),
        Ok(SValue::Array(items)) => if all_strings(items) {
            Ok(step_words(items, vars))
        } else {
            Err("arguments must be strings"@)
        },
        Ok(_) => Err("arguments must be array"@),
    }
}

/// What the step table `t` asks to run.
pub open spec fn table_invocation(t: Seq<(Seq<char>, SValue)>, vars: Seq<(Seq<char>, Seq<char>)>) -> Result<(Seq<char>, Seq<Seq<char>>), Seq<char>> {
    match table_get(t, "command"@) {
        Some(SValue::Str(cmd)) => match table_get(t, "arguments"@) {
            None => Ok((cmd, Seq::empty())),
            Some(a) => match argument_words(a, vars) {
                Err(m) => Err(m),
                Ok(w) => Ok((cmd, w)),
            },
        },
        _ => Err("missing command"@),
    }
}

/// What a step asks to run: its `command` string and its `arguments`
/// (evaluated, each a string, interpolated), or the reason it cannot run.
pub open spec fn step_invocation(step: SValue, vars: Seq<(Seq<char>, Seq<char>)>) -> Result<(Seq<char>, Seq<Seq<char>>), Seq<char>> {
    match step {
        SValue::Table(t) => table_invocation(t, vars),
        _ => Err("step must be a table"@),
    }
}

/// The entries of the steps table, or why there are none.
pub fn step_tables(steps: &Value) -> (r: Result<&Vec<(String, Value)>, String>)
    ensures
        match r {
            Ok(t) => steps@ == SValue::Table(entries_view(t@)),
            Err(m) => !(steps@ is Table) && m@ == "steps must be a table"@,
        },
{
    match steps {
        Value::Table(map) => Ok(map),
        _ => Err(string_of("steps must be a table")),
    }
}

fn string_items(items: &Vec<Value>, ctx: &Context) -> (r: Option<Vec<String>>)
    ensures
        match r {
            Some(w) => all_strings(values_view(items@)) && strings_view(w@) == step_words(values_view(items@), ctx@),
            None => !all_strings(values_view(items@)),
        },
{
    proof {
        lemma_values_view(items@);
    }
    let mut out: Vec<String> = Vec::new();
    let mut i: usize = 0;
    while i < items.len()
        invariant
            i <= items@.len(),
            values_view(items@).len() == items@.len(),
            forall|j: int| 0 <= j < items@.len() ==> #[trigger] values_view(items@)[j] == items@[j]@,
            all_strings(values_view(items@).take(i as int)),
            strings_view(out@) == step_words(values_view(items@).take(i as int), ctx@),
        decreases items@.len() - i,
    {
        match &items[i] {
            Value::String(s) => {
                let w = interpolate(s.as_str(), ctx);
                let ghost before = out@;
                out.push(w);
                proof {
                    let vs = values_view(items@);
                    assert(vs.take(i + 1) =~= vs.take(i as int).push(vs[i as int]));
                    assert(strings_view(out@) =~= strings_view(before).push(w@));
                    assert(step_words(vs.take(i + 1), ctx@) =~= step_words(vs.take(i as int), ctx@).push(w@));
                }
            },
            _ => {
                proof {
                    assert(!(values_view(items@)[i as int] is Str));
                }
                return None;
            },
        }
        i = i + 1;
    }
    proof {
        assert(values_view(items@).take(i as int) =~= values_view(items@));
    }
    Some(out)
}

fn argument_list(val: &Value, ctx: &Context) -> (r: Result<Vec<String>, String>)
    ensures
        match (r, argument_words(val@, ctx@)) {
            (Ok(x), Ok(y)) => strings_view(x@) == y,
            (Err(x), Err(y)) => x@ == y,
            _ => false,
        },
{
    let evaluated = eval_value(val, ctx)?;
    match evaluated {
        Value::Array(arr) => match string_items(&arr, ctx) {
            Some(w) => Ok(w),
            None => Err(string_of("arguments must be strings")),
        },
        _ => Err(string_of("arguments must be array")),
    }
}

/// What running `step` asks for (see `step_invocation`).
fn prepare_table(table: &Vec<(String, Value)>, ctx: &Context) -> (r: Result<Invocation, String>)
    ensures
        match (r, table_invocation(entries_view(table@), ctx@)) {
            (Ok(x), Ok(y)) => x@ == y && x.cwd is None && x.env@.len() == 0,
            (Err(x), Err(y)) => x@ == y,
            _ => false,
        },
{
    let command = match get_entry(table, "command") {
        Some(Value::String(s)) => copy_string(s),
        _ => {
            return Err(string_of("missing command"));
        },
    };
    let args = match get_entry(table, "arguments") {
        None => {
            let empty: Vec<String> = Vec::new();
            assert(strings_view(empty@) =~= Seq::<Seq<char>>::empty());
            empty
        },
        Some(val) => argument_list(val, ctx)?,
    };
    Ok(Invocation { program: command, args, cwd: None, env: Vec::new() })
}

/// What running `step` asks for (see `step_invocation`), in the caller's
/// working directory and environment.
pub fn prepare_step(step: &Value, ctx: &Context) -> (r: Result<Invocation, String>)
    ensures
        match (r, step_invocation(step@, ctx@)) {
            (Ok(x), Ok(y)) => x@ == y && x.cwd is None && x.env@.len() == 0,
            (Err(x), Err(y)) => x@ == y,
            _ => false,
        },
{
    match step {
        Value::Table(map) => prepare_table(map, ctx),
        _ => Err(string_of("step must be a table")),
    }
}

/// The steps of the workflow in `root`: the `steps` entry of its
/// `workflow` table.
pub fn workflow_steps(root: &Vec<(String, Value)>) -> (r: Result<&Value, String>)
    ensures
        match r {
            Ok(v) => table_get(entries_view(root@), "workflow"@) matches Some(SValue::Table(w))
                && table_get(w, "steps"@) == Some(v@),
            Err(m) => match table_get(entries_view(root@), "workflow"@) {
                Some(SValue::Table(w)) => table_get(w, "steps"@) is None && m@ == "missing steps"@,
                _ => m@ == "missing workflow"@,
            },
        },
{
    let workflow = match get_entry(root, "workflow") {
        Some(Value::Table(map)) => map,
        _ => {
            return Err(string_of("missing workflow"));
        },
    };
    match get_entry(workflow, "steps") {
        Some(v) => Ok(v),
        None => Err(string_of("missing steps")),
    }
}

} // verus!
