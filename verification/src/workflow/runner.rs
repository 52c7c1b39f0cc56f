//! The variables of a workflow run, and where a workflow's file lives.
use vstd::prelude::*;
use crate::engine::context::{copy_pairs, from_pairs, lookup, set_var, Context};
use crate::schemas::workflow::{declared_view, declared_views, DeclaredArgument, WorkflowModel, WorkflowSchema};
use crate::text::{chars_of, concat3, has_char, string_from_range, string_of, strings_view};

verus! {

/// The index of the first `=` of `s`, which holds one.
pub open spec fn first_eq(s: Seq<char>) -> int {
    choose|i: int| 0 <= i < s.len() && s[i] == '=' && forall|j: int| 0 <= j < i ==> #[trigger] s[j] != '='
}

/// `s` split at its first `=` into name and value, if it holds one.
pub open spec fn split_pair(s: Seq<char>) -> Option<(Seq<char>, Seq<char>)> {
    if has_char(s, '=') {
        Some((s.take(first_eq(s)), s.skip(first_eq(s) + 1)))
    } else {
        None
    }
}

proof fn lemma_first_eq(s: Seq<char>, i: int)
    requires
        0 <= i < s.len(),
        s[i] == '=',
        forall|j: int| 0 <= j < i ==> #[trigger] s[j] != '=',
    ensures
        has_char(s, '='),
        first_eq(s) == i,
{
    assert(s[i] == '=');
    let w = first_eq(s);
    assert(0 <= w < s.len() && s[w] == '=' && forall|j: int| 0 <= j < w ==> #[trigger] s[j] != '=');
    if w < i {
        assert(s[w] != '=');
    } else if w > i {
        assert(s[i] != '=');
    }
}

/// The names of the positional arguments that a workflow declares, in
/// order.
pub open spec fn positional_names(decl: Seq<(Seq<char>, Seq<char>, bool)>) -> Seq<Seq<char>>
    decreases decl.len(),
{
    if decl.len() == 0 {
        Seq::empty()
    } else if decl.last().1 == "positional"@ {
        positional_names(decl.drop_last()).push(decl.last().0)
    } else {
        positional_names(decl.drop_last())
    }
}

/// How many of `args` are bare: hold no `=`.
pub open spec fn bare_count(args: Seq<Seq<char>>) -> nat
    decreases args.len(),
{
    if args.len() == 0 {
        0
    } else {
        bare_count(args.drop_last()) + if split_pair(args.last()) is None {
            1nat
        } else {
            0nat
        }
    }
}

/// The variables after the command-line argument `a` at index `i`, the
/// `j`-th bare one when it holds no `=`: a `name=value` argument sets
/// `name`. A bare argument sets `title` when it is the first argument and
/// `description` when it is the second, and then the `j`-th declared
/// positional argument, if there is one.
pub open spec fn apply_arg(vars: Seq<(Seq<char>, Seq<char>)>, i: int, a: Seq<char>, j: nat, names: Seq<Seq<char>>) -> Seq<(Seq<char>, Seq<char>)> {
    match split_pair(a) {
        Some((k, v)) => set_var(vars, k, v),
        None => {
            let v1 = if i == 0 {
                set_var(vars, "title"@, a)
            } else if i == 1 {
                set_var(vars, "description"@, a)
            } else {
                vars
            };
            if j < names.len() {
                set_var(v1, names[j as int], a)
            } else {
                v1
            }
        },
    }
}

/// The variables after the command-line arguments `args`, in turn, with
/// `names` the declared positional arguments.
pub open spec fn apply_args(vars: Seq<(Seq<char>, Seq<char>)>, args: Seq<Seq<char>>, names: Seq<Seq<char>>) -> Seq<(Seq<char>, Seq<char>)>
    decreases args.len(),
{
    if args.len() == 0 {
        vars
    } else {
        apply_arg(
            apply_args(vars, args.drop_last(), names),
            args.len() - 1,
            args.last(),
            bare_count(args.drop_last()),
            names,
        )
    }
}

/// The first declared argument that is required and unset in `vars`.
pub open spec fn missing_required(decl: Seq<(Seq<char>, Seq<char>, bool)>, vars: Seq<(Seq<char>, Seq<char>)>) -> Option<Seq<char>>
    decreases decl.len(),
{
    if decl.len() == 0 {
        None
    } else if decl[0].2 && lookup(vars, decl[0].0) is None {
        Some(decl[0].0)
    } else {
        missing_required(decl.drop_first(), vars)
    }
}

/// The variables of a run before the required check: the workflow's `env`
/// variables, then the command-line arguments.
pub open spec fn run_vars(m: WorkflowModel, args: Seq<Seq<char>>) -> Seq<(Seq<char>, Seq<char>)> {
    let base = match m.env {
        Some((_, _, vars)) => from_pairs(vars),
        None => Seq::empty(),
    };
    apply_args(base, args, positional_names(m.arguments))
}

/// The variables of a run, or the error naming the first required argument
/// that no command-line argument (nor the `env` table) set.
pub open spec fn run_outcome(m: WorkflowModel, args: Seq<Seq<char>>) -> Result<Seq<(Seq<char>, Seq<char>)>, Seq<char>> {
    match missing_required(m.arguments, run_vars(m, args)) {
        Some(n) => Err("missing required argument '"@ + n + "'"@),
        None => Ok(run_vars(m, args)),
    }
}

fn split_arg(arg: &String) -> (r: Option<(String, String)>)
    ensures
        match r {
            Some((k, v)) => split_pair(arg@) == Some((k@, v@)),
            None => split_pair(arg@) is None,
        },
{
    let chars = chars_of(arg.as_str());
    let mut i: usize = 0;
    while i < chars.len()
        invariant
            i <= chars@.len(),
            chars@ == arg@,
            forall|j: int| 0 <= j < i ==> #[trigger] chars@[j] != '=',
        decreases chars@.len() - i,
    {
        if chars[i] == '=' {
            proof {
                lemma_first_eq(arg@, i as int);
                assert(chars@.subrange(0, i as int) =~= arg@.take(i as int));
                assert(chars@.subrange(i + 1, chars@.len() as int) =~= arg@.skip(i + 1));
            }
            let k = string_from_range(&chars, 0, i);
            let v = string_from_range(&chars, i + 1, chars.len());
            return Some((k, v));
        }
        i = i + 1;
    }
    proof {
        if has_char(arg@, '=') {
            let x = choose|x: int| 0 <= x < arg@.len() && arg@[x] == '=';
            assert(chars@[x] != '=');
        }
    }
    None
}

fn positional_list(decl: &Vec<DeclaredArgument>) -> (r: Vec<String>)
    ensures
        strings_view(r@) == positional_names(declared_views(decl@)),
{
    let mut out: Vec<String> = Vec::new();
    let mut i: usize = 0;
    let positional = string_of("positional");
    while i < decl.len()
        invariant
            i <= decl@.len(),
            positional@ == "positional"@,
            strings_view(out@) == positional_names(declared_views(decl@).take(i as int)),
        decreases decl@.len() - i,
    {
        let ghost d = declared_views(decl@);
        proof {
            assert(d.take(i + 1).drop_last() =~= d.take(i as int));
            assert(d.take(i + 1).last() == declared_view(decl@[i as int]));
        }
        if decl[i].kind == positional {
            let ghost before = out@;
            out.push(decl[i].name.clone());
            assert(strings_view(out@) =~= strings_view(before).push(decl@[i as int].name@));
        }
        i = i + 1;
    }
    proof {
        assert(declared_views(decl@).take(i as int) =~= declared_views(decl@));
    }
    out
}

/// The variables of a run of `manifest` with the command-line arguments
/// `cli_args` (see `run_outcome`): `env` variables, then each argument in
/// turn, bare ones bound to the declared positional arguments in order; an
/// error names a required argument left unset.
pub fn run_context(manifest: &WorkflowSchema, cli_args: &Vec<String>) -> (r: Result<Context, String>)
    ensures
        match (r, run_outcome(manifest@, strings_view(cli_args@))) {
            (Ok(c), Ok(vars)) => c@ == vars && c.wf(),
            (Err(e), Err(m)) => e@ == m,
            _ => false,
        },
{
    let names = positional_list(&manifest.arguments);
    let ghost base = match manifest@.env {
        Some((_, _, vars)) => from_pairs(vars),
        None => Seq::empty(),
    };
    let mut ctx = match &manifest.env {
        Some(env) => Context::with(copy_pairs(&env.vars)),
        None => Context::new(),
    };
    let mut i: usize = 0;
    let mut j: usize = 0;
    while i < cli_args.len()
        invariant
            i <= cli_args@.len(),
            j <= i,
            ctx.wf(),
            j == bare_count(strings_view(cli_args@).take(i as int)),
            ctx@ == apply_args(base, strings_view(cli_args@).take(i as int), strings_view(names@)),
        decreases cli_args@.len() - i,
    {
        let arg = &cli_args[i];
        proof {
            assert(strings_view(cli_args@).take(i + 1).drop_last() =~= strings_view(cli_args@).take(i as int));
        }
        match split_arg(arg) {
            Some((key, value)) => {
                ctx.insert(key, value);
            },
            None => {
                if i == 0 {
                    ctx.insert(string_of("title"), arg.clone());
                } else if i == 1 {
                    ctx.insert(string_of("description"), arg.clone());
                }
                if j < names.len() {
                    ctx.insert(names[j].clone(), arg.clone());
                }
                j = j + 1;
            },
        }
        i = i + 1;
    }
    proof {
        assert(strings_view(cli_args@).take(i as int) =~= strings_view(cli_args@));
    }
    let ghost vars = ctx@;
    let ghost decl = declared_views(manifest.arguments@);
    assert(vars == run_vars(manifest@, strings_view(cli_args@)));
    let mut k: usize = 0;
    proof {
        assert(decl.skip(0) =~= decl);
    }
    while k < manifest.arguments.len()
        invariant
            k <= manifest.arguments@.len(),
            decl == declared_views(manifest.arguments@),
            vars == ctx@,
            vars == run_vars(manifest@, strings_view(cli_args@)),
            decl == manifest@.arguments,
            missing_required(decl, vars) == missing_required(decl.skip(k as int), vars),
        decreases manifest.arguments@.len() - k,
    {
        proof {
            assert(decl.skip(k as int).drop_first() =~= decl.skip(k + 1));
            assert(decl.skip(k as int)[0] == declared_view(manifest.arguments@[k as int]));
        }
        let a = &manifest.arguments[k];
        if a.required && ctx.get(a.name.as_str()).is_none() {
            return Err(concat3("missing required argument '", a.name.as_str(), "'"));
        }
        k = k + 1;
    }
    proof {
        assert(decl.skip(k as int) =~= Seq::<(Seq<char>, Seq<char>, bool)>::empty());
    }
    Ok(ctx)
}

/// Where the workflow named `name` is stored:
/// `.playback/workflows/NAME.toml`.
pub fn workflow_path(name: &str) -> (r: String)
    ensures
        r@ == ".playback/workflows/"@ + name@ + ".toml"@,
{
    concat3(".playback/workflows/", name, ".toml")
}

} // verus!
