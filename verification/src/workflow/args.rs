//! Turning a step's arguments into command-line words: conditions,
//! `{{name}}` placeholders, and shell quoting.
use vstd::prelude::*;
use crate::ast::{Expr, SExpr};
use crate::engine::exec::Invocation;
use crate::schemas::config::default_shell;
use crate::schemas::workflow::{Arguments, SArguments, WorkflowSchema};
use crate::engine::context::{copy_pairs, lookup, vars_view, Context};
use crate::text::{concat, copy_string, push_all, replace, replace_all, starts_at, string_of, strings_view};

verus! {

/// The placeholder that stands for the variable `k`: `{{k}}`.
pub open spec fn placeholder(k: Seq<char>) -> Seq<char> {
    "{{"@ + k + "}}"@
}

/// `s` with the placeholder of each variable replaced by its value, one
/// variable after the other in the order of `vars`.
pub open spec fn interpolated(s: Seq<char>, vars: Seq<(Seq<char>, Seq<char>)>) -> Seq<char>
    decreases vars.len(),
{
    if vars.len() == 0 {
        s
    } else {
        replace_all(interpolated(s, vars.drop_last()), placeholder(vars.last().0), vars.last().1)
    }
}

/// Replaces `{{name}}` by the value of `name`, for every variable of `ctx`
/// in turn.
pub fn interpolate(input: &str, ctx: &Context) -> (r: String)
    ensures
        r@ == interpolated(input@, ctx@),
{
    let mut out = string_of(input);
    let mut i: usize = 0;
    while i < ctx.vars.len()
        invariant
            i <= ctx.vars@.len(),
            ctx@.len() == ctx.vars@.len(),
            out@ == interpolated(input@, ctx@.take(i as int)),
        decreases ctx.vars@.len() - i,
    {
        let mut pattern = concat("{{", ctx.vars[i].0.as_str());
        push_all(&mut pattern, "}}");
        proof {
            reveal_strlit("{{");
            reveal_strlit("}}");
            assert(pattern@ == placeholder(ctx@[i as int].0));
            assert(ctx@.take(i + 1).drop_last() =~= ctx@.take(i as int));
            assert(pattern@.len() > 0);
        }
        out = replace(out.as_str(), pattern.as_str(), ctx.vars[i].1.as_str());
        i = i + 1;
    }
    proof {
        assert(ctx@.take(i as int) =~= ctx@);
    }
    out
}

/// Interpolating against a context without variables leaves the text as it
/// was.
pub proof fn law_interpolate_without_vars(s: Seq<char>)
    ensures
        interpolated(s, Seq::empty()) == s,
{
}

/// The text of an operand: a variable's value (empty when unset), a string
/// literal, or empty for anything else.
pub open spec fn operand_text(e: SExpr, vars: Seq<(Seq<char>, Seq<char>)>) -> Seq<char> {
    match e {
        SExpr::Identifier(n) => match lookup(vars, n) {
            Some(v) => v,
            None => Seq::empty(),
        },
        SExpr::Str(s) => s,
        _ => Seq::empty(),
    }
}

/// Whether a condition holds: a variable holds when it is set, a string
/// always, a comparison when its operands' texts are equal (`==`) or differ
/// (`!=`).
pub open spec fn condition_holds(e: SExpr, vars: Seq<(Seq<char>, Seq<char>)>) -> bool {
    match e {
        SExpr::Identifier(n) => lookup(vars, n) is Some,
        SExpr::Str(_) => true,
        SExpr::NotEquals(l, r) => operand_text(*l, vars) != operand_text(*r, vars),
        SExpr::Equals(l, r) => operand_text(*l, vars) == operand_text(*r, vars),
    }
}

/// The text of an operand (see `operand_text`).
pub fn eval_expr(expr: &Expr, ctx: &Context) -> (r: String)
    ensures
        r@ == operand_text(expr@, ctx@),
{
    match expr {
        Expr::Identifier(name) => match ctx.get(name.as_str()) {
            Some(v) => copy_string(v),
            None => String::new(),
        },
        Expr::String(s) => copy_string(s),
        _ => String::new(),
    }
}

/// Whether `expr` holds in `ctx` (see `condition_holds`).
pub fn eval_condition(expr: &Expr, ctx: &Context) -> (r: bool)
    ensures
        r == condition_holds(expr@, ctx@),
{
    match expr {
        Expr::Identifier(name) => ctx.get(name.as_str()).is_some(),
        Expr::String(_) => true,
        Expr::NotEquals(lhs, rhs) => {
            let a = eval_expr(lhs, ctx);
            let b = eval_expr(rhs, ctx);
            a != b
        },
        Expr::Equals(lhs, rhs) => {
            let a = eval_expr(lhs, ctx);
            let b = eval_expr(rhs, ctx);
            a == b
        },
    }
}

/// `!=` holds exactly where `==` on the same operands does not.
pub proof fn law_not_equals_negates(l: SExpr, r: SExpr, vars: Seq<(Seq<char>, Seq<char>)>)
    ensures
        condition_holds(SExpr::NotEquals(Box::new(l), Box::new(r)), vars) == !condition_holds(
            SExpr::Equals(Box::new(l), Box::new(r)),
            vars,
        ),
{
}

/// An argument quoted for a shell command line: in double quotes, each
/// double quote inside written twice.
pub open spec fn quoted(arg: Seq<char>) -> Seq<char> {
    seq!['"'] + replace_all(arg, seq!['"'], seq!['"', '"']) + seq!['"']
}

/// Quotes `arg` (see `quoted`).
pub fn quote_arg(arg: &str) -> (r: String)
    ensures
        r@ == quoted(arg@),
{
    proof {
        reveal_strlit("\"");
        reveal_strlit("\"\"");
        assert("\""@ =~= seq!['"']);
        assert("\"\""@ =~= seq!['"', '"']);
    }
    let escaped = replace(arg, "\"", "\"\"");
    let mut out = string_of("\"");
    push_all(&mut out, escaped.as_str());
    push_all(&mut out, "\"");
    assert(out@ =~= quoted(arg@));
    out
}

/// The text between the quotes of a quoted argument read back: each pair
/// of double quotes stands for one.
pub open spec fn unescaped(t: Seq<char>) -> Seq<char>
    decreases t.len(),
{
    if t.len() == 0 {
        t
    } else if t.len() >= 2 && t[0] == '"' && t[1] == '"' {
        seq!['"'] + unescaped(t.skip(2))
    } else {
        seq![t[0]] + unescaped(t.skip(1))
    }
}

/// The text of an argument quoted by `quote_arg`, read back.
pub open spec fn unquoted(t: Seq<char>) -> Seq<char> {
    unescaped(t.subrange(1, t.len() - 1))
}

proof fn lemma_unescape_escaped(s: Seq<char>)
    ensures
        unescaped(replace_all(s, seq!['"'], seq!['"', '"'])) == s,
    decreases s.len(),
{
    let q = seq!['"'];
    let qq = seq!['"', '"'];
    if s.len() > 0 {
        lemma_unescape_escaped(s.skip(1));
        let rest = replace_all(s.skip(1), q, qq);
        if s[0] == '"' {
            assert(s.subrange(0, 1) =~= q);
            assert(starts_at(s, 0, q));
            let t = qq + rest;
            assert(t.skip(2) =~= rest);
            assert(seq!['"'] + s.skip(1) =~= s);
        } else {
            assert(s.subrange(0, 1)[0] == s[0]);
            assert(!starts_at(s, 0, q));
            let t = seq![s[0]] + rest;
            assert(t.skip(1) =~= rest);
            assert(seq![s[0]] + s.skip(1) =~= s);
        }
    }
}

/// Quoting can be undone: reading back a quoted argument gives the
/// argument, so distinct arguments are quoted differently.
pub proof fn law_quote_roundtrip(arg: Seq<char>)
    ensures
        quoted(arg).len() >= 2,
        quoted(arg)[0] == '"',
        quoted(arg).last() == '"',
        unquoted(quoted(arg)) == arg,
{
    let e = replace_all(arg, seq!['"'], seq!['"', '"']);
    let t = quoted(arg);
    assert(t.subrange(1, t.len() - 1) =~= e);
    lemma_unescape_escaped(arg);
}

/// Each word interpolated.
pub open spec fn interpolated_all(words: Seq<Seq<char>>, vars: Seq<(Seq<char>, Seq<char>)>) -> Seq<Seq<char>> {
    words.map_values(|w: Seq<char>| interpolated(w, vars))
}

/// The words a step's arguments stand for: the list, or the branch that
/// the condition selects (none when it fails and there is no else branch),
/// each interpolated.
pub open spec fn resolved(a: SArguments, vars: Seq<(Seq<char>, Seq<char>)>) -> Seq<Seq<char>> {
    match a {
        SArguments::List(l) => interpolated_all(l, vars),
        SArguments::Conditional(c, t, e) => if condition_holds(c, vars) {
            interpolated_all(t, vars)
        } else {
            match e {
                Some(x) => interpolated_all(x, vars),
                None => Seq::empty(),
            }
        },
    }
}

fn interpolate_all(words: &Vec<String>, ctx: &Context) -> (r: Vec<String>)
    ensures
        strings_view(r@) == interpolated_all(strings_view(words@), ctx@),
{
    let mut out: Vec<String> = Vec::new();
    let mut i: usize = 0;
    while i < words.len()
        invariant
            i <= words@.len(),
            strings_view(out@) == interpolated_all(strings_view(words@).take(i as int), ctx@),
        decreases words@.len() - i,
    {
        let w = interpolate(words[i].as_str(), ctx);
        let ghost before = out@;
        out.push(w);
        proof {
            assert(strings_view(out@) =~= strings_view(before).push(w@));
            assert(strings_view(words@).take(i + 1) =~= strings_view(words@).take(i as int).push(words@[i as int]@));
            assert(interpolated_all(strings_view(words@).take(i + 1), ctx@) =~= interpolated_all(
                strings_view(words@).take(i as int),
                ctx@,
            ).push(w@));
        }
        i = i + 1;
    }
    proof {
        assert(strings_view(words@).take(i as int) =~= strings_view(words@));
    }
    out
}

/// The words of a step's arguments (see `resolved`).
pub fn resolve_arguments(args: &Arguments, ctx: &Context) -> (r: Vec<String>)
    ensures
        strings_view(r@) == resolved(args@, ctx@),
{
    match args {
        Arguments::List(list) => interpolate_all(list, ctx),
        Arguments::Conditional { condition, then_args, else_args } => {
            if eval_condition(condition, ctx) {
                interpolate_all(then_args, ctx)
            } else {
                match else_args {
                    Some(e) => interpolate_all(e, ctx),
                    None => {
                        let empty: Vec<String> = Vec::new();
                        assert(strings_view(empty@) =~= Seq::<Seq<char>>::empty());
                        empty
                    },
                }
            }
        },
    }
}

/// The command line that a shell runs: the command, then each argument
/// quoted, separated by spaces.
pub open spec fn command_line(command: Seq<char>, args: Seq<Seq<char>>) -> Seq<char>
    decreases args.len(),
{
    if args.len() == 0 {
        command
    } else {
        command_line(command, args.drop_last()) + " "@ + quoted(args.last())
    }
}

/// The command line for `command` and `args` (see `command_line`).
pub fn full_command(command: &str, args: &Vec<String>) -> (r: String)
    ensures
        r@ == command_line(command@, strings_view(args@)),
{
    let mut out = string_of(command);
    let mut i: usize = 0;
    while i < args.len()
        invariant
            i <= args@.len(),
            out@ == command_line(command@, strings_view(args@).take(i as int)),
        decreases args@.len() - i,
    {
        push_all(&mut out, " ");
        let q = quote_arg(args[i].as_str());
        push_all(&mut out, q.as_str());
        proof {
            reveal_strlit(" ");
            assert(strings_view(args@).take(i + 1).drop_last() =~= strings_view(args@).take(i as int));
        }
        i = i + 1;
    }
    proof {
        assert(strings_view(args@).take(i as int) =~= strings_view(args@));
    }
    out
}

/// The shell that a workflow's commands run in: the one its `env` names,
/// else the platform's default.
pub open spec fn workflow_shell(m: Option<(Option<Seq<char>>, Option<Seq<char>>, Seq<(Seq<char>, Seq<char>)>)>, windows: bool) -> Seq<char> {
    match m {
        Some((Some(s), _, _)) => s,
        _ => default_shell(windows),
    }
}

/// What running `command` with `args` for a workflow starts. Elsewhere
/// than on Windows: the shell with `-c` and the command line. On Windows:
/// PowerShell (for the shells `pwsh` and `powershell`) with `-NoProfile
/// -Command` and the command line, `cmd` with `/C` and the command line,
/// and for any other shell the command itself with its arguments.
pub open spec fn shell_invocation(shell: Seq<char>, command: Seq<char>, args: Seq<Seq<char>>, windows: bool) -> (Seq<char>, Seq<Seq<char>>) {
    let line = command_line(command, args);
    if windows {
        if shell == "pwsh"@ || shell == "powershell"@ {
            ("pwsh"@, seq!["-NoProfile"@, "-Command"@, line])
        } else if shell == "cmd"@ {
            ("cmd"@, seq!["/C"@, line])
        } else {
            (command, args)
        }
    } else {
        (shell, seq!["-c"@, line])
    }
}

/// What running `command` with `args` for `manifest` starts (see
/// `shell_invocation`); `windows` tells the platform. The working
/// directory and the variables of the workflow's `env` apply to it.
pub fn run_command(manifest: &WorkflowSchema, command: &str, args: &Vec<String>, windows: bool) -> (r: Invocation)
    ensures
        r@ == shell_invocation(
            workflow_shell(manifest@.env, windows),
            command@,
            strings_view(args@),
            windows,
        ),
        match manifest@.env {
            Some((_, cwd, vars)) => (match r.cwd {
                Some(d) => cwd == Some(d@),
                None => cwd is None,
            }) && vars_view(r.env@) == vars,
            None => r.cwd is None && r.env@.len() == 0,
        },
{
    let base = shell_program(manifest, command, args, windows);
    let (cwd, env) = match &manifest.env {
        Some(e) => {
            let cwd = match &e.cwd {
                Some(d) => Some(copy_string(d)),
                None => None,
            };
            (cwd, copy_pairs(&e.vars))
        },
        None => (None, Vec::new()),
    };
    Invocation { program: base.program, args: base.args, cwd, env }
}

fn shell_program(manifest: &WorkflowSchema, command: &str, args: &Vec<String>, windows: bool) -> (r: Invocation)
    ensures
        r@ == shell_invocation(
            workflow_shell(manifest@.env, windows),
            command@,
            strings_view(args@),
            windows,
        ),
{
    let shell = match &manifest.env {
        Some(e) => match &e.shell {
            Some(s) => copy_string(s),
            None => if windows {
                string_of("pwsh")
            } else {
                string_of("sh")
            },
        },
        None => if windows {
            string_of("pwsh")
        } else {
            string_of("sh")
        },
    };
    assert(shell@ == workflow_shell(manifest@.env, windows));
    let full_cmd = full_command(command, args);
    if windows {
        if shell == string_of("pwsh") || shell == string_of("powershell") {
            let mut v: Vec<String> = Vec::new();
            v.push(string_of("-NoProfile"));
            v.push(string_of("-Command"));
            v.push(full_cmd);
            let r = Invocation { program: string_of("pwsh"), args: v, cwd: None, env: Vec::new() };
            assert(strings_view(r.args@) =~= seq!["-NoProfile"@, "-Command"@, full_cmd@]);
            r
        } else if shell == string_of("cmd") {
            let mut v: Vec<String> = Vec::new();
            v.push(string_of("/C"));
            v.push(full_cmd);
            let r = Invocation { program: string_of("cmd"), args: v, cwd: None, env: Vec::new() };
            assert(strings_view(r.args@) =~= seq!["/C"@, full_cmd@]);
            r
        } else {
            let mut v: Vec<String> = Vec::new();
            let mut i: usize = 0;
            while i < args.len()
                invariant
                    i <= args@.len(),
                    strings_view(v@) == strings_view(args@).take(i as int),
                decreases args@.len() - i,
            {
                let ghost before = v@;
                v.push(copy_string(&args[i]));
                proof {
                    assert(strings_view(v@) =~= strings_view(before).push(args@[i as int]@));
                    assert(strings_view(args@).take(i + 1) =~= strings_view(args@).take(i as int).push(args@[i as int]@));
                }
                i = i + 1;
            }
            assert(strings_view(args@).take(i as int) =~= strings_view(args@));
            Invocation { program: string_of(command), args: v, cwd: None, env: Vec::new() }
        }
    } else {
        let mut v: Vec<String> = Vec::new();
        v.push(string_of("-c"));
        v.push(full_cmd);
        let r = Invocation { program: shell, args: v, cwd: None, env: Vec::new() };
        assert(strings_view(r.args@) =~= seq!["-c"@, full_cmd@]);
        r
    }
}

/// A condition compares texts: `==` holds exactly when its operands'
/// texts are identical and `!=` exactly when they differ, a set variable
/// standing for its value and an unset one for the empty text; a variable
/// alone holds when it is set.
pub proof fn law_conditions_compare_texts(x: Seq<char>, y: Seq<char>, n: Seq<char>, vars: Seq<(Seq<char>, Seq<char>)>)
    ensures
        condition_holds(SExpr::Equals(Box::new(SExpr::Str(x)), Box::new(SExpr::Str(y))), vars) == (x == y),
        condition_holds(SExpr::NotEquals(Box::new(SExpr::Str(x)), Box::new(SExpr::Str(y))), vars) == (x != y),
        lookup(vars, n) == Some(x) ==> condition_holds(
            SExpr::Equals(Box::new(SExpr::Identifier(n)), Box::new(SExpr::Str(y))),
            vars,
        ) == (x == y),
        lookup(vars, n) == Some(x) ==> condition_holds(
            SExpr::NotEquals(Box::new(SExpr::Identifier(n)), Box::new(SExpr::Str(y))),
            vars,
        ) == (x != y),
        lookup(vars, n) is None ==> condition_holds(
            SExpr::Equals(Box::new(SExpr::Identifier(n)), Box::new(SExpr::Str(y))),
            vars,
        ) == (y.len() == 0),
        condition_holds(SExpr::Identifier(n), vars) == (lookup(vars, n) is Some),
{
    if lookup(vars, n) is None {
        if y.len() == 0 {
            assert(y =~= Seq::<char>::empty());
        }
    }
}

} // verus!
