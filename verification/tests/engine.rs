use playback::ast::{Expr, Value};
use playback::engine::context::Context;
use playback::engine::eval::{eval_expr, eval_value};
use playback::engine::exec::{prepare_step, step_tables, workflow_steps};
use playback::parse;

fn s(x: &str) -> String {
    x.to_string()
}

fn ctx(pairs: &[(&str, &str)]) -> Context {
    Context::with(pairs.iter().map(|(k, v)| (s(k), s(v))).collect())
}

fn eq(a: Expr, b: Expr) -> Expr {
    Expr::Equals(Box::new(a), Box::new(b))
}

fn ne(a: Expr, b: Expr) -> Expr {
    Expr::NotEquals(Box::new(a), Box::new(b))
}

#[test]
fn context_lookup() {
    let c = ctx(&[("os", "linux"), ("arch", "x86")]);
    assert_eq!(c.get("os"), Some(&s("linux")));
    assert_eq!(c.get("arch"), Some(&s("x86")));
    assert_eq!(c.get("none"), None);
    assert_eq!(Context::new().get("os"), None);
    assert_eq!(Context::default().vars.len(), 0);
}

#[test]
fn context_later_pairs_win_and_names_stay_distinct() {
    let c = ctx(&[("a", "1"), ("b", "2"), ("a", "3")]);
    assert_eq!(c.get("a"), Some(&s("3")));
    assert_eq!(c.vars, vec![(s("a"), s("3")), (s("b"), s("2"))]);
    let mut d = Context::new();
    d.insert(s("k"), s("v"));
    d.insert(s("k"), s("w"));
    assert_eq!(d.vars, vec![(s("k"), s("w"))]);
}

#[test]
fn comparisons() {
    let c = ctx(&[("os", "linux")]);
    let os = || Expr::Identifier(s("os"));
    let lit = |x: &str| Expr::String(s(x));
    assert_eq!(eval_expr(&eq(os(), lit("linux")), &c), Ok(true));
    assert_eq!(eval_expr(&eq(os(), lit("mac")), &c), Ok(false));
    assert_eq!(eval_expr(&ne(os(), lit("mac")), &c), Ok(true));
    assert_eq!(eval_expr(&ne(lit("a"), lit("a")), &c), Ok(false));
}

#[test]
fn comparison_errors() {
    let c = ctx(&[]);
    assert_eq!(
        eval_expr(&eq(Expr::Identifier(s("x")), Expr::String(s("a"))), &c),
        Err(s("unknown variable: x"))
    );
    assert_eq!(eval_expr(&Expr::Identifier(s("x")), &c), Err(s("unsupported expression")));
    let nested = eq(eq(Expr::String(s("a")), Expr::String(s("a"))), Expr::String(s("b")));
    assert_eq!(eval_expr(&nested, &c), Err(s("invalid atom")));
}

#[test]
fn conditional_values_select_a_branch() {
    let root = parse("x = [if os == \"linux\" { \"a\" } else { \"b\" }, 1]\ny = { t = if os == \"mac\" { 1 } }").unwrap();
    let linux = ctx(&[("os", "linux")]);
    let mac = ctx(&[("os", "mac")]);
    assert_eq!(
        eval_value(&root[0].1, &linux),
        Ok(Value::Array(vec![Value::String(s("a")), Value::Integer(1)]))
    );
    assert_eq!(
        eval_value(&root[0].1, &mac),
        Ok(Value::Array(vec![Value::String(s("b")), Value::Integer(1)]))
    );
    assert_eq!(eval_value(&root[1].1, &mac), Ok(Value::Table(vec![(s("t"), Value::Integer(1))])));
    assert_eq!(eval_value(&root[1].1, &linux), Err(s("no else branch")));
    assert_eq!(eval_value(&Value::Integer(5), &linux), Ok(Value::Integer(5)));
}

#[test]
fn evaluating_twice_changes_nothing() {
    let root = parse("x = [if a == \"1\" { { k = [1, if a != \"2\" { 3 }] } } else { 0 }]").unwrap();
    let c = ctx(&[("a", "1")]);
    let once = eval_value(&root[0].1, &c).unwrap();
    assert_eq!(eval_value(&once, &c), Ok(once.duplicate()));
}

#[test]
fn steps_become_invocations() {
    let root = parse(
        "[workflow.steps.build]\ncommand = \"cargo\"\narguments = if os == \"linux\" { [\"build\", \"--target={{os}}\"] } else { [] }\n",
    )
    .unwrap();
    let steps = workflow_steps(&root).unwrap();
    let table = step_tables(steps).unwrap();
    let inv = prepare_step(&table[0].1, &ctx(&[("os", "linux")])).unwrap();
    assert_eq!(inv.program, "cargo");
    assert_eq!(inv.args, vec![s("build"), s("--target=linux")]);
    let none = prepare_step(&table[0].1, &ctx(&[("os", "mac")])).unwrap();
    assert_eq!(none.args, Vec::<String>::new());
}

#[test]
fn step_errors() {
    let c = ctx(&[]);
    assert_eq!(prepare_step(&Value::Integer(1), &c).unwrap_err(), "step must be a table");
    let no_cmd = Value::Table(vec![(s("command"), Value::Integer(1))]);
    assert_eq!(prepare_step(&no_cmd, &c).unwrap_err(), "missing command");
    let bad_args = Value::Table(vec![(s("command"), Value::String(s("x"))), (s("arguments"), Value::Integer(1))]);
    assert_eq!(prepare_step(&bad_args, &c).unwrap_err(), "arguments must be array");
    let bad_items = Value::Table(vec![
        (s("command"), Value::String(s("x"))),
        (s("arguments"), Value::Array(vec![Value::Integer(1)])),
    ]);
    assert_eq!(prepare_step(&bad_items, &c).unwrap_err(), "arguments must be strings");
    let no_args = Value::Table(vec![(s("command"), Value::String(s("ls")))]);
    assert_eq!(prepare_step(&no_args, &c).unwrap().args.len(), 0);
    assert_eq!(step_tables(&Value::Integer(1)).unwrap_err(), "steps must be a table");
}

#[test]
fn workflow_lookup_errors() {
    assert_eq!(workflow_steps(&parse("a = 1").unwrap()).unwrap_err(), "missing workflow");
    assert_eq!(workflow_steps(&parse("workflow = 1").unwrap()).unwrap_err(), "missing workflow");
    assert_eq!(workflow_steps(&parse("[workflow]\nx = 1").unwrap()).unwrap_err(), "missing steps");
}
