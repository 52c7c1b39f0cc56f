use playback::ast::Expr;
use playback::engine::context::Context;
use playback::schemas::workflow::{decode_workflow, Arguments, DeclaredArgument, EnvConfig, Step, WorkflowSchema};
use playback::workflow::args::{
    eval_condition, eval_expr, full_command, interpolate, quote_arg, resolve_arguments, run_command,
};
use playback::workflow::create::create_workflow;
use playback::workflow::runner::{run_context, workflow_path};

fn s(x: &str) -> String {
    x.to_string()
}

fn ctx(pairs: &[(&str, &str)]) -> Context {
    Context::with(pairs.iter().map(|(k, v)| (s(k), s(v))).collect())
}

fn manifest(shell: Option<&str>) -> WorkflowSchema {
    WorkflowSchema {
        name: s("w"),
        description: s("d"),
        version: s("1"),
        author: None,
        env: shell.map(|sh| EnvConfig { shell: Some(s(sh)), cwd: None, vars: vec![] }),
        steps: vec![],
        arguments: vec![],
    }
}

#[test]
fn interpolation_replaces_placeholders() {
    let c = ctx(&[("name", "world"), ("n", "2")]);
    assert_eq!(interpolate("hello {{name}} x{{n}}{{n}} {{other}}", &c), "hello world x22 {{other}}");
    assert_eq!(interpolate("{{name}}", &Context::new()), "{{name}}");
    assert_eq!(interpolate("", &c), "");
}

#[test]
fn quoting_doubles_inner_quotes() {
    assert_eq!(quote_arg("a b"), "\"a b\"");
    assert_eq!(quote_arg("say \"hi\""), "\"say \"\"hi\"\"\"");
    assert_eq!(quote_arg(""), "\"\"");
}

#[test]
fn conditions() {
    let c = ctx(&[("os", "linux")]);
    let id = |x: &str| Expr::Identifier(s(x));
    let lit = |x: &str| Expr::String(s(x));
    assert!(eval_condition(&id("os"), &c));
    assert!(!eval_condition(&id("arch"), &c));
    assert!(eval_condition(&lit(""), &c));
    assert!(eval_condition(&Expr::Equals(Box::new(id("os")), Box::new(lit("linux"))), &c));
    assert!(eval_condition(&Expr::NotEquals(Box::new(id("arch")), Box::new(lit("x"))), &c));
    assert!(eval_condition(&Expr::Equals(Box::new(id("arch")), Box::new(lit(""))), &c));
    assert_eq!(eval_expr(&id("os"), &c), "linux");
    assert_eq!(eval_expr(&id("arch"), &c), "");
    assert_eq!(eval_expr(&Expr::Equals(Box::new(id("os")), Box::new(id("os"))), &c), "");
}

#[test]
fn arguments_resolve_against_the_context() {
    let c = ctx(&[("os", "linux")]);
    let list = Arguments::List(vec![s("{{os}}"), s("x")]);
    assert_eq!(resolve_arguments(&list, &c), vec![s("linux"), s("x")]);
    let cond = |else_args: Option<Vec<String>>| Arguments::Conditional {
        condition: Expr::Equals(Box::new(Expr::Identifier(s("os"))), Box::new(Expr::String(s("mac")))),
        then_args: vec![s("then")],
        else_args,
    };
    assert_eq!(resolve_arguments(&cond(Some(vec![s("else {{os}}")])), &c), vec![s("else linux")]);
    assert_eq!(resolve_arguments(&cond(None), &c), Vec::<String>::new());
}

#[test]
fn command_lines() {
    assert_eq!(full_command("echo", &vec![s("a b"), s("c")]), "echo \"a b\" \"c\"");
    assert_eq!(full_command("ls", &vec![]), "ls");
}

#[test]
fn shells_elsewhere_than_windows() {
    let inv = run_command(&manifest(None), "echo", &vec![s("hi")], false);
    assert_eq!(inv.program, "sh");
    assert_eq!(inv.args, vec![s("-c"), s("echo \"hi\"")]);
    let inv = run_command(&manifest(Some("bash")), "echo", &vec![], false);
    assert_eq!(inv.program, "bash");
    assert_eq!(inv.args, vec![s("-c"), s("echo")]);
}

#[test]
fn shells_on_windows() {
    let inv = run_command(&manifest(None), "echo", &vec![s("hi")], true);
    assert_eq!(inv.program, "pwsh");
    assert_eq!(inv.args, vec![s("-NoProfile"), s("-Command"), s("echo \"hi\"")]);
    let inv = run_command(&manifest(Some("powershell")), "echo", &vec![], true);
    assert_eq!(inv.program, "pwsh");
    let inv = run_command(&manifest(Some("cmd")), "dir", &vec![s("x")], true);
    assert_eq!(inv.program, "cmd");
    assert_eq!(inv.args, vec![s("/C"), s("dir \"x\"")]);
    let inv = run_command(&manifest(Some("bash")), "ls", &vec![s("-l")], true);
    assert_eq!(inv.program, "ls");
    assert_eq!(inv.args, vec![s("-l")]);
}

#[test]
fn run_variables_come_from_env_then_arguments() {
    let mut m = manifest(None);
    m.env = Some(EnvConfig { shell: None, cwd: None, vars: vec![(s("who"), s("env")), (s("x"), s("1"))] });
    let c = run_context(&m, &vec![s("My title"), s("who=cli"), s("a=b=c"), s("ignored")]).unwrap();
    assert_eq!(c.get("who"), Some(&s("cli")));
    assert_eq!(c.get("x"), Some(&s("1")));
    assert_eq!(c.get("title"), Some(&s("My title")));
    assert_eq!(c.get("a"), Some(&s("b=c")));
    assert_eq!(c.get("description"), None);
    let d = run_context(&manifest(None), &vec![s("t"), s("d"), s("e")]).unwrap();
    assert_eq!(d.vars, vec![(s("title"), s("t")), (s("description"), s("d"))]);
}

#[test]
fn paths_and_creation() {
    assert_eq!(workflow_path("build"), ".playback/workflows/build.toml");
    assert!(create_workflow("x").is_ok());
}

const README_EXAMPLE: &str = "name = \"example\"
description = \"example playback workflow\"
version = \"0.1.0\"
author = \"user\"

[workflow.env]
shell = \"pwsh\"

[workflow.arguments.message]
name = \"arg1\"
type = \"positional\"
required = true

[workflow.steps.step1]
command = \"echo\"
arguments = ['{{arg1}}']
order = 1
";

#[test]
fn readme_example_decodes() {
    let w = decode_workflow(README_EXAMPLE).unwrap();
    assert_eq!(w.name, "example");
    assert_eq!(w.description, "example playback workflow");
    assert_eq!(w.version, "0.1.0");
    assert_eq!(w.author, Some(s("user")));
    let env = w.env.as_ref().unwrap();
    assert_eq!(env.shell, Some(s("pwsh")));
    assert_eq!(env.cwd, None);
    assert!(env.vars.is_empty());
    assert_eq!(w.steps.len(), 1);
    let step: &Step = &w.steps[0];
    assert_eq!((step.name.as_str(), step.command.as_str(), step.order), ("step1", "echo", 1));
    match &step.arguments {
        Arguments::List(l) => assert_eq!(l, &vec![s("{{arg1}}")]),
        other => panic!("unexpected {:?}", other),
    }
    assert_eq!(w.arguments.len(), 1);
    assert_eq!(w.arguments[0].name, "arg1");
    assert_eq!(w.arguments[0].kind, "positional");
    assert!(w.arguments[0].required);
    let c = run_context(&w, &vec![s("input")]).unwrap();
    let args = resolve_arguments(&step.arguments, &c);
    assert_eq!(args, vec![s("input")]);
    let inv = run_command(&w, &step.command, &args, false);
    assert_eq!(inv.program, "pwsh");
    assert_eq!(inv.args, vec![s("-c"), s("echo \"input\"")]);
    let c2 = run_context(&w, &vec![s("arg1=given")]).unwrap();
    assert_eq!(resolve_arguments(&step.arguments, &c2), vec![s("given")]);
    assert_eq!(run_context(&w, &vec![]).unwrap_err(), "missing required argument 'arg1'");
}

#[test]
fn steps_run_in_order_and_ties_keep_their_place() {
    let doc = "name = \"n\"\ndescription = \"d\"\nversion = \"v\"\n[workflow.steps.c]\ncommand = \"c\"\narguments = []\norder = 2\n[workflow.steps.a]\ncommand = \"a\"\narguments = []\norder = 1\n[workflow.steps.b]\ncommand = \"b\"\narguments = []\norder = 2\n[workflow.steps.z]\ncommand = \"z\"\narguments = []\norder = 0\n";
    let w = decode_workflow(doc).unwrap();
    let names: Vec<&str> = w.steps.iter().map(|st| st.name.as_str()).collect();
    assert_eq!(names, vec!["z", "a", "c", "b"]);
    assert!(w.env.is_none());
    assert_eq!(w.author, None);
}

#[test]
fn env_variables_and_conditional_arguments() {
    let doc = "name = \"n\"\ndescription = \"d\"\nversion = \"v\"\n[workflow.env]\ncwd = \"/tmp\"\nenv = { A = \"1\", B = \"2\" }\n[workflow.steps.s]\ncommand = \"x\"\narguments = if os == \"linux\" { [\"l\"] } else { [\"o\"] }\norder = 0\n";
    let w = decode_workflow(doc).unwrap();
    let env = w.env.as_ref().unwrap();
    assert_eq!(env.cwd, Some(s("/tmp")));
    assert_eq!(env.shell, None);
    assert_eq!(env.vars, vec![(s("A"), s("1")), (s("B"), s("2"))]);
    match &w.steps[0].arguments {
        Arguments::Conditional { then_args, else_args, .. } => {
            assert_eq!(then_args, &vec![s("l")]);
            assert_eq!(else_args, &Some(vec![s("o")]));
        }
        other => panic!("unexpected {:?}", other),
    }
}

fn decode_err(doc: &str) -> String {
    decode_workflow(doc).unwrap_err().display()
}

#[test]
fn workflow_errors() {
    let head = "name = \"n\"\ndescription = \"d\"\nversion = \"v\"\n";
    assert_eq!(decode_err("description = \"d\""), "missing required key 'name'");
    assert_eq!(decode_err("name = 1"), "expected 'name' to be a string");
    assert_eq!(decode_err(head), "missing required table 'workflow'");
    assert_eq!(decode_err(&format!("{head}workflow = 1")), "expected 'workflow' to be a table");
    assert_eq!(decode_err(&format!("{head}[workflow]\nenv = 1")), "workflow.env must be a table");
    assert_eq!(decode_err(&format!("{head}[workflow]\nx = 1")), "missing required table 'steps'");
    assert_eq!(
        decode_err(&format!("{head}[workflow.env]\nenv = {{ A = 1 }}\n[workflow.steps]")),
        "env var 'A' must be string"
    );
    assert_eq!(decode_err(&format!("{head}[workflow.steps]\ns = 1")), "step 's' must be a table");
    assert_eq!(
        decode_err(&format!("{head}[workflow.steps.s]\ncommand = \"x\"\narguments = []")),
        "step 's' is missing required field 'order'"
    );
    assert_eq!(
        decode_err(&format!("{head}[workflow.steps.s]\ncommand = \"x\"\narguments = []\norder = -1")),
        "step 's' order must be a non-negative integer"
    );
    assert_eq!(
        decode_err(&format!("{head}[workflow.steps.s]\ncommand = \"x\"\norder = 1")),
        "missing 'arguments'"
    );
    assert_eq!(
        decode_err(&format!("{head}[workflow.steps.s]\ncommand = \"x\"\narguments = [1]\norder = 1")),
        "arguments must be strings"
    );
    assert_eq!(
        decode_err(&format!("{head}[workflow.steps.s]\ncommand = \"x\"\narguments = 1\norder = 1")),
        "invalid arguments type"
    );
    assert_eq!(
        decode_err(&format!("{head}[workflow.steps.s]\ncommand = \"x\"\narguments = if a == b {{ 1 }}\norder = 1")),
        "expected array"
    );
    assert_eq!(
        decode_err(&format!("{head}[workflow.steps.s]\ncommand = \"x\"\narguments = if a == b {{ [1] }}\norder = 1")),
        "array must contain only strings"
    );
    assert!(decode_err("a = ").starts_with("parse error at line 1"));
}

#[test]
fn not_equals_is_the_negation_of_equals() {
    let c = ctx(&[("a", "1"), ("b", "2")]);
    let pairs = [("a", "b"), ("a", "a"), ("a", "zzz"), ("zzz", "yyy")];
    for (l, r) in pairs {
        let eq = Expr::Equals(Box::new(Expr::Identifier(s(l))), Box::new(Expr::Identifier(s(r))));
        let ne = Expr::NotEquals(Box::new(Expr::Identifier(s(l))), Box::new(Expr::Identifier(s(r))));
        assert_eq!(eval_condition(&ne, &c), !eval_condition(&eq, &c));
    }
}

#[test]
fn commands_run_in_the_workflow_environment() {
    let mut m = manifest(Some("sh"));
    m.env = Some(EnvConfig { shell: None, cwd: Some(s("/work")), vars: vec![(s("A"), s("1"))] });
    let inv = run_command(&m, "make", &vec![], false);
    assert_eq!(inv.program, "sh");
    assert_eq!(inv.cwd, Some(s("/work")));
    assert_eq!(inv.env, vec![(s("A"), s("1"))]);
    let plain = run_command(&manifest(None), "make", &vec![], false);
    assert_eq!(plain.cwd, None);
    assert!(plain.env.is_empty());
}

#[test]
fn declared_arguments_bind_bare_command_line_arguments_in_order() {
    let mut m = manifest(None);
    m.arguments = vec![
        DeclaredArgument { name: s("first"), kind: s("positional"), required: true },
        DeclaredArgument { name: s("flag"), kind: s("named"), required: false },
        DeclaredArgument { name: s("second"), kind: s("positional"), required: false },
    ];
    let c = run_context(&m, &vec![s("a"), s("x=1"), s("b")]).unwrap();
    assert_eq!(c.get("first"), Some(&s("a")));
    assert_eq!(c.get("second"), Some(&s("b")));
    assert_eq!(c.get("flag"), None);
    assert_eq!(c.get("title"), Some(&s("a")));
    let only_named = run_context(&m, &vec![s("first=z")]).unwrap();
    assert_eq!(only_named.get("first"), Some(&s("z")));
    assert_eq!(run_context(&m, &vec![s("x=1")]).unwrap_err(), "missing required argument 'first'");
}

#[test]
fn malformed_argument_declarations_are_skipped() {
    let head = "name = \"n\"\ndescription = \"d\"\nversion = \"v\"\n[workflow]\nsteps = {}\n";
    let count = |tail: &str| decode_workflow(&format!("{head}{tail}")).unwrap().arguments.len();
    assert_eq!(count("arguments = 1"), 0);
    assert_eq!(count("[workflow.arguments]\na = 1"), 0);
    assert_eq!(count("[workflow.arguments.a]\ntype = \"positional\""), 0);
    assert_eq!(count("[workflow.arguments.a]\nname = \"x\"\ntype = 1"), 0);
    assert_eq!(count("[workflow.arguments.a]\nname = \"x\"\nrequired = \"yes\""), 0);
    let w = decode_workflow(&format!("{head}[workflow.arguments.a]\nname = \"x\"\n[workflow.arguments.b]\nname = 2\n[workflow.arguments.c]\nname = \"y\"\ntype = \"named\"\nrequired = true")).unwrap();
    assert_eq!(w.arguments.len(), 2);
    assert_eq!((w.arguments[0].name.as_str(), w.arguments[0].kind.as_str(), w.arguments[0].required), ("x", "positional", false));
    assert_eq!((w.arguments[1].name.as_str(), w.arguments[1].kind.as_str(), w.arguments[1].required), ("y", "named", true));
}
