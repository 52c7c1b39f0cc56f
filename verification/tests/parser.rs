use playback::ast::{Expr, Value};
use playback::parse;
use playback::parser::cursor::Parser;

fn s(x: &str) -> String {
    x.to_string()
}

fn entry(k: &str, v: Value) -> (String, Value) {
    (s(k), v)
}

#[test]
fn parses_scalars_at_the_root() {
    let root = parse("a = 1\nb = \"x\"\nc = true\nd = false").unwrap();
    assert_eq!(
        root,
        vec![
            entry("a", Value::Integer(1)),
            entry("b", Value::String(s("x"))),
            entry("c", Value::Boolean(true)),
            entry("d", Value::Boolean(false)),
        ]
    );
}

#[test]
fn table_headers_group_keys() {
    let root = parse("[server]\nhost = \"h\"\nport = 80\n").unwrap();
    assert_eq!(
        root,
        vec![entry(
            "server",
            Value::Table(vec![entry("host", Value::String(s("h"))), entry("port", Value::Integer(80))])
        )]
    );
}

#[test]
fn dotted_keys_create_tables() {
    let root = parse("a.b.c = 1\na.d = 2").unwrap();
    assert_eq!(
        root,
        vec![entry(
            "a",
            Value::Table(vec![
                entry("b", Value::Table(vec![entry("c", Value::Integer(1))])),
                entry("d", Value::Integer(2)),
            ])
        )]
    );
}

#[test]
fn arrays_of_tables_collect_entries() {
    let root = parse("[[steps]]\nname = \"a\"\n[[steps]]\nname = \"b\"\n").unwrap();
    assert_eq!(
        root,
        vec![entry(
            "steps",
            Value::Array(vec![
                Value::Table(vec![entry("name", Value::String(s("a")))]),
                Value::Table(vec![entry("name", Value::String(s("b")))]),
            ])
        )]
    );
}

#[test]
fn duplicate_key_is_an_error_at_the_end_of_its_line() {
    let e = parse("a = 1\na = 2").unwrap_err();
    assert_eq!(e.message, "duplicate key: a");
    assert_eq!(e.line, 2);
    assert_eq!(e.column, 6);
    assert_eq!(e.snippet, "a = 2");
}

#[test]
fn missing_equals_sign_is_reported_where_it_was_expected() {
    let e = parse("a 1").unwrap_err();
    assert_eq!(e.message, "expected '='");
    assert_eq!(e.line, 1);
    assert_eq!(e.column, 3);
    assert_eq!(e.snippet, "a 1");
    assert_eq!(e.display(), "parse error at line 1, column 3: expected '='. line: `\"a 1\"`");
}

#[test]
fn unclosed_headers_are_errors() {
    assert_eq!(parse("[a").unwrap_err().message, "expected ']'");
    assert_eq!(parse("[[a]").unwrap_err().message, "expected ']]'");
}

#[test]
fn a_key_over_a_value_is_not_a_table() {
    let e = parse("a = 1\na.b = 2").unwrap_err();
    assert_eq!(e.message, "key a is not a table");
}

#[test]
fn conditionals_keep_both_branches() {
    let root = parse("x = if os == \"linux\" { \"a\" } else { \"b\" }").unwrap();
    assert_eq!(
        root,
        vec![entry(
            "x",
            Value::Conditional {
                condition: Expr::Equals(Box::new(Expr::Identifier(s("os"))), Box::new(Expr::String(s("linux")))),
                then_branch: Box::new(Value::String(s("a"))),
                else_branch: Some(Box::new(Value::String(s("b")))),
            }
        )]
    );
}

#[test]
fn conditional_without_else_and_not_equals() {
    let root = parse("x = if a != b { [1] }").unwrap();
    assert_eq!(
        root,
        vec![entry(
            "x",
            Value::Conditional {
                condition: Expr::NotEquals(Box::new(Expr::Identifier(s("a"))), Box::new(Expr::Identifier(s("b")))),
                then_branch: Box::new(Value::Array(vec![Value::Integer(1)])),
                else_branch: None,
            }
        )]
    );
}

#[test]
fn block_values_wrap_a_value_in_braces() {
    let root = parse("x = { if a == \"b\" { 1 } else { 2 } }").unwrap();
    match &root[0].1 {
        Value::Conditional { then_branch, else_branch, .. } => {
            assert_eq!(**then_branch, Value::Integer(1));
            assert_eq!(else_branch.as_deref(), Some(&Value::Integer(2)));
        }
        other => panic!("unexpected {:?}", other),
    }
    let root = parse("y = { [1, 2] }").unwrap();
    assert_eq!(root, vec![entry("y", Value::Array(vec![Value::Integer(1), Value::Integer(2)]))]);
}

#[test]
fn strings_and_escapes() {
    let root = parse("a = \"x\\ty\\u0041\"\nb = 'c:\\path'\nc = \"\"\"\nline1\nline2\"\"\"\nd = '''\nraw\\n'''").unwrap();
    assert_eq!(root[0].1, Value::String(s("x\tyA")));
    assert_eq!(root[1].1, Value::String(s("c:\\path")));
    assert_eq!(root[2].1, Value::String(s("line1\nline2")));
    assert_eq!(root[3].1, Value::String(s("raw\\n")));
}

#[test]
fn bad_escapes_are_errors() {
    assert_eq!(parse("a = \"\\q\"").unwrap_err().message, "invalid escape: Some('q')");
    assert_eq!(parse("a = \"\\uZZZZ\"").unwrap_err().message, "invalid unicode escape");
    assert_eq!(parse("a = \"\\uD800\"").unwrap_err().message, "invalid unicode codepoint");
}

#[test]
fn integers_in_every_radix() {
    let root = parse("a = 0xff\nb = 0o17\nc = 0b101\nd = 1_000\ne = -5\nf = +7").unwrap();
    let got: Vec<Value> = root.into_iter().map(|(_, v)| v).collect();
    assert_eq!(
        got,
        vec![
            Value::Integer(255),
            Value::Integer(15),
            Value::Integer(5),
            Value::Integer(1000),
            Value::Integer(-5),
            Value::Integer(7),
        ]
    );
}

#[test]
fn bad_numbers_are_errors() {
    assert_eq!(parse("a = abc").unwrap_err().message, "invalid value: abc");
    assert_eq!(parse("a = 0xzz").unwrap_err().message, "invalid hex: 0xzz");
    assert_eq!(parse("a = 1.2.3").unwrap_err().message, "invalid float: 1.2.3");
    assert_eq!(parse("a = 99999999999999999999").unwrap_err().message, "invalid value: 99999999999999999999");
}

#[test]
fn floats_keep_their_text() {
    let root = parse("a = 1.5\nb = 1_0.5\nc = inf\nd = -nan\ne = 2e3").unwrap();
    let got: Vec<Value> = root.into_iter().map(|(_, v)| v).collect();
    assert_eq!(
        got,
        vec![
            Value::Float(s("1.5")),
            Value::Float(s("10.5")),
            Value::Float(s("inf")),
            Value::Float(s("-nan")),
            Value::Float(s("2e3")),
        ]
    );
}

#[test]
fn inline_tables_and_arrays() {
    let root = parse("t = {a = 1, b.c = \"x\"}\narr = [\n  1, # one\n  2,\n]\n").unwrap();
    assert_eq!(
        root,
        vec![
            entry(
                "t",
                Value::Table(vec![
                    entry("a", Value::Integer(1)),
                    entry("b", Value::Table(vec![entry("c", Value::String(s("x")))])),
                ])
            ),
            entry("arr", Value::Array(vec![Value::Integer(1), Value::Integer(2)])),
        ]
    );
    assert_eq!(parse("t = {}").unwrap(), vec![entry("t", Value::Table(vec![]))]);
    assert_eq!(parse("t = {a = \"1\" b = 2}").unwrap_err().message, "expected ',' or '}' in inline table");
    assert_eq!(parse("a = [\"1\" \"2\"]").unwrap_err().message, "expected ',' or ']' in array");
    assert_eq!(parse("a = [1 2]").unwrap_err().message, "invalid value: 1 2");
}

#[test]
fn comments_and_blank_lines_are_skipped() {
    let root = parse("# head\n\n  a = 1 # tail\r\n\n# end\n").unwrap();
    assert_eq!(root, vec![entry("a", Value::Integer(1))]);
    assert_eq!(parse("").unwrap(), vec![]);
}

#[test]
fn quoted_keys() {
    let root = parse("\"a b\" = 1\n'c.d' = 2").unwrap();
    assert_eq!(root, vec![entry("a b", Value::Integer(1)), entry("c.d", Value::Integer(2))]);
}

#[test]
fn cursor_moves_over_lines() {
    let mut p = Parser::new("ab\ncd");
    assert_eq!(p.peek(), Some('a'));
    assert_eq!(p.advance(), Some('a'));
    assert_eq!(p.advance(), Some('b'));
    assert_eq!(p.advance(), Some('\n'));
    assert_eq!((p.line, p.column), (2, 1));
    assert_eq!(p.remaining(), "cd");
    assert_eq!(p.current_line(), "cd");
    assert!(p.starts_with("cd"));
    p.advance_by(2);
    assert_eq!(p.advance(), None);
    assert_eq!((p.line, p.column), (2, 3));
    let e = p.err("boom");
    assert_eq!((e.message.as_str(), e.line, e.column, e.snippet.as_str()), ("boom", 2, 3, "cd"));
}

#[test]
fn cursor_skips_whitespace_and_comments() {
    let mut p = Parser::new(" \t# c\n\n  x");
    p.skip_whitespace_inline();
    assert_eq!(p.peek(), Some('#'));
    p.skip_comment();
    assert_eq!(p.peek(), Some('\n'));
    p.skip_whitespace_and_newlines();
    assert_eq!(p.peek(), Some('x'));
    let mut q = Parser::new("  # c\r\nz");
    q.skip_line_end();
    assert_eq!(q.peek(), Some('z'));
    let mut r = Parser::new("# a\n # b\n\tk");
    r.skip_ws_and_comments();
    assert_eq!(r.peek(), Some('k'));
}

#[test]
fn expressions_parse_alone() {
    let mut p = Parser::new("  name != \"x\"");
    let e = p.parse_expr().unwrap();
    assert_eq!(e, Expr::NotEquals(Box::new(Expr::Identifier(s("name"))), Box::new(Expr::String(s("x")))));
    let mut q = Parser::new("?");
    assert_eq!(q.parse_expr_atom().unwrap_err().message, "invalid expression");
    let mut r = Parser::new("\tx");
    r.skip_ws();
    assert_eq!(r.peek(), Some('x'));
}

#[test]
fn keywords_are_matched_at_the_cursor() {
    let mut p = Parser::new("else {");
    assert!(p.expect_keyword("else").is_ok());
    assert_eq!(p.peek(), Some(' '));
    let mut q = Parser::new("els");
    assert_eq!(q.expect_keyword("else").unwrap_err().message, "expected 'else'");
    let mut b = Parser::new("{ if");
    assert_eq!(b.is_block_value().unwrap(), true);
    let mut c = Parser::new("{ a = 1 }");
    assert_eq!(c.is_block_value().unwrap(), false);
}

#[test]
fn values_display_as_text() {
    let v = Value::Array(vec![Value::Integer(-1), Value::String(s("a\"b")), Value::Boolean(true)]);
    assert_eq!(v.display(), "[-1, \"a\\\"b\", true]");
    let t = Value::Table(vec![entry("k", Value::Float(s("1.5")))]);
    assert_eq!(t.display(), "{k = 1.5}");
    let c = Value::Conditional {
        condition: Expr::Equals(Box::new(Expr::Identifier(s("os"))), Box::new(Expr::String(s("linux")))),
        then_branch: Box::new(Value::Integer(1)),
        else_branch: Some(Box::new(Value::Integer(2))),
    };
    assert_eq!(c.display(), "if os == \"linux\" { 1 } else { 2 }");
    assert_eq!(Expr::Identifier(s("x")).display(), "x");
}

#[test]
fn string_parsers_work_at_the_cursor() {
    let mut p = Parser::new("\"a\\nb\" rest");
    assert_eq!(p.parse_basic_string().unwrap(), "a\nb");
    let mut q = Parser::new("'x\\y'");
    assert_eq!(q.parse_literal_string().unwrap(), "x\\y");
    let mut r = Parser::new("a\n\"b\"\"\"");
    assert_eq!(r.parse_multiline_basic_string().unwrap(), "a\n\"b");
    let mut u = Parser::new("\nz'''");
    assert_eq!(u.parse_multiline_literal_string().unwrap(), "z");
    let mut w = Parser::new("\"open");
    assert!(w.parse_basic_string().is_err());
}

#[test]
fn skipping_twice_changes_nothing() {
    let mut p = Parser::new("  # a\n\n\t# b\r\nkey = 1");
    p.skip_ws_and_comments();
    let (pos, line, column) = (p.pos, p.line, p.column);
    assert_eq!(p.peek(), Some('k'));
    p.skip_ws_and_comments();
    assert_eq!((p.pos, p.line, p.column), (pos, line, column));
    assert_eq!((line, column), (4, 1));
}

#[test]
fn table_operations_follow_their_paths() {
    let mut p = Parser::new("");
    let mut map = vec![entry("a", Value::Table(vec![entry("b", Value::Integer(1))]))];
    assert!(p.insert_dotted(&mut map, &[s("a"), s("c")], Value::Integer(2)).is_ok());
    assert_eq!(
        map,
        vec![entry("a", Value::Table(vec![entry("b", Value::Integer(1)), entry("c", Value::Integer(2))]))]
    );
    let before = format!("{:?}", map);
    assert_eq!(p.insert_dotted(&mut map, &[s("a"), s("b")], Value::Integer(3)).unwrap_err(), "duplicate key: b");
    assert_eq!(p.insert_dotted(&mut map, &[s("a"), s("b"), s("x")], Value::Integer(3)).unwrap_err(), "key b is not a table");
    assert_eq!(p.insert_dotted(&mut map, &[], Value::Integer(3)).unwrap_err(), "empty key");
    assert_eq!(format!("{:?}", map), before);

    let mut t: Vec<(String, Value)> = vec![entry("k", Value::Integer(0))];
    assert!(p.ensure_array(&mut t, &[s("x"), s("y")]).is_ok());
    assert_eq!(
        t,
        vec![entry("k", Value::Integer(0)), entry("x", Value::Table(vec![entry("y", Value::Array(vec![]))]))]
    );
    assert!(p.ensure_array(&mut t, &[s("x"), s("y")]).is_ok());
    assert!(p.push_array_entry(&mut t, &[s("x"), s("y")]).is_ok());
    assert_eq!(
        t,
        vec![
            entry("k", Value::Integer(0)),
            entry("x", Value::Table(vec![entry("y", Value::Array(vec![Value::Table(vec![])]))])),
        ]
    );
    assert_eq!(p.push_array_entry(&mut t, &[s("k")]).unwrap_err(), "k is not an array");
}

#[test]
fn positions_count_bytes_and_characters() {
    let mut p = Parser::new("é€😀a");
    assert_eq!((p.pos, p.index), (0, 0));
    p.advance();
    assert_eq!((p.pos, p.index, p.column), (2, 1, 2));
    p.advance();
    assert_eq!((p.pos, p.index), (5, 2));
    p.advance();
    assert_eq!((p.pos, p.index), (9, 3));
    p.advance();
    assert_eq!((p.pos, p.index), (10, 4));
    assert_eq!(p.advance(), None);
    assert_eq!(p.pos, "é€😀a".len());
}
