use plof::ast::{Expression, Operand, Statement, Type};
use plof::block_tree::{Branch, ChunkValue};
use plof::compiler::{block_tree, compile, run, standard_scopes};
use plof::lexer::process_branch;
use plof::parser::Parser;
use plof::traveler::Traveler;

fn source_lines(b: &Branch) -> Vec<String> {
    let mut out = Vec::new();
    for c in b.value.iter() {
        match c.value() {
            ChunkValue::Source(s) => out.push(s.clone()),
            ChunkValue::Block(inner) => {
                out.push(String::from("["));
                out.extend(source_lines(inner));
                out.push(String::from("]"));
            }
            ChunkValue::Tokens(_) => out.push(String::from("<tokens>")),
        }
    }
    out
}

fn parse_statements(src: &str) -> Vec<Statement> {
    let root = block_tree(src).ok().unwrap();
    let tokens = process_branch(&root).ok().unwrap();
    let mut parser = Parser::new(Traveler::new(tokens));
    parser.parse().ok().unwrap()
}

fn parse_one(src: &str) -> Expression {
    let mut stmts = parse_statements(src);
    assert_eq!(stmts.len(), 1);
    match stmts.remove(0) {
        Statement::Expression(e) => e,
        Statement::Return(_) => panic!("expected an expression statement"),
    }
}

fn number(e: &Expression) -> String {
    match e {
        Expression::NumberLiteral(n) => n.clone(),
        _ => panic!("expected a number"),
    }
}

fn shape(e: &Expression) -> String {
    match e {
        Expression::NumberLiteral(n) => n.clone(),
        Expression::Identifier(n) => n.clone(),
        Expression::Operation { left, op, right } => {
            format!("({} {:?} {})", shape(left), op, shape(right))
        }
        _ => String::from("?"),
    }
}

#[test]
fn indentation_groups_lines_into_blocks() {
    let root = block_tree("A\n  B\n  C\nD\n").ok().unwrap();
    assert_eq!(root.value.len(), 3);
    assert!(matches!(root.value[0].value(), ChunkValue::Source(s) if s == "A"));
    match root.value[1].value() {
        ChunkValue::Block(inner) => {
            assert_eq!(inner.value.len(), 2);
            assert!(matches!(inner.value[0].value(), ChunkValue::Source(s) if s == "B"));
            assert!(matches!(inner.value[1].value(), ChunkValue::Source(s) if s == "C"));
        }
        _ => panic!("expected a nested block"),
    }
    assert!(matches!(root.value[2].value(), ChunkValue::Source(s) if s == "D"));
}

#[test]
fn nested_blocks_go_deeper() {
    let root = block_tree("a\n  b\n    c\n  d\ne").ok().unwrap();
    assert_eq!(source_lines(&root), vec!["a", "[", "b", "[", "c", "]", "d", "]", "e"]);
}

#[test]
fn open_parenthesis_does_not_open_a_block() {
    let root = block_tree("f(1,\n  2)\n").ok().unwrap();
    assert_eq!(source_lines(&root), vec!["f(1,", "2)"]);
    let root = block_tree("x\n  g{1,\n      2}\n  y\n").ok().unwrap();
    assert_eq!(source_lines(&root), vec!["x", "[", "g{1,", "2}", "y", "]"]);
}

#[test]
fn comments_and_blank_lines_are_dropped() {
    let root = block_tree("a ~ note\n\n   ~ only a comment\nb").ok().unwrap();
    assert_eq!(source_lines(&root), vec!["a", "b"]);
}

#[test]
fn line_shallower_than_first_is_an_error() {
    assert!(block_tree("  a\nb\n").is_err());
}

#[test]
fn multiplication_binds_tighter_than_addition() {
    let e = parse_one("1 + 2 * 3");
    match &e {
        Expression::Operation { left, op, right } => {
            assert_eq!(*op, Operand::Add);
            assert_eq!(number(left), "1");
            match &**right {
                Expression::Operation { left, op, right } => {
                    assert_eq!(*op, Operand::Mul);
                    assert_eq!(number(left), "2");
                    assert_eq!(number(right), "3");
                }
                _ => panic!("expected a product on the right"),
            }
        }
        _ => panic!("expected an operation"),
    }
}

#[test]
fn product_on_the_left_groups_first() {
    assert_eq!(shape(&parse_one("1 * 2 + 3")), "((1 Mul 2) Add 3)");
}

#[test]
fn equal_ranks_group_to_the_left() {
    assert_eq!(shape(&parse_one("1 + 2 + 3")), "((1 Add 2) Add 3)");
    assert_eq!(shape(&parse_one("8 - 4 - 2")), "((8 Sub 4) Sub 2)");
}

#[test]
fn three_ranks_nest_by_precedence() {
    assert_eq!(shape(&parse_one("1 + 2 * 3 ^ 4")), "(1 Add (2 Mul (3 Pow 4)))");
    assert_eq!(shape(&parse_one("a < b + c * d")), "(a Lt (b Add (c Mul d)))");
}

#[test]
fn typed_definition_parses() {
    match parse_one("num x = 5") {
        Expression::Definition(Some(Type::Num), name, value) => {
            assert_eq!(name, "x");
            assert_eq!(number(&value), "5");
        }
        _ => panic!("expected a definition"),
    }
}

#[test]
fn lambda_with_parameters_parses() {
    match parse_one("str (str a, str b) concat = a ++ b") {
        Expression::Lambda { name, retty, param_names, param_types, body } => {
            assert_eq!(name.as_deref(), Some("concat"));
            assert!(matches!(retty, Type::Str));
            assert_eq!(param_names, vec!["a".to_string(), "b".to_string()]);
            assert!(param_types.iter().all(|t| matches!(t, Type::Str)));
            assert_eq!(body.len(), 1);
        }
        _ => panic!("expected a lambda"),
    }
}

#[test]
fn call_with_parentheses_parses() {
    match parse_one("concat(\"hi\", \"there\")") {
        Expression::Call(callee, args) => {
            assert!(matches!(*callee, Expression::Identifier(ref n) if n == "concat"));
            assert_eq!(args.len(), 2);
            assert!(matches!(&args[0], Expression::StringLiteral(s) if s == "hi"));
        }
        _ => panic!("expected a call"),
    }
}

#[test]
fn keyword_statement_is_rejected() {
    let root = block_tree("if x").ok().unwrap();
    let tokens = process_branch(&root).ok().unwrap();
    let mut parser = Parser::new(Traveler::new(tokens));
    assert!(parser.parse().is_err());
}

#[test]
fn end_to_end_renders_function_and_call() {
    let out = compile("str (str a, str b) concat = a ++ b\nconcat(\"hi\", \"there\")\n").ok().unwrap();
    assert_eq!(
        out,
        "function concat(a, b)\nreturn (((a) .. (b)));\nend\nconcat(\"hi\", \"there\");\n"
    );
}

#[test]
fn end_to_end_stops_at_type_error() {
    let err = compile("num x = \"text\"\n").err().unwrap();
    assert!(err.text().contains("x"));
    assert!(compile("true < false\n").is_err());
}

#[test]
fn end_to_end_block_body() {
    let out = compile("num (num n) twice =\n  num m = n * 2\n  m\ntwice(4)\n").ok().unwrap();
    assert_eq!(
        out,
        "function twice(n)\nlocal m = ((n) * (2));\nreturn (m);\nend\ntwice(4);\n"
    );
}

#[test]
fn end_to_end_print_accepts_anything() {
    let out = compile("print(\"a\\tb\")\n").ok().unwrap();
    assert_eq!(out, "print(\"a\\tb\");\n");
}

#[test]
fn run_renders_nothing_for_bad_program() {
    let root = block_tree("missing\n").ok().unwrap();
    let tokens = process_branch(&root).ok().unwrap();
    let (mut sym, mut env) = standard_scopes();
    assert!(run(tokens, &mut sym, &mut env).is_err());
}

#[test]
fn empty_program_renders_nothing() {
    assert_eq!(compile("").ok().unwrap(), "");
    assert_eq!(compile("~ just a comment\n\n").ok().unwrap(), "");
}

#[test]
fn nested_lambda_keeps_its_names_inside() {
    let src = "num (num x) outer =\n  num (num y) inner = y + x\n  inner(x)\nouter(1)\n";
    let out = compile(src).ok().unwrap();
    assert_eq!(
        out,
        "function outer(x)\nfunction inner(y)\nreturn (((y) + (x)));\nend\nreturn (inner(x));\nend\nouter(1);\n"
    );
    assert!(compile("num (num x) outer =\n  num (num y) inner = y\n  inner(x)\ninner(2)\n").is_err());
}

#[test]
fn lexical_error_stops_compilation() {
    let err = compile("str s = \"unterminated\n").err().unwrap();
    assert!(err.text().contains("unterminated"));
    assert!(err.position.is_some());
}

#[test]
fn operators_render_in_target_spelling() {
    let out = compile("print(1 != 2)\n").ok().unwrap();
    assert_eq!(out, "print(((1) ~= (2)));\n");
}

#[test]
fn chains_on_several_lines_parse_to_precedence_trees() {
    let stmts = parse_statements("1 + 2 * 3\n4 * 5 - 6\n");
    assert_eq!(stmts.len(), 2);
    let shapes: Vec<String> = stmts
        .iter()
        .map(|s| match s {
            Statement::Expression(e) => shape(e),
            Statement::Return(_) => String::new(),
        })
        .collect();
    assert_eq!(shapes, vec!["(1 Add (2 Mul 3))", "((4 Mul 5) Sub 6)"]);
    assert_eq!(compile("1 + 2 * 3\n").ok().unwrap(), "((1) + (((2) * (3))));\n");
}

#[test]
fn dedent_to_no_open_level_is_an_error() {
    assert!(block_tree("a\n    b\n  c\n").is_err());
    assert!(block_tree("a\n    b\n      c\n    d\ne\n").is_ok());
}

#[test]
fn call_with_name_arguments_parses() {
    match parse_one("f(a, b + 1)") {
        Expression::Call(callee, args) => {
            assert!(matches!(*callee, Expression::Identifier(ref n) if n == "f"));
            assert_eq!(args.len(), 2);
            assert!(matches!(&args[0], Expression::Identifier(n) if n == "a"));
            assert_eq!(shape(&args[1]), "(b Add 1)");
        }
        _ => panic!("expected a call"),
    }
}

#[test]
fn end_to_end_source_parses_to_lambda_and_call() {
    let stmts = parse_statements("str (str a, str b) concat = a ++ b\nconcat(\"hi\", \"there\")\n");
    assert_eq!(stmts.len(), 2);
    match &stmts[0] {
        Statement::Expression(Expression::Lambda { name, param_names, body, .. }) => {
            assert_eq!(name.as_deref(), Some("concat"));
            assert_eq!(param_names.len(), 2);
            match &body[0] {
                Statement::Expression(e) => assert_eq!(shape(e), "(a Append b)"),
                _ => panic!("expected an expression body"),
            }
        }
        _ => panic!("expected a lambda"),
    }
    assert!(matches!(&stmts[1], Statement::Expression(Expression::Call(_, args)) if args.len() == 2));
}
