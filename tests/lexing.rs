use plof::lexer::{lexer, process_branch};
use plof::compiler::block_tree;
use plof::token::{Token, TokenType};
use plof::block_tree::BlockTree;
use plof::text::decimal_string;

fn lex(line: &str) -> Result<Vec<Token>, String> {
    lexer(line, 1).tokens().map_err(|e| e.text().clone())
}

fn kinds(ts: &[Token]) -> Vec<String> {
    ts.iter()
        .map(|t| match &t.token_type {
            TokenType::Block(_) => "Block".to_string(),
            TokenType::IntLiteral => "Int".to_string(),
            TokenType::FloatLiteral => "Float".to_string(),
            TokenType::StringLiteral => "Str".to_string(),
            TokenType::BoolLiteral => "Bool".to_string(),
            TokenType::Symbol => "Sym".to_string(),
            TokenType::Operator => "Op".to_string(),
            TokenType::Identifier => "Id".to_string(),
            TokenType::Keyword => "Kw".to_string(),
            TokenType::Type => "Type".to_string(),
            TokenType::Whitespace => "Ws".to_string(),
            TokenType::EOL => "EOL".to_string(),
            TokenType::EOF => "EOF".to_string(),
        })
        .collect()
}

fn texts(ts: &[Token]) -> Vec<String> {
    ts.iter().map(|t| t.content().clone()).collect()
}

#[test]
fn tokens_of_a_definition() {
    let ts = lex("num x = 12").unwrap();
    assert_eq!(kinds(&ts), vec!["Type", "Id", "Op", "Int"]);
    assert_eq!(texts(&ts), vec!["num", "x", "=", "12"]);
    assert_eq!(ts[1].position.col, 4);
}

#[test]
fn keywords_need_a_word_boundary() {
    let ts = lex("number trueish true if").unwrap();
    assert_eq!(kinds(&ts), vec!["Id", "Id", "Bool", "Kw"]);
}

#[test]
fn longest_operator_wins() {
    let ts = lex("a ++ b >= c != d").unwrap();
    assert_eq!(texts(&ts), vec!["a", "++", "b", ">=", "c", "!=", "d"]);
    assert_eq!(kinds(&ts), vec!["Id", "Op", "Id", "Op", "Id", "Op", "Id"]);
}

#[test]
fn numbers() {
    let ts = lex("007 -3 +4 2.50 .5").unwrap();
    assert_eq!(texts(&ts), vec!["7", "-3", "4", "2.50", "0.5"]);
    assert_eq!(kinds(&ts), vec!["Int", "Int", "Int", "Float", "Float"]);
    assert!(lex("1.2.3").unwrap_err().contains("decimal point"));
    assert!(lex("99999999999999999999").is_err());
    assert_eq!(texts(&lex("18446744073709551615").unwrap()), vec!["18446744073709551615"]);
    assert!(lex("-9223372036854775808").is_err());
}

#[test]
fn strings_and_escapes() {
    let ts = lex(r#""a\"b" 'c\n' r"x\y""#).unwrap();
    assert_eq!(kinds(&ts), vec!["Str", "Str", "Str"]);
    assert_eq!(texts(&ts), vec!["a\"b", "c\n", "x\\y"]);
    assert!(lex(r#""bad \q""#).unwrap_err().contains("escape"));
    assert!(lex("\"open").is_err());
}

#[test]
fn identifiers_take_special_characters() {
    let ts = lex("is_ok? @x it's").unwrap();
    assert_eq!(texts(&ts), vec!["is_ok?", "@x", "it's"]);
}

#[test]
fn unknown_character_is_an_error() {
    assert!(lex("a # b").is_err());
}

#[test]
fn flattened_stream_holds_blocks() {
    let root = block_tree("a\n  b\nc\n").ok().unwrap();
    let ts = process_branch(&root).ok().unwrap();
    assert_eq!(kinds(&ts), vec!["Id", "EOL", "Block", "Id", "EOL"]);
    match &ts[2].token_type {
        TokenType::Block(inner) => assert_eq!(kinds(inner), vec!["Id", "EOL"]),
        _ => panic!("expected a block token"),
    }
}

#[test]
fn block_tree_indents_and_tree() {
    let mut bt = BlockTree::new("x\n    y\n", 0);
    let indents = bt.indents();
    assert_eq!(indents, vec![(0, "x".to_string()), (4, "y".to_string())]);
    let root = bt.tree(&indents);
    assert_eq!(root.value.len(), 2);
    assert_eq!(bt.current_line, 2);
}

#[test]
fn indent_ignores_whitespace_inside_brackets() {
    let mut bt = BlockTree::new("", 0);
    assert_eq!(bt.indent("  call(1,"), 2);
    assert_eq!(bt.indent("        2)"), 2);
    assert_eq!(bt.indent("\tnext"), 1);
}

#[test]
fn decimal_rendering() {
    assert_eq!(decimal_string(0), "0");
    assert_eq!(decimal_string(1203), "1203");
    assert_eq!(decimal_string(u64::MAX), "18446744073709551615");
}

#[test]
fn whitespace_matches_std_on_every_char() {
    for u in 0u32..=0x10FFFF {
        if let Some(c) = char::from_u32(u) {
            assert_eq!(plof::text::is_whitespace(c), c.is_whitespace(), "U+{:04X}", u);
        }
    }
}

#[test]
fn keyword_guard_looks_at_letters_and_digits_only() {
    let ts = lex("if_x true? num2 elif x").unwrap();
    assert_eq!(texts(&ts), vec!["if", "_x", "true", "?", "num2", "elif", "x"]);
    assert_eq!(kinds(&ts), vec!["Kw", "Id", "Bool", "Id", "Id", "Kw", "Id"]);
}
