use plof::token::{Token, TokenPosition, TokenType};
use plof::traveler::Traveler;
use plof::tokenizer::Tokenizer;
use plof::error::ParserError;

fn tok(kind: TokenType, text: &str) -> Token {
    Token::new(kind, TokenPosition::new(1, 0), text.to_string())
}

#[test]
fn traveler_moves_within_bounds() {
    let mut t = Traveler::new(vec![tok(TokenType::Identifier, "a"), tok(TokenType::EOL, "\n")]);
    assert_eq!(t.remaining(), 4);
    assert_eq!(t.current().content(), "a");
    assert!(!t.prev());
    assert!(t.next());
    assert_eq!(t.current_content(), "\n");
    assert!(t.next());
    assert!(t.next());
    assert!(!t.next());
    assert_eq!(t.remaining(), 0);
    assert!(!t.next());
    assert!(t.prev());
    assert_eq!(t.remaining(), 1);
    assert!(matches!(t.current().token_type, TokenType::EOF));
}

#[test]
fn traveler_expect_consumes_only_on_match() {
    let mut t = Traveler::new(vec![tok(TokenType::Identifier, "x"), tok(TokenType::Operator, "=")]);
    assert!(t.expect(&TokenType::Operator).is_err());
    assert_eq!(t.remaining(), 4);
    assert_eq!(t.expect(&TokenType::Identifier).ok().unwrap(), "x");
    assert_eq!(t.remaining(), 3);
    let err = t.expect_content("+").err().unwrap();
    assert!(err.position.is_some());
    assert_eq!(t.remaining(), 3);
    assert!(t.expect_content("=").is_ok());
    assert_eq!(t.remaining(), 2);
}

#[test]
fn tokens_compare_by_kind() {
    assert!(tok(TokenType::Identifier, "a") == tok(TokenType::Identifier, "b"));
    assert!(tok(TokenType::Identifier, "a") != tok(TokenType::Symbol, "a"));
    assert!(tok(TokenType::Block(vec![]), "") == tok(TokenType::Block(vec![tok(TokenType::EOL, "\n")]), ""));
    let p = TokenPosition::default();
    assert_eq!((p.line, p.col), (1, 0));
}

#[test]
fn tokenizer_cursor() {
    let mut t = Tokenizer::new("ab", 3);
    assert_eq!(t.peek(), Some('a'));
    assert_eq!(t.peek_n(1), Some('b'));
    assert_eq!(t.peek_n(2), None);
    assert!(t.starts_with(&vec!['a', 'b']));
    assert!(!t.starts_with(&vec!['a', 'b', 'c']));
    assert_eq!(t.next(), Some('a'));
    assert_eq!(t.position().col, 1);
    assert_eq!(t.position().line, 3);
    t.advance(5);
    assert!(t.end());
    assert_eq!(t.next(), None);
}

#[test]
fn error_descriptions() {
    let e = ParserError::new_pos(TokenPosition::new(2, 7), "unexpected: )");
    assert_eq!(e.describe(), "(line 2 col 7): unexpected: )");
    let e = ParserError::new("use of undeclared: x");
    assert_eq!(e.describe(), "use of undeclared: x");
    assert!(e.position.is_none());
}
