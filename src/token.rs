use vstd::prelude::*;

verus! {

/// Kinds of tokens. A `Block` token carries the flattened tokens of a nested block.
#[derive(Debug)]
pub enum TokenType {
    Block(Vec<Token>),
    IntLiteral,
    FloatLiteral,
    StringLiteral,
    BoolLiteral,
    Symbol,
    Operator,
    Identifier,
    Keyword,
    Type,
    Whitespace,
    EOL,
    EOF,
}

/// Where a token starts: a line number and a column.
#[derive(Clone, Copy, Debug)]
pub struct TokenPosition {
    pub line: usize,
    pub col: usize,
}

impl Default for TokenPosition {
    fn default() -> (r: Self)
        ensures
            r.line == 1 && r.col == 0,
    {
        TokenPosition { line: 1, col: 0 }
    }
}

impl TokenPosition {
    pub fn new(line: usize, col: usize) -> (r: TokenPosition)
        ensures
            r.line == line && r.col == col,
    {
        TokenPosition { line, col }
    }
}

/// A token: its kind, where it starts, and its text.
#[derive(Debug)]
pub struct Token {
    pub token_type: TokenType,
    pub position: TokenPosition,
    pub content: String,
}

impl Token {
    pub fn new(token_type: TokenType, position: TokenPosition, content: String) -> (r: Token)
        ensures
            r.token_type == token_type,
            r.position == position,
            r.content@ == content@,
    {
        Token { token_type, position, content }
    }

    pub fn content(&self) -> (r: &String)
        ensures
            r@ == self.content@,
    {
        &self.content
    }

    /// Whether two tokens have the same kind; their text and position do not matter,
    /// nor what a block token holds.
    pub fn same_kind(&self, other: &Token) -> (r: bool)
        ensures
            r == same_kind(self.token_type, other.token_type),
    {
        match (&self.token_type, &other.token_type) {
            (TokenType::Block(_), TokenType::Block(_)) => true,
            (TokenType::IntLiteral, TokenType::IntLiteral) => true,
            (TokenType::FloatLiteral, TokenType::FloatLiteral) => true,
            (TokenType::StringLiteral, TokenType::StringLiteral) => true,
            (TokenType::BoolLiteral, TokenType::BoolLiteral) => true,
            (TokenType::Symbol, TokenType::Symbol) => true,
            (TokenType::Operator, TokenType::Operator) => true,
            (TokenType::Identifier, TokenType::Identifier) => true,
            (TokenType::Keyword, TokenType::Keyword) => true,
            (TokenType::Type, TokenType::Type) => true,
            (TokenType::Whitespace, TokenType::Whitespace) => true,
            (TokenType::EOL, TokenType::EOL) => true,
            (TokenType::EOF, TokenType::EOF) => true,
            _ => false,
        }
    }
}

impl PartialEq for Token {
    /// Tokens compare by kind only: text and position do not matter.
    fn eq(&self, other: &Token) -> (r: bool) {
        self.same_kind(other)
    }
}

impl vstd::std_specs::cmp::PartialEqSpecImpl for Token {
    open spec fn obeys_eq_spec() -> bool {
        true
    }

    open spec fn eq_spec(&self, other: &Token) -> bool {
        same_kind(self.token_type, other.token_type)
    }
}

/// Two kinds are the same when they have the same variant.
pub open spec fn same_kind(a: TokenType, b: TokenType) -> bool {
    match (a, b) {
        (TokenType::Block(_), TokenType::Block(_)) => true,
        (TokenType::IntLiteral, TokenType::IntLiteral) => true,
        (TokenType::FloatLiteral, TokenType::FloatLiteral) => true,
        (TokenType::StringLiteral, TokenType::StringLiteral) => true,
        (TokenType::BoolLiteral, TokenType::BoolLiteral) => true,
        (TokenType::Symbol, TokenType::Symbol) => true,
        (TokenType::Operator, TokenType::Operator) => true,
        (TokenType::Identifier, TokenType::Identifier) => true,
        (TokenType::Keyword, TokenType::Keyword) => true,
        (TokenType::Type, TokenType::Type) => true,
        (TokenType::Whitespace, TokenType::Whitespace) => true,
        (TokenType::EOL, TokenType::EOL) => true,
        (TokenType::EOF, TokenType::EOF) => true,
        _ => false,
    }
}

/// Total size of a token stream: one per token, plus the size of each block's interior.
pub open spec fn weight(s: Seq<Token>) -> nat
    decreases s,
    via weight_decreases
{
    if s.len() == 0 {
        0
    } else {
        let inner = match s[0].token_type {
            TokenType::Block(v) => weight(v@),
            _ => 0,
        };
        1 + inner + weight(s.subrange(1, s.len() as int))
    }
}

#[via_fn]
proof fn weight_decreases(s: Seq<Token>) {
    if s.len() != 0 {
        assert(decreases_to!(s => s[0]));
        assert(decreases_to!(s[0] => s[0].token_type));
        if let TokenType::Block(v) = s[0].token_type {
            assert(decreases_to!(s[0].token_type => v));
            assert(decreases_to!(v => v@));
            assert(decreases_to!(s => v@));
        }
        assert(decreases_to!(s => s.subrange(1, s.len() as int)));
    }
}

} // verus!
