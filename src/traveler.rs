use vstd::prelude::*;
use crate::error::{ParserError, ParserResult};
use crate::text::{append, owned};
use crate::token::{same_kind, weight, Token, TokenPosition, TokenType};

verus! {

/// Weight is additive over concatenation.
pub proof fn lemma_weight_concat(a: Seq<Token>, b: Seq<Token>)
    ensures
        weight(a + b) == weight(a) + weight(b),
    decreases a.len(),
{
    if a.len() > 0 {
        assert((a + b).subrange(1, (a + b).len() as int) =~= a.subrange(1, a.len() as int) + b);
        assert((a + b)[0] == a[0]);
        lemma_weight_concat(a.subrange(1, a.len() as int), b);
    } else {
        assert(a + b =~= b);
    }
}

/// Every token weighs at least one.
pub proof fn lemma_weight_len(s: Seq<Token>)
    ensures
        weight(s) >= s.len(),
    decreases s.len(),
{
    if s.len() > 0 {
        lemma_weight_len(s.subrange(1, s.len() as int));
    }
}

/// The weight of a suffix, one token at a time.
pub proof fn lemma_weight_step(s: Seq<Token>, i: int)
    requires
        0 <= i < s.len(),
    ensures
        weight(s.subrange(i, s.len() as int)) == 1 + match s[i].token_type {
            TokenType::Block(v) => weight(v@),
            _ => 0,
        } + weight(s.subrange(i + 1, s.len() as int)),
{
    let t = s.subrange(i, s.len() as int);
    assert(t.subrange(1, t.len() as int) =~= s.subrange(i + 1, s.len() as int));
    assert(t[0] == s[i]);
}

/// A bounded cursor over a token stream that ends with two end-of-stream markers.
pub struct Traveler {
    pub tokens: Vec<Token>,
    pub top: usize,
}

fn eof_token() -> (r: Token)
    ensures
        r.token_type is EOF,
{
    Token::new(TokenType::EOF, TokenPosition::new(0, 0), String::new())
}

impl Traveler {
    /// The cursor is in bounds and the stream ends with its two markers.
    pub open spec fn wf(&self) -> bool {
        &&& self.top <= self.tokens.len()
        &&& self.tokens.len() >= 2
        &&& self.tokens@[self.tokens.len() - 1].token_type is EOF
        &&& self.tokens@[self.tokens.len() - 2].token_type is EOF
    }

    /// The size of what is left, block interiors included.
    pub open spec fn measure(&self) -> nat {
        weight(self.tokens@.subrange(self.top as int, self.tokens.len() as int))
    }

    /// A cursor at the start of `tokens`, followed by two end-of-stream markers.
    pub fn new(tokens: Vec<Token>) -> (r: Traveler)
        ensures
            r.wf(),
            r.top == 0,
            r.tokens@.subrange(0, tokens.len() as int) == tokens@,
            r.tokens.len() == tokens.len() + 2,
            r.measure() == weight(tokens@) + 2,
    {
        let ghost orig = tokens@;
        let mut tokens = tokens;
        let e1 = eof_token();
        let e2 = eof_token();
        let ghost tail = seq![e1, e2];
        tokens.push(e1);
        tokens.push(e2);
        proof {
            assert(tokens@ =~= orig + tail);
            assert(tokens@.subrange(0, orig.len() as int) =~= orig);
            assert(tokens@.subrange(0, tokens.len() as int) =~= tokens@);
            lemma_weight_concat(orig, tail);
            assert(tail.subrange(1, 2) =~= seq![e2]);
            assert(seq![e2].subrange(1, 1) =~= Seq::<Token>::empty());
            assert(weight(Seq::<Token>::empty()) == 0);
            assert(weight(seq![e2]) == 1);
            assert(weight(tail) == 2);
        }
        Traveler { tokens, top: 0 }
    }

    /// The current token.
    pub fn current(&self) -> (r: &Token)
        requires
            self.top < self.tokens.len(),
        ensures
            *r == self.tokens@[self.top as int],
    {
        &self.tokens[self.top]
    }

    /// The current token's text.
    pub fn current_content(&self) -> (r: String)
        requires
            self.top < self.tokens.len(),
        ensures
            r == self.tokens@[self.top as int].content,
    {
        self.tokens[self.top].content.clone()
    }

    /// Moves one token on; tells whether the cursor is still on a token.
    pub fn next(&mut self) -> (r: bool)
        ensures
            final(self).tokens == old(self).tokens,
            final(self).top == if old(self).top < old(self).tokens.len() { old(self).top + 1 } else { old(self).top as int },
            r == (final(self).top < final(self).tokens.len()),
    {
        if self.top < self.tokens.len() {
            self.top += 1;
        }
        self.top < self.tokens.len()
    }

    /// Moves one token back; tells whether it could.
    pub fn prev(&mut self) -> (r: bool)
        ensures
            final(self).tokens == old(self).tokens,
            final(self).top == if old(self).top > 0 { old(self).top - 1 } else { 0 },
            r == (old(self).top > 0),
    {
        if self.top > 0 {
            self.top -= 1;
            true
        } else {
            false
        }
    }

    /// How many tokens are left, the current one included.
    pub fn remaining(&self) -> (r: usize)
        requires
            self.top <= self.tokens.len(),
        ensures
            r == self.tokens.len() - self.top,
    {
        self.tokens.len() - self.top
    }

    /// Consumes the current token if it is of the given kind and gives its text; else an
    /// error at its position, the cursor staying put.
    pub fn expect(&mut self, kind: &TokenType) -> (r: ParserResult<String>)
        requires
            old(self).top < old(self).tokens.len(),
        ensures
            final(self).tokens == old(self).tokens,
            r is Ok <==> same_kind(old(self).tokens@[old(self).top as int].token_type, *kind),
            r is Ok ==> r->Ok_0@ == old(self).tokens@[old(self).top as int].content@ && final(self).top
                == old(self).top + 1,
            r is Err ==> final(self).top == old(self).top,
    {
        let t = &self.tokens[self.top];
        let probe = Token::new(same_shape(kind), TokenPosition::new(0, 0), String::new());
        if t.same_kind(&probe) {
            let text = t.content.clone();
            self.top += 1;
            Ok(text)
        } else {
            let mut m = owned("unexpected: ");
            append(&mut m, t.content.as_str());
            Err(ParserError::new_pos(t.position, m.as_str()))
        }
    }

    /// Consumes the current token if its text is `content`; else an error at its position,
    /// the cursor staying put.
    pub fn expect_content(&mut self, content: &str) -> (r: ParserResult<()>)
        requires
            old(self).top < old(self).tokens.len(),
        ensures
            final(self).tokens == old(self).tokens,
            r is Ok <==> old(self).tokens@[old(self).top as int].content@ == content@,
            r is Ok ==> final(self).top == old(self).top + 1,
            r is Err ==> final(self).top == old(self).top,
    {
        let t = &self.tokens[self.top];
        if t.content == owned(content) {
            self.top += 1;
            Ok(())
        } else {
            let mut m = owned("expected '");
            append(&mut m, content);
            append(&mut m, "', found: ");
            append(&mut m, t.content.as_str());
            Err(ParserError::new_pos(t.position, m.as_str()))
        }
    }
}

/// A kind with the same variant as `k`; a block kind comes back empty.
pub fn same_shape(k: &TokenType) -> (r: TokenType)
    ensures
        same_kind(r, *k),
{
    match k {
        TokenType::Block(_) => TokenType::Block(Vec::new()),
        TokenType::IntLiteral => TokenType::IntLiteral,
        TokenType::FloatLiteral => TokenType::FloatLiteral,
        TokenType::StringLiteral => TokenType::StringLiteral,
        TokenType::BoolLiteral => TokenType::BoolLiteral,
        TokenType::Symbol => TokenType::Symbol,
        TokenType::Operator => TokenType::Operator,
        TokenType::Identifier => TokenType::Identifier,
        TokenType::Keyword => TokenType::Keyword,
        TokenType::Type => TokenType::Type,
        TokenType::Whitespace => TokenType::Whitespace,
        TokenType::EOL => TokenType::EOL,
        TokenType::EOF => TokenType::EOF,
    }
}

} // verus!
