use vstd::prelude::*;
use crate::block_tree::{Branch, Chunk, ChunkValue};
use crate::error::{ParserError, ParserResult};
use crate::matcher::{
    declines, outcome, texts, yields, ConstantMatcher, FloatLiteralMatcher, IdentifierMatcher, IntLiteralMatcher,
    KeyMatcher, Matcher, StringLiteralMatcher, WhitespaceMatcher,
};
use crate::text::{owned, push_char};
use crate::token::{Token, TokenPosition, TokenType};
use crate::tokenizer::Tokenizer;

verus! {

/// Tries an ordered list of matchers at each position of a line.
pub struct Lexer {
    pub tokenizer: Tokenizer,
    pub matchers: Vec<Matcher>,
}

fn strings_of(words: &[&str]) -> (r: Vec<String>)
    ensures
        r.len() == words@.len(),
        forall|i: int| 0 <= i < words@.len() ==> r@[i]@ == words@[i]@,
{
    let mut r: Vec<String> = Vec::new();
    let mut i: usize = 0;
    while i < words.len()
        invariant
            i <= words@.len(),
            r.len() == i,
            forall|j: int| 0 <= j < i ==> r@[j]@ == words@[j]@,
        decreases words@.len() - i,
    {
        r.push(owned(words[i]));
        i += 1;
    }
    r
}

/// The language's matchers, in priority order: whitespace, numbers, strings, `true`/`false`,
/// type names, keywords, operators (longer spellings first), symbols, names.
pub open spec fn standard_matchers(ms: Seq<Matcher>) -> bool {
    &&& (ms.len() == 10)
    &&& (ms[0] is Whitespace)
    &&& (ms[1] is FloatLiteral)
    &&& (ms[2] is IntLiteral)
    &&& (ms[3] is StringLiteral)
    &&& (ms[4] matches Matcher::Key(k) && k.token_type is BoolLiteral && texts(k.keys) == seq!["true"@, "false"@])
    &&& (ms[5] matches Matcher::Key(k) && k.token_type is Type && texts(k.keys) == seq!["num"@, "str"@, "bool"@, "any"@, "nil"@])
    &&& (ms[6] matches Matcher::Key(k) && k.token_type is Keyword && texts(k.keys) == seq!["if"@, "else"@, "elif"@])
    &&& (ms[7] matches Matcher::Constant(c) && c.token_type is Operator && texts(c.constants) == seq!["++"@, "+"@, "-"@, "*"@, "/"@, "%"@, "^"@, ">="@, "<="@, "=="@, "!="@, ">"@, "<"@, "="@])
    &&& (ms[8] matches Matcher::Constant(c) && c.token_type is Symbol && texts(c.constants) == seq!["("@, ")"@, "["@, "]"@, ","@, ":"@, "!"@, "{"@, "}"@, "|"@, "."@])
    &&& (ms[9] is Identifier)
}

/// A lexer for one line, with the language's matchers in priority order: whitespace, numbers,
/// strings, `true`/`false`, type names, keywords, operators, symbols, names.
pub fn lexer(data: &str, line: usize) -> (r: Lexer)
    ensures
        r.tokenizer.wf(),
        r.tokenizer.chars@ == data@,
        r.tokenizer.pos == 0,
        standard_matchers(r.matchers@),
{
    let tokenizer = Tokenizer::new(data, line);
    let mut lexer = Lexer::new(tokenizer);
    let symbols = strings_of(&["(", ")", "[", "]", ",", ":", "!", "{", "}", "|", "."]);
    let operators = strings_of(
        &["++", "+", "-", "*", "/", "%", "^", ">=", "<=", "==", "!=", ">", "<", "="],
    );
    let keywords = strings_of(&["if", "else", "elif"]);
    let types = strings_of(&["num", "str", "bool", "any", "nil"]);
    let boolean = strings_of(&["true", "false"]);
    assert(texts(symbols) =~= seq!["("@, ")"@, "["@, "]"@, ","@, ":"@, "!"@, "{"@, "}"@, "|"@, "."@]);
    assert(texts(operators) =~= seq![
        "++"@, "+"@, "-"@, "*"@, "/"@, "%"@, "^"@, ">="@, "<="@, "=="@, "!="@, ">"@, "<"@, "="@,
    ]);
    assert(texts(keywords) =~= seq!["if"@, "else"@, "elif"@]);
    assert(texts(types) =~= seq!["num"@, "str"@, "bool"@, "any"@, "nil"@]);
    assert(texts(boolean) =~= seq!["true"@, "false"@]);
    lexer.matchers.push(Matcher::Whitespace(WhitespaceMatcher));
    lexer.matchers.push(Matcher::FloatLiteral(FloatLiteralMatcher));
    lexer.matchers.push(Matcher::IntLiteral(IntLiteralMatcher {}));
    lexer.matchers.push(Matcher::StringLiteral(StringLiteralMatcher));
    lexer.matchers.push(Matcher::Key(KeyMatcher::new(TokenType::BoolLiteral, boolean)));
    lexer.matchers.push(Matcher::Key(KeyMatcher::new(TokenType::Type, types)));
    lexer.matchers.push(Matcher::Key(KeyMatcher::new(TokenType::Keyword, keywords)));
    lexer.matchers.push(Matcher::Constant(ConstantMatcher::new(TokenType::Operator, operators)));
    lexer.matchers.push(Matcher::Constant(ConstantMatcher::new(TokenType::Symbol, symbols)));
    lexer.matchers.push(Matcher::Identifier(IdentifierMatcher));
    lexer
}

impl Lexer {
    pub fn new(tokenizer: Tokenizer) -> (r: Lexer)
        ensures
            r.tokenizer == tokenizer,
            r.matchers.len() == 0,
    {
        Lexer { tokenizer, matchers: Vec::new() }
    }

    /// The first token that one of the matchers, tried in order, recognizes at the cursor.
    pub fn match_token(&mut self) -> (r: ParserResult<Option<Token>>)
        requires
            old(self).tokenizer.wf(),
        ensures
            outcome(old(self).tokenizer, final(self).tokenizer, r),
            final(self).matchers == old(self).matchers,
            ({
                let ms = old(self).matchers@;
                let chars = old(self).tokenizer.chars@;
                let pos = old(self).tokenizer.pos as int;
                &&& (r matches Ok(None) <==> forall|i: int| 0 <= i < ms.len() ==> declines(ms[i], chars, pos))
                &&& (!(r matches Ok(None)) ==> exists|i: int| 0 <= i < ms.len() && (forall|j: int| 0 <= j < i
                    ==> declines(ms[j], chars, pos)) && !declines(ms[i], chars, pos) && yields(
                    ms[i],
                    chars,
                    pos,
                    r,
                    final(self).tokenizer.pos as int,
                ))
            }),
    {
        let ghost chars = self.tokenizer.chars@;
        let ghost pos = self.tokenizer.pos as int;
        let mut i: usize = 0;
        while i < self.matchers.len()
            invariant
                self.tokenizer == old(self).tokenizer,
                self.matchers == old(self).matchers,
                self.tokenizer.wf(),
                chars == self.tokenizer.chars@,
                pos == self.tokenizer.pos as int,
                i <= self.matchers.len(),
                forall|j: int| 0 <= j < i ==> declines(self.matchers@[j], chars, pos),
            decreases self.matchers.len() - i,
        {
            match self.matchers[i].try_match(&mut self.tokenizer) {
                Ok(Some(t)) => {
                    return Ok(Some(t));
                },
                Ok(None) => {},
                Err(e) => {
                    return Err(e);
                },
            }
            i += 1;
        }
        Ok(None)
    }

    pub fn matchers(&self) -> (r: &Vec<Matcher>)
        ensures
            *r == self.matchers,
    {
        &self.matchers
    }

    pub fn matchers_mut(&mut self) -> (r: &mut Vec<Matcher>)
        ensures
            *r == old(self).matchers,
            final(self).matchers == *final(r),
            final(self).tokenizer == old(self).tokenizer,
    {
        &mut self.matchers
    }

    /// All the tokens of the line but whitespace, in order; a position where no matcher
    /// succeeds is an error.
    pub fn tokens(&mut self) -> (r: ParserResult<Vec<Token>>)
        requires
            old(self).tokenizer.wf(),
        ensures
            final(self).tokenizer.wf(),
            r is Ok ==> final(self).tokenizer.pos == final(self).tokenizer.chars.len(),
            r matches Ok(ts) ==> forall|i: int| 0 <= i < ts.len() ==> !(ts@[i].token_type is Whitespace),
            r matches Ok(ts) ==> lexes(old(self).matchers@, old(self).tokenizer.chars@, old(self).tokenizer.pos as int, ts@),
            r is Err ==> lex_fails(old(self).matchers@, old(self).tokenizer.chars@, old(self).tokenizer.pos as int),
    {
        let ghost ms = self.matchers@;
        let ghost chars = self.tokenizer.chars@;
        let ghost pos0 = self.tokenizer.pos as int;
        let mut out: Vec<Token> = Vec::new();
        proof {
            assert forall|rest: Seq<Token>| #[trigger] lexes(ms, chars, pos0, rest) implies lexes(ms, chars, pos0, out@ + rest) by {
                assert(out@ + rest =~= rest);
            }
        }
        while !self.tokenizer.end()
            invariant
                self.tokenizer.wf(),
                self.tokenizer.chars == old(self).tokenizer.chars,
                self.matchers@ == ms,
                chars == self.tokenizer.chars@,
                ms == old(self).matchers@,
                chars == old(self).tokenizer.chars@,
                pos0 == old(self).tokenizer.pos as int,
                forall|i: int| 0 <= i < out.len() ==> !(out@[i].token_type is Whitespace),
                forall|rest: Seq<Token>| #[trigger] lexes(ms, chars, self.tokenizer.pos as int, rest) ==> lexes(ms, chars, pos0, out@ + rest),
                lex_fails(ms, chars, self.tokenizer.pos as int) ==> lex_fails(ms, chars, pos0),
            decreases self.tokenizer.chars.len() - self.tokenizer.pos,
        {
            let ghost pos = self.tokenizer.pos as int;
            let ghost before = out@;
            match self.match_token() {
                Ok(Some(t)) => {
                    let ghost end = self.tokenizer.pos as int;
                    if !matches!(t.token_type, TokenType::Whitespace) {
                        out.push(t);
                    }
                    proof {
                        let r = Ok::<Option<Token>, ParserError>(Some(t));
                        let i = choose|i: int| 0 <= i < ms.len() && (forall|j: int| 0 <= j < i ==> declines(ms[j], chars, pos))
                            && !declines(ms[i], chars, pos) && yields(ms[i], chars, pos, r, end);
                        assert(decides(ms, chars, pos, i));
                        assert forall|rest: Seq<Token>| #[trigger] lexes(ms, chars, end, rest) implies lexes(ms, chars, pos0, out@ + rest) by {
                            if t.token_type is Whitespace {
                                assert(lexes(ms, chars, pos, rest));
                                assert(out@ == before);
                            } else {
                                let full = seq![t] + rest;
                                assert(full.subrange(1, full.len() as int) =~= rest);
                                assert(lexes(ms, chars, pos, full));
                                assert(before + full =~= out@ + rest);
                            }
                        }
                        assert(lex_fails(ms, chars, end) ==> lex_fails(ms, chars, pos));
                    }
                },
                Ok(None) => {
                    assert(lex_fails(ms, chars, pos));
                    let position = self.tokenizer.position();
                    let mut m = owned("unexpected character: ");
                    match self.tokenizer.peek() {
                        Some(c) => push_char(&mut m, c),
                        None => {},
                    }
                    return Err(ParserError::new_pos(position, m.as_str()));
                },
                Err(e) => {
                    proof {
                        let r = Err::<Option<Token>, ParserError>(e);
                        let end = self.tokenizer.pos as int;
                        let i = choose|i: int| 0 <= i < ms.len() && (forall|j: int| 0 <= j < i ==> declines(ms[j], chars, pos))
                            && !declines(ms[i], chars, pos) && yields(ms[i], chars, pos, r, end);
                        assert(decides(ms, chars, pos, i));
                        assert(lex_fails(ms, chars, pos));
                    }
                    return Err(e);
                },
            }
        }
        proof {
            assert(lexes(ms, chars, self.tokenizer.pos as int, Seq::<Token>::empty()));
            assert(out@ + Seq::<Token>::empty() =~= out@);
        }
        Ok(out)
    }
}

/// Whether matcher `i` is the one that decides at `pos`: the first in order that does not
/// decline.
pub open spec fn decides(ms: Seq<Matcher>, chars: Seq<char>, pos: int, i: int) -> bool {
    0 <= i < ms.len() && (forall|j: int| 0 <= j < i ==> declines(ms[j], chars, pos)) && !declines(ms[i], chars, pos)
}

/// Whether lexing `chars` from `pos` on yields `out`: at each position the deciding matcher
/// recognizes a token and moves on; whitespace tokens are dropped; the end of the text ends it.
pub open spec fn lexes(ms: Seq<Matcher>, chars: Seq<char>, pos: int, out: Seq<Token>) -> bool
    decreases chars.len() - pos,
{
    if pos < 0 || pos >= chars.len() {
        out.len() == 0
    } else {
        exists|i: int, tok: Token, end: int|
            #![trigger yields(ms[i], chars, pos, Ok::<Option<Token>, ParserError>(Some(tok)), end)]
            decides(ms, chars, pos, i) && yields(ms[i], chars, pos, Ok(Some(tok)), end) && pos < end
                <= chars.len() && if tok.token_type is Whitespace {
                lexes(ms, chars, end, out)
            } else {
                out.len() > 0 && out[0] == tok && lexes(ms, chars, end, out.subrange(1, out.len() as int))
            }
    }
}

/// Whether lexing `chars` from `pos` on fails: at some position reached every matcher
/// declines, or the deciding matcher fails.
pub open spec fn lex_fails(ms: Seq<Matcher>, chars: Seq<char>, pos: int) -> bool
    decreases chars.len() - pos,
{
    if pos < 0 || pos >= chars.len() {
        false
    } else {
        ||| (forall|i: int| 0 <= i < ms.len() ==> declines(ms[i], chars, pos))
        ||| (exists|i: int, e: ParserError, end: int|
            #![trigger yields(ms[i], chars, pos, Err::<Option<Token>, ParserError>(e), end)]
            decides(ms, chars, pos, i) && yields(ms[i], chars, pos, Err(e), end))
        ||| (exists|i: int, tok: Token, end: int|
            #![trigger yields(ms[i], chars, pos, Ok::<Option<Token>, ParserError>(Some(tok)), end)]
            decides(ms, chars, pos, i) && yields(ms[i], chars, pos, Ok(Some(tok)), end) && pos < end
                <= chars.len() && lex_fails(ms, chars, end))
    }
}

/// Whether `ts` is a line lexed: the tokens the language's matchers yield for it, then an
/// end-of-line token.
pub open spec fn line_lexed(line: Seq<char>, ts: Seq<Token>) -> bool {
    &&& ts.len() > 0
    &&& ts.last().token_type is EOL
    &&& ts.last().content@ == seq!['\n']
    &&& exists|ms: Seq<Matcher>| #[trigger] standard_matchers(ms) && lexes(ms, line, 0, ts.drop_last())
}

/// Whether `r` is `b` lexed, chunk by chunk and at every depth: each source line became the
/// token sequence of that line, each nested block the nested block lexed.
pub open spec fn lexed_from(b: Branch, r: Branch) -> bool
    decreases b,
    via lexed_from_decreases
{
    &&& r.value.len() == b.value.len()
    &&& forall|i: int| 0 <= i < b.value.len() ==> match (#[trigger] b.value@[i]).value {
        ChunkValue::Source(s) => r.value@[i].value matches ChunkValue::Tokens(ts) && line_lexed(s@, ts@),
        ChunkValue::Block(inner) => r.value@[i].value matches ChunkValue::Block(out) && lexed_from(inner, out),
        ChunkValue::Tokens(_) => false,
    }
}

#[via_fn]
proof fn lexed_from_decreases(b: Branch, r: Branch) {
    assert forall|i: int| 0 <= i < b.value.len() && b.value@[i].value is Block implies decreases_to!(
        b => b.value@[i].value->Block_0) by {
        let c = b.value@[i];
        assert(decreases_to!(b => b.value));
        assert(decreases_to!(b.value => b.value@));
        assert(decreases_to!(b.value@ => c));
        assert(decreases_to!(c => c.value));
        assert(decreases_to!(c.value => c.value->Block_0));
    }
}

/// Whether lexing a branch fails: some chunk, at some depth, is already lexed, or is a line
/// on which lexing fails.
pub open spec fn lex_fails_in(b: Branch) -> bool
    decreases b,
    via lex_fails_in_decreases
{
    exists|i: int| 0 <= i < b.value.len() && match (#[trigger] b.value@[i]).value {
        ChunkValue::Source(s) => exists|ms: Seq<Matcher>| #[trigger] standard_matchers(ms) && lex_fails(ms, s@, 0),
        ChunkValue::Block(inner) => lex_fails_in(inner),
        ChunkValue::Tokens(_) => true,
    }
}

#[via_fn]
proof fn lex_fails_in_decreases(b: Branch) {
    assert forall|i: int| 0 <= i < b.value.len() && b.value@[i].value is Block implies decreases_to!(
        b => b.value@[i].value->Block_0) by {
        let c = b.value@[i];
        assert(decreases_to!(b => b.value));
        assert(decreases_to!(b.value => b.value@));
        assert(decreases_to!(b.value@ => c));
        assert(decreases_to!(c => c.value));
        assert(decreases_to!(c.value => c.value->Block_0));
    }
}

/// The number of tokens a flattened sequence of chunks has at its top level: the tokens of
/// each token chunk, and one per nested block.
pub open spec fn flat_len(cs: Seq<Chunk>) -> nat
    decreases cs.len(),
{
    if cs.len() == 0 {
        0
    } else {
        flat_len(cs.drop_last()) + match cs.last().value {
            ChunkValue::Tokens(ts) => ts@.len(),
            ChunkValue::Block(_) => 1nat,
            ChunkValue::Source(_) => 0nat,
        }
    }
}

/// Whether `r` is the top level of `cs` flattened: the tokens of each token chunk in order,
/// and for each nested block one block token, with empty text, holding the block flattened.
pub open spec fn flattened(cs: Seq<Chunk>, r: Seq<Token>) -> bool
    decreases cs,
    via flattened_decreases
{
    if cs.len() == 0 {
        r.len() == 0
    } else {
        match cs.last().value {
            ChunkValue::Tokens(ts) => r.len() >= ts@.len() && r.subrange(r.len() - ts@.len(), r.len() as int)
                == ts@ && flattened(cs.drop_last(), r.subrange(0, r.len() - ts@.len())),
            ChunkValue::Block(b) => r.len() >= 1 && (r.last().token_type matches TokenType::Block(v) && flattened(
                b.value@,
                v@,
            )) && r.last().content@ == Seq::<char>::empty() && flattened(cs.drop_last(), r.drop_last()),
            ChunkValue::Source(_) => flattened(cs.drop_last(), r),
        }
    }
}

#[via_fn]
proof fn flattened_decreases(cs: Seq<Chunk>, r: Seq<Token>) {
    if cs.len() > 0 {
        let c = cs[cs.len() - 1];
        assert(decreases_to!(cs => c));
        assert(decreases_to!(c => c.value));
        if let ChunkValue::Block(b) = c.value {
            assert(decreases_to!(c.value => b));
            assert(decreases_to!(b => b.value));
            assert(decreases_to!(b.value => b.value@));
            assert(decreases_to!(cs => b.value@));
        }
        assert(decreases_to!(cs => cs.subrange(0, cs.len() - 1)));
    }
}

fn eol_token() -> (r: Token)
    ensures
        r.token_type is EOL,
        r.content@ == seq!['\n'],
{
    let mut s = String::new();
    push_char(&mut s, '\n');
    Token::new(TokenType::EOL, TokenPosition::default(), s)
}

/// Lexes every source line of a branch, and nested blocks recursively; each line's tokens
/// end with an end-of-line token. A chunk that is already lexed is an error.
pub fn lex_branch(branch: &Branch) -> (r: ParserResult<Branch>)
    ensures
        r matches Ok(lexed) ==> lexed_from(*branch, lexed),
        r is Err ==> lex_fails_in(*branch),
        forall|i: int| 0 <= i < branch.value.len() ==> (branch.value@[i].value is Tokens ==> r is Err),
    decreases branch,
{
    let mut out: Vec<Chunk> = Vec::new();
    let mut i: usize = 0;
    while i < branch.value.len()
        invariant
            i <= branch.value.len(),
            out.len() == i,
            forall|j: int| 0 <= j < i ==> match (#[trigger] branch.value@[j]).value {
                ChunkValue::Source(s) => out@[j].value matches ChunkValue::Tokens(ts) && line_lexed(s@, ts@),
                ChunkValue::Block(inner) => out@[j].value matches ChunkValue::Block(o) && lexed_from(inner, o),
                ChunkValue::Tokens(_) => false,
            },
        decreases branch.value.len() - i,
    {
        match &branch.value[i].value {
            ChunkValue::Source(s) => {
                let mut lx = lexer(s.as_str(), 1);
                let ghost ms = lx.matchers@;
                let mut line = match lx.tokens() {
                    Ok(ts) => ts,
                    Err(e) => {
                        proof {
                            assert(standard_matchers(ms) && lex_fails(ms, s@, 0));
                            assert(branch.value@[i as int].value == ChunkValue::Source(*s));
                        }
                        return Err(e);
                    },
                };
                let ghost toks = line@;
                line.push(eol_token());
                proof {
                    assert(line@.drop_last() =~= toks);
                    assert(standard_matchers(ms) && lexes(ms, s@, 0, line@.drop_last()));
                    assert(line_lexed(s@, line@));
                }
                out.push(Chunk::new(ChunkValue::Tokens(line)));
            },
            ChunkValue::Block(b) => {
                proof {
                    let c = branch.value@[i as int];
                    assert(decreases_to!(*branch => branch.value));
                    assert(decreases_to!(branch.value => c));
                    assert(decreases_to!(c => c.value));
                    assert(decreases_to!(c.value => *b));
                    assert(decreases_to!(*branch => *b));
                }
                let inner = match lex_branch(b) {
                    Ok(inner) => inner,
                    Err(e) => {
                        assert(branch.value@[i as int].value == ChunkValue::Block(*b));
                        return Err(e);
                    },
                };
                out.push(Chunk::new(ChunkValue::Block(inner)));
            },
            ChunkValue::Tokens(_) => {
                assert(branch.value@[i as int].value is Tokens);
                return Err(ParserError::new("line lexed twice"));
            },
        }
        i += 1;
    }
    Ok(Branch::new(out))
}

/// Flattens a lexed branch into one token stream: the tokens of each line in order, and for
/// each nested block a single block token holding the block's own flattened stream.
pub fn flatten_branch(branch: Branch) -> (r: Vec<Token>)
    ensures
        r.len() == flat_len(branch.value@),
        flattened(branch.value@, r@),
    decreases branch,
{
    let ghost all = branch.value@;
    assert(all.len() == branch.value.len());
    let mut chunks = branch.value;
    let mut rest = chunks.split_off(0);
    let mut flat: Vec<Token> = Vec::new();
    let mut done: usize = 0;
    assert(rest@ =~= all);
    while rest.len() > 0
        invariant
            done + rest.len() == all.len(),
            all.len() <= usize::MAX,
            all == branch.value@,
            rest@ == all.subrange(done as int, all.len() as int),
            flat.len() == flat_len(all.subrange(0, done as int)),
            flattened(all.subrange(0, done as int), flat@),
        decreases rest.len(),
    {
        let c = rest.remove(0);
        proof {
            assert(c == all[done as int]);
            let s = all.subrange(0, done + 1);
            assert(s.drop_last() =~= all.subrange(0, done as int));
            assert(s.last() == c);
            assert(rest@ =~= all.subrange(done + 1, all.len() as int));
        }
        let ghost before = flat@;
        match c.value {
            ChunkValue::Tokens(ts) => {
                let mut ts = ts;
                let ghost tv = ts@;
                flat.append(&mut ts);
                proof {
                    assert(flat@.subrange(flat@.len() - tv.len(), flat@.len() as int) =~= tv);
                    assert(flat@.subrange(0, flat@.len() - tv.len()) =~= before);
                }
            },
            ChunkValue::Block(b) => {
                proof {
                    assert(decreases_to!(branch => branch.value));
                    assert(decreases_to!(branch.value => branch.value[done as int]));
                    assert(decreases_to!(all[done as int] => all[done as int].value));
                    assert(decreases_to!(all[done as int].value => b));
                    assert(decreases_to!(branch => b));
                }
                let inner = flatten_branch(b);
                flat.push(Token::new(TokenType::Block(inner), TokenPosition::new(0, 0), String::new()));
                assert(flat@.drop_last() =~= before);
            },
            ChunkValue::Source(_) => {},
        }
        done += 1;
    }
    assert(all.subrange(0, all.len() as int) =~= all);
    flat
}

/// Lexes a block tree and flattens it into one token stream.
pub fn process_branch(branch: &Branch) -> (r: ParserResult<Vec<Token>>)
    ensures
        r matches Ok(ts) ==> exists|lexed: Branch| #[trigger] lexed_from(*branch, lexed) && flattened(lexed.value@, ts@),
        r is Err ==> lex_fails_in(*branch),
        forall|i: int| 0 <= i < branch.value.len() ==> (branch.value@[i].value is Tokens ==> r is Err),
{
    match lex_branch(branch) {
        Ok(lexed) => Ok(flatten_branch(lexed)),
        Err(e) => Err(e),
    }
}

} // verus!
