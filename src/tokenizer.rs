use vstd::prelude::*;
use crate::text::chars_of;
use crate::token::TokenPosition;

verus! {

/// A cursor over the characters of one line of source text.
pub struct Tokenizer {
    pub chars: Vec<char>,
    pub pos: usize,
    pub line: usize,
}

impl Tokenizer {
    pub open spec fn wf(&self) -> bool {
        self.pos <= self.chars.len()
    }

    /// A cursor at the start of `data`, which is line `line` of its source.
    pub fn new(data: &str, line: usize) -> (r: Tokenizer)
        ensures
            r.wf(),
            r.chars@ == data@,
            r.pos == 0,
            r.line == line,
    {
        Tokenizer { chars: chars_of(data), pos: 0, line }
    }

    /// Whether all characters have been consumed.
    pub fn end(&self) -> (r: bool)
        requires
            self.wf(),
        ensures
            r == (self.pos == self.chars.len()),
    {
        self.pos >= self.chars.len()
    }

    /// The current character.
    pub fn peek(&self) -> (r: Option<char>)
        ensures
            self.pos < self.chars.len() ==> r == Some(self.chars@[self.pos as int]),
            self.pos >= self.chars.len() ==> r is None,
    {
        if self.pos < self.chars.len() {
            Some(self.chars[self.pos])
        } else {
            None
        }
    }

    /// The character `n` places after the current one.
    pub fn peek_n(&self, n: usize) -> (r: Option<char>)
        ensures
            self.pos + n < self.chars.len() ==> r == Some(self.chars@[self.pos + n]),
            self.pos + n >= self.chars.len() ==> r is None,
    {
        if n < self.chars.len() && self.pos < self.chars.len() - n {
            Some(self.chars[self.pos + n])
        } else {
            None
        }
    }

    /// Consumes and returns the current character.
    pub fn next(&mut self) -> (r: Option<char>)
        requires
            old(self).wf(),
        ensures
            final(self).wf(),
            final(self).chars == old(self).chars,
            final(self).line == old(self).line,
            old(self).pos < old(self).chars.len() ==> r == Some(old(self).chars@[old(self).pos as int])
                && final(self).pos == old(self).pos + 1,
            old(self).pos == old(self).chars.len() ==> r is None && final(self).pos == old(self).pos,
    {
        if self.pos < self.chars.len() {
            let c = self.chars[self.pos];
            self.pos += 1;
            Some(c)
        } else {
            None
        }
    }

    /// Moves `n` characters on, stopping at the end.
    pub fn advance(&mut self, n: usize)
        requires
            old(self).wf(),
        ensures
            final(self).wf(),
            final(self).chars == old(self).chars,
            final(self).line == old(self).line,
            final(self).pos == if old(self).pos + n <= old(self).chars.len() {
                old(self).pos + n
            } else {
                old(self).chars.len() as int
            },
    {
        if n <= self.chars.len() - self.pos {
            self.pos += n;
        } else {
            self.pos = self.chars.len();
        }
    }

    /// Where the current character stands.
    pub fn position(&self) -> (r: TokenPosition)
        ensures
            r.line == self.line && r.col == self.pos,
    {
        TokenPosition::new(self.line, self.pos)
    }

    /// Whether the characters from the current one on begin with `s`.
    pub fn starts_with(&self, s: &Vec<char>) -> (r: bool)
        requires
            self.wf(),
        ensures
            r == starts_at(self.chars@, self.pos as int, s@),
    {
        if s.len() > self.chars.len() - self.pos {
            return false;
        }
        let mut i: usize = 0;
        while i < s.len()
            invariant
                i <= s.len(),
                self.pos + s.len() <= self.chars.len(),
                forall|j: int| 0 <= j < i ==> self.chars@[self.pos + j] == s@[j],
            decreases s.len() - i,
        {
            if self.chars[self.pos + i] != s[i] {
                return false;
            }
            i += 1;
        }
        assert(self.chars@.subrange(self.pos as int, self.pos + s.len()) =~= s@);
        true
    }
}

/// Whether `s` stands in `chars` from position `pos` on.
pub open spec fn starts_at(chars: Seq<char>, pos: int, s: Seq<char>) -> bool {
    0 <= pos && pos + s.len() <= chars.len() && chars.subrange(pos, pos + s.len()) == s
}

} // verus!
