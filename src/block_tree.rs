use vstd::prelude::*;
use crate::text::{chars_of, is_whitespace, string_of_range, unicode_whitespace};
use crate::token::Token;

verus! {

/// What a chunk of a block tree holds: a source line, its tokens, or a nested block.
#[derive(Debug)]
pub enum ChunkValue {
    Source(String),
    Tokens(Vec<Token>),
    Block(Branch),
}

#[derive(Debug)]
pub struct Chunk {
    pub value: ChunkValue,
}

impl Chunk {
    pub fn new(value: ChunkValue) -> (r: Chunk)
        ensures
            r.value == value,
    {
        Chunk { value }
    }

    pub fn value(&self) -> (r: &ChunkValue)
        ensures
            *r == self.value,
    {
        &self.value
    }
}

/// An ordered sequence of chunks: one level of the block tree.
#[derive(Debug)]
pub struct Branch {
    pub value: Vec<Chunk>,
}

impl Branch {
    pub fn new(value: Vec<Chunk>) -> (r: Branch)
        ensures
            r.value == value,
    {
        Branch { value }
    }
}

/// The source lines of a branch, nested blocks included, in order.
pub open spec fn sources(b: Branch) -> Seq<Seq<char>>
    decreases b,
    via sources_decreases
{
    chunk_sources(b.value@)
}

/// The source lines of a sequence of chunks, in order.
pub open spec fn chunk_sources(cs: Seq<Chunk>) -> Seq<Seq<char>>
    decreases cs,
    via chunk_sources_decreases
{
    if cs.len() == 0 {
        Seq::empty()
    } else {
        chunk_sources(cs.drop_last()) + match cs.last().value {
            ChunkValue::Source(s) => seq![s@],
            ChunkValue::Block(b) => sources(b),
            ChunkValue::Tokens(_) => Seq::empty(),
        }
    }
}

#[via_fn]
proof fn sources_decreases(b: Branch) {
    assert(decreases_to!(b => b.value));
    assert(decreases_to!(b.value => b.value@));
    assert(decreases_to!(b => b.value@));
}

#[via_fn]
proof fn chunk_sources_decreases(cs: Seq<Chunk>) {
    if cs.len() > 0 {
        let c = cs[cs.len() - 1];
        assert(decreases_to!(cs => c));
        assert(decreases_to!(c => c.value));
        if let ChunkValue::Block(b) = c.value {
            assert(decreases_to!(c.value => b));
            assert(decreases_to!(cs => b));
        }
        assert(decreases_to!(cs => cs.subrange(0, cs.len() - 1)));
    }
}

/// The number of leading blanks (spaces and tabs) of a line.
pub open spec fn leading_blanks(s: Seq<char>) -> nat
    decreases s.len(),
{
    if s.len() > 0 && (s[0] == ' ' || s[0] == '\t') {
        1 + leading_blanks(s.subrange(1, s.len() as int))
    } else {
        0
    }
}

/// How deep inside `open`/`close` pairs the text leaves one who starts `d` deep; a stray
/// `close` at depth zero is ignored.
pub open spec fn depth_after(d: nat, s: Seq<char>, open: char, close: char) -> nat
    decreases s.len(),
{
    if s.len() == 0 {
        d
    } else {
        let e = depth_after(d, s.drop_last(), open, close);
        if s.last() == open {
            if e < usize::MAX {
                e + 1
            } else {
                e
            }
        } else if s.last() == close {
            if e > 0 {
                (e - 1) as nat
            } else {
                0
            }
        } else {
            e
        }
    }
}

/// A line with what follows its first `~` (a comment) taken away.
pub open spec fn strip_comment(s: Seq<char>) -> Seq<char>
    decreases s.len(),
{
    if s.len() == 0 {
        s
    } else if s[0] == '~' {
        Seq::empty()
    } else {
        seq![s[0]] + strip_comment(s.subrange(1, s.len() as int))
    }
}

/// Where the line that starts at `i` ends: at the next line break, or at the end of the text.
pub open spec fn line_end(s: Seq<char>, i: int) -> int
    decreases s.len() - i,
{
    if i < 0 || i >= s.len() || s[i] == '\n' {
        i
    } else {
        line_end(s, i + 1)
    }
}

/// The first position from `i` on, before `end`, that holds `~`; else `end`.
pub open spec fn comment_start(s: Seq<char>, i: int, end: int) -> int
    decreases end - i,
{
    if i >= end || s[i] == '~' {
        i
    } else {
        comment_start(s, i + 1, end)
    }
}

/// The first position from `i` on, before `end`, that is not whitespace; else `end`.
pub open spec fn first_solid(s: Seq<char>, i: int, end: int) -> int
    decreases end - i,
{
    if i >= end || !unicode_whitespace(s[i]) {
        i
    } else {
        first_solid(s, i + 1, end)
    }
}

/// The end of the text from `lo` up to `hi` once trailing whitespace is trimmed.
pub open spec fn solid_end(s: Seq<char>, lo: int, hi: int) -> int
    decreases hi - lo,
{
    if hi <= lo || !unicode_whitespace(s[hi - 1]) {
        hi
    } else {
        solid_end(s, lo, hi - 1)
    }
}

proof fn lemma_line_end_bounds(s: Seq<char>, i: int)
    requires
        0 <= i <= s.len(),
    ensures
        i <= line_end(s, i) <= s.len(),
    decreases s.len() - i,
{
    if i < s.len() && s[i] != '\n' {
        lemma_line_end_bounds(s, i + 1);
    }
}

/// The lines of a text, from position `i` on, that hold more than whitespace and a comment:
/// each with what follows `~` removed and whitespace trimmed at both ends.
pub open spec fn line_items(s: Seq<char>, i: int) -> Seq<Seq<char>>
    decreases s.len() - i,
    via line_items_decreases
{
    if i < 0 || i >= s.len() {
        Seq::empty()
    } else {
        let end = line_end(s, i);
        let cut = comment_start(s, i, end);
        let lo = first_solid(s, i, cut);
        let hi = solid_end(s, lo, cut);
        let rest = if end < s.len() {
            line_items(s, end + 1)
        } else {
            Seq::empty()
        };
        if hi > lo {
            seq![s.subrange(lo, hi)] + rest
        } else {
            rest
        }
    }
}

#[via_fn]
proof fn line_items_decreases(s: Seq<char>, i: int) {
    if 0 <= i < s.len() {
        lemma_line_end_bounds(s, i);
    }
}

/// The indentation of each line that `line_items` keeps, from position `i` on, given the
/// parenthesis and brace depths `d` and `b` before it and the indentation `last` of the line
/// kept before it: its leading blanks when no bracket is open, else `last`. Brackets are
/// counted on the line with its comment removed.
pub open spec fn line_indents(s: Seq<char>, i: int, d: nat, b: nat, last: nat) -> Seq<nat>
    decreases s.len() - i,
    via line_indents_decreases
{
    if i < 0 || i >= s.len() {
        Seq::empty()
    } else {
        let end = line_end(s, i);
        let cut = comment_start(s, i, end);
        let lo = first_solid(s, i, cut);
        let hi = solid_end(s, lo, cut);
        let line = s.subrange(i, cut);
        let ind = if d == 0 && b == 0 {
            leading_blanks(line)
        } else {
            last
        };
        if hi > lo {
            seq![ind] + if end < s.len() {
                line_indents(s, end + 1, depth_after(d, line, '(', ')'), depth_after(b, line, '{', '}'), ind)
            } else {
                Seq::empty()
            }
        } else if end < s.len() {
            line_indents(s, end + 1, d, b, last)
        } else {
            Seq::empty()
        }
    }
}

#[via_fn]
proof fn line_indents_decreases(s: Seq<char>, i: int, d: nat, b: nat, last: nat) {
    if 0 <= i < s.len() {
        lemma_line_end_bounds(s, i);
    }
}

/// The lines of a source text that `BlockTree::indents` keeps, each with its indentation.
pub open spec fn source_lines(s: Seq<char>) -> Seq<(nat, Seq<char>)> {
    Seq::new(line_items(s, 0).len(), |k: int| (line_indents(s, 0, 0, 0, 0)[k], line_items(s, 0)[k]))
}

/// A line list as the grouping sees it: each line's indentation and text.
pub open spec fn line_view(lines: Seq<(usize, String)>) -> Seq<(nat, Seq<char>)> {
    lines.map_values(|p: (usize, String)| (p.0 as nat, p.1@))
}

/// The first line from `i` on that is less indented than `depth`; else the number of lines.
pub open spec fn block_end(lines: Seq<(nat, Seq<char>)>, i: int, depth: nat) -> int
    decreases lines.len() - i,
{
    if i < 0 || i >= lines.len() || lines[i].0 < depth {
        i
    } else {
        block_end(lines, i + 1, depth)
    }
}

/// Whether the chunks `cs` group the lines from `i` up to `j` at depth `base`: a line of that
/// depth is a source chunk; a deeper line opens a block of the lines up to the first one less
/// indented than it, grouped the same way at its depth.
pub open spec fn grouped(cs: Seq<Chunk>, lines: Seq<(nat, Seq<char>)>, i: int, j: int, base: nat) -> bool
    decreases cs,
    via grouped_decreases
{
    if cs.len() == 0 {
        i == j
    } else {
        0 <= i < j <= lines.len() && match cs[0].value {
            ChunkValue::Source(s) => lines[i].0 == base && s@ == lines[i].1 && grouped(
                cs.subrange(1, cs.len() as int),
                lines,
                i + 1,
                j,
                base,
            ),
            ChunkValue::Block(b) => {
                let k = block_end(lines, i, lines[i].0);
                &&& lines[i].0 > base
                &&& k <= j
                &&& grouped(b.value@, lines, i, k, lines[i].0)
                &&& grouped(cs.subrange(1, cs.len() as int), lines, k, j, base)
            },
            ChunkValue::Tokens(_) => false,
        }
    }
}

#[via_fn]
proof fn grouped_decreases(cs: Seq<Chunk>, lines: Seq<(nat, Seq<char>)>, i: int, j: int, base: nat) {
    if cs.len() > 0 {
        let c = cs[0];
        assert(decreases_to!(cs => c));
        assert(decreases_to!(c => c.value));
        if let ChunkValue::Block(b) = c.value {
            assert(decreases_to!(c.value => b));
            assert(decreases_to!(b => b.value));
            assert(decreases_to!(b.value => b.value@));
            assert(decreases_to!(cs => b.value@));
        }
        assert(decreases_to!(cs => cs.subrange(1, cs.len() as int)));
    }
}

proof fn lemma_block_end_at(lines: Seq<(nat, Seq<char>)>, i: int, depth: nat, k: int)
    requires
        0 <= i <= k <= lines.len(),
        forall|m: int| i <= m < k ==> (#[trigger] lines[m]).0 >= depth,
        k == lines.len() || lines[k].0 < depth,
    ensures
        block_end(lines, i, depth) == k,
    decreases k - i,
{
    if i < k {
        lemma_block_end_at(lines, i + 1, depth, k);
    }
}

proof fn lemma_grouped_push(cs: Seq<Chunk>, c: Chunk, lines: Seq<(nat, Seq<char>)>, i: int, j: int, k: int, base: nat)
    requires
        grouped(cs, lines, i, j, base),
        grouped(seq![c], lines, j, k, base),
    ensures
        grouped(cs.push(c), lines, i, k, base),
    decreases cs.len(),
{
    let one = seq![c];
    assert(one.subrange(1, 1) =~= Seq::<Chunk>::empty());
    if cs.len() == 0 {
        assert(cs.push(c) =~= one);
    } else {
        let rest = cs.subrange(1, cs.len() as int);
        assert(cs.push(c).subrange(1, cs.len() + 1int) =~= rest.push(c));
        assert(cs.push(c)[0] == cs[0]);
        match cs[0].value {
            ChunkValue::Source(_) => {
                lemma_grouped_push(rest, c, lines, i + 1, j, k, base);
            },
            ChunkValue::Block(b) => {
                let m = block_end(lines, i, lines[i].0);
                lemma_grouped_push(rest, c, lines, m, j, k, base);
            },
            ChunkValue::Tokens(_) => {},
        }
    }
}

/// Builds the block tree of a source text: lines grouped by indentation.
pub struct BlockTree {
    pub source: Vec<char>,
    pub current_line: usize,
    pub inside: usize,
    pub inside_brace: usize,
    pub last_indent: usize,
}

impl BlockTree {
    pub fn new(source: &str, current_line: usize) -> (r: BlockTree)
        ensures
            r.current_line == current_line,
            r.inside == 0 && r.inside_brace == 0 && r.last_indent == 0,
            r.source@ == source@,
    {
        BlockTree { source: chars_of(source), current_line, inside: 0, inside_brace: 0, last_indent: 0 }
    }

    /// The indentation of each line that holds more than blanks and a comment, with its text
    /// (comment removed, blanks trimmed), in order.
    pub fn indents(&mut self) -> (r: Vec<(usize, String)>)
        ensures
            final(self).current_line == old(self).current_line,
            final(self).source == old(self).source,
            r@.map_values(|p: (usize, String)| p.1@) == line_items(old(self).source@, 0),
            r@.map_values(|p: (usize, String)| p.0 as nat) == line_indents(
                old(self).source@,
                0,
                old(self).inside as nat,
                old(self).inside_brace as nat,
                old(self).last_indent as nat,
            ),
    {
        let mut out: Vec<(usize, String)> = Vec::new();
        let n = self.source.len();
        let mut start: usize = 0;
        while start < n
            invariant
                start <= n == self.source.len(),
                self.current_line == old(self).current_line,
                self.source == old(self).source,
                out@.map_values(|p: (usize, String)| p.1@) + line_items(self.source@, start as int)
                    == line_items(self.source@, 0),
                out@.map_values(|p: (usize, String)| p.0 as nat) + line_indents(
                    self.source@,
                    start as int,
                    self.inside as nat,
                    self.inside_brace as nat,
                    self.last_indent as nat,
                ) == line_indents(
                    self.source@,
                    0,
                    old(self).inside as nat,
                    old(self).inside_brace as nat,
                    old(self).last_indent as nat,
                ),
            decreases n - start,
        {
            let ghost src = self.source@;
            let mut end = start;
            while end < n && self.source[end] != '\n'
                invariant
                    start <= end <= n == self.source.len(),
                    src == self.source@,
                    line_end(src, start as int) == line_end(src, end as int),
                decreases n - end,
            {
                end += 1;
            }
            let mut cut = start;
            while cut < end && self.source[cut] != '~'
                invariant
                    start <= cut <= end <= n == self.source.len(),
                    src == self.source@,
                    comment_start(src, start as int, end as int) == comment_start(src, cut as int, end as int),
                decreases end - cut,
            {
                cut += 1;
            }
            let mut lo = start;
            while lo < cut && is_whitespace(self.source[lo])
                invariant
                    start <= lo <= cut <= end <= n == self.source.len(),
                    src == self.source@,
                    first_solid(src, start as int, cut as int) == first_solid(src, lo as int, cut as int),
                decreases cut - lo,
            {
                lo += 1;
            }
            let mut hi = cut;
            while hi > lo && is_whitespace(self.source[hi - 1])
                invariant
                    start <= lo <= hi <= cut <= end <= n == self.source.len(),
                    src == self.source@,
                    solid_end(src, lo as int, cut as int) == solid_end(src, lo as int, hi as int),
                decreases hi - lo,
            {
                hi -= 1;
            }
            let ghost before = out@;
            let ghost d0 = self.inside as nat;
            let ghost b0 = self.inside_brace as nat;
            let ghost l0 = self.last_indent as nat;
            if hi > lo {
                let line = string_of_range(&self.source, start, cut);
                let indent = self.indent(line.as_str());
                let text = string_of_range(&self.source, lo, hi);
                out.push((indent, text));
                proof {
                    assert(out@.map_values(|p: (usize, String)| p.1@) =~= before.map_values(
                        |p: (usize, String)| p.1@,
                    ).push(src.subrange(lo as int, hi as int)));
                    assert(out@.map_values(|p: (usize, String)| p.0 as nat) =~= before.map_values(
                        |p: (usize, String)| p.0 as nat,
                    ).push(indent as nat));
                    assert(line@ == src.subrange(start as int, cut as int));
                }
            }
            let next = if end < n {
                end + 1
            } else {
                n
            };
            proof {
                let line = src.subrange(start as int, cut as int);
                let ind = if d0 == 0 && b0 == 0 {
                    leading_blanks(line)
                } else {
                    l0
                };
                let rest_i = if end < n {
                    line_indents(src, end + 1, self.inside as nat, self.inside_brace as nat, self.last_indent as nat)
                } else {
                    Seq::<nat>::empty()
                };
                assert(line_indents(src, next as int, self.inside as nat, self.inside_brace as nat, self.last_indent as nat) == rest_i);
                if hi > lo {
                    assert(line_indents(src, start as int, d0, b0, l0) == seq![ind] + rest_i);
                    assert(before.map_values(|p: (usize, String)| p.0 as nat).push(ind) + rest_i =~= before.map_values(
                        |p: (usize, String)| p.0 as nat,
                    ) + (seq![ind] + rest_i));
                } else {
                    assert(line_indents(src, start as int, d0, b0, l0) == rest_i);
                }
                let items = line_items(src, start as int);
                let rest = if end < n {
                    line_items(src, end + 1)
                } else {
                    Seq::<Seq<char>>::empty()
                };
                assert(line_items(src, next as int) == rest);
                if hi > lo {
                    assert(items == seq![src.subrange(lo as int, hi as int)] + rest);
                    assert(before.map_values(|p: (usize, String)| p.1@).push(src.subrange(lo as int, hi as int))
                        + rest =~= before.map_values(|p: (usize, String)| p.1@) + (seq![
                        src.subrange(lo as int, hi as int),
                    ] + rest));
                } else {
                    assert(items == rest);
                }
            }
            start = next;
        }
        proof {
            assert(line_indents(self.source@, start as int, self.inside as nat, self.inside_brace as nat, self.last_indent as nat) == Seq::<nat>::empty());
            assert(out@.map_values(|p: (usize, String)| p.0 as nat) + Seq::<nat>::empty()
                =~= out@.map_values(|p: (usize, String)| p.0 as nat));
            assert(line_items(self.source@, start as int) == Seq::<Seq<char>>::empty());
            assert(out@.map_values(|p: (usize, String)| p.1@) + Seq::<Seq<char>>::empty()
                =~= out@.map_values(|p: (usize, String)| p.1@));
        }
        out
    }

    /// The indentation of a line: its leading blanks, unless a parenthesis or brace opened on
    /// an earlier line is still open, in which case the line continues the one before and takes
    /// its indentation. Counts the line's brackets afterwards.
    pub fn indent(&mut self, line: &str) -> (r: usize)
        ensures
            old(self).inside == 0 && old(self).inside_brace == 0 ==> r == leading_blanks(line@),
            old(self).inside > 0 || old(self).inside_brace > 0 ==> r == old(self).last_indent,
            final(self).last_indent == r,
            final(self).current_line == old(self).current_line,
            final(self).source == old(self).source,
            final(self).inside == depth_after(old(self).inside as nat, line@, '(', ')'),
            final(self).inside_brace == depth_after(old(self).inside_brace as nat, line@, '{', '}'),
    {
        let cs = chars_of(line);
        let n = cs.len();
        let mut pos: usize = self.last_indent;
        if self.inside == 0 && self.inside_brace == 0 {
            pos = 0;
            assert(cs@.subrange(0, n as int) =~= line@);
            while pos < n && (cs[pos] == ' ' || cs[pos] == '\t')
                invariant
                    pos <= n == cs.len(),
                    cs@ == line@,
                    leading_blanks(line@) == pos + leading_blanks(cs@.subrange(pos as int, n as int)),
                decreases n - pos,
            {
                proof {
                    let s = cs@.subrange(pos as int, n as int);
                    assert(s.subrange(1, s.len() as int) =~= cs@.subrange(pos + 1, n as int));
                }
                pos += 1;
            }
            proof {
                assert(cs@.subrange(0, n as int) =~= cs@);
            }
        }
        let mut i: usize = 0;
        let ghost d0 = self.inside as nat;
        let ghost b0 = self.inside_brace as nat;
        while i < n
            invariant
                i <= n == cs.len(),
                cs@ == line@,
                self.current_line == old(self).current_line,
                self.source == old(self).source,
                self.inside == depth_after(d0, cs@.subrange(0, i as int), '(', ')'),
                self.inside_brace == depth_after(b0, cs@.subrange(0, i as int), '{', '}'),
            decreases n - i,
        {
            proof {
                let s = cs@.subrange(0, i + 1);
                assert(s.drop_last() =~= cs@.subrange(0, i as int));
                assert(s.last() == cs@[i as int]);
            }
            let c = cs[i];
            if c == '(' {
                if self.inside < usize::MAX {
                    self.inside += 1;
                }
            } else if c == ')' {
                if self.inside > 0 {
                    self.inside -= 1;
                }
            } else if c == '{' {
                if self.inside_brace < usize::MAX {
                    self.inside_brace += 1;
                }
            } else if c == '}' {
                if self.inside_brace > 0 {
                    self.inside_brace -= 1;
                }
            }
            i += 1;
        }
        proof {
            assert(cs@.subrange(0, n as int) =~= cs@);
        }
        self.last_indent = pos;
        pos
    }

    /// Groups lines, from the current one on, into a branch: lines as deep as the first are
    /// its chunks, deeper runs become nested blocks, and a shallower line ends the branch.
    pub fn tree(&mut self, indents: &Vec<(usize, String)>) -> (r: Branch)
        requires
            old(self).current_line <= indents.len(),
        ensures
            old(self).current_line <= final(self).current_line <= indents.len(),
            old(self).current_line < indents.len() ==> old(self).current_line < final(self).current_line,
            sources(r) == indents@.subrange(old(self).current_line as int, final(self).current_line as int).map_values(
                |p: (usize, String)| p.1@,
            ),
            final(self).current_line < indents.len() ==> indents@[final(self).current_line as int].0
                < indents@[old(self).current_line as int].0,
            forall|m: int| old(self).current_line <= m < final(self).current_line ==> (#[trigger] indents@[m]).0
                >= indents@[old(self).current_line as int].0,
            old(self).current_line >= indents.len() ==> r.value.len() == 0,
            old(self).current_line < indents.len() ==> grouped(
                r.value@,
                line_view(indents@),
                old(self).current_line as int,
                final(self).current_line as int,
                indents@[old(self).current_line as int].0 as nat,
            ),
        decreases indents.len() - old(self).current_line,
    {
        let mut branch = Branch::new(Vec::new());
        let entry = self.current_line;
        if entry >= indents.len() {
            proof {
                assert(indents@.subrange(entry as int, entry as int).map_values(|p: (usize, String)| p.1@) =~= Seq::<Seq<char>>::empty());
            }
            return branch;
        }
        let base = indents[entry].0;
        while self.current_line < indents.len()
            invariant
                entry <= self.current_line <= indents.len(),
                entry == old(self).current_line,
                entry < indents.len(),
                base == indents@[entry as int].0,
                self.current_line == entry || entry < self.current_line,
                self.current_line == entry ==> branch.value.len() == 0,
                forall|m: int| entry <= m < self.current_line ==> (#[trigger] indents@[m]).0 >= base,
                grouped(branch.value@, line_view(indents@), entry as int, self.current_line as int, base as nat),
                sources(branch) == indents@.subrange(entry as int, self.current_line as int).map_values(
                    |p: (usize, String)| p.1@,
                ),
            decreases indents.len() - self.current_line,
        {
            let indent = indents[self.current_line].0;
            let ghost before = branch.value@;
            let ghost at = self.current_line;
            if indent == base {
                let text = indents[self.current_line].1.clone();
                let chunk = Chunk::new(ChunkValue::Source(text));
                proof {
                    let one = seq![chunk];
                    assert(one.subrange(1, 1) =~= Seq::<Chunk>::empty());
                    let lv = line_view(indents@);
                    assert(lv[at as int] == (indents@[at as int].0 as nat, indents@[at as int].1@));
                    assert(grouped(Seq::<Chunk>::empty(), lv, at + 1, at + 1, base as nat));
                    assert(one[0].value == ChunkValue::Source(text));
                    assert(grouped(one, lv, at as int, at + 1, base as nat));
                    lemma_grouped_push(before, chunk, lv, entry as int, at as int, at + 1, base as nat);
                }
                branch.value.push(chunk);
                self.current_line += 1;
                proof {
                    assert(branch.value@.drop_last() =~= before);
                    assert(indents@.subrange(entry as int, self.current_line as int).map_values(|p: (usize, String)| p.1@)
                        =~= indents@.subrange(entry as int, at as int).map_values(|p: (usize, String)| p.1@) + seq![indents@[at as int].1@]);
                }
            } else if indent < base {
                return branch;
            } else {
                let nested = self.tree(indents);
                let chunk = Chunk::new(ChunkValue::Block(nested));
                proof {
                    let k = self.current_line as int;
                    let lv = line_view(indents@);
                    assert(forall|m: int| 0 <= m < lv.len() ==> (#[trigger] lv[m]).0 == indents@[m].0 as nat);
                    lemma_block_end_at(lv, at as int, indent as nat, k);
                    let one = seq![chunk];
                    assert(one.subrange(1, 1) =~= Seq::<Chunk>::empty());
                    assert(grouped(Seq::<Chunk>::empty(), lv, k, k, base as nat));
                    assert(one[0].value == ChunkValue::Block(nested));
                    assert(grouped(nested.value@, lv, at as int, k, indent as nat));
                    assert(grouped(one, lv, at as int, k, base as nat));
                    lemma_grouped_push(before, chunk, lv, entry as int, at as int, k, base as nat);
                }
                branch.value.push(chunk);
                proof {
                    assert(branch.value@.drop_last() =~= before);
                    assert(indents@.subrange(entry as int, self.current_line as int).map_values(|p: (usize, String)| p.1@)
                        =~= indents@.subrange(entry as int, at as int).map_values(|p: (usize, String)| p.1@)
                        + indents@.subrange(at as int, self.current_line as int).map_values(|p: (usize, String)| p.1@));
                }
            }
        }
        branch
    }
}

} // verus!
