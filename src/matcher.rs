use vstd::prelude::*;
use crate::error::{ParserError, ParserResult};
use crate::text::{
    append, chars_of, decimal, decimal_string, is_alphanumeric, is_digit, is_digit_spec,
    is_alphabetic, is_whitespace, owned, push_char, string_of_range, unicode_alphabetic,
    unicode_alphanumeric, unicode_whitespace,
};
use crate::token::{same_kind, Token, TokenType};
use crate::tokenizer::{starts_at, Tokenizer};
use crate::traveler::same_shape;

verus! {

/// A character that may stand in a name.
pub open spec fn is_ident_char(c: char) -> bool {
    unicode_alphanumeric(c) || c == '_' || c == '@' || c == '?' || c == '\''
}

fn ident_char(c: char) -> (r: bool)
    ensures
        r == is_ident_char(c),
{
    is_alphanumeric(c) || c == '_' || c == '@' || c == '?' || c == '\''
}

/// Where the run of characters satisfying `p` that starts at `i` ends.
pub open spec fn run_end(chars: Seq<char>, i: int, p: spec_fn(char) -> bool) -> int
    decreases chars.len() - i,
{
    if i < 0 || i >= chars.len() || !p(chars[i]) {
        i
    } else {
        run_end(chars, i + 1, p)
    }
}

proof fn lemma_run_end_bounds(chars: Seq<char>, i: int, p: spec_fn(char) -> bool)
    requires
        0 <= i <= chars.len(),
    ensures
        i <= run_end(chars, i, p) <= chars.len(),
    decreases chars.len() - i,
{
    if i < chars.len() && p(chars[i]) {
        lemma_run_end_bounds(chars, i + 1, p);
    }
}

/// The value of a run of decimal digits.
pub open spec fn digits_value(s: Seq<char>) -> nat
    decreases s.len(),
{
    if s.len() == 0 {
        0
    } else {
        digits_value(s.drop_last()) * 10 + ((s.last() as nat) - ('0' as nat)) as nat
    }
}

/// What every matcher promises: a match moves the cursor on, a decline leaves it where it was.
pub open spec fn outcome(before: Tokenizer, after: Tokenizer, r: ParserResult<Option<Token>>) -> bool {
    &&& after.wf()
    &&& after.chars == before.chars
    &&& after.line == before.line
    &&& (r matches Ok(None) ==> after.pos == before.pos)
    &&& (r matches Ok(Some(_)) ==> after.pos > before.pos)
}

/// How many sign characters (`+` or `-`) stand at `pos`.
pub open spec fn sign_len(chars: Seq<char>, pos: int) -> int {
    if 0 <= pos < chars.len() && (chars[pos] == '-' || chars[pos] == '+') {
        1
    } else {
        0
    }
}

/// The largest magnitude an integer literal may have, by its sign.
pub open spec fn int_limit(negative: bool) -> nat {
    if negative {
        0x7fff_ffff_ffff_ffffnat
    } else {
        0xffff_ffff_ffff_ffffnat
    }
}

/// The text of an integer literal: its sign if negative, then its value in decimal.
pub open spec fn int_text(negative: bool, digits: Seq<char>) -> Seq<char> {
    if negative {
        seq!['-'] + decimal(digits_value(digits))
    } else {
        decimal(digits_value(digits))
    }
}

/// Scans the run of characters that satisfy `p` from position `from` on.
fn scan_run(chars: &Vec<char>, from: usize, p: Ghost<spec_fn(char) -> bool>, which: u8) -> (r: usize)
    requires
        from <= chars.len(),
        which == 0 ==> p@ == (|c: char| is_digit_spec(c)),
        which == 1 ==> p@ == (|c: char| unicode_whitespace(c)),
        which == 2 ==> p@ == (|c: char| is_ident_char(c)),
        which <= 2,
    ensures
        r == run_end(chars@, from as int, p@),
        from <= r <= chars.len(),
        forall|j: int| from <= j < r ==> p@(chars@[j]),
{
    let mut i = from;
    while i < chars.len()
        invariant
            from <= i <= chars.len(),
            run_end(chars@, from as int, p@) == run_end(chars@, i as int, p@),
            forall|j: int| from <= j < i ==> p@(chars@[j]),
            which == 0 ==> p@ == (|c: char| is_digit_spec(c)),
            which == 1 ==> p@ == (|c: char| unicode_whitespace(c)),
            which == 2 ==> p@ == (|c: char| is_ident_char(c)),
            which <= 2,
        decreases chars.len() - i,
    {
        let c = chars[i];
        let ok = if which == 0 {
            is_digit(c)
        } else if which == 1 {
            is_whitespace(c)
        } else {
            ident_char(c)
        };
        assert(ok == p@(c));
        if !ok {
            return i;
        }
        i += 1;
    }
    i
}

/// The value of the digits from `lo` up to `hi`, if it is at most `limit`.
fn digits_value_of(chars: &Vec<char>, lo: usize, hi: usize, limit: u64) -> (r: Option<u64>)
    requires
        lo <= hi <= chars.len(),
        limit >= 9,
        forall|j: int| lo <= j < hi ==> is_digit_spec(chars@[j]),
    ensures
        r is Some <==> digits_value(chars@.subrange(lo as int, hi as int)) <= limit,
        r matches Some(v) ==> v == digits_value(chars@.subrange(lo as int, hi as int)),
{
    let mut v: u64 = 0;
    let mut i = lo;
    while i < hi
        invariant
            lo <= i <= hi <= chars.len(),
            forall|j: int| lo <= j < hi ==> is_digit_spec(chars@[j]),
            v == digits_value(chars@.subrange(lo as int, i as int)),
            v <= limit,
            limit >= 9,
        decreases hi - i,
    {
        assert(is_digit_spec(chars@[i as int]));
        let d = (chars[i] as u32 - '0' as u32) as u64;
        assert(d <= 9);
        proof {
            let s = chars@.subrange(lo as int, i + 1);
            assert(s.drop_last() =~= chars@.subrange(lo as int, i as int));
            assert(s.last() == chars@[i as int]);
        }
        if v > (limit - d) / 10 {
            proof {
                lemma_digits_grow(chars@, lo as int, i as int, hi as int);
                assert(digits_value(chars@.subrange(lo as int, i + 1)) > limit) by (nonlinear_arith)
                    requires
                        v > (limit - d) / 10,
                        digits_value(chars@.subrange(lo as int, i + 1)) == v * 10 + d,
                        d <= 9,
                        d <= limit,
                ;
            }
            return None;
        }
        assert(v * 10 + d <= limit) by (nonlinear_arith)
            requires
                v <= (limit - d) / 10,
                d <= limit,
        ;
        v = v * 10 + d;
        i += 1;
    }
    Some(v)
}

proof fn lemma_digits_grow(chars: Seq<char>, lo: int, i: int, hi: int)
    requires
        0 <= lo <= i < hi <= chars.len(),
        forall|j: int| lo <= j < hi ==> is_digit_spec(chars[j]),
    ensures
        digits_value(chars.subrange(lo, hi)) >= digits_value(chars.subrange(lo, i + 1)),
    decreases hi - i,
{
    if i + 1 < hi {
        lemma_digits_grow(chars, lo, i + 1, hi);
        let s = chars.subrange(lo, i + 2);
        assert(s.drop_last() =~= chars.subrange(lo, i + 1));
    }
}

/// The text of an integer literal whose digits stand from `lo` up to `hi`.
fn int_literal_text(chars: &Vec<char>, lo: usize, hi: usize, negative: bool) -> (r: ParserResult<String>)
    requires
        lo <= hi <= chars.len(),
        forall|j: int| lo <= j < hi ==> is_digit_spec(chars@[j]),
    ensures
        r is Ok <==> digits_value(chars@.subrange(lo as int, hi as int)) <= int_limit(negative),
        r matches Ok(s) ==> s@ == int_text(negative, chars@.subrange(lo as int, hi as int)),
{
    let limit: u64 = if negative {
        0x7fff_ffff_ffff_ffff
    } else {
        0xffff_ffff_ffff_ffff
    };
    match digits_value_of(chars, lo, hi, limit) {
        Some(v) => {
            let mut s = String::new();
            if negative {
                push_char(&mut s, '-');
            }
            append(&mut s, decimal_string(v).as_str());
            Ok(s)
        },
        None => Err(ParserError::new("unable to parse int-literal")),
    }
}

/// Recognizes a run of whitespace, which the lexer then drops.
pub struct WhitespaceMatcher;

impl WhitespaceMatcher {
    pub fn try_match(&self, t: &mut Tokenizer) -> (r: ParserResult<Option<Token>>)
        requires
            old(t).wf(),
        ensures
            outcome(*old(t), *final(t), r),
            whitespace_yields(old(t).chars@, old(t).pos as int, r, final(t).pos as int),
    {
        let start = t.position();
        let end = scan_run(&t.chars, t.pos, Ghost(|c: char| unicode_whitespace(c)), 1);
        if end == t.pos {
            return Ok(None);
        }
        t.pos = end;
        Ok(Some(Token::new(TokenType::Whitespace, start, String::new())))
    }
}

/// Recognizes an integer literal: an optional sign and decimal digits.
pub struct IntLiteralMatcher {}

impl IntLiteralMatcher {
    pub fn try_match(&self, t: &mut Tokenizer) -> (r: ParserResult<Option<Token>>)
        requires
            old(t).wf(),
        ensures
            outcome(*old(t), *final(t), r),
            int_yields(old(t).chars@, old(t).pos as int, r, final(t).pos as int),
    {
        let position = t.position();
        let mut p = t.pos;
        let mut negative = false;
        if p < t.chars.len() && (t.chars[p] == '-' || t.chars[p] == '+') {
            negative = t.chars[p] == '-';
            p += 1;
        }
        let end = scan_run(&t.chars, p, Ghost(|c: char| is_digit_spec(c)), 0);
        if end == p {
            return Ok(None);
        }
        match int_literal_text(&t.chars, p, end, negative) {
            Ok(text) => {
                t.pos = end;
                Ok(Some(Token::new(TokenType::IntLiteral, position, text)))
            },
            Err(e) => Err(e),
        }
    }
}

/// A character of a number literal: a digit or a decimal point.
pub open spec fn is_number_char(c: char) -> bool {
    is_digit_spec(c) || c == '.'
}

/// How many decimal points a text holds.
pub open spec fn count_points(s: Seq<char>) -> nat
    decreases s.len(),
{
    if s.len() == 0 {
        0
    } else {
        count_points(s.drop_last()) + if s.last() == '.' {
            1nat
        } else {
            0nat
        }
    }
}

/// How many digits a text holds.
pub open spec fn count_digits(s: Seq<char>) -> nat
    decreases s.len(),
{
    if s.len() == 0 {
        0
    } else {
        count_digits(s.drop_last()) + if is_digit_spec(s.last()) {
            1nat
        } else {
            0nat
        }
    }
}

proof fn lemma_points_grow(s: Seq<char>, a: int, b: int, c: int)
    requires
        0 <= a <= b <= c <= s.len(),
    ensures
        count_points(s.subrange(a, c)) >= count_points(s.subrange(a, b)),
    decreases c - b,
{
    if b < c {
        lemma_points_grow(s, a, b, c - 1);
        assert(s.subrange(a, c).drop_last() =~= s.subrange(a, c - 1));
    }
}

/// Recognizes a number with an optional sign and at most one decimal point; without a
/// decimal point it is an integer literal.
pub struct FloatLiteralMatcher;

impl FloatLiteralMatcher {
    pub fn try_match(&self, t: &mut Tokenizer) -> (r: ParserResult<Option<Token>>)
        requires
            old(t).wf(),
        ensures
            outcome(*old(t), *final(t), r),
            float_yields(old(t).chars@, old(t).pos as int, r, final(t).pos as int),
    {
        let position = t.position();
        let n = t.chars.len();
        let mut p = t.pos;
        let mut negative = false;
        if p < n && (t.chars[p] == '-' || t.chars[p] == '+') {
            negative = t.chars[p] == '-';
            p += 1;
        }
        if p >= n {
            return Ok(None);
        }
        let first = t.chars[p];
        if !(is_digit(first) || first == '.') {
            return Ok(None);
        }
        let ghost chars = t.chars@;
        let ghost sign = if negative { seq!['-'] } else { Seq::<char>::empty() };
        let ghost lead = if first == '.' { seq!['0'] } else { Seq::<char>::empty() };
        let mut text = String::new();
        if negative {
            push_char(&mut text, '-');
        }
        if first == '.' {
            push_char(&mut text, '0');
        }
        let digits_from = p;
        let mut seen_point = false;
        let mut digits: usize = 0;
        let mut q = p;
        assert(text@ =~= sign + lead + chars.subrange(p as int, q as int));
        while q < n && (is_digit(t.chars[q]) || t.chars[q] == '.')
            invariant
                p <= q <= n,
                n == t.chars.len(),
                digits_from == p,
                *t == *old(t),
                chars == t.chars@,
                t.wf(),
                p == old(t).pos + sign_len(chars, old(t).pos as int),
                p < n,
                first == chars[p as int],
                is_number_char(first),
                negative == (sign_len(chars, old(t).pos as int) == 1 && chars[old(t).pos as int] == '-'),
                sign == (if negative { seq!['-'] } else { Seq::<char>::empty() }),
                lead == (if first == '.' { seq!['0'] } else { Seq::<char>::empty() }),
                digits <= q - p,
                run_end(chars, p as int, |c: char| is_number_char(c)) == run_end(chars, q as int, |c: char| is_number_char(c)),
                forall|j: int| p <= j < q ==> is_number_char(chars[j]),
                count_points(chars.subrange(p as int, q as int)) <= 1,
                seen_point == (count_points(chars.subrange(p as int, q as int)) == 1),
                digits == count_digits(chars.subrange(p as int, q as int)),
                !seen_point ==> forall|j: int| p <= j < q ==> is_digit_spec(chars[j]),
                text@ == sign + lead + chars.subrange(p as int, q as int),
            decreases n - q,
        {
            let c = t.chars[q];
            proof {
                let sub = chars.subrange(p as int, q + 1);
                assert(sub.drop_last() =~= chars.subrange(p as int, q as int));
                assert(sub.last() == c);
            }
            if c == '.' {
                if seen_point {
                    proof {
                        let pr = |c: char| is_number_char(c);
                        assert(pr(c));
                        assert(run_end(chars, q as int, pr) == run_end(chars, q + 1, pr));
                        lemma_run_end_bounds(chars, q + 1, pr);
                        lemma_points_grow(chars, p as int, q + 1, run_end(chars, p as int, pr));
                    }
                    return Err(ParserError::new_pos(position, "illegal decimal point"));
                }
                seen_point = true;
            } else {
                digits += 1;
            }
            let ghost before = text@;
            push_char(&mut text, c);
            assert(before.push(c) =~= sign + lead + chars.subrange(p as int, q + 1)) by {
                assert(chars.subrange(p as int, q + 1) =~= chars.subrange(p as int, q as int).push(c));
            }
            q += 1;
        }
        assert(run_end(chars, q as int, |c: char| is_number_char(c)) == q);
        if !seen_point {
            return match int_literal_text(&t.chars, digits_from, q, negative) {
                Ok(s) => {
                    t.pos = q;
                    Ok(Some(Token::new(TokenType::IntLiteral, position, s)))
                },
                Err(e) => Err(e),
            };
        }
        if digits == 0 {
            return Ok(None);
        }
        assert(chars.subrange(p as int, q as int)[0] == first);
        t.pos = q;
        Ok(Some(Token::new(TokenType::FloatLiteral, position, text)))
    }
}

/// The character an escape sequence `\\e` stands for, if `e` may follow a backslash.
pub open spec fn unescape(e: char) -> Option<char> {
    if e == '\\' || e == '\'' || e == '"' {
        Some(e)
    } else if e == 'n' {
        Some('\n')
    } else if e == 'r' {
        Some('\r')
    } else if e == 't' {
        Some('\t')
    } else {
        None
    }
}

/// Reads the body of a string literal from `i` on, up to the closing `delim`: the characters
/// it stands for and where the closing delimiter is; `None` when it is unterminated or holds
/// an escape that is not allowed. A raw body is taken as it stands.
pub open spec fn scan_string(s: Seq<char>, i: int, delim: char, raw: bool) -> Option<(Seq<char>, int)>
    decreases s.len() - i,
{
    if i < 0 || i >= s.len() {
        None
    } else if s[i] == delim {
        Some((Seq::empty(), i))
    } else if raw || s[i] != '\\' {
        match scan_string(s, i + 1, delim, raw) {
            Some((t, e)) => Some((seq![s[i]] + t, e)),
            None => None,
        }
    } else if i + 1 >= s.len() {
        None
    } else {
        match unescape(s[i + 1]) {
            Some(c) => match scan_string(s, i + 2, delim, raw) {
                Some((t, e)) => Some((seq![c] + t, e)),
                None => None,
            },
            None => None,
        }
    }
}

/// How a string literal opens at `pos`, if one does: its delimiter, whether it is raw, and
/// where its body starts.
pub open spec fn string_start(s: Seq<char>, pos: int) -> Option<(char, bool, int)> {
    if 0 <= pos < s.len() && (s[pos] == '"' || s[pos] == '\'') {
        Some((s[pos], false, pos + 1))
    } else if 0 <= pos && pos + 1 < s.len() && s[pos] == 'r' && (s[pos + 1] == '"' || s[pos + 1] == '\'') {
        Some((s[pos + 1], true, pos + 2))
    } else {
        None
    }
}

/// Recognizes a string literal between `"` or `'`, with backslash escapes, or a raw string
/// (`r` then the delimiter) taken as it stands.
pub struct StringLiteralMatcher;

impl StringLiteralMatcher {
    pub fn try_match(&self, t: &mut Tokenizer) -> (r: ParserResult<Option<Token>>)
        requires
            old(t).wf(),
        ensures
            outcome(*old(t), *final(t), r),
            string_yields(old(t).chars@, old(t).pos as int, r, final(t).pos as int),
    {
        let position = t.position();
        let n = t.chars.len();
        let start = t.pos;
        if start >= n {
            return Ok(None);
        }
        let c0 = t.chars[start];
        let mut raw = false;
        let delimiter: char;
        let mut p: usize;
        if c0 == '"' || c0 == '\'' {
            delimiter = c0;
            p = start + 1;
        } else if c0 == 'r' && start + 1 < n && (t.chars[start + 1] == '"' || t.chars[start + 1] == '\'') {
            raw = true;
            delimiter = t.chars[start + 1];
            p = start + 2;
        } else {
            return Ok(None);
        }
        let mut s = String::new();
        let ghost body = p as int;
        let ghost chars = t.chars@;
        assert(string_start(chars, start as int) == Some((delimiter, raw, body)));
        proof {
            if let Some((rest, e)) = scan_string(chars, body, delimiter, raw) {
                assert(s@ + rest =~= rest);
            }
        }
        loop
            invariant
                start < p <= n,
                n == t.chars.len(),
                *t == *old(t),
                chars == t.chars@,
                t.wf(),
                start == old(t).pos,
                string_start(chars, start as int) == Some((delimiter, raw, body)),
                scan_string(chars, body, delimiter, raw) == match scan_string(chars, p as int, delimiter, raw) {
                    Some((rest, e)) => Some((s@ + rest, e)),
                    None => None,
                },
            ensures
                start < p < n,
                *t == *old(t),
                chars[p as int] == delimiter,
                scan_string(chars, body, delimiter, raw) == Some((s@, p as int)),
            decreases n - p,
        {
            if p >= n {
                assert(scan_string(chars, p as int, delimiter, raw) is None);
                return Err(ParserError::new_pos(position, "unterminated string literal"));
            }
            let c = t.chars[p];
            if c == delimiter {
                assert(s@ + Seq::<char>::empty() =~= s@);
                break;
            }
            let ghost before = s@;
            if raw || c != '\\' {
                push_char(&mut s, c);
                p += 1;
                proof {
                    if let Some((rest, e)) = scan_string(chars, p as int, delimiter, raw) {
                        assert(before + (seq![c] + rest) =~= s@ + rest);
                    }
                }
            } else {
                if p + 1 >= n {
                    assert(scan_string(chars, p as int, delimiter, raw) is None);
                    return Err(ParserError::new_pos(position, "unterminated string literal"));
                }
                let e = t.chars[p + 1];
                let actual = if e == '\\' || e == '\'' || e == '"' {
                    e
                } else if e == 'n' {
                    '\n'
                } else if e == 'r' {
                    '\r'
                } else if e == 't' {
                    '\t'
                } else {
                    assert(unescape(e) is None);
                    assert(scan_string(chars, p as int, delimiter, raw) is None);
                    let mut m = owned("unwanted character escape: ");
                    push_char(&mut m, e);
                    return Err(ParserError::new_pos(position, m.as_str()));
                };
                push_char(&mut s, actual);
                p += 2;
                proof {
                    assert(unescape(e) == Some(actual));
                    if let Some((rest, e2)) = scan_string(chars, p as int, delimiter, raw) {
                        assert(before + (seq![actual] + rest) =~= s@ + rest);
                    }
                }
            }
        }
        t.pos = p + 1;
        Ok(Some(Token::new(TokenType::StringLiteral, position, s)))
    }
}

/// Whether constant `c` is nonempty and stands at `pos`.
pub open spec fn constant_at(chars: Seq<char>, pos: int, c: Seq<char>) -> bool {
    c.len() > 0 && starts_at(chars, pos, c)
}

/// A letter or a decimal digit: what may not follow a key.
pub open spec fn is_letter_or_digit(c: char) -> bool {
    unicode_alphabetic(c) || is_digit_spec(c)
}

/// Whether key `k` is nonempty, stands at `pos`, and is not followed by a letter or a digit.
pub open spec fn key_at(chars: Seq<char>, pos: int, k: Seq<char>) -> bool {
    k.len() > 0 && starts_at(chars, pos, k) && (pos + k.len() == chars.len() || !is_letter_or_digit(
        chars[pos + k.len()],
    ))
}

/// The texts of a list of strings.
pub open spec fn texts(v: Vec<String>) -> Seq<Seq<char>> {
    v@.map_values(|s: String| s@)
}

/// Recognizes the first of a list of fixed texts (symbols, operators) that stands at the cursor.
pub struct ConstantMatcher {
    pub token_type: TokenType,
    pub constants: Vec<String>,
}

impl ConstantMatcher {
    pub fn new(token_type: TokenType, constants: Vec<String>) -> (r: Self)
        ensures
            r.token_type == token_type,
            r.constants == constants,
    {
        ConstantMatcher { token_type, constants }
    }

    pub fn try_match(&self, t: &mut Tokenizer) -> (r: ParserResult<Option<Token>>)
        requires
            old(t).wf(),
        ensures
            outcome(*old(t), *final(t), r),
            constant_yields(*self, old(t).chars@, old(t).pos as int, r, final(t).pos as int),
    {
        let ghost cs = texts(self.constants);
        let mut i: usize = 0;
        while i < self.constants.len()
            invariant
                *t == *old(t),
                t.wf(),
                cs == texts(self.constants),
                i <= self.constants.len(),
                forall|j: int| 0 <= j < i ==> !constant_at(t.chars@, t.pos as int, cs[j]),
            decreases self.constants.len() - i,
        {
            let c = chars_of(self.constants[i].as_str());
            if c.len() > 0 && t.starts_with(&c) {
                assert(constant_at(old(t).chars@, old(t).pos as int, cs[i as int]));
                let position = t.position();
                t.advance(c.len());
                return Ok(Some(Token::new(same_shape(&self.token_type), position, self.constants[i].clone())));
            }
            assert(!constant_at(old(t).chars@, old(t).pos as int, cs[i as int]));
            i += 1;
        }
        Ok(None)
    }
}

/// Recognizes the first of a list of words (keywords, type names, `true` and `false`) that
/// stands at the cursor and is not followed by a letter or a digit.
pub struct KeyMatcher {
    pub token_type: TokenType,
    pub keys: Vec<String>,
}

impl KeyMatcher {
    pub fn new(token_type: TokenType, keys: Vec<String>) -> (r: Self)
        ensures
            r.token_type == token_type,
            r.keys == keys,
    {
        KeyMatcher { token_type, keys }
    }

    pub fn try_match(&self, t: &mut Tokenizer) -> (r: ParserResult<Option<Token>>)
        requires
            old(t).wf(),
        ensures
            outcome(*old(t), *final(t), r),
            key_yields(*self, old(t).chars@, old(t).pos as int, r, final(t).pos as int),
    {
        let ghost ks = texts(self.keys);
        let mut i: usize = 0;
        while i < self.keys.len()
            invariant
                *t == *old(t),
                t.wf(),
                ks == texts(self.keys),
                i <= self.keys.len(),
                forall|j: int| 0 <= j < i ==> !key_at(t.chars@, t.pos as int, ks[j]),
            decreases self.keys.len() - i,
        {
            let k = chars_of(self.keys[i].as_str());
            if k.len() > 0 && t.starts_with(&k) {
                let after = t.peek_n(k.len());
                let boundary = match after {
                    Some(c) => !(is_alphabetic(c) || is_digit(c)),
                    None => true,
                };
                if boundary {
                    assert(key_at(old(t).chars@, old(t).pos as int, ks[i as int]));
                    let position = t.position();
                    t.advance(k.len());
                    return Ok(Some(Token::new(same_shape(&self.token_type), position, self.keys[i].clone())));
                }
            }
            i += 1;
        }
        Ok(None)
    }
}

/// Recognizes a name: a run of letters, digits, `_`, `@`, `?` and `'`.
pub struct IdentifierMatcher;

impl IdentifierMatcher {
    pub fn try_match(&self, t: &mut Tokenizer) -> (r: ParserResult<Option<Token>>)
        requires
            old(t).wf(),
        ensures
            outcome(*old(t), *final(t), r),
            identifier_yields(old(t).chars@, old(t).pos as int, r, final(t).pos as int),
    {
        let start = t.position();
        let end = scan_run(&t.chars, t.pos, Ghost(|c: char| is_ident_char(c)), 2);
        if end == t.pos {
            return Ok(None);
        }
        let text = string_of_range(&t.chars, t.pos, end);
        t.pos = end;
        Ok(Some(Token::new(TokenType::Identifier, start, text)))
    }
}

/// What the whitespace matcher does at `pos`: it takes the run of whitespace there, and
/// yields a whitespace token unless the run is empty; the cursor ends at `end`.
pub open spec fn whitespace_yields(chars: Seq<char>, pos: int, r: ParserResult<Option<Token>>, end: int) -> bool {
    &&& r is Ok
    &&& end == run_end(chars, pos, |c: char| unicode_whitespace(c))
    &&& (r matches Ok(Some(tok)) ==> tok.token_type is Whitespace)
}

/// What the integer matcher does at `pos`: an optional sign, then the run of digits, whose
/// value must fit; the token's text is the value in decimal, with its sign if negative.
pub open spec fn int_yields(chars: Seq<char>, pos: int, r: ParserResult<Option<Token>>, end: int) -> bool {
    let start = pos + sign_len(chars, pos);
    let stop = run_end(chars, start, |c: char| is_digit_spec(c));
    let negative = sign_len(chars, pos) == 1 && chars[pos] == '-';
    &&& (r matches Ok(None) <==> stop == start)
    &&& (r is Err <==> stop > start && digits_value(chars.subrange(start, stop)) > int_limit(negative))
    &&& (r matches Ok(Some(tok)) ==> tok.token_type is IntLiteral && end == stop && tok.content@ == int_text(
        negative,
        chars.subrange(start, stop),
    ))
}

/// What the number matcher does at `pos`: an optional sign, then the run of digits and
/// decimal points. Two points are an error; none makes an integer literal; a lone point is no
/// number; otherwise a float literal whose text is the run, led by `0` when it starts with
/// the point, with its sign if negative.
pub open spec fn float_yields(chars: Seq<char>, pos: int, r: ParserResult<Option<Token>>, end: int) -> bool {
    let start = pos + sign_len(chars, pos);
    let negative = sign_len(chars, pos) == 1 && chars[pos] == '-';
    let stop = run_end(chars, start, |c: char| is_number_char(c));
    let run = chars.subrange(start, stop);
    let sign = if negative {
        seq!['-']
    } else {
        Seq::<char>::empty()
    };
    if start >= chars.len() || !is_number_char(chars[start]) {
        r matches Ok(None)
    } else if count_points(run) >= 2 {
        r is Err
    } else if count_points(run) == 0 {
        if digits_value(run) > int_limit(negative) {
            r is Err
        } else {
            r matches Ok(Some(tok)) && tok.token_type is IntLiteral && tok.content@ == int_text(negative, run)
                && end == stop
        }
    } else if count_digits(run) == 0 {
        r matches Ok(None)
    } else {
        r matches Ok(Some(tok)) && tok.token_type is FloatLiteral && tok.content@ == sign + (if run[0] == '.' {
            seq!['0']
        } else {
            Seq::<char>::empty()
        }) + run && end == stop
    }
}

/// What the string matcher does at `pos`: nothing unless a literal opens there; else the
/// characters the literal stands for, the cursor just past its closing delimiter, or an error
/// when it is unterminated or holds an escape that is not allowed.
pub open spec fn string_yields(chars: Seq<char>, pos: int, r: ParserResult<Option<Token>>, end: int) -> bool {
    match string_start(chars, pos) {
        None => r matches Ok(None),
        Some((delim, raw, body)) => match scan_string(chars, body, delim, raw) {
            Some((text, close)) => r matches Ok(Some(tok)) && tok.token_type is StringLiteral && tok.content@
                == text && end == close + 1,
            None => r is Err,
        },
    }
}

/// What a constant matcher does at `pos`: the first of its constants that stands there, if any.
pub open spec fn constant_yields(m: ConstantMatcher, chars: Seq<char>, pos: int, r: ParserResult<Option<Token>>, end: int) -> bool {
    let cs = texts(m.constants);
    &&& r is Ok
    &&& (r matches Ok(None) ==> forall|i: int| 0 <= i < cs.len() ==> !constant_at(chars, pos, cs[i]))
    &&& (r matches Ok(Some(tok)) ==> exists|i: int| 0 <= i < cs.len() && constant_at(chars, pos, cs[i]) && (forall|j: int|
        0 <= j < i ==> !constant_at(chars, pos, cs[j])) && tok.content@ == cs[i] && end == pos + cs[i].len()
        && same_kind(tok.token_type, m.token_type))
}

/// What a key matcher does at `pos`: the first of its words that stands there and is not
/// followed by a letter or a digit, if any.
pub open spec fn key_yields(m: KeyMatcher, chars: Seq<char>, pos: int, r: ParserResult<Option<Token>>, end: int) -> bool {
    let ks = texts(m.keys);
    &&& r is Ok
    &&& (r matches Ok(None) ==> forall|i: int| 0 <= i < ks.len() ==> !key_at(chars, pos, ks[i]))
    &&& (r matches Ok(Some(tok)) ==> exists|i: int| 0 <= i < ks.len() && key_at(chars, pos, ks[i]) && (forall|j: int|
        0 <= j < i ==> !key_at(chars, pos, ks[j])) && tok.content@ == ks[i] && end == pos + ks[i].len()
        && same_kind(tok.token_type, m.token_type))
}

/// What the name matcher does at `pos`: the run of name characters there, if not empty.
pub open spec fn identifier_yields(chars: Seq<char>, pos: int, r: ParserResult<Option<Token>>, end: int) -> bool {
    &&& r is Ok
    &&& end == run_end(chars, pos, |c: char| is_ident_char(c))
    &&& (r matches Ok(Some(tok)) ==> tok.token_type is Identifier && tok.content@ == chars.subrange(pos, end))
}

/// What a matcher does at `pos`, leaving the cursor at `end`.
pub open spec fn yields(m: Matcher, chars: Seq<char>, pos: int, r: ParserResult<Option<Token>>, end: int) -> bool {
    match m {
        Matcher::Whitespace(_) => whitespace_yields(chars, pos, r, end),
        Matcher::IntLiteral(_) => int_yields(chars, pos, r, end),
        Matcher::FloatLiteral(_) => float_yields(chars, pos, r, end),
        Matcher::StringLiteral(_) => string_yields(chars, pos, r, end),
        Matcher::Constant(c) => constant_yields(c, chars, pos, r, end),
        Matcher::Key(k) => key_yields(k, chars, pos, r, end),
        Matcher::Identifier(_) => identifier_yields(chars, pos, r, end),
    }
}

/// Whether a matcher recognizes nothing at `pos`.
pub open spec fn declines(m: Matcher, chars: Seq<char>, pos: int) -> bool {
    match m {
        Matcher::Whitespace(_) => run_end(chars, pos, |c: char| unicode_whitespace(c)) == pos,
        Matcher::IntLiteral(_) => {
            let start = pos + sign_len(chars, pos);
            run_end(chars, start, |c: char| is_digit_spec(c)) == start
        },
        Matcher::FloatLiteral(_) => {
            let start = pos + sign_len(chars, pos);
            let run = chars.subrange(start, run_end(chars, start, |c: char| is_number_char(c)));
            start >= chars.len() || !is_number_char(chars[start]) || (count_points(run) == 1 && count_digits(run)
                == 0)
        },
        Matcher::StringLiteral(_) => string_start(chars, pos) is None,
        Matcher::Constant(c) => forall|i: int| 0 <= i < texts(c.constants).len() ==> !constant_at(chars, pos, texts(c.constants)[i]),
        Matcher::Key(k) => forall|i: int| 0 <= i < texts(k.keys).len() ==> !key_at(chars, pos, texts(k.keys)[i]),
        Matcher::Identifier(_) => run_end(chars, pos, |c: char| is_ident_char(c)) == pos,
    }
}

/// The matchers a lexer tries, in order.
pub enum Matcher {
    Whitespace(WhitespaceMatcher),
    IntLiteral(IntLiteralMatcher),
    FloatLiteral(FloatLiteralMatcher),
    StringLiteral(StringLiteralMatcher),
    Constant(ConstantMatcher),
    Key(KeyMatcher),
    Identifier(IdentifierMatcher),
}

impl Matcher {
    /// Tries to recognize a token at the cursor.
    pub fn try_match(&self, t: &mut Tokenizer) -> (r: ParserResult<Option<Token>>)
        requires
            old(t).wf(),
        ensures
            outcome(*old(t), *final(t), r),
            yields(*self, old(t).chars@, old(t).pos as int, r, final(t).pos as int),
            r matches Ok(None) <==> declines(*self, old(t).chars@, old(t).pos as int),
    {
        match self {
            Matcher::Whitespace(m) => m.try_match(t),
            Matcher::IntLiteral(m) => m.try_match(t),
            Matcher::FloatLiteral(m) => m.try_match(t),
            Matcher::StringLiteral(m) => m.try_match(t),
            Matcher::Constant(m) => m.try_match(t),
            Matcher::Key(m) => m.try_match(t),
            Matcher::Identifier(m) => m.try_match(t),
        }
    }
}

} // verus!
