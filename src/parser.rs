use vstd::prelude::*;
use crate::ast::{get_operand, get_type, operand_of, rank, type_keyword, Expression, Operand, SType, Statement, Type};
use crate::env::types_view;
use crate::symtab::names_view;
use crate::error::{ParserError, ParserResult};
use crate::text::{append, owned, text_eq};
use crate::token::{weight, Token, TokenPosition, TokenType};
use crate::traveler::{lemma_weight_len, lemma_weight_step, Traveler};

verus! {

/// A number literal token.
pub open spec fn is_number_token(t: Token) -> bool {
    t.token_type is IntLiteral || t.token_type is FloatLiteral
}

/// Whether a token can start an argument of a call written without parentheses.
pub open spec fn starts_argument(t: Token) -> bool {
    t.token_type is IntLiteral || t.token_type is FloatLiteral || t.token_type is BoolLiteral
        || t.token_type is StringLiteral || t.token_type is Identifier
}

/// Whether a token after a name leaves it a plain name: it is no `(` and starts no argument.
pub open spec fn ends_name(t: Token) -> bool {
    t.content@ != "("@ && !starts_argument(t)
}

/// Whether the token at `p` is an atom: a literal, or a name that no call follows.
pub open spec fn is_atom(ts: Seq<Token>, p: int) -> bool {
    ||| is_number_token(ts[p])
    ||| ts[p].token_type is StringLiteral
    ||| ts[p].token_type is BoolLiteral
    ||| (ts[p].token_type is Identifier && p + 1 < ts.len() && ends_name(ts[p + 1]))
}

/// The expression an atom token stands for.
pub open spec fn atom_expr(t: Token) -> Expression {
    if is_number_token(t) {
        Expression::NumberLiteral(t.content)
    } else if t.token_type is StringLiteral {
        Expression::StringLiteral(t.content)
    } else if t.token_type is BoolLiteral {
        Expression::BoolLiteral(t.content@ == "true"@)
    } else {
        Expression::Identifier(t.content)
    }
}

/// Whether the tokens from `top` on are `n + 1` atoms joined by `n` operators,
/// all before the end markers, and followed by a token that is no operator.
pub open spec fn number_chain(ts: Seq<Token>, top: int, n: nat) -> bool {
    &&& 0 <= top
    &&& top + 2 * n + 2 < ts.len()
    &&& forall|k: int| 0 <= k <= n ==> #[trigger] is_atom(ts, top + 2 * k)
    &&& forall|k: int| 0 <= k < n ==> (#[trigger] ts[top + 2 * k + 1]).token_type is Operator && operand_of(
        ts[top + 2 * k + 1].content@,
    ) is Some
    &&& !(ts[top + 2 * n + 1].token_type is Operator)
}

/// Whether the tokens from `top` up to `end` are lines, one per entry of `ns`, each a chain
/// of `ns[i] + 1` atoms joined by operators and ended by an end-of-line token.
pub open spec fn chain_lines(ts: Seq<Token>, top: int, ns: Seq<nat>, end: int) -> bool
    decreases ns.len(),
{
    if ns.len() == 0 {
        top == end
    } else {
        let n = ns[0];
        &&& 0 <= top
        &&& top + 2 * n + 1 < end <= ts.len()
        &&& forall|k: int| 0 <= k <= n ==> #[trigger] is_atom(ts, top + 2 * k)
        &&& forall|k: int| 0 <= k < n ==> (#[trigger] ts[top + 2 * k + 1]).token_type is Operator && operand_of(
            ts[top + 2 * k + 1].content@,
        ) is Some
        &&& ts[top + 2 * n + 1].token_type is EOL
        &&& chain_lines(ts, top + 2 * n + 2, ns.subrange(1, ns.len() as int), end)
    }
}

/// The statements of such lines: the precedence tree of each chain.
pub open spec fn chain_trees(ts: Seq<Token>, top: int, ns: Seq<nat>) -> Seq<Statement>
    decreases ns.len(),
{
    if ns.len() == 0 {
        Seq::empty()
    } else {
        seq![Statement::Expression(prec_tree(chain_terms(ts, top, ns[0]), chain_ops(ts, top, ns[0])))]
            + chain_trees(ts, top + 2 * ns[0] + 2, ns.subrange(1, ns.len() as int))
    }
}

/// Whether the tokens from `p` on are call arguments, one chain of atoms and operators per
/// entry of `ns` (`ns[i] + 1` atoms), separated by commas and closed by `)`, all before the
/// end markers.
pub open spec fn chain_args(ts: Seq<Token>, p: int, ns: Seq<nat>) -> bool
    decreases ns.len(),
{
    if ns.len() == 0 {
        0 <= p && p + 2 < ts.len() && ts[p].content@ == ")"@
    } else {
        let q = p + 2 * ns[0] + 1;
        &&& number_chain(ts, p, ns[0])
        &&& ts[p].content@ != ")"@
        &&& if ns.len() == 1 {
            q + 2 < ts.len() && ts[q].content@ == ")"@
        } else {
            ts[q].content@ == ","@ && chain_args(ts, q + 1, ns.subrange(1, ns.len() as int))
        }
    }
}

/// Where the `)` that closes such arguments stands.
pub open spec fn chain_args_close(ts: Seq<Token>, p: int, ns: Seq<nat>) -> int
    decreases ns.len(),
{
    if ns.len() == 0 {
        p
    } else if ns.len() == 1 {
        p + 2 * ns[0] + 1
    } else {
        chain_args_close(ts, p + 2 * ns[0] + 2, ns.subrange(1, ns.len() as int))
    }
}

/// The arguments such tokens stand for: the precedence tree of each chain.
pub open spec fn chain_arg_terms(ts: Seq<Token>, p: int, ns: Seq<nat>) -> Seq<Expression>
    decreases ns.len(),
{
    if ns.len() == 0 {
        Seq::empty()
    } else {
        seq![prec_tree(chain_terms(ts, p, ns[0]), chain_ops(ts, p, ns[0]))] + chain_arg_terms(
            ts,
            p + 2 * ns[0] + 2,
            ns.subrange(1, ns.len() as int),
        )
    }
}

/// Where the name of a parameter that starts at `p` stands: after its type, when it has one.
pub open spec fn param_ident(p: int, typed: bool) -> int {
    if typed {
        p + 1
    } else {
        p
    }
}

/// Whether the tokens from `p` on are parameters, one per entry of `shape` (whether it is
/// typed): an optional type keyword then a name, separated by commas and closed by `)`, all
/// before the end markers.
pub open spec fn params_at(ts: Seq<Token>, p: int, shape: Seq<bool>) -> bool
    decreases shape.len(),
{
    if shape.len() == 0 {
        0 <= p && p + 2 < ts.len() && ts[p].content@ == ")"@
    } else {
        let id = param_ident(p, shape[0]);
        &&& 0 <= p
        &&& id + 3 < ts.len()
        &&& ts[p].content@ != ")"@
        &&& (shape[0] ==> ts[p].token_type is Type && type_keyword(ts[p].content@) is Some)
        &&& (!shape[0] ==> !(ts[p].token_type is Type))
        &&& ts[id].token_type is Identifier
        &&& if shape.len() == 1 {
            ts[id + 1].content@ == ")"@
        } else {
            ts[id + 1].content@ == ","@ && params_at(ts, id + 2, shape.subrange(1, shape.len() as int))
        }
    }
}

/// Where the `)` that closes such parameters stands.
pub open spec fn params_close(ts: Seq<Token>, p: int, shape: Seq<bool>) -> int
    decreases shape.len(),
{
    if shape.len() == 0 {
        p
    } else if shape.len() == 1 {
        param_ident(p, shape[0]) + 1
    } else {
        params_close(ts, param_ident(p, shape[0]) + 2, shape.subrange(1, shape.len() as int))
    }
}

/// The names of such parameters.
pub open spec fn param_names_at(ts: Seq<Token>, p: int, shape: Seq<bool>) -> Seq<Seq<char>>
    decreases shape.len(),
{
    if shape.len() == 0 {
        Seq::empty()
    } else {
        seq![ts[param_ident(p, shape[0])].content@] + param_names_at(
            ts,
            param_ident(p, shape[0]) + 2,
            shape.subrange(1, shape.len() as int),
        )
    }
}

/// The types of such parameters: the type keyword's type, or `Any` when there is none.
pub open spec fn param_types_at(ts: Seq<Token>, p: int, shape: Seq<bool>) -> Seq<SType>
    decreases shape.len(),
{
    if shape.len() == 0 {
        Seq::empty()
    } else {
        seq![
            if shape[0] {
                type_keyword(ts[p].content@)->0
            } else {
                SType::Any
            },
        ] + param_types_at(ts, param_ident(p, shape[0]) + 2, shape.subrange(1, shape.len() as int))
    }
}

/// Whether the tokens from `p` on are the rest of a named function literal after its `(`:
/// parameters, `)`, a name, `=`, and a body that is a chain of `n + 1` atoms.
pub open spec fn lambda_tail(ts: Seq<Token>, p: int, shape: Seq<bool>, n: nat) -> bool {
    let c = params_close(ts, p, shape);
    &&& params_at(ts, p, shape)
    &&& ts[c + 1].token_type is Identifier
    &&& ts[c + 2].content@ == "="@
    &&& number_chain(ts, c + 3, n)
}

/// Whether the tokens from `top` on are a named function literal whose body is a chain of
/// `n + 1` atoms: `type ( parameters ) name = chain`.
pub open spec fn lambda_at(ts: Seq<Token>, top: int, shape: Seq<bool>, n: nat) -> bool {
    &&& 0 <= top
    &&& ts[top].token_type is Type
    &&& type_keyword(ts[top].content@) is Some
    &&& ts[top + 1].token_type is Symbol
    &&& ts[top + 1].content@ == "("@
    &&& lambda_tail(ts, top + 2, shape, n)
}

/// The shapes of line that the parser's contract describes: a chain of `n + 1` atoms and
/// operators; a call `name(...)` whose arguments are chains; a named function literal whose
/// body is a chain.
pub ghost enum Line {
    Chain(nat),
    Call(Seq<nat>),
    Lambda(Seq<bool>, nat),
}

/// Where a line of the given shape that starts at `p` ends.
pub open spec fn line_end(ts: Seq<Token>, p: int, l: Line) -> int {
    match l {
        Line::Chain(n) => p + 2 * n + 1,
        Line::Call(ns) => chain_args_close(ts, p + 2, ns) + 1,
        Line::Lambda(shape, n) => params_close(ts, p + 2, shape) + 3 + 2 * n + 1,
    }
}

/// Whether the tokens from `p` on have the given shape, followed by a token that is no
/// operator.
pub open spec fn line_at(ts: Seq<Token>, p: int, l: Line) -> bool {
    match l {
        Line::Chain(n) => number_chain(ts, p, n),
        Line::Call(ns) => 0 <= p && ts[p].token_type is Identifier && ts[p + 1].content@ == "("@ && chain_args(
            ts,
            p + 2,
            ns,
        ) && !(ts[line_end(ts, p, l)].token_type is Operator),
        Line::Lambda(shape, n) => lambda_at(ts, p, shape, n),
    }
}

/// Whether `e` is what a line of the given shape at `p` parses to.
pub open spec fn line_matches(ts: Seq<Token>, p: int, l: Line, e: Expression) -> bool {
    match l {
        Line::Chain(n) => e == prec_tree(chain_terms(ts, p, n), chain_ops(ts, p, n)),
        Line::Call(ns) => match e {
            Expression::Call(c, args) => *c == Expression::Identifier(ts[p].content) && args@ == chain_arg_terms(
                ts,
                p + 2,
                ns,
            ),
            _ => false,
        },
        Line::Lambda(shape, n) => {
            let c = params_close(ts, p + 2, shape);
            match e {
                Expression::Lambda { name, retty, param_names, param_types, body } => {
                    &&& name == Some(ts[c + 1].content)
                    &&& Some(retty@) == type_keyword(ts[p].content@)
                    &&& names_view(param_names) == param_names_at(ts, p + 2, shape)
                    &&& types_view(param_types) == param_types_at(ts, p + 2, shape)
                    &&& body@ == seq![
                        Statement::Expression(prec_tree(chain_terms(ts, c + 3, n), chain_ops(ts, c + 3, n))),
                    ]
                },
                _ => false,
            }
        },
    }
}

/// Whether the tokens from `top` up to `end` are lines of the given shapes, each ended by an
/// end-of-line token.
pub open spec fn lines_at(ts: Seq<Token>, top: int, ls: Seq<Line>, end: int) -> bool
    decreases ls.len(),
{
    if ls.len() == 0 {
        top == end
    } else {
        let e = line_end(ts, top, ls[0]);
        &&& line_at(ts, top, ls[0])
        &&& e < end <= ts.len()
        &&& ts[e].token_type is EOL
        &&& lines_at(ts, e + 1, ls.subrange(1, ls.len() as int), end)
    }
}

/// Where the `i`-th of such lines starts.
pub open spec fn line_start(ts: Seq<Token>, top: int, ls: Seq<Line>, i: int) -> int
    decreases i,
{
    if i <= 0 || ls.len() == 0 {
        top
    } else {
        line_start(ts, line_end(ts, top, ls[0]) + 1, ls.subrange(1, ls.len() as int), i - 1)
    }
}

/// Whether `st` is what a line of the given shape at `p` parses to, as a statement.
pub open spec fn line_stmt(ts: Seq<Token>, p: int, l: Line, st: Statement) -> bool {
    match st {
        Statement::Expression(e) => line_matches(ts, p, l, e),
        _ => false,
    }
}

proof fn lemma_line_first(ts: Seq<Token>, p: int, l: Line)
    requires
        line_at(ts, p, l),
    ensures
        0 <= p && p + 2 < ts.len(),
        !(ts[p].token_type is EOL),
{
    match l {
        Line::Chain(n) => {
            assert(is_atom(ts, p + 2 * 0));
        },
        Line::Call(ns) => {
            if ns.len() > 0 {
                assert(number_chain(ts, p + 2, ns[0]));
            }
        },
        Line::Lambda(shape, n) => {
            assert(params_at(ts, p + 2, shape));
        },
    }
}

proof fn lemma_line_start_step(ts: Seq<Token>, top: int, ls: Seq<Line>, k: int)
    requires
        0 <= k < ls.len(),
    ensures
        line_start(ts, top, ls, k + 1) == line_end(ts, line_start(ts, top, ls, k), ls[k]) + 1,
    decreases k,
{
    let rest = ls.subrange(1, ls.len() as int);
    let e0 = line_end(ts, top, ls[0]) + 1;
    assert(line_start(ts, top, ls, k + 1) == line_start(ts, e0, rest, k));
    if k > 0 {
        lemma_line_start_step(ts, e0, rest, k - 1);
        assert(rest[k - 1] == ls[k]);
        assert(line_start(ts, top, ls, k) == line_start(ts, e0, rest, k - 1));
    } else {
        assert(line_start(ts, e0, rest, 0) == e0);
    }
}

/// The atoms of a chain of atoms and operators.
pub open spec fn chain_terms(ts: Seq<Token>, top: int, n: nat) -> Seq<Expression> {
    Seq::new(n + 1, |k: int| atom_expr(ts[top + 2 * k]))
}

/// The operators of a chain of atoms and operators.
pub open spec fn chain_ops(ts: Seq<Token>, top: int, n: nat) -> Seq<Operand> {
    Seq::new(n, |k: int| operand_of(ts[top + 2 * k + 1].content@)->0)
}

/// The position of the operator applied last in `ops`: the loosest one, and the rightmost
/// among equally loose ones (equal ranks group to the left).
pub open spec fn loosest(ops: Seq<Operand>) -> int
    decreases ops.len(),
{
    if ops.len() <= 1 {
        0
    } else {
        let k = loosest(ops.drop_last());
        if rank(ops.last()) >= rank(ops[k]) {
            ops.len() - 1
        } else {
            k
        }
    }
}

pub proof fn lemma_loosest_bound(ops: Seq<Operand>)
    ensures
        ops.len() > 0 ==> 0 <= loosest(ops) < ops.len(),
    decreases ops.len(),
{
    if ops.len() > 1 {
        lemma_loosest_bound(ops.drop_last());
    }
}

/// The tree of `terms[0] ops[0] terms[1] ... ops[n-1] terms[n]` by operator precedence: lower
/// ranks bind tighter, and equal ranks group to the left.
pub open spec fn prec_tree(terms: Seq<Expression>, ops: Seq<Operand>) -> Expression
    decreases ops.len(),
{
    if ops.len() == 0 || terms.len() != ops.len() + 1 {
        terms[0]
    } else {
        let k = loosest(ops);
        if 0 <= k < ops.len() {
            Expression::Operation {
                left: Box::new(prec_tree(terms.subrange(0, k + 1), ops.subrange(0, k))),
                op: ops[k],
                right: Box::new(
                    prec_tree(terms.subrange(k + 1, terms.len() as int), ops.subrange(k + 1, ops.len() as int)),
                ),
            }
        } else {
            terms[0]
        }
    }
}

/// Of two operators between three terms, the tighter one groups its terms first; with equal
/// ranks the left pair groups first.
pub proof fn lemma_three_terms(a: Expression, b: Expression, c: Expression, o1: Operand, o2: Operand)
    ensures
        rank(o2) < rank(o1) ==> prec_tree(seq![a, b, c], seq![o1, o2]) == (Expression::Operation {
            left: Box::new(a),
            op: o1,
            right: Box::new(Expression::Operation { left: Box::new(b), op: o2, right: Box::new(c) }),
        }),
        rank(o2) >= rank(o1) ==> prec_tree(seq![a, b, c], seq![o1, o2]) == (Expression::Operation {
            left: Box::new(Expression::Operation { left: Box::new(a), op: o1, right: Box::new(b) }),
            op: o2,
            right: Box::new(c),
        }),
{
    let terms = seq![a, b, c];
    let ops = seq![o1, o2];
    assert(ops.drop_last() =~= seq![o1]);
    assert(loosest(seq![o1]) == 0);
    if rank(o2) < rank(o1) {
        assert(loosest(ops) == 0);
        assert(terms.subrange(0, 1) =~= seq![a]);
        assert(ops.subrange(0, 0) =~= Seq::<Operand>::empty());
        assert(terms.subrange(1, 3) =~= seq![b, c]);
        assert(ops.subrange(1, 2) =~= seq![o2]);
        let r = prec_tree(seq![b, c], seq![o2]);
        assert(loosest(seq![o2]) == 0);
        assert(seq![b, c].subrange(0, 1) =~= seq![b]);
        assert(seq![b, c].subrange(1, 2) =~= seq![c]);
        assert(seq![o2].subrange(0, 0) =~= Seq::<Operand>::empty());
        assert(seq![o2].subrange(1, 1) =~= Seq::<Operand>::empty());
        assert(prec_tree(seq![b], Seq::<Operand>::empty()) == b);
        assert(prec_tree(seq![c], Seq::<Operand>::empty()) == c);
    } else {
        assert(loosest(ops) == 1);
        assert(terms.subrange(0, 2) =~= seq![a, b]);
        assert(ops.subrange(0, 1) =~= seq![o1]);
        assert(terms.subrange(2, 3) =~= seq![c]);
        assert(ops.subrange(2, 2) =~= Seq::<Operand>::empty());
        assert(loosest(seq![o1]) == 0);
        assert(seq![a, b].subrange(0, 1) =~= seq![a]);
        assert(seq![a, b].subrange(1, 2) =~= seq![b]);
        assert(seq![o1].subrange(0, 0) =~= Seq::<Operand>::empty());
        assert(seq![o1].subrange(1, 1) =~= Seq::<Operand>::empty());
        assert(prec_tree(seq![a], Seq::<Operand>::empty()) == a);
        assert(prec_tree(seq![b], Seq::<Operand>::empty()) == b);
        assert(prec_tree(seq![c], Seq::<Operand>::empty()) == c);
        assert(prec_tree(seq![a, b], seq![o1]) == (Expression::Operation {
            left: Box::new(a),
            op: o1,
            right: Box::new(b),
        }));
    }
}

fn loosest_index(ops: &Vec<Operand>) -> (k: usize)
    requires
        ops.len() > 0,
    ensures
        k == loosest(ops@),
{
    let mut k: usize = 0;
    let mut i: usize = 1;
    while i < ops.len()
        invariant
            1 <= i <= ops.len(),
            k == loosest(ops@.subrange(0, i as int)),
            k < i,
        decreases ops.len() - i,
    {
        proof {
            let s = ops@.subrange(0, i + 1);
            assert(s.drop_last() =~= ops@.subrange(0, i as int));
            assert(s.last() == ops@[i as int]);
            assert(s[k as int] == ops@[k as int]);
        }
        if ops[i].rank() >= ops[k].rank() {
            k = i;
        }
        i += 1;
    }
    assert(ops@.subrange(0, ops.len() as int) =~= ops@);
    k
}

/// Builds the precedence tree of terms joined by operators.
pub fn build_operation(terms: Vec<Expression>, ops: Vec<Operand>) -> (r: Expression)
    requires
        terms.len() == ops.len() + 1,
    ensures
        r == prec_tree(terms@, ops@),
    decreases ops.len(),
{
    let mut terms = terms;
    let mut ops = ops;
    if ops.len() == 0 {
        return terms.remove(0);
    }
    let ghost all_terms = terms@;
    let ghost all_ops = ops@;
    let k = loosest_index(&ops);
    proof {
        lemma_loosest_bound(ops@);
    }
    let right_terms = terms.split_off(k + 1);
    let mut right_ops = ops.split_off(k);
    let op = right_ops.remove(0);
    assert(terms@ =~= all_terms.subrange(0, k + 1));
    assert(right_terms@ =~= all_terms.subrange(k + 1, all_terms.len() as int));
    assert(ops@ =~= all_ops.subrange(0, k as int));
    assert(right_ops@ =~= all_ops.subrange(k + 1, all_ops.len() as int));
    let left = build_operation(terms, ops);
    let right = build_operation(right_terms, right_ops);
    Expression::Operation { left: Box::new(left), op, right: Box::new(right) }
}

/// A recursive-descent parser over a token stream.
pub struct Parser {
    pub traveler: Traveler,
}

impl Parser {
    pub open spec fn wf(&self) -> bool {
        self.traveler.wf()
    }

    /// The size of what is left to parse.
    pub open spec fn measure(&self) -> nat {
        self.traveler.measure()
    }

    pub fn new(traveler: Traveler) -> (r: Parser)
        ensures
            r.traveler == traveler,
    {
        Parser { traveler }
    }

    /// Whether tokens are left before the two end-of-stream markers.
    fn more(&self) -> (r: bool)
        requires
            self.wf(),
        ensures
            r == (self.traveler.top + 2 < self.traveler.tokens.len()),
    {
        self.traveler.remaining() > 2
    }

    /// Whether the current token, before the end markers, has the kind of `k`.
    fn at(&self, k: TokenType) -> (r: bool)
        requires
            self.wf(),
        ensures
            r == (self.traveler.top + 2 < self.traveler.tokens.len() && crate::token::same_kind(
                self.traveler.tokens@[self.traveler.top as int].token_type,
                k,
            )),
    {
        if !self.more() {
            return false;
        }
        let probe = Token::new(k, TokenPosition::new(0, 0), String::new());
        self.traveler.current().same_kind(&probe)
    }

    /// Whether the current token, before the end markers, reads `text`.
    fn at_text(&self, text: &str) -> (r: bool)
        requires
            self.wf(),
        ensures
            r == (self.traveler.top + 2 < self.traveler.tokens.len() && self.traveler.tokens@[self.traveler.top as int].content@
                == text@),
    {
        self.more() && text_eq(self.traveler.current().content.as_str(), text)
    }

    /// Whether the token just consumed is a block, which ends its statement by itself.
    fn after_block(&self) -> (r: bool)
        requires
            self.wf(),
    {
        self.traveler.top > 0 && matches!(self.traveler.tokens[self.traveler.top - 1].token_type, TokenType::Block(_))
    }

    /// An error at the current token.
    fn unexpected(&self) -> (r: ParserError)
        requires
            self.wf(),
        ensures
            self.traveler.top < self.traveler.tokens.len() ==> r.position == Some(
                self.traveler.tokens@[self.traveler.top as int].position,
            ),
            self.traveler.top < self.traveler.tokens.len() && !(self.traveler.tokens@[self.traveler.top as int].token_type is EOF)
                ==> r.message() == "unexpected: "@ + self.traveler.tokens@[self.traveler.top as int].content@,
    {
        if self.traveler.top < self.traveler.tokens.len() {
            let t = self.traveler.current();
            if matches!(t.token_type, TokenType::EOF) {
                return ParserError::new_pos(t.position, "unexpected end of input");
            }
            let mut m = owned("unexpected: ");
            append(&mut m, t.content.as_str());
            ParserError::new_pos(t.position, m.as_str())
        } else {
            ParserError::new("unexpected end of input")
        }
    }

    /// Moves past the current token.
    fn advance(&mut self)
        requires
            old(self).wf(),
            old(self).traveler.top < old(self).traveler.tokens.len(),
        ensures
            final(self).wf(),
            final(self).traveler.tokens == old(self).traveler.tokens,
            final(self).traveler.top == old(self).traveler.top + 1,
            final(self).measure() < old(self).measure(),
    {
        proof {
            lemma_weight_step(self.traveler.tokens@, self.traveler.top as int);
        }
        self.traveler.next();
    }

    /// Takes the interior of the current block token, leaving an empty block in its place.
    fn take_block(&mut self) -> (r: Vec<Token>)
        requires
            old(self).wf(),
            old(self).traveler.top + 2 < old(self).traveler.tokens.len(),
            old(self).traveler.tokens@[old(self).traveler.top as int].token_type is Block,
        ensures
            final(self).wf(),
            final(self).traveler.top == old(self).traveler.top,
            final(self).traveler.tokens.len() == old(self).traveler.tokens.len(),
            final(self).measure() <= old(self).measure(),
            weight(r@) + 2 < old(self).measure(),
    {
        let top = self.traveler.top;
        let ghost before = self.traveler.tokens@;
        let tok = self.traveler.tokens.remove(top);
        let Token { token_type, position, content: _ } = tok;
        let placeholder = Token::new(TokenType::Block(Vec::new()), position, String::new());
        let ghost ph = placeholder;
        self.traveler.tokens.insert(top, placeholder);
        let r = match token_type {
            TokenType::Block(v) => v,
            _ => Vec::new(),
        };
        proof {
            let after = self.traveler.tokens@;
            let n = before.len() as int;
            assert(after.len() == n);
            assert(after[top as int] == ph);
            assert(after.subrange(top + 1, n) =~= before.subrange(top + 1, n));
            assert(after[n - 1] == before[n - 1]);
            assert(after[n - 2] == before[n - 2]);
            lemma_weight_step(before, top as int);
            lemma_weight_step(after, top as int);
            lemma_weight_len(before.subrange(top + 1, n));
        }
        r
    }

    /// Parses statements until only the two end-of-stream markers are left; each statement
    /// ends at an end of line.
    pub fn parse(&mut self) -> (r: ParserResult<Vec<Statement>>)
        requires
            old(self).wf(),
        ensures
            final(self).wf(),
            final(self).measure() <= old(self).measure(),
            r is Ok ==> final(self).traveler.top + 2 >= final(self).traveler.tokens.len(),
            forall|ns: Seq<nat>| #[trigger] chain_lines(
                old(self).traveler.tokens@,
                old(self).traveler.top as int,
                ns,
                old(self).traveler.tokens.len() - 2,
            ) ==> (r matches Ok(stmts) && stmts@ == chain_trees(old(self).traveler.tokens@, old(self).traveler.top as int, ns)),
            forall|ls: Seq<Line>| #[trigger] lines_at(
                old(self).traveler.tokens@,
                old(self).traveler.top as int,
                ls,
                old(self).traveler.tokens.len() - 2,
            ) ==> (r matches Ok(stmts) && stmts.len() == ls.len() && forall|i: int| 0 <= i < ls.len() ==> line_stmt(
                old(self).traveler.tokens@,
                line_start(old(self).traveler.tokens@, old(self).traveler.top as int, ls, i),
                ls[i],
                #[trigger] stmts@[i],
            )),
        decreases old(self).measure(), 4nat,
    {
        let ghost ts = self.traveler.tokens@;
        let ghost top0 = self.traveler.top as int;
        let ghost end = self.traveler.tokens.len() - 2;
        let mut stack: Vec<Statement> = Vec::new();
        proof {
            assert forall|ns: Seq<nat>| #[trigger] chain_lines(ts, top0, ns, end) implies stack@
                + chain_trees(ts, top0, ns.subrange(0, ns.len() as int)) == chain_trees(ts, top0, ns)
                && chain_lines(ts, top0, ns.subrange(0, ns.len() as int), end) by {
                assert(ns.subrange(0, ns.len() as int) =~= ns);
                assert(stack@ + chain_trees(ts, top0, ns) =~= chain_trees(ts, top0, ns));
            }
            assert forall|ls: Seq<Line>| #[trigger] lines_at(ts, top0, ls, end) implies self.traveler.top == line_start(ts, top0, ls, 0)
                && lines_at(ts, top0, ls.subrange(0, ls.len() as int), end) by {
                assert(ls.subrange(0, ls.len() as int) =~= ls);
            }
        }
        while self.more()
            invariant
                self.wf(),
                self.measure() <= old(self).measure(),
                ts == old(self).traveler.tokens@,
                top0 == old(self).traveler.top as int,
                end == old(self).traveler.tokens.len() - 2,
                forall|ns: Seq<nat>| #[trigger] chain_lines(ts, top0, ns, end) ==> {
                    &&& stack.len() <= ns.len()
                    &&& self.traveler.tokens@ == ts
                    &&& chain_lines(ts, self.traveler.top as int, ns.subrange(stack.len() as int, ns.len() as int), end)
                    &&& stack@ + chain_trees(ts, self.traveler.top as int, ns.subrange(stack.len() as int, ns.len() as int))
                        == chain_trees(ts, top0, ns)
                },
                forall|ls: Seq<Line>| #[trigger] lines_at(ts, top0, ls, end) ==> {
                    &&& stack.len() <= ls.len()
                    &&& self.traveler.tokens@ == ts
                    &&& self.traveler.top == line_start(ts, top0, ls, stack.len() as int)
                    &&& lines_at(ts, self.traveler.top as int, ls.subrange(stack.len() as int, ls.len() as int), end)
                    &&& forall|i: int| 0 <= i < stack.len() ==> line_stmt(ts, line_start(ts, top0, ls, i), ls[i], #[trigger] stack@[i])
                },
            decreases self.measure(),
        {
            let ghost top = self.traveler.top as int;
            let ghost k = stack.len() as int;
            let ghost before = stack@;
            proof {
                assert forall|ns: Seq<nat>| #[trigger] chain_lines(ts, top0, ns, end) implies k < ns.len()
                    && is_atom(ts, top) && number_chain(ts, top, ns[k]) by {
                    let rest = ns.subrange(k, ns.len() as int);
                    assert(chain_lines(ts, top, rest, end));
                    if rest.len() == 0 {
                        assert(top == end);
                    }
                    assert(rest[0] == ns[k]);
                    let n = ns[k];
                    assert(is_atom(ts, top + 2 * 0));
                    assert forall|j: int| 0 <= j <= n implies #[trigger] is_atom(ts, top + 2 * j) by {}
                    assert forall|j: int| 0 <= j < n implies (#[trigger] ts[top + 2 * j + 1]).token_type is Operator
                        && operand_of(ts[top + 2 * j + 1].content@) is Some by {}
                }
            }
            proof {
                assert forall|ls: Seq<Line>| #[trigger] lines_at(ts, top0, ls, end) implies k < ls.len() && line_at(ts, top, ls[k])
                    && !(ts[top].token_type is EOL) by {
                    let rest = ls.subrange(k, ls.len() as int);
                    assert(lines_at(ts, top, rest, end));
                    if rest.len() == 0 {
                        assert(top == end);
                    }
                    assert(rest[0] == ls[k]);
                    lemma_line_first(ts, top, ls[k]);
                }
            }
            if self.at(TokenType::EOL) {
                proof {
                    assert forall|ns: Seq<nat>| #[trigger] chain_lines(ts, top0, ns, end) implies false by {
                        assert(is_atom(ts, top));
                    }
                    assert forall|ls: Seq<Line>| #[trigger] lines_at(ts, top0, ls, end) implies false by {}
                }
                self.advance();
            } else {
                let st = match self.statement() {
                    Ok(st) => st,
                    Err(e) => {
                        return Err(e);
                    },
                };
                stack.push(st);
                if self.more() {
                    if self.at(TokenType::EOL) {
                        self.advance();
                    } else if !self.after_block() {
                        proof {
                            assert forall|ns: Seq<nat>| #[trigger] chain_lines(ts, top0, ns, end) implies false by {
                                let rest = ns.subrange(k, ns.len() as int);
                                assert(rest[0] == ns[k]);
                                assert(ts[top + 2 * ns[k] + 1].token_type is EOL);
                            }
                            assert forall|ls: Seq<Line>| #[trigger] lines_at(ts, top0, ls, end) implies false by {
                                let rest = ls.subrange(k, ls.len() as int);
                                assert(lines_at(ts, top, rest, end));
                                assert(rest[0] == ls[k]);
                                assert(ts[line_end(ts, top, ls[k])].token_type is EOL);
                            }
                        }
                        return Err(self.unexpected());
                    }
                }
                proof {
                    assert forall|ns: Seq<nat>| #[trigger] chain_lines(ts, top0, ns, end) implies {
                        &&& stack.len() <= ns.len()
                        &&& self.traveler.tokens@ == ts
                        &&& chain_lines(ts, self.traveler.top as int, ns.subrange(stack.len() as int, ns.len() as int), end)
                        &&& stack@ + chain_trees(ts, self.traveler.top as int, ns.subrange(stack.len() as int, ns.len() as int))
                            == chain_trees(ts, top0, ns)
                    } by {
                        let rest = ns.subrange(k, ns.len() as int);
                        let n = ns[k];
                        assert(rest[0] == n);
                        assert(rest.subrange(1, rest.len() as int) =~= ns.subrange(k + 1, ns.len() as int));
                        assert(ts[top + 2 * n + 1].token_type is EOL);
                        assert(self.traveler.top == top + 2 * n + 2);
                        assert(stack@ =~= before.push(st));
                        assert(chain_trees(ts, top, rest) == seq![Statement::Expression(prec_tree(chain_terms(ts, top, n), chain_ops(ts, top, n)))]
                            + chain_trees(ts, top + 2 * n + 2, ns.subrange(k + 1, ns.len() as int)));
                        assert(before.push(st) + chain_trees(ts, top + 2 * n + 2, ns.subrange(k + 1, ns.len() as int))
                            =~= before + chain_trees(ts, top, rest));
                    }
                }
                proof {
                    assert forall|ls: Seq<Line>| #[trigger] lines_at(ts, top0, ls, end) implies {
                        &&& stack.len() <= ls.len()
                        &&& self.traveler.tokens@ == ts
                        &&& self.traveler.top == line_start(ts, top0, ls, stack.len() as int)
                        &&& lines_at(ts, self.traveler.top as int, ls.subrange(stack.len() as int, ls.len() as int), end)
                        &&& forall|i: int| 0 <= i < stack.len() ==> line_stmt(ts, line_start(ts, top0, ls, i), ls[i], #[trigger] stack@[i])
                    } by {
                        let rest = ls.subrange(k, ls.len() as int);
                        assert(lines_at(ts, top, rest, end));
                        assert(rest[0] == ls[k]);
                        let e = line_end(ts, top, ls[k]);
                        assert(ts[e].token_type is EOL);
                        assert(self.traveler.top == e + 1);
                        lemma_line_start_step(ts, top0, ls, k);
                        assert(rest.subrange(1, rest.len() as int) =~= ls.subrange(k + 1, ls.len() as int));
                        assert(stack@ =~= before.push(st));
                        assert forall|i: int| 0 <= i < stack.len() implies line_stmt(ts, line_start(ts, top0, ls, i), ls[i], #[trigger] stack@[i]) by {
                            if i < k {
                                assert(stack@[i] == before[i]);
                            }
                        }
                    }
                }
            }
        }
        proof {
            assert forall|ns: Seq<nat>| #[trigger] chain_lines(ts, top0, ns, end) implies stack@ == chain_trees(ts, top0, ns) by {
                let rest = ns.subrange(stack.len() as int, ns.len() as int);
                if rest.len() > 0 {
                    assert(self.traveler.top < end);
                }
                assert(stack@ + chain_trees(ts, self.traveler.top as int, rest) == chain_trees(ts, top0, ns));
                assert(stack@ + Seq::<Statement>::empty() =~= stack@);
            }
            assert forall|ls: Seq<Line>| #[trigger] lines_at(ts, top0, ls, end) implies stack.len() == ls.len() by {
                let rest = ls.subrange(stack.len() as int, ls.len() as int);
                assert(lines_at(ts, self.traveler.top as int, rest, end));
                if rest.len() > 0 {
                    assert(rest[0] == ls[stack.len() as int]);
                    lemma_line_first(ts, self.traveler.top as int, rest[0]);
                }
            }
        }
        Ok(stack)
    }

    /// Parses one statement.
    pub fn statement(&mut self) -> (r: ParserResult<Statement>)
        requires
            old(self).wf(),
        ensures
            final(self).wf(),
            final(self).measure() <= old(self).measure(),
            r is Ok ==> final(self).measure() < old(self).measure(),
            forall|n: nat| #[trigger] number_chain(old(self).traveler.tokens@, old(self).traveler.top as int, n)
                ==> r == Ok::<Statement, ParserError>(
                Statement::Expression(
                    prec_tree(
                        chain_terms(old(self).traveler.tokens@, old(self).traveler.top as int, n),
                        chain_ops(old(self).traveler.tokens@, old(self).traveler.top as int, n),
                    ),
                ),
            ) && final(self).traveler.tokens@ == old(self).traveler.tokens@ && final(self).traveler.top
                == old(self).traveler.top + 2 * n + 1,
            forall|l: Line| #[trigger] line_at(old(self).traveler.tokens@, old(self).traveler.top as int, l) ==> (r matches Ok(st)
                && line_stmt(old(self).traveler.tokens@, old(self).traveler.top as int, l, st) && final(self).traveler.tokens@
                == old(self).traveler.tokens@ && final(self).traveler.top == line_end(
                old(self).traveler.tokens@,
                old(self).traveler.top as int,
                l,
            )),
            forall|l: Line| #[trigger] line_at(old(self).traveler.tokens@, old(self).traveler.top + 1, l)
                && old(self).traveler.tokens@[old(self).traveler.top as int].token_type is EOL ==> (r matches Ok(st) && line_stmt(
                old(self).traveler.tokens@,
                old(self).traveler.top + 1,
                l,
                st,
            ) && final(self).traveler.tokens@ == old(self).traveler.tokens@ && final(self).traveler.top == line_end(
                old(self).traveler.tokens@,
                old(self).traveler.top + 1,
                l,
            )),
            ({
                let t = old(self).traveler;
                let tok = t.tokens@[t.top as int];
                &&& (t.top + 2 < t.tokens.len() && tok.token_type is Keyword) ==> (r matches Err(e) && e.position
                    == Some(tok.position) && e.message() == "unexpected: "@ + tok.content@)
                &&& (t.top + 2 < t.tokens.len() && tok.token_type is EOL) ==> forall|n: nat| #[trigger] number_chain(
                    t.tokens@,
                    t.top + 1,
                    n,
                ) ==> r == Ok::<Statement, ParserError>(
                    Statement::Expression(prec_tree(chain_terms(t.tokens@, t.top + 1, n), chain_ops(t.tokens@, t.top + 1, n))),
                )
            }),
        decreases old(self).measure(), 3nat,
    {
        let ghost ts = self.traveler.tokens@;
        let ghost top = self.traveler.top as int;
        proof {
            assert forall|n: nat| number_chain(ts, top, n) implies is_atom(ts, top) by {
                assert(is_atom(ts, top + 2 * 0));
            }
        }
        if !self.more() {
            return Err(self.unexpected());
        }
        if self.at(TokenType::EOL) {
            self.advance();
            return self.statement();
        }
        if self.at(TokenType::Keyword) {
            return Err(self.unexpected());
        }
        match self.expression() {
            Ok(e) => Ok(Statement::Expression(e)),
            Err(e) => Err(e),
        }
    }

    /// Parses an expression: terms joined by binary operators.
    fn expression(&mut self) -> (r: ParserResult<Expression>)
        requires
            old(self).wf(),
        ensures
            final(self).wf(),
            final(self).measure() <= old(self).measure(),
            r is Ok ==> final(self).measure() < old(self).measure(),
            forall|n: nat| #[trigger] number_chain(old(self).traveler.tokens@, old(self).traveler.top as int, n)
                ==> r == Ok::<Expression, ParserError>(
                prec_tree(
                    chain_terms(old(self).traveler.tokens@, old(self).traveler.top as int, n),
                    chain_ops(old(self).traveler.tokens@, old(self).traveler.top as int, n),
                ),
            ) && final(self).traveler.tokens@ == old(self).traveler.tokens@ && final(self).traveler.top
                == old(self).traveler.top + 2 * n + 1,
            forall|l: Line| #[trigger] line_at(old(self).traveler.tokens@, old(self).traveler.top as int, l) ==> (r matches Ok(e)
                && line_matches(old(self).traveler.tokens@, old(self).traveler.top as int, l, e) && final(self).traveler.tokens@
                == old(self).traveler.tokens@ && final(self).traveler.top == line_end(
                old(self).traveler.tokens@,
                old(self).traveler.top as int,
                l,
            )),
        decreases old(self).measure(), 2nat,
    {
        let ghost ts = self.traveler.tokens@;
        let ghost top = self.traveler.top as int;
        proof {
            assert forall|n: nat| number_chain(ts, top, n) implies is_atom(ts, top) by {
                assert(is_atom(ts, top + 2 * 0));
            }
        }
        if self.at(TokenType::EOL) {
            self.advance();
        }
        let first = match self.term() {
            Ok(t) => t,
            Err(e) => {
                return Err(e);
            },
        };
        if !self.at(TokenType::Operator) {
            proof {
                assert forall|n: nat| number_chain(ts, top, n) implies first == prec_tree(
                    chain_terms(ts, top, n),
                    chain_ops(ts, top, n),
                ) by {
                    if n > 0 {
                        assert((ts[top + 2 * 0 + 1]).token_type is Operator);
                    }
                    assert(n == 0);
                    assert(chain_ops(ts, top, n).len() == 0);
                    assert(chain_terms(ts, top, n)[0] == first);
                }
            }
            return Ok(first);
        }
        proof {
            assert forall|l: Line| #[trigger] line_at(ts, top, l) implies l is Chain by {
                match l {
                    Line::Call(ns) => {
                        assert(chain_args(ts, top + 2, ns));
                    },
                    Line::Lambda(shape, n) => {
                        assert(lambda_at(ts, top, shape, n));
                        let c = params_close(ts, top + 2, shape);
                        assert(!(ts[c + 3 + 2 * n + 1].token_type is Operator));
                    },
                    Line::Chain(_) => {},
                }
            }
        }
        let mut terms: Vec<Expression> = Vec::new();
        terms.push(first);
        let mut ops: Vec<Operand> = Vec::new();
        proof {
            assert forall|n: nat| number_chain(ts, top, n) implies terms@ =~= chain_terms(ts, top, n).subrange(0, 1)
                && ops@ =~= chain_ops(ts, top, n).subrange(0, 0) by {
                assert(chain_terms(ts, top, n)[0] == first);
            }
        }
        while self.at(TokenType::Operator)
            invariant
                self.wf(),
                self.measure() < old(self).measure(),
                terms.len() == ops.len() + 1,
                forall|l: Line| #[trigger] line_at(ts, top, l) ==> l is Chain,
                ts == old(self).traveler.tokens@,
                top == old(self).traveler.top as int,
                forall|n: nat| #[trigger] number_chain(ts, top, n) ==> {
                    &&& ops.len() <= n
                    &&& self.traveler.tokens@ == ts
                    &&& self.traveler.top == top + 2 * ops.len() + 1
                    &&& terms@ == chain_terms(ts, top, n).subrange(0, ops.len() + 1)
                    &&& ops@ == chain_ops(ts, top, n).subrange(0, ops.len() as int)
                },
            decreases self.measure(),
        {
            let ghost k = ops.len() as int;
            let ghost before_terms = terms@;
            let ghost before_ops = ops@;
            let spelled = self.traveler.current_content();
            let op = match get_operand(spelled.as_str()) {
                Some((op, _)) => op,
                None => {
                    return Err(self.unexpected());
                },
            };
            self.advance();
            proof {
                assert forall|n: nat| number_chain(ts, top, n) implies k < n && is_atom(ts, top + 2 * (k + 1))
                    && op == operand_of(ts[top + 2 * k + 1].content@)->0 by {
                    if k == n {
                        assert(!(ts[top + 2 * n + 1].token_type is Operator));
                    }
                    assert(is_atom(ts, top + 2 * (k + 1)));
                    assert(ts[top + 2 * k + 1].token_type is Operator);
                }
            }
            if self.at(TokenType::EOL) {
                self.advance();
            }
            let t = match self.term() {
                Ok(t) => t,
                Err(e) => {
                    return Err(e);
                },
            };
            terms.push(t);
            ops.push(op);
            proof {
                assert forall|n: nat| number_chain(ts, top, n) implies terms@ == chain_terms(ts, top, n).subrange(0, k + 2)
                    && ops@ == chain_ops(ts, top, n).subrange(0, k + 1) by {
                    assert(terms@ =~= chain_terms(ts, top, n).subrange(0, k + 2));
                    assert(ops@ =~= chain_ops(ts, top, n).subrange(0, k + 1));
                }
            }
        }
        proof {
            assert forall|n: nat| number_chain(ts, top, n) implies ops.len() == n by {
                if ops.len() < n {
                    let k = ops.len() as int;
                    assert((ts[top + 2 * k + 1]).token_type is Operator);
                }
            }
            assert forall|n: nat| number_chain(ts, top, n) implies terms@ == chain_terms(ts, top, n) && ops@ == chain_ops(
                ts,
                top,
                n,
            ) by {
                assert(chain_terms(ts, top, n).subrange(0, n + 1int) =~= chain_terms(ts, top, n));
                assert(chain_ops(ts, top, n).subrange(0, n as int) =~= chain_ops(ts, top, n));
            }
        }
        Ok(build_operation(terms, ops))
    }

    /// Whether the current token can start a term that is an argument of a call.
    fn at_argument(&self) -> (r: bool)
        requires
            self.wf(),
        ensures
            r == (self.traveler.top + 2 < self.traveler.tokens.len() && starts_argument(
                self.traveler.tokens@[self.traveler.top as int],
            )),
    {
        self.at(TokenType::IntLiteral) || self.at(TokenType::FloatLiteral) || self.at(
            TokenType::BoolLiteral,
        ) || self.at(TokenType::StringLiteral) || self.at(TokenType::Identifier)
    }

    /// Parses call arguments, separated by commas or blanks, up to a closing parenthesis
    /// (consumed when `paren`) or the end of the line.
    #[verifier::rlimit(100)]
    fn call_args(&mut self, paren: bool) -> (r: ParserResult<Vec<Expression>>)
        requires
            old(self).wf(),
        ensures
            final(self).wf(),
            final(self).measure() <= old(self).measure(),
            paren ==> forall|ns: Seq<nat>| #[trigger] chain_args(old(self).traveler.tokens@, old(self).traveler.top as int, ns)
                ==> (r matches Ok(args) && args@ == chain_arg_terms(old(self).traveler.tokens@, old(self).traveler.top as int, ns)
                && final(self).traveler.tokens@ == old(self).traveler.tokens@ && final(self).traveler.top == chain_args_close(
                old(self).traveler.tokens@,
                old(self).traveler.top as int,
                ns,
            ) + 1),
        decreases old(self).measure(), 3nat,
    {
        let ghost ts = self.traveler.tokens@;
        let ghost p = self.traveler.top as int;
        let mut args: Vec<Expression> = Vec::new();
        proof {
            reveal_strlit(")");
            reveal_strlit(",");
            assert(")"@[0] != ","@[0]);
            assert(")"@ != ","@);
            assert forall|ns: Seq<nat>| #[trigger] chain_args(ts, p, ns) implies chain_args(ts, p, ns.subrange(0, ns.len() as int))
                && chain_args_close(ts, p, ns.subrange(0, ns.len() as int)) == chain_args_close(ts, p, ns)
                && args@ + chain_arg_terms(ts, p, ns.subrange(0, ns.len() as int)) == chain_arg_terms(ts, p, ns) by {
                assert(ns.subrange(0, ns.len() as int) =~= ns);
                assert(args@ + chain_arg_terms(ts, p, ns) =~= chain_arg_terms(ts, p, ns));
            }
        }
        while self.more() && !self.at_text(")") && !self.at(TokenType::EOL)
            invariant
                self.wf(),
                self.measure() <= old(self).measure(),
                ts == old(self).traveler.tokens@,
                p == old(self).traveler.top as int,
                ")"@ != ","@,
                forall|ns: Seq<nat>| #[trigger] chain_args(ts, p, ns) ==> {
                    &&& args.len() <= ns.len()
                    &&& self.traveler.tokens@ == ts
                    &&& chain_args(ts, self.traveler.top as int, ns.subrange(args.len() as int, ns.len() as int))
                    &&& chain_args_close(ts, self.traveler.top as int, ns.subrange(args.len() as int, ns.len() as int))
                        == chain_args_close(ts, p, ns)
                    &&& args@ + chain_arg_terms(ts, self.traveler.top as int, ns.subrange(args.len() as int, ns.len() as int))
                        == chain_arg_terms(ts, p, ns)
                },
            decreases self.measure(),
        {
            let ghost k = args.len() as int;
            let ghost top = self.traveler.top as int;
            let ghost before = args@;
            proof {
                assert forall|ns: Seq<nat>| #[trigger] chain_args(ts, p, ns) implies k < ns.len() && number_chain(ts, top, ns[k]) by {
                    let rest = ns.subrange(k, ns.len() as int);
                    assert(chain_args(ts, top, rest));
                    if rest.len() == 0 {
                        assert(ts[top].content@ == ")"@);
                    }
                    assert(rest[0] == ns[k]);
                }
            }
            let a = match self.expression() {
                Ok(a) => a,
                Err(e) => {
                    return Err(e);
                },
            };
            args.push(a);
            if self.at_text(",") {
                self.advance();
            }
            proof {
                assert forall|ns: Seq<nat>| #[trigger] chain_args(ts, p, ns) implies {
                    &&& args.len() <= ns.len()
                    &&& self.traveler.tokens@ == ts
                    &&& chain_args(ts, self.traveler.top as int, ns.subrange(args.len() as int, ns.len() as int))
                    &&& chain_args_close(ts, self.traveler.top as int, ns.subrange(args.len() as int, ns.len() as int))
                        == chain_args_close(ts, p, ns)
                    &&& args@ + chain_arg_terms(ts, self.traveler.top as int, ns.subrange(args.len() as int, ns.len() as int))
                        == chain_arg_terms(ts, p, ns)
                } by {
                    let rest = ns.subrange(k, ns.len() as int);
                    let n = ns[k];
                    let q = top + 2 * n + 1;
                    assert(rest[0] == n);
                    assert(rest.subrange(1, rest.len() as int) =~= ns.subrange(k + 1, ns.len() as int));
                    assert(chain_args(ts, top, rest));
                    assert(a == prec_tree(chain_terms(ts, top, n), chain_ops(ts, top, n)));
                    assert(chain_arg_terms(ts, top, rest) == seq![a] + chain_arg_terms(ts, q + 1, ns.subrange(k + 1, ns.len() as int)));
                    if rest.len() == 1 {
                        assert(ts[q].content@ == ")"@);
                        assert(self.traveler.top == q);
                        assert(ns.subrange(k + 1, ns.len() as int) =~= Seq::<nat>::empty());
                        assert(chain_args(ts, q, Seq::<nat>::empty()));
                        assert(chain_arg_terms(ts, q, Seq::<nat>::empty()) == chain_arg_terms(ts, q + 1, Seq::<nat>::empty()));
                        assert(chain_args_close(ts, top, rest) == q);
                    } else {
                        let rest2 = ns.subrange(k + 1, ns.len() as int);
                        assert(ts[q].content@ == ","@);
                        assert(chain_args(ts, q + 1, rest2));
                        assert(rest2.len() > 0);
                        assert(number_chain(ts, q + 1, rest2[0]));
                        assert(q + 2 < ts.len());
                        assert(self.traveler.top == q + 1);
                    }
                    assert(args@ =~= before.push(a));
                    assert(before.push(a) + chain_arg_terms(ts, self.traveler.top as int, ns.subrange(k + 1, ns.len() as int))
                        =~= before + chain_arg_terms(ts, top, rest));
                }
            }
        }
        proof {
            assert forall|ns: Seq<nat>| #[trigger] chain_args(ts, p, ns) implies args.len() == ns.len() by {
                if args.len() < ns.len() {
                    let k = args.len() as int;
                    let rest = ns.subrange(k, ns.len() as int);
                    assert(chain_args(ts, self.traveler.top as int, rest));
                    assert(rest[0] == ns[k]);
                    assert(is_atom(ts, self.traveler.top + 2 * 0));
                }
            }
        }
        if paren {
            if self.at_text(")") {
                self.advance();
            } else {
                return Err(self.unexpected());
            }
        }
        proof {
            assert forall|ns: Seq<nat>| #[trigger] chain_args(ts, p, ns) implies args@ == chain_arg_terms(ts, p, ns)
                && (paren ==> self.traveler.top == chain_args_close(ts, p, ns) + 1) && self.traveler.tokens@ == ts by {
                let rest = ns.subrange(ns.len() as int, ns.len() as int);
                assert(rest =~= Seq::<nat>::empty());
                assert(args@ + Seq::<Expression>::empty() =~= args@);
            }
        }
        Ok(args)
    }

    /// Parses the statements of the current block token.
    fn block(&mut self) -> (r: ParserResult<Vec<Statement>>)
        requires
            old(self).wf(),
            old(self).traveler.top + 2 < old(self).traveler.tokens.len(),
            old(self).traveler.tokens@[old(self).traveler.top as int].token_type is Block,
        ensures
            final(self).wf(),
            final(self).measure() < old(self).measure(),
        decreases old(self).measure(), 0nat,
    {
        let inner_tokens = self.take_block();
        self.advance();
        let mut inner = Parser::new(Traveler::new(inner_tokens));
        inner.parse()
    }

    /// Parses a term: a literal, a name, a call, a block, a typed definition or a function
    /// literal.
    #[verifier::rlimit(100)]
    pub fn term(&mut self) -> (r: ParserResult<Expression>)
        requires
            old(self).wf(),
        ensures
            final(self).wf(),
            final(self).measure() <= old(self).measure(),
            r is Ok ==> final(self).measure() < old(self).measure(),
            ({
                let t = old(self).traveler;
                let tok = t.tokens@[t.top as int];
                t.top + 2 < t.tokens.len() ==> {
                    &&& is_atom(t.tokens@, t.top as int) ==> r == Ok::<Expression, ParserError>(atom_expr(tok))
                        && final(self).traveler.tokens == t.tokens && final(self).traveler.top == t.top + 1
                    &&& tok.token_type is StringLiteral ==> (r matches Ok(Expression::StringLiteral(v)) && v@
                        == tok.content@)
                    &&& tok.token_type is BoolLiteral ==> (r matches Ok(Expression::BoolLiteral(b)) && b == (
                    tok.content@ == "true"@))
                    &&& tok.token_type is Identifier ==> (r matches Ok(e) ==> match e {
                        Expression::Identifier(n) => n@ == tok.content@,
                        Expression::Call(c, _) => match *c {
                            Expression::Identifier(n) => n@ == tok.content@,
                            _ => false,
                        },
                        _ => false,
                    })
                    &&& (tok.token_type is Identifier && t.tokens@[t.top + 1].content@ == "("@) ==> forall|ns: Seq<nat>|
                        #[trigger] chain_args(t.tokens@, t.top + 2, ns) ==> (r matches Ok(Expression::Call(c, args)) && *c
                        == Expression::Identifier(tok.content) && args@ == chain_arg_terms(t.tokens@, t.top + 2, ns)
                        && final(self).traveler.tokens@ == t.tokens@ && final(self).traveler.top == chain_args_close(
                        t.tokens@,
                        t.top + 2,
                        ns,
                    ) + 1)
                    &&& (tok.token_type is Type && type_keyword(tok.content@) is Some && t.tokens@[t.top + 1].token_type
                        is Identifier && t.tokens@[t.top + 2].content@ == "="@) ==> forall|n: nat| #[trigger] number_chain(
                        t.tokens@,
                        t.top + 3,
                        n,
                    ) ==> (r matches Ok(Expression::Definition(Some(dt), name, v)) && type_keyword(tok.content@) == Some(
                        dt@,
                    ) && name == t.tokens@[t.top + 1].content && *v == prec_tree(
                        chain_terms(t.tokens@, t.top + 3, n),
                        chain_ops(t.tokens@, t.top + 3, n),
                    ))
                    &&& forall|shape: Seq<bool>, n: nat| #[trigger] lambda_at(t.tokens@, t.top as int, shape, n) ==> ({
                        let c = params_close(t.tokens@, t.top + 2, shape);
                        &&& r matches Ok(Expression::Lambda { name, retty, param_names, param_types, body })
                        &&& r->Ok_0->Lambda_name == Some(t.tokens@[c + 1].content)
                        &&& Some(r->Ok_0->Lambda_retty@) == type_keyword(tok.content@)
                        &&& names_view(r->Ok_0->Lambda_param_names) == param_names_at(t.tokens@, t.top + 2, shape)
                        &&& types_view(r->Ok_0->Lambda_param_types) == param_types_at(t.tokens@, t.top + 2, shape)
                        &&& r->Ok_0->Lambda_body@ == seq![
                            Statement::Expression(prec_tree(chain_terms(t.tokens@, c + 3, n), chain_ops(t.tokens@, c + 3, n))),
                        ]
                        &&& final(self).traveler.tokens@ == t.tokens@
                        &&& final(self).traveler.top == c + 3 + 2 * n + 1
                    })
                    &&& tok.token_type is Type ==> (r matches Ok(e) ==> match e {
                        Expression::Definition(Some(dt), name, _) => type_keyword(tok.content@) == Some(dt@)
                            && name@ == t.tokens@[t.top + 1].content@,
                        Expression::Lambda { retty, param_names, param_types, .. } => type_keyword(
                            tok.content@,
                        ) == Some(retty@) && param_names.len() == param_types.len(),
                        _ => false,
                    })
                    &&& (tok.token_type is Symbol || tok.token_type is Operator || tok.token_type is Keyword
                        || tok.token_type is EOL) ==> r is Err
                }
            }),
        decreases old(self).measure(), 1nat,
    {
        if !self.more() {
            return Err(self.unexpected());
        }
        let content = self.traveler.current_content();
        if self.at(TokenType::IntLiteral) || self.at(TokenType::FloatLiteral) {
            self.advance();
            return Ok(Expression::NumberLiteral(content));
        }
        if self.at(TokenType::BoolLiteral) {
            self.advance();
            return Ok(Expression::BoolLiteral(text_eq(content.as_str(), "true")));
        }
        if self.at(TokenType::StringLiteral) {
            self.advance();
            return Ok(Expression::StringLiteral(content));
        }
        if self.at(TokenType::Identifier) {
            self.advance();
            let callee = Box::new(Expression::Identifier(content));
            if self.at_text("(") {
                self.advance();
                return match self.call_args(true) {
                    Ok(args) => Ok(Expression::Call(callee, args)),
                    Err(e) => Err(e),
                };
            }
            if self.at_argument() {
                return match self.call_args(false) {
                    Ok(args) => Ok(Expression::Call(callee, args)),
                    Err(e) => Err(e),
                };
            }
            return Ok(*callee);
        }
        if self.at(TokenType::Block(Vec::new())) {
            return match self.block() {
                Ok(stmts) => Ok(Expression::Block(stmts)),
                Err(e) => Err(e),
            };
        }
        if !self.at(TokenType::Type) {
            return Err(self.unexpected());
        }
        let retty = match get_type(content.as_str()) {
            Some(t) => t,
            None => {
                return Err(self.unexpected());
            },
        };
        self.advance();
        if self.at(TokenType::Identifier) {
            let name = self.traveler.current_content();
            self.advance();
            if !self.at_text("=") {
                return Err(self.unexpected());
            }
            self.advance();
            return match self.expression() {
                Ok(v) => Ok(Expression::Definition(Some(retty), name, Box::new(v))),
                Err(e) => Err(e),
            };
        }
        if !self.at_text("(") {
            return Err(self.unexpected());
        }
        self.advance();
        self.lambda_rest(retty)
    }

    /// Parses the rest of a function literal once its `(` is consumed: the parameters, `)`, an
    /// optional name, `=`, and a body that is a block or one expression.
    #[verifier::rlimit(100)]
    fn lambda_rest(&mut self, retty: Type) -> (r: ParserResult<Expression>)
        requires
            old(self).wf(),
        ensures
            final(self).wf(),
            final(self).measure() <= old(self).measure(),
            r is Ok ==> final(self).measure() < old(self).measure(),
            r matches Ok(e) ==> (e matches Expression::Lambda { retty: rt, param_names, param_types, .. } && rt@
                == retty@ && param_names.len() == param_types.len()),
            forall|shape: Seq<bool>, n: nat| #[trigger] lambda_tail(old(self).traveler.tokens@, old(self).traveler.top as int, shape, n)
                ==> ({
                let ts = old(self).traveler.tokens@;
                let c = params_close(ts, old(self).traveler.top as int, shape);
                &&& r matches Ok(Expression::Lambda { name, retty, param_names, param_types, body })
                &&& r->Ok_0->Lambda_name == Some(ts[c + 1].content)
                &&& r->Ok_0->Lambda_retty@ == retty@
                &&& names_view(r->Ok_0->Lambda_param_names) == param_names_at(ts, old(self).traveler.top as int, shape)
                &&& types_view(r->Ok_0->Lambda_param_types) == param_types_at(ts, old(self).traveler.top as int, shape)
                &&& r->Ok_0->Lambda_body@ == seq![
                    Statement::Expression(prec_tree(chain_terms(ts, c + 3, n), chain_ops(ts, c + 3, n))),
                ]
                &&& final(self).traveler.tokens@ == ts
                &&& final(self).traveler.top == c + 3 + 2 * n + 1
            }),
        decreases old(self).measure(), 1nat,
    {
        let mut param_names: Vec<String> = Vec::new();
        let mut param_types: Vec<Type> = Vec::new();
        let ghost ts = old(self).traveler.tokens@;
        let ghost params_from = old(self).traveler.top as int;
        proof {
            reveal_strlit(")");
            reveal_strlit(",");
            assert(")"@[0] != ","@[0]);
            assert forall|shape: Seq<bool>| #[trigger] params_at(ts, params_from, shape) implies {
                &&& self.traveler.tokens@ == ts
                &&& params_at(ts, self.traveler.top as int, shape.subrange(0, shape.len() as int))
                &&& params_close(ts, self.traveler.top as int, shape.subrange(0, shape.len() as int)) == params_close(ts, params_from, shape)
                &&& names_view(param_names) + param_names_at(ts, self.traveler.top as int, shape.subrange(0, shape.len() as int))
                    == param_names_at(ts, params_from, shape)
                &&& types_view(param_types) + param_types_at(ts, self.traveler.top as int, shape.subrange(0, shape.len() as int))
                    == param_types_at(ts, params_from, shape)
            } by {
                assert(shape.subrange(0, shape.len() as int) =~= shape);
                assert(names_view(param_names) + param_names_at(ts, params_from, shape) =~= param_names_at(ts, params_from, shape));
                assert(types_view(param_types) + param_types_at(ts, params_from, shape) =~= param_types_at(ts, params_from, shape));
            }
        }
        while self.more() && !self.at_text(")")
            invariant
                ts == old(self).traveler.tokens@,
                params_from == old(self).traveler.top as int,
                ")"@ != ","@,
                forall|shape: Seq<bool>| #[trigger] params_at(ts, params_from, shape) ==> {
                    &&& param_names.len() <= shape.len()
                    &&& self.traveler.tokens@ == ts
                    &&& params_at(ts, self.traveler.top as int, shape.subrange(param_names.len() as int, shape.len() as int))
                    &&& params_close(ts, self.traveler.top as int, shape.subrange(param_names.len() as int, shape.len() as int))
                        == params_close(ts, params_from, shape)
                    &&& names_view(param_names) + param_names_at(ts, self.traveler.top as int, shape.subrange(
                        param_names.len() as int,
                        shape.len() as int,
                    )) == param_names_at(ts, params_from, shape)
                    &&& types_view(param_types) + param_types_at(ts, self.traveler.top as int, shape.subrange(
                        param_names.len() as int,
                        shape.len() as int,
                    )) == param_types_at(ts, params_from, shape)
                },
                self.wf(),
                self.measure() <= old(self).measure(),
                param_names.len() == param_types.len(),
            decreases self.measure(),
        {
            let ghost k = param_names.len() as int;
            let ghost cur = self.traveler.top as int;
            let ghost names_before = names_view(param_names);
            let ghost types_before = types_view(param_types);
            let mut pt = Type::Any;
            if self.at(TokenType::Type) {
                let spelled = self.traveler.current_content();
                match get_type(spelled.as_str()) {
                    Some(t) => {
                        pt = t;
                    },
                    None => {},
                }
                self.advance();
            }
            if !self.at(TokenType::Identifier) {
                return Err(self.unexpected());
            }
            let ghost id = self.traveler.top as int;
            let pname = self.traveler.current_content();
            proof {
                crate::env::lemma_types_push(param_types@, pt);
                crate::symtab::lemma_names_push(param_names@, pname);
            }
            param_names.push(pname);
            param_types.push(pt);
            self.advance();
            if self.at_text(",") {
                self.advance();
            }
            proof {
                assert forall|shape: Seq<bool>| #[trigger] params_at(ts, params_from, shape) implies {
                    &&& param_names.len() <= shape.len()
                    &&& self.traveler.tokens@ == ts
                    &&& params_at(ts, self.traveler.top as int, shape.subrange(param_names.len() as int, shape.len() as int))
                    &&& params_close(ts, self.traveler.top as int, shape.subrange(param_names.len() as int, shape.len() as int))
                        == params_close(ts, params_from, shape)
                    &&& names_view(param_names) + param_names_at(ts, self.traveler.top as int, shape.subrange(
                        param_names.len() as int,
                        shape.len() as int,
                    )) == param_names_at(ts, params_from, shape)
                    &&& types_view(param_types) + param_types_at(ts, self.traveler.top as int, shape.subrange(
                        param_names.len() as int,
                        shape.len() as int,
                    )) == param_types_at(ts, params_from, shape)
                } by {
                    let rest = shape.subrange(k, shape.len() as int);
                    assert(params_at(ts, cur, rest));
                    if rest.len() == 0 {
                        assert(ts[cur].content@ == ")"@);
                    }
                    let typed = rest[0];
                    assert(typed == shape[k]);
                    assert(id == param_ident(cur, typed));
                    let rest2 = shape.subrange(k + 1, shape.len() as int);
                    assert(rest.subrange(1, rest.len() as int) =~= rest2);
                    assert(names_view(param_names) =~= names_before.push(ts[id].content@));
                    assert(types_view(param_types) =~= types_before.push(
                        if typed { type_keyword(ts[cur].content@)->0 } else { SType::Any },
                    ));
                    assert(param_names_at(ts, cur, rest) == seq![ts[id].content@] + param_names_at(ts, id + 2, rest2));
                    assert(param_types_at(ts, cur, rest) == seq![if typed { type_keyword(ts[cur].content@)->0 } else { SType::Any }]
                        + param_types_at(ts, id + 2, rest2));
                    if rest.len() == 1 {
                        assert(self.traveler.top == id + 1);
                        assert(rest2 =~= Seq::<bool>::empty());
                        assert(param_names_at(ts, id + 1, rest2) == param_names_at(ts, id + 2, rest2));
                        assert(param_types_at(ts, id + 1, rest2) == param_types_at(ts, id + 2, rest2));
                    } else {
                        assert(params_at(ts, id + 2, rest2));
                        assert(self.traveler.top == id + 2);
                    }
                    assert(names_before.push(ts[id].content@) + param_names_at(ts, self.traveler.top as int, rest2)
                        =~= names_before + param_names_at(ts, cur, rest));
                    assert(types_before.push(if typed { type_keyword(ts[cur].content@)->0 } else { SType::Any })
                        + param_types_at(ts, self.traveler.top as int, rest2) =~= types_before + param_types_at(ts, cur, rest));
                }
            }
        }
        proof {
            assert forall|shape: Seq<bool>| #[trigger] params_at(ts, params_from, shape) implies param_names.len() == shape.len() by {
                if param_names.len() < shape.len() {
                    let rest = shape.subrange(param_names.len() as int, shape.len() as int);
                    assert(params_at(ts, self.traveler.top as int, rest));
                }
            }
            assert forall|shape: Seq<bool>, n: nat| #[trigger] lambda_tail(ts, params_from, shape, n) implies self.traveler.top
                == params_close(ts, params_from, shape) && self.traveler.tokens@ == ts && names_view(param_names) == param_names_at(
                ts,
                params_from,
                shape,
            ) && types_view(param_types) == param_types_at(ts, params_from, shape) by {
                assert(params_at(ts, params_from, shape));
                let rest = shape.subrange(shape.len() as int, shape.len() as int);
                assert(rest =~= Seq::<bool>::empty());
                assert(names_view(param_names) + Seq::<Seq<char>>::empty() =~= names_view(param_names));
                assert(types_view(param_types) + Seq::<SType>::empty() =~= types_view(param_types));
            }
        }
        if !self.at_text(")") {
            return Err(self.unexpected());
        }
        self.advance();
        let mut name: Option<String> = None;
        if self.at(TokenType::Identifier) {
            name = Some(self.traveler.current_content());
            self.advance();
        }
        if !self.at_text("=") {
            return Err(self.unexpected());
        }
        self.advance();
        proof {
            assert forall|shape: Seq<bool>, n: nat| #[trigger] lambda_tail(ts, params_from, shape, n) implies self.traveler.top
                == params_close(ts, params_from, shape) + 3 && self.traveler.tokens@ == ts && is_atom(ts, self.traveler.top as int)
                && name == Some(ts[params_close(ts, params_from, shape) + 1].content) && number_chain(ts, self.traveler.top as int, n) by {
                let c = params_close(ts, params_from, shape);
                assert(is_atom(ts, c + 3 + 2 * 0));
            }
        }
        let body = if self.at(TokenType::EOL) {
            self.advance();
            if !self.at(TokenType::Block(Vec::new())) {
                return Err(self.unexpected());
            }
            match self.block() {
                Ok(stmts) => stmts,
                Err(e) => {
                    return Err(e);
                },
            }
        } else {
            match self.expression() {
                Ok(e) => {
                    let mut v: Vec<Statement> = Vec::new();
                    v.push(Statement::Expression(e));
                    v
                },
                Err(e) => {
                    return Err(e);
                },
            }
        };
        Ok(Expression::Lambda { name, retty, param_names, param_types, body })
    }
}

} // verus!
