use vstd::prelude::*;
use crate::ast::{is_arithmetic, operand_of, operation_type, Expression, Operand, SType, Statement, Type};
use crate::block_tree::{grouped, line_items, line_view, source_lines, sources, BlockTree, Branch};
use crate::checker::{add_global, check_program, expr_type, visit_expr, visit_stmt, visit_stmts, Scopes};
use crate::env::Env;
use crate::error::{ParserError, ParserResult};
use crate::lexer::{flattened, lex_fails_in, lexed_from, process_branch};
use crate::lua::{lua_stmts, render};
use crate::parser::{chain_lines, chain_ops, chain_terms, chain_trees, is_atom, is_number_token, loosest, prec_tree, Parser};
use crate::symtab::{index_of, SymTab};
use crate::token::{Token, TokenType};
use crate::traveler::Traveler;

verus! {

/// The open indentation levels once those deeper than `d` are closed.
pub open spec fn pop_deeper(open: Seq<nat>, d: nat) -> Seq<nat>
    decreases open.len(),
{
    if open.len() > 0 && open.last() > d {
        pop_deeper(open.drop_last(), d)
    } else {
        open
    }
}

/// Whether every line from `i` on either returns to an open indentation level, or goes
/// deeper than the innermost one without closing any: no dedent lands between two levels.
pub open spec fn dedents_ok(lines: Seq<(nat, Seq<char>)>, i: int, open: Seq<nat>) -> bool
    decreases lines.len() - i,
{
    if i < 0 || i >= lines.len() {
        true
    } else {
        let d = lines[i].0;
        let kept = pop_deeper(open, d);
        if kept.len() > 0 && kept.last() == d {
            dedents_ok(lines, i + 1, kept)
        } else if kept.len() < open.len() {
            false
        } else {
            dedents_ok(lines, i + 1, kept.push(d))
        }
    }
}

fn consistent_dedents(indents: &Vec<(usize, String)>) -> (r: bool)
    ensures
        r == dedents_ok(line_view(indents@), 0, Seq::empty()),
{
    let ghost lv = line_view(indents@);
    let mut open: Vec<usize> = Vec::new();
    let mut i: usize = 0;
    assert(open@.map_values(|x: usize| x as nat) =~= Seq::<nat>::empty());
    while i < indents.len()
        invariant
            i <= indents.len(),
            lv == line_view(indents@),
            dedents_ok(lv, 0, Seq::empty()) == dedents_ok(lv, i as int, open@.map_values(|x: usize| x as nat)),
        decreases indents.len() - i,
    {
        let d = indents[i].0;
        let ghost start = open@.map_values(|x: usize| x as nat);
        assert(lv[i as int].0 == d as nat);
        let before = open.len();
        while open.len() > 0 && open[open.len() - 1] > d
            invariant
                pop_deeper(start, d as nat) == pop_deeper(open@.map_values(|x: usize| x as nat), d as nat),
                open.len() <= before,
            decreases open.len(),
        {
            let ghost cur = open@.map_values(|x: usize| x as nat);
            open.pop();
            assert(open@.map_values(|x: usize| x as nat) =~= cur.drop_last());
        }
        let ghost kept = open@.map_values(|x: usize| x as nat);
        assert(pop_deeper(kept, d as nat) == kept);
        if open.len() > 0 && open[open.len() - 1] == d {
        } else if open.len() < before {
            return false;
        } else {
            open.push(d);
            assert(open@.map_values(|x: usize| x as nat) =~= kept.push(d as nat));
        }
        i += 1;
    }
    true
}

/// Whether `root` is the block tree of a source text whose dedents all return to an open
/// level, with no line less indented than the first.
pub open spec fn tree_of(source: Seq<char>, root: Branch) -> bool {
    let lines = source_lines(source);
    &&& dedents_ok(lines, 0, Seq::empty())
    &&& forall|m: int| 0 <= m < lines.len() ==> !((#[trigger] lines[m]).0 < lines[0].0)
    &&& sources(root) == line_items(source, 0)
    &&& lines.len() == 0 ==> root.value.len() == 0
    &&& lines.len() > 0 ==> grouped(root.value@, lines, 0, lines.len() as int, lines[0].0)
}

/// Whether `ts` is the token stream of a source text: its block tree, lexed, flattened.
pub open spec fn stream_of(source: Seq<char>, ts: Seq<Token>) -> bool {
    exists|root: Branch, lexed: Branch| #[trigger] tree_of(source, root) && lexed_from(root, lexed) && #[trigger] flattened(
        lexed.value@,
        ts,
    )
}

/// Builds the block tree of a source text. A line less indented than the first line, or one
/// whose dedent matches no enclosing level, is an error.
pub fn block_tree(source: &str) -> (r: ParserResult<Branch>)
    ensures
        ({
            let lines = source_lines(source@);
            &&& r is Err <==> (!dedents_ok(lines, 0, Seq::empty()) || exists|m: int| 0 <= m < lines.len()
                && (#[trigger] lines[m]).0 < lines[0].0)
            &&& r matches Ok(b) ==> sources(b) == line_items(source@, 0)
            &&& r matches Ok(b) ==> (lines.len() == 0 ==> b.value.len() == 0)
            &&& r matches Ok(b) ==> (lines.len() > 0 ==> grouped(b.value@, lines, 0, lines.len() as int, lines[0].0))
        }),
{
    let mut builder = BlockTree::new(source, 0);
    let indents = builder.indents();
    let ghost lines = source_lines(source@);
    proof {
        assert(indents@.map_values(|p: (usize, String)| p.1@).len() == indents.len());
        assert(line_view(indents@) =~= lines) by {
            assert(indents@.map_values(|p: (usize, String)| p.0 as nat).len() == indents.len());
            assert forall|k: int| 0 <= k < indents.len() implies line_view(indents@)[k] == lines[k] by {
                assert(indents@.map_values(|p: (usize, String)| p.0 as nat)[k] == indents@[k].0 as nat);
                assert(indents@.map_values(|p: (usize, String)| p.1@)[k] == indents@[k].1@);
            }
        }
    }
    if !consistent_dedents(&indents) {
        return Err(ParserError::new("a line's indentation matches no enclosing block"));
    }
    let root = builder.tree(&indents);
    if builder.current_line < indents.len() {
        proof {
            let m = builder.current_line as int;
            assert(lines[m].0 == indents@[m].0 as nat);
        }
        return Err(ParserError::new("a line is less indented than the first line"));
    }
    proof {
        assert forall|m: int| 0 <= m < lines.len() implies !((#[trigger] lines[m]).0 < lines[0].0) by {
            assert(lines[m].0 == indents@[m].0 as nat);
            assert(indents@[m].0 >= indents@[0].0);
        }

    }
    assert(indents@.subrange(0, indents.len() as int) =~= indents@);
    Ok(root)
}

/// Whether every atom of such lines is a number and every operator arithmetic.
pub open spec fn arithmetic_lines(ts: Seq<Token>, top: int, ns: Seq<nat>) -> bool
    decreases ns.len(),
{
    if ns.len() == 0 {
        true
    } else {
        &&& forall|k: int| 0 <= k <= ns[0] ==> is_number_token(#[trigger] ts[top + 2 * k])
        &&& forall|k: int| 0 <= k < ns[0] ==> is_arithmetic(#[trigger] chain_ops(ts, top, ns[0])[k])
        &&& arithmetic_lines(ts, top + 2 * ns[0] + 2, ns.subrange(1, ns.len() as int))
    }
}

/// A precedence tree of number literals and arithmetic operators checks in any scopes, with
/// type `Num`, and declares nothing.
pub proof fn lemma_arithmetic_tree_checks(terms: Seq<Expression>, ops: Seq<Operand>, s: Scopes)
    requires
        terms.len() == ops.len() + 1,
        forall|k: int| 0 <= k < terms.len() ==> (#[trigger] terms[k]) is NumberLiteral,
        forall|k: int| 0 <= k < ops.len() ==> is_arithmetic(#[trigger] ops[k]),
    ensures
        visit_expr(prec_tree(terms, ops), s) == Some(s),
        expr_type(prec_tree(terms, ops), s) == Some(SType::Num),
    decreases ops.len(),
{
    if ops.len() > 0 {
        let k = loosest(ops);
        crate::parser::lemma_loosest_bound(ops);
        let lt = terms.subrange(0, k + 1);
        let lo = ops.subrange(0, k);
        let rt = terms.subrange(k + 1, terms.len() as int);
        let ro = ops.subrange(k + 1, ops.len() as int);
        assert forall|j: int| 0 <= j < lt.len() implies (#[trigger] lt[j]) is NumberLiteral by {
            assert(lt[j] == terms[j]);
        }
        assert forall|j: int| 0 <= j < lo.len() implies is_arithmetic(#[trigger] lo[j]) by {
            assert(lo[j] == ops[j]);
        }
        assert forall|j: int| 0 <= j < rt.len() implies (#[trigger] rt[j]) is NumberLiteral by {
            assert(rt[j] == terms[k + 1 + j]);
        }
        assert forall|j: int| 0 <= j < ro.len() implies is_arithmetic(#[trigger] ro[j]) by {
            assert(ro[j] == ops[k + 1 + j]);
        }
        lemma_arithmetic_tree_checks(lt, lo, s);
        lemma_arithmetic_tree_checks(rt, ro, s);
        assert(is_arithmetic(ops[k]));
        assert(operation_type(ops[k], SType::Num, SType::Num) == Some(SType::Num));
    } else {
        assert(terms[0] is NumberLiteral);
    }
}

proof fn lemma_chain_trees_check(ts: Seq<Token>, top: int, ns: Seq<nat>, end: int, s: Scopes)
    requires
        chain_lines(ts, top, ns, end),
        arithmetic_lines(ts, top, ns),
    ensures
        visit_stmts(chain_trees(ts, top, ns), s) == Some(s),
    decreases ns.len(),
{
    let trees = chain_trees(ts, top, ns);
    if ns.len() > 0 {
        let n = ns[0];
        let terms = chain_terms(ts, top, n);
        let ops = chain_ops(ts, top, n);
        assert forall|k: int| 0 <= k < terms.len() implies (#[trigger] terms[k]) is NumberLiteral by {}
        lemma_arithmetic_tree_checks(terms, ops, s);
        let rest = ns.subrange(1, ns.len() as int);
        lemma_chain_trees_check(ts, top + 2 * n + 2, rest, end, s);
        assert(trees[0] == Statement::Expression(prec_tree(terms, ops)));
        assert(visit_stmt(trees[0], s) == Some(s));
        assert(trees.subrange(1, trees.len() as int) =~= chain_trees(ts, top + 2 * n + 2, rest));
    }
}

proof fn lemma_chain_transfer(ts: Seq<Token>, us: Seq<Token>, top: int, ns: Seq<nat>, end: int)
    requires
        chain_lines(ts, top, ns, end),
        end <= us.len(),
        us.subrange(0, end) == ts.subrange(0, end),
    ensures
        chain_lines(us, top, ns, end),
        chain_trees(us, top, ns) == chain_trees(ts, top, ns),
        arithmetic_lines(us, top, ns) == arithmetic_lines(ts, top, ns),
    decreases ns.len(),
{
    if ns.len() > 0 {
        let n = ns[0];
        assert(end <= ts.len());
        assert forall|j: int| 0 <= j < end implies us[j] == ts[j] by {
            assert(us.subrange(0, end)[j] == ts.subrange(0, end)[j]);
            assert(us.subrange(0, end)[j] == us[j]);
            assert(ts.subrange(0, end)[j] == ts[j]);
        }
        lemma_chain_transfer(ts, us, top + 2 * n + 2, ns.subrange(1, ns.len() as int), end);
        assert(chain_terms(us, top, n) =~= chain_terms(ts, top, n));
        assert(chain_ops(us, top, n) =~= chain_ops(ts, top, n));
        assert forall|k: int| 0 <= k <= n implies #[trigger] is_atom(us, top + 2 * k) by {
            assert(is_atom(ts, top + 2 * k));
            assert(us[top + 2 * k + 1] == ts[top + 2 * k + 1]);
        }
        assert forall|k: int| 0 <= k <= n && is_number_token(ts[top + 2 * k]) implies is_number_token(#[trigger] us[top + 2 * k]) by {}
        assert forall|k: int| 0 <= k < n implies (#[trigger] us[top + 2 * k + 1]).token_type is Operator && operand_of(
            us[top + 2 * k + 1].content@,
        ) is Some by {
            assert(ts[top + 2 * k + 1].token_type is Operator);
        }
    }
}

/// Parses a token stream, checks the program in the given scopes, and renders it in the
/// target language. Nothing is rendered unless every statement passes the check.
pub fn run(tokens: Vec<Token>, sym: &mut SymTab, env: &mut Env) -> (r: ParserResult<String>)
    ensures
        r matches Ok(text) ==> exists|stmts: Seq<Statement>| #[trigger] visit_stmts(stmts, (old(sym)@, old(env)@)) is Some
            && text@ == lua_stmts(stmts),
        r is Err ==> final(sym)@ == old(sym)@ && final(env)@ == old(env)@,
        forall|ns: Seq<nat>| #[trigger] chain_lines(tokens@, 0, ns, tokens.len() as int) && arithmetic_lines(tokens@, 0, ns)
            ==> (r matches Ok(text) && text@ == lua_stmts(chain_trees(tokens@, 0, ns))),
{
    let ghost given = tokens@;
    let traveler = Traveler::new(tokens);
    proof {
        assert forall|ns: Seq<nat>| #[trigger] chain_lines(given, 0, ns, given.len() as int) && arithmetic_lines(given, 0, ns)
            implies chain_lines(traveler.tokens@, 0, ns, traveler.tokens.len() - 2) && chain_trees(traveler.tokens@, 0, ns)
            == chain_trees(given, 0, ns) && visit_stmts(chain_trees(given, 0, ns), (sym@, env@)) == Some((sym@, env@)) by {
            assert(given.subrange(0, given.len() as int) =~= given);
            lemma_chain_transfer(given, traveler.tokens@, 0, ns, given.len() as int);
            lemma_chain_trees_check(given, 0, ns, given.len() as int, (sym@, env@));
        }
    }
    let mut parser = Parser::new(traveler);
    let stmts = match parser.parse() {
        Ok(stmts) => stmts,
        Err(e) => {
            return Err(e);
        },
    };
    match check_program(&stmts, sym, env) {
        Ok(()) => {},
        Err(e) => {
            return Err(e);
        },
    }
    let text = render(&stmts);
    assert(visit_stmts(stmts@, (old(sym)@, old(env)@)) is Some);
    Ok(text)
}

/// The standard global scope, as the checker sees it.
pub open spec fn standard_view() -> Scopes {
    (
        seq![seq!["print"@, "tostring"@]],
        seq![seq![SType::Lambda(seq![SType::Nil, SType::Any]), SType::Lambda(seq![SType::Str, SType::Any])]],
    )
}

/// The scopes of a program: one global scope holding the target language's `print`
/// (any value to nil) and `tostring` (any value to a string).
pub fn standard_scopes() -> (r: (SymTab, Env))
    ensures
        r.0@ == seq![seq!["print"@, "tostring"@]],
        r.1@ == seq![seq![SType::Lambda(seq![SType::Nil, SType::Any]), SType::Lambda(seq![SType::Str, SType::Any])]],
{
    let mut sym = SymTab::new_global();
    let mut env = Env::new_global();
    let mut print_type: Vec<Type> = Vec::new();
    print_type.push(Type::Nil);
    print_type.push(Type::Any);
    let ghost pv = print_type@;
    assert(pv[0]@ == SType::Nil && pv[1]@ == SType::Any);
    let pt = Type::Lambda(print_type);
    assert(pt@ == SType::Lambda(seq![SType::Nil, SType::Any])) by {
        assert(pt@->Lambda_0[0] == pv[0]@);
        assert(pt@->Lambda_0[1] == pv[1]@);
        assert(pt@->Lambda_0 =~= seq![SType::Nil, SType::Any]);
    }
    let ghost s0: Scopes = (sym@, env@);
    proof {
        assert(s0.0.last() =~= Seq::<Seq<char>>::empty());
        assert(s0.0.drop_last().push(s0.0.last().push("print"@)) =~= seq![seq!["print"@]]);
        assert(s0.1.drop_last().push(s0.1.last().push(SType::Undefined)) =~= seq![seq![SType::Undefined]]);
    }
    let r1 = add_global(&mut sym, &mut env, "print", pt);
    assert(sym@ =~= seq![seq!["print"@]]);
    assert(env@[0] =~= seq![SType::Lambda(seq![SType::Nil, SType::Any])]);
    assert(env@ =~= seq![seq![SType::Lambda(seq![SType::Nil, SType::Any])]]);
    let mut tostring_type: Vec<Type> = Vec::new();
    tostring_type.push(Type::Str);
    tostring_type.push(Type::Any);
    let ghost tv = tostring_type@;
    assert(tv[0]@ == SType::Str && tv[1]@ == SType::Any);
    let tt = Type::Lambda(tostring_type);
    assert(tt@ == SType::Lambda(seq![SType::Str, SType::Any])) by {
        assert(tt@->Lambda_0[0] == tv[0]@);
        assert(tt@->Lambda_0[1] == tv[1]@);
        assert(tt@->Lambda_0 =~= seq![SType::Str, SType::Any]);
    }
    let ghost s1: Scopes = (sym@, env@);
    proof {
        reveal_strlit("print");
        reveal_strlit("tostring");
        assert("print"@ != "tostring"@) by {
            assert("print"@.len() != "tostring"@.len());
        }
        assert(s1.0.last() == seq!["print"@]);
        assert(seq!["print"@].drop_last() =~= Seq::<Seq<char>>::empty());
        assert(index_of(Seq::<Seq<char>>::empty(), "tostring"@) is None);
        assert(index_of(s1.0.last(), "tostring"@) is None);
        assert(s1.0.last().push("tostring"@) =~= seq!["print"@, "tostring"@]);
        assert(s1.0.drop_last().push(s1.0.last().push("tostring"@)) =~= seq![seq!["print"@, "tostring"@]]);
        assert(s1.1.last().push(SType::Undefined) =~= seq![SType::Lambda(seq![SType::Nil, SType::Any]), SType::Undefined]);
        assert(s1.1.drop_last().push(s1.1.last().push(SType::Undefined)) =~= seq![
            seq![SType::Lambda(seq![SType::Nil, SType::Any]), SType::Undefined],
        ]);
    }
    let r2 = add_global(&mut sym, &mut env, "tostring", tt);
    assert(sym@ =~= seq![seq!["print"@, "tostring"@]]);
    assert(env@[0] =~= seq![SType::Lambda(seq![SType::Nil, SType::Any]), SType::Lambda(seq![SType::Str, SType::Any])]);
    assert(env@ =~= seq![seq![SType::Lambda(seq![SType::Nil, SType::Any]), SType::Lambda(seq![SType::Str, SType::Any])]]);
    (sym, env)
}

/// Compiles a source text: block tree, tokens, parse, check and render, in the standard
/// scopes. The first error anywhere stops the compilation.
pub fn compile(source: &str) -> (r: ParserResult<String>)
    ensures
        r is Err ==> {
            let lines = source_lines(source@);
            ||| !dedents_ok(lines, 0, Seq::empty())
            ||| exists|m: int| 0 <= m < lines.len() && (#[trigger] lines[m]).0 < lines[0].0
            ||| exists|root: Branch| #[trigger] tree_of(source@, root) && lex_fails_in(root)
            ||| exists|ts: Seq<Token>| #[trigger] stream_of(source@, ts) && forall|ns: Seq<nat>| !(#[trigger] chain_lines(
                ts,
                0,
                ns,
                ts.len() as int,
            ) && arithmetic_lines(ts, 0, ns))
        },
        r matches Ok(text) ==> exists|ts: Seq<Token>| #[trigger] stream_of(source@, ts) && (exists|stmts: Seq<Statement>|
            #[trigger] visit_stmts(stmts, standard_view()) is Some && text@ == lua_stmts(stmts)) && (forall|ns: Seq<nat>|
            #[trigger] chain_lines(ts, 0, ns, ts.len() as int) && arithmetic_lines(ts, 0, ns) ==> text@ == lua_stmts(
            chain_trees(ts, 0, ns),
        )),
{
    let root = match block_tree(source) {
        Ok(root) => root,
        Err(e) => {
            return Err(e);
        },
    };
    assert(tree_of(source@, root));
    let tokens = match process_branch(&root) {
        Ok(tokens) => tokens,
        Err(e) => {
            return Err(e);
        },
    };
    let ghost ts = tokens@;
    let ghost tokens_len = tokens.len();
    proof {
        let lexed = choose|lexed: Branch| #[trigger] lexed_from(root, lexed) && flattened(lexed.value@, ts);
        assert(tree_of(source@, root) && lexed_from(root, lexed) && flattened(lexed.value@, ts));
        assert(stream_of(source@, ts));
    }
    let (mut sym, mut env) = standard_scopes();
    assert((sym@, env@) == standard_view());
    let r = run(tokens, &mut sym, &mut env);
    proof {
        if r is Err {
            assert forall|ns: Seq<nat>| !(#[trigger] chain_lines(ts, 0, ns, ts.len() as int) && arithmetic_lines(ts, 0, ns)) by {
                assert(ts.len() as int == tokens_len as int);
                if chain_lines(ts, 0, ns, ts.len() as int) && arithmetic_lines(ts, 0, ns) {
                    assert(chain_lines(ts, 0, ns, tokens_len as int));
                }
            }
            assert(stream_of(source@, ts));
        }
        if r is Ok {
            let text = r->Ok_0;
            assert(exists|stmts: Seq<Statement>| #[trigger] visit_stmts(stmts, standard_view()) is Some && text@ == lua_stmts(stmts));
            assert forall|ns: Seq<nat>| #[trigger] chain_lines(ts, 0, ns, ts.len() as int) && arithmetic_lines(ts, 0, ns)
                implies text@ == lua_stmts(chain_trees(ts, 0, ns)) by {
                assert(ts.len() as int == tokens_len as int);
                assert(chain_lines(ts, 0, ns, tokens_len as int));
            }
            assert(stream_of(source@, ts));
        }
    }
    r
}

} // verus!
