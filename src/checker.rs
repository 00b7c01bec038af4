use vstd::prelude::*;
use crate::ast::{operation_type, spelled_type, Expression, SType, Statement, Type};
use crate::env::{frame_at, types_view, valid_slot, with_slot, Env};
use crate::symtab::{index_of, names_view, resolve, SymTab};
use crate::error::{ParserError, ParserResult};
use crate::text::{append, decimal, decimal_string, owned};

verus! {

/// The scopes as the checker sees them: names and types, each scope's innermost last.
pub type Scopes = (Seq<Seq<Seq<char>>>, Seq<Seq<SType>>);

/// `Any` is compatible with every type; otherwise types must be equal.
pub open spec fn compatible(a: SType, b: SType) -> bool {
    a == b || a == SType::Any || b == SType::Any
}

/// The type recorded for the slot that a name resolves to.
pub open spec fn lookup_type(s: Scopes, n: Seq<char>) -> Option<SType> {
    match resolve(s.0, n) {
        Some((i, h)) => if valid_slot(s.1, i, h) {
            Some(frame_at(s.1, h)[i as int])
        } else {
            None
        },
        None => None,
    }
}

/// The type of a function literal: `[return type, parameter types...]`.
pub open spec fn lambda_type(retty: Type, param_types: Vec<Type>) -> SType {
    SType::Lambda(seq![retty@] + types_view(param_types))
}

/// The static type of an expression, or `None` where it has none.
pub open spec fn expr_type(e: Expression, s: Scopes) -> Option<SType>
    decreases e,
    via expr_type_decreases
{
    match e {
        Expression::Block(stmts) => block_type(stmts@, s),
        Expression::NumberLiteral(_) => Some(SType::Num),
        Expression::StringLiteral(_) => Some(SType::Str),
        Expression::BoolLiteral(_) => Some(SType::Bool),
        Expression::Identifier(n) => lookup_type(s, n@),
        Expression::Definition(t, _, v) => match t {
            Some(tt) => Some(tt@),
            None => expr_type(*v, s),
        },
        Expression::Lambda { retty, param_types, .. } => Some(lambda_type(retty, param_types)),
        Expression::Call(c, _) => match expr_type(*c, s) {
            Some(SType::Lambda(ps)) => if ps.len() > 0 {
                Some(ps[0])
            } else {
                None
            },
            _ => None,
        },
        Expression::Operation { left, op, right } => match expr_type(*left, s) {
            Some(l) => match expr_type(*right, s) {
                Some(r) => operation_type(op, l, r),
                None => None,
            },
            None => None,
        },
        Expression::EOF => Some(SType::Undefined),
    }
}

/// The type of a block: that of its first `return` with a value, else that of its last
/// statement; an empty block is `Nil`.
pub open spec fn block_type(stmts: Seq<Statement>, s: Scopes) -> Option<SType>
    decreases stmts,
    via block_type_decreases
{
    if stmts.len() == 0 {
        Some(SType::Nil)
    } else {
        match stmts[0] {
            Statement::Return(Some(e)) => expr_type(e, s),
            _ => if stmts.len() == 1 {
                match stmts[0] {
                    Statement::Expression(e) => expr_type(e, s),
                    _ => Some(SType::Nil),
                }
            } else {
                block_type(stmts.subrange(1, stmts.len() as int), s)
            },
        }
    }
}

/// The type of a statement.
pub open spec fn stmt_type(st: Statement, s: Scopes) -> Option<SType> {
    match st {
        Statement::Expression(e) => expr_type(e, s),
        Statement::Return(Some(e)) => expr_type(e, s),
        Statement::Return(None) => Some(SType::Nil),
    }
}

#[via_fn]
proof fn expr_type_decreases(e: Expression, s: Scopes) {
    if let Expression::Block(stmts) = e {
        assert(decreases_to!(e => stmts));
        assert(decreases_to!(stmts => stmts@));
        assert(decreases_to!(e => stmts@));
    }
}

#[via_fn]
proof fn block_type_decreases(stmts: Seq<Statement>, s: Scopes) {
    if stmts.len() != 0 {
        assert(decreases_to!(stmts => stmts[0]));
        match stmts[0] {
            Statement::Return(Some(e)) => {
                assert(decreases_to!(stmts[0] => stmts[0]->Return_0));
                assert(decreases_to!(stmts => e));
            },
            Statement::Expression(e) => {
                assert(decreases_to!(stmts => e));
            },
            _ => {},
        }
        assert(decreases_to!(stmts => stmts.subrange(1, stmts.len() as int)));
    }
}

/// Binds `n` to type `t` in the current scope: its existing slot there, else a new one; a slot
/// past the end of the current types is added first.
pub open spec fn assign(s: Scopes, n: Seq<char>, t: SType) -> Option<Scopes> {
    let names = match index_of(s.0.last(), n) {
        Some(i) => s.0,
        None => s.0.drop_last().push(s.0.last().push(n)),
    };
    let i: nat = match index_of(s.0.last(), n) {
        Some(i) => i,
        None => s.0.last().len(),
    };
    let grown = if i >= s.1.last().len() {
        s.1.drop_last().push(s.1.last().push(SType::Undefined))
    } else {
        s.1
    };
    if valid_slot(grown, i, 0) {
        Some((names, with_slot(grown, i, 0, t)))
    } else {
        None
    }
}

/// The types of a list of expressions, when each has one.
pub open spec fn arg_types(args: Seq<Expression>, s: Scopes) -> Option<Seq<SType>>
    decreases args.len(),
{
    if args.len() == 0 {
        Some(Seq::empty())
    } else {
        match expr_type(args[0], s) {
            Some(t) => match arg_types(args.subrange(1, args.len() as int), s) {
                Some(ts) => Some(seq![t] + ts),
                None => None,
            },
            None => None,
        }
    }
}

/// Whether arguments of types `ats` fit parameters of types `ps`: same number, each compatible.
pub open spec fn params_accept(ps: Seq<SType>, ats: Seq<SType>) -> bool {
    ps.len() == ats.len() && forall|i: int| 0 <= i < ps.len() ==> compatible(ps[i], ats[i])
}

/// The first position from `j` on where an argument type does not fit its parameter type.
pub open spec fn first_mismatch(ps: Seq<SType>, ats: Seq<SType>, j: int) -> int
    decreases ps.len() - j,
{
    if j < 0 || j >= ps.len() || j >= ats.len() || !compatible(ps[j], ats[j]) {
        j
    } else {
        first_mismatch(ps, ats, j + 1)
    }
}

/// The error of a call whose argument types `ats` do not fit the parameter types `ps`: the
/// number of arguments, else the first argument that does not fit, by position (from 1).
pub open spec fn call_error(ps: Seq<SType>, ats: Seq<SType>) -> Seq<char> {
    if ps.len() != ats.len() {
        "can't invoke lambda: it takes "@ + decimal(ps.len()) + " arguments, not "@ + decimal(ats.len())
    } else {
        let j = first_mismatch(ps, ats, 0);
        "can't invoke lambda: argument "@ + decimal((j + 1) as nat) + " has type "@ + spelled_type(ats[j])
            + " but parameter "@ + decimal((j + 1) as nat) + " has type "@ + spelled_type(ps[j])
    }
}

/// When `e` is a call to a function whose parameters the arguments do not fit, checking it
/// fails with `call_error`.
pub open spec fn call_fails_with(e: Expression, s: Scopes, r: ParserResult<()>) -> bool {
    match e {
        Expression::Call(c, args) => match expr_type(*c, s) {
            Some(SType::Lambda(ps)) => match arg_types(args@, s) {
                Some(ats) => (ps.len() > 0 && !params_accept(ps.subrange(1, ps.len() as int), ats)) ==> (r
                    matches Err(err) && err.message() == call_error(ps.subrange(1, ps.len() as int), ats)),
                None => true,
            },
            _ => true,
        },
        _ => true,
    }
}

/// The scopes after checking a definition whose value has been checked, giving `s1`.
pub open spec fn define(t: Option<Type>, name: Seq<char>, v: Expression, s1: Scopes) -> Option<Scopes> {
    let declared = match t {
        Some(tt) => tt@,
        None => SType::Any,
    };
    let fits = match t {
        Some(tt) => match expr_type(v, s1) {
            Some(et) => compatible(tt@, et),
            None => false,
        },
        None => true,
    };
    let prior_ok = match index_of(s1.0.last(), name) {
        Some(i) => valid_slot(s1.1, i, 0) && compatible(frame_at(s1.1, 0)[i as int], declared),
        None => true,
    };
    if fits && prior_ok {
        assign(s1, name, declared)
    } else {
        None
    }
}

/// The scopes after checking an expression, or `None` where the check fails.
pub open spec fn visit_expr(e: Expression, s: Scopes) -> Option<Scopes>
    decreases e,
    via visit_expr_decreases
{
    match e {
        Expression::Block(stmts) => visit_stmts(stmts@, s),
        Expression::Identifier(n) => if resolve(s.0, n@) is Some {
            Some(s)
        } else {
            None
        },
        Expression::Definition(t, name, v) => match visit_expr(*v, s) {
            Some(s1) => define(t, name@, *v, s1),
            None => None,
        },
        Expression::Lambda { name, retty, param_names, param_types, body } => {
            let s1 = match name {
                Some(n) => if index_of(s.0.last(), n@) is Some {
                    None
                } else {
                    assign(s, n@, lambda_type(retty, param_types))
                },
                None => Some(s),
            };
            match s1 {
                Some(s1) => match check_body(
                    body@,
                    retty@,
                    (s1.0.push(names_view(param_names)), s1.1.push(types_view(param_types))),
                ) {
                    Some(s2) => Some((s2.0.drop_last(), s2.1.drop_last())),
                    None => None,
                },
                None => None,
            }
        },
        Expression::Call(c, args) => match expr_type(*c, s) {
            Some(SType::Lambda(ps)) => if ps.len() > 0 {
                match arg_types(args@, s) {
                    Some(ats) => if params_accept(ps.subrange(1, ps.len() as int), ats) {
                        Some(s)
                    } else {
                        None
                    },
                    None => None,
                }
            } else {
                None
            },
            _ => None,
        },
        Expression::Operation { left, op, right } => match visit_expr(*left, s) {
            Some(s1) => match visit_expr(*right, s1) {
                Some(s2) => if expr_type(e, s2) is Some {
                    Some(s2)
                } else {
                    None
                },
                None => None,
            },
            None => None,
        },
        _ => Some(s),
    }
}

/// The scopes after checking a statement.
pub open spec fn visit_stmt(st: Statement, s: Scopes) -> Option<Scopes>
    decreases st,
{
    match st {
        Statement::Expression(e) => visit_expr(e, s),
        Statement::Return(Some(e)) => visit_expr(e, s),
        Statement::Return(None) => Some(s),
    }
}

/// The scopes after checking statements in order.
pub open spec fn visit_stmts(stmts: Seq<Statement>, s: Scopes) -> Option<Scopes>
    decreases stmts,
    via visit_stmts_decreases
{
    if stmts.len() == 0 {
        Some(s)
    } else {
        match visit_stmt(stmts[0], s) {
            Some(s1) => visit_stmts(stmts.subrange(1, stmts.len() as int), s1),
            None => None,
        }
    }
}

/// Whether a statement of a function body must have the return type: a `return`, or the
/// last statement.
pub open spec fn constrained(st: Statement, last: bool) -> bool {
    last || st is Return
}

/// The scopes after checking a function body whose declared return type is `rt`: each
/// statement is checked in order; unless `rt` is `Any`, each `return` and the last statement
/// must have a type compatible with `rt`.
pub open spec fn check_body(stmts: Seq<Statement>, rt: SType, s: Scopes) -> Option<Scopes>
    decreases stmts,
    via check_body_decreases
{
    if stmts.len() == 0 {
        Some(s)
    } else {
        match visit_stmt(stmts[0], s) {
            Some(s1) => {
                let ok = rt == SType::Any || !constrained(stmts[0], stmts.len() == 1) || match stmt_type(
                    stmts[0],
                    s1,
                ) {
                    Some(t) => compatible(t, rt),
                    None => false,
                };
                if ok {
                    check_body(stmts.subrange(1, stmts.len() as int), rt, s1)
                } else {
                    None
                }
            },
            None => None,
        }
    }
}

#[via_fn]
proof fn visit_expr_decreases(e: Expression, s: Scopes) {
    match e {
        Expression::Block(stmts) => {
            assert(decreases_to!(e => stmts));
            assert(decreases_to!(stmts => stmts@));
            assert(decreases_to!(e => stmts@));
        },
        Expression::Lambda { body, .. } => {
            assert(decreases_to!(e => body));
            assert(decreases_to!(body => body@));
            assert(decreases_to!(e => body@));
        },
        _ => {},
    }
}

#[via_fn]
proof fn visit_stmts_decreases(stmts: Seq<Statement>, s: Scopes) {
    if stmts.len() != 0 {
        assert(decreases_to!(stmts => stmts[0]));
        assert(decreases_to!(stmts => stmts.subrange(1, stmts.len() as int)));
    }
}

#[via_fn]
proof fn check_body_decreases(stmts: Seq<Statement>, rt: SType, s: Scopes) {
    if stmts.len() != 0 {
        assert(decreases_to!(stmts => stmts[0]));
        assert(decreases_to!(stmts => stmts.subrange(1, stmts.len() as int)));
    }
}

/// Whether two types are compatible.
pub fn types_compatible(a: &Type, b: &Type) -> (r: bool)
    ensures
        r == compatible(a@, b@),
{
    a.equals(b) || matches!(a, Type::Any) || matches!(b, Type::Any)
}

/// The type of a function literal.
fn lambda_type_of(retty: &Type, param_types: &Vec<Type>) -> (r: Type)
    ensures
        r@ == lambda_type(*retty, *param_types),
{
    let mut v: Vec<Type> = Vec::new();
    v.push(retty.clone());
    let mut i: usize = 0;
    while i < param_types.len()
        invariant
            i <= param_types.len(),
            v.len() == i + 1,
            v@[0]@ == retty@,
            forall|j: int| 0 <= j < i ==> v@[j + 1]@ == param_types@[j]@,
        decreases param_types.len() - i,
    {
        v.push(param_types[i].clone());
        i += 1;
    }
    let r = Type::Lambda(v);
    assert(r@->Lambda_0 =~= seq![retty@] + types_view(*param_types));
    r
}

fn error_with(prefix: &str, name: &str) -> (r: ParserError) {
    let mut m = owned(prefix);
    append(&mut m, name);
    ParserError::new(m.as_str())
}

/// Binds `name` to `t` in the current scope.
fn assign_slot(sym: &mut SymTab, env: &mut Env, name: &str, t: Type) -> (r: ParserResult<()>)
    ensures
        match assign((old(sym)@, old(env)@), name@, t@) {
            Some(s2) => r is Ok && final(sym)@ == s2.0 && final(env)@ == s2.1,
            None => r is Err,
        },
{
    let i = sym.add_name(name);
    if i >= env.size() {
        env.grow();
    }
    match env.set_type(i, 0, t) {
        Ok(()) => Ok(()),
        Err(_) => Err(error_with("error setting type of: ", name)),
    }
}

impl Statement {
    /// The static type of a statement.
    pub fn get_type(&self, sym: &SymTab, env: &Env) -> (r: ParserResult<Type>)
        ensures
            r is Ok <==> stmt_type(*self, (sym@, env@)) is Some,
            r is Ok ==> stmt_type(*self, (sym@, env@)) == Some(r->Ok_0@),
        decreases self,
    {
        match self {
            Statement::Expression(e) => e.get_type(sym, env),
            Statement::Return(Some(e)) => e.get_type(sym, env),
            Statement::Return(None) => Ok(Type::Nil),
        }
    }

    /// Checks a statement, registering what it declares; on failure the scopes are left as
    /// they were.
    pub fn visit(&self, sym: &mut SymTab, env: &mut Env) -> (r: ParserResult<()>)
        ensures
            match visit_stmt(*self, (old(sym)@, old(env)@)) {
                Some(s2) => r is Ok && final(sym)@ == s2.0 && final(env)@ == s2.1,
                None => r is Err,
            },
            r is Err ==> final(sym)@ == old(sym)@ && final(env)@ == old(env)@,
    {
        let saved_sym = sym.duplicate();
        let saved_env = env.duplicate();
        let r = self.check(sym, env);
        if r.is_err() {
            *sym = saved_sym;
            *env = saved_env;
        }
        r
    }

    fn check(&self, sym: &mut SymTab, env: &mut Env) -> (r: ParserResult<()>)
        ensures
            match visit_stmt(*self, (old(sym)@, old(env)@)) {
                Some(s2) => r is Ok && final(sym)@ == s2.0 && final(env)@ == s2.1,
                None => r is Err,
            },
        decreases self,
    {
        match self {
            Statement::Expression(e) => e.check(sym, env),
            Statement::Return(Some(e)) => e.check(sym, env),
            Statement::Return(None) => Ok(()),
        }
    }
}

fn block_type_of(stmts: &Vec<Statement>, sym: &SymTab, env: &Env) -> (r: ParserResult<Type>)
    ensures
        r is Ok <==> block_type(stmts@, (sym@, env@)) is Some,
        r is Ok ==> block_type(stmts@, (sym@, env@)) == Some(r->Ok_0@),
    decreases stmts,
{
    let ghost s = (sym@, env@);
    if stmts.len() == 0 {
        return Ok(Type::Nil);
    }
    let mut i: usize = 0;
    assert(stmts@.subrange(0, stmts.len() as int) =~= stmts@);
    while i < stmts.len()
        invariant
            i < stmts.len(),
            s == (sym@, env@),
            block_type(stmts@, s) == block_type(stmts@.subrange(i as int, stmts.len() as int), s),
        decreases stmts.len() - i,
    {
        let ghost sub = stmts@.subrange(i as int, stmts.len() as int);
        assert(sub[0] == stmts@[i as int]);
        proof {
            assert(decreases_to!(*stmts => stmts[i as int]));
        }
        match &stmts[i] {
            Statement::Return(Some(e)) => {
                proof {
                    assert(decreases_to!(stmts[i as int] => stmts[i as int]->Return_0));
                    assert(decreases_to!(*stmts => *e));
                }
                return e.get_type(sym, env);
            },
            st => {
                if i + 1 == stmts.len() {
                    return st.get_type(sym, env);
                }
                assert(sub.subrange(1, sub.len() as int) =~= stmts@.subrange(i + 1, stmts.len() as int));
                i += 1;
            },
        }
    }
    Ok(Type::Nil)
}

fn arg_types_of(args: &Vec<Expression>, sym: &SymTab, env: &Env) -> (r: ParserResult<Vec<Type>>)
    ensures
        r is Ok <==> arg_types(args@, (sym@, env@)) is Some,
        r is Ok ==> arg_types(args@, (sym@, env@)) == Some(types_view(r->Ok_0)),
{
    let ghost s = (sym@, env@);
    let mut ts: Vec<Type> = Vec::new();
    let mut i: usize = 0;
    assert(args@.subrange(0, args.len() as int) =~= args@);
    assert(types_view(ts) =~= Seq::<SType>::empty());
    proof {
        if let Some(rest) = arg_types(args@, s) {
            assert(types_view(ts) + rest =~= rest);
        }
    }
    while i < args.len()
        invariant
            i <= args.len(),
            s == (sym@, env@),
            arg_types(args@, s) == match arg_types(args@.subrange(i as int, args.len() as int), s) {
                Some(rest) => Some(types_view(ts) + rest),
                None => None,
            },
        decreases args.len() - i,
    {
        let ghost sub = args@.subrange(i as int, args.len() as int);
        assert(sub[0] == args@[i as int]);
        assert(sub.subrange(1, sub.len() as int) =~= args@.subrange(i + 1, args.len() as int));
        match args[i].get_type(sym, env) {
            Ok(t) => {
                proof {
                    crate::env::lemma_types_push(ts@, t);
                    match arg_types(args@.subrange(i + 1, args.len() as int), s) {
                        Some(rest) => {
                            assert(types_view(ts) + (seq![t@] + rest) =~= types_view(ts).push(t@) + rest);
                        },
                        None => {},
                    }
                }
                ts.push(t);
            },
            Err(e) => {
                return Err(e);
            },
        }
        i += 1;
    }
    assert(args@.subrange(i as int, args.len() as int) =~= Seq::<Expression>::empty());
    assert(types_view(ts) + Seq::<SType>::empty() =~= types_view(ts));
    Ok(ts)
}

/// Checks that arguments of the given types fit the parameters `ps[1..]` of a function type.
fn check_arguments(ps: &Vec<Type>, ats: &Vec<Type>) -> (r: ParserResult<()>)
    requires
        ps.len() > 0,
    ensures
        r is Ok <==> params_accept(types_view(*ps).subrange(1, ps.len() as int), types_view(*ats)),
        r is Err ==> r->Err_0.message() == call_error(types_view(*ps).subrange(1, ps.len() as int), types_view(*ats)),
{
    let ghost want = types_view(*ps).subrange(1, ps.len() as int);
    assert(want.len() == ps.len() - 1);
    assert(types_view(*ats).len() == ats.len());
    if ps.len() - 1 != ats.len() {
        let mut m = owned("can't invoke lambda: it takes ");
        append(&mut m, decimal_string((ps.len() - 1) as u64).as_str());
        append(&mut m, " arguments, not ");
        append(&mut m, decimal_string(ats.len() as u64).as_str());
        assert(m@ =~= call_error(want, types_view(*ats)));
        return Err(ParserError::new(m.as_str()));
    }
    let mut j: usize = 0;
    while j < ats.len()
        invariant
            j <= ats.len(),
            ats.len() + 1 == ps.len(),
            want == types_view(*ps).subrange(1, ps.len() as int),
            forall|k: int| 0 <= k < j ==> compatible(want[k], types_view(*ats)[k]),
            first_mismatch(want, types_view(*ats), 0) == first_mismatch(want, types_view(*ats), j as int),
        decreases ats.len() - j,
    {
        assert(want[j as int] == ps@[j + 1]@);
        if !types_compatible(&ps[j + 1], &ats[j]) {
            let mut m = owned("can't invoke lambda: argument ");
            append(&mut m, decimal_string((j + 1) as u64).as_str());
            append(&mut m, " has type ");
            append(&mut m, ats[j].name().as_str());
            append(&mut m, " but parameter ");
            append(&mut m, decimal_string((j + 1) as u64).as_str());
            append(&mut m, " has type ");
            append(&mut m, ps[j + 1].name().as_str());
            assert(m@ =~= call_error(want, types_view(*ats)));
            return Err(ParserError::new(m.as_str()));
        }
        j += 1;
    }
    Ok(())
}

/// Checks a program's statements in order, stopping at the first failure.
pub fn check_program(stmts: &Vec<Statement>, sym: &mut SymTab, env: &mut Env) -> (r: ParserResult<()>)
    ensures
        match visit_stmts(stmts@, (old(sym)@, old(env)@)) {
            Some(s2) => r is Ok && final(sym)@ == s2.0 && final(env)@ == s2.1,
            None => r is Err,
        },
        r is Err ==> final(sym)@ == old(sym)@ && final(env)@ == old(env)@,
{
    let saved_sym = sym.duplicate();
    let saved_env = env.duplicate();
    let r = visit_all(stmts, sym, env);
    if r.is_err() {
        *sym = saved_sym;
        *env = saved_env;
    }
    r
}

/// Binds a name to a type in the current scope, as a definition does.
pub fn add_global(sym: &mut SymTab, env: &mut Env, name: &str, t: Type) -> (r: ParserResult<()>)
    ensures
        match assign((old(sym)@, old(env)@), name@, t@) {
            Some(s2) => r is Ok && final(sym)@ == s2.0 && final(env)@ == s2.1,
            None => r is Err,
        },
{
    assign_slot(sym, env, name, t)
}

fn visit_all(stmts: &Vec<Statement>, sym: &mut SymTab, env: &mut Env) -> (r: ParserResult<()>)
    ensures
        match visit_stmts(stmts@, (old(sym)@, old(env)@)) {
            Some(s2) => r is Ok && final(sym)@ == s2.0 && final(env)@ == s2.1,
            None => r is Err,
        },
    decreases stmts,
{
    let ghost s0 = (sym@, env@);
    let mut i: usize = 0;
    assert(stmts@.subrange(0, stmts.len() as int) =~= stmts@);
    while i < stmts.len()
        invariant
            i <= stmts.len(),
            s0 == (old(sym)@, old(env)@),
            visit_stmts(stmts@, s0) == visit_stmts(stmts@.subrange(i as int, stmts.len() as int), (sym@, env@)),
        decreases stmts.len() - i,
    {
        let ghost sub = stmts@.subrange(i as int, stmts.len() as int);
        assert(sub[0] == stmts@[i as int]);
        assert(sub.subrange(1, sub.len() as int) =~= stmts@.subrange(i + 1, stmts.len() as int));
        proof {
            assert(decreases_to!(*stmts => stmts[i as int]));
        }
        let ghost si = (sym@, env@);
        match stmts[i].check(sym, env) {
            Ok(()) => {},
            Err(e) => {
                assert(visit_stmts(sub, si) is None);
                return Err(e);
            },
        }
        i += 1;
    }
    Ok(())
}

fn check_body_of(stmts: &Vec<Statement>, rt: &Type, sym: &mut SymTab, env: &mut Env) -> (r: ParserResult<()>)
    ensures
        match check_body(stmts@, rt@, (old(sym)@, old(env)@)) {
            Some(s2) => r is Ok && final(sym)@ == s2.0 && final(env)@ == s2.1,
            None => r is Err,
        },
    decreases stmts,
{
    let ghost s0 = (sym@, env@);
    let mut i: usize = 0;
    assert(stmts@.subrange(0, stmts.len() as int) =~= stmts@);
    while i < stmts.len()
        invariant
            i <= stmts.len(),
            s0 == (old(sym)@, old(env)@),
            check_body(stmts@, rt@, s0) == check_body(stmts@.subrange(i as int, stmts.len() as int), rt@, (sym@, env@)),
        decreases stmts.len() - i,
    {
        let ghost sub = stmts@.subrange(i as int, stmts.len() as int);
        assert(sub[0] == stmts@[i as int]);
        assert(sub.subrange(1, sub.len() as int) =~= stmts@.subrange(i + 1, stmts.len() as int));
        proof {
            assert(decreases_to!(*stmts => stmts[i as int]));
        }
        let ghost si = (sym@, env@);
        match stmts[i].check(sym, env) {
            Ok(()) => {},
            Err(e) => {
                assert(check_body(sub, rt@, si) is None);
                return Err(e);
            },
        }
        let last = i + 1 == stmts.len();
        let is_return = matches!(stmts[i], Statement::Return(_));
        if !matches!(rt, Type::Any) && (last || is_return) {
            match stmts[i].get_type(sym, env) {
                Ok(t) => {
                    if !types_compatible(&t, rt) {
                        assert(check_body(sub, rt@, si) is None);
                        return Err(ParserError::new("lambda must return return-type"));
                    }
                },
                Err(e) => {
                    assert(check_body(sub, rt@, si) is None);
                    return Err(e);
                },
            }
        }
        i += 1;
    }
    Ok(())
}

impl Expression {
    /// The static type of an expression, in the given scopes.
    pub fn get_type(&self, sym: &SymTab, env: &Env) -> (r: ParserResult<Type>)
        ensures
            r is Ok <==> expr_type(*self, (sym@, env@)) is Some,
            r is Ok ==> expr_type(*self, (sym@, env@)) == Some(r->Ok_0@),
        decreases self,
    {
        match self {
            Expression::Block(stmts) => block_type_of(stmts, sym, env),
            Expression::NumberLiteral(_) => Ok(Type::Num),
            Expression::StringLiteral(_) => Ok(Type::Str),
            Expression::BoolLiteral(_) => Ok(Type::Bool),
            Expression::Identifier(n) => match sym.get_name(n.as_str()) {
                Some((i, h)) => match env.get_type(i, h) {
                    Ok(t) => Ok(t),
                    Err(_) => Err(error_with("can't get type of: ", n.as_str())),
                },
                None => Err(error_with("can't get type of undeclared: ", n.as_str())),
            },
            Expression::Definition(t, _, v) => match t {
                Some(tt) => Ok(tt.clone()),
                None => v.get_type(sym, env),
            },
            Expression::Lambda { retty, param_types, .. } => Ok(lambda_type_of(retty, param_types)),
            Expression::Call(c, _) => match c.get_type(sym, env) {
                Ok(Type::Lambda(ps)) => {
                    if ps.len() > 0 {
                        Ok(ps[0].clone())
                    } else {
                        Err(ParserError::new("can't call lambda without a return type"))
                    }
                },
                Ok(_) => Err(ParserError::new("can't call non-lambda")),
                Err(e) => Err(e),
            },
            Expression::Operation { left, op, right } => {
                let l = match left.get_type(sym, env) {
                    Ok(l) => l,
                    Err(e) => {
                        return Err(e);
                    },
                };
                let r = match right.get_type(sym, env) {
                    Ok(r) => r,
                    Err(e) => {
                        return Err(e);
                    },
                };
                op.operate((l, r))
            },
            Expression::EOF => Ok(Type::Undefined),
        }
    }

    /// Checks an expression, registering the names and types that it declares; on failure
    /// the scopes are left as they were.
    pub fn visit(&self, sym: &mut SymTab, env: &mut Env) -> (r: ParserResult<()>)
        ensures
            match visit_expr(*self, (old(sym)@, old(env)@)) {
                Some(s2) => r is Ok && final(sym)@ == s2.0 && final(env)@ == s2.1,
                None => r is Err,
            },
            r is Err ==> final(sym)@ == old(sym)@ && final(env)@ == old(env)@,
            call_fails_with(*self, (old(sym)@, old(env)@), r),
    {
        let saved_sym = sym.duplicate();
        let saved_env = env.duplicate();
        let r = self.check(sym, env);
        if r.is_err() {
            *sym = saved_sym;
            *env = saved_env;
        }
        r
    }

    fn check(&self, sym: &mut SymTab, env: &mut Env) -> (r: ParserResult<()>)
        ensures
            match visit_expr(*self, (old(sym)@, old(env)@)) {
                Some(s2) => r is Ok && final(sym)@ == s2.0 && final(env)@ == s2.1,
                None => r is Err,
            },
            call_fails_with(*self, (old(sym)@, old(env)@), r),
        decreases self,
    {
        match self {
            Expression::Block(stmts) => visit_all(stmts, sym, env),
            Expression::Identifier(n) => match sym.get_name(n.as_str()) {
                Some(_) => Ok(()),
                None => Err(error_with("use of undeclared: ", n.as_str())),
            },
            Expression::Definition(t, name, v) => {
                match v.check(sym, env) {
                    Ok(()) => {},
                    Err(e) => {
                        return Err(e);
                    },
                }
                let declared = match t {
                    Some(tt) => tt.clone(),
                    None => Type::Any,
                };
                match t {
                    Some(tt) => match v.get_type(sym, env) {
                        Ok(et) => {
                            if !types_compatible(tt, &et) {
                                return Err(error_with("right-hand doesn't match type of: ", name.as_str()));
                            }
                        },
                        Err(_) => {
                            return Err(error_with("right-hand has no type, defining: ", name.as_str()));
                        },
                    },
                    None => {},
                }
                match sym.lookup_current(name.as_str()) {
                    Some(i) => match env.get_type(i, 0) {
                        Ok(prior) => {
                            if !types_compatible(&prior, &declared) {
                                return Err(error_with("can't change type of: ", name.as_str()));
                            }
                        },
                        Err(_) => {
                            return Err(error_with("can't get type of: ", name.as_str()));
                        },
                    },
                    None => {},
                }
                assign_slot(sym, env, name.as_str(), declared)
            },
            Expression::Lambda { name, retty, param_names, param_types, body } => {
                match name {
                    Some(n) => {
                        if sym.lookup_current(n.as_str()).is_some() {
                            return Err(error_with("can't redefine lambda: ", n.as_str()));
                        }
                        let lt = lambda_type_of(retty, param_types);
                        match assign_slot(sym, env, n.as_str(), lt) {
                            Ok(()) => {},
                            Err(e) => {
                                return Err(e);
                            },
                        }
                    },
                    None => {},
                }
                let ghost s1 = (sym@, env@);
                sym.open_scope(param_names);
                env.open_scope(param_types.as_slice(), 0);
                let ghost inner = (sym@, env@);
                assert(inner.1 == s1.1.push(types_view(*param_types)));
                proof {
                    assert(decreases_to!(*self => *body));
                    lemma_check_body_frames(body@, retty@, inner);
                }
                let r = check_body_of(body, retty, sym, env);
                sym.close_scope();
                env.close_scope();
                r
            },
            Expression::Call(c, args) => match c.get_type(sym, env) {
                Ok(Type::Lambda(ps)) => {
                    if ps.len() == 0 {
                        return Err(ParserError::new("can't call lambda without a return type"));
                    }
                    proof {
                        assert((Type::Lambda(ps))@->Lambda_0 =~= types_view(ps));
                    }
                    let ats = match arg_types_of(args, sym, env) {
                        Ok(ats) => ats,
                        Err(e) => {
                            return Err(e);
                        },
                    };
                    check_arguments(&ps, &ats)
                },
                Ok(_) => Err(ParserError::new("can't call non-lambda")),
                Err(e) => Err(e),
            },
            Expression::Operation { left, op, right } => {
                match left.check(sym, env) {
                    Ok(()) => {},
                    Err(e) => {
                        return Err(e);
                    },
                }
                match right.check(sym, env) {
                    Ok(()) => {},
                    Err(e) => {
                        return Err(e);
                    },
                }
                match self.get_type(sym, env) {
                    Ok(_) => Ok(()),
                    Err(e) => Err(e),
                }
            },
            _ => Ok(()),
        }
    }
}

/// Checking never changes how many scopes there are, nor any scope but the current one.
pub open spec fn keeps_enclosing(s: Scopes, s2: Scopes) -> bool {
    &&& s2.0.len() == s.0.len()
    &&& s2.1.len() == s.1.len()
    &&& s2.0.drop_last() == s.0.drop_last()
    &&& s2.1.drop_last() == s.1.drop_last()
}

proof fn lemma_assign_frames(s: Scopes, n: Seq<char>, t: SType)
    requires
        s.0.len() >= 1 && s.1.len() >= 1,
    ensures
        assign(s, n, t) matches Some(s2) ==> keeps_enclosing(s, s2),
{
    if let Some(s2) = assign(s, n, t) {
        let i: nat = match index_of(s.0.last(), n) {
            Some(i) => i,
            None => s.0.last().len(),
        };
        let grown = if i >= s.1.last().len() {
            s.1.drop_last().push(s.1.last().push(SType::Undefined))
        } else {
            s.1
        };
        assert(grown.drop_last() =~= s.1.drop_last());
        assert(s2.1.drop_last() =~= grown.drop_last());
        assert(s2.0.drop_last() =~= s.0.drop_last());
    }
}

proof fn lemma_expr_frames(e: Expression, s: Scopes)
    requires
        s.0.len() >= 1 && s.1.len() >= 1,
    ensures
        visit_expr(e, s) matches Some(s2) ==> keeps_enclosing(s, s2),
    decreases e,
{
    match e {
        Expression::Block(stmts) => {
            assert(decreases_to!(e => stmts));
            assert(decreases_to!(stmts => stmts@));
            lemma_stmts_frames(stmts@, s);
        },
        Expression::Definition(t, name, v) => {
            lemma_expr_frames(*v, s);
            if let Some(s1) = visit_expr(*v, s) {
                lemma_assign_frames(s1, name@, match t { Some(tt) => tt@, None => SType::Any });
            }
        },
        Expression::Lambda { name, retty, param_names, param_types, body } => {
            let s1 = match name {
                Some(n) => if index_of(s.0.last(), n@) is Some {
                    None
                } else {
                    assign(s, n@, lambda_type(retty, param_types))
                },
                None => Some(s),
            };
            if let Some(n) = name {
                lemma_assign_frames(s, n@, lambda_type(retty, param_types));
            }
            if let Some(s1) = s1 {
                let inner = (s1.0.push(names_view(param_names)), s1.1.push(types_view(param_types)));
                assert(decreases_to!(e => body));
                assert(decreases_to!(body => body@));
                lemma_check_body_frames(body@, retty@, inner);
                if let Some(s2) = check_body(body@, retty@, inner) {
                    assert(s2.0.drop_last() == inner.0.drop_last());
                    assert(inner.0.drop_last() =~= s1.0);
                    assert(inner.1.drop_last() =~= s1.1);
                }
            }
        },
        Expression::Operation { left, op, right } => {
            lemma_expr_frames(*left, s);
            if let Some(s1) = visit_expr(*left, s) {
                lemma_expr_frames(*right, s1);
            }
        },
        _ => {},
    }
}

proof fn lemma_stmt_frames(st: Statement, s: Scopes)
    requires
        s.0.len() >= 1 && s.1.len() >= 1,
    ensures
        visit_stmt(st, s) matches Some(s2) ==> keeps_enclosing(s, s2),
    decreases st,
{
    match st {
        Statement::Expression(e) => lemma_expr_frames(e, s),
        Statement::Return(Some(e)) => lemma_expr_frames(e, s),
        Statement::Return(None) => {},
    }
}

proof fn lemma_stmts_frames(stmts: Seq<Statement>, s: Scopes)
    requires
        s.0.len() >= 1 && s.1.len() >= 1,
    ensures
        visit_stmts(stmts, s) matches Some(s2) ==> keeps_enclosing(s, s2),
    decreases stmts,
{
    if stmts.len() > 0 {
        assert(decreases_to!(stmts => stmts[0]));
        lemma_stmt_frames(stmts[0], s);
        if let Some(s1) = visit_stmt(stmts[0], s) {
            lemma_stmts_frames(stmts.subrange(1, stmts.len() as int), s1);
        }
    }
}

proof fn lemma_check_body_frames(stmts: Seq<Statement>, rt: SType, s: Scopes)
    requires
        s.0.len() >= 1 && s.1.len() >= 1,
    ensures
        check_body(stmts, rt, s) matches Some(s2) ==> keeps_enclosing(s, s2),
    decreases stmts,
{
    if stmts.len() > 0 {
        assert(decreases_to!(stmts => stmts[0]));
        lemma_stmt_frames(stmts[0], s);
        if let Some(s1) = visit_stmt(stmts[0], s) {
            lemma_check_body_frames(stmts.subrange(1, stmts.len() as int), rt, s1);
        }
    }
}

/// Checking a function literal leaves the enclosing scopes as they were, but for the binding
/// of the function's own name: whatever its body declares stays in the body's scope.
pub proof fn lemma_lambda_leaves_scopes(e: Expression, s: Scopes)
    requires
        e is Lambda,
        s.0.len() >= 1 && s.1.len() >= 1,
    ensures
        visit_expr(e, s) matches Some(s2) ==> match e->Lambda_name {
            Some(n) => assign(s, n@, lambda_type(e->Lambda_retty, e->Lambda_param_types)) == Some(s2),
            None => s2 == s,
        },
{
    if let Expression::Lambda { name, retty, param_names, param_types, body } = e {
        let s1 = match name {
            Some(n) => if index_of(s.0.last(), n@) is Some {
                None
            } else {
                assign(s, n@, lambda_type(retty, param_types))
            },
            None => Some(s),
        };
        if let Some(s1) = s1 {
            let inner = (s1.0.push(names_view(param_names)), s1.1.push(types_view(param_types)));
            if let Some(n) = name {
                lemma_assign_frames(s, n@, lambda_type(retty, param_types));
            }
            lemma_check_body_frames(body@, retty@, inner);
            if let Some(s2) = check_body(body@, retty@, inner) {
                assert(inner.0.drop_last() =~= s1.0);
                assert(inner.1.drop_last() =~= s1.1);
            }
        }
    }
}

/// A binding made in the current scope is found there first (zero scopes out), with the
/// type it was given, whatever enclosing scopes declare the same name.
pub proof fn lemma_assign_shadows(s: Scopes, n: Seq<char>, t: SType)
    requires
        s.0.len() >= 1 && s.1.len() >= 1,
    ensures
        assign(s, n, t) matches Some(s2) ==> (resolve(s2.0, n) matches Some((i, h)) && h == 0
            && lookup_type(s2, n) == Some(t)),
{
    if let Some(s2) = assign(s, n, t) {
        let names = s2.0;
        match index_of(s.0.last(), n) {
            Some(i) => {
                assert(names.last() == s.0.last());
            },
            None => {
                let cur = s.0.last().push(n);
                assert(names.last() == cur);
                assert(cur.drop_last() =~= s.0.last());
                assert(index_of(cur, n) == Some((cur.len() - 1) as nat));
            },
        }
    }
}

} // verus!
