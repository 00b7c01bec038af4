use vstd::prelude::*;
use crate::ast::{lua_operator, Expression, Statement};
use crate::text::{append, chars_of, owned, push_char};
use crate::symtab::names_view;

verus! {

/// The escape sequence that stands for a character inside a quoted string.
pub open spec fn escape_char(c: char) -> Seq<char> {
    if c == '"' {
        seq!['\\', '"']
    } else if c == '\\' {
        seq!['\\', '\\']
    } else if c == '\n' {
        seq!['\\', 'n']
    } else if c == '\r' {
        seq!['\\', 'r']
    } else if c == '\t' {
        seq!['\\', 't']
    } else {
        seq![c]
    }
}

/// A string's characters with quotes, backslashes and line breaks escaped.
pub open spec fn escape(s: Seq<char>) -> Seq<char>
    decreases s.len(),
{
    if s.len() == 0 {
        Seq::empty()
    } else {
        escape(s.drop_last()) + escape_char(s.last())
    }
}

/// Names separated by commas.
pub open spec fn join_names(names: Seq<Seq<char>>) -> Seq<char>
    decreases names.len(),
{
    if names.len() == 0 {
        Seq::empty()
    } else if names.len() == 1 {
        names[0]
    } else {
        join_names(names.drop_last()) + ", "@ + names.last()
    }
}

/// The target-language text of an expression.
pub open spec fn lua_expr(e: Expression) -> Seq<char>
    decreases e,
    via lua_expr_decreases
{
    match e {
        Expression::Block(stmts) => lua_stmts(stmts@),
        Expression::NumberLiteral(n) => n@,
        Expression::StringLiteral(s) => "\""@ + escape(s@) + "\""@,
        Expression::BoolLiteral(b) => if b {
            "true"@
        } else {
            "false"@
        },
        Expression::Identifier(n) => n@,
        Expression::Definition(_, name, v) => "local "@ + name@ + " = "@ + lua_expr(*v) + ";\n"@,
        Expression::Call(c, args) => lua_expr(*c) + "("@ + lua_args(args@) + ")"@,
        Expression::Lambda { name, param_names, body, .. } => "function"@ + match name {
            Some(n) => " "@ + n@,
            None => Seq::empty(),
        } + "("@ + join_names(param_names@.map_values(|s: String| s@)) + ")\n"@ + lua_body(body@)
            + "end\n"@,
        Expression::Operation { left, op, right } => "(("@ + lua_expr(*left) + ") "@ + lua_operator(op)
            + " ("@ + lua_expr(*right) + "))"@,
        Expression::EOF => Seq::empty(),
    }
}

/// Arguments, rendered and separated by commas.
pub open spec fn lua_args(args: Seq<Expression>) -> Seq<char>
    decreases args,
    via lua_args_decreases
{
    if args.len() == 0 {
        Seq::empty()
    } else if args.len() == 1 {
        lua_expr(args[0])
    } else {
        lua_args(args.drop_last()) + ", "@ + lua_expr(args.last())
    }
}

/// Whether an expression renders as a statement of its own.
pub open spec fn is_statement_form(e: Expression) -> bool {
    e is Definition || e is Lambda || e is Block
}

/// The target-language text of a statement.
pub open spec fn lua_stmt(st: Statement) -> Seq<char>
    decreases st,
{
    match st {
        Statement::Expression(e) => if is_statement_form(e) {
            lua_expr(e)
        } else {
            lua_expr(e) + ";\n"@
        },
        Statement::Return(Some(e)) => "return ("@ + lua_expr(e) + ");\n"@,
        Statement::Return(None) => "return;\n"@,
    }
}

/// Statements rendered one after the other.
pub open spec fn lua_stmts(stmts: Seq<Statement>) -> Seq<char>
    decreases stmts,
    via lua_stmts_decreases
{
    if stmts.len() == 0 {
        Seq::empty()
    } else {
        lua_stmts(stmts.drop_last()) + lua_stmt(stmts.last())
    }
}

/// The last statement of a function body, which gives the function's value.
pub open spec fn lua_last(st: Statement) -> Seq<char>
    decreases st,
{
    match st {
        Statement::Expression(e) => match e {
            Expression::Definition(_, name, _) => lua_expr(e) + "return "@ + name@ + ";\n"@,
            _ => "return ("@ + lua_expr(e) + ");\n"@,
        },
        Statement::Return(Some(e)) => "return ("@ + lua_expr(e) + ");\n"@,
        Statement::Return(None) => "return;\n"@,
    }
}

/// A function body: its statements, the last one returned.
pub open spec fn lua_body(stmts: Seq<Statement>) -> Seq<char>
    decreases stmts,
    via lua_body_decreases
{
    if stmts.len() == 0 {
        Seq::empty()
    } else {
        lua_stmts(stmts.drop_last()) + lua_last(stmts.last())
    }
}

#[via_fn]
proof fn lua_expr_decreases(e: Expression) {
    match e {
        Expression::Block(stmts) => {
            assert(decreases_to!(e => stmts));
            assert(decreases_to!(stmts => stmts@));
            assert(decreases_to!(e => stmts@));
        },
        Expression::Call(c, args) => {
            assert(decreases_to!(e => args));
            assert(decreases_to!(args => args@));
            assert(decreases_to!(e => args@));
        },
        Expression::Lambda { body, .. } => {
            assert(decreases_to!(e => body));
            assert(decreases_to!(body => body@));
            assert(decreases_to!(e => body@));
        },
        _ => {},
    }
}

#[via_fn]
proof fn lua_args_decreases(args: Seq<Expression>) {
    if args.len() > 0 {
        assert(decreases_to!(args => args[0]));
        assert(decreases_to!(args => args[args.len() - 1]));
        assert(decreases_to!(args => args.subrange(0, args.len() - 1)));
    }
}

#[via_fn]
proof fn lua_stmts_decreases(stmts: Seq<Statement>) {
    if stmts.len() > 0 {
        assert(decreases_to!(stmts => stmts[stmts.len() - 1]));
        assert(decreases_to!(stmts => stmts.subrange(0, stmts.len() - 1)));
    }
}

#[via_fn]
proof fn lua_body_decreases(stmts: Seq<Statement>) {
    if stmts.len() > 0 {
        assert(decreases_to!(stmts => stmts[stmts.len() - 1]));
        assert(decreases_to!(stmts => stmts.subrange(0, stmts.len() - 1)));
    }
}

fn push_escaped(out: &mut String, s: &str)
    ensures
        final(out)@ == old(out)@ + escape(s@),
{
    let cs = chars_of(s);
    let mut i: usize = 0;
    while i < cs.len()
        invariant
            i <= cs.len(),
            cs@ == s@,
            out@ == old(out)@ + escape(cs@.subrange(0, i as int)),
        decreases cs.len() - i,
    {
        let c = cs[i];
        let ghost before = out@;
        if c == '"' {
            push_char(out, '\\');
            push_char(out, '"');
        } else if c == '\\' {
            push_char(out, '\\');
            push_char(out, '\\');
        } else if c == '\n' {
            push_char(out, '\\');
            push_char(out, 'n');
        } else if c == '\r' {
            push_char(out, '\\');
            push_char(out, 'r');
        } else if c == '\t' {
            push_char(out, '\\');
            push_char(out, 't');
        } else {
            push_char(out, c);
        }
        proof {
            let sub = cs@.subrange(0, i + 1);
            assert(sub.drop_last() =~= cs@.subrange(0, i as int));
            assert(sub.last() == c);
            assert(out@ =~= before + escape_char(c));
            assert(old(out)@ + escape(sub) =~= old(out)@ + escape(cs@.subrange(0, i as int)) + escape_char(c));
        }
        i += 1;
    }
    assert(cs@.subrange(0, cs.len() as int) =~= cs@);
}

fn join_names_of(names: &Vec<String>) -> (r: String)
    ensures
        r@ == join_names(names_view(*names)),
{
    let ghost all = names_view(*names);
    let mut r = String::new();
    let mut i: usize = 0;
    while i < names.len()
        invariant
            i <= names.len(),
            all == names_view(*names),
            r@ == join_names(all.subrange(0, i as int)),
        decreases names.len() - i,
    {
        proof {
            let sub = all.subrange(0, i + 1);
            assert(sub.drop_last() =~= all.subrange(0, i as int));
            assert(sub.last() == names@[i as int]@);
            if i == 0 {
                assert(all.subrange(0, 0) =~= Seq::<Seq<char>>::empty());
            }
        }
        if i > 0 {
            append(&mut r, ", ");
        }
        append(&mut r, names[i].as_str());
        i += 1;
    }
    assert(all.subrange(0, names.len() as int) =~= all);
    r
}

fn args_text(args: &Vec<Expression>) -> (r: String)
    ensures
        r@ == lua_args(args@),
    decreases args,
{
    let mut r = String::new();
    let mut i: usize = 0;
    while i < args.len()
        invariant
            i <= args.len(),
            r@ == lua_args(args@.subrange(0, i as int)),
        decreases args.len() - i,
    {
        proof {
            let sub = args@.subrange(0, i + 1);
            assert(sub.drop_last() =~= args@.subrange(0, i as int));
            assert(sub.last() == args@[i as int]);
            if i == 0 {
                assert(sub[0] == args@[0]);
            }
            assert(decreases_to!(*args => args[i as int]));
        }
        if i > 0 {
            append(&mut r, ", ");
        }
        let t = args[i].translate_lua();
        append(&mut r, t.as_str());
        i += 1;
    }
    assert(args@.subrange(0, args.len() as int) =~= args@);
    r
}

fn stmts_text(stmts: &Vec<Statement>, n: usize) -> (r: String)
    requires
        n <= stmts.len(),
    ensures
        r@ == lua_stmts(stmts@.subrange(0, n as int)),
    decreases stmts,
{
    let mut r = String::new();
    let mut i: usize = 0;
    while i < n
        invariant
            i <= n <= stmts.len(),
            r@ == lua_stmts(stmts@.subrange(0, i as int)),
        decreases n - i,
    {
        proof {
            let sub = stmts@.subrange(0, i + 1);
            assert(sub.drop_last() =~= stmts@.subrange(0, i as int));
            assert(sub.last() == stmts@[i as int]);
            assert(decreases_to!(*stmts => stmts[i as int]));
        }
        let t = stmts[i].translate_lua();
        append(&mut r, t.as_str());
        i += 1;
    }
    r
}

fn last_text(st: &Statement) -> (r: String)
    ensures
        r@ == lua_last(*st),
    decreases st,
{
    match st {
        Statement::Expression(e) => match e {
            Expression::Definition(_, name, _) => {
                let mut r = e.translate_lua();
                append(&mut r, "return ");
                append(&mut r, name.as_str());
                append(&mut r, ";\n");
                r
            },
            _ => {
                let mut r = owned("return (");
                append(&mut r, e.translate_lua().as_str());
                append(&mut r, ");\n");
                r
            },
        },
        Statement::Return(Some(e)) => {
            let mut r = owned("return (");
            append(&mut r, e.translate_lua().as_str());
            append(&mut r, ");\n");
            r
        },
        Statement::Return(None) => owned("return;\n"),
    }
}

fn body_text(stmts: &Vec<Statement>) -> (r: String)
    ensures
        r@ == lua_body(stmts@),
    decreases stmts,
{
    if stmts.len() == 0 {
        return String::new();
    }
    let n = stmts.len() - 1;
    let mut r = String::new();
    let mut i: usize = 0;
    while i < n
        invariant
            i <= n < stmts.len(),
            r@ == lua_stmts(stmts@.subrange(0, i as int)),
        decreases n - i,
    {
        proof {
            let sub = stmts@.subrange(0, i + 1);
            assert(sub.drop_last() =~= stmts@.subrange(0, i as int));
            assert(sub.last() == stmts@[i as int]);
            assert(decreases_to!(*stmts => stmts[i as int]));
        }
        let t = stmts[i].translate_lua();
        append(&mut r, t.as_str());
        i += 1;
    }
    proof {
        assert(stmts@.drop_last() =~= stmts@.subrange(0, n as int));
        assert(decreases_to!(*stmts => stmts[n as int]));
    }
    let t = last_text(&stmts[n]);
    append(&mut r, t.as_str());
    r
}

impl Expression {
    /// The expression's text in the target language.
    pub fn translate_lua(&self) -> (r: String)
        ensures
            r@ == lua_expr(*self),
        decreases self,
    {
        match self {
            Expression::Block(stmts) => {
                let r = stmts_text(stmts, stmts.len());
                assert(stmts@.subrange(0, stmts.len() as int) =~= stmts@);
                r
            },
            Expression::NumberLiteral(n) => n.clone(),
            Expression::StringLiteral(s) => {
                let mut r = owned("\"");
                push_escaped(&mut r, s.as_str());
                append(&mut r, "\"");
                r
            },
            Expression::BoolLiteral(b) => if *b {
                owned("true")
            } else {
                owned("false")
            },
            Expression::Identifier(n) => n.clone(),
            Expression::Definition(_, name, v) => {
                let mut r = owned("local ");
                append(&mut r, name.as_str());
                append(&mut r, " = ");
                append(&mut r, v.translate_lua().as_str());
                append(&mut r, ";\n");
                r
            },
            Expression::Call(c, args) => {
                let mut r = c.translate_lua();
                append(&mut r, "(");
                append(&mut r, args_text(args).as_str());
                append(&mut r, ")");
                r
            },
            Expression::Lambda { name, param_names, body, .. } => {
                let mut r = owned("function");
                match name {
                    Some(n) => {
                        append(&mut r, " ");
                        append(&mut r, n.as_str());
                    },
                    None => {},
                }
                append(&mut r, "(");
                append(&mut r, join_names_of(param_names).as_str());
                append(&mut r, ")\n");
                append(&mut r, body_text(body).as_str());
                append(&mut r, "end\n");
                r
            },
            Expression::Operation { left, op, right } => {
                let mut r = owned("((");
                append(&mut r, left.translate_lua().as_str());
                append(&mut r, ") ");
                append(&mut r, op.translate_lua().as_str());
                append(&mut r, " (");
                append(&mut r, right.translate_lua().as_str());
                append(&mut r, "))");
                r
            },
            Expression::EOF => String::new(),
        }
    }
}

impl Statement {
    /// The statement's text in the target language.
    pub fn translate_lua(&self) -> (r: String)
        ensures
            r@ == lua_stmt(*self),
        decreases self,
    {
        match self {
            Statement::Expression(e) => {
                let mut r = e.translate_lua();
                if !(matches!(e, Expression::Definition(..)) || matches!(e, Expression::Lambda { .. })
                    || matches!(e, Expression::Block(_))) {
                    append(&mut r, ";\n");
                }
                r
            },
            Statement::Return(Some(e)) => {
                let mut r = owned("return (");
                append(&mut r, e.translate_lua().as_str());
                append(&mut r, ");\n");
                r
            },
            Statement::Return(None) => owned("return;\n"),
        }
    }
}

/// The target-language text of a program: its statements one after the other.
pub fn render(stmts: &Vec<Statement>) -> (r: String)
    ensures
        r@ == lua_stmts(stmts@),
{
    let r = stmts_text(stmts, stmts.len());
    assert(stmts@.subrange(0, stmts.len() as int) =~= stmts@);
    r
}

} // verus!
