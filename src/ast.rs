use vstd::prelude::*;
use crate::error::{ParserError, ParserResult};
use crate::text::{append, owned, text_eq};

verus! {

/// Mathematical model of a static type.
pub enum SType {
    Str,
    Num,
    Bool,
    Any,
    Nil,
    Undefined,
    Lambda(Seq<SType>),
}

/// Static types of the language.
#[derive(Debug)]
pub enum Type {
    Str,
    Num,
    Bool,
    Any,
    Nil,
    Undefined,
    /// A function type: `[return type, parameter types...]`.
    Lambda(Vec<Type>),
}

impl View for Type {
    type V = SType;

    open spec fn view(&self) -> SType
        decreases self,
    {
        match self {
            Type::Str => SType::Str,
            Type::Num => SType::Num,
            Type::Bool => SType::Bool,
            Type::Any => SType::Any,
            Type::Nil => SType::Nil,
            Type::Undefined => SType::Undefined,
            Type::Lambda(v) => SType::Lambda(
                Seq::new(
                    v.len() as nat,
                    |i: int|
                        if 0 <= i < v.len() {
                            v[i].view()
                        } else {
                            SType::Undefined
                        },
                ),
            ),
        }
    }
}

impl Type {
    /// Structural equality of two types.
    pub fn equals(&self, other: &Type) -> (r: bool)
        ensures
            r == (self@ == other@),
        decreases self,
    {
        match *self {
            Type::Lambda(ref a) => match *other {
                Type::Lambda(ref b) => {
                    if a.len() != b.len() {
                        assert(self@->Lambda_0.len() != other@->Lambda_0.len());
                        return false;
                    }
                    let mut i: usize = 0;
                    while i < a.len()
                        invariant
                            i <= a.len() == b.len(),
                            *self == (Type::Lambda(*a)),
                            self@->Lambda_0.len() == a.len() && other@->Lambda_0.len() == b.len(),
                            forall|j: int| 0 <= j < a.len() ==> self@->Lambda_0[j] == a@[j]@,
                            forall|j: int| 0 <= j < b.len() ==> other@->Lambda_0[j] == b@[j]@,
                            forall|j: int| 0 <= j < i ==> a@[j]@ == b@[j]@,
                        decreases a.len() - i,
                    {
                        proof {
                            assert(decreases_to!(*self => self->Lambda_0));
                            assert(decreases_to!(self->Lambda_0 => self->Lambda_0[i as int]));
                            assert(decreases_to!(*self => self->Lambda_0[i as int]));
                        }
                        if !a[i].equals(&b[i]) {
                            assert(self@->Lambda_0[i as int] != other@->Lambda_0[i as int]);
                            return false;
                        }
                        i += 1;
                    }
                    assert(self@->Lambda_0 =~= other@->Lambda_0);
                    true
                },
                _ => false,
            },
            Type::Str => matches!(other, Type::Str),
            Type::Num => matches!(other, Type::Num),
            Type::Bool => matches!(other, Type::Bool),
            Type::Any => matches!(other, Type::Any),
            Type::Nil => matches!(other, Type::Nil),
            Type::Undefined => matches!(other, Type::Undefined),
        }
    }
}

impl Clone for Type {
    fn clone(&self) -> (r: Self)
        ensures
            r@ == self@,
        decreases self,
    {
        match self {
            Type::Str => Type::Str,
            Type::Num => Type::Num,
            Type::Bool => Type::Bool,
            Type::Any => Type::Any,
            Type::Nil => Type::Nil,
            Type::Undefined => Type::Undefined,
            Type::Lambda(a) => {
                let mut v: Vec<Type> = Vec::new();
                let mut i: usize = 0;
                while i < a.len()
                    invariant
                        *self == (Type::Lambda(*a)),
                        i <= a.len(),
                        v.len() == i,
                        forall|j: int| 0 <= j < i ==> v@[j]@ == a@[j]@,
                    decreases a.len() - i,
                {
                    proof {
                        assert(decreases_to!(*self => self->Lambda_0));
                        assert(decreases_to!(self->Lambda_0 => self->Lambda_0[i as int]));
                        assert(decreases_to!(*self => self->Lambda_0[i as int]));
                    }
                    v.push(a[i].clone());
                    i += 1;
                }
                let r = Type::Lambda(v);
                assert(r@->Lambda_0 =~= self@->Lambda_0);
                r
            },
        }
    }
}

/// The name of a type, as diagnostics spell it.
pub open spec fn spelled_type(t: SType) -> Seq<char>
    decreases t,
    via spelled_type_decreases
{
    match t {
        SType::Str => "Str"@,
        SType::Num => "Num"@,
        SType::Bool => "Bool"@,
        SType::Any => "Any"@,
        SType::Nil => "Nil"@,
        SType::Undefined => "Undefined"@,
        SType::Lambda(ts) => "Lambda(["@ + spelled_types(ts) + "])"@,
    }
}

/// Names of types, separated by commas.
pub open spec fn spelled_types(ts: Seq<SType>) -> Seq<char>
    decreases ts,
    via spelled_types_decreases
{
    if ts.len() == 0 {
        Seq::empty()
    } else if ts.len() == 1 {
        spelled_type(ts[0])
    } else {
        spelled_types(ts.drop_last()) + ", "@ + spelled_type(ts.last())
    }
}

#[via_fn]
proof fn spelled_type_decreases(t: SType) {
    if let SType::Lambda(ts) = t {
        assert(decreases_to!(t => ts));
    }
}

#[via_fn]
proof fn spelled_types_decreases(ts: Seq<SType>) {
    if ts.len() > 0 {
        assert(decreases_to!(ts => ts[0]));
        assert(decreases_to!(ts => ts[ts.len() - 1]));
        assert(decreases_to!(ts => ts.subrange(0, ts.len() - 1)));
    }
}

impl Type {
    /// The type's name, for diagnostics.
    pub fn name(&self) -> (r: String)
        ensures
            r@ == spelled_type(self@),
        decreases self,
    {
        match self {
            Type::Str => owned("Str"),
            Type::Num => owned("Num"),
            Type::Bool => owned("Bool"),
            Type::Any => owned("Any"),
            Type::Nil => owned("Nil"),
            Type::Undefined => owned("Undefined"),
            Type::Lambda(a) => {
                let ghost ts = self@->Lambda_0;
                let mut r = owned("Lambda([");
                let mut i: usize = 0;
                while i < a.len()
                    invariant
                        *self == (Type::Lambda(*a)),
                        ts == self@->Lambda_0,
                        ts.len() == a.len(),
                        forall|j: int| 0 <= j < a.len() ==> ts[j] == a@[j]@,
                        i <= a.len(),
                        r@ == "Lambda(["@ + spelled_types(ts.subrange(0, i as int)),
                    decreases a.len() - i,
                {
                    proof {
                        assert(decreases_to!(*self => self->Lambda_0));
                        assert(decreases_to!(self->Lambda_0 => self->Lambda_0[i as int]));
                        assert(decreases_to!(*self => self->Lambda_0[i as int]));
                        let sub = ts.subrange(0, i + 1);
                        assert(sub.drop_last() =~= ts.subrange(0, i as int));
                        assert(sub.last() == a@[i as int]@);
                        if i == 0 {
                            assert(sub[0] == a@[0]@);
                            assert(ts.subrange(0, 0) =~= Seq::<SType>::empty());
                        }
                    }
                    let ghost before = r@;
                    if i > 0 {
                        append(&mut r, ", ");
                    }
                    let n = a[i].name();
                    append(&mut r, n.as_str());
                    proof {
                        let sub = ts.subrange(0, i + 1);
                        if i == 0 {
                            assert(r@ =~= "Lambda(["@ + spelled_types(sub));
                        } else {
                            assert(r@ =~= "Lambda(["@ + spelled_types(sub));
                        }
                    }
                    i += 1;
                }
                append(&mut r, "])");
                assert(ts.subrange(0, a.len() as int) =~= ts);
                r
            },
        }
    }
}

/// The type that a type keyword names.
pub open spec fn type_keyword(s: Seq<char>) -> Option<SType> {
    if s == "str"@ {
        Some(SType::Str)
    } else if s == "num"@ {
        Some(SType::Num)
    } else if s == "bool"@ {
        Some(SType::Bool)
    } else if s == "any"@ {
        Some(SType::Any)
    } else if s == "nil"@ {
        Some(SType::Nil)
    } else {
        None
    }
}

/// The type that a type keyword names, if it is one.
pub fn get_type(v: &str) -> (r: Option<Type>)
    ensures
        r is Some <==> type_keyword(v@) is Some,
        r is Some ==> type_keyword(v@) == Some(r->0@),
{
    if text_eq(v, "str") {
        Some(Type::Str)
    } else if text_eq(v, "num") {
        Some(Type::Num)
    } else if text_eq(v, "bool") {
        Some(Type::Bool)
    } else if text_eq(v, "any") {
        Some(Type::Any)
    } else if text_eq(v, "nil") {
        Some(Type::Nil)
    } else {
        None
    }
}

/// Binary (and prefix) operators.
#[derive(Clone, Copy, Debug, PartialEq, Eq, Structural)]
pub enum Operand {
    Pow,
    Mul,
    Div,
    Mod,
    Add,
    Sub,
    Equal,
    NEqual,
    Lt,
    Gt,
    LtEqual,
    GtEqual,
    And,
    Or,
    Not,
    Append,
}

/// The precedence rank of an operator: a lower rank binds tighter.
pub open spec fn rank(op: Operand) -> u8 {
    match op {
        Operand::Pow => 0,
        Operand::Mul | Operand::Div | Operand::Mod => 1,
        Operand::Add | Operand::Sub => 2,
        Operand::Equal | Operand::NEqual => 3,
        Operand::Lt | Operand::Gt | Operand::LtEqual | Operand::GtEqual => 4,
        Operand::Not | Operand::And | Operand::Or => 4,
        Operand::Append => 5,
    }
}

/// The operator that an operator's source spelling names.
pub open spec fn operand_of(s: Seq<char>) -> Option<Operand> {
    if s == "^"@ {
        Some(Operand::Pow)
    } else if s == "*"@ {
        Some(Operand::Mul)
    } else if s == "/"@ {
        Some(Operand::Div)
    } else if s == "%"@ {
        Some(Operand::Mod)
    } else if s == "+"@ {
        Some(Operand::Add)
    } else if s == "-"@ {
        Some(Operand::Sub)
    } else if s == "=="@ {
        Some(Operand::Equal)
    } else if s == "!="@ {
        Some(Operand::NEqual)
    } else if s == "<"@ {
        Some(Operand::Lt)
    } else if s == ">"@ {
        Some(Operand::Gt)
    } else if s == "<="@ {
        Some(Operand::LtEqual)
    } else if s == ">="@ {
        Some(Operand::GtEqual)
    } else if s == "!"@ {
        Some(Operand::Not)
    } else if s == "and"@ {
        Some(Operand::And)
    } else if s == "or"@ {
        Some(Operand::Or)
    } else if s == "++"@ {
        Some(Operand::Append)
    } else {
        None
    }
}

/// The operator that a spelling names, with its precedence rank.
pub fn get_operand(v: &str) -> (r: Option<(Operand, u8)>)
    ensures
        match r {
            Some((op, k)) => operand_of(v@) == Some(op) && k == rank(op),
            None => operand_of(v@) is None,
        },
{
    let op = if text_eq(v, "^") {
        Operand::Pow
    } else if text_eq(v, "*") {
        Operand::Mul
    } else if text_eq(v, "/") {
        Operand::Div
    } else if text_eq(v, "%") {
        Operand::Mod
    } else if text_eq(v, "+") {
        Operand::Add
    } else if text_eq(v, "-") {
        Operand::Sub
    } else if text_eq(v, "==") {
        Operand::Equal
    } else if text_eq(v, "!=") {
        Operand::NEqual
    } else if text_eq(v, "<") {
        Operand::Lt
    } else if text_eq(v, ">") {
        Operand::Gt
    } else if text_eq(v, "<=") {
        Operand::LtEqual
    } else if text_eq(v, ">=") {
        Operand::GtEqual
    } else if text_eq(v, "!") {
        Operand::Not
    } else if text_eq(v, "and") {
        Operand::And
    } else if text_eq(v, "or") {
        Operand::Or
    } else if text_eq(v, "++") {
        Operand::Append
    } else {
        return None;
    };
    Some((op, op.rank()))
}

/// Whether an operator is arithmetic.
pub open spec fn is_arithmetic(op: Operand) -> bool {
    op == Operand::Pow || op == Operand::Mul || op == Operand::Div || op == Operand::Mod
        || op == Operand::Add || op == Operand::Sub
}

/// The type of `l op r`, or `None` where the operand types do not fit the operator.
pub open spec fn operation_type(op: Operand, l: SType, r: SType) -> Option<SType> {
    if is_arithmetic(op) {
        if l == SType::Num && r == SType::Num {
            Some(SType::Num)
        } else if l == SType::Any || r == SType::Any {
            Some(SType::Any)
        } else if (op == Operand::Mul || op == Operand::Add || op == Operand::Sub) && l
            == SType::Str && (r == SType::Num || r == SType::Str || r == SType::Bool) {
            Some(SType::Str)
        } else {
            None
        }
    } else if op == Operand::Equal || op == Operand::NEqual {
        Some(SType::Bool)
    } else if op == Operand::Lt || op == Operand::Gt || op == Operand::LtEqual || op
        == Operand::GtEqual {
        if l == SType::Bool || r == SType::Bool || l == SType::Str || r == SType::Str {
            None
        } else {
            Some(SType::Bool)
        }
    } else if op == Operand::Append {
        if (l == SType::Str || l == SType::Num) && (r == SType::Str || r == SType::Num) {
            Some(SType::Str)
        } else if (l == SType::Any || r == SType::Any) && (l == SType::Any || l == SType::Str || l
            == SType::Num) && (r == SType::Any || r == SType::Str || r == SType::Num) {
            Some(SType::Any)
        } else {
            None
        }
    } else {
        Some(SType::Bool)
    }
}

/// The type error for `l op r`: it names the operator and both operand types.
pub open spec fn operation_error(op: Operand, l: SType, r: SType) -> Seq<char> {
    "failed to apply '"@ + lua_operator(op) + "' to: "@ + spelled_type(l) + " and "@ + spelled_type(r)
}

/// The target-language spelling of an operator.
pub open spec fn lua_operator(op: Operand) -> Seq<char> {
    match op {
        Operand::Pow => "^"@,
        Operand::Mul => "*"@,
        Operand::Div => "/"@,
        Operand::Mod => "%"@,
        Operand::Add => "+"@,
        Operand::Sub => "-"@,
        Operand::Equal => "=="@,
        Operand::NEqual => "~="@,
        Operand::Lt => "<"@,
        Operand::Gt => ">"@,
        Operand::LtEqual => "<="@,
        Operand::GtEqual => ">="@,
        Operand::And => "and"@,
        Operand::Or => "or"@,
        Operand::Not => "not"@,
        Operand::Append => ".."@,
    }
}

impl Operand {
    /// The precedence rank of the operator.
    pub fn rank(&self) -> (r: u8)
        ensures
            r == rank(*self),
    {
        match self {
            Operand::Pow => 0,
            Operand::Mul | Operand::Div | Operand::Mod => 1,
            Operand::Add | Operand::Sub => 2,
            Operand::Equal | Operand::NEqual => 3,
            Operand::Lt | Operand::Gt | Operand::LtEqual | Operand::GtEqual => 4,
            Operand::Not | Operand::And | Operand::Or => 4,
            Operand::Append => 5,
        }
    }

    /// The type of applying the operator to operands of the two given types.
    pub fn operate(&self, lr: (Type, Type)) -> (r: ParserResult<Type>)
        ensures
            r is Ok <==> operation_type(*self, lr.0@, lr.1@) is Some,
            r is Ok ==> operation_type(*self, lr.0@, lr.1@) == Some(r->Ok_0@),
            r is Err ==> r->Err_0.message() == operation_error(*self, lr.0@, lr.1@),
            r is Err ==> r->Err_0.position is None,
    {
        let (l, r) = lr;
        let op = *self;
        let arithmetic = match op {
            Operand::Pow | Operand::Mul | Operand::Div | Operand::Mod | Operand::Add
            | Operand::Sub => true,
            _ => false,
        };
        if arithmetic {
            if matches!(l, Type::Num) && matches!(r, Type::Num) {
                return Ok(Type::Num);
            } else if matches!(l, Type::Any) || matches!(r, Type::Any) {
                return Ok(Type::Any);
            } else if matches!(op, Operand::Mul | Operand::Add | Operand::Sub) && matches!(l, Type::Str)
                && matches!(r, Type::Num | Type::Str | Type::Bool) {
                return Ok(Type::Str);
            }
        } else if matches!(op, Operand::Equal | Operand::NEqual) {
            return Ok(Type::Bool);
        } else if matches!(op, Operand::Lt | Operand::Gt | Operand::LtEqual | Operand::GtEqual) {
            if !(matches!(l, Type::Bool | Type::Str) || matches!(r, Type::Bool | Type::Str)) {
                return Ok(Type::Bool);
            }
        } else if matches!(op, Operand::Append) {
            if matches!(l, Type::Str | Type::Num) && matches!(r, Type::Str | Type::Num) {
                return Ok(Type::Str);
            } else if (matches!(l, Type::Any) || matches!(r, Type::Any)) && matches!(l, Type::Any | Type::Str | Type::Num)
                && matches!(r, Type::Any | Type::Str | Type::Num) {
                return Ok(Type::Any);
            }
        } else {
            return Ok(Type::Bool);
        }
        let mut msg = owned("failed to apply '");
        let spelled = op.translate_lua();
        append(&mut msg, spelled.as_str());
        append(&mut msg, "' to: ");
        append(&mut msg, l.name().as_str());
        append(&mut msg, " and ");
        append(&mut msg, r.name().as_str());
        assert(msg@ =~= operation_error(op, l@, r@));
        Err(ParserError::new(msg.as_str()))
    }

    /// The operator's spelling in the target language.
    pub fn translate_lua(&self) -> (r: String)
        ensures
            r@ == lua_operator(*self),
    {
        match self {
            Operand::Pow => owned("^"),
            Operand::Mul => owned("*"),
            Operand::Div => owned("/"),
            Operand::Mod => owned("%"),
            Operand::Add => owned("+"),
            Operand::Sub => owned("-"),
            Operand::Equal => owned("=="),
            Operand::NEqual => owned("~="),
            Operand::Lt => owned("<"),
            Operand::Gt => owned(">"),
            Operand::LtEqual => owned("<="),
            Operand::GtEqual => owned(">="),
            Operand::And => owned("and"),
            Operand::Or => owned("or"),
            Operand::Not => owned("not"),
            Operand::Append => owned(".."),
        }
    }
}

/// Expressions of the language.
#[derive(Debug)]
pub enum Expression {
    Block(Vec<Statement>),
    /// A number, as its literal text.
    NumberLiteral(String),
    StringLiteral(String),
    Identifier(String),
    BoolLiteral(bool),
    /// A definition: declared type, name, value.
    Definition(Option<Type>, String, Box<Expression>),
    /// A call: callee, arguments.
    Call(Box<Expression>, Vec<Expression>),
    Lambda {
        name: Option<String>,
        retty: Type,
        param_names: Vec<String>,
        param_types: Vec<Type>,
        body: Vec<Statement>,
    },
    EOF,
    Operation { left: Box<Expression>, op: Operand, right: Box<Expression> },
}

/// Statements of the language.
#[derive(Debug)]
pub enum Statement {
    Expression(Expression),
    Return(Option<Expression>),
}

} // verus!
