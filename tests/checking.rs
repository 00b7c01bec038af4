use plof::ast::{get_operand, get_type, Expression, Operand, Statement, Type};
use plof::checker::{add_global, check_program, types_compatible};
use plof::compiler::{block_tree, standard_scopes};
use plof::env::Env;
use plof::lexer::process_branch;
use plof::parser::Parser;
use plof::symtab::SymTab;
use plof::traveler::Traveler;

fn statements(src: &str) -> Vec<Statement> {
    let root = block_tree(src).ok().unwrap();
    let tokens = process_branch(&root).ok().unwrap();
    Parser::new(Traveler::new(tokens)).parse().ok().unwrap()
}

fn expression(src: &str) -> Expression {
    match statements(src).remove(0) {
        Statement::Expression(e) => e,
        Statement::Return(_) => panic!("expected an expression"),
    }
}

fn type_of(src: &str) -> Result<Type, String> {
    let (sym, env) = standard_scopes();
    expression(src).get_type(&sym, &env).map_err(|e| e.text().clone())
}

#[test]
fn string_plus_number_is_string() {
    assert!(matches!(type_of("\"x\" + 1"), Ok(Type::Str)));
    assert!(matches!(Operand::Add.operate((Type::Str, Type::Num)), Ok(Type::Str)));
}

#[test]
fn ordering_booleans_is_a_type_error() {
    assert!(type_of("true < false").is_err());
    assert!(Operand::Lt.operate((Type::Bool, Type::Bool)).is_err());
    assert!(Operand::GtEqual.operate((Type::Num, Type::Str)).is_err());
}

#[test]
fn equality_is_always_boolean() {
    assert!(matches!(type_of("1 == \"x\""), Ok(Type::Bool)));
    assert!(matches!(Operand::NEqual.operate((Type::Nil, Type::Str)), Ok(Type::Bool)));
}

#[test]
fn arithmetic_type_table() {
    assert!(matches!(Operand::Mul.operate((Type::Num, Type::Num)), Ok(Type::Num)));
    assert!(matches!(Operand::Div.operate((Type::Any, Type::Num)), Ok(Type::Any)));
    assert!(matches!(Operand::Pow.operate((Type::Bool, Type::Any)), Ok(Type::Any)));
    assert!(matches!(Operand::Sub.operate((Type::Str, Type::Bool)), Ok(Type::Str)));
    assert!(Operand::Div.operate((Type::Str, Type::Num)).is_err());
    assert!(Operand::Add.operate((Type::Num, Type::Str)).is_err());
    assert!(matches!(Operand::Append.operate((Type::Str, Type::Str)), Ok(Type::Str)));
    assert!(matches!(Operand::And.operate((Type::Num, Type::Str)), Ok(Type::Bool)));
    let err = Operand::Add.operate((Type::Bool, Type::Nil)).err().unwrap();
    assert!(err.text().contains("Bool") && err.text().contains("Nil"));
}

#[test]
fn operator_spellings_and_ranks() {
    assert!(matches!(get_operand("^"), Some((Operand::Pow, 0))));
    assert!(matches!(get_operand("%"), Some((Operand::Mod, 1))));
    assert!(matches!(get_operand("-"), Some((Operand::Sub, 2))));
    assert!(matches!(get_operand("!="), Some((Operand::NEqual, 3))));
    assert!(matches!(get_operand(">="), Some((Operand::GtEqual, 4))));
    assert!(matches!(get_operand("++"), Some((Operand::Append, 5))));
    assert!(get_operand("=").is_none());
    assert_eq!(Operand::NEqual.translate_lua(), "~=");
    assert_eq!(Operand::Not.translate_lua(), "not");
    assert_eq!(Operand::Append.translate_lua(), "..");
}

#[test]
fn type_keywords() {
    assert!(matches!(get_type("num"), Some(Type::Num)));
    assert!(matches!(get_type("nil"), Some(Type::Nil)));
    assert!(get_type("number").is_none());
    assert!(types_compatible(&Type::Any, &Type::Str));
    assert!(!types_compatible(&Type::Num, &Type::Str));
    assert!(Type::Lambda(vec![Type::Nil, Type::Any]).equals(&Type::Lambda(vec![Type::Nil, Type::Any])));
    assert!(!Type::Lambda(vec![Type::Nil]).equals(&Type::Lambda(vec![Type::Nil, Type::Any])));
    assert_eq!(Type::Lambda(vec![Type::Nil, Type::Any]).name(), "Lambda([Nil, Any])");
}

#[test]
fn inner_definition_shadows_outer() {
    let program = statements("num a = 1\nstr () f =\n  str a = \"x\"\n  a\n");
    let mut sym = SymTab::new_global();
    let mut env = Env::new_global();
    assert!(check_program(&program, &mut sym, &mut env).is_ok());
    let (slot, hops) = sym.get_name("a").unwrap();
    assert_eq!(hops, 0);
    assert!(matches!(env.get_type(slot, hops), Ok(Type::Num)));
    assert_eq!(sym.size(), 2);
    assert_eq!(env.size(), 2);
}

#[test]
fn inner_scope_resolves_to_its_own_slot() {
    let mut sym = SymTab::new_global();
    let mut env = Env::new_global();
    assert!(add_global(&mut sym, &mut env, "a", Type::Num).is_ok());
    sym.open_scope(&vec![]);
    env.open_scope(&[], 0);
    assert_eq!(sym.get_name("a"), Some((0, 1)));
    let stmt = expression("str a = \"x\"");
    assert!(stmt.visit(&mut sym, &mut env).is_ok());
    assert_eq!(sym.get_name("a"), Some((0, 0)));
    assert!(matches!(env.get_type(0, 0), Ok(Type::Str)));
    assert!(matches!(env.get_type(0, 1), Ok(Type::Num)));
    sym.close_scope();
    env.close_scope();
    assert_eq!(sym.get_name("a"), Some((0, 0)));
    assert!(matches!(env.get_type(0, 0), Ok(Type::Num)));
}

#[test]
fn changing_a_type_in_one_scope_fails() {
    let program = statements("num a = 1\nstr a = \"x\"\n");
    let (mut sym, mut env) = standard_scopes();
    let err = check_program(&program, &mut sym, &mut env).err().unwrap();
    assert!(err.text().contains("a"));
}

#[test]
fn call_with_matching_arguments_has_return_type() {
    let program = statements("str (str a, str b) concat = a ++ b\n");
    let (mut sym, mut env) = standard_scopes();
    assert!(check_program(&program, &mut sym, &mut env).is_ok());
    let call = expression("concat(\"x\", \"y\")");
    assert!(call.visit(&mut sym, &mut env).is_ok());
    assert!(matches!(call.get_type(&sym, &env), Ok(Type::Str)));
}

#[test]
fn call_with_wrong_argument_names_parameter() {
    let program = statements("str (str a, str b) concat = a ++ b\n");
    let (mut sym, mut env) = standard_scopes();
    assert!(check_program(&program, &mut sym, &mut env).is_ok());
    let call = expression("concat(1, \"y\")");
    let err = call.visit(&mut sym, &mut env).err().unwrap();
    assert!(err.text().contains("argument 1"));
    assert!(err.text().contains("parameter 1"));
    let short = expression("concat(\"y\")");
    assert!(short.visit(&mut sym, &mut env).is_err());
}

#[test]
fn undeclared_name_fails() {
    let (mut sym, mut env) = standard_scopes();
    let e = expression("nobody");
    assert!(e.visit(&mut sym, &mut env).is_err());
    assert!(e.get_type(&sym, &env).is_err());
}

#[test]
fn calling_a_non_function_fails() {
    let program = statements("num n = 1\nn(2)\n");
    let (mut sym, mut env) = standard_scopes();
    assert!(check_program(&program, &mut sym, &mut env).is_err());
}

#[test]
fn redefining_a_lambda_fails() {
    let program = statements("num () f = 1\nnum () f = 2\n");
    let (mut sym, mut env) = standard_scopes();
    assert!(check_program(&program, &mut sym, &mut env).is_err());
}

#[test]
fn lambda_must_return_its_type() {
    let program = statements("num () f = \"text\"\n");
    let (mut sym, mut env) = standard_scopes();
    let err = check_program(&program, &mut sym, &mut env).err().unwrap();
    assert!(err.text().contains("return"));
    let program = statements("any () g = \"text\"\n");
    let (mut sym, mut env) = standard_scopes();
    assert!(check_program(&program, &mut sym, &mut env).is_ok());
}

#[test]
fn recursive_lambda_sees_itself() {
    let program = statements("num (num n) down = down(n - 1)\n");
    let (mut sym, mut env) = standard_scopes();
    assert!(check_program(&program, &mut sym, &mut env).is_ok());
}

#[test]
fn env_slots_out_of_range_fail() {
    let mut env = Env::new_global();
    assert!(env.set_type(0, 0, Type::Num).is_err());
    assert!(env.get_type(0, 3).is_err());
    env.grow();
    assert!(matches!(env.get_type(0, 0), Ok(Type::Undefined)));
    assert!(env.set_type(0, 0, Type::Bool).is_ok());
    let child = Env::new_partial(env, &[Type::Str], 3);
    assert_eq!(child.size(), 3);
    assert!(matches!(child.get_type(0, 0), Ok(Type::Str)));
    assert!(matches!(child.get_type(2, 0), Ok(Type::Undefined)));
    assert!(matches!(child.get_type(0, 1), Ok(Type::Bool)));
    let mut child = Env::new(child, &vec![Type::Nil]);
    assert!(child.set_type(0, 2, Type::Num).is_ok());
    assert!(matches!(child.get_type(0, 2), Ok(Type::Num)));
}

#[test]
fn symtab_add_name_is_idempotent() {
    let mut sym = SymTab::new_global();
    assert_eq!(sym.add_name("x"), 0);
    assert_eq!(sym.add_name("y"), 1);
    assert_eq!(sym.add_name("x"), 0);
    assert_eq!(sym.size(), 2);
    let child = SymTab::new(sym, &vec!["y".to_string()]);
    assert_eq!(child.get_name("y"), Some((0, 0)));
    assert_eq!(child.get_name("x"), Some((0, 1)));
    assert_eq!(child.get_name("z"), None);
    assert_eq!(child.lookup_current("x"), None);
}

#[test]
fn failed_check_leaves_scopes_unchanged() {
    let (mut sym, mut env) = standard_scopes();
    let bad = expression("num () f = \"text\"");
    assert!(bad.visit(&mut sym, &mut env).is_err());
    assert_eq!(sym.get_name("f"), None);
    assert_eq!(sym.size(), 2);
    assert_eq!(env.size(), 2);
    let cmp = expression("true < false");
    let err = cmp.visit(&mut sym, &mut env).err().unwrap();
    assert_eq!(err.text(), "failed to apply '<' to: Bool and Bool");
    assert_eq!(sym.size(), 2);
}

#[test]
fn call_error_message_is_exact() {
    let program = statements("str (str a, str b) concat = a ++ b\n");
    let (mut sym, mut env) = standard_scopes();
    assert!(check_program(&program, &mut sym, &mut env).is_ok());
    let err = expression("concat(1, \"y\")").visit(&mut sym, &mut env).err().unwrap();
    assert_eq!(err.text(), "can't invoke lambda: argument 1 has type Num but parameter 1 has type Str");
    let err = expression("concat(\"y\")").visit(&mut sym, &mut env).err().unwrap();
    assert_eq!(err.text(), "can't invoke lambda: it takes 2 arguments, not 1");
    assert_eq!(sym.size(), 3);
}

#[test]
fn conflicting_redeclaration_adds_no_slot() {
    let (mut sym, mut env) = standard_scopes();
    assert!(expression("num a = 1").visit(&mut sym, &mut env).is_ok());
    assert!(expression("str a = \"x\"").visit(&mut sym, &mut env).is_err());
    assert_eq!(sym.size(), 3);
    assert_eq!(env.size(), 3);
    assert!(matches!(env.get_type(2, 0), Ok(Type::Num)));
}
