use sitplc::ast::{Program, Type};
use sitplc::lexer::{Lexer, Token};
use sitplc::parser::Parser;
use sitplc::semantic::{Outcome, SymbolTable};

fn program(src: &str) -> Program {
    Parser::new(Lexer::new(src).tokenize()).parse_program().unwrap()
}

fn check(src: &str) -> (Result<(), String>, SymbolTable) {
    let mut t = SymbolTable::new();
    let r = t.check_program(&program(src));
    (r, t)
}

fn check_err(src: &str) -> String {
    check(src).0.unwrap_err()
}

fn ident(s: &str) -> Token {
    Token::Identifier(s.to_string())
}

#[test]
fn declarations_take_consecutive_registers() {
    let mut t = SymbolTable::new();
    assert_eq!(t.declare("x", Type::Int, false, None), Ok(0));
    assert_eq!(t.declare("a", Type::Array(Box::new(Type::Int), 3), true, Some(3)), Ok(1));
    assert_eq!(t.declare("y", Type::Bool, false, None), Ok(4));
    let a = t.lookup("a").unwrap();
    assert_eq!(a.reg, 1);
    assert!(a.is_array);
    assert_eq!(a.size, Some(3));
    assert_eq!(a.typ, Type::Array(Box::new(Type::Int), 3));
    assert_eq!(t.get_reg("y"), Some(4));
    assert_eq!(t.get_type("y"), Some(&Type::Bool));
}

#[test]
fn redeclaration_in_one_scope_is_refused() {
    let mut t = SymbolTable::new();
    assert_eq!(t.declare("x", Type::Int, false, None), Ok(0));
    assert_eq!(
        t.declare("x", Type::Float, false, None),
        Err("Variable x already declared".to_string())
    );
    assert_eq!(t.get_type("x"), Some(&Type::Int));
    assert_eq!(t.declare("y", Type::Int, false, None), Ok(1));
}

#[test]
fn inner_scope_shadows_until_it_is_left() {
    let mut t = SymbolTable::new();
    assert_eq!(t.declare("x", Type::Int, false, None), Ok(0));
    t.enter_scope();
    assert_eq!(t.get_reg("x"), Some(0));
    assert_eq!(t.declare("x", Type::Float, false, None), Ok(1));
    assert_eq!(t.get_reg("x"), Some(1));
    assert_eq!(t.get_type("x"), Some(&Type::Float));
    t.exit_scope();
    assert_eq!(t.get_reg("x"), Some(0));
    assert_eq!(t.get_type("x"), Some(&Type::Int));
    assert_eq!(t.declare("z", Type::Char, false, None), Ok(2));
}

#[test]
fn entering_and_leaving_changes_nothing() {
    let mut t = SymbolTable::new();
    assert_eq!(t.declare("v", Type::String, false, None), Ok(0));
    t.enter_scope();
    t.exit_scope();
    assert_eq!(t.get_reg("v"), Some(0));
    assert_eq!(t.get_type("v"), Some(&Type::String));
    assert_eq!(t.declare("w", Type::Int, false, None), Ok(1));
}

#[test]
fn unknown_names() {
    let t = SymbolTable::new();
    assert!(t.lookup("nope").is_none());
    assert_eq!(t.get_reg("nope"), None);
    assert_eq!(t.get_type("nope"), None);
    assert_eq!(t.current_function, None);
}

#[test]
fn a_checked_program_has_its_registers() {
    let (r, t) = check("var x: int = 1;\nvar a: int[2];\nvar y: int = x + 2;\nprint(y);\n");
    assert_eq!(r, Ok(()));
    assert_eq!(t.get_reg("x"), Some(0));
    assert_eq!(t.get_reg("a"), Some(1));
    assert_eq!(t.get_reg("y"), Some(3));
}

#[test]
fn undeclared_names() {
    assert_eq!(check_err("y = 1;"), "Variable y not declared");
    assert_eq!(check_err("input(s);"), "Variable s not declared");
    assert_eq!(check_err("print(q);"), "Variable q not declared");
    assert_eq!(check_err("var x: int = a[0];"), "Array a not declared");
}

#[test]
fn arrays_only_where_declared() {
    assert_eq!(check_err("var x: int = 1;\nx[0] = 2;"), "x is not an array");
    assert_eq!(check_err("var x: int = 1;\nvar y: int = x[0];"), "x is not an array");
    assert_eq!(check("var a: int[4];\na[2] = 5;\nvar b: int = a[1];").0, Ok(()));
}

#[test]
fn type_errors() {
    assert_eq!(check_err("var x: int = 1 + true;"), "Type mismatch in arithmetic");
    assert_eq!(check_err("var b: bool = 1 < 'c';"), "Type mismatch in comparison");
    assert_eq!(check_err("var b: bool = 1 && true;"), "Logical operators require bool");
    assert_eq!(check_err("var b: bool = -true;"), "Negation requires numeric type");
    assert_eq!(check_err("var b: bool = !1;"), "Not requires bool");
    assert_eq!(check("var b: bool = !(1 < 2) || false;").0, Ok(()));
    assert_eq!(check("var f: float = -2.5;").0, Ok(()));
}

#[test]
fn redeclared_global() {
    assert_eq!(check_err("var x: int = 1;\nvar x: int = 2;"), "Variable x already declared");
}

#[test]
fn return_needs_a_function() {
    let prog = Parser::new(vec![
        Token::If,
        Token::True,
        Token::Colon,
        Token::Indent,
        Token::Return,
        Token::IntLit(1),
        Token::Semicolon,
        Token::Dedent,
        Token::Eof,
    ])
    .parse_program()
    .unwrap();
    let mut t = SymbolTable::new();
    assert_eq!(t.check_program(&prog), Err("return outside function".to_string()));
}

#[test]
fn calls_are_not_looked_into() {
    assert_eq!(check("var x: int = f(undefined);").0, Ok(()));
}

#[test]
fn block_variables_stay_in_their_block() {
    let prog = Parser::new(vec![
        Token::If,
        Token::True,
        Token::Colon,
        Token::Indent,
        Token::Var,
        ident("z"),
        Token::Colon,
        Token::IntType,
        Token::Semicolon,
        Token::Dedent,
        Token::Print,
        Token::LParen,
        ident("z"),
        Token::RParen,
        Token::Semicolon,
        Token::Eof,
    ])
    .parse_program()
    .unwrap();
    let mut t = SymbolTable::new();
    assert_eq!(t.check_program(&prog), Err("Variable z not declared".to_string()));
}

#[test]
fn functions_are_checked_in_their_own_scope() {
    let prog = Parser::new(vec![
        Token::Def,
        ident("f"),
        Token::LParen,
        ident("a"),
        Token::Colon,
        Token::IntType,
        Token::RParen,
        Token::Colon,
        Token::Indent,
        Token::Return,
        ident("a"),
        Token::Semicolon,
        Token::Dedent,
        Token::Eof,
    ])
    .parse_program()
    .unwrap();
    let mut t = SymbolTable::new();
    assert_eq!(t.check_program(&prog), Ok(()));
    assert_eq!(t.current_function, None);
    assert_eq!(t.get_reg("a"), None);
    assert_eq!(t.declare("b", Type::Int, false, None), Ok(1));
}

#[test]
fn empty_array_stops_checking() {
    let mut t = SymbolTable::new();
    match t.check_program_outcome(&program("var a: int[0];")) {
        Outcome::Abort(m) => assert_eq!(m, "attempt to subtract with overflow"),
        _ => panic!("expected a stop"),
    }
}

#[test]
fn outcome_of_a_good_and_a_bad_program() {
    let mut t = SymbolTable::new();
    assert!(matches!(t.check_program_outcome(&program("var x: int = 1;")), Outcome::Done(())));
    let mut t = SymbolTable::new();
    match t.check_program_outcome(&program("x = 1;")) {
        Outcome::Fail(m) => assert_eq!(m, "Variable x not declared"),
        _ => panic!("expected an error"),
    }
}

#[test]
fn nested_scopes_give_back_the_outer_names() {
    let mut t = SymbolTable::new();
    assert_eq!(t.declare("x", Type::Int, false, None), Ok(0));
    assert_eq!(t.declare("y", Type::Bool, false, None), Ok(1));
    t.enter_scope();
    assert_eq!(t.declare("x", Type::Char, false, None), Ok(2));
    t.enter_scope();
    assert_eq!(t.declare("y", Type::Float, false, None), Ok(3));
    assert_eq!(t.declare("z", Type::Array(Box::new(Type::Int), 2), true, Some(2)), Ok(4));
    t.exit_scope();
    assert_eq!(t.declare("w", Type::Int, false, None), Ok(6));
    t.exit_scope();
    assert_eq!(t.get_reg("x"), Some(0));
    assert_eq!(t.get_type("y"), Some(&Type::Bool));
    assert_eq!(t.get_reg("z"), None);
    assert_eq!(t.get_reg("w"), None);
    assert_eq!(t.declare("v", Type::Int, false, None), Ok(7));
}

#[test]
fn outer_names_do_not_refuse_a_declaration() {
    let mut t = SymbolTable::new();
    assert_eq!(t.declare("x", Type::Int, false, None), Ok(0));
    t.enter_scope();
    assert_eq!(t.declare("x", Type::Int, false, None), Ok(1));
    assert_eq!(
        t.declare("x", Type::Int, false, None),
        Err("Variable x already declared".to_string())
    );
    assert_eq!(t.get_reg("x"), Some(1));
    assert_eq!(t.declare("q", Type::Int, false, None), Ok(2));
}
