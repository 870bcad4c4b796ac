use sitplc::ast::{Program, Stmt, Type};
use sitplc::lexer::{Lexer, Token};
use sitplc::parser::Parser;

fn parse_src(src: &str) -> Result<Program, String> {
    Parser::new(Lexer::new(src).tokenize()).parse_program()
}

fn parse_toks(toks: Vec<Token>) -> Result<Program, String> {
    Parser::new(toks).parse_program()
}

fn globals_of(src: &str) -> Vec<String> {
    parse_src(src).unwrap().globals.iter().map(|s| format!("{:?}", s)).collect()
}

fn err_of(src: &str) -> String {
    match parse_src(src) {
        Ok(p) => panic!("parsed: {:?}", p),
        Err(m) => m,
    }
}

fn ident(s: &str) -> Token {
    Token::Identifier(s.to_string())
}

#[test]
fn parses_top_level_statements() {
    assert_eq!(
        globals_of("var x: int = 5;\nx = x + 1;\nprint(x, \"s\");\n"),
        vec![
            "VarDecl { name: \"x\", typ: Int, init: Some(Integer(5)) }".to_string(),
            "Assign { target: \"x\", index: None, expr: BinaryOp(Variable(\"x\"), Add, Integer(1)) }"
                .to_string(),
            "Print([Variable(\"x\"), String(\"s\")])".to_string(),
        ]
    );
}

#[test]
fn operators_of_equal_strength_group_to_the_right() {
    assert_eq!(
        globals_of("x = 1 - 2 - 3;"),
        vec![
            "Assign { target: \"x\", index: None, expr: BinaryOp(Integer(1), Sub, BinaryOp(Integer(2), Sub, Integer(3))) }"
                .to_string()
        ]
    );
}

#[test]
fn stronger_operators_bind_first() {
    assert_eq!(
        globals_of("x = 1 + 2 * 3;\ny = 2 * 3 + 1;\nz = a || b && c == d;"),
        vec![
            "Assign { target: \"x\", index: None, expr: BinaryOp(Integer(1), Add, BinaryOp(Integer(2), Mul, Integer(3))) }"
                .to_string(),
            "Assign { target: \"y\", index: None, expr: BinaryOp(BinaryOp(Integer(2), Mul, Integer(3)), Add, Integer(1)) }"
                .to_string(),
            "Assign { target: \"z\", index: None, expr: BinaryOp(Variable(\"a\"), Or, BinaryOp(Variable(\"b\"), And, BinaryOp(Variable(\"c\"), Eq, Variable(\"d\")))) }"
                .to_string(),
        ]
    );
}

#[test]
fn prefix_operators_take_a_sum() {
    assert_eq!(
        globals_of("x = -a * b + c;\ny = !(p);"),
        vec![
            "Assign { target: \"x\", index: None, expr: UnaryOp(Neg, BinaryOp(BinaryOp(Variable(\"a\"), Mul, Variable(\"b\")), Add, Variable(\"c\"))) }"
                .to_string(),
            "Assign { target: \"y\", index: None, expr: UnaryOp(Not, Variable(\"p\")) }".to_string(),
        ]
    );
}

#[test]
fn arrays_calls_input_and_output() {
    assert_eq!(
        globals_of("var a: int[3];\na[1] = 2;\nf(1, a[0]);\ninput(s);\nset_output(\"o\");\nvar c: char = 'q';\nvar r: float = 2.5;"),
        vec![
            "VarDecl { name: \"a\", typ: Array(Int, 3), init: None }".to_string(),
            "Assign { target: \"a\", index: Some(Integer(1)), expr: Integer(2) }".to_string(),
            "ExprStmt(Call(\"f\", [Integer(1), ArrayElement(\"a\", Integer(0))]))".to_string(),
            "Input(\"s\")".to_string(),
            "SetOutput(String(\"o\"))".to_string(),
            "VarDecl { name: \"c\", typ: Char, init: Some(Char('q')) }".to_string(),
            "VarDecl { name: \"r\", typ: Float, init: Some(Float(\"2.5\")) }".to_string(),
        ]
    );
}

#[test]
fn element_read_as_a_statement() {
    assert_eq!(
        globals_of("a[0];\nv;"),
        vec![
            "ExprStmt(ArrayElement(\"a\", Integer(0)))".to_string(),
            "ExprStmt(Variable(\"v\"))".to_string(),
        ]
    );
}

#[test]
fn if_else_and_while_blocks() {
    let prog = parse_toks(vec![
        Token::If,
        ident("c"),
        Token::Colon,
        Token::Indent,
        Token::Print,
        Token::LParen,
        Token::IntLit(1),
        Token::RParen,
        Token::Semicolon,
        Token::Newline,
        Token::Dedent,
        Token::Else,
        Token::Colon,
        Token::Indent,
        Token::Print,
        Token::LParen,
        Token::IntLit(2),
        Token::RParen,
        Token::Semicolon,
        Token::Dedent,
        Token::Newline,
        Token::While,
        ident("c"),
        Token::Colon,
        Token::Indent,
        ident("c"),
        Token::Assign,
        Token::False,
        Token::Semicolon,
        Token::Dedent,
        Token::Eof,
    ])
    .unwrap();
    assert_eq!(prog.globals.len(), 2);
    assert_eq!(
        format!("{:?}", prog.globals[0]),
        "If { cond: Variable(\"c\"), then_block: [Print([Integer(1)])], else_block: [Print([Integer(2)])] }"
    );
    assert_eq!(
        format!("{:?}", prog.globals[1]),
        "While { cond: Variable(\"c\"), body: [Assign { target: \"c\", index: None, expr: Bool(false) }] }"
    );
}

#[test]
fn function_definition() {
    let prog = parse_toks(vec![
        Token::Def,
        ident("f"),
        Token::LParen,
        ident("a"),
        Token::Colon,
        Token::IntType,
        Token::Comma,
        ident("b"),
        Token::Colon,
        Token::BoolType,
        Token::RParen,
        Token::Colon,
        Token::Indent,
        Token::Return,
        ident("a"),
        Token::Semicolon,
        Token::Dedent,
        Token::Eof,
    ])
    .unwrap();
    assert_eq!(prog.globals.len(), 0);
    assert_eq!(prog.functions.len(), 1);
    let f = &prog.functions[0];
    assert_eq!(f.name, "f");
    assert_eq!(f.params.len(), 2);
    assert_eq!(f.params[0].0, "a");
    assert_eq!(f.params[0].1, Type::Int);
    assert_eq!(f.params[1].0, "b");
    assert_eq!(f.params[1].1, Type::Bool);
    assert_eq!(format!("{:?}", f.body), "[Return(Variable(\"a\"))]");
}

#[test]
fn a_block_needs_its_indent_right_after_the_colon() {
    assert_eq!(err_of("if x:\n    y = 1;\n"), "Expected Indent, found Newline");
    assert_eq!(err_of("def f():\n    return 1;\n"), "Expected Indent, found Newline");
}

#[test]
fn statement_errors() {
    assert_eq!(err_of("var x: int = ;\n"), "Unexpected token in expression: Some(Newline)");
    assert_eq!(err_of("5;"), "Unexpected token at top level: IntLit(5)");
    assert_eq!(err_of("x = 1 y;"), "Expected Semicolon, found Identifier(\"y\")");
    assert_eq!(err_of("x = 'c' 'd';"), "Expected Semicolon, found CharLit('d')");
    assert_eq!(err_of("var 1;"), "Expected variable name");
    assert_eq!(err_of("var x: foo;"), "Expected type");
    assert_eq!(err_of("input(1);"), "Expected variable name in input");
    assert_eq!(err_of("var a: int[x];"), "Expected array size");
    assert_eq!(err_of("x = 1"), "Expected Semicolon, found Eof");
    assert_eq!(err_of("x = \"s\" \"t\";"), "Expected Semicolon, found StringLit(\"t\")");
}

#[test]
fn running_out_of_tokens() {
    let r = parse_toks(vec![Token::Var, ident("x"), Token::Colon, Token::IntType]);
    assert_eq!(r.unwrap_err(), "Unexpected end of file");
}

#[test]
fn function_header_errors() {
    let r = parse_toks(vec![Token::Def, Token::IntLit(1)]);
    assert_eq!(r.unwrap_err(), "Expected function name");
    let r = parse_toks(vec![Token::Def, ident("f"), Token::LParen, Token::IntLit(1)]);
    assert_eq!(r.unwrap_err(), "Expected parameter name");
}

#[test]
fn unexpected_statement_in_block() {
    let r = parse_toks(vec![Token::If, ident("c"), Token::Colon, Token::Indent, Token::Else, Token::Eof]);
    assert_eq!(r.unwrap_err(), "Unexpected token in statement: Some(Else)");
}

#[test]
fn parsing_stops_at_eof() {
    let prog = parse_toks(vec![
        ident("x"),
        Token::Assign,
        Token::IntLit(1),
        Token::Semicolon,
        Token::Eof,
        ident("junk"),
    ])
    .unwrap();
    assert_eq!(prog.globals.len(), 1);
    assert!(matches!(prog.globals[0], Stmt::Assign { .. }));
}

#[test]
fn no_tokens_is_an_empty_program() {
    let prog = parse_toks(Vec::new()).unwrap();
    assert_eq!(prog.globals.len(), 0);
    assert_eq!(prog.functions.len(), 0);
}
