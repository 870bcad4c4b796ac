use sitplc::ast::Program;
use sitplc::codegen::CodeGen;
use sitplc::lexer::{Lexer, Token};
use sitplc::parser::Parser;
use sitplc::semantic::SymbolTable;

fn program(src: &str) -> Program {
    Parser::new(Lexer::new(src).tokenize()).parse_program().unwrap()
}

fn compile(prog: &Program) -> String {
    let mut t = SymbolTable::new();
    t.check_program(prog).unwrap();
    CodeGen::new(t).generate(prog)
}

fn ident(s: &str) -> Token {
    Token::Identifier(s.to_string())
}

fn listing(body: &[&str]) -> String {
    let mut lines = vec![".data", "", "start:"];
    lines.extend_from_slice(body);
    lines.push("    HALT 0 0 0");
    lines.join("\n")
}

#[test]
fn declaration_and_print() {
    assert_eq!(
        compile(&program("var x: int = 5;\nprint(x);\n")),
        listing(&[
            "    LOAD_INT 0 5",
            "    ADD_I 100 0 0",
            "    INT2STR 100 100",
            "    PRINT_STR 100 0 0",
        ])
    );
}

#[test]
fn empty_program_is_the_frame() {
    let text = compile(&program(""));
    assert_eq!(text, ".data\n\nstart:\n    HALT 0 0 0");
}

#[test]
fn every_kind_of_value() {
    let src = "var a: int[3];\nvar b: bool = 1 != 2;\nvar n: int = 4;\na[2] = -n;\nvar c: char = 'A';\nvar s: string = \"hi\";\nvar t: bool = true;\nvar f: float = 1.5;\nset_output(s);\ninput(s);\nprint(\"x\", n * 2);\n";
    assert_eq!(
        compile(&program(src)),
        listing(&[
            "    LOAD_INT 100 1",
            "    LOAD_INT 100 2",
            "    IF_I 3 100 100",
            "    NOT_B 3 3",
            "    LOAD_INT 4 4",
            "    ADD_I 100 4 0",
            "    SUB_I 2 0 100",
            "    LOAD_CHAR 5 65",
            "    ; STRING 6 \"hi\"",
            "    LOAD_BOOL 7 1",
            "    LOAD_FLOAT 8 1.5",
            "    ADD_I 100 6 0",
            "    SET_OUT_FILE 100 0 0",
            "    READ_STR 6 0 0",
            "    ; PRINT_STR 100",
            "    ADD_I 100 4 0",
            "    LOAD_INT 100 2",
            "    MUL_I 100 100 100",
            "    INT2STR 100 100",
            "    PRINT_STR 100 0 0",
        ])
    );
}

#[test]
fn comparisons_and_logic() {
    let src = "var p: bool = 1 < 2 && 3 >= 4 || !false;\n";
    assert_eq!(
        compile(&program(src)),
        listing(&[
            "    LOAD_INT 100 1",
            "    LOAD_INT 100 2",
            "    CMP_LT 100 100 100",
            "    LOAD_INT 100 3",
            "    LOAD_INT 100 4",
            "    CMP_GE 100 100 100",
            "    AND_B 100 100 100",
            "    LOAD_BOOL 100 0",
            "    NOT_B 100 100",
            "    OR_B 0 100 100",
        ])
    );
}

#[test]
fn calls_pass_arguments_in_low_registers() {
    let src = "var x: int = 3;\nf(1, x);\nvar y: int = g();\n";
    assert_eq!(
        compile(&program(src)),
        listing(&[
            "    LOAD_INT 0 3",
            "    LOAD_INT 0 1",
            "    ADD_I 1 0 0",
            "    CALL func_f",
            "    ADD_I 100 0 0",
            "    CALL func_g",
            "    ADD_I 1 0 0",
        ])
    );
}

#[test]
fn element_reads_add_the_index_register() {
    let src = "var a: int[2];\nvar v: int = a[1];\n";
    assert_eq!(
        compile(&program(src)),
        listing(&["    LOAD_INT 100 1", "    ADD_I 2 0 100"])
    );
}

#[test]
fn if_else_jumps_to_fresh_labels() {
    let prog = Parser::new(vec![
        Token::If,
        Token::True,
        Token::Colon,
        Token::Indent,
        Token::Print,
        Token::LParen,
        Token::IntLit(1),
        Token::RParen,
        Token::Semicolon,
        Token::Dedent,
        Token::Else,
        Token::Colon,
        Token::Indent,
        Token::Print,
        Token::LParen,
        Token::IntLit(2),
        Token::RParen,
        Token::Semicolon,
        Token::Dedent,
        Token::Eof,
    ])
    .parse_program()
    .unwrap();
    assert_eq!(
        compile(&prog),
        listing(&[
            "    LOAD_BOOL 100 1",
            "    JMP_FALSE 100 else_0",
            "    LOAD_INT 100 1",
            "    INT2STR 100 100",
            "    PRINT_STR 100 0 0",
            "    JMP endif_1",
            "else_0:",
            "    LOAD_INT 100 2",
            "    INT2STR 100 100",
            "    PRINT_STR 100 0 0",
            "endif_1:",
        ])
    );
}

#[test]
fn while_loops_back_to_its_start() {
    let prog = Parser::new(vec![
        Token::Var,
        ident("c"),
        Token::Colon,
        Token::BoolType,
        Token::Assign,
        Token::False,
        Token::Semicolon,
        Token::While,
        ident("c"),
        Token::Colon,
        Token::Indent,
        ident("c"),
        Token::Assign,
        Token::False,
        Token::Semicolon,
        Token::Dedent,
        Token::Eof,
    ])
    .parse_program()
    .unwrap();
    assert_eq!(
        compile(&prog),
        listing(&[
            "    LOAD_BOOL 0 0",
            "while_start_0:",
            "    ADD_I 100 0 0",
            "    JMP_FALSE 100 while_end_1",
            "    LOAD_BOOL 0 0",
            "    JMP while_start_0",
            "while_end_1:",
        ])
    );
}

#[test]
fn functions_follow_the_top_level_code() {
    let prog = Parser::new(vec![
        Token::Def,
        ident("g"),
        Token::LParen,
        Token::RParen,
        Token::Colon,
        Token::Indent,
        Token::Print,
        Token::LParen,
        Token::IntLit(1),
        Token::RParen,
        Token::Semicolon,
        Token::Dedent,
        Token::Def,
        ident("h"),
        Token::LParen,
        Token::RParen,
        Token::Colon,
        Token::Indent,
        Token::Return,
        Token::IntLit(7),
        Token::Semicolon,
        Token::Dedent,
        ident("g"),
        Token::LParen,
        Token::RParen,
        Token::Semicolon,
        Token::Eof,
    ])
    .parse_program()
    .unwrap();
    assert_eq!(
        compile(&prog),
        listing(&[
            "    CALL func_g",
            "    ADD_I 100 0 0",
            "func_g:",
            "    LOAD_INT 100 1",
            "    INT2STR 100 100",
            "    PRINT_STR 100 0 0",
            "    RET",
            "func_h:",
            "    LOAD_INT 0 7",
            "    RET",
        ])
    );
}

#[test]
fn unknown_variable_stops_generation() {
    let r = CodeGen::new(SymbolTable::new()).generate_outcome(&program("x = 1;"));
    assert_eq!(r, Err("called `Option::unwrap()` on a `None` value".to_string()));
}

#[test]
fn function_locals_are_gone_after_checking() {
    let prog = Parser::new(vec![
        Token::Def,
        ident("f"),
        Token::LParen,
        ident("a"),
        Token::Colon,
        Token::IntType,
        Token::RParen,
        Token::Colon,
        Token::Indent,
        Token::Return,
        ident("a"),
        Token::Semicolon,
        Token::Dedent,
        Token::Eof,
    ])
    .parse_program()
    .unwrap();
    let mut t = SymbolTable::new();
    t.check_program(&prog).unwrap();
    let r = CodeGen::new(t).generate_outcome(&prog);
    assert_eq!(r, Err("called `Option::unwrap()` on a `None` value".to_string()));
}

#[test]
fn listings_keep_their_frame() {
    for src in ["", "var x: int = 1;\n", "var s: string = \"a\";\nprint(s, \"b\");\n"] {
        let text = compile(&program(src));
        assert!(text.starts_with(".data\n\nstart:"));
        assert!(text.ends_with("\n    HALT 0 0 0"));
    }
}

#[test]
fn labels_of_a_listing_are_distinct() {
    let mut toks = vec![
        Token::Var,
        ident("c"),
        Token::Colon,
        Token::BoolType,
        Token::Semicolon,
    ];
    for _ in 0..6 {
        toks.extend(vec![
            Token::While,
            ident("c"),
            Token::Colon,
            Token::Indent,
            Token::If,
            ident("c"),
            Token::Colon,
            Token::Indent,
            ident("c"),
            Token::Assign,
            Token::False,
            Token::Semicolon,
            Token::Dedent,
            Token::Dedent,
        ]);
    }
    toks.push(Token::Eof);
    let prog = Parser::new(toks).parse_program().unwrap();
    let text = compile(&prog);
    let labels: Vec<&str> = text.lines().filter(|l| l.ends_with(':')).collect();
    assert_eq!(labels.len(), 1 + 6 * 4);
    for (i, a) in labels.iter().enumerate() {
        for b in labels.iter().skip(i + 1) {
            assert_ne!(a, b);
        }
    }
    assert!(labels.contains(&"while_start_20:"));
    assert!(labels.contains(&"endif_23:"));
}
