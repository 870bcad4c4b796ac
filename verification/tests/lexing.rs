use sitplc::lexer::{Lexer, Token};

fn lex(src: &str) -> Vec<Token> {
    Lexer::new(src).tokenize()
}

fn lex_err(src: &str) -> String {
    match Lexer::new(src).tokenize_checked() {
        Ok(t) => panic!("lexed: {:?}", t),
        Err(m) => m,
    }
}

fn ident(s: &str) -> Token {
    Token::Identifier(s.to_string())
}

#[test]
fn lexes_a_declaration() {
    let toks = Lexer::new("var x: int = 5;\n").tokenize();
    assert_eq!(
        toks,
        vec![
            Token::Var,
            Token::Identifier("x".to_string()),
            Token::Colon,
            Token::IntType,
            Token::Assign,
            Token::IntLit(5),
            Token::Semicolon,
            Token::Newline,
            Token::Eof
        ]
    );
}

#[test]
fn indented_block_opens_and_closes() {
    assert_eq!(
        lex("if x:\n    print(1);\n"),
        vec![
            Token::If,
            ident("x"),
            Token::Colon,
            Token::Newline,
            Token::Indent,
            Token::Print,
            Token::LParen,
            Token::IntLit(1),
            Token::RParen,
            Token::Semicolon,
            Token::Newline,
            Token::Dedent,
            Token::Eof
        ]
    );
}

#[test]
fn two_levels_close_at_once() {
    assert_eq!(
        lex("a\n  b\n    c\nd"),
        vec![
            ident("a"),
            Token::Newline,
            Token::Indent,
            ident("b"),
            Token::Newline,
            Token::Indent,
            ident("c"),
            Token::Newline,
            Token::Dedent,
            Token::Dedent,
            ident("d"),
            Token::Eof
        ]
    );
}

#[test]
fn tab_counts_as_four_spaces() {
    assert_eq!(
        lex("a\n\tb\n    c"),
        vec![
            ident("a"),
            Token::Newline,
            Token::Indent,
            ident("b"),
            Token::Newline,
            ident("c"),
            Token::Dedent,
            Token::Eof
        ]
    );
}

#[test]
fn empty_line_keeps_levels() {
    assert_eq!(
        lex("a\n  b\n\n  c\n"),
        vec![
            ident("a"),
            Token::Newline,
            Token::Indent,
            ident("b"),
            Token::Newline,
            Token::Newline,
            ident("c"),
            Token::Newline,
            Token::Dedent,
            Token::Eof
        ]
    );
}

#[test]
fn line_of_spaces_closes_levels() {
    assert_eq!(
        lex("a\n  b\n \n  c\n"),
        vec![
            ident("a"),
            Token::Newline,
            Token::Indent,
            ident("b"),
            Token::Newline,
            Token::Dedent,
            Token::Newline,
            Token::Indent,
            ident("c"),
            Token::Newline,
            Token::Dedent,
            Token::Eof
        ]
    );
}

#[test]
fn indent_and_dedent_balance() {
    let toks = lex("a\n  b\n      c\n   d\n  e\n");
    let indents = toks.iter().filter(|t| **t == Token::Indent).count();
    let dedents = toks.iter().filter(|t| **t == Token::Dedent).count();
    assert_eq!(indents, dedents);
    assert_eq!(toks.last(), Some(&Token::Eof));
}

#[test]
fn operators_and_punctuation() {
    assert_eq!(
        lex("== != <= >= < > = ! && || + - * / ( ) { } [ ] : , ;"),
        vec![
            Token::Eq,
            Token::Ne,
            Token::Le,
            Token::Ge,
            Token::Lt,
            Token::Gt,
            Token::Assign,
            Token::Not,
            Token::And,
            Token::Or,
            Token::Plus,
            Token::Minus,
            Token::Star,
            Token::Slash,
            Token::LParen,
            Token::RParen,
            Token::LBrace,
            Token::RBrace,
            Token::LBracket,
            Token::RBracket,
            Token::Colon,
            Token::Comma,
            Token::Semicolon,
            Token::Eof
        ]
    );
}

#[test]
fn keywords_and_type_names() {
    assert_eq!(
        lex("def var if else while return print input set_output true false int float bool string char other"),
        vec![
            Token::Def,
            Token::Var,
            Token::If,
            Token::Else,
            Token::While,
            Token::Return,
            Token::Print,
            Token::Input,
            Token::SetOutput,
            Token::True,
            Token::False,
            Token::IntType,
            Token::FloatType,
            Token::BoolType,
            Token::StringType,
            Token::CharType,
            ident("other"),
            Token::Eof
        ]
    );
}

#[test]
fn identifiers_take_unicode_letters_and_digits() {
    assert_eq!(lex("café_2 x"), vec![ident("café_2"), ident("x"), Token::Eof]);
}

#[test]
fn numbers() {
    assert_eq!(
        lex("42 3.14 7."),
        vec![
            Token::IntLit(42),
            Token::FloatLit("3.14".to_string()),
            Token::FloatLit("7.".to_string()),
            Token::Eof
        ]
    );
}

#[test]
fn string_escapes() {
    assert_eq!(
        lex("\"a\\nb\\t\\\"q\\\\x\\z\""),
        vec![Token::StringLit("a\nb\t\"q\\xz".to_string()), Token::Eof]
    );
}

#[test]
fn unterminated_string_runs_to_the_end() {
    assert_eq!(lex("\"abc"), vec![Token::StringLit("abc".to_string()), Token::Eof]);
}

#[test]
fn char_literal() {
    assert_eq!(lex("'c' 'é'"), vec![Token::CharLit('c'), Token::CharLit('é'), Token::Eof]);
}

#[test]
fn unexpected_character_stops_lexing() {
    assert_eq!(lex_err("x @"), "Unexpected character: @");
}

#[test]
fn single_ampersand_and_bar_stop_lexing() {
    assert_eq!(lex_err("a & b"), "Unexpected '&'");
    assert_eq!(lex_err("a | b"), "Unexpected '|'");
}

#[test]
fn bad_char_literals_stop_lexing() {
    assert_eq!(lex_err("'ab'"), "Invalid character literal");
    assert_eq!(lex_err("'"), "called `Option::unwrap()` on a `None` value");
}

#[test]
fn bad_numbers_stop_lexing() {
    assert_eq!(
        lex_err("1.2.3"),
        "called `Result::unwrap()` on an `Err` value: ParseFloatError { kind: Invalid }"
    );
    assert_eq!(
        lex_err("99999999999999999999"),
        "called `Result::unwrap()` on an `Err` value: ParseIntError { kind: PosOverflow }"
    );
}

#[test]
fn token_debug_text_matches_debug() {
    let toks = vec![
        Token::IntLit(-7),
        Token::StringLit("a\"b\n".to_string()),
        Token::CharLit('\''),
        ident("név"),
        Token::SetOutput,
        Token::Eof,
    ];
    for t in &toks {
        assert_eq!(t.debug_text(), format!("{:?}", t));
    }
    assert_eq!(toks[1].debug_text(), "StringLit(\"a\\\"b\\n\")");
    assert_eq!(toks[2].debug_text(), "CharLit('\\'')");
    assert_eq!(Token::FloatLit("2.5".to_string()).debug_text(), "FloatLit(2.5)");
}

#[test]
fn token_copy_and_same() {
    let a = ident("x");
    let b = a.copy();
    assert!(a.same(&b));
    assert!(!a.same(&ident("y")));
    assert!(!Token::IntLit(1).same(&Token::IntLit(2)));
    assert!(Token::Dedent.same(&Token::Dedent));
}

#[test]
fn exactly_one_eof_at_the_end() {
    for src in ["", "x", "a\n  b\n    c\n", "var s: string = \"Eof\";\n"] {
        let toks = lex(src);
        assert_eq!(toks.last(), Some(&Token::Eof));
        assert_eq!(toks.iter().filter(|t| **t == Token::Eof).count(), 1);
    }
}

#[test]
fn levels_close_only_after_they_open() {
    let toks = lex("a\n  b\n    c\n  d\ne\n  f\n        g\nh\n");
    let mut open = 0i64;
    for t in &toks {
        match t {
            Token::Indent => open += 1,
            Token::Dedent => open -= 1,
            _ => {}
        }
        assert!(open >= 0);
    }
    assert_eq!(open, 0);
}
