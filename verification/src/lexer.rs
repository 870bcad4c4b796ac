//! The lexer: turns source text into tokens. Indentation at the start of a
//! line opens and closes blocks through `Indent` and `Dedent` tokens.
//!
//! Every character is read once: a number or a name starts with the
//! character that selected its scanner, and scanning goes on after it (so
//! `var` is the keyword and `42` is forty-two). Scanners that began again at
//! that first character would read it twice, and the keyword table could
//! never match.

use vstd::prelude::*;
use vstd::string::*;
use crate::text::{
    alphanumeric, ascii_letter, char_debug_text, chars_of, copy_text, debug_char, debug_str, dec_int, digit,
    digit_value, is_alphanumeric, is_ascii_letter, is_digit, is_white, owned, push_char, push_i64,
    push_str, same_chars, str_debug_text, text_eq, text_of_slice, whitespace,
};

verus! {

broadcast use vstd::string::group_string_axioms;

/// Lexical tokens. A floating-point literal is held as its decimal text.
#[derive(Debug, PartialEq, Clone)]
pub enum Token {
    // keywords
    Def, Var, If, Else, While, Return, Print, Input, SetOutput,
    True, False,
    // type names
    IntType, FloatType, BoolType, StringType, CharType,
    // literals
    IntLit(i64),
    FloatLit(String),
    StringLit(String),
    CharLit(char),
    Identifier(String),
    // operators and punctuation
    Assign, Plus, Minus, Star, Slash,
    Eq, Ne, Lt, Le, Gt, Ge,
    And, Or, Not,
    LParen, RParen, LBrace, RBrace,
    LBracket, RBracket,
    Colon, Comma, Semicolon,
    // layout
    Newline,
    Indent,
    Dedent,
    Eof,
}

/// A token with its text as a character sequence.
pub enum TokenV {
    Def, Var, If, Else, While, Return, Print, Input, SetOutput,
    True, False,
    IntType, FloatType, BoolType, StringType, CharType,
    IntLit(i64),
    FloatLit(Seq<char>),
    StringLit(Seq<char>),
    CharLit(char),
    Identifier(Seq<char>),
    Assign, Plus, Minus, Star, Slash,
    Eq, Ne, Lt, Le, Gt, Ge,
    And, Or, Not,
    LParen, RParen, LBrace, RBrace,
    LBracket, RBracket,
    Colon, Comma, Semicolon,
    Newline,
    Indent,
    Dedent,
    Eof,
}

impl View for Token {
    type V = TokenV;

    open spec fn view(&self) -> TokenV {
        match self {
            Token::Def => TokenV::Def,
            Token::Var => TokenV::Var,
            Token::If => TokenV::If,
            Token::Else => TokenV::Else,
            Token::While => TokenV::While,
            Token::Return => TokenV::Return,
            Token::Print => TokenV::Print,
            Token::Input => TokenV::Input,
            Token::SetOutput => TokenV::SetOutput,
            Token::True => TokenV::True,
            Token::False => TokenV::False,
            Token::IntType => TokenV::IntType,
            Token::FloatType => TokenV::FloatType,
            Token::BoolType => TokenV::BoolType,
            Token::StringType => TokenV::StringType,
            Token::CharType => TokenV::CharType,
            Token::IntLit(n) => TokenV::IntLit(*n),
            Token::FloatLit(t) => TokenV::FloatLit(t@),
            Token::StringLit(s) => TokenV::StringLit(s@),
            Token::CharLit(c) => TokenV::CharLit(*c),
            Token::Identifier(s) => TokenV::Identifier(s@),
            Token::Assign => TokenV::Assign,
            Token::Plus => TokenV::Plus,
            Token::Minus => TokenV::Minus,
            Token::Star => TokenV::Star,
            Token::Slash => TokenV::Slash,
            Token::Eq => TokenV::Eq,
            Token::Ne => TokenV::Ne,
            Token::Lt => TokenV::Lt,
            Token::Le => TokenV::Le,
            Token::Gt => TokenV::Gt,
            Token::Ge => TokenV::Ge,
            Token::And => TokenV::And,
            Token::Or => TokenV::Or,
            Token::Not => TokenV::Not,
            Token::LParen => TokenV::LParen,
            Token::RParen => TokenV::RParen,
            Token::LBrace => TokenV::LBrace,
            Token::RBrace => TokenV::RBrace,
            Token::LBracket => TokenV::LBracket,
            Token::RBracket => TokenV::RBracket,
            Token::Colon => TokenV::Colon,
            Token::Comma => TokenV::Comma,
            Token::Semicolon => TokenV::Semicolon,
            Token::Newline => TokenV::Newline,
            Token::Indent => TokenV::Indent,
            Token::Dedent => TokenV::Dedent,
            Token::Eof => TokenV::Eof,
        }
    }
}

/// The `Debug` text of a token: its variant's name, followed by its payload
/// in parentheses (a literal's text and a name quoted and escaped as `Debug`
/// writes them).
#[verifier::opaque]
pub open spec fn token_debug(t: TokenV) -> Seq<char> {
    match t {
        TokenV::Def => "Def"@,
        TokenV::Var => "Var"@,
        TokenV::If => "If"@,
        TokenV::Else => "Else"@,
        TokenV::While => "While"@,
        TokenV::Return => "Return"@,
        TokenV::Print => "Print"@,
        TokenV::Input => "Input"@,
        TokenV::SetOutput => "SetOutput"@,
        TokenV::True => "True"@,
        TokenV::False => "False"@,
        TokenV::IntType => "IntType"@,
        TokenV::FloatType => "FloatType"@,
        TokenV::BoolType => "BoolType"@,
        TokenV::StringType => "StringType"@,
        TokenV::CharType => "CharType"@,
        TokenV::IntLit(n) => "IntLit("@ + dec_int(n as int) + ")"@,
        TokenV::FloatLit(t) => "FloatLit("@ + t + ")"@,
        TokenV::StringLit(s) => "StringLit("@ + str_debug_text(s) + ")"@,
        TokenV::CharLit(c) => "CharLit("@ + char_debug_text(c) + ")"@,
        TokenV::Identifier(s) => "Identifier("@ + str_debug_text(s) + ")"@,
        TokenV::Assign => "Assign"@,
        TokenV::Plus => "Plus"@,
        TokenV::Minus => "Minus"@,
        TokenV::Star => "Star"@,
        TokenV::Slash => "Slash"@,
        TokenV::Eq => "Eq"@,
        TokenV::Ne => "Ne"@,
        TokenV::Lt => "Lt"@,
        TokenV::Le => "Le"@,
        TokenV::Gt => "Gt"@,
        TokenV::Ge => "Ge"@,
        TokenV::And => "And"@,
        TokenV::Or => "Or"@,
        TokenV::Not => "Not"@,
        TokenV::LParen => "LParen"@,
        TokenV::RParen => "RParen"@,
        TokenV::LBrace => "LBrace"@,
        TokenV::RBrace => "RBrace"@,
        TokenV::LBracket => "LBracket"@,
        TokenV::RBracket => "RBracket"@,
        TokenV::Colon => "Colon"@,
        TokenV::Comma => "Comma"@,
        TokenV::Semicolon => "Semicolon"@,
        TokenV::Newline => "Newline"@,
        TokenV::Indent => "Indent"@,
        TokenV::Dedent => "Dedent"@,
        TokenV::Eof => "Eof"@,
    }
}

impl Token {
    /// A copy of the token.
    pub fn copy(&self) -> (r: Token)
        ensures
            r@ == self@,
    {
        match self {
            Token::Def => Token::Def,
            Token::Var => Token::Var,
            Token::If => Token::If,
            Token::Else => Token::Else,
            Token::While => Token::While,
            Token::Return => Token::Return,
            Token::Print => Token::Print,
            Token::Input => Token::Input,
            Token::SetOutput => Token::SetOutput,
            Token::True => Token::True,
            Token::False => Token::False,
            Token::IntType => Token::IntType,
            Token::FloatType => Token::FloatType,
            Token::BoolType => Token::BoolType,
            Token::StringType => Token::StringType,
            Token::CharType => Token::CharType,
            Token::IntLit(n) => Token::IntLit(*n),
            Token::FloatLit(t) => Token::FloatLit(copy_text(t)),
            Token::StringLit(s) => Token::StringLit(copy_text(s)),
            Token::CharLit(c) => Token::CharLit(*c),
            Token::Identifier(s) => Token::Identifier(copy_text(s)),
            Token::Assign => Token::Assign,
            Token::Plus => Token::Plus,
            Token::Minus => Token::Minus,
            Token::Star => Token::Star,
            Token::Slash => Token::Slash,
            Token::Eq => Token::Eq,
            Token::Ne => Token::Ne,
            Token::Lt => Token::Lt,
            Token::Le => Token::Le,
            Token::Gt => Token::Gt,
            Token::Ge => Token::Ge,
            Token::And => Token::And,
            Token::Or => Token::Or,
            Token::Not => Token::Not,
            Token::LParen => Token::LParen,
            Token::RParen => Token::RParen,
            Token::LBrace => Token::LBrace,
            Token::RBrace => Token::RBrace,
            Token::LBracket => Token::LBracket,
            Token::RBracket => Token::RBracket,
            Token::Colon => Token::Colon,
            Token::Comma => Token::Comma,
            Token::Semicolon => Token::Semicolon,
            Token::Newline => Token::Newline,
            Token::Indent => Token::Indent,
            Token::Dedent => Token::Dedent,
            Token::Eof => Token::Eof,
        }
    }

    /// Whether two tokens are equal.
    pub fn same(&self, other: &Token) -> (r: bool)
        ensures
            r == (self@ == other@),
    {
        match (self, other) {
            (Token::IntLit(a), Token::IntLit(b)) => *a == *b,
            (Token::FloatLit(a), Token::FloatLit(b)) => text_eq(a, b),
            (Token::StringLit(a), Token::StringLit(b)) => text_eq(a, b),
            (Token::CharLit(a), Token::CharLit(b)) => *a == *b,
            (Token::Identifier(a), Token::Identifier(b)) => text_eq(a, b),
            (Token::Def, Token::Def) => true,
            (Token::Var, Token::Var) => true,
            (Token::If, Token::If) => true,
            (Token::Else, Token::Else) => true,
            (Token::While, Token::While) => true,
            (Token::Return, Token::Return) => true,
            (Token::Print, Token::Print) => true,
            (Token::Input, Token::Input) => true,
            (Token::SetOutput, Token::SetOutput) => true,
            (Token::True, Token::True) => true,
            (Token::False, Token::False) => true,
            (Token::IntType, Token::IntType) => true,
            (Token::FloatType, Token::FloatType) => true,
            (Token::BoolType, Token::BoolType) => true,
            (Token::StringType, Token::StringType) => true,
            (Token::CharType, Token::CharType) => true,
            (Token::Assign, Token::Assign) => true,
            (Token::Plus, Token::Plus) => true,
            (Token::Minus, Token::Minus) => true,
            (Token::Star, Token::Star) => true,
            (Token::Slash, Token::Slash) => true,
            (Token::Eq, Token::Eq) => true,
            (Token::Ne, Token::Ne) => true,
            (Token::Lt, Token::Lt) => true,
            (Token::Le, Token::Le) => true,
            (Token::Gt, Token::Gt) => true,
            (Token::Ge, Token::Ge) => true,
            (Token::And, Token::And) => true,
            (Token::Or, Token::Or) => true,
            (Token::Not, Token::Not) => true,
            (Token::LParen, Token::LParen) => true,
            (Token::RParen, Token::RParen) => true,
            (Token::LBrace, Token::LBrace) => true,
            (Token::RBrace, Token::RBrace) => true,
            (Token::LBracket, Token::LBracket) => true,
            (Token::RBracket, Token::RBracket) => true,
            (Token::Colon, Token::Colon) => true,
            (Token::Comma, Token::Comma) => true,
            (Token::Semicolon, Token::Semicolon) => true,
            (Token::Newline, Token::Newline) => true,
            (Token::Indent, Token::Indent) => true,
            (Token::Dedent, Token::Dedent) => true,
            (Token::Eof, Token::Eof) => true,
            _ => false,
        }
    }

    /// The `Debug` text of the token.
    pub fn debug_text(&self) -> (r: String)
        ensures
            r@ == token_debug(self@),
    {
        reveal(token_debug);
        match self {
            Token::Def => owned("Def"),
            Token::Var => owned("Var"),
            Token::If => owned("If"),
            Token::Else => owned("Else"),
            Token::While => owned("While"),
            Token::Return => owned("Return"),
            Token::Print => owned("Print"),
            Token::Input => owned("Input"),
            Token::SetOutput => owned("SetOutput"),
            Token::True => owned("True"),
            Token::False => owned("False"),
            Token::IntType => owned("IntType"),
            Token::FloatType => owned("FloatType"),
            Token::BoolType => owned("BoolType"),
            Token::StringType => owned("StringType"),
            Token::CharType => owned("CharType"),
            Token::IntLit(n) => {
                let mut s = owned("IntLit(");
                push_i64(&mut s, *n);
                push_str(&mut s, ")");
                s
            },
            Token::FloatLit(t) => {
                let mut s = owned("FloatLit(");
                push_str(&mut s, t.as_str());
                push_str(&mut s, ")");
                s
            },
            Token::StringLit(t) => {
                let mut s = owned("StringLit(");
                let d = debug_str(t.as_str());
                push_str(&mut s, d.as_str());
                push_str(&mut s, ")");
                s
            },
            Token::CharLit(c) => {
                let mut s = owned("CharLit(");
                let d = debug_char(*c);
                push_str(&mut s, d.as_str());
                push_str(&mut s, ")");
                s
            },
            Token::Identifier(t) => {
                let mut s = owned("Identifier(");
                let d = debug_str(t.as_str());
                push_str(&mut s, d.as_str());
                push_str(&mut s, ")");
                s
            },
            Token::Assign => owned("Assign"),
            Token::Plus => owned("Plus"),
            Token::Minus => owned("Minus"),
            Token::Star => owned("Star"),
            Token::Slash => owned("Slash"),
            Token::Eq => owned("Eq"),
            Token::Ne => owned("Ne"),
            Token::Lt => owned("Lt"),
            Token::Le => owned("Le"),
            Token::Gt => owned("Gt"),
            Token::Ge => owned("Ge"),
            Token::And => owned("And"),
            Token::Or => owned("Or"),
            Token::Not => owned("Not"),
            Token::LParen => owned("LParen"),
            Token::RParen => owned("RParen"),
            Token::LBrace => owned("LBrace"),
            Token::RBrace => owned("RBrace"),
            Token::LBracket => owned("LBracket"),
            Token::RBracket => owned("RBracket"),
            Token::Colon => owned("Colon"),
            Token::Comma => owned("Comma"),
            Token::Semicolon => owned("Semicolon"),
            Token::Newline => owned("Newline"),
            Token::Indent => owned("Indent"),
            Token::Dedent => owned("Dedent"),
            Token::Eof => owned("Eof"),
        }
    }
}

// ---------------------------------------------------------------------------
// What the lexer computes.
// ---------------------------------------------------------------------------

/// The outcome of scanning one token: the token and the position after it,
/// or a stop with the message that the scan panics with.
pub enum Scan {
    Tok(TokenV, int),
    Abort(Seq<char>),
}

/// The outcome of lexing a whole text: the tokens, or a stop with the message
/// that lexing panics with.
pub enum LexOutcome {
    Tokens(Seq<TokenV>),
    Abort(Seq<char>),
}

pub open spec fn tokens_view(v: Seq<Token>) -> Seq<TokenV> {
    v.map_values(|t: Token| t@)
}

/// The message of a failed `unwrap` of a float parse (two dots in a number).
pub open spec fn float_parse_panic() -> Seq<char> {
    "called `Result::unwrap()` on an `Err` value: ParseFloatError { kind: Invalid }"@
}

/// The message of a failed `unwrap` of an integer parse (a value above `i64::MAX`).
pub open spec fn int_parse_panic() -> Seq<char> {
    "called `Result::unwrap()` on an `Err` value: ParseIntError { kind: PosOverflow }"@
}

/// The message of an `unwrap` of `None`.
pub open spec fn unwrap_none_panic() -> Seq<char> {
    "called `Option::unwrap()` on a `None` value"@
}

/// The end of the run of digits and dots that starts at `i`.
pub open spec fn number_end(cs: Seq<char>, i: int) -> int
    decreases cs.len() - i,
{
    if 0 <= i < cs.len() && (is_digit(cs[i]) || cs[i] == '.') {
        number_end(cs, i + 1)
    } else {
        i
    }
}

/// The end of the run of identifier characters (alphanumeric or `_`) that starts at `i`.
pub open spec fn ident_end(cs: Seq<char>, i: int) -> int
    decreases cs.len() - i,
{
    if 0 <= i < cs.len() && (alphanumeric(cs[i]) || cs[i] == '_') {
        ident_end(cs, i + 1)
    } else {
        i
    }
}

/// How many times `c` occurs in `s`.
pub open spec fn count_of(s: Seq<char>, c: char) -> nat
    decreases s.len(),
{
    if s.len() == 0 {
        0
    } else {
        count_of(s.drop_last(), c) + if s.last() == c {
            1nat
        } else {
            0nat
        }
    }
}

/// The value of a decimal numeral.
pub open spec fn decimal_value(s: Seq<char>) -> nat
    decreases s.len(),
{
    if s.len() == 0 {
        0
    } else {
        decimal_value(s.drop_last()) * 10 + digit_value(s.last())
    }
}

/// A number: digits and dots. With a dot it is a floating-point literal (one
/// dot at most); without, an integer literal (at most `i64::MAX`).
pub open spec fn number_scan(cs: Seq<char>, pos: int) -> Scan {
    let end = number_end(cs, pos + 1);
    let text = cs.subrange(pos, end);
    if count_of(text, '.') > 0 {
        if count_of(text, '.') > 1 {
            Scan::Abort(float_parse_panic())
        } else {
            Scan::Tok(TokenV::FloatLit(text), end)
        }
    } else if decimal_value(text) > i64::MAX {
        Scan::Abort(int_parse_panic())
    } else {
        Scan::Tok(TokenV::IntLit(decimal_value(text) as i64), end)
    }
}

/// A keyword or type name, else an identifier.
pub open spec fn keyword_token(w: Seq<char>) -> TokenV {
    if w == "def"@ {
        TokenV::Def
    } else if w == "var"@ {
        TokenV::Var
    } else if w == "if"@ {
        TokenV::If
    } else if w == "else"@ {
        TokenV::Else
    } else if w == "while"@ {
        TokenV::While
    } else if w == "return"@ {
        TokenV::Return
    } else if w == "print"@ {
        TokenV::Print
    } else if w == "input"@ {
        TokenV::Input
    } else if w == "set_output"@ {
        TokenV::SetOutput
    } else if w == "true"@ {
        TokenV::True
    } else if w == "false"@ {
        TokenV::False
    } else if w == "int"@ {
        TokenV::IntType
    } else if w == "float"@ {
        TokenV::FloatType
    } else if w == "bool"@ {
        TokenV::BoolType
    } else if w == "string"@ {
        TokenV::StringType
    } else if w == "char"@ {
        TokenV::CharType
    } else {
        TokenV::Identifier(w)
    }
}

/// The character that an escape `\c` in a string literal stands for.
pub open spec fn unescape(c: char) -> char {
    if c == 'n' {
        '\n'
    } else if c == 't' {
        '\t'
    } else {
        c
    }
}

/// The body of a string literal from `i` (just after the opening quote) up
/// to the closing quote or the end of the text, with escapes resolved, and
/// the position after it.
pub open spec fn string_scan(cs: Seq<char>, i: int, acc: Seq<char>) -> (Seq<char>, int)
    decreases cs.len() - i,
{
    if i < 0 || i >= cs.len() {
        (acc, i)
    } else if cs[i] == '"' {
        (acc, i + 1)
    } else if cs[i] == '\\' {
        if i + 1 < cs.len() {
            string_scan(cs, i + 2, acc.push(unescape(cs[i + 1])))
        } else {
            (acc, i + 1)
        }
    } else {
        string_scan(cs, i + 1, acc.push(cs[i]))
    }
}

/// A character literal whose character is at `i` (just after the opening quote).
pub open spec fn char_scan(cs: Seq<char>, i: int) -> Scan {
    if i >= cs.len() {
        Scan::Abort(unwrap_none_panic())
    } else if i + 1 < cs.len() && cs[i + 1] == '\'' {
        Scan::Tok(TokenV::CharLit(cs[i]), i + 2)
    } else {
        Scan::Abort("Invalid character literal"@)
    }
}

/// An operator of one character, or of two when the second is `next`.
pub open spec fn pair_scan(cs: Seq<char>, pos: int, next: char, two: TokenV, one: TokenV) -> Scan {
    if pos + 1 < cs.len() && cs[pos + 1] == next {
        Scan::Tok(two, pos + 2)
    } else {
        Scan::Tok(one, pos + 1)
    }
}

/// The token that starts at `pos`, which holds neither a newline nor white space.
pub open spec fn token_scan(cs: Seq<char>, pos: int) -> Scan {
    let ch = cs[pos];
    if is_digit(ch) {
        number_scan(cs, pos)
    } else if is_ascii_letter(ch) || ch == '_' {
        let end = ident_end(cs, pos + 1);
        Scan::Tok(keyword_token(cs.subrange(pos, end)), end)
    } else if ch == '"' {
        let (s, end) = string_scan(cs, pos + 1, Seq::empty());
        Scan::Tok(TokenV::StringLit(s), end)
    } else if ch == '\'' {
        char_scan(cs, pos + 1)
    } else if ch == '=' {
        pair_scan(cs, pos, '=', TokenV::Eq, TokenV::Assign)
    } else if ch == '!' {
        pair_scan(cs, pos, '=', TokenV::Ne, TokenV::Not)
    } else if ch == '<' {
        pair_scan(cs, pos, '=', TokenV::Le, TokenV::Lt)
    } else if ch == '>' {
        pair_scan(cs, pos, '=', TokenV::Ge, TokenV::Gt)
    } else if ch == '&' {
        if pos + 1 < cs.len() && cs[pos + 1] == '&' {
            Scan::Tok(TokenV::And, pos + 2)
        } else {
            Scan::Abort("Unexpected '&'"@)
        }
    } else if ch == '|' {
        if pos + 1 < cs.len() && cs[pos + 1] == '|' {
            Scan::Tok(TokenV::Or, pos + 2)
        } else {
            Scan::Abort("Unexpected '|'"@)
        }
    } else if ch == '+' {
        Scan::Tok(TokenV::Plus, pos + 1)
    } else if ch == '-' {
        Scan::Tok(TokenV::Minus, pos + 1)
    } else if ch == '*' {
        Scan::Tok(TokenV::Star, pos + 1)
    } else if ch == '/' {
        Scan::Tok(TokenV::Slash, pos + 1)
    } else if ch == '(' {
        Scan::Tok(TokenV::LParen, pos + 1)
    } else if ch == ')' {
        Scan::Tok(TokenV::RParen, pos + 1)
    } else if ch == '{' {
        Scan::Tok(TokenV::LBrace, pos + 1)
    } else if ch == '}' {
        Scan::Tok(TokenV::RBrace, pos + 1)
    } else if ch == '[' {
        Scan::Tok(TokenV::LBracket, pos + 1)
    } else if ch == ']' {
        Scan::Tok(TokenV::RBracket, pos + 1)
    } else if ch == ':' {
        Scan::Tok(TokenV::Colon, pos + 1)
    } else if ch == ',' {
        Scan::Tok(TokenV::Comma, pos + 1)
    } else if ch == ';' {
        Scan::Tok(TokenV::Semicolon, pos + 1)
    } else {
        Scan::Abort("Unexpected character: "@.push(ch))
    }
}

/// The spaces and tabs that start at `i`: where they end, and their width
/// (a tab counts four).
pub open spec fn indent_scan(cs: Seq<char>, i: int) -> (int, nat)
    decreases cs.len() - i,
{
    if 0 <= i < cs.len() && cs[i] == ' ' {
        let (e, w) = indent_scan(cs, i + 1);
        (e, w + 1)
    } else if 0 <= i < cs.len() && cs[i] == '\t' {
        let (e, w) = indent_scan(cs, i + 1);
        (e, w + 4)
    } else {
        (i, 0)
    }
}

/// How many open indentation levels are deeper than `width`.
pub open spec fn dedent_count(stack: Seq<usize>, width: nat) -> nat
    decreases stack.len(),
{
    if stack.len() > 0 && width < stack.last() {
        dedent_count(stack.drop_last(), width) + 1
    } else {
        0
    }
}

pub open spec fn repeat_token(t: TokenV, n: nat) -> Seq<TokenV> {
    Seq::new(n, |i: int| t)
}

/// The levels after a line indented by `width`, and the tokens that the
/// indentation yields: one `Indent` when it is deeper than the innermost
/// level, else one `Dedent` for each level deeper than it.
pub open spec fn indent_step(stack: Seq<usize>, width: nat) -> (Seq<usize>, Seq<TokenV>) {
    if width > stack.last() {
        (stack.push(width as usize), seq![TokenV::Indent])
    } else {
        let k = dedent_count(stack, width);
        (stack.take(stack.len() - k), repeat_token(TokenV::Dedent, k))
    }
}

pub proof fn lemma_number_end(cs: Seq<char>, i: int)
    requires
        0 <= i <= cs.len(),
    ensures
        i <= number_end(cs, i) <= cs.len(),
        forall|j: int| i <= j < number_end(cs, i) ==> is_digit(#[trigger] cs[j]) || cs[j] == '.',
        number_end(cs, i) < cs.len() ==> !(is_digit(cs[number_end(cs, i)]) || cs[number_end(
            cs,
            i,
        )] == '.'),
    decreases cs.len() - i,
{
    if i < cs.len() && (is_digit(cs[i]) || cs[i] == '.') {
        lemma_number_end(cs, i + 1);
    }
}

pub proof fn lemma_ident_end(cs: Seq<char>, i: int)
    requires
        0 <= i <= cs.len(),
    ensures
        i <= ident_end(cs, i) <= cs.len(),
        ident_end(cs, i) < cs.len() ==> !(alphanumeric(cs[ident_end(cs, i)]) || cs[ident_end(
            cs,
            i,
        )] == '_'),
    decreases cs.len() - i,
{
    if i < cs.len() && (alphanumeric(cs[i]) || cs[i] == '_') {
        lemma_ident_end(cs, i + 1);
    }
}

pub proof fn lemma_string_scan(cs: Seq<char>, i: int, acc: Seq<char>)
    requires
        0 <= i <= cs.len(),
    ensures
        i <= string_scan(cs, i, acc).1 <= cs.len(),
        i < cs.len() ==> i < string_scan(cs, i, acc).1,
    decreases cs.len() - i,
{
    if i < cs.len() && cs[i] != '"' {
        if cs[i] == '\\' {
            if i + 1 < cs.len() {
                lemma_string_scan(cs, i + 2, acc.push(unescape(cs[i + 1])));
            }
        } else {
            lemma_string_scan(cs, i + 1, acc.push(cs[i]));
        }
    }
}

pub proof fn lemma_indent_scan(cs: Seq<char>, i: int)
    requires
        0 <= i <= cs.len(),
    ensures
        i <= indent_scan(cs, i).0 <= cs.len(),
        indent_scan(cs, i).1 <= 4 * (indent_scan(cs, i).0 - i),
    decreases cs.len() - i,
{
    if i < cs.len() && (cs[i] == ' ' || cs[i] == '\t') {
        lemma_indent_scan(cs, i + 1);
    }
}

/// A scanned token ends after it starts and within the text.
pub proof fn lemma_scan_token(cs: Seq<char>, pos: int)
    requires
        0 <= pos < cs.len(),
    ensures
        token_scan(cs, pos) matches Scan::Tok(_, e) ==> pos < e <= cs.len(),
{
    lemma_number_end(cs, pos + 1);
    lemma_ident_end(cs, pos + 1);
    lemma_string_scan(cs, pos + 1, Seq::empty());
}

/// The tokens of the text from `pos` on, given the open indentation levels,
/// the tokens so far and whether `pos` starts a line.
pub open spec fn lex_from(
    cs: Seq<char>,
    pos: int,
    stack: Seq<usize>,
    toks: Seq<TokenV>,
    line_start: bool,
) -> LexOutcome
    decreases cs.len() - pos, if line_start {
        1int
    } else {
        0int
    },
{
    if pos < 0 || pos >= cs.len() {
        LexOutcome::Tokens(
            toks + repeat_token(TokenV::Dedent, (stack.len() - 1) as nat) + seq![TokenV::Eof],
        )
    } else if cs[pos] == '\n' {
        lex_from(cs, pos + 1, stack, toks.push(TokenV::Newline), true)
    } else if line_start {
        let (end, width) = indent_scan(cs, pos);
        let (stack2, new_toks) = indent_step(stack, width);
        proof {
            lemma_indent_scan(cs, pos);
        }
        lex_from(cs, end, stack2, toks + new_toks, false)
    } else if is_white(cs[pos]) {
        lex_from(cs, pos + 1, stack, toks, false)
    } else {
        proof {
            lemma_scan_token(cs, pos);
        }
        match token_scan(cs, pos) {
            Scan::Tok(t, end) => lex_from(cs, end, stack, toks.push(t), false),
            Scan::Abort(m) => LexOutcome::Abort(m),
        }
    }
}

/// The tokens of a source text: its tokens, where each line's indentation
/// becomes `Indent` and `Dedent` tokens and every line break a `Newline`,
/// followed by a `Dedent` for each level still open and a final `Eof`; or the
/// message that lexing stops with.
pub open spec fn lex(cs: Seq<char>) -> LexOutcome {
    lex_from(cs, 0, seq![0usize], Seq::empty(), true)
}

/// The open indentation levels start at zero and strictly increase.
pub open spec fn levels_ok(stack: Seq<usize>) -> bool {
    &&& stack.len() > 0
    &&& stack[0] == 0
    &&& forall|i: int, j: int| 0 <= i < j < stack.len() ==> stack[i] < stack[j]
}

// ---------------------------------------------------------------------------
// The lexer.
// ---------------------------------------------------------------------------

/// Whether an executable scan result is the scan outcome `s`.
pub open spec fn scan_is(s: Scan, r: Result<(Token, usize), String>) -> bool {
    match s {
        Scan::Tok(t, e) => r matches Ok(p) && p.0@ == t && p.1 == e,
        Scan::Abort(m) => r matches Err(msg) && msg@ == m,
    }
}

/// The characters `cs[from..to]` as a `String`.
fn sub_text(cs: &Vec<char>, from: usize, to: usize) -> (r: String)
    requires
        from <= to <= cs.len(),
    ensures
        r@ == cs@.subrange(from as int, to as int),
{
    let mut r = String::new();
    let mut i = from;
    while i < to
        invariant
            from <= i <= to <= cs.len(),
            r@ == cs@.subrange(from as int, i as int),
        decreases to - i,
    {
        push_char(&mut r, cs[i]);
        i += 1;
        assert(r@ == cs@.subrange(from as int, i as int));
    }
    r
}

/// The characters `cs[from..to]`.
fn sub_chars(cs: &Vec<char>, from: usize, to: usize) -> (r: Vec<char>)
    requires
        from <= to <= cs.len(),
    ensures
        r@ == cs@.subrange(from as int, to as int),
{
    let mut r: Vec<char> = Vec::new();
    let mut i = from;
    while i < to
        invariant
            from <= i <= to <= cs.len(),
            r@ == cs@.subrange(from as int, i as int),
        decreases to - i,
    {
        r.push(cs[i]);
        i += 1;
        assert(r@ == cs@.subrange(from as int, i as int));
    }
    r
}

fn scan_number(cs: &Vec<char>, pos: usize) -> (r: Result<(Token, usize), String>)
    requires
        pos < cs.len(),
        is_digit(cs@[pos as int]),
    ensures
        scan_is(number_scan(cs@, pos as int), r),
{
    let mut end = pos + 1;
    let mut dots: usize = 0;
    proof {
        assert(cs@.subrange(pos as int, end as int).drop_last() == cs@.subrange(
            pos as int,
            pos as int,
        ));
        assert(cs@.subrange(pos as int, pos as int).len() == 0);
        assert(cs@.subrange(pos as int, end as int).last() == cs@[pos as int]);
        assert(count_of(cs@.subrange(pos as int, pos as int), '.') == 0);
        assert(cs@[pos as int] != '.');
        assert(count_of(cs@.subrange(pos as int, end as int), '.') == 0);
    }
    while end < cs.len() && (digit(cs[end]) || cs[end] == '.')
        invariant
            pos < end <= cs.len(),
            number_end(cs@, end as int) == number_end(cs@, pos + 1),
            dots == count_of(cs@.subrange(pos as int, end as int), '.'),
            dots <= end,
        decreases cs.len() - end,
    {
        assert(cs@.subrange(pos as int, end + 1).drop_last() == cs@.subrange(
            pos as int,
            end as int,
        ));
        if cs[end] == '.' {
            dots += 1;
        }
        end += 1;
    }
    let ghost text = cs@.subrange(pos as int, end as int);
    proof {
        lemma_number_end(cs@, pos + 1);
    }
    if dots > 0 {
        if dots > 1 {
            return Err(owned(
                "called `Result::unwrap()` on an `Err` value: ParseFloatError { kind: Invalid }",
            ));
        }
        return Ok((Token::FloatLit(sub_text(cs, pos, end)), end));
    }
    // an integer numeral: its value, unless it exceeds i64::MAX
    let mut v: i64 = 0;
    let mut i = pos;
    let mut overflow = false;
    while i < end
        invariant
            pos <= i <= end <= cs.len(),
            forall|j: int| pos <= j < end ==> is_digit(#[trigger] cs@[j]) || cs@[j] == '.',
            count_of(cs@.subrange(pos as int, end as int), '.') == 0,
            !overflow ==> v == decimal_value(cs@.subrange(pos as int, i as int)),
            overflow ==> decimal_value(cs@.subrange(pos as int, i as int)) > i64::MAX,
            v >= 0,
        decreases end - i,
    {
        let ghost prev = cs@.subrange(pos as int, i as int);
        assert(cs@.subrange(pos as int, i + 1).drop_last() == prev);
        assert(cs@[i as int] != '.') by {
            lemma_count_zero(cs@.subrange(pos as int, end as int), '.', i - pos);
        }
        let d = ((cs[i] as u32) - 48) as i64;
        if !overflow {
            if v > (i64::MAX - d) / 10 {
                overflow = true;
            } else {
                v = v * 10 + d;
            }
        }
        i += 1;
    }
    if overflow {
        return Err(owned(
            "called `Result::unwrap()` on an `Err` value: ParseIntError { kind: PosOverflow }",
        ));
    }
    Ok((Token::IntLit(v), end))
}

/// A text without `c` holds no `c` at any index.
pub proof fn lemma_count_zero(s: Seq<char>, c: char, k: int)
    requires
        count_of(s, c) == 0,
        0 <= k < s.len(),
    ensures
        s[k] != c,
    decreases s.len(),
{
    if k < s.len() - 1 {
        lemma_count_zero(s.drop_last(), c, k);
    }
}

fn keyword(w: &Vec<char>) -> (t: Token)
    ensures
        t@ == keyword_token(w@),
{
    let w = w.as_slice();
    if same_chars(w, "def") {
        Token::Def
    } else if same_chars(w, "var") {
        Token::Var
    } else if same_chars(w, "if") {
        Token::If
    } else if same_chars(w, "else") {
        Token::Else
    } else if same_chars(w, "while") {
        Token::While
    } else if same_chars(w, "return") {
        Token::Return
    } else if same_chars(w, "print") {
        Token::Print
    } else if same_chars(w, "input") {
        Token::Input
    } else if same_chars(w, "set_output") {
        Token::SetOutput
    } else if same_chars(w, "true") {
        Token::True
    } else if same_chars(w, "false") {
        Token::False
    } else if same_chars(w, "int") {
        Token::IntType
    } else if same_chars(w, "float") {
        Token::FloatType
    } else if same_chars(w, "bool") {
        Token::BoolType
    } else if same_chars(w, "string") {
        Token::StringType
    } else if same_chars(w, "char") {
        Token::CharType
    } else {
        Token::Identifier(text_of_slice(w))
    }
}

fn scan_identifier(cs: &Vec<char>, pos: usize) -> (r: (Token, usize))
    requires
        pos < cs.len(),
    ensures
        r.1 == ident_end(cs@, pos + 1),
        r.0@ == keyword_token(cs@.subrange(pos as int, r.1 as int)),
{
    let mut end = pos + 1;
    while end < cs.len() && (is_alphanumeric(cs[end]) || cs[end] == '_')
        invariant
            pos < end <= cs.len(),
            ident_end(cs@, end as int) == ident_end(cs@, pos + 1),
        decreases cs.len() - end,
    {
        end += 1;
    }
    let w = sub_chars(cs, pos, end);
    (keyword(&w), end)
}

fn scan_string(cs: &Vec<char>, start: usize) -> (r: (String, usize))
    requires
        start <= cs.len(),
    ensures
        string_scan(cs@, start as int, Seq::empty()) == (r.0@, r.1 as int),
{
    let mut s = String::new();
    let mut i = start;
    loop
        invariant
            start <= i <= cs.len(),
            string_scan(cs@, i as int, s@) == string_scan(cs@, start as int, Seq::empty()),
        decreases cs.len() - i,
    {
        if i >= cs.len() {
            return (s, i);
        }
        let c = cs[i];
        if c == '"' {
            return (s, i + 1);
        }
        if c == '\\' {
            if i + 1 < cs.len() {
                let n = cs[i + 1];
                let e = if n == 'n' {
                    '\n'
                } else if n == 't' {
                    '\t'
                } else {
                    n
                };
                push_char(&mut s, e);
                i += 2;
            } else {
                return (s, i + 1);
            }
        } else {
            push_char(&mut s, c);
            i += 1;
        }
    }
}

fn scan_char(cs: &Vec<char>, i: usize) -> (r: Result<(Token, usize), String>)
    requires
        i <= cs.len(),
    ensures
        scan_is(char_scan(cs@, i as int), r),
{
    if i >= cs.len() {
        return Err(owned("called `Option::unwrap()` on a `None` value"));
    }
    if i + 1 < cs.len() && cs[i + 1] == '\'' {
        Ok((Token::CharLit(cs[i]), i + 2))
    } else {
        Err(owned("Invalid character literal"))
    }
}

fn scan_token(cs: &Vec<char>, pos: usize) -> (r: Result<(Token, usize), String>)
    requires
        pos < cs.len(),
    ensures
        scan_is(token_scan(cs@, pos as int), r),
{
    let ch = cs[pos];
    let two = pos + 1 < cs.len();
    if digit(ch) {
        scan_number(cs, pos)
    } else if ascii_letter(ch) || ch == '_' {
        Ok(scan_identifier(cs, pos))
    } else if ch == '"' {
        let (s, end) = scan_string(cs, pos + 1);
        Ok((Token::StringLit(s), end))
    } else if ch == '\'' {
        scan_char(cs, pos + 1)
    } else if ch == '=' {
        if two && cs[pos + 1] == '=' {
            Ok((Token::Eq, pos + 2))
        } else {
            Ok((Token::Assign, pos + 1))
        }
    } else if ch == '!' {
        if two && cs[pos + 1] == '=' {
            Ok((Token::Ne, pos + 2))
        } else {
            Ok((Token::Not, pos + 1))
        }
    } else if ch == '<' {
        if two && cs[pos + 1] == '=' {
            Ok((Token::Le, pos + 2))
        } else {
            Ok((Token::Lt, pos + 1))
        }
    } else if ch == '>' {
        if two && cs[pos + 1] == '=' {
            Ok((Token::Ge, pos + 2))
        } else {
            Ok((Token::Gt, pos + 1))
        }
    } else if ch == '&' {
        if two && cs[pos + 1] == '&' {
            Ok((Token::And, pos + 2))
        } else {
            Err(owned("Unexpected '&'"))
        }
    } else if ch == '|' {
        if two && cs[pos + 1] == '|' {
            Ok((Token::Or, pos + 2))
        } else {
            Err(owned("Unexpected '|'"))
        }
    } else if ch == '+' {
        Ok((Token::Plus, pos + 1))
    } else if ch == '-' {
        Ok((Token::Minus, pos + 1))
    } else if ch == '*' {
        Ok((Token::Star, pos + 1))
    } else if ch == '/' {
        Ok((Token::Slash, pos + 1))
    } else if ch == '(' {
        Ok((Token::LParen, pos + 1))
    } else if ch == ')' {
        Ok((Token::RParen, pos + 1))
    } else if ch == '{' {
        Ok((Token::LBrace, pos + 1))
    } else if ch == '}' {
        Ok((Token::RBrace, pos + 1))
    } else if ch == '[' {
        Ok((Token::LBracket, pos + 1))
    } else if ch == ']' {
        Ok((Token::RBracket, pos + 1))
    } else if ch == ':' {
        Ok((Token::Colon, pos + 1))
    } else if ch == ',' {
        Ok((Token::Comma, pos + 1))
    } else if ch == ';' {
        Ok((Token::Semicolon, pos + 1))
    } else {
        let mut m = owned("Unexpected character: ");
        push_char(&mut m, ch);
        Err(m)
    }
}

/// The lexer's state over a source text.
pub struct Lexer {
    chars: Vec<char>,
    pos: usize,
    indent_stack: Vec<usize>,
    tokens: Vec<Token>,
    line_start: bool,
}

impl Lexer {
    /// The source text.
    pub closed spec fn source(&self) -> Seq<char> {
        self.chars@
    }

    /// A lexer that has not started: at the start of the first line, with
    /// one indentation level of width zero and no tokens yet.
    pub closed spec fn wf(&self) -> bool {
        &&& self.pos == 0
        &&& self.indent_stack@ == seq![0usize]
        &&& self.tokens@.len() == 0
        &&& self.line_start
    }

    /// A lexer over `source`.
    pub fn new(source: &str) -> (r: Self)
        ensures
            r.wf(),
            r.source() == source@,
    {
        let mut stack: Vec<usize> = Vec::new();
        stack.push(0);
        Lexer {
            chars: chars_of(source),
            pos: 0,
            indent_stack: stack,
            tokens: Vec::new(),
            line_start: true,
        }
    }

    /// Emits the layout tokens of a line indented by `spaces`.
    fn handle_indent(&mut self, spaces: usize)
        requires
            levels_ok(old(self).indent_stack@),
        ensures
            final(self).chars@ == old(self).chars@,
            final(self).pos == old(self).pos,
            final(self).line_start == old(self).line_start,
            final(self).tokens@.len() >= old(self).tokens@.len(),
            indent_step(old(self).indent_stack@, spaces as nat) == (
                final(self).indent_stack@,
                tokens_view(final(self).tokens@).skip(old(self).tokens@.len() as int),
            ),
            tokens_view(final(self).tokens@).take(old(self).tokens@.len() as int) == tokens_view(
                old(self).tokens@,
            ),
            levels_ok(final(self).indent_stack@),
    {
        let ghost old_stack = self.indent_stack@;
        let ghost old_toks = tokens_view(self.tokens@);
        let ghost n0 = self.tokens@.len();
        let current = self.indent_stack[self.indent_stack.len() - 1];
        if spaces > current {
            self.indent_stack.push(spaces);
            self.tokens.push(Token::Indent);
            assert(tokens_view(self.tokens@).skip(n0 as int) == seq![TokenV::Indent]);
            assert(tokens_view(self.tokens@).take(n0 as int) == old_toks);
        } else {
            let ghost total = dedent_count(old_stack, spaces as nat);
            let mut k: usize = 0;
            assert(old_stack.len() == self.indent_stack.len());
            assert(tokens_view(self.tokens@).skip(n0 as int) =~= repeat_token(TokenV::Dedent, 0));
            while spaces < self.indent_stack[self.indent_stack.len() - 1]
                invariant
                    self.chars@ == old(self).chars@,
                    self.pos == old(self).pos,
                    self.line_start == old(self).line_start,
                    levels_ok(self.indent_stack@),
                    self.indent_stack@ == old_stack.take(old_stack.len() - k),
                    k <= old_stack.len(),
                    old_stack.len() <= usize::MAX,
                    dedent_count(self.indent_stack@, spaces as nat) + k == total,
                    self.tokens@.len() == n0 + k,
                    tokens_view(self.tokens@).take(n0 as int) == old_toks,
                    tokens_view(self.tokens@).skip(n0 as int) == repeat_token(TokenV::Dedent, k as nat),
                decreases self.indent_stack@.len(),
            {
                let ghost before = tokens_view(self.tokens@);
                let ghost st = self.indent_stack@;
                assert(self.indent_stack@.len() > 1) by {
                    if self.indent_stack@.len() == 1 {
                        assert(self.indent_stack@[0] == 0);
                    }
                }
                self.indent_stack.pop();
                self.tokens.push(Token::Dedent);
                k += 1;
                assert(self.indent_stack@ == old_stack.take(old_stack.len() - k));
                assert(tokens_view(self.tokens@) =~= before.push(TokenV::Dedent));
                assert(tokens_view(self.tokens@).take(n0 as int) =~= old_toks);
                assert(tokens_view(self.tokens@).skip(n0 as int) =~= before.skip(n0 as int).push(TokenV::Dedent));
                assert(tokens_view(self.tokens@).skip(n0 as int) =~= repeat_token(TokenV::Dedent, k as nat));
                assert(st.drop_last() == self.indent_stack@);
            }
        }
    }

    /// The tokens of the source, or the message that lexing stops with where
    /// it panics (see `lex`).
    pub fn tokenize_checked(self) -> (r: Result<Vec<Token>, String>)
        requires
            self.wf(),
            self.source().len() <= usize::MAX / 4,
        ensures
            match lex(self.source()) {
                LexOutcome::Tokens(ts) => r matches Ok(v) && tokens_view(v@) == ts,
                LexOutcome::Abort(m) => r matches Err(e) && e@ == m,
            },
    {
        let mut lx = self;
        let ghost cs = lx.chars@;
        assert(tokens_view(lx.tokens@) == Seq::<TokenV>::empty());
        while lx.pos < lx.chars.len()
            invariant
                lx.chars@ == cs,
                self.source() == cs,
                cs.len() <= usize::MAX / 4,
                lx.pos <= cs.len(),
                levels_ok(lx.indent_stack@),
                lex_from(cs, lx.pos as int, lx.indent_stack@, tokens_view(lx.tokens@), lx.line_start)
                    == lex(cs),
            decreases cs.len() - lx.pos, if lx.line_start {
                1int
            } else {
                0int
            },
        {
            let ch = lx.chars[lx.pos];
            let ghost toks0 = tokens_view(lx.tokens@);
            if ch == '\n' {
                lx.pos += 1;
                lx.line_start = true;
                lx.tokens.push(Token::Newline);
                assert(tokens_view(lx.tokens@) == toks0.push(TokenV::Newline));
                continue;
            }
            if lx.line_start {
                let start = lx.pos;
                let mut p = start;
                let mut spaces: usize = 0;
                proof {
                    lemma_indent_scan(cs, start as int);
                }
                while p < lx.chars.len() && (lx.chars[p] == ' ' || lx.chars[p] == '\t')
                    invariant
                        lx.chars@ == cs,
                        cs.len() <= usize::MAX / 4,
                        start <= p <= cs.len(),
                        indent_scan(cs, p as int).0 == indent_scan(cs, start as int).0,
                        indent_scan(cs, p as int).1 + spaces == indent_scan(cs, start as int).1,
                        spaces <= 4 * (p - start),
                    decreases cs.len() - p,
                {
                    if lx.chars[p] == ' ' {
                        spaces += 1;
                    } else {
                        spaces += 4;
                    }
                    p += 1;
                }
                lx.pos = p;
                lx.handle_indent(spaces);
                lx.line_start = false;
                proof {
                    let n0 = toks0.len();
                    let t = tokens_view(lx.tokens@);
                    assert(t =~= t.take(n0 as int) + t.skip(n0 as int));
                    assert(t == toks0 + t.skip(n0 as int));
                }
                continue;
            }
            if whitespace(ch) {
                lx.pos += 1;
                continue;
            }
            proof {
                lemma_scan_token(cs, lx.pos as int);
            }
            match scan_token(&lx.chars, lx.pos) {
                Ok((tok, end)) => {
                    lx.tokens.push(tok);
                    lx.pos = end;
                    assert(tokens_view(lx.tokens@) == toks0.push(tok@));
                },
                Err(m) => {
                    assert(lex_from(cs, lx.pos as int, lx.indent_stack@, toks0, lx.line_start)
                        == LexOutcome::Abort(m@));
                    return Err(m);
                },
            }
        }
        let ghost toks1 = tokens_view(lx.tokens@);
        let ghost n1 = lx.tokens@.len();
        let ghost k = (lx.indent_stack@.len() - 1) as nat;
        while lx.indent_stack.len() > 1
            invariant
                lx.indent_stack@.len() >= 1,
                lx.tokens@.len() == n1 + (k - (lx.indent_stack@.len() - 1)),
                lx.indent_stack@.len() - 1 <= k,
                tokens_view(lx.tokens@) == toks1 + repeat_token(
                    TokenV::Dedent,
                    (k - (lx.indent_stack@.len() - 1)) as nat,
                ),
            decreases lx.indent_stack@.len(),
        {
            let ghost before = tokens_view(lx.tokens@);
            lx.indent_stack.pop();
            lx.tokens.push(Token::Dedent);
            assert(tokens_view(lx.tokens@) == before.push(TokenV::Dedent));
            assert(tokens_view(lx.tokens@) == toks1 + repeat_token(
                TokenV::Dedent,
                (k - (lx.indent_stack@.len() - 1)) as nat,
            ));
        }
        let ghost before = tokens_view(lx.tokens@);
        lx.tokens.push(Token::Eof);
        assert(tokens_view(lx.tokens@) == before.push(TokenV::Eof));
        assert(tokens_view(lx.tokens@) == toks1 + repeat_token(TokenV::Dedent, k) + seq![TokenV::Eof]);
        Ok(lx.tokens)
    }

    /// The tokens of the source (see `lex`), for a source on which lexing
    /// does not panic.
    pub fn tokenize(self) -> (r: Vec<Token>)
        requires
            self.wf(),
            self.source().len() <= usize::MAX / 4,
            lex(self.source()) is Tokens,
        ensures
            lex(self.source()) == LexOutcome::Tokens(tokens_view(r@)),
    {
        match self.tokenize_checked() {
            Ok(v) => v,
            Err(_) => {
                assert(false);
                Vec::new()
            },
        }
    }
}

// ---------------------------------------------------------------------------
// Laws.
// ---------------------------------------------------------------------------

/// How many times `t` occurs in `ts`.
pub open spec fn count_tok(ts: Seq<TokenV>, t: TokenV) -> nat
    decreases ts.len(),
{
    if ts.len() == 0 {
        0
    } else {
        count_tok(ts.drop_last(), t) + if ts.last() == t {
            1nat
        } else {
            0nat
        }
    }
}

proof fn lemma_count_concat(a: Seq<TokenV>, b: Seq<TokenV>, t: TokenV)
    ensures
        count_tok(a + b, t) == count_tok(a, t) + count_tok(b, t),
    decreases b.len(),
{
    if b.len() == 0 {
        assert(a + b =~= a);
    } else {
        lemma_count_concat(a, b.drop_last(), t);
        assert((a + b).drop_last() =~= a + b.drop_last());
    }
}

proof fn lemma_count_repeat(u: TokenV, k: nat, t: TokenV)
    ensures
        count_tok(repeat_token(u, k), t) == if u == t {
            k
        } else {
            0
        },
    decreases k,
{
    if k > 0 {
        lemma_count_repeat(u, (k - 1) as nat, t);
        assert(repeat_token(u, k).drop_last() =~= repeat_token(u, (k - 1) as nat));
    }
}

proof fn lemma_dedent_count(stack: Seq<usize>, width: nat)
    requires
        levels_ok(stack),
    ensures
        dedent_count(stack, width) < stack.len(),
        levels_ok(stack.take(stack.len() - dedent_count(stack, width))),
    decreases stack.len(),
{
    if stack.len() > 0 && width < stack.last() {
        assert(stack.len() > 1) by {
            if stack.len() == 1 {
                assert(stack.last() == stack[0]);
            }
        }
        let d = stack.drop_last();
        assert(levels_ok(d));
        lemma_dedent_count(d, width);
        assert(d.take(d.len() - dedent_count(d, width)) =~= stack.take(
            stack.len() - dedent_count(stack, width),
        ));
    } else {
        assert(stack.take(stack.len() - 0) =~= stack);
    }
}

/// Lexing from a state whose open levels match the `Indent` tokens not yet
/// closed ends, when it succeeds, with every level closed and an `Eof`.
proof fn lemma_lex_from_balanced(
    cs: Seq<char>,
    pos: int,
    stack: Seq<usize>,
    toks: Seq<TokenV>,
    line_start: bool,
)
    requires
        levels_ok(stack),
        count_tok(toks, TokenV::Indent) + 1 == count_tok(toks, TokenV::Dedent) + stack.len(),
        4 * cs.len() <= usize::MAX,
        0 <= pos,
    ensures
        lex_from(cs, pos, stack, toks, line_start) matches LexOutcome::Tokens(ts) ==> {
            &&& count_tok(ts, TokenV::Indent) == count_tok(ts, TokenV::Dedent)
            &&& ts.len() > 0
            &&& ts.last() == TokenV::Eof
        },
    decreases cs.len() - pos, if line_start {
        1int
    } else {
        0int
    },
{
    if pos < 0 || pos >= cs.len() {
        let k = (stack.len() - 1) as nat;
        let ds = repeat_token(TokenV::Dedent, k);
        lemma_count_concat(toks, ds, TokenV::Indent);
        lemma_count_concat(toks, ds, TokenV::Dedent);
        lemma_count_concat(toks + ds, seq![TokenV::Eof], TokenV::Indent);
        lemma_count_concat(toks + ds, seq![TokenV::Eof], TokenV::Dedent);
        lemma_count_repeat(TokenV::Dedent, k, TokenV::Indent);
        lemma_count_repeat(TokenV::Dedent, k, TokenV::Dedent);
        let e = seq![TokenV::Eof];
        assert(e.drop_last() =~= Seq::<TokenV>::empty());
        assert(count_tok(Seq::<TokenV>::empty(), TokenV::Indent) == 0);
        assert(count_tok(Seq::<TokenV>::empty(), TokenV::Dedent) == 0);
        assert(e.last() == TokenV::Eof);
        assert(count_tok(e, TokenV::Indent) == 0);
        assert(count_tok(e, TokenV::Dedent) == 0);
        let ts = toks + ds + e;
        assert(ts.len() == toks.len() + k + 1);
        assert(ts.last() == TokenV::Eof);
    } else if cs[pos] == '\n' {
        assert(toks.push(TokenV::Newline).drop_last() == toks);
        lemma_lex_from_balanced(cs, pos + 1, stack, toks.push(TokenV::Newline), true);
    } else if line_start {
        let (end, width) = indent_scan(cs, pos);
        let (stack2, new_toks) = indent_step(stack, width);
        lemma_indent_scan(cs, pos);
        lemma_count_concat(toks, new_toks, TokenV::Indent);
        lemma_count_concat(toks, new_toks, TokenV::Dedent);
        if width > stack.last() {
            assert(seq![TokenV::Indent].drop_last() =~= Seq::<TokenV>::empty());
            assert(count_tok(Seq::<TokenV>::empty(), TokenV::Indent) == 0);
            assert(count_tok(Seq::<TokenV>::empty(), TokenV::Dedent) == 0);
            assert(count_tok(new_toks, TokenV::Indent) == 1);
            assert(count_tok(new_toks, TokenV::Dedent) == 0);
            assert(levels_ok(stack2)) by {
                assert(width <= usize::MAX);
                assert forall|i: int, j: int| 0 <= i < j < stack2.len() implies stack2[i] < stack2[j] by {
                    if j < stack.len() {
                        assert(stack2[i] == stack[i] && stack2[j] == stack[j]);
                    } else {
                        assert(stack2[j] == width);
                        assert(stack2[i] == stack[i]);
                        if i < stack.len() - 1 {
                            assert(stack[i] < stack[stack.len() - 1]);
                        }
                    }
                }
            }
        } else {
            let k = dedent_count(stack, width);
            lemma_dedent_count(stack, width);
            lemma_count_repeat(TokenV::Dedent, k, TokenV::Indent);
            lemma_count_repeat(TokenV::Dedent, k, TokenV::Dedent);
        }
        lemma_lex_from_balanced(cs, end, stack2, toks + new_toks, false);
    } else if is_white(cs[pos]) {
        lemma_lex_from_balanced(cs, pos + 1, stack, toks, false);
    } else {
        lemma_scan_token(cs, pos);
        match token_scan(cs, pos) {
            Scan::Tok(t, end) => {
                assert(toks.push(t).drop_last() == toks);
                assert(t != TokenV::Indent && t != TokenV::Dedent) by {
                    lemma_scanned_not_layout(cs, pos);
                }
                lemma_lex_from_balanced(cs, end, stack, toks.push(t), false);
            },
            Scan::Abort(_) => {},
        }
    }
}

/// A scanned token is never a layout token.
proof fn lemma_scanned_not_layout(cs: Seq<char>, pos: int)
    requires
        0 <= pos < cs.len(),
    ensures
        token_scan(cs, pos) matches Scan::Tok(t, _) ==> t != TokenV::Indent && t != TokenV::Dedent
            && t != TokenV::Newline && t != TokenV::Eof,
{
}

/// Indentation is balanced: the tokens of any source that lexes hold as many
/// `Dedent` tokens as `Indent` tokens, and end with `Eof`.
pub proof fn law_layout_balanced(cs: Seq<char>)
    requires
        4 * cs.len() <= usize::MAX,
    ensures
        lex(cs) matches LexOutcome::Tokens(ts) ==> {
            &&& count_tok(ts, TokenV::Indent) == count_tok(ts, TokenV::Dedent)
            &&& ts.len() > 0
            &&& ts.last() == TokenV::Eof
        },
{
    lemma_lex_from_balanced(cs, 0, seq![0usize], Seq::empty(), true);
}

/// Lexing from a state with no `Eof` yet ends, when it succeeds, with
/// exactly one `Eof`.
proof fn lemma_lex_from_one_eof(
    cs: Seq<char>,
    pos: int,
    stack: Seq<usize>,
    toks: Seq<TokenV>,
    line_start: bool,
)
    requires
        count_tok(toks, TokenV::Eof) == 0,
        0 <= pos,
    ensures
        lex_from(cs, pos, stack, toks, line_start) matches LexOutcome::Tokens(ts) ==> count_tok(
            ts,
            TokenV::Eof,
        ) == 1,
    decreases cs.len() - pos, if line_start {
        1int
    } else {
        0int
    },
{
    if pos >= cs.len() {
        let k = (stack.len() - 1) as nat;
        let ds = repeat_token(TokenV::Dedent, k);
        let e = seq![TokenV::Eof];
        lemma_count_concat(toks, ds, TokenV::Eof);
        lemma_count_concat(toks + ds, e, TokenV::Eof);
        lemma_count_repeat(TokenV::Dedent, k, TokenV::Eof);
        assert(e.drop_last() =~= Seq::<TokenV>::empty());
        assert(count_tok(Seq::<TokenV>::empty(), TokenV::Eof) == 0);
        assert(count_tok(e, TokenV::Eof) == 1);
    } else if cs[pos] == '\n' {
        assert(toks.push(TokenV::Newline).drop_last() == toks);
        lemma_lex_from_one_eof(cs, pos + 1, stack, toks.push(TokenV::Newline), true);
    } else if line_start {
        let (end, width) = indent_scan(cs, pos);
        let (stack2, new_toks) = indent_step(stack, width);
        lemma_indent_scan(cs, pos);
        lemma_count_concat(toks, new_toks, TokenV::Eof);
        if width > stack.last() {
            assert(seq![TokenV::Indent].drop_last() =~= Seq::<TokenV>::empty());
            assert(count_tok(Seq::<TokenV>::empty(), TokenV::Eof) == 0);
            assert(count_tok(new_toks, TokenV::Eof) == 0);
        } else {
            lemma_count_repeat(TokenV::Dedent, dedent_count(stack, width), TokenV::Eof);
        }
        lemma_lex_from_one_eof(cs, end, stack2, toks + new_toks, false);
    } else if is_white(cs[pos]) {
        lemma_lex_from_one_eof(cs, pos + 1, stack, toks, false);
    } else {
        lemma_scan_token(cs, pos);
        match token_scan(cs, pos) {
            Scan::Tok(t, end) => {
                assert(toks.push(t).drop_last() == toks);
                lemma_scanned_not_layout(cs, pos);
                lemma_lex_from_one_eof(cs, end, stack, toks.push(t), false);
            },
            Scan::Abort(_) => {},
        }
    }
}

proof fn lemma_count_zero_absent(ts: Seq<TokenV>, t: TokenV, i: int)
    requires
        count_tok(ts, t) == 0,
        0 <= i < ts.len(),
    ensures
        ts[i] != t,
    decreases ts.len(),
{
    if i < ts.len() - 1 {
        lemma_count_zero_absent(ts.drop_last(), t, i);
    }
}

/// The tokens of any source that lexes end with the one and only `Eof`.
pub proof fn law_single_eof(cs: Seq<char>, i: int)
    requires
        0 <= i,
    ensures
        lex(cs) matches LexOutcome::Tokens(ts) ==> {
            &&& ts.len() > 0
            &&& ts.last() == TokenV::Eof
            &&& (i < ts.len() - 1 ==> ts[i] != TokenV::Eof)
        },
{
    lemma_lex_from_one_eof(cs, 0, seq![0usize], Seq::empty(), true);
    if let LexOutcome::Tokens(ts) = lex(cs) {
        lemma_lex_from_last_eof(cs, 0, seq![0usize], Seq::empty(), true);
        if i < ts.len() - 1 {
            assert(count_tok(ts.drop_last(), TokenV::Eof) == 0);
            lemma_count_zero_absent(ts.drop_last(), TokenV::Eof, i);
        }
    }
}

/// Lexing that succeeds ends with an `Eof`.
proof fn lemma_lex_from_last_eof(
    cs: Seq<char>,
    pos: int,
    stack: Seq<usize>,
    toks: Seq<TokenV>,
    line_start: bool,
)
    requires
        0 <= pos,
    ensures
        lex_from(cs, pos, stack, toks, line_start) matches LexOutcome::Tokens(ts) ==> ts.len() > 0
            && ts.last() == TokenV::Eof,
    decreases cs.len() - pos, if line_start {
        1int
    } else {
        0int
    },
{
    if pos >= cs.len() {
    } else if cs[pos] == '\n' {
        lemma_lex_from_last_eof(cs, pos + 1, stack, toks.push(TokenV::Newline), true);
    } else if line_start {
        let (end, width) = indent_scan(cs, pos);
        let (stack2, new_toks) = indent_step(stack, width);
        lemma_indent_scan(cs, pos);
        lemma_lex_from_last_eof(cs, end, stack2, toks + new_toks, false);
    } else if is_white(cs[pos]) {
        lemma_lex_from_last_eof(cs, pos + 1, stack, toks, false);
    } else {
        lemma_scan_token(cs, pos);
        match token_scan(cs, pos) {
            Scan::Tok(t, end) => {
                lemma_lex_from_last_eof(cs, end, stack, toks.push(t), false);
            },
            Scan::Abort(_) => {},
        }
    }
}

/// In every prefix of the tokens there are at least as many `Indent` tokens
/// as `Dedent` tokens: levels close only after they open.
pub open spec fn prefix_balanced(ts: Seq<TokenV>) -> bool {
    forall|k: int|
        0 <= k <= ts.len() ==> count_tok(#[trigger] ts.take(k), TokenV::Dedent) <= count_tok(
            ts.take(k),
            TokenV::Indent,
        )
}

proof fn lemma_prefix_push(a: Seq<TokenV>, t: TokenV)
    requires
        prefix_balanced(a),
        t == TokenV::Dedent ==> count_tok(a, TokenV::Dedent) < count_tok(a, TokenV::Indent),
    ensures
        prefix_balanced(a.push(t)),
{
    let b = a.push(t);
    assert forall|k: int| 0 <= k <= b.len() implies count_tok(#[trigger] b.take(k), TokenV::Dedent)
        <= count_tok(b.take(k), TokenV::Indent) by {
        if k <= a.len() {
            assert(b.take(k) =~= a.take(k));
        } else {
            assert(b.take(k) =~= b);
            assert(b.drop_last() =~= a);
            assert(a.take(a.len() as int) =~= a);
        }
    }
}

proof fn lemma_prefix_dedents(a: Seq<TokenV>, k: nat)
    requires
        prefix_balanced(a),
        count_tok(a, TokenV::Dedent) + k <= count_tok(a, TokenV::Indent),
    ensures
        prefix_balanced(a + repeat_token(TokenV::Dedent, k)),
    decreases k,
{
    if k > 0 {
        let k1 = (k - 1) as nat;
        lemma_prefix_dedents(a, k1);
        let a1 = a + repeat_token(TokenV::Dedent, k1);
        lemma_count_concat(a, repeat_token(TokenV::Dedent, k1), TokenV::Dedent);
        lemma_count_concat(a, repeat_token(TokenV::Dedent, k1), TokenV::Indent);
        lemma_count_repeat(TokenV::Dedent, k1, TokenV::Dedent);
        lemma_count_repeat(TokenV::Dedent, k1, TokenV::Indent);
        lemma_prefix_push(a1, TokenV::Dedent);
        assert(a1.push(TokenV::Dedent) =~= a + repeat_token(TokenV::Dedent, k));
    }
}

proof fn lemma_lex_from_prefix(
    cs: Seq<char>,
    pos: int,
    stack: Seq<usize>,
    toks: Seq<TokenV>,
    line_start: bool,
)
    requires
        levels_ok(stack),
        count_tok(toks, TokenV::Indent) + 1 == count_tok(toks, TokenV::Dedent) + stack.len(),
        prefix_balanced(toks),
        4 * cs.len() <= usize::MAX,
        0 <= pos,
    ensures
        lex_from(cs, pos, stack, toks, line_start) matches LexOutcome::Tokens(ts) ==> prefix_balanced(
            ts,
        ),
    decreases cs.len() - pos, if line_start {
        1int
    } else {
        0int
    },
{
    if pos >= cs.len() {
        let k = (stack.len() - 1) as nat;
        lemma_prefix_dedents(toks, k);
        lemma_prefix_push(toks + repeat_token(TokenV::Dedent, k), TokenV::Eof);
        assert((toks + repeat_token(TokenV::Dedent, k)).push(TokenV::Eof) =~= toks + repeat_token(
            TokenV::Dedent,
            k,
        ) + seq![TokenV::Eof]);
    } else if cs[pos] == '\n' {
        assert(toks.push(TokenV::Newline).drop_last() == toks);
        lemma_prefix_push(toks, TokenV::Newline);
        lemma_lex_from_prefix(cs, pos + 1, stack, toks.push(TokenV::Newline), true);
    } else if line_start {
        let (end, width) = indent_scan(cs, pos);
        let (stack2, new_toks) = indent_step(stack, width);
        lemma_indent_scan(cs, pos);
        lemma_count_concat(toks, new_toks, TokenV::Indent);
        lemma_count_concat(toks, new_toks, TokenV::Dedent);
        if width > stack.last() {
            assert(seq![TokenV::Indent].drop_last() =~= Seq::<TokenV>::empty());
            assert(count_tok(Seq::<TokenV>::empty(), TokenV::Indent) == 0);
            assert(count_tok(Seq::<TokenV>::empty(), TokenV::Dedent) == 0);
            assert(count_tok(new_toks, TokenV::Indent) == 1);
            assert(count_tok(new_toks, TokenV::Dedent) == 0);
            assert(width <= usize::MAX);
            assert(levels_ok(stack2)) by {
                assert forall|i: int, j: int| 0 <= i < j < stack2.len() implies stack2[i] < stack2[j] by {
                    if j < stack.len() {
                        assert(stack2[i] == stack[i] && stack2[j] == stack[j]);
                    } else {
                        assert(stack2[i] == stack[i]);
                        if i < stack.len() - 1 {
                            assert(stack[i] < stack[stack.len() - 1]);
                        }
                    }
                }
            }
            lemma_prefix_push(toks, TokenV::Indent);
            assert(toks.push(TokenV::Indent) =~= toks + new_toks);
        } else {
            let k = dedent_count(stack, width);
            lemma_dedent_count(stack, width);
            lemma_count_repeat(TokenV::Dedent, k, TokenV::Indent);
            lemma_count_repeat(TokenV::Dedent, k, TokenV::Dedent);
            lemma_prefix_dedents(toks, k);
        }
        lemma_lex_from_prefix(cs, end, stack2, toks + new_toks, false);
    } else if is_white(cs[pos]) {
        lemma_lex_from_prefix(cs, pos + 1, stack, toks, false);
    } else {
        lemma_scan_token(cs, pos);
        match token_scan(cs, pos) {
            Scan::Tok(t, end) => {
                assert(toks.push(t).drop_last() == toks);
                lemma_scanned_not_layout(cs, pos);
                lemma_prefix_push(toks, t);
                lemma_lex_from_prefix(cs, end, stack, toks.push(t), false);
            },
            Scan::Abort(_) => {},
        }
    }
}

/// Indentation levels close only after they open: in every prefix of the
/// tokens of a source that lexes there are at least as many `Indent` tokens
/// as `Dedent` tokens (and, by `law_layout_balanced`, as many in all).
pub proof fn law_layout_prefix_balanced(cs: Seq<char>)
    requires
        4 * cs.len() <= usize::MAX,
    ensures
        lex(cs) matches LexOutcome::Tokens(ts) ==> prefix_balanced(ts),
{
    let e = Seq::<TokenV>::empty();
    assert forall|k: int| 0 <= k <= e.len() implies count_tok(#[trigger] e.take(k), TokenV::Dedent)
        <= count_tok(e.take(k), TokenV::Indent) by {
        assert(e.take(k) =~= e);
    }
    lemma_lex_from_prefix(cs, 0, seq![0usize], e, true);
}

proof fn lemma_ident_run(cs: Seq<char>, i: int, k: int)
    requires
        0 <= i <= k < ident_end(cs, i),
    ensures
        alphanumeric(cs[k]) || cs[k] == '_',
    decreases cs.len() - i,
{
    if i < k {
        lemma_ident_run(cs, i + 1, k);
    }
}

proof fn lemma_underscore_word(w: Seq<char>)
    requires
        w.len() > 0,
        w[0] == '_',
    ensures
        keyword_token(w) == TokenV::Identifier(w),
{
    reveal_strlit("def");
    reveal_strlit("var");
    reveal_strlit("if");
    reveal_strlit("else");
    reveal_strlit("while");
    reveal_strlit("return");
    reveal_strlit("print");
    reveal_strlit("input");
    reveal_strlit("set_output");
    reveal_strlit("true");
    reveal_strlit("false");
    reveal_strlit("int");
    reveal_strlit("float");
    reveal_strlit("bool");
    reveal_strlit("string");
    reveal_strlit("char");
    assert(w != "def"@) by {
        if w == "def"@ {
            assert(w[0] == "def"@[0]);
        }
    }
    assert(w != "var"@) by {
        if w == "var"@ {
            assert(w[0] == "var"@[0]);
        }
    }
    assert(w != "if"@) by {
        if w == "if"@ {
            assert(w[0] == "if"@[0]);
        }
    }
    assert(w != "else"@) by {
        if w == "else"@ {
            assert(w[0] == "else"@[0]);
        }
    }
    assert(w != "while"@) by {
        if w == "while"@ {
            assert(w[0] == "while"@[0]);
        }
    }
    assert(w != "return"@) by {
        if w == "return"@ {
            assert(w[0] == "return"@[0]);
        }
    }
    assert(w != "print"@) by {
        if w == "print"@ {
            assert(w[0] == "print"@[0]);
        }
    }
    assert(w != "input"@) by {
        if w == "input"@ {
            assert(w[0] == "input"@[0]);
        }
    }
    assert(w != "set_output"@) by {
        if w == "set_output"@ {
            assert(w[0] == "set_output"@[0]);
        }
    }
    assert(w != "true"@) by {
        if w == "true"@ {
            assert(w[0] == "true"@[0]);
        }
    }
    assert(w != "false"@) by {
        if w == "false"@ {
            assert(w[0] == "false"@[0]);
        }
    }
    assert(w != "int"@) by {
        if w == "int"@ {
            assert(w[0] == "int"@[0]);
        }
    }
    assert(w != "float"@) by {
        if w == "float"@ {
            assert(w[0] == "float"@[0]);
        }
    }
    assert(w != "bool"@) by {
        if w == "bool"@ {
            assert(w[0] == "bool"@[0]);
        }
    }
    assert(w != "string"@) by {
        if w == "string"@ {
            assert(w[0] == "string"@[0]);
        }
    }
    assert(w != "char"@) by {
        if w == "char"@ {
            assert(w[0] == "char"@[0]);
        }
    }
}

/// Names: at an ASCII letter or `_` the scanner reads the longest run of
/// alphanumeric characters and `_` that starts there and never stops; a run
/// that starts with `_` (which no keyword does) is always an identifier
/// holding the whole run.
pub proof fn law_name_scan(cs: Seq<char>, pos: int)
    requires
        0 <= pos < cs.len(),
        ('a' <= cs[pos] <= 'z') || ('A' <= cs[pos] <= 'Z') || cs[pos] == '_',
    ensures
        token_scan(cs, pos) matches Scan::Tok(t, e) && {
            &&& pos < e <= cs.len()
            &&& forall|k: int| pos < k < e ==> alphanumeric(#[trigger] cs[k]) || cs[k] == '_'
            &&& e < cs.len() ==> !(alphanumeric(cs[e]) || cs[e] == '_')
            &&& cs[pos] == '_' ==> t == TokenV::Identifier(cs.subrange(pos, e))
        },
{
    let c = cs[pos];
    assert(!is_digit(c));
    lemma_ident_end(cs, pos + 1);
    let e = ident_end(cs, pos + 1);
    assert forall|k: int| pos < k < e implies alphanumeric(#[trigger] cs[k]) || cs[k] == '_' by {
        lemma_ident_run(cs, pos + 1, k);
    }
    if c == '_' {
        lemma_underscore_word(cs.subrange(pos, e));
    }
}

/// Operators and punctuation: each of `+ - * / ( ) { } [ ] : , ;` is its
/// one-character token; `=`, `!`, `<`, `>` followed by `=` are `==`, `!=`,
/// `<=`, `>=` and otherwise `=`, `!`, `<`, `>`; `&&` and `||` are the logical
/// operators, and a lone `&` or `|` stops lexing.
pub proof fn law_operator_scan(cs: Seq<char>, pos: int)
    requires
        0 <= pos < cs.len(),
    ensures
        cs[pos] == '+' ==> token_scan(cs, pos) == Scan::Tok(TokenV::Plus, pos + 1),
        cs[pos] == '-' ==> token_scan(cs, pos) == Scan::Tok(TokenV::Minus, pos + 1),
        cs[pos] == '*' ==> token_scan(cs, pos) == Scan::Tok(TokenV::Star, pos + 1),
        cs[pos] == '/' ==> token_scan(cs, pos) == Scan::Tok(TokenV::Slash, pos + 1),
        cs[pos] == '(' ==> token_scan(cs, pos) == Scan::Tok(TokenV::LParen, pos + 1),
        cs[pos] == ')' ==> token_scan(cs, pos) == Scan::Tok(TokenV::RParen, pos + 1),
        cs[pos] == '{' ==> token_scan(cs, pos) == Scan::Tok(TokenV::LBrace, pos + 1),
        cs[pos] == '}' ==> token_scan(cs, pos) == Scan::Tok(TokenV::RBrace, pos + 1),
        cs[pos] == '[' ==> token_scan(cs, pos) == Scan::Tok(TokenV::LBracket, pos + 1),
        cs[pos] == ']' ==> token_scan(cs, pos) == Scan::Tok(TokenV::RBracket, pos + 1),
        cs[pos] == ':' ==> token_scan(cs, pos) == Scan::Tok(TokenV::Colon, pos + 1),
        cs[pos] == ',' ==> token_scan(cs, pos) == Scan::Tok(TokenV::Comma, pos + 1),
        cs[pos] == ';' ==> token_scan(cs, pos) == Scan::Tok(TokenV::Semicolon, pos + 1),
        ({
            let next = if pos + 1 < cs.len() {
                Some(cs[pos + 1])
            } else {
                None::<char>
            };
            &&& cs[pos] == '=' ==> token_scan(cs, pos) == if next == Some('=') {
                Scan::Tok(TokenV::Eq, pos + 2)
            } else {
                Scan::Tok(TokenV::Assign, pos + 1)
            }
            &&& cs[pos] == '!' ==> token_scan(cs, pos) == if next == Some('=') {
                Scan::Tok(TokenV::Ne, pos + 2)
            } else {
                Scan::Tok(TokenV::Not, pos + 1)
            }
            &&& cs[pos] == '<' ==> token_scan(cs, pos) == if next == Some('=') {
                Scan::Tok(TokenV::Le, pos + 2)
            } else {
                Scan::Tok(TokenV::Lt, pos + 1)
            }
            &&& cs[pos] == '>' ==> token_scan(cs, pos) == if next == Some('=') {
                Scan::Tok(TokenV::Ge, pos + 2)
            } else {
                Scan::Tok(TokenV::Gt, pos + 1)
            }
            &&& cs[pos] == '&' ==> token_scan(cs, pos) == if next == Some('&') {
                Scan::Tok(TokenV::And, pos + 2)
            } else {
                Scan::Abort("Unexpected '&'"@)
            }
            &&& cs[pos] == '|' ==> token_scan(cs, pos) == if next == Some('|') {
                Scan::Tok(TokenV::Or, pos + 2)
            } else {
                Scan::Abort("Unexpected '|'"@)
            }
        }),
{
}

/// The keywords: each of `def var if else while return print input
/// set_output true false` and the type names `int float bool string char`
/// is its own token, and every other word is an identifier holding it.
pub proof fn law_keywords(w: Seq<char>)
    ensures
        w == "def"@ ==> keyword_token(w) == TokenV::Def,
        w == "var"@ ==> keyword_token(w) == TokenV::Var,
        w == "if"@ ==> keyword_token(w) == TokenV::If,
        w == "else"@ ==> keyword_token(w) == TokenV::Else,
        w == "while"@ ==> keyword_token(w) == TokenV::While,
        w == "return"@ ==> keyword_token(w) == TokenV::Return,
        w == "print"@ ==> keyword_token(w) == TokenV::Print,
        w == "input"@ ==> keyword_token(w) == TokenV::Input,
        w == "set_output"@ ==> keyword_token(w) == TokenV::SetOutput,
        w == "true"@ ==> keyword_token(w) == TokenV::True,
        w == "false"@ ==> keyword_token(w) == TokenV::False,
        w == "int"@ ==> keyword_token(w) == TokenV::IntType,
        w == "float"@ ==> keyword_token(w) == TokenV::FloatType,
        w == "bool"@ ==> keyword_token(w) == TokenV::BoolType,
        w == "string"@ ==> keyword_token(w) == TokenV::StringType,
        w == "char"@ ==> keyword_token(w) == TokenV::CharType,
        w != "def"@ && w != "var"@ && w != "if"@ && w != "else"@ && w != "while"@ && w != "return"@ && w != "print"@ && w != "input"@ && w != "set_output"@ && w != "true"@ && w != "false"@ && w != "int"@ && w != "float"@ && w != "bool"@ && w != "string"@ && w != "char"@ ==> keyword_token(w) == TokenV::Identifier(w),
{
    reveal_strlit("def");
    reveal_strlit("var");
    reveal_strlit("if");
    reveal_strlit("else");
    reveal_strlit("while");
    reveal_strlit("return");
    reveal_strlit("print");
    reveal_strlit("input");
    reveal_strlit("set_output");
    reveal_strlit("true");
    reveal_strlit("false");
    reveal_strlit("int");
    reveal_strlit("float");
    reveal_strlit("bool");
    reveal_strlit("string");
    reveal_strlit("char");
    assert("var"@[0] != "def"@[0]);
    assert("if"@.len() != "def"@.len());
    assert("if"@.len() != "var"@.len());
    assert("else"@.len() != "def"@.len());
    assert("else"@.len() != "var"@.len());
    assert("else"@.len() != "if"@.len());
    assert("while"@.len() != "def"@.len());
    assert("while"@.len() != "var"@.len());
    assert("while"@.len() != "if"@.len());
    assert("while"@.len() != "else"@.len());
    assert("return"@.len() != "def"@.len());
    assert("return"@.len() != "var"@.len());
    assert("return"@.len() != "if"@.len());
    assert("return"@.len() != "else"@.len());
    assert("return"@.len() != "while"@.len());
    assert("print"@.len() != "def"@.len());
    assert("print"@.len() != "var"@.len());
    assert("print"@.len() != "if"@.len());
    assert("print"@.len() != "else"@.len());
    assert("print"@[0] != "while"@[0]);
    assert("print"@.len() != "return"@.len());
    assert("input"@.len() != "def"@.len());
    assert("input"@.len() != "var"@.len());
    assert("input"@.len() != "if"@.len());
    assert("input"@.len() != "else"@.len());
    assert("input"@[0] != "while"@[0]);
    assert("input"@.len() != "return"@.len());
    assert("input"@[0] != "print"@[0]);
    assert("set_output"@.len() != "def"@.len());
    assert("set_output"@.len() != "var"@.len());
    assert("set_output"@.len() != "if"@.len());
    assert("set_output"@.len() != "else"@.len());
    assert("set_output"@.len() != "while"@.len());
    assert("set_output"@.len() != "return"@.len());
    assert("set_output"@.len() != "print"@.len());
    assert("set_output"@.len() != "input"@.len());
    assert("true"@.len() != "def"@.len());
    assert("true"@.len() != "var"@.len());
    assert("true"@.len() != "if"@.len());
    assert("true"@[0] != "else"@[0]);
    assert("true"@.len() != "while"@.len());
    assert("true"@.len() != "return"@.len());
    assert("true"@.len() != "print"@.len());
    assert("true"@.len() != "input"@.len());
    assert("true"@.len() != "set_output"@.len());
    assert("false"@.len() != "def"@.len());
    assert("false"@.len() != "var"@.len());
    assert("false"@.len() != "if"@.len());
    assert("false"@.len() != "else"@.len());
    assert("false"@[0] != "while"@[0]);
    assert("false"@.len() != "return"@.len());
    assert("false"@[0] != "print"@[0]);
    assert("false"@[0] != "input"@[0]);
    assert("false"@.len() != "set_output"@.len());
    assert("false"@.len() != "true"@.len());
    assert("int"@[0] != "def"@[0]);
    assert("int"@[0] != "var"@[0]);
    assert("int"@.len() != "if"@.len());
    assert("int"@.len() != "else"@.len());
    assert("int"@.len() != "while"@.len());
    assert("int"@.len() != "return"@.len());
    assert("int"@.len() != "print"@.len());
    assert("int"@.len() != "input"@.len());
    assert("int"@.len() != "set_output"@.len());
    assert("int"@.len() != "true"@.len());
    assert("int"@.len() != "false"@.len());
    assert("float"@.len() != "def"@.len());
    assert("float"@.len() != "var"@.len());
    assert("float"@.len() != "if"@.len());
    assert("float"@.len() != "else"@.len());
    assert("float"@[0] != "while"@[0]);
    assert("float"@.len() != "return"@.len());
    assert("float"@[0] != "print"@[0]);
    assert("float"@[0] != "input"@[0]);
    assert("float"@.len() != "set_output"@.len());
    assert("float"@.len() != "true"@.len());
    assert("float"@[1] != "false"@[1]);
    assert("float"@.len() != "int"@.len());
    assert("bool"@.len() != "def"@.len());
    assert("bool"@.len() != "var"@.len());
    assert("bool"@.len() != "if"@.len());
    assert("bool"@[0] != "else"@[0]);
    assert("bool"@.len() != "while"@.len());
    assert("bool"@.len() != "return"@.len());
    assert("bool"@.len() != "print"@.len());
    assert("bool"@.len() != "input"@.len());
    assert("bool"@.len() != "set_output"@.len());
    assert("bool"@[0] != "true"@[0]);
    assert("bool"@.len() != "false"@.len());
    assert("bool"@.len() != "int"@.len());
    assert("bool"@.len() != "float"@.len());
    assert("string"@.len() != "def"@.len());
    assert("string"@.len() != "var"@.len());
    assert("string"@.len() != "if"@.len());
    assert("string"@.len() != "else"@.len());
    assert("string"@.len() != "while"@.len());
    assert("string"@[0] != "return"@[0]);
    assert("string"@.len() != "print"@.len());
    assert("string"@.len() != "input"@.len());
    assert("string"@.len() != "set_output"@.len());
    assert("string"@.len() != "true"@.len());
    assert("string"@.len() != "false"@.len());
    assert("string"@.len() != "int"@.len());
    assert("string"@.len() != "float"@.len());
    assert("string"@.len() != "bool"@.len());
    assert("char"@.len() != "def"@.len());
    assert("char"@.len() != "var"@.len());
    assert("char"@.len() != "if"@.len());
    assert("char"@[0] != "else"@[0]);
    assert("char"@.len() != "while"@.len());
    assert("char"@.len() != "return"@.len());
    assert("char"@.len() != "print"@.len());
    assert("char"@.len() != "input"@.len());
    assert("char"@.len() != "set_output"@.len());
    assert("char"@[0] != "true"@[0]);
    assert("char"@.len() != "false"@.len());
    assert("char"@.len() != "int"@.len());
    assert("char"@.len() != "float"@.len());
    assert("char"@[0] != "bool"@[0]);
    assert("char"@.len() != "string"@.len());
}

proof fn lemma_plain_string(cs: Seq<char>, i: int, e: int, acc: Seq<char>)
    requires
        0 <= i <= e < cs.len(),
        cs[e] == '"',
        forall|k: int| i <= k < e ==> cs[k] != '"' && cs[k] != '\\',
    ensures
        string_scan(cs, i, acc) == (acc + cs.subrange(i, e), e + 1),
    decreases e - i,
{
    if i < e {
        lemma_plain_string(cs, i + 1, e, acc.push(cs[i]));
        assert(acc.push(cs[i]) + cs.subrange(i + 1, e) =~= acc + cs.subrange(i, e));
    } else {
        assert(acc + cs.subrange(i, e) =~= acc);
    }
}

/// Literals: a string literal without quotes or backslashes inside is its
/// text; a backslash escape inside quotes is a newline for `n`, a tab for
/// `t`, and the character itself otherwise; `'x'` is the character `x`.
pub proof fn law_literal_scan(cs: Seq<char>, pos: int, e: int)
    requires
        0 <= pos < cs.len(),
    ensures
        cs[pos] == '"' && pos < e < cs.len() && cs[e] == '"' && (forall|k: int|
            pos < k < e ==> cs[k] != '"' && cs[k] != '\\') ==> token_scan(cs, pos) == Scan::Tok(
            TokenV::StringLit(cs.subrange(pos + 1, e)),
            e + 1,
        ),
        cs[pos] == '"' && pos + 3 < cs.len() && cs[pos + 1] == '\\' && cs[pos + 3] == '"' ==> token_scan(
            cs,
            pos,
        ) == Scan::Tok(
            TokenV::StringLit(
                seq![
                    if cs[pos + 2] == 'n' {
                        '\n'
                    } else if cs[pos + 2] == 't' {
                        '\t'
                    } else {
                        cs[pos + 2]
                    },
                ],
            ),
            pos + 4,
        ),
        cs[pos] == '\'' && pos + 2 < cs.len() && cs[pos + 2] == '\'' ==> token_scan(cs, pos)
            == Scan::Tok(TokenV::CharLit(cs[pos + 1]), pos + 3),
{
    if cs[pos] == '"' && pos < e < cs.len() && cs[e] == '"' && (forall|k: int|
        pos < k < e ==> cs[k] != '"' && cs[k] != '\\') {
        lemma_plain_string(cs, pos + 1, e, Seq::empty());
        assert(Seq::<char>::empty() + cs.subrange(pos + 1, e) =~= cs.subrange(pos + 1, e));
    }
    if cs[pos] == '"' && pos + 3 < cs.len() && cs[pos + 1] == '\\' && cs[pos + 3] == '"' {
        let acc = Seq::<char>::empty().push(unescape(cs[pos + 2]));
        assert(string_scan(cs, pos + 3, acc) == (acc, pos + 4));
    }
}

} // verus!
