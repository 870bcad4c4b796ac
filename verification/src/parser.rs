//! The parser: builds a program's syntax tree from its tokens by recursive
//! descent, with precedence climbing for binary operators.

use vstd::prelude::*;
use vstd::string::*;
use crate::ast::{
    exprs_view, functions_view, params_view, stmts_view, BinOp, Expr, ExprV, Function, FunctionV,
    Program, ProgramV, Stmt, StmtV, Type, UnOp,
};
use crate::lexer::{lex, law_single_eof, token_debug, tokens_view, LexOutcome, Token, TokenV};
use crate::text::{owned, push_str, text_of};

verus! {

broadcast use vstd::string::group_string_axioms;

/// What a parsing step yields: a value and the position after it, or an
/// error message and the position where the parser stopped.
pub type Parsed<T> = Result<(T, int), (Seq<char>, int)>;

// ---------------------------------------------------------------------------
// Token access.
// ---------------------------------------------------------------------------

pub open spec fn peek_at(ts: Seq<TokenV>, p: int) -> Option<TokenV> {
    if 0 <= p < ts.len() {
        Some(ts[p])
    } else {
        None
    }
}

/// The position after taking the next token, if there is one.
pub open spec fn after(ts: Seq<TokenV>, p: int) -> int {
    if 0 <= p < ts.len() {
        p + 1
    } else {
        p
    }
}

/// `Debug` text of an optional token: `None`, or `Some(..)` around the token's.
pub open spec fn opt_debug(t: Option<TokenV>) -> Seq<char> {
    match t {
        Some(t) => "Some("@ + token_debug(t) + ")"@,
        None => "None"@,
    }
}

/// Taking the next token, which must be `e`.
pub open spec fn expect_at(ts: Seq<TokenV>, p: int, e: TokenV) -> Result<int, (Seq<char>, int)> {
    if 0 <= p < ts.len() {
        if ts[p] == e {
            Ok(p + 1)
        } else {
            Err(("Expected "@ + token_debug(e) + ", found "@ + token_debug(ts[p]), p + 1))
        }
    } else {
        Err(("Unexpected end of file"@, p))
    }
}

/// The position after the `Newline` tokens that start at `p`.
pub open spec fn skip_newlines_at(ts: Seq<TokenV>, p: int) -> int
    decreases ts.len() - p,
{
    if 0 <= p < ts.len() && ts[p] == TokenV::Newline {
        skip_newlines_at(ts, p + 1)
    } else {
        p
    }
}

pub proof fn lemma_skip_newlines(ts: Seq<TokenV>, p: int)
    requires
        0 <= p <= ts.len(),
    ensures
        p <= skip_newlines_at(ts, p) <= ts.len(),
        skip_newlines_at(ts, p) < ts.len() ==> ts[skip_newlines_at(ts, p)] != TokenV::Newline,
    decreases ts.len() - p,
{
    if p < ts.len() && ts[p] == TokenV::Newline {
        lemma_skip_newlines(ts, p + 1);
    }
}

/// A position that a nested step reached, which must lie past `p` for the
/// parse to go on (every step consumes a token, so it always does).
pub open spec fn moved(ts: Seq<TokenV>, p: int, q: int) -> bool {
    p < q <= ts.len()
}

/// Binding power and operator of a binary-operator token.
pub open spec fn binop_of(t: Option<TokenV>) -> Option<(u8, BinOp)> {
    match t {
        Some(TokenV::Plus) => Some((10u8, BinOp::Add)),
        Some(TokenV::Minus) => Some((10u8, BinOp::Sub)),
        Some(TokenV::Star) => Some((20u8, BinOp::Mul)),
        Some(TokenV::Slash) => Some((20u8, BinOp::Div)),
        Some(TokenV::Eq) => Some((5u8, BinOp::Eq)),
        Some(TokenV::Ne) => Some((5u8, BinOp::Ne)),
        Some(TokenV::Lt) => Some((5u8, BinOp::Lt)),
        Some(TokenV::Le) => Some((5u8, BinOp::Le)),
        Some(TokenV::Gt) => Some((5u8, BinOp::Gt)),
        Some(TokenV::Ge) => Some((5u8, BinOp::Ge)),
        Some(TokenV::And) => Some((3u8, BinOp::And)),
        Some(TokenV::Or) => Some((2u8, BinOp::Or)),
        _ => None,
    }
}

/// A type name.
pub open spec fn type_at(ts: Seq<TokenV>, p: int) -> Parsed<Type> {
    match peek_at(ts, p) {
        Some(TokenV::IntType) => Ok((Type::Int, p + 1)),
        Some(TokenV::FloatType) => Ok((Type::Float, p + 1)),
        Some(TokenV::BoolType) => Ok((Type::Bool, p + 1)),
        Some(TokenV::StringType) => Ok((Type::String, p + 1)),
        Some(TokenV::CharType) => Ok((Type::Char, p + 1)),
        _ => Err(("Expected type"@, after(ts, p))),
    }
}

// ---------------------------------------------------------------------------
// Expressions and statements. Each step has a rank so that a step that calls
// another at the same position calls one of lower rank.
// ---------------------------------------------------------------------------

/// An expression whose binary operators bind at least as tightly as `min_bp`.
pub open spec fn expr_at(ts: Seq<TokenV>, p: int, min_bp: u8) -> Parsed<ExprV>
    decreases ts.len() - p, 3int,
{
    match primary_at(ts, p) {
        Err(e) => Err(e),
        Ok((lhs, q)) => if moved(ts, p, q) {
            expr_tail_at(ts, lhs, q, min_bp)
        } else {
            Ok((lhs, q))
        },
    }
}

/// The binary operators that follow `lhs`, folded in by precedence climbing:
/// an operator that binds at least `min_bp` takes the expression after it
/// (with its own binding power as the new minimum) as its right operand.
pub open spec fn expr_tail_at(ts: Seq<TokenV>, lhs: ExprV, p: int, min_bp: u8) -> Parsed<ExprV>
    decreases ts.len() - p, 1int,
{
    match binop_of(peek_at(ts, p)) {
        None => Ok((lhs, p)),
        Some((bp, op)) => if bp < min_bp {
            Ok((lhs, p))
        } else {
            match expr_at(ts, p + 1, bp) {
                Err(e) => Err(e),
                Ok((rhs, q)) => if moved(ts, p, q) {
                    expr_tail_at(
                        ts,
                        ExprV::BinaryOp(Box::new(lhs), op, Box::new(rhs)),
                        q,
                        min_bp,
                    )
                } else {
                    Ok((lhs, q))
                },
            }
        },
    }
}

/// The message for a token that cannot start an expression.
pub open spec fn bad_expr_msg(ts: Seq<TokenV>, p: int) -> Seq<char> {
    "Unexpected token in expression: "@ + opt_debug(peek_at(ts, p))
}

/// A primary expression: a literal, a variable, an array element, a call, a
/// parenthesized expression, or `!`/`-` applied to an expression whose
/// binary operators bind at least as tightly as `+`.
pub open spec fn primary_at(ts: Seq<TokenV>, p: int) -> Parsed<ExprV>
    decreases ts.len() - p, 2int,
{
    if !(0 <= p < ts.len()) {
        Err((bad_expr_msg(ts, p), p))
    } else {
        let q = p + 1;
        match ts[p] {
            TokenV::IntLit(n) => Ok((ExprV::Integer(n), q)),
            TokenV::FloatLit(f) => Ok((ExprV::Float(f), q)),
            TokenV::True => Ok((ExprV::Bool(true), q)),
            TokenV::False => Ok((ExprV::Bool(false), q)),
            TokenV::StringLit(s) => Ok((ExprV::String(s), q)),
            TokenV::CharLit(c) => Ok((ExprV::Char(c), q)),
            TokenV::Identifier(id) => match peek_at(ts, q) {
                Some(TokenV::LBracket) => match expr_at(ts, q + 1, 0) {
                    Err(e) => Err(e),
                    Ok((idx, r)) => match expect_at(ts, r, TokenV::RBracket) {
                        Err(e) => Err(e),
                        Ok(r2) => Ok((ExprV::ArrayElement(id, Box::new(idx)), r2)),
                    },
                },
                Some(TokenV::LParen) => match args_at(ts, q + 1, Seq::empty()) {
                    Err(e) => Err(e),
                    Ok((args, r)) => match expect_at(ts, r, TokenV::RParen) {
                        Err(e) => Err(e),
                        Ok(r2) => Ok((ExprV::Call(id, args), r2)),
                    },
                },
                _ => Ok((ExprV::Variable(id), q)),
            },
            TokenV::LParen => match expr_at(ts, q, 0) {
                Err(e) => Err(e),
                Ok((e, r)) => match expect_at(ts, r, TokenV::RParen) {
                    Err(err) => Err(err),
                    Ok(r2) => Ok((e, r2)),
                },
            },
            TokenV::Not => match expr_at(ts, q, 10) {
                Err(e) => Err(e),
                Ok((e, r)) => Ok((ExprV::UnaryOp(UnOp::Not, Box::new(e)), r)),
            },
            TokenV::Minus => match expr_at(ts, q, 10) {
                Err(e) => Err(e),
                Ok((e, r)) => Ok((ExprV::UnaryOp(UnOp::Neg, Box::new(e)), r)),
            },
            _ => Err((bad_expr_msg(ts, q), q)),
        }
    }
}

/// Expressions up to a `)` or the end of the tokens, each followed by an
/// optional `,`; `acc` holds those already read.
pub open spec fn args_at(ts: Seq<TokenV>, p: int, acc: Seq<ExprV>) -> Parsed<Seq<ExprV>>
    decreases ts.len() - p, 4int,
{
    match peek_at(ts, p) {
        None => Ok((acc, p)),
        Some(TokenV::RParen) => Ok((acc, p)),
        Some(_) => match expr_at(ts, p, 0) {
            Err(e) => Err(e),
            Ok((e, q)) => {
                let q2 = if peek_at(ts, q) == Some(TokenV::Comma) {
                    q + 1
                } else {
                    q
                };
                if moved(ts, p, q2) {
                    args_at(ts, q2, acc.push(e))
                } else {
                    Ok((acc, q2))
                }
            },
        },
    }
}

/// A statement, after any `Newline` tokens.
pub open spec fn stmt_at(ts: Seq<TokenV>, p: int) -> Parsed<StmtV>
    decreases ts.len() - p, 6int,
{
    if !(0 <= p <= ts.len()) {
        Err(("Unexpected token in statement: None"@, p))
    } else {
        let q = skip_newlines_at(ts, p);
        proof {
            lemma_skip_newlines(ts, p);
        }
        match peek_at(ts, q) {
            Some(TokenV::Var) => var_decl_at(ts, q),
            Some(TokenV::If) => if_at(ts, q),
            Some(TokenV::While) => while_at(ts, q),
            Some(TokenV::Return) => return_at(ts, q),
            Some(TokenV::Print) => print_at(ts, q),
            Some(TokenV::Input) => input_at(ts, q),
            Some(TokenV::SetOutput) => set_output_at(ts, q),
            Some(TokenV::Identifier(_)) => assign_or_call_at(ts, q),
            _ => Err(("Unexpected token in statement: "@ + opt_debug(peek_at(ts, q)), q)),
        }
    }
}

/// The optional `[size]` after a variable's type.
pub open spec fn array_suffix_at(ts: Seq<TokenV>, p: int, typ: Type) -> Parsed<Type> {
    if peek_at(ts, p) == Some(TokenV::LBracket) {
        let q = p + 1;
        match peek_at(ts, q) {
            Some(TokenV::IntLit(n)) => match expect_at(ts, q + 1, TokenV::RBracket) {
                Err(e) => Err(e),
                Ok(r) => Ok((Type::Array(Box::new(typ), n as usize), r)),
            },
            _ => Err(("Expected array size"@, after(ts, q))),
        }
    } else {
        Ok((typ, p))
    }
}

/// `var name: type [size] = init;` (the size and the initializer optional).
pub open spec fn var_decl_at(ts: Seq<TokenV>, p: int) -> Parsed<StmtV>
    decreases ts.len() - p, 5int,
{
    match expect_at(ts, p, TokenV::Var) {
        Err(e) => Err(e),
        Ok(q) => match peek_at(ts, q) {
            Some(TokenV::Identifier(name)) => match expect_at(ts, q + 1, TokenV::Colon) {
                Err(e) => Err(e),
                Ok(q2) => match type_at(ts, q2) {
                    Err(e) => Err(e),
                    Ok((t0, q3)) => match array_suffix_at(ts, q3, t0) {
                        Err(e) => Err(e),
                        Ok((typ, q4)) => if peek_at(ts, q4) == Some(TokenV::Assign) {
                            match expr_at(ts, q4 + 1, 0) {
                                Err(e) => Err(e),
                                Ok((init, q5)) => match expect_at(ts, q5, TokenV::Semicolon) {
                                    Err(e) => Err(e),
                                    Ok(q6) => Ok(
                                        (StmtV::VarDecl { name, typ, init: Some(init) }, q6),
                                    ),
                                },
                            }
                        } else {
                            match expect_at(ts, q4, TokenV::Semicolon) {
                                Err(e) => Err(e),
                                Ok(q6) => Ok((StmtV::VarDecl { name, typ, init: None }, q6)),
                            }
                        },
                    },
                },
            },
            _ => Err(("Expected variable name"@, after(ts, q))),
        },
    }
}

/// `:` then an indented block: the statements between `Indent` and `Dedent`.
pub open spec fn indented_at(ts: Seq<TokenV>, p: int) -> Parsed<Seq<StmtV>>
    decreases ts.len() - p, 8int,
{
    match expect_at(ts, p, TokenV::Colon) {
        Err(e) => Err(e),
        Ok(q) => match expect_at(ts, q, TokenV::Indent) {
            Err(e) => Err(e),
            Ok(q2) => match block_at(ts, q2, Seq::empty()) {
                Err(e) => Err(e),
                Ok((b, q3)) => match expect_at(ts, q3, TokenV::Dedent) {
                    Err(e) => Err(e),
                    Ok(q4) => Ok((b, q4)),
                },
            },
        },
    }
}

/// `if cond: block` with an optional `else: block`.
pub open spec fn if_at(ts: Seq<TokenV>, p: int) -> Parsed<StmtV>
    decreases ts.len() - p, 5int,
{
    match expect_at(ts, p, TokenV::If) {
        Err(e) => Err(e),
        Ok(q) => match expr_at(ts, q, 0) {
            Err(e) => Err(e),
            Ok((cond, q2)) => if !moved(ts, p, q2) {
                Err((Seq::empty(), q2))
            } else {
                match indented_at(ts, q2) {
                    Err(e) => Err(e),
                    Ok((then_block, q3)) => if !moved(ts, p, q3) {
                        Err((Seq::empty(), q3))
                    } else if peek_at(ts, q3) == Some(TokenV::Else) {
                        match indented_at(ts, q3 + 1) {
                            Err(e) => Err(e),
                            Ok((else_block, q4)) => Ok(
                                (StmtV::If { cond, then_block, else_block }, q4),
                            ),
                        }
                    } else {
                        Ok((StmtV::If { cond, then_block, else_block: Seq::empty() }, q3))
                    },
                }
            },
        },
    }
}

/// `while cond: block`.
pub open spec fn while_at(ts: Seq<TokenV>, p: int) -> Parsed<StmtV>
    decreases ts.len() - p, 5int,
{
    match expect_at(ts, p, TokenV::While) {
        Err(e) => Err(e),
        Ok(q) => match expr_at(ts, q, 0) {
            Err(e) => Err(e),
            Ok((cond, q2)) => if !moved(ts, p, q2) {
                Err((Seq::empty(), q2))
            } else {
                match indented_at(ts, q2) {
                    Err(e) => Err(e),
                    Ok((body, q3)) => Ok((StmtV::While { cond, body }, q3)),
                }
            },
        },
    }
}

/// `return expr;`.
pub open spec fn return_at(ts: Seq<TokenV>, p: int) -> Parsed<StmtV>
    decreases ts.len() - p, 5int,
{
    match expect_at(ts, p, TokenV::Return) {
        Err(e) => Err(e),
        Ok(q) => match expr_at(ts, q, 0) {
            Err(e) => Err(e),
            Ok((e, q2)) => match expect_at(ts, q2, TokenV::Semicolon) {
                Err(err) => Err(err),
                Ok(q3) => Ok((StmtV::Return(e), q3)),
            },
        },
    }
}

/// `print(args);`.
pub open spec fn print_at(ts: Seq<TokenV>, p: int) -> Parsed<StmtV>
    decreases ts.len() - p, 5int,
{
    match expect_at(ts, p, TokenV::Print) {
        Err(e) => Err(e),
        Ok(q) => match expect_at(ts, q, TokenV::LParen) {
            Err(e) => Err(e),
            Ok(q2) => match args_at(ts, q2, Seq::empty()) {
                Err(e) => Err(e),
                Ok((args, q3)) => match expect_at(ts, q3, TokenV::RParen) {
                    Err(e) => Err(e),
                    Ok(q4) => match expect_at(ts, q4, TokenV::Semicolon) {
                        Err(e) => Err(e),
                        Ok(q5) => Ok((StmtV::Print(args), q5)),
                    },
                },
            },
        },
    }
}

/// `input(name);`.
pub open spec fn input_at(ts: Seq<TokenV>, p: int) -> Parsed<StmtV>
    decreases ts.len() - p, 5int,
{
    match expect_at(ts, p, TokenV::Input) {
        Err(e) => Err(e),
        Ok(q) => match expect_at(ts, q, TokenV::LParen) {
            Err(e) => Err(e),
            Ok(q2) => match peek_at(ts, q2) {
                Some(TokenV::Identifier(name)) => match expect_at(ts, q2 + 1, TokenV::RParen) {
                    Err(e) => Err(e),
                    Ok(q3) => match expect_at(ts, q3, TokenV::Semicolon) {
                        Err(e) => Err(e),
                        Ok(q4) => Ok((StmtV::Input(name), q4)),
                    },
                },
                _ => Err(("Expected variable name in input"@, after(ts, q2))),
            },
        },
    }
}

/// `set_output(expr);`.
pub open spec fn set_output_at(ts: Seq<TokenV>, p: int) -> Parsed<StmtV>
    decreases ts.len() - p, 5int,
{
    match expect_at(ts, p, TokenV::SetOutput) {
        Err(e) => Err(e),
        Ok(q) => match expect_at(ts, q, TokenV::LParen) {
            Err(e) => Err(e),
            Ok(q2) => match expr_at(ts, q2, 0) {
                Err(e) => Err(e),
                Ok((e, q3)) => match expect_at(ts, q3, TokenV::RParen) {
                    Err(err) => Err(err),
                    Ok(q4) => match expect_at(ts, q4, TokenV::Semicolon) {
                        Err(err) => Err(err),
                        Ok(q5) => Ok((StmtV::SetOutput(e), q5)),
                    },
                },
            },
        },
    }
}

/// An expression from `p`, then `;`, as an expression statement.
pub open spec fn expr_stmt_at(ts: Seq<TokenV>, p: int) -> Parsed<StmtV>
    decreases ts.len() - p, 4int,
{
    match expr_at(ts, p, 0) {
        Err(e) => Err(e),
        Ok((e, q)) => match expect_at(ts, q, TokenV::Semicolon) {
            Err(err) => Err(err),
            Ok(q2) => Ok((StmtV::ExprStmt(e), q2)),
        },
    }
}

/// A statement that starts with a name: `name = expr;`, `name[index] = expr;`,
/// or else an expression statement read again from the name.
pub open spec fn assign_or_call_at(ts: Seq<TokenV>, p: int) -> Parsed<StmtV>
    decreases ts.len() - p, 5int,
{
    match peek_at(ts, p) {
        Some(TokenV::Identifier(name)) => {
            let q = p + 1;
            match peek_at(ts, q) {
                Some(TokenV::LBracket) => match expr_at(ts, q + 1, 0) {
                    Err(e) => Err(e),
                    Ok((index, q2)) => match expect_at(ts, q2, TokenV::RBracket) {
                        Err(e) => Err(e),
                        Ok(q3) => if peek_at(ts, q3) == Some(TokenV::Assign) {
                            match expr_at(ts, q3 + 1, 0) {
                                Err(e) => Err(e),
                                Ok((expr, q4)) => match expect_at(ts, q4, TokenV::Semicolon) {
                                    Err(e) => Err(e),
                                    Ok(q5) => Ok(
                                        (
                                            StmtV::Assign { target: name, index: Some(index), expr },
                                            q5,
                                        ),
                                    ),
                                },
                            }
                        } else {
                            expr_stmt_at(ts, p)
                        },
                    },
                },
                Some(TokenV::Assign) => match expr_at(ts, q + 1, 0) {
                    Err(e) => Err(e),
                    Ok((expr, q2)) => match expect_at(ts, q2, TokenV::Semicolon) {
                        Err(e) => Err(e),
                        Ok(q3) => Ok((StmtV::Assign { target: name, index: None, expr }, q3)),
                    },
                },
                _ => expr_stmt_at(ts, p),
            }
        },
        _ => Err(("Expected identifier"@, after(ts, p))),
    }
}

/// Statements up to a `Dedent`, an `Eof` or the end of the tokens, each
/// followed by any `Newline` tokens; `acc` holds those already read.
pub open spec fn block_at(ts: Seq<TokenV>, p: int, acc: Seq<StmtV>) -> Parsed<Seq<StmtV>>
    decreases ts.len() - p, 7int,
{
    match peek_at(ts, p) {
        None => Ok((acc, p)),
        Some(TokenV::Dedent) => Ok((acc, p)),
        Some(TokenV::Eof) => Ok((acc, p)),
        Some(_) => match stmt_at(ts, p) {
            Err(e) => Err(e),
            Ok((s, q)) => {
                let q2 = skip_newlines_at(ts, q);
                if moved(ts, p, q2) {
                    block_at(ts, q2, acc.push(s))
                } else {
                    Ok((acc, q2))
                }
            },
        },
    }
}

// ---------------------------------------------------------------------------
// Functions and programs.
// ---------------------------------------------------------------------------

/// Parameters `name: type` up to a `)` or the end of the tokens, each followed
/// by an optional `,`; `acc` holds those already read.
pub open spec fn params_at(ts: Seq<TokenV>, p: int, acc: Seq<(Seq<char>, Type)>) -> Parsed<
    Seq<(Seq<char>, Type)>,
>
    decreases ts.len() - p,
{
    match peek_at(ts, p) {
        None => Ok((acc, p)),
        Some(TokenV::RParen) => Ok((acc, p)),
        Some(TokenV::Identifier(name)) => match expect_at(ts, p + 1, TokenV::Colon) {
            Err(e) => Err(e),
            Ok(q) => match type_at(ts, q) {
                Err(e) => Err(e),
                Ok((t, q2)) => {
                    let q3 = if peek_at(ts, q2) == Some(TokenV::Comma) {
                        q2 + 1
                    } else {
                        q2
                    };
                    if moved(ts, p, q3) {
                        params_at(ts, q3, acc.push((name, t)))
                    } else {
                        Ok((acc, q3))
                    }
                },
            },
        },
        Some(_) => Err(("Expected parameter name"@, p + 1)),
    }
}

/// `def name(params): block`.
#[verifier::opaque]
pub open spec fn function_at(ts: Seq<TokenV>, p: int) -> Parsed<FunctionV> {
    match expect_at(ts, p, TokenV::Def) {
        Err(e) => Err(e),
        Ok(q) => match peek_at(ts, q) {
            Some(TokenV::Identifier(name)) => match expect_at(ts, q + 1, TokenV::LParen) {
                Err(e) => Err(e),
                Ok(q2) => match params_at(ts, q2, Seq::empty()) {
                    Err(e) => Err(e),
                    Ok((params, q3)) => match expect_at(ts, q3, TokenV::RParen) {
                        Err(e) => Err(e),
                        Ok(q4) => match indented_at(ts, q4) {
                            Err(e) => Err(e),
                            Ok((body, q5)) => Ok((FunctionV { name, params, body }, q5)),
                        },
                    },
                },
            },
            _ => Err(("Expected function name"@, after(ts, q))),
        },
    }
}

/// Whether a token starts a top-level statement.
pub open spec fn starts_global(t: TokenV) -> bool {
    match t {
        TokenV::Var | TokenV::If | TokenV::While | TokenV::Print | TokenV::Input
        | TokenV::SetOutput | TokenV::Identifier(_) => true,
        _ => false,
    }
}

/// Function definitions and top-level statements up to an `Eof` or the end
/// of the tokens, each followed by any `Newline` tokens.
pub open spec fn program_at(
    ts: Seq<TokenV>,
    p: int,
    functions: Seq<FunctionV>,
    globals: Seq<StmtV>,
) -> Parsed<ProgramV>
    decreases ts.len() - p,
{
    match peek_at(ts, p) {
        None => Ok((ProgramV { functions, globals }, p)),
        Some(TokenV::Eof) => Ok((ProgramV { functions, globals }, p)),
        Some(TokenV::Def) => match function_at(ts, p) {
            Err(e) => Err(e),
            Ok((f, q)) => {
                let q2 = skip_newlines_at(ts, q);
                if moved(ts, p, q2) {
                    program_at(ts, q2, functions.push(f), globals)
                } else {
                    Ok((ProgramV { functions, globals }, q2))
                }
            },
        },
        Some(t) => if starts_global(t) {
            match stmt_at(ts, p) {
                Err(e) => Err(e),
                Ok((s, q)) => {
                    let q2 = skip_newlines_at(ts, q);
                    if moved(ts, p, q2) {
                        program_at(ts, q2, functions, globals.push(s))
                    } else {
                        Ok((ProgramV { functions, globals }, q2))
                    }
                },
            }
        } else {
            Err(("Unexpected token at top level: "@ + token_debug(t), p))
        },
    }
}

/// The program that the tokens from `p` on spell, and where the parser stops;
/// or the message of the first error and where the parser stopped.
pub open spec fn parse(ts: Seq<TokenV>, p: int) -> Parsed<ProgramV> {
    program_at(ts, p, Seq::empty(), Seq::empty())
}

// ---------------------------------------------------------------------------
// The parser.
// ---------------------------------------------------------------------------

/// The tokens of a token vector, as a sequence of views.
pub open spec fn tv(ts: &Vec<Token>) -> Seq<TokenV> {
    tokens_view(ts@)
}

/// A parse result of the executable parser: a value and the position after
/// it, or an error message and the position where the parser stopped.
pub type Step<T> = Result<(T, usize), (String, usize)>;

/// Whether an executable result `r` is the parse outcome `s`.
pub open spec fn step_is<T: View>(s: Parsed<T::V>, r: Step<T>) -> bool {
    match s {
        Ok((v, q)) => r matches Ok(x) && x.0@ == v && x.1 == q,
        Err((m, q)) => r matches Err(x) && x.0@ == m && x.1 == q,
    }
}

pub open spec fn stmts_step_is(s: Parsed<Seq<StmtV>>, r: Step<Vec<Stmt>>) -> bool {
    match s {
        Ok((v, q)) => r matches Ok(x) && stmts_view(x.0@) == v && x.1 == q,
        Err((m, q)) => r matches Err(x) && x.0@ == m && x.1 == q,
    }
}

pub open spec fn exprs_step_is(s: Parsed<Seq<ExprV>>, r: Step<Vec<Expr>>) -> bool {
    match s {
        Ok((v, q)) => r matches Ok(x) && exprs_view(x.0@) == v && x.1 == q,
        Err((m, q)) => r matches Err(x) && x.0@ == m && x.1 == q,
    }
}

pub open spec fn params_step_is(
    s: Parsed<Seq<(Seq<char>, Type)>>,
    r: Step<Vec<(String, Type)>>,
) -> bool {
    match s {
        Ok((v, q)) => r matches Ok(x) && params_view(x.0@) == v && x.1 == q,
        Err((m, q)) => r matches Err(x) && x.0@ == m && x.1 == q,
    }
}

/// Whether a result reached a position past `p` (when it succeeded), and
/// stayed within the tokens.
pub open spec fn advances<T>(r: Step<T>, p: int, len: int) -> bool {
    match r {
        Ok(x) => p < x.1 <= len,
        Err(x) => x.1 <= len,
    }
}

/// Whether a result reached a position at or past `p` (when it succeeded),
/// and stayed within the tokens.
pub open spec fn within<T>(r: Step<T>, p: int, len: int) -> bool {
    match r {
        Ok(x) => p <= x.1 <= len,
        Err(x) => x.1 <= len,
    }
}

impl View for Type {
    type V = Type;

    open spec fn view(&self) -> Type {
        *self
    }
}

fn expect(ts: &Vec<Token>, p: usize, e: Token) -> (r: Result<usize, (String, usize)>)
    requires
        p <= ts.len(),
    ensures
        r matches Err(x) ==> x.1 <= ts.len(),
        match expect_at(tv(ts), p as int, e@) {
            Ok(q) => r matches Ok(x) && x == q,
            Err((m, q)) => r matches Err(x) && x.0@ == m && x.1 == q,
        },
{
    if p < ts.len() {
        if ts[p].same(&e) {
            Ok(p + 1)
        } else {
            let mut m = owned("Expected ");
            let d = e.debug_text();
            push_str(&mut m, d.as_str());
            push_str(&mut m, ", found ");
            let f = ts[p].debug_text();
            push_str(&mut m, f.as_str());
            Err((m, p + 1))
        }
    } else {
        Err((owned("Unexpected end of file"), p))
    }
}

fn is_token(ts: &Vec<Token>, p: usize, e: Token) -> (r: bool)
    ensures
        r == (peek_at(tv(ts), p as int) == Some(e@)),
{
    p < ts.len() && ts[p].same(&e)
}

fn skip_newlines(ts: &Vec<Token>, p: usize) -> (q: usize)
    requires
        p <= ts.len(),
    ensures
        q == skip_newlines_at(tv(ts), p as int),
        p <= q <= ts.len(),
{
    let mut q = p;
    while q < ts.len() && ts[q].same(&Token::Newline)
        invariant
            p <= q <= ts.len(),
            skip_newlines_at(tv(ts), q as int) == skip_newlines_at(tv(ts), p as int),
        decreases ts.len() - q,
    {
        q += 1;
    }
    q
}

fn opt_debug_text(ts: &Vec<Token>, p: usize) -> (r: String)
    ensures
        r@ == opt_debug(peek_at(tv(ts), p as int)),
{
    if p < ts.len() {
        let mut m = owned("Some(");
        let d = ts[p].debug_text();
        push_str(&mut m, d.as_str());
        push_str(&mut m, ")");
        m
    } else {
        owned("None")
    }
}

fn parse_type(ts: &Vec<Token>, p: usize) -> (r: Step<Type>)
    requires
        p <= ts.len(),
    ensures
        step_is(type_at(tv(ts), p as int), r),
        advances(r, p as int, ts.len() as int),
{
    if p < ts.len() {
        match &ts[p] {
            Token::IntType => Ok((Type::Int, p + 1)),
            Token::FloatType => Ok((Type::Float, p + 1)),
            Token::BoolType => Ok((Type::Bool, p + 1)),
            Token::StringType => Ok((Type::String, p + 1)),
            Token::CharType => Ok((Type::Char, p + 1)),
            _ => Err((owned("Expected type"), p + 1)),
        }
    } else {
        Err((owned("Expected type"), p))
    }
}

fn binop(ts: &Vec<Token>, p: usize) -> (r: Option<(u8, BinOp)>)
    ensures
        r == binop_of(peek_at(tv(ts), p as int)),
{
    if p >= ts.len() {
        return None;
    }
    match &ts[p] {
        Token::Plus => Some((10u8, BinOp::Add)),
        Token::Minus => Some((10u8, BinOp::Sub)),
        Token::Star => Some((20u8, BinOp::Mul)),
        Token::Slash => Some((20u8, BinOp::Div)),
        Token::Eq => Some((5u8, BinOp::Eq)),
        Token::Ne => Some((5u8, BinOp::Ne)),
        Token::Lt => Some((5u8, BinOp::Lt)),
        Token::Le => Some((5u8, BinOp::Le)),
        Token::Gt => Some((5u8, BinOp::Gt)),
        Token::Ge => Some((5u8, BinOp::Ge)),
        Token::And => Some((3u8, BinOp::And)),
        Token::Or => Some((2u8, BinOp::Or)),
        _ => None,
    }
}

fn parse_expr(ts: &Vec<Token>, p: usize, min_bp: u8) -> (r: Step<Expr>)
    requires
        p <= ts.len(),
    ensures
        step_is(expr_at(tv(ts), p as int, min_bp), r),
        advances(r, p as int, ts.len() as int),
    decreases ts.len() - p, 3int,
{
    let (first, q0) = match parse_primary(ts, p) {
        Ok(x) => x,
        Err(e) => return Err(e),
    };
    let mut lhs = first;
    let mut q = q0;
    loop
        invariant
            p < q <= ts.len(),
            expr_tail_at(tv(ts), lhs@, q as int, min_bp) == expr_at(tv(ts), p as int, min_bp),
        decreases ts.len() - q,
    {
        let (bp, op) = match binop(ts, q) {
            Some(x) => x,
            None => return Ok((lhs, q)),
        };
        if bp < min_bp {
            return Ok((lhs, q));
        }
        let (rhs, q2) = match parse_expr(ts, q + 1, bp) {
            Ok(x) => x,
            Err(e) => return Err(e),
        };
        lhs = Expr::BinaryOp(Box::new(lhs), op, Box::new(rhs));
        q = q2;
    }
}

fn bad_expr(ts: &Vec<Token>, p: usize) -> (m: String)
    ensures
        m@ == bad_expr_msg(tv(ts), p as int),
{
    let mut m = owned("Unexpected token in expression: ");
    let d = opt_debug_text(ts, p);
    push_str(&mut m, d.as_str());
    m
}

fn parse_primary(ts: &Vec<Token>, p: usize) -> (r: Step<Expr>)
    requires
        p <= ts.len(),
    ensures
        step_is(primary_at(tv(ts), p as int), r),
        advances(r, p as int, ts.len() as int),
    decreases ts.len() - p, 2int,
{
    if p >= ts.len() {
        return Err((bad_expr(ts, p), p));
    }
    let q = p + 1;
    match &ts[p] {
        Token::IntLit(n) => Ok((Expr::Integer(*n), q)),
        Token::FloatLit(f) => Ok((Expr::Float(f.clone()), q)),
        Token::True => Ok((Expr::Bool(true), q)),
        Token::False => Ok((Expr::Bool(false), q)),
        Token::StringLit(s) => Ok((Expr::String(s.clone()), q)),
        Token::CharLit(c) => Ok((Expr::Char(*c), q)),
        Token::Identifier(id) => {
            if is_token(ts, q, Token::LBracket) {
                let (idx, r) = match parse_expr(ts, q + 1, 0) {
                    Ok(x) => x,
                    Err(e) => return Err(e),
                };
                let r2 = match expect(ts, r, Token::RBracket) {
                    Ok(x) => x,
                    Err(e) => return Err(e),
                };
                Ok((Expr::ArrayElement(id.clone(), Box::new(idx)), r2))
            } else if is_token(ts, q, Token::LParen) {
                let (args, r) = match parse_args(ts, q + 1) {
                    Ok(x) => x,
                    Err(e) => return Err(e),
                };
                let r2 = match expect(ts, r, Token::RParen) {
                    Ok(x) => x,
                    Err(e) => return Err(e),
                };
                Ok((Expr::Call(id.clone(), args), r2))
            } else {
                Ok((Expr::Variable(id.clone()), q))
            }
        },
        Token::LParen => {
            let (e, r) = match parse_expr(ts, q, 0) {
                Ok(x) => x,
                Err(e) => return Err(e),
            };
            let r2 = match expect(ts, r, Token::RParen) {
                Ok(x) => x,
                Err(e) => return Err(e),
            };
            Ok((e, r2))
        },
        Token::Not => {
            let (e, r) = match parse_expr(ts, q, 10) {
                Ok(x) => x,
                Err(e) => return Err(e),
            };
            Ok((Expr::UnaryOp(UnOp::Not, Box::new(e)), r))
        },
        Token::Minus => {
            let (e, r) = match parse_expr(ts, q, 10) {
                Ok(x) => x,
                Err(e) => return Err(e),
            };
            Ok((Expr::UnaryOp(UnOp::Neg, Box::new(e)), r))
        },
        _ => Err((bad_expr(ts, q), q)),
    }
}

fn parse_args(ts: &Vec<Token>, p: usize) -> (r: Step<Vec<Expr>>)
    requires
        p <= ts.len(),
    ensures
        exprs_step_is(args_at(tv(ts), p as int, Seq::empty()), r),
        within(r, p as int, ts.len() as int),
    decreases ts.len() - p, 4int,
{
    let mut args: Vec<Expr> = Vec::new();
    let mut q = p;
    loop
        invariant
            p <= q <= ts.len(),
            args_at(tv(ts), q as int, exprs_view(args@)) == args_at(tv(ts), p as int, Seq::empty()),
        decreases ts.len() - q,
    {
        if q >= ts.len() || is_token(ts, q, Token::RParen) {
            return Ok((args, q));
        }
        let (e, q2) = match parse_expr(ts, q, 0) {
            Ok(x) => x,
            Err(err) => return Err(err),
        };
        let ghost old_args = args@;
        args.push(e);
        assert(args@.drop_last() == old_args);
        q = if is_token(ts, q2, Token::Comma) {
            q2 + 1
        } else {
            q2
        };
    }
}

fn parse_stmt(ts: &Vec<Token>, p: usize) -> (r: Step<Stmt>)
    requires
        p <= ts.len(),
    ensures
        step_is(stmt_at(tv(ts), p as int), r),
        advances(r, p as int, ts.len() as int),
    decreases ts.len() - p, 6int,
{
    let q = skip_newlines(ts, p);
    if q < ts.len() {
        match &ts[q] {
            Token::Var => return parse_var_decl(ts, q),
            Token::If => return parse_if(ts, q),
            Token::While => return parse_while(ts, q),
            Token::Return => return parse_return(ts, q),
            Token::Print => return parse_print(ts, q),
            Token::Input => return parse_input(ts, q),
            Token::SetOutput => return parse_set_output(ts, q),
            Token::Identifier(_) => return parse_assign_or_call(ts, q),
            _ => {},
        }
    }
    let mut m = owned("Unexpected token in statement: ");
    let d = opt_debug_text(ts, q);
    push_str(&mut m, d.as_str());
    Err((m, q))
}

fn parse_var_decl(ts: &Vec<Token>, p: usize) -> (r: Step<Stmt>)
    requires
        p <= ts.len(),
    ensures
        step_is(var_decl_at(tv(ts), p as int), r),
        advances(r, p as int, ts.len() as int),
    decreases ts.len() - p, 5int,
{
    let q = match expect(ts, p, Token::Var) {
        Ok(x) => x,
        Err(e) => return Err(e),
    };
    let name = if q < ts.len() {
        match &ts[q] {
            Token::Identifier(id) => id.clone(),
            _ => return Err((owned("Expected variable name"), q + 1)),
        }
    } else {
        return Err((owned("Expected variable name"), q));
    };
    let q2 = match expect(ts, q + 1, Token::Colon) {
        Ok(x) => x,
        Err(e) => return Err(e),
    };
    let (t0, q3) = match parse_type(ts, q2) {
        Ok(x) => x,
        Err(e) => return Err(e),
    };
    // an optional array size
    let (typ, q4) = if is_token(ts, q3, Token::LBracket) {
        let qs = q3 + 1;
        let size = if qs < ts.len() {
            match &ts[qs] {
                Token::IntLit(n) => *n as usize,
                _ => return Err((owned("Expected array size"), qs + 1)),
            }
        } else {
            return Err((owned("Expected array size"), qs));
        };
        let r = match expect(ts, qs + 1, Token::RBracket) {
            Ok(x) => x,
            Err(e) => return Err(e),
        };
        (Type::Array(Box::new(t0), size), r)
    } else {
        (t0, q3)
    };
    if is_token(ts, q4, Token::Assign) {
        let (init, q5) = match parse_expr(ts, q4 + 1, 0) {
            Ok(x) => x,
            Err(e) => return Err(e),
        };
        let q6 = match expect(ts, q5, Token::Semicolon) {
            Ok(x) => x,
            Err(e) => return Err(e),
        };
        Ok((Stmt::VarDecl { name, typ, init: Some(init) }, q6))
    } else {
        let q6 = match expect(ts, q4, Token::Semicolon) {
            Ok(x) => x,
            Err(e) => return Err(e),
        };
        Ok((Stmt::VarDecl { name, typ, init: None }, q6))
    }
}

fn parse_indented(ts: &Vec<Token>, p: usize) -> (r: Step<Vec<Stmt>>)
    requires
        p <= ts.len(),
    ensures
        stmts_step_is(indented_at(tv(ts), p as int), r),
        advances(r, p as int, ts.len() as int),
    decreases ts.len() - p, 8int,
{
    let q = match expect(ts, p, Token::Colon) {
        Ok(x) => x,
        Err(e) => return Err(e),
    };
    let q2 = match expect(ts, q, Token::Indent) {
        Ok(x) => x,
        Err(e) => return Err(e),
    };
    let (b, q3) = match parse_block(ts, q2) {
        Ok(x) => x,
        Err(e) => return Err(e),
    };
    let q4 = match expect(ts, q3, Token::Dedent) {
        Ok(x) => x,
        Err(e) => return Err(e),
    };
    Ok((b, q4))
}

fn parse_if(ts: &Vec<Token>, p: usize) -> (r: Step<Stmt>)
    requires
        p <= ts.len(),
    ensures
        step_is(if_at(tv(ts), p as int), r),
        advances(r, p as int, ts.len() as int),
    decreases ts.len() - p, 5int,
{
    let q = match expect(ts, p, Token::If) {
        Ok(x) => x,
        Err(e) => return Err(e),
    };
    let (cond, q2) = match parse_expr(ts, q, 0) {
        Ok(x) => x,
        Err(e) => return Err(e),
    };
    let (then_block, q3) = match parse_indented(ts, q2) {
        Ok(x) => x,
        Err(e) => return Err(e),
    };
    if is_token(ts, q3, Token::Else) {
        let (else_block, q4) = match parse_indented(ts, q3 + 1) {
            Ok(x) => x,
            Err(e) => return Err(e),
        };
        Ok((Stmt::If { cond, then_block, else_block }, q4))
    } else {
        let else_block: Vec<Stmt> = Vec::new();
        assert(stmts_view(else_block@) == Seq::<StmtV>::empty());
        Ok((Stmt::If { cond, then_block, else_block }, q3))
    }
}

fn parse_while(ts: &Vec<Token>, p: usize) -> (r: Step<Stmt>)
    requires
        p <= ts.len(),
    ensures
        step_is(while_at(tv(ts), p as int), r),
        advances(r, p as int, ts.len() as int),
    decreases ts.len() - p, 5int,
{
    let q = match expect(ts, p, Token::While) {
        Ok(x) => x,
        Err(e) => return Err(e),
    };
    let (cond, q2) = match parse_expr(ts, q, 0) {
        Ok(x) => x,
        Err(e) => return Err(e),
    };
    let (body, q3) = match parse_indented(ts, q2) {
        Ok(x) => x,
        Err(e) => return Err(e),
    };
    Ok((Stmt::While { cond, body }, q3))
}

fn parse_return(ts: &Vec<Token>, p: usize) -> (r: Step<Stmt>)
    requires
        p <= ts.len(),
    ensures
        step_is(return_at(tv(ts), p as int), r),
        advances(r, p as int, ts.len() as int),
    decreases ts.len() - p, 5int,
{
    let q = match expect(ts, p, Token::Return) {
        Ok(x) => x,
        Err(e) => return Err(e),
    };
    let (e, q2) = match parse_expr(ts, q, 0) {
        Ok(x) => x,
        Err(err) => return Err(err),
    };
    let q3 = match expect(ts, q2, Token::Semicolon) {
        Ok(x) => x,
        Err(err) => return Err(err),
    };
    Ok((Stmt::Return(e), q3))
}

fn parse_print(ts: &Vec<Token>, p: usize) -> (r: Step<Stmt>)
    requires
        p <= ts.len(),
    ensures
        step_is(print_at(tv(ts), p as int), r),
        advances(r, p as int, ts.len() as int),
    decreases ts.len() - p, 5int,
{
    let q = match expect(ts, p, Token::Print) {
        Ok(x) => x,
        Err(e) => return Err(e),
    };
    let q2 = match expect(ts, q, Token::LParen) {
        Ok(x) => x,
        Err(e) => return Err(e),
    };
    let (args, q3) = match parse_args(ts, q2) {
        Ok(x) => x,
        Err(e) => return Err(e),
    };
    let q4 = match expect(ts, q3, Token::RParen) {
        Ok(x) => x,
        Err(e) => return Err(e),
    };
    let q5 = match expect(ts, q4, Token::Semicolon) {
        Ok(x) => x,
        Err(e) => return Err(e),
    };
    Ok((Stmt::Print(args), q5))
}

fn parse_input(ts: &Vec<Token>, p: usize) -> (r: Step<Stmt>)
    requires
        p <= ts.len(),
    ensures
        step_is(input_at(tv(ts), p as int), r),
        advances(r, p as int, ts.len() as int),
    decreases ts.len() - p, 5int,
{
    let q = match expect(ts, p, Token::Input) {
        Ok(x) => x,
        Err(e) => return Err(e),
    };
    let q2 = match expect(ts, q, Token::LParen) {
        Ok(x) => x,
        Err(e) => return Err(e),
    };
    let name = if q2 < ts.len() {
        match &ts[q2] {
            Token::Identifier(id) => id.clone(),
            _ => return Err((owned("Expected variable name in input"), q2 + 1)),
        }
    } else {
        return Err((owned("Expected variable name in input"), q2));
    };
    let q3 = match expect(ts, q2 + 1, Token::RParen) {
        Ok(x) => x,
        Err(e) => return Err(e),
    };
    let q4 = match expect(ts, q3, Token::Semicolon) {
        Ok(x) => x,
        Err(e) => return Err(e),
    };
    Ok((Stmt::Input(name), q4))
}

fn parse_set_output(ts: &Vec<Token>, p: usize) -> (r: Step<Stmt>)
    requires
        p <= ts.len(),
    ensures
        step_is(set_output_at(tv(ts), p as int), r),
        advances(r, p as int, ts.len() as int),
    decreases ts.len() - p, 5int,
{
    let q = match expect(ts, p, Token::SetOutput) {
        Ok(x) => x,
        Err(e) => return Err(e),
    };
    let q2 = match expect(ts, q, Token::LParen) {
        Ok(x) => x,
        Err(e) => return Err(e),
    };
    let (e, q3) = match parse_expr(ts, q2, 0) {
        Ok(x) => x,
        Err(err) => return Err(err),
    };
    let q4 = match expect(ts, q3, Token::RParen) {
        Ok(x) => x,
        Err(err) => return Err(err),
    };
    let q5 = match expect(ts, q4, Token::Semicolon) {
        Ok(x) => x,
        Err(err) => return Err(err),
    };
    Ok((Stmt::SetOutput(e), q5))
}

fn parse_expr_stmt(ts: &Vec<Token>, p: usize) -> (r: Step<Stmt>)
    requires
        p <= ts.len(),
    ensures
        step_is(expr_stmt_at(tv(ts), p as int), r),
        advances(r, p as int, ts.len() as int),
    decreases ts.len() - p, 4int,
{
    let (e, q) = match parse_expr(ts, p, 0) {
        Ok(x) => x,
        Err(err) => return Err(err),
    };
    let q2 = match expect(ts, q, Token::Semicolon) {
        Ok(x) => x,
        Err(err) => return Err(err),
    };
    Ok((Stmt::ExprStmt(e), q2))
}

fn parse_assign_or_call(ts: &Vec<Token>, p: usize) -> (r: Step<Stmt>)
    requires
        p <= ts.len(),
    ensures
        step_is(assign_or_call_at(tv(ts), p as int), r),
        advances(r, p as int, ts.len() as int),
    decreases ts.len() - p, 5int,
{
    let start = p;
    let name = if p < ts.len() {
        match &ts[p] {
            Token::Identifier(id) => id.clone(),
            _ => return Err((owned("Expected identifier"), p + 1)),
        }
    } else {
        return Err((owned("Expected identifier"), p));
    };
    let q = p + 1;
    if is_token(ts, q, Token::LBracket) {
        // an array element: name[index]
        let (index, q2) = match parse_expr(ts, q + 1, 0) {
            Ok(x) => x,
            Err(e) => return Err(e),
        };
        let q3 = match expect(ts, q2, Token::RBracket) {
            Ok(x) => x,
            Err(e) => return Err(e),
        };
        if is_token(ts, q3, Token::Assign) {
            let (expr, q4) = match parse_expr(ts, q3 + 1, 0) {
                Ok(x) => x,
                Err(e) => return Err(e),
            };
            let q5 = match expect(ts, q4, Token::Semicolon) {
                Ok(x) => x,
                Err(e) => return Err(e),
            };
            Ok((Stmt::Assign { target: name, index: Some(Box::new(index)), expr }, q5))
        } else {
            // not an assignment: read the whole expression again from the name
            parse_expr_stmt(ts, start)
        }
    } else if is_token(ts, q, Token::Assign) {
        let (expr, q2) = match parse_expr(ts, q + 1, 0) {
            Ok(x) => x,
            Err(e) => return Err(e),
        };
        let q3 = match expect(ts, q2, Token::Semicolon) {
            Ok(x) => x,
            Err(e) => return Err(e),
        };
        Ok((Stmt::Assign { target: name, index: None, expr }, q3))
    } else {
        // a call or another expression: read it again from the name
        parse_expr_stmt(ts, start)
    }
}

fn parse_block(ts: &Vec<Token>, p: usize) -> (r: Step<Vec<Stmt>>)
    requires
        p <= ts.len(),
    ensures
        stmts_step_is(block_at(tv(ts), p as int, Seq::empty()), r),
        within(r, p as int, ts.len() as int),
    decreases ts.len() - p, 7int,
{
    let mut stmts: Vec<Stmt> = Vec::new();
    let mut q = p;
    loop
        invariant
            p <= q <= ts.len(),
            block_at(tv(ts), q as int, stmts_view(stmts@)) == block_at(
                tv(ts),
                p as int,
                Seq::empty(),
            ),
        decreases ts.len() - q,
    {
        if q >= ts.len() || is_token(ts, q, Token::Dedent) || is_token(ts, q, Token::Eof) {
            return Ok((stmts, q));
        }
        let (st, q2) = match parse_stmt(ts, q) {
            Ok(x) => x,
            Err(e) => return Err(e),
        };
        let ghost old_stmts = stmts@;
        stmts.push(st);
        assert(stmts@.drop_last() == old_stmts);
        q = skip_newlines(ts, q2);
    }
}

fn parse_params(ts: &Vec<Token>, p: usize) -> (r: Step<Vec<(String, Type)>>)
    requires
        p <= ts.len(),
    ensures
        params_step_is(params_at(tv(ts), p as int, Seq::empty()), r),
        within(r, p as int, ts.len() as int),
{
    let mut params: Vec<(String, Type)> = Vec::new();
    let mut q = p;
    assert(params_view(params@) =~= Seq::empty());
    loop
        invariant
            p <= q <= ts.len(),
            params_at(tv(ts), q as int, params_view(params@)) == params_at(
                tv(ts),
                p as int,
                Seq::empty(),
            ),
        decreases ts.len() - q,
    {
        if q >= ts.len() || is_token(ts, q, Token::RParen) {
            return Ok((params, q));
        }
        let name = match &ts[q] {
            Token::Identifier(id) => id.clone(),
            _ => return Err((owned("Expected parameter name"), q + 1)),
        };
        let q2 = match expect(ts, q + 1, Token::Colon) {
            Ok(x) => x,
            Err(e) => return Err(e),
        };
        let (t, q3) = match parse_type(ts, q2) {
            Ok(x) => x,
            Err(e) => return Err(e),
        };
        let ghost old_params = params@;
        params.push((name, t));
        assert(params_view(params@) == params_view(old_params).push((name@, t)));
        q = if is_token(ts, q3, Token::Comma) {
            q3 + 1
        } else {
            q3
        };
    }
}

fn parse_function(ts: &Vec<Token>, p: usize) -> (r: Step<Function>)
    requires
        p <= ts.len(),
    ensures
        step_is(function_at(tv(ts), p as int), r),
        advances(r, p as int, ts.len() as int),
{
    reveal(function_at);
    let q = match expect(ts, p, Token::Def) {
        Ok(x) => x,
        Err(e) => return Err(e),
    };
    let name = if q < ts.len() {
        match &ts[q] {
            Token::Identifier(id) => id.clone(),
            _ => return Err((owned("Expected function name"), q + 1)),
        }
    } else {
        return Err((owned("Expected function name"), q));
    };
    let q2 = match expect(ts, q + 1, Token::LParen) {
        Ok(x) => x,
        Err(e) => return Err(e),
    };
    let (params, q3) = match parse_params(ts, q2) {
        Ok(x) => x,
        Err(e) => return Err(e),
    };
    let q4 = match expect(ts, q3, Token::RParen) {
        Ok(x) => x,
        Err(e) => return Err(e),
    };
    let (body, q5) = match parse_indented(ts, q4) {
        Ok(x) => x,
        Err(e) => return Err(e),
    };
    Ok((Function { name, params, body }, q5))
}

fn starts_global_token(t: &Token) -> (r: bool)
    ensures
        r == starts_global(t@),
{
    match t {
        Token::Var | Token::If | Token::While | Token::Print | Token::Input | Token::SetOutput
        | Token::Identifier(_) => true,
        _ => false,
    }
}

/// A parser over a token sequence, reading from its current position.
pub struct Parser {
    tokens: Vec<Token>,
    pos: usize,
}

impl Parser {
    /// The tokens being parsed.
    pub closed spec fn tokens(&self) -> Seq<TokenV> {
        tokens_view(self.tokens@)
    }

    /// The position of the next token to read.
    pub closed spec fn position(&self) -> int {
        self.pos as int
    }

    /// The parser's position lies within its tokens.
    pub closed spec fn wf(&self) -> bool {
        self.pos <= self.tokens@.len()
    }

    /// A parser at the first of `tokens`.
    pub fn new(tokens: Vec<Token>) -> (r: Self)
        ensures
            r.wf(),
            r.tokens() == tokens_view(tokens@),
            r.position() == 0,
    {
        Parser { tokens, pos: 0 }
    }

    /// Parses a program from the current position: function definitions and
    /// top-level statements until `Eof` or the end of the tokens. The result
    /// and the position the parser is left at are those of `parse`.
    pub fn parse_program(&mut self) -> (r: Result<Program, String>)
        requires
            old(self).wf(),
        ensures
            final(self).wf(),
            final(self).tokens() == old(self).tokens(),
            match parse(old(self).tokens(), old(self).position()) {
                Ok((prog, q)) => r matches Ok(x) && x@ == prog && final(self).position() == q,
                Err((m, q)) => r matches Err(x) && x@ == m && final(self).position() == q,
            },
    {
        let (r, q) = parse_program_from(&self.tokens, self.pos);
        self.pos = q;
        r
    }
}

proof fn lemma_functions_push(s: Seq<Function>, f: Function)
    ensures
        functions_view(s.push(f)) == functions_view(s).push(f@),
{
    assert(functions_view(s.push(f)) =~= functions_view(s).push(f@));
}

fn parse_program_from(toks: &Vec<Token>, p0: usize) -> (r: (Result<Program, String>, usize))
    requires
        p0 <= toks.len(),
    ensures
        r.1 <= toks.len(),
        match parse(tv(toks), p0 as int) {
            Ok((prog, q)) => r.0 matches Ok(x) && x@ == prog && r.1 == q,
            Err((m, q)) => r.0 matches Err(x) && x@ == m && r.1 == q,
        },
{
    let functions: Vec<Function> = Vec::new();
    let globals: Vec<Stmt> = Vec::new();
    assert(functions_view(functions@) =~= Seq::empty());
    assert(stmts_view(globals@) =~= Seq::empty());
    program_items(toks, p0, functions, globals)
}

fn program_items(toks: &Vec<Token>, p: usize, functions: Vec<Function>, globals: Vec<Stmt>) -> (r: (
    Result<Program, String>,
    usize,
))
    requires
        p <= toks.len(),
    ensures
        r.1 <= toks.len(),
        match program_at(tv(toks), p as int, functions_view(functions@), stmts_view(globals@)) {
            Ok((prog, q)) => r.0 matches Ok(x) && x@ == prog && r.1 == q,
            Err((m, q)) => r.0 matches Err(x) && x@ == m && r.1 == q,
        },
    decreases toks.len() - p,
{
    let mut functions = functions;
    let mut globals = globals;
    if p >= toks.len() || toks[p].same(&Token::Eof) {
        return (Ok(Program { functions, globals }), p);
    }
    if toks[p].same(&Token::Def) {
        match parse_function(toks, p) {
            Ok((f, q)) => {
                let ghost old_f = functions@;
                functions.push(f);
                proof {
                    lemma_functions_push(old_f, f);
                }
                let q2 = skip_newlines(toks, q);
                program_items(toks, q2, functions, globals)
            },
            Err((m, q)) => (Err(m), q),
        }
    } else if starts_global_token(&toks[p]) {
        match parse_stmt(toks, p) {
            Ok((st, q)) => {
                let ghost old_g = globals@;
                globals.push(st);
                assert(globals@.drop_last() == old_g);
                let q2 = skip_newlines(toks, q);
                program_items(toks, q2, functions, globals)
            },
            Err((m, q)) => (Err(m), q),
        }
    } else {
        let mut m = owned("Unexpected token at top level: ");
        let d = toks[p].debug_text();
        push_str(&mut m, d.as_str());
        (Err(m), p)
    }
}


// ---------------------------------------------------------------------------
// Laws: every step that succeeds moves forward within the tokens.
// ---------------------------------------------------------------------------

/// The position of the first `Eof` token at or after `i`, or the end of the
/// tokens.
pub open spec fn eof_from(ts: Seq<TokenV>, i: int) -> int
    decreases ts.len() - i,
{
    if i < 0 || i >= ts.len() {
        ts.len() as int
    } else if ts[i] == TokenV::Eof {
        i
    } else {
        eof_from(ts, i + 1)
    }
}

/// The position of the first `Eof` token, or the end of the tokens.
pub open spec fn eof_pos(ts: Seq<TokenV>) -> int {
    eof_from(ts, 0)
}

proof fn lemma_eof_from(ts: Seq<TokenV>, i: int, k: int)
    requires
        0 <= i,
    ensures
        i <= eof_from(ts, i) <= ts.len() || (i > ts.len() && eof_from(ts, i) == ts.len()),
        eof_from(ts, i) < ts.len() ==> ts[eof_from(ts, i)] == TokenV::Eof,
        i <= k < eof_from(ts, i) ==> ts[k] != TokenV::Eof,
    decreases ts.len() - i,
{
    if 0 <= i < ts.len() && ts[i] != TokenV::Eof {
        lemma_eof_from(ts, i + 1, k);
    }
}

/// The first `Eof` lies within the tokens, and there is an `Eof` token at
/// that position unless it is the end; no token before `k < eof_pos` is `Eof`.
proof fn lemma_eof_pos(ts: Seq<TokenV>, k: int)
    ensures
        0 <= eof_pos(ts) <= ts.len(),
        eof_pos(ts) < ts.len() ==> ts[eof_pos(ts)] == TokenV::Eof,
        0 <= k < eof_pos(ts) ==> ts[k] != TokenV::Eof,
{
    lemma_eof_from(ts, 0, k);
}

/// A successful step ends past `p` and within the tokens, and does not read
/// past the first `Eof`.
pub open spec fn parsed_advances<T>(ts: Seq<TokenV>, r: Parsed<T>, p: int) -> bool {
    r matches Ok((_, q)) ==> p < q <= ts.len() && (p <= eof_pos(ts) ==> q <= eof_pos(ts))
}

/// A successful step ends at or past `p` and within the tokens, and does not
/// read past the first `Eof`.
pub open spec fn parsed_within<T>(ts: Seq<TokenV>, r: Parsed<T>, p: int) -> bool {
    r matches Ok((_, q)) ==> p <= q <= ts.len() && (p <= eof_pos(ts) ==> q <= eof_pos(ts))
}

/// Skipping `Newline` tokens does not pass the first `Eof`.
proof fn lemma_skip_newlines_eof(ts: Seq<TokenV>, p: int)
    requires
        0 <= p <= ts.len(),
    ensures
        p <= skip_newlines_at(ts, p) <= ts.len(),
        p <= eof_pos(ts) ==> skip_newlines_at(ts, p) <= eof_pos(ts),
    decreases ts.len() - p,
{
    lemma_eof_pos(ts, p);
    if p < ts.len() && ts[p] == TokenV::Newline {
        lemma_skip_newlines_eof(ts, p + 1);
    }
}

proof fn lemma_expr_adv(ts: Seq<TokenV>, p: int, min_bp: u8)
    requires
        0 <= p,
    ensures
        parsed_advances(ts, expr_at(ts, p, min_bp), p),
    decreases ts.len() - p, 3int,
{
    lemma_eof_pos(ts, p);
    lemma_primary_adv(ts, p);
    if let Ok((lhs, q)) = primary_at(ts, p) {
        lemma_tail_within(ts, lhs, q, min_bp);
    }
}

proof fn lemma_tail_within(ts: Seq<TokenV>, lhs: ExprV, p: int, min_bp: u8)
    requires
        0 <= p <= ts.len(),
    ensures
        parsed_within(ts, expr_tail_at(ts, lhs, p, min_bp), p),
    decreases ts.len() - p, 1int,
{
    lemma_eof_pos(ts, p);
    if let Some((bp, op)) = binop_of(peek_at(ts, p)) {
        if bp >= min_bp {
            lemma_expr_adv(ts, p + 1, bp);
            if let Ok((rhs, q)) = expr_at(ts, p + 1, bp) {
                lemma_tail_within(ts, ExprV::BinaryOp(Box::new(lhs), op, Box::new(rhs)), q, min_bp);
            }
        }
    }
}

proof fn lemma_primary_adv(ts: Seq<TokenV>, p: int)
    requires
        0 <= p,
    ensures
        parsed_advances(ts, primary_at(ts, p), p),
    decreases ts.len() - p, 2int,
{
    lemma_eof_pos(ts, p);
    if 0 <= p < ts.len() {
        let q = p + 1;
        match ts[p] {
            TokenV::Identifier(id) => {
                if q < ts.len() {
                    lemma_expr_adv(ts, q + 1, 0);
                    lemma_args_within(ts, q + 1, Seq::empty());
                }
            },
            TokenV::LParen => {
                lemma_expr_adv(ts, q, 0);
            },
            TokenV::Not => {
                lemma_expr_adv(ts, q, 10);
            },
            TokenV::Minus => {
                lemma_expr_adv(ts, q, 10);
            },
            _ => {},
        }
    }
}

proof fn lemma_args_within(ts: Seq<TokenV>, p: int, acc: Seq<ExprV>)
    requires
        0 <= p <= ts.len(),
    ensures
        parsed_within(ts, args_at(ts, p, acc), p),
    decreases ts.len() - p, 4int,
{
    lemma_eof_pos(ts, p);
    if 0 <= p < ts.len() && ts[p] != TokenV::RParen {
        lemma_expr_adv(ts, p, 0);
        if let Ok((e, q)) = expr_at(ts, p, 0) {
            let q2 = if peek_at(ts, q) == Some(TokenV::Comma) {
                q + 1
            } else {
                q
            };
            if moved(ts, p, q2) {
                lemma_args_within(ts, q2, acc.push(e));
            }
        }
    }
}

proof fn lemma_stmt_adv(ts: Seq<TokenV>, p: int)
    requires
        0 <= p,
    ensures
        parsed_advances(ts, stmt_at(ts, p), p),
    decreases ts.len() - p, 6int,
{
    lemma_eof_pos(ts, p);
    if p <= ts.len() {
        lemma_skip_newlines(ts, p);
        lemma_skip_newlines_eof(ts, p);
        let q = skip_newlines_at(ts, p);
        lemma_var_decl_adv(ts, q);
        lemma_if_adv(ts, q);
        lemma_while_adv(ts, q);
        lemma_return_adv(ts, q);
        lemma_print_adv(ts, q);
        lemma_set_output_adv(ts, q);
        lemma_assign_or_call_adv(ts, q);
    }
}

proof fn lemma_var_decl_adv(ts: Seq<TokenV>, p: int)
    requires
        0 <= p,
    ensures
        parsed_advances(ts, var_decl_at(ts, p), p),
    decreases ts.len() - p, 5int,
{
    lemma_eof_pos(ts, p);
    if let Ok(q) = expect_at(ts, p, TokenV::Var) {
        if let Ok(q2) = expect_at(ts, q + 1, TokenV::Colon) {
            if let Ok((t0, q3)) = type_at(ts, q2) {
                if let Ok((typ, q4)) = array_suffix_at(ts, q3, t0) {
                    lemma_expr_adv(ts, q4 + 1, 0);
                }
            }
        }
    }
}

proof fn lemma_indented_adv(ts: Seq<TokenV>, p: int)
    requires
        0 <= p,
    ensures
        parsed_advances(ts, indented_at(ts, p), p),
    decreases ts.len() - p, 8int,
{
    lemma_eof_pos(ts, p);
    if let Ok(q) = expect_at(ts, p, TokenV::Colon) {
        if let Ok(q2) = expect_at(ts, q, TokenV::Indent) {
            lemma_block_within(ts, q2, Seq::empty());
        }
    }
}

proof fn lemma_if_adv(ts: Seq<TokenV>, p: int)
    requires
        0 <= p,
    ensures
        parsed_advances(ts, if_at(ts, p), p),
    decreases ts.len() - p, 5int,
{
    lemma_eof_pos(ts, p);
    if let Ok(q) = expect_at(ts, p, TokenV::If) {
        lemma_expr_adv(ts, q, 0);
        if let Ok((cond, q2)) = expr_at(ts, q, 0) {
            if moved(ts, p, q2) {
                lemma_indented_adv(ts, q2);
                if let Ok((then_block, q3)) = indented_at(ts, q2) {
                    if peek_at(ts, q3) == Some(TokenV::Else) {
                        lemma_indented_adv(ts, q3 + 1);
                        if let Ok((else_block, q4)) = indented_at(ts, q3 + 1) {
                            assert(if_at(ts, p) == Ok::<(StmtV, int), (Seq<char>, int)>(
                                (StmtV::If { cond, then_block, else_block }, q4),
                            ));
                        } else {
                            assert(if_at(ts, p) is Err);
                        }
                    } else {
                        assert(if_at(ts, p) == Ok::<(StmtV, int), (Seq<char>, int)>(
                            (StmtV::If { cond, then_block, else_block: Seq::empty() }, q3),
                        ));
                    }
                } else {
                    assert(if_at(ts, p) is Err);
                }
            } else {
                assert(if_at(ts, p) is Err);
            }
        } else {
            assert(if_at(ts, p) is Err);
        }
    } else {
        assert(if_at(ts, p) is Err);
    }
}

proof fn lemma_while_adv(ts: Seq<TokenV>, p: int)
    requires
        0 <= p,
    ensures
        parsed_advances(ts, while_at(ts, p), p),
    decreases ts.len() - p, 5int,
{
    lemma_eof_pos(ts, p);
    if let Ok(q) = expect_at(ts, p, TokenV::While) {
        lemma_expr_adv(ts, q, 0);
        if let Ok((cond, q2)) = expr_at(ts, q, 0) {
            if moved(ts, p, q2) {
                lemma_indented_adv(ts, q2);
            }
        }
    }
}

proof fn lemma_return_adv(ts: Seq<TokenV>, p: int)
    requires
        0 <= p,
    ensures
        parsed_advances(ts, return_at(ts, p), p),
    decreases ts.len() - p, 5int,
{
    lemma_eof_pos(ts, p);
    if let Ok(q) = expect_at(ts, p, TokenV::Return) {
        lemma_expr_adv(ts, q, 0);
    }
}

proof fn lemma_print_adv(ts: Seq<TokenV>, p: int)
    requires
        0 <= p,
    ensures
        parsed_advances(ts, print_at(ts, p), p),
    decreases ts.len() - p, 5int,
{
    lemma_eof_pos(ts, p);
    if let Ok(q) = expect_at(ts, p, TokenV::Print) {
        if let Ok(q2) = expect_at(ts, q, TokenV::LParen) {
            lemma_args_within(ts, q2, Seq::empty());
        }
    }
}

proof fn lemma_set_output_adv(ts: Seq<TokenV>, p: int)
    requires
        0 <= p,
    ensures
        parsed_advances(ts, set_output_at(ts, p), p),
    decreases ts.len() - p, 5int,
{
    lemma_eof_pos(ts, p);
    if let Ok(q) = expect_at(ts, p, TokenV::SetOutput) {
        if let Ok(q2) = expect_at(ts, q, TokenV::LParen) {
            lemma_expr_adv(ts, q2, 0);
        }
    }
}

proof fn lemma_expr_stmt_adv(ts: Seq<TokenV>, p: int)
    requires
        0 <= p,
    ensures
        parsed_advances(ts, expr_stmt_at(ts, p), p),
    decreases ts.len() - p, 4int,
{
    lemma_eof_pos(ts, p);
    lemma_expr_adv(ts, p, 0);
}

proof fn lemma_assign_or_call_adv(ts: Seq<TokenV>, p: int)
    requires
        0 <= p,
    ensures
        parsed_advances(ts, assign_or_call_at(ts, p), p),
    decreases ts.len() - p, 5int,
{
    lemma_eof_pos(ts, p);
    let q = p + 1;
    lemma_expr_stmt_adv(ts, p);
    lemma_expr_adv(ts, q + 1, 0);
    if let Ok((index, q2)) = expr_at(ts, q + 1, 0) {
        if let Ok(q3) = expect_at(ts, q2, TokenV::RBracket) {
            lemma_expr_adv(ts, q3 + 1, 0);
        }
    }
}

proof fn lemma_block_within(ts: Seq<TokenV>, p: int, acc: Seq<StmtV>)
    requires
        0 <= p <= ts.len(),
    ensures
        parsed_within(ts, block_at(ts, p, acc), p),
    decreases ts.len() - p, 7int,
{
    lemma_eof_pos(ts, p);
    if 0 <= p < ts.len() && ts[p] != TokenV::Dedent && ts[p] != TokenV::Eof {
        lemma_stmt_adv(ts, p);
        if let Ok((s, q)) = stmt_at(ts, p) {
            lemma_skip_newlines(ts, q);
            lemma_skip_newlines_eof(ts, q);
            let q2 = skip_newlines_at(ts, q);
            if moved(ts, p, q2) {
                lemma_block_within(ts, q2, acc.push(s));
            }
        }
    }
}

proof fn lemma_params_within(ts: Seq<TokenV>, p: int, acc: Seq<(Seq<char>, Type)>)
    requires
        0 <= p <= ts.len(),
    ensures
        parsed_within(ts, params_at(ts, p, acc), p),
    decreases ts.len() - p,
{
    lemma_eof_pos(ts, p);
    if let Some(TokenV::Identifier(name)) = peek_at(ts, p) {
        if let Ok(q) = expect_at(ts, p + 1, TokenV::Colon) {
            if let Ok((t, q2)) = type_at(ts, q) {
                let q3 = if peek_at(ts, q2) == Some(TokenV::Comma) {
                    q2 + 1
                } else {
                    q2
                };
                if moved(ts, p, q3) {
                    lemma_params_within(ts, q3, acc.push((name, t)));
                }
            }
        }
    }
}

proof fn lemma_function_adv(ts: Seq<TokenV>, p: int)
    requires
        0 <= p,
    ensures
        parsed_advances(ts, function_at(ts, p), p),
{
    lemma_eof_pos(ts, p);
    reveal(function_at);
    if let Ok(q) = expect_at(ts, p, TokenV::Def) {
        if let Ok(q2) = expect_at(ts, q + 1, TokenV::LParen) {
            lemma_params_within(ts, q2, Seq::empty());
            if let Ok((params, q3)) = params_at(ts, q2, Seq::empty()) {
                if let Ok(q4) = expect_at(ts, q3, TokenV::RParen) {
                    lemma_indented_adv(ts, q4);
                }
            }
        }
    }
}

proof fn lemma_program_ends(ts: Seq<TokenV>, p: int, functions: Seq<FunctionV>, globals: Seq<StmtV>)
    requires
        0 <= p,
    ensures
        program_at(ts, p, functions, globals) matches Ok((_, q)) ==> p <= q && (q >= ts.len()
            || ts[q] == TokenV::Eof) && (p <= eof_pos(ts) ==> q <= eof_pos(ts)),
    decreases ts.len() - p,
{
    lemma_eof_pos(ts, p);
    match peek_at(ts, p) {
        Some(TokenV::Def) => {
            lemma_function_adv(ts, p);
            if let Ok((f, q)) = function_at(ts, p) {
                lemma_skip_newlines(ts, q);
                lemma_skip_newlines_eof(ts, q);
                let q2 = skip_newlines_at(ts, q);
                lemma_program_ends(ts, q2, functions.push(f), globals);
            }
        },
        Some(t) => if t != TokenV::Eof && starts_global(t) {
            lemma_stmt_adv(ts, p);
            if let Ok((s, q)) = stmt_at(ts, p) {
                lemma_skip_newlines(ts, q);
                lemma_skip_newlines_eof(ts, q);
                let q2 = skip_newlines_at(ts, q);
                lemma_program_ends(ts, q2, functions, globals.push(s));
            }
        },
        None => {},
    }
}

/// A program is read to its end: a parse that succeeds stops at an `Eof`
/// token or at the end of the tokens.
pub proof fn law_parse_reads_to_end(ts: Seq<TokenV>, p: int)
    requires
        0 <= p,
    ensures
        parse(ts, p) matches Ok((_, q)) ==> q >= ts.len() || ts[q] == TokenV::Eof,
{
    lemma_program_ends(ts, p, Seq::empty(), Seq::empty());
}

/// Every statement that parses consumes at least one token and stops within
/// the tokens.
pub proof fn law_statement_advances(ts: Seq<TokenV>, p: int)
    requires
        0 <= p,
    ensures
        parsed_advances(ts, stmt_at(ts, p), p),
{
    lemma_stmt_adv(ts, p);
}
/// No token but the last is `Eof`.
#[verifier::opaque]
pub open spec fn eof_only_last(ts: Seq<TokenV>) -> bool {
    forall|i: int| 0 <= i < ts.len() - 1 ==> ts[i] != TokenV::Eof
}

proof fn lemma_read_to_last(ts: Seq<TokenV>)
    requires
        ts.len() > 0,
        ts.last() == TokenV::Eof,
        eof_only_last(ts),
    ensures
        parse(ts, 0) matches Ok((_, q)) ==> q == ts.len() - 1,
{
    let n = ts.len() - 1;
    lemma_eof_pos(ts, n);
    let e = eof_pos(ts);
    assert(e == n) by {
        if e < n {
            reveal(eof_only_last);
            assert(ts[e] != TokenV::Eof);
        }
    }
    lemma_program_ends(ts, 0, Seq::empty(), Seq::empty());
    let r = program_at(ts, 0, Seq::empty(), Seq::empty());
    assert(parse(ts, 0) == r);
    if let Ok((_, q)) = r {
        if q < n {
            reveal(eof_only_last);
            assert(ts[q] != TokenV::Eof);
        }
    }
}

/// A source is read completely: when it lexes and its tokens parse, the
/// parser stops at the final `Eof`, with every other token read.
pub proof fn law_source_read_to_end(cs: Seq<char>)
    ensures
        lex(cs) matches LexOutcome::Tokens(ts) ==> (parse(ts, 0) matches Ok((_, q)) ==> q
            == ts.len() - 1),
{
    if let LexOutcome::Tokens(ts) = lex(cs) {
        law_single_eof(cs, 0);
        assert(eof_only_last(ts)) by {
            reveal(eof_only_last);
            assert forall|i: int| 0 <= i < ts.len() - 1 implies ts[i] != TokenV::Eof by {
                law_single_eof(cs, i);
            }
        }
        lemma_read_to_last(ts);
    }
}

/// Whether a token is a binary operator.
pub open spec fn is_operator(t: TokenV) -> bool {
    t == TokenV::Plus || t == TokenV::Minus || t == TokenV::Star || t == TokenV::Slash || t
        == TokenV::Eq || t == TokenV::Ne || t == TokenV::Lt || t == TokenV::Le || t == TokenV::Gt
        || t == TokenV::Ge || t == TokenV::And || t == TokenV::Or
}

/// The operator a binary-operator token writes.
pub open spec fn operator_of(t: TokenV) -> BinOp {
    match t {
        TokenV::Plus => BinOp::Add,
        TokenV::Minus => BinOp::Sub,
        TokenV::Star => BinOp::Mul,
        TokenV::Slash => BinOp::Div,
        TokenV::Eq => BinOp::Eq,
        TokenV::Ne => BinOp::Ne,
        TokenV::Lt => BinOp::Lt,
        TokenV::Le => BinOp::Le,
        TokenV::Gt => BinOp::Gt,
        TokenV::Ge => BinOp::Ge,
        TokenV::And => BinOp::And,
        _ => BinOp::Or,
    }
}

/// How strongly an operator binds, from `||` (weakest) through `&&`, the
/// comparisons, `+` and `-`, to `*` and `/` (strongest).
pub open spec fn strength(t: TokenV) -> int {
    if t == TokenV::Star || t == TokenV::Slash {
        5
    } else if t == TokenV::Plus || t == TokenV::Minus {
        4
    } else if t == TokenV::And {
        2
    } else if t == TokenV::Or {
        1
    } else {
        3
    }
}

/// Operator precedence and grouping: for names `a`, `b`, `c` and binary
/// operators `o1`, `o2`, the expression `a o1 b o2 c` (ended by `;`) groups
/// as `(a o1 b) o2 c` exactly when `o1` binds more strongly than `o2`
/// (`*` `/` over `+` `-` over comparisons over `&&` over `||`); otherwise as
/// `a o1 (b o2 c)` (operators of equal strength group to the right). So
/// `a / b + c` is `(a / b) + c`, `a + b / c` is `a + (b / c)`, and
/// `a / b * c` is `a / (b * c)`.
pub proof fn law_operator_grouping(
    ts: Seq<TokenV>,
    p: int,
    a: Seq<char>,
    o1: TokenV,
    b: Seq<char>,
    o2: TokenV,
    c: Seq<char>,
)
    requires
        0 <= p,
        p + 6 <= ts.len(),
        ts[p] == TokenV::Identifier(a),
        ts[p + 1] == o1,
        ts[p + 2] == TokenV::Identifier(b),
        ts[p + 3] == o2,
        ts[p + 4] == TokenV::Identifier(c),
        ts[p + 5] == TokenV::Semicolon,
        is_operator(o1),
        is_operator(o2),
    ensures
        expr_at(ts, p, 0) == Ok::<(ExprV, int), (Seq<char>, int)>(
            (
                if strength(o1) > strength(o2) {
                    ExprV::BinaryOp(
                        Box::new(
                            ExprV::BinaryOp(
                                Box::new(ExprV::Variable(a)),
                                operator_of(o1),
                                Box::new(ExprV::Variable(b)),
                            ),
                        ),
                        operator_of(o2),
                        Box::new(ExprV::Variable(c)),
                    )
                } else {
                    ExprV::BinaryOp(
                        Box::new(ExprV::Variable(a)),
                        operator_of(o1),
                        Box::new(
                            ExprV::BinaryOp(
                                Box::new(ExprV::Variable(b)),
                                operator_of(o2),
                                Box::new(ExprV::Variable(c)),
                            ),
                        ),
                    )
                },
                p + 5,
            ),
        ),
{
    let va = ExprV::Variable(a);
    let vb = ExprV::Variable(b);
    let vc = ExprV::Variable(c);
    let (bp1, op1) = binop_of(Some(o1))->0;
    let (bp2, op2) = binop_of(Some(o2))->0;
    assert(op1 == operator_of(o1) && op2 == operator_of(o2));
    assert(bp1 > bp2 <==> strength(o1) > strength(o2));
    assert(primary_at(ts, p) == Ok::<(ExprV, int), (Seq<char>, int)>((va, p + 1)));
    assert(primary_at(ts, p + 2) == Ok::<(ExprV, int), (Seq<char>, int)>((vb, p + 3)));
    assert(primary_at(ts, p + 4) == Ok::<(ExprV, int), (Seq<char>, int)>((vc, p + 5)));
    assert(binop_of(peek_at(ts, p + 5)) is None);
    assert(expr_tail_at(ts, vc, p + 5, bp2) == Ok::<(ExprV, int), (Seq<char>, int)>((vc, p + 5)));
    assert(expr_at(ts, p + 4, bp2) == Ok::<(ExprV, int), (Seq<char>, int)>((vc, p + 5)));
    let bc = ExprV::BinaryOp(Box::new(vb), op2, Box::new(vc));
    if bp1 > bp2 {
        assert(expr_tail_at(ts, vb, p + 3, bp1) == Ok::<(ExprV, int), (Seq<char>, int)>((vb, p + 3)));
        assert(expr_at(ts, p + 2, bp1) == Ok::<(ExprV, int), (Seq<char>, int)>((vb, p + 3)));
        let ab = ExprV::BinaryOp(Box::new(va), op1, Box::new(vb));
        let abc = ExprV::BinaryOp(Box::new(ab), op2, Box::new(vc));
        assert(expr_tail_at(ts, abc, p + 5, 0) == Ok::<(ExprV, int), (Seq<char>, int)>((abc, p + 5)));
        assert(expr_tail_at(ts, ab, p + 3, 0) == Ok::<(ExprV, int), (Seq<char>, int)>((abc, p + 5)));
        assert(expr_tail_at(ts, va, p + 1, 0) == Ok::<(ExprV, int), (Seq<char>, int)>((abc, p + 5)));
    } else {
        assert(expr_tail_at(ts, bc, p + 5, bp1) == Ok::<(ExprV, int), (Seq<char>, int)>((bc, p + 5)));
        assert(expr_tail_at(ts, vb, p + 3, bp1) == Ok::<(ExprV, int), (Seq<char>, int)>((bc, p + 5)));
        assert(expr_at(ts, p + 2, bp1) == Ok::<(ExprV, int), (Seq<char>, int)>((bc, p + 5)));
        let abc = ExprV::BinaryOp(Box::new(va), op1, Box::new(bc));
        assert(expr_tail_at(ts, abc, p + 5, 0) == Ok::<(ExprV, int), (Seq<char>, int)>((abc, p + 5)));
        assert(expr_tail_at(ts, va, p + 1, 0) == Ok::<(ExprV, int), (Seq<char>, int)>((abc, p + 5)));
    }
}

/// The expression a single literal or name token stands for.
pub open spec fn leaf_expr(t: TokenV) -> Option<ExprV> {
    match t {
        TokenV::IntLit(n) => Some(ExprV::Integer(n)),
        TokenV::FloatLit(f) => Some(ExprV::Float(f)),
        TokenV::True => Some(ExprV::Bool(true)),
        TokenV::False => Some(ExprV::Bool(false)),
        TokenV::StringLit(s) => Some(ExprV::String(s)),
        TokenV::CharLit(c) => Some(ExprV::Char(c)),
        TokenV::Identifier(x) => Some(ExprV::Variable(x)),
        _ => None,
    }
}

/// Leaves and prefix operators: a literal or a name followed by `;` is that
/// value or variable; `-` and `!` before one apply negation and logical not;
/// a leaf in parentheses is the leaf itself.
pub proof fn law_leaf_expressions(ts: Seq<TokenV>, p: int)
    requires
        0 <= p,
        p + 4 <= ts.len(),
    ensures
        leaf_expr(ts[p]) is Some && ts[p + 1] == TokenV::Semicolon ==> expr_at(ts, p, 0) == Ok::<
            (ExprV, int),
            (Seq<char>, int),
        >((leaf_expr(ts[p])->0, p + 1)),
        ts[p] == TokenV::Minus && leaf_expr(ts[p + 1]) is Some && ts[p + 2] == TokenV::Semicolon
            ==> expr_at(ts, p, 0) == Ok::<(ExprV, int), (Seq<char>, int)>(
            (ExprV::UnaryOp(UnOp::Neg, Box::new(leaf_expr(ts[p + 1])->0)), p + 2),
        ),
        ts[p] == TokenV::Not && leaf_expr(ts[p + 1]) is Some && ts[p + 2] == TokenV::Semicolon
            ==> expr_at(ts, p, 0) == Ok::<(ExprV, int), (Seq<char>, int)>(
            (ExprV::UnaryOp(UnOp::Not, Box::new(leaf_expr(ts[p + 1])->0)), p + 2),
        ),
        ts[p] == TokenV::LParen && leaf_expr(ts[p + 1]) is Some && ts[p + 2] == TokenV::RParen
            && ts[p + 3] == TokenV::Semicolon ==> expr_at(ts, p, 0) == Ok::<
            (ExprV, int),
            (Seq<char>, int),
        >((leaf_expr(ts[p + 1])->0, p + 3)),
{
    if let Some(e) = leaf_expr(ts[p + 1]) {
        if ts[p + 2] == TokenV::Semicolon {
            assert(primary_at(ts, p + 1) == Ok::<(ExprV, int), (Seq<char>, int)>((e, p + 2)));
            assert(expr_tail_at(ts, e, p + 2, 10) == Ok::<(ExprV, int), (Seq<char>, int)>((e, p + 2)));
            assert(expr_tail_at(ts, e, p + 2, 0) == Ok::<(ExprV, int), (Seq<char>, int)>((e, p + 2)));
            assert(expr_at(ts, p + 1, 10) == Ok::<(ExprV, int), (Seq<char>, int)>((e, p + 2)));
            if ts[p] == TokenV::Minus {
                let u = ExprV::UnaryOp(UnOp::Neg, Box::new(e));
                assert(expr_tail_at(ts, u, p + 2, 0) == Ok::<(ExprV, int), (Seq<char>, int)>((u, p + 2)));
            }
            if ts[p] == TokenV::Not {
                let u = ExprV::UnaryOp(UnOp::Not, Box::new(e));
                assert(expr_tail_at(ts, u, p + 2, 0) == Ok::<(ExprV, int), (Seq<char>, int)>((u, p + 2)));
            }
        }
        if ts[p + 2] == TokenV::RParen && ts[p + 3] == TokenV::Semicolon {
            assert(primary_at(ts, p + 1) == Ok::<(ExprV, int), (Seq<char>, int)>((e, p + 2)));
            assert(expr_tail_at(ts, e, p + 2, 0) == Ok::<(ExprV, int), (Seq<char>, int)>((e, p + 2)));
            assert(expr_at(ts, p + 1, 0) == Ok::<(ExprV, int), (Seq<char>, int)>((e, p + 2)));
            assert(expr_tail_at(ts, e, p + 3, 0) == Ok::<(ExprV, int), (Seq<char>, int)>((e, p + 3)));
        }
    }
    if let Some(e) = leaf_expr(ts[p]) {
        if ts[p + 1] == TokenV::Semicolon {
            assert(primary_at(ts, p) == Ok::<(ExprV, int), (Seq<char>, int)>((e, p + 1)));
            assert(expr_tail_at(ts, e, p + 1, 0) == Ok::<(ExprV, int), (Seq<char>, int)>((e, p + 1)));
        }
    }
}

proof fn lemma_leaf_then(ts: Seq<TokenV>, p: int, min_bp: u8)
    requires
        0 <= p,
        p + 2 <= ts.len(),
        leaf_expr(ts[p]) is Some,
        ts[p + 1] == TokenV::Semicolon || ts[p + 1] == TokenV::RParen,
    ensures
        expr_at(ts, p, min_bp) == Ok::<(ExprV, int), (Seq<char>, int)>((leaf_expr(ts[p])->0, p + 1)),
{
    let e = leaf_expr(ts[p])->0;
    assert(primary_at(ts, p) == Ok::<(ExprV, int), (Seq<char>, int)>((e, p + 1)));
    assert(expr_tail_at(ts, e, p + 1, min_bp) == Ok::<(ExprV, int), (Seq<char>, int)>((e, p + 1)));
}

/// The type a type-name token names.
pub open spec fn type_named(t: TokenV) -> Option<Type> {
    match t {
        TokenV::IntType => Some(Type::Int),
        TokenV::FloatType => Some(Type::Float),
        TokenV::BoolType => Some(Type::Bool),
        TokenV::StringType => Some(Type::String),
        TokenV::CharType => Some(Type::Char),
        _ => None,
    }
}

/// Simple statements, where `v` is a literal or a name: `var x: T;` and
/// `var x: T = v;` declare `x` with type `T`; `x = v;` assigns; `return v;`
/// returns; `print(v);` prints; `input(x);` reads into `x`. Each statement
/// ends just after its `;`.
pub proof fn law_simple_statements(ts: Seq<TokenV>, p: int)
    requires
        0 <= p,
        p + 7 <= ts.len(),
    ensures
        ({
            let ok = |s: StmtV, q: int| stmt_at(ts, p) == Ok::<(StmtV, int), (Seq<char>, int)>((s, q));
            &&& ts[p] == TokenV::Var && ts[p + 1] is Identifier && ts[p + 2] == TokenV::Colon
                && type_named(ts[p + 3]) is Some && ts[p + 4] == TokenV::Semicolon ==> ok(
                StmtV::VarDecl {
                    name: ts[p + 1]->Identifier_0,
                    typ: type_named(ts[p + 3])->0,
                    init: None,
                },
                p + 5,
            )
            &&& ts[p] == TokenV::Var && ts[p + 1] is Identifier && ts[p + 2] == TokenV::Colon
                && type_named(ts[p + 3]) is Some && ts[p + 4] == TokenV::Assign && leaf_expr(
                ts[p + 5],
            ) is Some && ts[p + 6] == TokenV::Semicolon ==> ok(
                StmtV::VarDecl {
                    name: ts[p + 1]->Identifier_0,
                    typ: type_named(ts[p + 3])->0,
                    init: leaf_expr(ts[p + 5]),
                },
                p + 7,
            )
            &&& ts[p] is Identifier && ts[p + 1] == TokenV::Assign && leaf_expr(ts[p + 2]) is Some
                && ts[p + 3] == TokenV::Semicolon ==> ok(
                StmtV::Assign {
                    target: ts[p]->Identifier_0,
                    index: None,
                    expr: leaf_expr(ts[p + 2])->0,
                },
                p + 4,
            )
            &&& ts[p] == TokenV::Return && leaf_expr(ts[p + 1]) is Some && ts[p + 2]
                == TokenV::Semicolon ==> ok(StmtV::Return(leaf_expr(ts[p + 1])->0), p + 3)
            &&& ts[p] == TokenV::Print && ts[p + 1] == TokenV::LParen && leaf_expr(ts[p + 2]) is Some
                && ts[p + 3] == TokenV::RParen && ts[p + 4] == TokenV::Semicolon ==> ok(
                StmtV::Print(seq![leaf_expr(ts[p + 2])->0]),
                p + 5,
            )
            &&& ts[p] == TokenV::Input && ts[p + 1] == TokenV::LParen && ts[p + 2] is Identifier
                && ts[p + 3] == TokenV::RParen && ts[p + 4] == TokenV::Semicolon ==> ok(
                StmtV::Input(ts[p + 2]->Identifier_0),
                p + 5,
            )
        }),
{
    lemma_skip_newlines(ts, p);
    if ts[p] != TokenV::Newline {
        assert(skip_newlines_at(ts, p) == p);
    }
    if leaf_expr(ts[p + 5]) is Some && ts[p + 6] == TokenV::Semicolon {
        lemma_leaf_then(ts, p + 5, 0);
    }
    if leaf_expr(ts[p + 2]) is Some && (ts[p + 3] == TokenV::Semicolon || ts[p + 3] == TokenV::RParen) {
        lemma_leaf_then(ts, p + 2, 0);
        if ts[p] == TokenV::Print && ts[p + 1] == TokenV::LParen && ts[p + 3] == TokenV::RParen {
            let e = leaf_expr(ts[p + 2])->0;
            assert(args_at(ts, p + 3, seq![e]) == Ok::<(Seq<ExprV>, int), (Seq<char>, int)>(
                (seq![e], p + 3),
            ));
            assert(Seq::<ExprV>::empty().push(e) == seq![e]);
            assert(args_at(ts, p + 2, Seq::empty()) == Ok::<(Seq<ExprV>, int), (Seq<char>, int)>(
                (seq![e], p + 3),
            ));
        }
    }
    if leaf_expr(ts[p + 1]) is Some && ts[p + 2] == TokenV::Semicolon {
        lemma_leaf_then(ts, p + 1, 0);
    }
}

} // verus!
