//! The abstract syntax of SITPL programs, and its mathematical view: the same
//! trees with text held as character sequences.

use vstd::prelude::*;

verus! {

/// The types of SITPL values.
#[derive(Debug, PartialEq, Eq)]
pub enum Type {
    Int,
    Float,
    Bool,
    String,
    Char,
    /// An array: element type and length.
    Array(Box<Type>, usize),
}

/// Binary operators.
#[derive(Debug, Clone, Copy, PartialEq, Eq, Structural)]
pub enum BinOp {
    Add,
    Sub,
    Mul,
    Div,
    Eq,
    Ne,
    Lt,
    Le,
    Gt,
    Ge,
    And,
    Or,
}

/// Unary operators.
#[derive(Debug, Clone, Copy, PartialEq, Eq, Structural)]
pub enum UnOp {
    Neg,
    Not,
}

/// Expressions. A floating-point literal is held as its decimal text.
#[derive(Debug)]
pub enum Expr {
    Integer(i64),
    Float(String),
    Bool(bool),
    String(String),
    Char(char),
    Variable(String),
    /// Array name and index.
    ArrayElement(String, Box<Expr>),
    BinaryOp(Box<Expr>, BinOp, Box<Expr>),
    UnaryOp(UnOp, Box<Expr>),
    /// Function name and arguments.
    Call(String, Vec<Expr>),
}

/// Statements.
#[derive(Debug)]
pub enum Stmt {
    VarDecl { name: String, typ: Type, init: Option<Expr> },
    /// With an `index`, an assignment to an array element.
    Assign { target: String, index: Option<Box<Expr>>, expr: Expr },
    If { cond: Expr, then_block: Vec<Stmt>, else_block: Vec<Stmt> },
    While { cond: Expr, body: Vec<Stmt> },
    Return(Expr),
    /// An expression evaluated for its effect (such as a call).
    ExprStmt(Expr),
    Print(Vec<Expr>),
    Input(String),
    SetOutput(Expr),
}

/// A function definition.
#[derive(Debug)]
pub struct Function {
    pub name: String,
    pub params: Vec<(String, Type)>,
    pub body: Vec<Stmt>,
}

/// A program: function definitions and top-level statements.
#[derive(Debug)]
pub struct Program {
    pub functions: Vec<Function>,
    /// Top-level statements, which run before anything else.
    pub globals: Vec<Stmt>,
}

// ---------------------------------------------------------------------------
// The mathematical view.
// ---------------------------------------------------------------------------

pub enum ExprV {
    Integer(i64),
    Float(Seq<char>),
    Bool(bool),
    String(Seq<char>),
    Char(char),
    Variable(Seq<char>),
    ArrayElement(Seq<char>, Box<ExprV>),
    BinaryOp(Box<ExprV>, BinOp, Box<ExprV>),
    UnaryOp(UnOp, Box<ExprV>),
    Call(Seq<char>, Seq<ExprV>),
}

pub enum StmtV {
    VarDecl { name: Seq<char>, typ: Type, init: Option<ExprV> },
    Assign { target: Seq<char>, index: Option<ExprV>, expr: ExprV },
    If { cond: ExprV, then_block: Seq<StmtV>, else_block: Seq<StmtV> },
    While { cond: ExprV, body: Seq<StmtV> },
    Return(ExprV),
    ExprStmt(ExprV),
    Print(Seq<ExprV>),
    Input(Seq<char>),
    SetOutput(ExprV),
}

pub struct FunctionV {
    pub name: Seq<char>,
    pub params: Seq<(Seq<char>, Type)>,
    pub body: Seq<StmtV>,
}

pub struct ProgramV {
    pub functions: Seq<FunctionV>,
    pub globals: Seq<StmtV>,
}

pub open spec fn exprs_view(s: Seq<Expr>) -> Seq<ExprV>
    decreases s,
{
    if s.len() == 0 {
        Seq::empty()
    } else {
        exprs_view(s.drop_last()).push(expr_view(s.last()))
    }
}

pub open spec fn expr_view(e: Expr) -> ExprV
    decreases e,
{
    match e {
        Expr::Integer(n) => ExprV::Integer(n),
        Expr::Float(t) => ExprV::Float(t@),
        Expr::Bool(b) => ExprV::Bool(b),
        Expr::String(s) => ExprV::String(s@),
        Expr::Char(c) => ExprV::Char(c),
        Expr::Variable(n) => ExprV::Variable(n@),
        Expr::ArrayElement(n, i) => ExprV::ArrayElement(n@, Box::new(expr_view(*i))),
        Expr::BinaryOp(l, op, r) => ExprV::BinaryOp(
            Box::new(expr_view(*l)),
            op,
            Box::new(expr_view(*r)),
        ),
        Expr::UnaryOp(op, x) => ExprV::UnaryOp(op, Box::new(expr_view(*x))),
        Expr::Call(n, args) => ExprV::Call(n@, exprs_view(args@)),
    }
}

impl View for Expr {
    type V = ExprV;

    open spec fn view(&self) -> ExprV {
        expr_view(*self)
    }
}

pub open spec fn stmts_view(s: Seq<Stmt>) -> Seq<StmtV>
    decreases s,
{
    if s.len() == 0 {
        Seq::empty()
    } else {
        stmts_view(s.drop_last()).push(stmt_view(s.last()))
    }
}

pub open spec fn stmt_view(s: Stmt) -> StmtV
    decreases s,
{
    match s {
        Stmt::VarDecl { name, typ, init } => StmtV::VarDecl {
            name: name@,
            typ,
            init: match init {
                Some(e) => Some(expr_view(e)),
                None => None,
            },
        },
        Stmt::Assign { target, index, expr } => StmtV::Assign {
            target: target@,
            index: match index {
                Some(e) => Some(expr_view(*e)),
                None => None,
            },
            expr: expr_view(expr),
        },
        Stmt::If { cond, then_block, else_block } => StmtV::If {
            cond: expr_view(cond),
            then_block: stmts_view(then_block@),
            else_block: stmts_view(else_block@),
        },
        Stmt::While { cond, body } => StmtV::While { cond: expr_view(cond), body: stmts_view(body@) },
        Stmt::Return(e) => StmtV::Return(expr_view(e)),
        Stmt::ExprStmt(e) => StmtV::ExprStmt(expr_view(e)),
        Stmt::Print(args) => StmtV::Print(exprs_view(args@)),
        Stmt::Input(v) => StmtV::Input(v@),
        Stmt::SetOutput(e) => StmtV::SetOutput(expr_view(e)),
    }
}

impl View for Stmt {
    type V = StmtV;

    open spec fn view(&self) -> StmtV {
        stmt_view(*self)
    }
}

pub open spec fn params_view(p: Seq<(String, Type)>) -> Seq<(Seq<char>, Type)> {
    p.map_values(|q: (String, Type)| (q.0@, q.1))
}

impl View for Function {
    type V = FunctionV;

    open spec fn view(&self) -> FunctionV {
        FunctionV { name: self.name@, params: params_view(self.params@), body: stmts_view(self.body@) }
    }
}

pub open spec fn functions_view(f: Seq<Function>) -> Seq<FunctionV> {
    f.map_values(|g: Function| g@)
}

impl View for Program {
    type V = ProgramV;

    open spec fn view(&self) -> ProgramV {
        ProgramV { functions: functions_view(self.functions@), globals: stmts_view(self.globals@) }
    }
}

pub proof fn lemma_exprs_view(s: Seq<Expr>)
    ensures
        exprs_view(s).len() == s.len(),
        forall|i: int| 0 <= i < s.len() ==> #[trigger] exprs_view(s)[i] == expr_view(s[i]),
    decreases s.len(),
{
    if s.len() > 0 {
        lemma_exprs_view(s.drop_last());
    }
}

pub proof fn lemma_stmts_view(s: Seq<Stmt>)
    ensures
        stmts_view(s).len() == s.len(),
        forall|i: int| 0 <= i < s.len() ==> #[trigger] stmts_view(s)[i] == stmt_view(s[i]),
    decreases s.len(),
{
    if s.len() > 0 {
        lemma_stmts_view(s.drop_last());
    }
}

/// A copy of a type.
pub fn copy_type(t: &Type) -> (r: Type)
    ensures
        r == *t,
    decreases t,
{
    match t {
        Type::Int => Type::Int,
        Type::Float => Type::Float,
        Type::Bool => Type::Bool,
        Type::String => Type::String,
        Type::Char => Type::Char,
        Type::Array(e, n) => Type::Array(Box::new(copy_type(e)), *n),
    }
}

impl Clone for Type {
    fn clone(&self) -> (r: Self)
        ensures
            r == *self,
    {
        copy_type(self)
    }
}

/// Whether two types are the same.
pub fn same_type(a: &Type, b: &Type) -> (r: bool)
    ensures
        r == (*a == *b),
    decreases a,
{
    match (a, b) {
        (Type::Int, Type::Int) => true,
        (Type::Float, Type::Float) => true,
        (Type::Bool, Type::Bool) => true,
        (Type::String, Type::String) => true,
        (Type::Char, Type::Char) => true,
        (Type::Array(x, n), Type::Array(y, m)) => *n == *m && same_type(x, y),
        _ => false,
    }
}

} // verus!
