//! Semantic analysis: name resolution through nested scopes, a simple type
//! check of expressions, and allocation of VM registers to variables.

use vstd::prelude::*;
use vstd::string::*;
use crate::ast::{
    copy_type, exprs_view, functions_view, lemma_exprs_view, lemma_stmts_view, params_view, same_type, stmts_view,
    BinOp, Expr, ExprV, Function, FunctionV, Program, ProgramV, Stmt, StmtV, Type, UnOp,
};
use crate::text::{copy_text, owned, push_str, text_eq};

verus! {

broadcast use vstd::string::group_string_axioms;

/// What a variable name stands for: its first register, its type, whether it
/// is an array, and an array's length.
#[derive(Debug)]
pub struct Symbol {
    pub reg: usize,
    pub typ: Type,
    pub is_array: bool,
    pub size: Option<usize>,
}

impl Symbol {
    /// A copy of the symbol.
    pub fn copy(&self) -> (r: Symbol)
        ensures
            r == *self,
    {
        Symbol { reg: self.reg, typ: copy_type(&self.typ), is_array: self.is_array, size: self.size }
    }
}

/// The result of a step that may fail with an error, or stop with the
/// message of a panic (an unwrap of `None`, an arithmetic overflow).
pub enum Outcome<T> {
    Done(T),
    Fail(String),
    Abort(String),
}

// ---------------------------------------------------------------------------
// The model: a table is a stack of scopes, each a map from names to symbols,
// with the next free register and the function being checked.
// ---------------------------------------------------------------------------

pub struct TableV {
    pub scopes: Seq<Map<Seq<char>, Symbol>>,
    pub next_reg: int,
    pub current_function: Option<Seq<char>>,
}

/// The message of an arithmetic overflow in `+`.
pub open spec fn add_overflow() -> Seq<char> {
    "attempt to add with overflow"@
}

/// The message of an arithmetic overflow in `-`.
pub open spec fn sub_overflow() -> Seq<char> {
    "attempt to subtract with overflow"@
}

/// The message of an `unwrap` of `None`.
pub open spec fn unwrap_none() -> Seq<char> {
    "called `Option::unwrap()` on a `None` value"@
}

/// The message of `unreachable!()`.
pub open spec fn unreachable_msg() -> Seq<char> {
    "internal error: entered unreachable code"@
}

/// The symbol a name resolves to: its entry in the innermost scope that has one.
pub open spec fn lookup_in(scopes: Seq<Map<Seq<char>, Symbol>>, name: Seq<char>) -> Option<Symbol>
    decreases scopes.len(),
{
    if scopes.len() == 0 {
        None
    } else if scopes.last().contains_key(name) {
        Some(scopes.last()[name])
    } else {
        lookup_in(scopes.drop_last(), name)
    }
}

/// A new innermost scope.
pub open spec fn enter(t: TableV) -> TableV {
    TableV { scopes: t.scopes.push(Map::empty()), ..t }
}

/// Without the innermost scope (if there is one).
pub open spec fn exit(t: TableV) -> TableV {
    if t.scopes.len() > 0 {
        TableV { scopes: t.scopes.drop_last(), ..t }
    } else {
        t
    }
}

/// How many registers a declaration takes: an array's length, else one.
pub open spec fn width(size: Option<usize>) -> int {
    match size {
        Some(n) => n as int,
        None => 1,
    }
}

/// The result of declaring a name: the table after it and the symbol's
/// first register; or an error; or a stop.
pub enum Declared {
    Done(TableV, usize),
    Fail(Seq<char>),
    Abort(Seq<char>),
}

/// Declaring `name` in the innermost scope: refused when that scope already
/// has it; else it takes the next free registers (`width` of them).
pub open spec fn declare_in(
    t: TableV,
    name: Seq<char>,
    typ: Type,
    is_array: bool,
    size: Option<usize>,
) -> Declared {
    if t.scopes.len() == 0 {
        Declared::Abort(unwrap_none())
    } else if t.scopes.last().contains_key(name) {
        Declared::Fail("Variable "@ + name + " already declared"@)
    } else if t.next_reg + 1 > usize::MAX {
        Declared::Abort(add_overflow())
    } else if size == Some(0usize) {
        Declared::Abort(sub_overflow())
    } else if t.next_reg + width(size) > usize::MAX {
        Declared::Abort(add_overflow())
    } else {
        let sym = Symbol { reg: t.next_reg as usize, typ, is_array, size };
        Declared::Done(
            TableV {
                scopes: t.scopes.update(
                    t.scopes.len() - 1,
                    t.scopes.last().insert(name, sym),
                ),
                next_reg: t.next_reg + width(size),
                ..t
            },
            t.next_reg as usize,
        )
    }
}

/// The type of an expression, an error, or a stop.
pub enum Typed {
    Done(Type),
    Fail(Seq<char>),
    Abort(Seq<char>),
}

/// The type of a binary operation on operands of types `lt` and `rt`:
/// arithmetic on equal types gives that type; comparison of equal types and
/// logic on booleans give `bool`.
pub open spec fn binop_type(op: BinOp, lt: Type, rt: Type) -> Typed {
    match op {
        BinOp::Add | BinOp::Sub | BinOp::Mul | BinOp::Div => if lt == rt {
            Typed::Done(lt)
        } else {
            Typed::Fail("Type mismatch in arithmetic"@)
        },
        BinOp::Eq | BinOp::Ne | BinOp::Lt | BinOp::Le | BinOp::Gt | BinOp::Ge => if lt == rt {
            Typed::Done(Type::Bool)
        } else {
            Typed::Fail("Type mismatch in comparison"@)
        },
        BinOp::And | BinOp::Or => if lt == Type::Bool && rt == Type::Bool {
            Typed::Done(Type::Bool)
        } else {
            Typed::Fail("Logical operators require bool"@)
        },
    }
}

/// The type of a unary operation: negation of a number, `!` of a boolean.
pub open spec fn unop_type(op: UnOp, t: Type) -> Typed {
    match op {
        UnOp::Neg => if t == Type::Int || t == Type::Float {
            Typed::Done(t)
        } else {
            Typed::Fail("Negation requires numeric type"@)
        },
        UnOp::Not => if t == Type::Bool {
            Typed::Done(Type::Bool)
        } else {
            Typed::Fail("Not requires bool"@)
        },
    }
}

/// The type of an expression in a table. A call is taken to give an `int`
/// without its arguments being looked at; an array index is checked but its
/// type is not.
pub open spec fn check_expr_in(t: TableV, e: ExprV) -> Typed
    decreases e,
{
    match e {
        ExprV::Integer(_) => Typed::Done(Type::Int),
        ExprV::Float(_) => Typed::Done(Type::Float),
        ExprV::Bool(_) => Typed::Done(Type::Bool),
        ExprV::String(_) => Typed::Done(Type::String),
        ExprV::Char(_) => Typed::Done(Type::Char),
        ExprV::Variable(name) => match lookup_in(t.scopes, name) {
            None => Typed::Fail("Variable "@ + name + " not declared"@),
            Some(sym) => Typed::Done(sym.typ),
        },
        ExprV::ArrayElement(name, idx) => match lookup_in(t.scopes, name) {
            None => Typed::Fail("Array "@ + name + " not declared"@),
            Some(sym) => if !sym.is_array {
                Typed::Fail(name + " is not an array"@)
            } else {
                match check_expr_in(t, *idx) {
                    Typed::Done(_) => match sym.typ {
                        Type::Array(elem, _) => Typed::Done(*elem),
                        _ => Typed::Abort(unreachable_msg()),
                    },
                    other => other,
                }
            },
        },
        ExprV::BinaryOp(l, op, r) => match check_expr_in(t, *l) {
            Typed::Done(lt) => match check_expr_in(t, *r) {
                Typed::Done(rt) => binop_type(op, lt, rt),
                other => other,
            },
            other => other,
        },
        ExprV::UnaryOp(op, x) => match check_expr_in(t, *x) {
            Typed::Done(st) => unop_type(op, st),
            other => other,
        },
        ExprV::Call(_, _) => Typed::Done(Type::Int),
    }
}

/// The result of checking statements: the table after them, or an error with
/// the table as it was left, or a stop.
pub enum Checked {
    Done(TableV),
    Fail(TableV, Seq<char>),
    Abort(Seq<char>),
}

/// Checking an expression, which leaves the table as it is.
pub open spec fn expr_stmt_in(t: TableV, e: ExprV) -> Checked {
    match check_expr_in(t, e) {
        Typed::Done(_) => Checked::Done(t),
        Typed::Fail(m) => Checked::Fail(t, m),
        Typed::Abort(m) => Checked::Abort(m),
    }
}

/// Checking expressions in order, up to the first that fails.
pub open spec fn exprs_in(t: TableV, es: Seq<ExprV>) -> Checked
    decreases es.len(),
{
    if es.len() == 0 {
        Checked::Done(t)
    } else {
        match expr_stmt_in(t, es[0]) {
            Checked::Done(t1) => exprs_in(t1, es.drop_first()),
            other => other,
        }
    }
}

/// Checking a statement: a declaration declares its name (in the innermost
/// scope) and then checks its initializer; an assignment needs its target
/// declared (and an array, when indexed); the blocks of `if` and `while` are
/// checked in scopes of their own; `return` is refused outside a function;
/// `input` needs its variable declared.
pub open spec fn check_stmt_in(t: TableV, s: StmtV) -> Checked
    decreases s,
{
    match s {
        StmtV::VarDecl { name, typ, init } => {
            let is_array = typ is Array;
            let size = match typ {
                Type::Array(_, n) => Some(n),
                _ => None,
            };
            match declare_in(t, name, typ, is_array, size) {
                Declared::Abort(m) => Checked::Abort(m),
                Declared::Fail(m) => Checked::Fail(t, m),
                Declared::Done(t2, _) => match init {
                    None => Checked::Done(t2),
                    Some(e) => expr_stmt_in(t2, e),
                },
            }
        },
        StmtV::Assign { target, index, expr } => match lookup_in(t.scopes, target) {
            None => Checked::Fail(t, "Variable "@ + target + " not declared"@),
            Some(sym) => if index is Some && !sym.is_array {
                Checked::Fail(t, target + " is not an array"@)
            } else {
                expr_stmt_in(t, expr)
            },
        },
        StmtV::If { cond, then_block, else_block } => match expr_stmt_in(t, cond) {
            Checked::Done(t1) => match check_block_in(enter(t1), then_block) {
                Checked::Done(t2) => match check_block_in(enter(exit(t2)), else_block) {
                    Checked::Done(t3) => Checked::Done(exit(t3)),
                    other => other,
                },
                other => other,
            },
            other => other,
        },
        StmtV::While { cond, body } => match expr_stmt_in(t, cond) {
            Checked::Done(t1) => match check_block_in(enter(t1), body) {
                Checked::Done(t2) => Checked::Done(exit(t2)),
                other => other,
            },
            other => other,
        },
        StmtV::Return(e) => if t.current_function is None {
            Checked::Fail(t, "return outside function"@)
        } else {
            expr_stmt_in(t, e)
        },
        StmtV::ExprStmt(e) => expr_stmt_in(t, e),
        StmtV::Print(args) => exprs_in(t, args),
        StmtV::Input(name) => match lookup_in(t.scopes, name) {
            None => Checked::Fail(t, "Variable "@ + name + " not declared"@),
            Some(_) => Checked::Done(t),
        },
        StmtV::SetOutput(e) => expr_stmt_in(t, e),
    }
}

/// Checking statements in order, up to the first that fails.
pub open spec fn check_block_in(t: TableV, ss: Seq<StmtV>) -> Checked
    decreases ss,
{
    if ss.len() == 0 {
        Checked::Done(t)
    } else {
        match check_stmt_in(t, ss[0]) {
            Checked::Done(t1) => check_block_in(t1, ss.drop_first()),
            other => other,
        }
    }
}

/// Declaring parameters in order (none an array), up to the first that fails.
pub open spec fn declare_params_in(t: TableV, ps: Seq<(Seq<char>, Type)>) -> Checked
    decreases ps.len(),
{
    if ps.len() == 0 {
        Checked::Done(t)
    } else {
        match declare_in(t, ps[0].0, ps[0].1, false, None) {
            Declared::Done(t1, _) => declare_params_in(t1, ps.drop_first()),
            Declared::Fail(m) => Checked::Fail(t, m),
            Declared::Abort(m) => Checked::Abort(m),
        }
    }
}

/// Checking a function: with it as the current function, its parameters are
/// declared in a new scope and its body is checked there; afterwards the
/// scope is left and no function is current.
pub open spec fn check_function_in(t: TableV, f: FunctionV) -> Checked {
    let t1 = enter(TableV { current_function: Some(f.name), ..t });
    match declare_params_in(t1, f.params) {
        Checked::Done(t2) => match check_block_in(t2, f.body) {
            Checked::Done(t3) => Checked::Done(TableV { current_function: None, ..exit(t3) }),
            other => other,
        },
        other => other,
    }
}

/// Checking functions in order, up to the first that fails.
pub open spec fn check_functions_in(t: TableV, fs: Seq<FunctionV>) -> Checked
    decreases fs.len(),
{
    if fs.len() == 0 {
        Checked::Done(t)
    } else {
        match check_function_in(t, fs[0]) {
            Checked::Done(t1) => check_functions_in(t1, fs.drop_first()),
            other => other,
        }
    }
}

/// Checking a program: its top-level statements in the current scope, then
/// its functions.
pub open spec fn check_program_in(t: TableV, p: ProgramV) -> Checked {
    match check_block_in(t, p.globals) {
        Checked::Done(t1) => check_functions_in(t1, p.functions),
        other => other,
    }
}

// ---------------------------------------------------------------------------
// The symbol table.
// ---------------------------------------------------------------------------

/// A scope's names and symbols as a map.
pub open spec fn scope_map(s: Seq<(String, Symbol)>) -> Map<Seq<char>, Symbol>
    decreases s.len(),
{
    if s.len() == 0 {
        Map::empty()
    } else {
        scope_map(s.drop_last()).insert(s.last().0@, s.last().1)
    }
}

/// No name occurs twice in a scope.
pub open spec fn distinct_names(s: Seq<(String, Symbol)>) -> bool {
    forall|i: int, j: int| 0 <= i < j < s.len() ==> s[i].0@ != s[j].0@
}

pub proof fn lemma_scope_map(s: Seq<(String, Symbol)>)
    requires
        distinct_names(s),
    ensures
        forall|k: Seq<char>|
            #![trigger scope_map(s).contains_key(k)]
            scope_map(s).contains_key(k) <==> exists|i: int| 0 <= i < s.len() && s[i].0@ == k,
        forall|i: int| 0 <= i < s.len() ==> #[trigger] scope_map(s)[s[i].0@] == s[i].1,
    decreases s.len(),
{
    if s.len() > 0 {
        let d = s.drop_last();
        assert(distinct_names(d));
        lemma_scope_map(d);
        assert forall|k: Seq<char>| scope_map(s).contains_key(k) implies exists|i: int|
            0 <= i < s.len() && s[i].0@ == k by {
            if k != s.last().0@ {
                assert(scope_map(d).contains_key(k));
                let i = choose|i: int| 0 <= i < d.len() && d[i].0@ == k;
                assert(s[i].0@ == k);
            } else {
                assert(s[s.len() - 1].0@ == k);
            }
        }
        assert forall|k: Seq<char>| (exists|i: int| 0 <= i < s.len() && s[i].0@ == k) implies
            #[trigger] scope_map(s).contains_key(k) by {
            let i = choose|i: int| 0 <= i < s.len() && s[i].0@ == k;
            if i < s.len() - 1 {
                assert(d[i].0@ == k);
            }
        }
        assert forall|i: int| 0 <= i < s.len() implies #[trigger] scope_map(s)[s[i].0@] == s[i].1 by {
            if i < s.len() - 1 {
                assert(d[i] == s[i]);
                assert(s[i].0@ != s.last().0@);
            }
        }
    }
}

/// The symbol table: a stack of scopes, the next free register, and the
/// function being checked. Each scope is a vector of name and symbol pairs
/// in which no name occurs twice (see `wf`), read as a map by `scope_map`:
/// Verus proves little of a `HashMap` keyed by `String`, while a vector
/// searched by a verified loop gives exact lookups.
pub struct SymbolTable {
    scopes: Vec<Vec<(String, Symbol)>>,
    next_reg: usize,
    pub current_function: Option<String>,
}

pub open spec fn name_view(n: Option<String>) -> Option<Seq<char>> {
    match n {
        Some(s) => Some(s@),
        None => None,
    }
}

impl View for SymbolTable {
    type V = TableV;

    closed spec fn view(&self) -> TableV {
        TableV {
            scopes: self.scopes@.map_values(|s: Vec<(String, Symbol)>| scope_map(s@)),
            next_reg: self.next_reg as int,
            current_function: name_view(self.current_function),
        }
    }
}

impl SymbolTable {
    /// The register counter of a table fits in `usize`.
    pub proof fn lemma_next_reg_bounds(&self)
        ensures
            0 <= self@.next_reg <= usize::MAX,
    {
    }

    /// No scope holds a name twice.
    pub closed spec fn wf(&self) -> bool {
        forall|i: int| 0 <= i < self.scopes@.len() ==> distinct_names(#[trigger] self.scopes@[i]@)
    }

    /// A table with one empty (global) scope, no register taken, and no
    /// current function.
    pub fn new() -> (r: Self)
        ensures
            r.wf(),
            r@ == (TableV { scopes: seq![Map::empty()], next_reg: 0, current_function: None }),
    {
        let mut scopes: Vec<Vec<(String, Symbol)>> = Vec::new();
        scopes.push(Vec::new());
        let r = SymbolTable { scopes, next_reg: 0, current_function: None };
        assert(r@.scopes =~= seq![Map::<Seq<char>, Symbol>::empty()]);
        r
    }

    /// Opens a new innermost scope.
    pub fn enter_scope(&mut self)
        requires
            old(self).wf(),
        ensures
            final(self).wf(),
            final(self)@ == enter(old(self)@),
    {
        self.scopes.push(Vec::new());
        assert(self@.scopes =~= old(self)@.scopes.push(Map::empty()));
    }

    /// Closes the innermost scope (if there is one).
    pub fn exit_scope(&mut self)
        requires
            old(self).wf(),
        ensures
            final(self).wf(),
            final(self)@ == exit(old(self)@),
    {
        let _ = self.scopes.pop();
        assert(self@.scopes =~= exit(old(self)@).scopes);
    }

    /// Finds `name` in a scope: its index there, if present.
    fn find_in(scope: &Vec<(String, Symbol)>, name: &String) -> (r: Option<usize>)
        requires
            distinct_names(scope@),
        ensures
            match r {
                Some(i) => i < scope@.len() && scope@[i as int].0@ == name@,
                None => !scope_map(scope@).contains_key(name@),
            },
    {
        proof {
            lemma_scope_map(scope@);
        }
        let mut i: usize = 0;
        while i < scope.len()
            invariant
                i <= scope@.len(),
                forall|j: int| 0 <= j < i ==> scope@[j].0@ != name@,
            decreases scope.len() - i,
        {
            if text_eq(&scope[i].0, name) {
                return Some(i);
            }
            i += 1;
        }
        None
    }

    /// The position of the symbol that `name` resolves to: its scope and
    /// its index there.
    fn locate(&self, name: &String) -> (r: Option<(usize, usize)>)
        requires
            self.wf(),
        ensures
            match r {
                Some((i, j)) => i < self.scopes@.len() && j < self.scopes@[i as int]@.len()
                    && self.scopes@[i as int]@[j as int].0@ == name@ && lookup_in(self@.scopes, name@)
                    == Some(self.scopes@[i as int]@[j as int].1),
                None => lookup_in(self@.scopes, name@) is None,
            },
    {
        let ghost all = self@.scopes;
        let mut k = self.scopes.len();
        assert(all.take(k as int) =~= all);
        while k > 0
            invariant
                k <= self.scopes@.len(),
                self.wf(),
                all == self@.scopes,
                lookup_in(all.take(k as int), name@) == lookup_in(all, name@),
            decreases k,
        {
            let i = k - 1;
            assert(all.take(k as int).drop_last() == all.take(i as int));
            assert(all.take(k as int).last() == scope_map(self.scopes@[i as int]@));
            match Self::find_in(&self.scopes[i], name) {
                Some(j) => {
                    proof {
                        lemma_scope_map(self.scopes@[i as int]@);
                    }
                    return Some((i, j));
                },
                None => {},
            }
            k = i;
        }
        None
    }

    /// The symbol that `name` resolves to: its entry in the innermost scope
    /// that has one.
    pub fn lookup(&self, name: &str) -> (r: Option<&Symbol>)
        requires
            self.wf(),
        ensures
            match r {
                Some(s) => lookup_in(self@.scopes, name@) == Some(*s),
                None => lookup_in(self@.scopes, name@) is None,
            },
    {
        let n = owned(name);
        match self.locate(&n) {
            Some((i, j)) => Some(&self.scopes[i][j].1),
            None => None,
        }
    }

    /// The first register of the symbol that `name` resolves to.
    pub fn get_reg(&self, name: &str) -> (r: Option<usize>)
        requires
            self.wf(),
        ensures
            r == (match lookup_in(self@.scopes, name@) {
                Some(s) => Some(s.reg),
                None => None,
            }),
    {
        match self.lookup(name) {
            Some(s) => Some(s.reg),
            None => None,
        }
    }

    /// The type of the symbol that `name` resolves to.
    pub fn get_type(&self, name: &str) -> (r: Option<&Type>)
        requires
            self.wf(),
        ensures
            match r {
                Some(t) => lookup_in(self@.scopes, name@) matches Some(s) && s.typ == *t,
                None => lookup_in(self@.scopes, name@) is None,
            },
    {
        match self.lookup(name) {
            Some(s) => Some(&s.typ),
            None => None,
        }
    }

    /// Declares `name` in the innermost scope (see `declare_in`), or tells
    /// how that stops.
    fn declare_outcome(&mut self, name: &String, typ: Type, is_array: bool, size: Option<usize>) -> (r:
        Outcome<usize>)
        requires
            old(self).wf(),
        ensures
            final(self).wf(),
            match declare_in(old(self)@, name@, typ, is_array, size) {
                Declared::Done(t, reg) => r == Outcome::<usize>::Done(reg) && final(self)@ == t,
                Declared::Fail(m) => r matches Outcome::Fail(x) && x@ == m && final(self)@ == old(
                    self,
                )@,
                Declared::Abort(m) => r matches Outcome::Abort(x) && x@ == m,
            },
    {
        let n = self.scopes.len();
        if n == 0 {
            return Outcome::Abort(owned("called `Option::unwrap()` on a `None` value"));
        }
        proof {
            lemma_scope_map(self.scopes@[n - 1]@);
        }
        match Self::find_in(&self.scopes[n - 1], name) {
            Some(_) => {
                let mut m = owned("Variable ");
                push_str(&mut m, name.as_str());
                push_str(&mut m, " already declared");
                return Outcome::Fail(m);
            },
            None => {},
        }
        if self.next_reg == usize::MAX {
            return Outcome::Abort(owned("attempt to add with overflow"));
        }
        let reg = self.next_reg;
        let next = match size {
            Some(sz) => {
                if sz == 0 {
                    return Outcome::Abort(owned("attempt to subtract with overflow"));
                }
                if reg + 1 > usize::MAX - (sz - 1) {
                    return Outcome::Abort(owned("attempt to add with overflow"));
                }
                reg + 1 + (sz - 1)
            },
            None => reg + 1,
        };
        let ghost old_t = self@;
        let mut last = match self.scopes.pop() {
            Some(s) => s,
            None => return Outcome::Abort(owned("called `Option::unwrap()` on a `None` value")),
        };
        let ghost old_last = last@;
        last.push((copy_text(name), Symbol { reg, typ, is_array, size }));
        assert(last@.drop_last() == old_last);
        proof {
            assert forall|i: int, j: int| 0 <= i < j < last@.len() implies last@[i].0@ != last@[j].0@ by {
                if j == last@.len() - 1 {
                    assert(old_last[i].0@ != name@) by {
                        lemma_scope_map(old_last);
                    }
                } else {
                    assert(old_last[i].0@ != old_last[j].0@);
                }
            }
        }
        self.scopes.push(last);
        self.next_reg = next;
        assert(self@.scopes =~= old_t.scopes.update(
            old_t.scopes.len() - 1,
            old_t.scopes.last().insert(name@, Symbol { reg, typ, is_array, size }),
        ));
        Outcome::Done(reg)
    }

    /// Declares `name` in the innermost scope: its symbol takes the next free
    /// registers (an array's length of them, else one), and the first of them
    /// is returned; an error when that scope already has the name (see
    /// `declare_in`). For a declaration that does not stop (there is a scope,
    /// an array has a length, and the registers do not run out, or the name
    /// is already there).
    pub fn declare(&mut self, name: &str, typ: Type, is_array: bool, size: Option<usize>) -> (r:
        Result<usize, String>)
        requires
            old(self).wf(),
            !(declare_in(old(self)@, name@, typ, is_array, size) is Abort),
        ensures
            final(self).wf(),
            match declare_in(old(self)@, name@, typ, is_array, size) {
                Declared::Done(t, reg) => r == Ok::<usize, String>(reg) && final(self)@ == t,
                Declared::Fail(m) => r matches Err(x) && x@ == m && final(self)@ == old(self)@,
                Declared::Abort(_) => false,
            },
    {
        let n = owned(name);
        match self.declare_outcome(&n, typ, is_array, size) {
            Outcome::Done(reg) => Ok(reg),
            Outcome::Fail(m) => Err(m),
            Outcome::Abort(_) => {
                assert(false);
                Err(owned(""))
            },
        }
    }

    /// Checks an expression (see `check_expr_in`).
    fn check_expr(&self, e: &Expr) -> (r: Outcome<Type>)
        requires
            self.wf(),
        ensures
            match check_expr_in(self@, e@) {
                Typed::Done(t) => r matches Outcome::Done(x) && x == t,
                Typed::Fail(m) => r matches Outcome::Fail(x) && x@ == m,
                Typed::Abort(m) => r matches Outcome::Abort(x) && x@ == m,
            },
        decreases e,
    {
        match e {
            Expr::Integer(_) => Outcome::Done(Type::Int),
            Expr::Float(_) => Outcome::Done(Type::Float),
            Expr::Bool(_) => Outcome::Done(Type::Bool),
            Expr::String(_) => Outcome::Done(Type::String),
            Expr::Char(_) => Outcome::Done(Type::Char),
            Expr::Variable(name) => match self.locate(name) {
                None => {
                    let mut m = owned("Variable ");
                    push_str(&mut m, name.as_str());
                    push_str(&mut m, " not declared");
                    Outcome::Fail(m)
                },
                Some((i, j)) => Outcome::Done(copy_type(&self.scopes[i][j].1.typ)),
            },
            Expr::ArrayElement(name, idx) => match self.locate(name) {
                None => {
                    let mut m = owned("Array ");
                    push_str(&mut m, name.as_str());
                    push_str(&mut m, " not declared");
                    Outcome::Fail(m)
                },
                Some((i, j)) => {
                    if !self.scopes[i][j].1.is_array {
                        let mut m = copy_text(name);
                        push_str(&mut m, " is not an array");
                        return Outcome::Fail(m);
                    }
                    match self.check_expr(idx) {
                        Outcome::Done(_) => {},
                        Outcome::Fail(m) => return Outcome::Fail(m),
                        Outcome::Abort(m) => return Outcome::Abort(m),
                    }
                    match &self.scopes[i][j].1.typ {
                        Type::Array(elem, _) => Outcome::Done(copy_type(elem)),
                        _ => Outcome::Abort(owned("internal error: entered unreachable code")),
                    }
                },
            },
            Expr::BinaryOp(l, op, r) => {
                let lt = match self.check_expr(l) {
                    Outcome::Done(t) => t,
                    Outcome::Fail(m) => return Outcome::Fail(m),
                    Outcome::Abort(m) => return Outcome::Abort(m),
                };
                let rt = match self.check_expr(r) {
                    Outcome::Done(t) => t,
                    Outcome::Fail(m) => return Outcome::Fail(m),
                    Outcome::Abort(m) => return Outcome::Abort(m),
                };
                match op {
                    BinOp::Add | BinOp::Sub | BinOp::Mul | BinOp::Div => {
                        if same_type(&lt, &rt) {
                            Outcome::Done(lt)
                        } else {
                            Outcome::Fail(owned("Type mismatch in arithmetic"))
                        }
                    },
                    BinOp::Eq | BinOp::Ne | BinOp::Lt | BinOp::Le | BinOp::Gt | BinOp::Ge => {
                        if same_type(&lt, &rt) {
                            Outcome::Done(Type::Bool)
                        } else {
                            Outcome::Fail(owned("Type mismatch in comparison"))
                        }
                    },
                    BinOp::And | BinOp::Or => {
                        if same_type(&lt, &Type::Bool) && same_type(&rt, &Type::Bool) {
                            Outcome::Done(Type::Bool)
                        } else {
                            Outcome::Fail(owned("Logical operators require bool"))
                        }
                    },
                }
            },
            Expr::UnaryOp(op, x) => {
                let st = match self.check_expr(x) {
                    Outcome::Done(t) => t,
                    Outcome::Fail(m) => return Outcome::Fail(m),
                    Outcome::Abort(m) => return Outcome::Abort(m),
                };
                match op {
                    UnOp::Neg => {
                        if same_type(&st, &Type::Int) || same_type(&st, &Type::Float) {
                            Outcome::Done(st)
                        } else {
                            Outcome::Fail(owned("Negation requires numeric type"))
                        }
                    },
                    UnOp::Not => {
                        if same_type(&st, &Type::Bool) {
                            Outcome::Done(Type::Bool)
                        } else {
                            Outcome::Fail(owned("Not requires bool"))
                        }
                    },
                }
            },
            Expr::Call(_, _) => Outcome::Done(Type::Int),
        }
    }

    /// Checks an expression as a statement does: the table stays as it is.
    fn check_expr_stmt(&self, e: &Expr) -> (r: Outcome<()>)
        requires
            self.wf(),
        ensures
            checked_is(expr_stmt_in(self@, e@), r, self@),
    {
        match self.check_expr(e) {
            Outcome::Done(_) => Outcome::Done(()),
            Outcome::Fail(m) => Outcome::Fail(m),
            Outcome::Abort(m) => Outcome::Abort(m),
        }
    }

    fn check_exprs(&self, es: &Vec<Expr>) -> (r: Outcome<()>)
        requires
            self.wf(),
        ensures
            checked_is(exprs_in(self@, exprs_view(es@)), r, self@),
    {
        let ghost ev = exprs_view(es@);
        proof {
            lemma_exprs_view(es@);
        }
        let mut i: usize = 0;
        assert(ev.skip(0) == ev);
        while i < es.len()
            invariant
                self.wf(),
                i <= es.len(),
                ev == exprs_view(es@),
                ev.len() == es@.len(),
                forall|j: int| 0 <= j < es@.len() ==> #[trigger] ev[j] == es@[j]@,
                exprs_in(self@, ev.skip(i as int)) == exprs_in(self@, ev),
            decreases es.len() - i,
        {
            assert(ev.skip(i as int)[0] == es@[i as int]@);
            assert(ev.skip(i as int).drop_first() == ev.skip(i + 1));
            let ghost rest = ev.skip(i as int);
            assert(rest.len() > 0);
            match self.check_expr_stmt(&es[i]) {
                Outcome::Done(_) => {},
                Outcome::Fail(m) => {
                    assert(exprs_in(self@, rest) == expr_stmt_in(self@, rest[0]));
                    return Outcome::Fail(m);
                },
                Outcome::Abort(m) => {
                    assert(exprs_in(self@, rest) == expr_stmt_in(self@, rest[0]));
                    return Outcome::Abort(m);
                },
            }
            i += 1;
        }
        Outcome::Done(())
    }

    /// Checks a statement (see `check_stmt_in`).
    fn check_stmt(&mut self, st: &Stmt) -> (r: Outcome<()>)
        requires
            old(self).wf(),
        ensures
            final(self).wf(),
            checked_is(check_stmt_in(old(self)@, st@), r, final(self)@),
        decreases st,
    {
        match st {
            Stmt::VarDecl { name, typ, init } => {
                let (is_array, size) = match typ {
                    Type::Array(_, sz) => (true, Some(*sz)),
                    _ => (false, None),
                };
                match self.declare_outcome(name, copy_type(typ), is_array, size) {
                    Outcome::Done(_) => {},
                    Outcome::Fail(m) => return Outcome::Fail(m),
                    Outcome::Abort(m) => return Outcome::Abort(m),
                }
                match init {
                    None => Outcome::Done(()),
                    Some(e) => self.check_expr_stmt(e),
                }
            },
            Stmt::Assign { target, index, expr } => match self.locate(target) {
                None => {
                    let mut m = owned("Variable ");
                    push_str(&mut m, target.as_str());
                    push_str(&mut m, " not declared");
                    Outcome::Fail(m)
                },
                Some((i, j)) => {
                    if index.is_some() && !self.scopes[i][j].1.is_array {
                        let mut m = copy_text(target);
                        push_str(&mut m, " is not an array");
                        return Outcome::Fail(m);
                    }
                    self.check_expr_stmt(expr)
                },
            },
            Stmt::If { cond, then_block, else_block } => {
                match self.check_expr_stmt(cond) {
                    Outcome::Done(_) => {},
                    Outcome::Fail(m) => return Outcome::Fail(m),
                    Outcome::Abort(m) => return Outcome::Abort(m),
                }
                self.enter_scope();
                match self.check_block(then_block) {
                    Outcome::Done(_) => {},
                    Outcome::Fail(m) => return Outcome::Fail(m),
                    Outcome::Abort(m) => return Outcome::Abort(m),
                }
                self.exit_scope();
                self.enter_scope();
                match self.check_block(else_block) {
                    Outcome::Done(_) => {},
                    Outcome::Fail(m) => return Outcome::Fail(m),
                    Outcome::Abort(m) => return Outcome::Abort(m),
                }
                self.exit_scope();
                Outcome::Done(())
            },
            Stmt::While { cond, body } => {
                match self.check_expr_stmt(cond) {
                    Outcome::Done(_) => {},
                    Outcome::Fail(m) => return Outcome::Fail(m),
                    Outcome::Abort(m) => return Outcome::Abort(m),
                }
                self.enter_scope();
                match self.check_block(body) {
                    Outcome::Done(_) => {},
                    Outcome::Fail(m) => return Outcome::Fail(m),
                    Outcome::Abort(m) => return Outcome::Abort(m),
                }
                self.exit_scope();
                Outcome::Done(())
            },
            Stmt::Return(e) => {
                if self.current_function.is_none() {
                    return Outcome::Fail(owned("return outside function"));
                }
                self.check_expr_stmt(e)
            },
            Stmt::ExprStmt(e) => self.check_expr_stmt(e),
            Stmt::Print(args) => self.check_exprs(args),
            Stmt::Input(var) => match self.locate(var) {
                None => {
                    let mut m = owned("Variable ");
                    push_str(&mut m, var.as_str());
                    push_str(&mut m, " not declared");
                    Outcome::Fail(m)
                },
                Some(_) => Outcome::Done(()),
            },
            Stmt::SetOutput(e) => self.check_expr_stmt(e),
        }
    }

    /// Checks statements in order (see `check_block_in`).
    fn check_block(&mut self, ss: &Vec<Stmt>) -> (r: Outcome<()>)
        requires
            old(self).wf(),
        ensures
            final(self).wf(),
            checked_is(check_block_in(old(self)@, stmts_view(ss@)), r, final(self)@),
        decreases ss,
    {
        let ghost sv = stmts_view(ss@);
        proof {
            lemma_stmts_view(ss@);
        }
        let mut i: usize = 0;
        assert(sv.skip(0) == sv);
        while i < ss.len()
            invariant
                self.wf(),
                i <= ss.len(),
                sv == stmts_view(ss@),
                sv.len() == ss@.len(),
                forall|j: int| 0 <= j < ss@.len() ==> #[trigger] sv[j] == ss@[j]@,
                check_block_in(self@, sv.skip(i as int)) == check_block_in(old(self)@, sv),
            decreases ss.len() - i,
        {
            assert(sv.skip(i as int)[0] == ss@[i as int]@);
            assert(sv.skip(i as int).drop_first() == sv.skip(i + 1));
            let ghost rest = sv.skip(i as int);
            let ghost before = self@;
            assert(rest.len() > 0);
            match self.check_stmt(&ss[i]) {
                Outcome::Done(_) => {},
                Outcome::Fail(m) => {
                    assert(check_block_in(before, rest) == check_stmt_in(before, rest[0]));
                    return Outcome::Fail(m);
                },
                Outcome::Abort(m) => {
                    assert(check_block_in(before, rest) == check_stmt_in(before, rest[0]));
                    return Outcome::Abort(m);
                },
            }
            i += 1;
        }
        Outcome::Done(())
    }

    fn declare_params(&mut self, ps: &Vec<(String, Type)>) -> (r: Outcome<()>)
        requires
            old(self).wf(),
        ensures
            final(self).wf(),
            checked_is(declare_params_in(old(self)@, params_view(ps@)), r, final(self)@),
    {
        let ghost pv = params_view(ps@);
        let mut i: usize = 0;
        assert(pv.skip(0) == pv);
        while i < ps.len()
            invariant
                self.wf(),
                i <= ps.len(),
                pv == params_view(ps@),
                declare_params_in(self@, pv.skip(i as int)) == declare_params_in(old(self)@, pv),
            decreases ps.len() - i,
        {
            let ghost rest = pv.skip(i as int);
            let ghost before = self@;
            assert(rest[0] == (ps@[i as int].0@, ps@[i as int].1));
            assert(rest.drop_first() == pv.skip(i + 1));
            match self.declare_outcome(&ps[i].0, copy_type(&ps[i].1), false, None) {
                Outcome::Done(_) => {},
                Outcome::Fail(m) => {
                    assert(declare_params_in(before, rest) == Checked::Fail(before, m@));
                    return Outcome::Fail(m);
                },
                Outcome::Abort(m) => {
                    assert(declare_params_in(before, rest) == Checked::Abort(m@));
                    return Outcome::Abort(m);
                },
            }
            i += 1;
        }
        Outcome::Done(())
    }

    fn check_function(&mut self, f: &Function) -> (r: Outcome<()>)
        requires
            old(self).wf(),
        ensures
            final(self).wf(),
            checked_is(check_function_in(old(self)@, f@), r, final(self)@),
    {
        self.current_function = Some(copy_text(&f.name));
        self.enter_scope();
        match self.declare_params(&f.params) {
            Outcome::Done(_) => {},
            Outcome::Fail(m) => return Outcome::Fail(m),
            Outcome::Abort(m) => return Outcome::Abort(m),
        }
        match self.check_block(&f.body) {
            Outcome::Done(_) => {},
            Outcome::Fail(m) => return Outcome::Fail(m),
            Outcome::Abort(m) => return Outcome::Abort(m),
        }
        self.exit_scope();
        self.current_function = None;
        Outcome::Done(())
    }

    /// Checks a program (see `check_program_in`): its top-level statements,
    /// then its functions; or tells how checking stops.
    pub fn check_program_outcome(&mut self, prog: &Program) -> (r: Outcome<()>)
        requires
            old(self).wf(),
        ensures
            final(self).wf(),
            checked_is(check_program_in(old(self)@, prog@), r, final(self)@),
    {
        match self.check_block(&prog.globals) {
            Outcome::Done(_) => {},
            Outcome::Fail(m) => return Outcome::Fail(m),
            Outcome::Abort(m) => return Outcome::Abort(m),
        }
        let ghost fv = functions_view(prog.functions@);
        let ghost t1 = self@;
        let mut i: usize = 0;
        assert(fv.skip(0) == fv);
        while i < prog.functions.len()
            invariant
                self.wf(),
                i <= prog.functions.len(),
                fv == functions_view(prog.functions@),
                check_functions_in(self@, fv.skip(i as int)) == check_functions_in(t1, fv),
                check_program_in(old(self)@, prog@) == check_functions_in(t1, fv),
            decreases prog.functions.len() - i,
        {
            let ghost rest = fv.skip(i as int);
            let ghost before = self@;
            assert(rest[0] == prog.functions@[i as int]@);
            assert(rest.drop_first() == fv.skip(i + 1));
            match self.check_function(&prog.functions[i]) {
                Outcome::Done(_) => {},
                Outcome::Fail(m) => {
                    assert(check_functions_in(before, rest) == check_function_in(before, rest[0]));
                    return Outcome::Fail(m);
                },
                Outcome::Abort(m) => {
                    assert(check_functions_in(before, rest) == check_function_in(before, rest[0]));
                    return Outcome::Abort(m);
                },
            }
            i += 1;
        }
        Outcome::Done(())
    }

    /// Checks a program (see `check_program_in`): its top-level statements in
    /// the current scope, then each function with its parameters in a scope
    /// of its own; the first error is returned. For a program whose checking
    /// does not stop.
    pub fn check_program(&mut self, prog: &Program) -> (r: Result<(), String>)
        requires
            old(self).wf(),
            !(check_program_in(old(self)@, prog@) is Abort),
        ensures
            final(self).wf(),
            match check_program_in(old(self)@, prog@) {
                Checked::Done(t) => r is Ok && final(self)@ == t,
                Checked::Fail(t, m) => r matches Err(x) && x@ == m && final(self)@ == t,
                Checked::Abort(_) => false,
            },
    {
        match self.check_program_outcome(prog) {
            Outcome::Done(_) => Ok(()),
            Outcome::Fail(m) => Err(m),
            Outcome::Abort(_) => {
                assert(false);
                Ok(())
            },
        }
    }
}

/// Whether an executable outcome `r`, with the table left as `after`, is the
/// checking outcome `c`.
pub open spec fn checked_is(c: Checked, r: Outcome<()>, after: TableV) -> bool {
    match c {
        Checked::Done(t) => r is Done && after == t,
        Checked::Fail(t, m) => r matches Outcome::Fail(x) && x@ == m && after == t,
        Checked::Abort(m) => r matches Outcome::Abort(x) && x@ == m,
    }
}


// ---------------------------------------------------------------------------
// Laws.
// ---------------------------------------------------------------------------

proof fn lemma_lookup_after_insert(
    scopes: Seq<Map<Seq<char>, Symbol>>,
    name: Seq<char>,
    sym: Symbol,
    other: Seq<char>,
)
    requires
        scopes.len() > 0,
    ensures
        ({
            let s2 = scopes.update(scopes.len() - 1, scopes.last().insert(name, sym));
            &&& lookup_in(s2, name) == Some(sym)
            &&& other != name ==> lookup_in(s2, other) == lookup_in(scopes, other)
        }),
{
    let s2 = scopes.update(scopes.len() - 1, scopes.last().insert(name, sym));
    assert(s2.drop_last() =~= scopes.drop_last());
    assert(s2.last() == scopes.last().insert(name, sym));
}

/// Reading after a declaration: a declaration that succeeds gives the name
/// the next free register, the name then resolves to exactly the declared
/// symbol, every other name resolves as before, and the next free register
/// moves past the registers the declaration took.
pub proof fn law_declare_then_lookup(
    t: TableV,
    name: Seq<char>,
    typ: Type,
    is_array: bool,
    size: Option<usize>,
    other: Seq<char>,
)
    requires
        0 <= t.next_reg,
    ensures
        declare_in(t, name, typ, is_array, size) matches Declared::Done(t2, reg) ==> {
            &&& reg == t.next_reg
            &&& lookup_in(t2.scopes, name) == Some(Symbol { reg, typ, is_array, size })
            &&& (other != name ==> lookup_in(t2.scopes, other) == lookup_in(t.scopes, other))
            &&& t2.next_reg == t.next_reg + width(size)
            &&& t2.scopes.len() == t.scopes.len()
            &&& t2.current_function == t.current_function
        },
{
    if declare_in(t, name, typ, is_array, size) is Done {
        let sym = Symbol { reg: t.next_reg as usize, typ, is_array, size };
        lemma_lookup_after_insert(t.scopes, name, sym, other);
    }
}

/// A name cannot be declared twice in one scope: once a declaration of it
/// succeeds, declaring it again in the same scope is refused.
pub proof fn law_redeclare_refused(
    t: TableV,
    name: Seq<char>,
    typ: Type,
    is_array: bool,
    size: Option<usize>,
    typ2: Type,
    is_array2: bool,
    size2: Option<usize>,
)
    ensures
        declare_in(t, name, typ, is_array, size) matches Declared::Done(t2, _) ==> declare_in(
            t2,
            name,
            typ2,
            is_array2,
            size2,
        ) == Declared::Fail("Variable "@ + name + " already declared"@),
{
}

/// Entering a scope and leaving it again gives back the table; a new scope
/// changes no name's meaning.
pub proof fn law_enter_exit(t: TableV, name: Seq<char>)
    ensures
        exit(enter(t)) == t,
        lookup_in(enter(t).scopes, name) == lookup_in(t.scopes, name),
{
    assert(enter(t).scopes.drop_last() =~= t.scopes);
}

/// A declaration in an inner scope shadows the outer meaning of the name only
/// until that scope is left: afterwards every name resolves as before the
/// scope was entered, while the registers the declaration took stay taken.
pub proof fn law_inner_scope_forgotten(
    t: TableV,
    name: Seq<char>,
    typ: Type,
    is_array: bool,
    size: Option<usize>,
)
    requires
        0 <= t.next_reg,
    ensures
        declare_in(enter(t), name, typ, is_array, size) matches Declared::Done(t2, reg) ==> {
            &&& lookup_in(t2.scopes, name) == Some(Symbol { reg, typ, is_array, size })
            &&& exit(t2).scopes == t.scopes
            &&& exit(t2).next_reg == t.next_reg + width(size)
        },
{
    let t1 = enter(t);
    if declare_in(t1, name, typ, is_array, size) is Done {
        let sym = Symbol { reg: t1.next_reg as usize, typ, is_array, size };
        lemma_lookup_after_insert(t1.scopes, name, sym, name);
        let s2 = t1.scopes.update(t1.scopes.len() - 1, t1.scopes.last().insert(name, sym));
        assert(s2.drop_last() =~= t.scopes);
    }
}

/// Every symbol of the table takes registers below the next free one.
pub open spec fn regs_below(t: TableV) -> bool {
    forall|i: int, n: Seq<char>|
        0 <= i < t.scopes.len() && #[trigger] t.scopes[i].contains_key(n) ==> t.scopes[i][n].reg
            + width(t.scopes[i][n].size) <= t.next_reg
}

/// Registers are never shared: when every symbol lies below the next free
/// register, a declaration's registers come after all of them, and the table
/// after it again has every symbol below the next free register.
pub proof fn law_declare_fresh_registers(
    t: TableV,
    name: Seq<char>,
    typ: Type,
    is_array: bool,
    size: Option<usize>,
)
    requires
        0 <= t.next_reg,
        regs_below(t),
    ensures
        declare_in(t, name, typ, is_array, size) matches Declared::Done(t2, reg) ==> {
            &&& regs_below(t2)
            &&& width(size) >= 1
            &&& forall|i: int, n: Seq<char>|
                0 <= i < t.scopes.len() && #[trigger] t.scopes[i].contains_key(n) ==> t.scopes[i][n].reg
                    + width(t.scopes[i][n].size) <= reg
        },
{
    if declare_in(t, name, typ, is_array, size) is Done {
        lemma_declare_regs(t, name, typ, is_array, size);
    }
}

proof fn lemma_declare_regs(
    t: TableV,
    name: Seq<char>,
    typ: Type,
    is_array: bool,
    size: Option<usize>,
)
    requires
        0 <= t.next_reg,
        regs_below(t),
    ensures
        declare_in(t, name, typ, is_array, size) matches Declared::Done(t2, reg) ==> regs_below(t2)
            && width(size) >= 1,
{
    if let Declared::Done(t2, reg) = declare_in(t, name, typ, is_array, size) {
        let sym = Symbol { reg: t.next_reg as usize, typ, is_array, size };
        let last = t.scopes.len() - 1;
        assert(width(size) >= 1);
        assert forall|i: int, n: Seq<char>|
            0 <= i < t2.scopes.len() && #[trigger] t2.scopes[i].contains_key(n) implies t2.scopes[i][n].reg
                + width(t2.scopes[i][n].size) <= t2.next_reg by {
            if i == last && n == name {
                assert(t2.scopes[i][n] == sym);
            } else if i == last {
                assert(t.scopes[i].contains_key(n));
                assert(t2.scopes[i][n] == t.scopes[i][n]);
            } else {
                assert(t2.scopes[i] == t.scopes[i]);
            }
        }
    }
}

/// Entering and leaving scopes keeps every symbol below the next free register.
pub proof fn law_scopes_keep_registers(t: TableV)
    requires
        regs_below(t),
    ensures
        regs_below(enter(t)),
        regs_below(exit(t)),
{
    assert forall|i: int, n: Seq<char>|
        0 <= i < enter(t).scopes.len() && #[trigger] enter(t).scopes[i].contains_key(n) implies enter(
        t,
    ).scopes[i][n].reg + width(enter(t).scopes[i][n].size) <= enter(t).next_reg by {
        if i < t.scopes.len() {
            assert(enter(t).scopes[i] == t.scopes[i]);
        }
    }
    assert forall|i: int, n: Seq<char>|
        0 <= i < exit(t).scopes.len() && #[trigger] exit(t).scopes[i].contains_key(n) implies exit(
        t,
    ).scopes[i][n].reg + width(exit(t).scopes[i][n].size) <= exit(t).next_reg by {
        assert(exit(t).scopes[i] == t.scopes[i]);
    }
}

/// What checking keeps: every symbol below the next free register, which
/// never moves back.
pub open spec fn keeps_regs(t: TableV, c: Checked) -> bool {
    match c {
        Checked::Done(t2) => regs_below(t2) && t.next_reg <= t2.next_reg,
        Checked::Fail(t2, _) => regs_below(t2) && t.next_reg <= t2.next_reg,
        Checked::Abort(_) => true,
    }
}

proof fn lemma_exprs_keep(t: TableV, es: Seq<ExprV>)
    requires
        0 <= t.next_reg,
        regs_below(t),
    ensures
        keeps_regs(t, exprs_in(t, es)),
    decreases es.len(),
{
    if es.len() > 0 {
        lemma_exprs_keep(t, es.drop_first());
    }
}

proof fn lemma_stmt_keeps(t: TableV, s: StmtV)
    requires
        0 <= t.next_reg,
        regs_below(t),
    ensures
        keeps_regs(t, check_stmt_in(t, s)),
    decreases s,
{
    match s {
        StmtV::VarDecl { name, typ, init } => {
            let is_array = typ is Array;
            let size = match typ {
                Type::Array(_, n) => Some(n),
                _ => None,
            };
            lemma_declare_regs(t, name, typ, is_array, size);
        },
        StmtV::If { cond, then_block, else_block } => {
            if let Checked::Done(t1) = expr_stmt_in(t, cond) {
                law_scopes_keep_registers(t1);
                lemma_block_keeps(enter(t1), then_block);
                if let Checked::Done(t2) = check_block_in(enter(t1), then_block) {
                    law_scopes_keep_registers(t2);
                    law_scopes_keep_registers(exit(t2));
                    lemma_block_keeps(enter(exit(t2)), else_block);
                    if let Checked::Done(t3) = check_block_in(enter(exit(t2)), else_block) {
                        law_scopes_keep_registers(t3);
                    }
                }
            }
        },
        StmtV::While { cond, body } => {
            if let Checked::Done(t1) = expr_stmt_in(t, cond) {
                law_scopes_keep_registers(t1);
                lemma_block_keeps(enter(t1), body);
                if let Checked::Done(t2) = check_block_in(enter(t1), body) {
                    law_scopes_keep_registers(t2);
                }
            }
        },
        StmtV::Print(args) => {
            lemma_exprs_keep(t, args);
        },
        _ => {},
    }
}

proof fn lemma_block_keeps(t: TableV, ss: Seq<StmtV>)
    requires
        0 <= t.next_reg,
        regs_below(t),
    ensures
        keeps_regs(t, check_block_in(t, ss)),
    decreases ss,
{
    if ss.len() > 0 {
        lemma_stmt_keeps(t, ss[0]);
        if let Checked::Done(t1) = check_stmt_in(t, ss[0]) {
            assert(ss.drop_first().len() < ss.len());
            lemma_block_keeps(t1, ss.drop_first());
        }
    }
}

proof fn lemma_params_keep(t: TableV, ps: Seq<(Seq<char>, Type)>)
    requires
        0 <= t.next_reg,
        regs_below(t),
    ensures
        keeps_regs(t, declare_params_in(t, ps)),
    decreases ps.len(),
{
    if ps.len() > 0 {
        lemma_declare_regs(t, ps[0].0, ps[0].1, false, None);
        if let Declared::Done(t1, _) = declare_in(t, ps[0].0, ps[0].1, false, None) {
            lemma_params_keep(t1, ps.drop_first());
        }
    }
}

proof fn lemma_functions_keep(t: TableV, fs: Seq<FunctionV>)
    requires
        0 <= t.next_reg,
        regs_below(t),
    ensures
        keeps_regs(t, check_functions_in(t, fs)),
    decreases fs.len(),
{
    if fs.len() > 0 {
        let f = fs[0];
        let t0 = TableV { current_function: Some(f.name), ..t };
        law_scopes_keep_registers(t0);
        let t1 = enter(t0);
        lemma_params_keep(t1, f.params);
        if let Checked::Done(t2) = declare_params_in(t1, f.params) {
            lemma_block_keeps(t2, f.body);
            if let Checked::Done(t3) = check_block_in(t2, f.body) {
                law_scopes_keep_registers(t3);
                let t4 = TableV { current_function: None, ..exit(t3) };
                assert(regs_below(t4));
                lemma_functions_keep(t4, fs.drop_first());
            }
        }
    }
}

/// Registers are never shared by two variables: checking a program from a
/// table whose symbols all lie below the next free register (as in a new
/// table) leaves every symbol of the table below it, and the next free
/// register never moves back, whether checking succeeds or fails.
pub proof fn law_program_keeps_registers(t: TableV, p: ProgramV)
    requires
        0 <= t.next_reg,
        regs_below(t),
    ensures
        keeps_regs(t, check_program_in(t, p)),
        regs_below(TableV { scopes: seq![Map::empty()], next_reg: 0, current_function: None }),
{
    lemma_block_keeps(t, p.globals);
    if let Checked::Done(t1) = check_block_in(t, p.globals) {
        lemma_functions_keep(t1, p.functions);
    }
}

/// The table `t2` lies inside a scope opened on `t`: it has more scopes, the
/// scopes of `t` are kept as they were, and no register was given back.
pub open spec fn frame_kept(t: TableV, t2: TableV) -> bool {
    &&& t2.scopes.len() > t.scopes.len()
    &&& t2.scopes.take(t.scopes.len() as int) == t.scopes
    &&& t.next_reg <= t2.next_reg
}

/// Opening a scope starts a frame over the table.
pub proof fn law_enter_opens_frame(t: TableV)
    ensures
        frame_kept(t, enter(t)),
{
    assert(enter(t).scopes.take(t.scopes.len() as int) =~= t.scopes);
}

/// Inside a frame, a declaration keeps the frame, and the register it
/// returns lies at or above every register taken before the frame opened.
pub proof fn law_frame_declare(
    t: TableV,
    t2: TableV,
    name: Seq<char>,
    typ: Type,
    is_array: bool,
    size: Option<usize>,
)
    requires
        frame_kept(t, t2),
        0 <= t2.next_reg,
    ensures
        declare_in(t2, name, typ, is_array, size) matches Declared::Done(t3, reg) ==> {
            &&& frame_kept(t, t3)
            &&& t2.next_reg == reg
            &&& t.next_reg <= reg < t3.next_reg
        },
{
    if let Declared::Done(t3, reg) = declare_in(t2, name, typ, is_array, size) {
        let n = t.scopes.len() as int;
        assert(t3.scopes.take(n) =~= t2.scopes.take(n));
    }
}

/// Inside a frame, nested scopes that are opened, or closed while deeper
/// than the frame, keep the frame.
pub proof fn law_frame_nested(t: TableV, t2: TableV)
    requires
        frame_kept(t, t2),
    ensures
        frame_kept(t, enter(t2)),
        t2.scopes.len() > t.scopes.len() + 1 ==> frame_kept(t, exit(t2)),
{
    let n = t.scopes.len() as int;
    assert(enter(t2).scopes.take(n) =~= t2.scopes.take(n));
    if t2.scopes.len() > t.scopes.len() + 1 {
        assert(exit(t2).scopes.take(n) =~= t2.scopes.take(n));
    }
}

/// Closing the scope a frame opened gives back the scopes as they were
/// before it: every name resolves as before, and the registers taken inside
/// stay taken.
pub proof fn law_frame_close(t: TableV, t2: TableV, name: Seq<char>)
    requires
        frame_kept(t, t2),
        t2.scopes.len() == t.scopes.len() + 1,
    ensures
        exit(t2).scopes == t.scopes,
        lookup_in(exit(t2).scopes, name) == lookup_in(t.scopes, name),
        t.next_reg <= exit(t2).next_reg,
{
    assert(t2.scopes.drop_last() =~= t2.scopes.take(t.scopes.len() as int));
}

/// What checking a statement may change of the scopes: only the innermost
/// one, and for `if` and `while` not even that.
pub open spec fn stmt_scopes_kept(t: TableV, s: StmtV, c: Checked) -> bool {
    c matches Checked::Done(t2) ==> {
        &&& t2.scopes.len() == t.scopes.len()
        &&& t2.scopes.drop_last() == t.scopes.drop_last()
        &&& t2.current_function == t.current_function
        &&& (s is If || s is While) ==> t2.scopes == t.scopes
    }
}

proof fn lemma_stmt_scopes(t: TableV, s: StmtV)
    ensures
        stmt_scopes_kept(t, s, check_stmt_in(t, s)),
    decreases s,
{
    match s {
        StmtV::VarDecl { name, typ, init } => {
            if t.scopes.len() > 0 {
                let last = t.scopes.len() - 1;
                assert(t.scopes.update(last, t.scopes.last().insert(name, Symbol {
                    reg: t.next_reg as usize,
                    typ,
                    is_array: typ is Array,
                    size: match typ {
                        Type::Array(_, n) => Some(n),
                        _ => None,
                    },
                })).drop_last() =~= t.scopes.drop_last());
            }
        },
        StmtV::If { cond, then_block, else_block } => {
            if let Checked::Done(t1) = expr_stmt_in(t, cond) {
                lemma_block_scopes(enter(t1), then_block);
                if let Checked::Done(t2) = check_block_in(enter(t1), then_block) {
                    assert(enter(t1).scopes.drop_last() =~= t.scopes);
                    let t2x = exit(t2);
                    lemma_block_scopes(enter(t2x), else_block);
                    if let Checked::Done(t3) = check_block_in(enter(t2x), else_block) {
                        assert(enter(t2x).scopes.drop_last() =~= t2x.scopes);
                    }
                }
            }
        },
        StmtV::While { cond, body } => {
            if let Checked::Done(t1) = expr_stmt_in(t, cond) {
                lemma_block_scopes(enter(t1), body);
                if let Checked::Done(t2) = check_block_in(enter(t1), body) {
                    assert(enter(t1).scopes.drop_last() =~= t.scopes);
                }
            }
        },
        StmtV::Print(args) => {
            lemma_exprs_same(t, args);
        },
        _ => {},
    }
}

proof fn lemma_exprs_same(t: TableV, es: Seq<ExprV>)
    ensures
        exprs_in(t, es) matches Checked::Done(t2) ==> t2 == t,
    decreases es.len(),
{
    if es.len() > 0 {
        lemma_exprs_same(t, es.drop_first());
    }
}

proof fn lemma_block_scopes(t: TableV, ss: Seq<StmtV>)
    ensures
        check_block_in(t, ss) matches Checked::Done(t2) ==> {
            &&& t2.scopes.len() == t.scopes.len()
            &&& t2.scopes.drop_last() == t.scopes.drop_last()
            &&& t2.current_function == t.current_function
        },
    decreases ss,
{
    if ss.len() > 0 {
        lemma_stmt_scopes(t, ss[0]);
        if let Checked::Done(t1) = check_stmt_in(t, ss[0]) {
            assert(ss.drop_first().len() < ss.len());
            lemma_block_scopes(t1, ss.drop_first());
        }
    }
}

/// Names declared in the blocks of an `if` or a `while` stay in those
/// blocks: when checking such a statement succeeds, the table has the same
/// scopes as before, so every name resolves as it did, and the function
/// being checked is the same.
pub proof fn law_branch_scopes(t: TableV, s: StmtV, name: Seq<char>)
    requires
        s is If || s is While,
    ensures
        check_stmt_in(t, s) matches Checked::Done(t2) ==> {
            &&& t2.scopes == t.scopes
            &&& lookup_in(t2.scopes, name) == lookup_in(t.scopes, name)
            &&& t2.current_function == t.current_function
        },
{
    lemma_stmt_scopes(t, s);
}

/// A refused declaration: declaring is refused exactly when the innermost
/// scope already binds the name (bindings in outer scopes do not count),
/// and the refusal leaves the table as it was.
pub proof fn law_declare_refusal(
    t: TableV,
    name: Seq<char>,
    typ: Type,
    is_array: bool,
    size: Option<usize>,
)
    requires
        t.scopes.len() > 0,
    ensures
        (declare_in(t, name, typ, is_array, size) is Fail) <==> t.scopes.last().contains_key(name),
        declare_in(t, name, typ, is_array, size) is Fail ==> declare_in(t, name, typ, is_array, size)
            == Declared::Fail("Variable "@ + name + " already declared"@),
{
}

/// The typing of binary operations: for operands whose types are `lt` and
/// `rt`, arithmetic (`+ - * /`) on equal types has that type, whatever it is
/// (`float + float` is a `float`), and on different types is a mismatch;
/// comparisons of equal types are `bool` and of different types a
/// mismatch; `&&` and `||` need two `bool` operands and give `bool`.
pub proof fn law_binary_typing(t: TableV, l: ExprV, op: BinOp, r: ExprV, lt: Type, rt: Type)
    requires
        check_expr_in(t, l) == Typed::Done(lt),
        check_expr_in(t, r) == Typed::Done(rt),
    ensures
        ({
            let e = ExprV::BinaryOp(Box::new(l), op, Box::new(r));
            &&& (op == BinOp::Add || op == BinOp::Sub || op == BinOp::Mul || op == BinOp::Div) ==> (
            check_expr_in(t, e) == if lt == rt {
                Typed::Done(lt)
            } else {
                Typed::Fail("Type mismatch in arithmetic"@)
            })
            &&& (op == BinOp::Eq || op == BinOp::Ne || op == BinOp::Lt || op == BinOp::Le || op
                == BinOp::Gt || op == BinOp::Ge) ==> (check_expr_in(t, e) == if lt == rt {
                Typed::Done(Type::Bool)
            } else {
                Typed::Fail("Type mismatch in comparison"@)
            })
            &&& (op == BinOp::And || op == BinOp::Or) ==> (check_expr_in(t, e) == if lt
                == Type::Bool && rt == Type::Bool {
                Typed::Done(Type::Bool)
            } else {
                Typed::Fail("Logical operators require bool"@)
            })
        }),
{
}

/// The typing of unary operations: negation keeps an `int` or a `float`
/// and refuses anything else; `!` takes a `bool` to a `bool`.
pub proof fn law_unary_typing(t: TableV, op: UnOp, x: ExprV, xt: Type)
    requires
        check_expr_in(t, x) == Typed::Done(xt),
    ensures
        ({
            let e = ExprV::UnaryOp(op, Box::new(x));
            &&& op == UnOp::Neg ==> (check_expr_in(t, e) == if xt == Type::Int || xt == Type::Float {
                Typed::Done(xt)
            } else {
                Typed::Fail("Negation requires numeric type"@)
            })
            &&& op == UnOp::Not ==> (check_expr_in(t, e) == if xt == Type::Bool {
                Typed::Done(Type::Bool)
            } else {
                Typed::Fail("Not requires bool"@)
            })
        }),
{
}

/// The types of leaves: literals have their own type; a variable has the
/// type of the symbol its name resolves to, or is undeclared; an array
/// element needs an array and has its element type once the index checks;
/// a call is taken to be an `int`.
pub proof fn law_leaf_typing(t: TableV, e: ExprV)
    ensures
        match e {
            ExprV::Integer(_) => check_expr_in(t, e) == Typed::Done(Type::Int),
            ExprV::Float(_) => check_expr_in(t, e) == Typed::Done(Type::Float),
            ExprV::Bool(_) => check_expr_in(t, e) == Typed::Done(Type::Bool),
            ExprV::String(_) => check_expr_in(t, e) == Typed::Done(Type::String),
            ExprV::Char(_) => check_expr_in(t, e) == Typed::Done(Type::Char),
            ExprV::Variable(x) => check_expr_in(t, e) == match lookup_in(t.scopes, x) {
                Some(sym) => Typed::Done(sym.typ),
                None => Typed::Fail("Variable "@ + x + " not declared"@),
            },
            ExprV::ArrayElement(x, idx) => match lookup_in(t.scopes, x) {
                None => check_expr_in(t, e) == Typed::Fail("Array "@ + x + " not declared"@),
                Some(sym) => (!sym.is_array ==> check_expr_in(t, e) == Typed::Fail(
                    x + " is not an array"@,
                )) && (sym.is_array && check_expr_in(t, *idx) is Done ==> match sym.typ {
                    Type::Array(elem, _) => check_expr_in(t, e) == Typed::Done(*elem),
                    _ => check_expr_in(t, e) is Abort,
                }),
            },
            ExprV::Call(_, _) => check_expr_in(t, e) == Typed::Done(Type::Int),
            _ => true,
        },
{
}

/// The statement rules: `return` is refused outside a function; an
/// assignment, and `input`, need a declared variable, and an indexed
/// assignment needs an array; a declaration of a name new to the innermost
/// scope (with no initializer) succeeds with the name declared there at the
/// next free register.
pub proof fn law_statement_rules(t: TableV, s: StmtV)
    requires
        0 <= t.next_reg,
    ensures
        match s {
            StmtV::Return(_) => t.current_function is None ==> check_stmt_in(t, s) == Checked::Fail(
                t,
                "return outside function"@,
            ),
            StmtV::Assign { target, index, expr: _ } => match lookup_in(t.scopes, target) {
                None => check_stmt_in(t, s) == Checked::Fail(t, "Variable "@ + target + " not declared"@),
                Some(sym) => index is Some && !sym.is_array ==> check_stmt_in(t, s) == Checked::Fail(
                    t,
                    target + " is not an array"@,
                ),
            },
            StmtV::Input(x) => check_stmt_in(t, s) == if lookup_in(t.scopes, x) is Some {
                Checked::Done(t)
            } else {
                Checked::Fail(t, "Variable "@ + x + " not declared"@)
            },
            StmtV::VarDecl { name, typ, init } => {
                let size = match typ {
                    Type::Array(_, n) => Some(n),
                    _ => None,
                };
                let w: int = match typ {
                    Type::Array(_, n) => n as int,
                    _ => 1,
                };
                init is None && t.scopes.len() > 0 && !t.scopes.last().contains_key(name) && w > 0
                    && t.next_reg + w <= usize::MAX ==> (check_stmt_in(t, s) matches Checked::Done(t2)
                    && lookup_in(t2.scopes, name) == Some(
                    Symbol { reg: t.next_reg as usize, typ, is_array: typ is Array, size },
                ))
            },
            _ => true,
        },
{
    if let StmtV::VarDecl { name, typ, init } = s {
        if t.scopes.len() > 0 {
            let size = match typ {
                Type::Array(_, n) => Some(n),
                _ => None,
            };
            law_declare_then_lookup(t, name, typ, typ is Array, size, name);
        }
    }
}

} // verus!
