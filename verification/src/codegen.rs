//! Generation of VM assembly text from a checked program, with registers
//! taken from the symbol table.

use vstd::prelude::*;
use vstd::string::*;
use crate::ast::{
    exprs_view, functions_view, lemma_exprs_view, lemma_stmts_view, stmts_view, BinOp, Expr, ExprV,
    Function, FunctionV, Program, ProgramV, Stmt, StmtV, UnOp,
};
use crate::semantic::{add_overflow, lookup_in, unwrap_none, SymbolTable, TableV};
use crate::text::{
    copy_text, dec_int, dec_nat, lemma_dec_nat_injective, lemma_dec_nat_shape, owned, push_char, push_i64,
    push_str, push_usize,
};

verus! {

broadcast use vstd::string::group_string_axioms;

/// The register that holds intermediate results.
pub open spec fn tmp() -> nat {
    100
}

/// The text generated so far (one line each) and the number of labels made.
pub struct GenV {
    pub lines: Seq<Seq<char>>,
    pub labels: int,
}

/// The result of generating code: the state after it, or the message that
/// generation stops with (a panic of the generator).
pub enum Emitted {
    Done(GenV),
    Abort(Seq<char>),
}

pub open spec fn emit(g: GenV, line: Seq<char>) -> GenV {
    GenV { lines: g.lines.push(line), ..g }
}

/// The first register of a name's symbol.
pub open spec fn reg_of(t: TableV, name: Seq<char>) -> Option<usize> {
    match lookup_in(t.scopes, name) {
        Some(s) => Some(s.reg),
        None => None,
    }
}

/// A register number as text.
pub open spec fn r(n: nat) -> Seq<char> {
    dec_nat(n)
}

/// A fresh label `prefix_N` (N the number of labels made so far), unless
/// the count would overflow.
pub open spec fn label_in(g: GenV, prefix: Seq<char>) -> Option<(Seq<char>, GenV)> {
    if g.labels + 1 > usize::MAX {
        None
    } else {
        Some((prefix + "_"@ + dec_nat(g.labels as nat), GenV { labels: g.labels + 1, ..g }))
    }
}

/// The instruction of a binary operator.
pub open spec fn binop_instr(op: BinOp) -> Seq<char> {
    match op {
        BinOp::Add => "ADD_I"@,
        BinOp::Sub => "SUB_I"@,
        BinOp::Mul => "MUL_I"@,
        BinOp::Div => "DIV_I"@,
        BinOp::Eq => "IF_I"@,
        BinOp::Ne => "IF_I"@,
        BinOp::Lt => "CMP_LT"@,
        BinOp::Le => "CMP_LE"@,
        BinOp::Gt => "CMP_GT"@,
        BinOp::Ge => "CMP_GE"@,
        BinOp::And => "AND_B"@,
        BinOp::Or => "OR_B"@,
    }
}

/// Code that puts the value of `e` into register `target`. Nested operands
/// go through register 100; a call's arguments go into registers 0, 1, ...
/// and its result comes back in register 0.
pub open spec fn gen_expr_in(t: TableV, g: GenV, e: ExprV, target: nat) -> Emitted
    decreases e,
{
    match e {
        ExprV::Integer(n) => Emitted::Done(
            emit(g, "    LOAD_INT "@ + r(target) + " "@ + dec_int(n as int)),
        ),
        ExprV::Float(f) => Emitted::Done(emit(g, "    LOAD_FLOAT "@ + r(target) + " "@ + f)),
        ExprV::Bool(b) => Emitted::Done(
            emit(
                g,
                "    LOAD_BOOL "@ + r(target) + if b {
                    " 1"@
                } else {
                    " 0"@
                },
            ),
        ),
        ExprV::String(s) => Emitted::Done(
            emit(g, "    ; STRING "@ + r(target) + " \""@ + s + "\""@),
        ),
        ExprV::Char(c) => Emitted::Done(
            emit(g, "    LOAD_CHAR "@ + r(target) + " "@ + dec_nat(c as u32 as nat)),
        ),
        ExprV::Variable(name) => match reg_of(t, name) {
            None => Emitted::Abort(unwrap_none()),
            Some(reg) => Emitted::Done(
                emit(g, "    ADD_I "@ + r(target) + " "@ + r(reg as nat) + " 0"@),
            ),
        },
        ExprV::ArrayElement(name, idx) => match reg_of(t, name) {
            None => Emitted::Abort(unwrap_none()),
            Some(base) => match gen_expr_in(t, g, *idx, tmp()) {
                Emitted::Done(g1) => Emitted::Done(
                    emit(g1, "    ADD_I "@ + r(target) + " "@ + r(base as nat) + " "@ + r(tmp())),
                ),
                other => other,
            },
        },
        ExprV::BinaryOp(lhs, op, rhs) => match gen_expr_in(t, g, *lhs, tmp()) {
            Emitted::Done(g1) => match gen_expr_in(t, g1, *rhs, tmp()) {
                Emitted::Done(g2) => {
                    let g3 = emit(
                        g2,
                        "    "@ + binop_instr(op) + " "@ + r(target) + " "@ + r(tmp()) + " "@ + r(
                            tmp(),
                        ),
                    );
                    if op == BinOp::Ne {
                        Emitted::Done(emit(g3, "    NOT_B "@ + r(target) + " "@ + r(target)))
                    } else {
                        Emitted::Done(g3)
                    }
                },
                other => other,
            },
            other => other,
        },
        ExprV::UnaryOp(op, x) => match gen_expr_in(t, g, *x, tmp()) {
            Emitted::Done(g1) => Emitted::Done(
                emit(
                    g1,
                    match op {
                        UnOp::Neg => "    SUB_I "@ + r(target) + " 0 "@ + r(tmp()),
                        UnOp::Not => "    NOT_B "@ + r(target) + " "@ + r(tmp()),
                    },
                ),
            ),
            other => other,
        },
        ExprV::Call(name, args) => match gen_args_in(t, g, args, 0) {
            Emitted::Done(g1) => {
                let g2 = emit(g1, "    CALL func_"@ + name);
                if target != 0 {
                    Emitted::Done(emit(g2, "    ADD_I "@ + r(target) + " 0 0"@))
                } else {
                    Emitted::Done(g2)
                }
            },
            other => other,
        },
    }
}

/// Code for call arguments: the `i`-th into register `first + i`.
pub open spec fn gen_args_in(t: TableV, g: GenV, args: Seq<ExprV>, first: nat) -> Emitted
    decreases args,
{
    if args.len() == 0 {
        Emitted::Done(g)
    } else {
        match gen_expr_in(t, g, args[0], first) {
            Emitted::Done(g1) => gen_args_in(t, g1, args.drop_first(), first + 1),
            other => other,
        }
    }
}

/// Code that prints one `print` argument: a string literal gives only a
/// comment; anything else is computed, turned into text and printed.
pub open spec fn print_arg_in(t: TableV, g: GenV, a: ExprV) -> Emitted {
    match a {
        ExprV::String(_) => Emitted::Done(emit(g, "    ; PRINT_STR "@ + r(tmp()))),
        _ => match gen_expr_in(t, g, a, tmp()) {
            Emitted::Done(g1) => Emitted::Done(
                emit(
                    emit(g1, "    INT2STR "@ + r(tmp()) + " "@ + r(tmp())),
                    "    PRINT_STR "@ + r(tmp()) + " 0 0"@,
                ),
            ),
            other => other,
        },
    }
}

pub open spec fn print_args_in(t: TableV, g: GenV, args: Seq<ExprV>) -> Emitted
    decreases args.len(),
{
    if args.len() == 0 {
        Emitted::Done(g)
    } else {
        match print_arg_in(t, g, args[0]) {
            Emitted::Done(g1) => print_args_in(t, g1, args.drop_first()),
            other => other,
        }
    }
}

/// Code for a statement. A declaration with an initializer and an assignment
/// compute into the variable's register (an array element's register is the
/// array's first plus a literal index); `if` and `while` jump to fresh labels
/// on a false condition; `return` leaves its value in register 0.
pub open spec fn gen_stmt_in(t: TableV, g: GenV, s: StmtV) -> Emitted
    decreases s,
{
    match s {
        StmtV::VarDecl { name, typ: _, init } => match reg_of(t, name) {
            None => Emitted::Abort(unwrap_none()),
            Some(reg) => match init {
                None => Emitted::Done(g),
                Some(e) => gen_expr_in(t, g, e, reg as nat),
            },
        },
        StmtV::Assign { target, index, expr } => match reg_of(t, target) {
            None => Emitted::Abort(unwrap_none()),
            Some(base) => match index {
                None => gen_expr_in(t, g, expr, base as nat),
                Some(ExprV::Integer(n)) => if base + (n as usize) > usize::MAX {
                    Emitted::Abort(add_overflow())
                } else {
                    gen_expr_in(t, g, expr, (base + (n as usize)) as nat)
                },
                Some(_) => Emitted::Abort(unwrap_none()),
            },
        },
        StmtV::If { cond, then_block, else_block } => match gen_expr_in(t, g, cond, tmp()) {
            Emitted::Done(g1) => match label_in(g1, "else"@) {
                None => Emitted::Abort(add_overflow()),
                Some((else_label, g2)) => match label_in(g2, "endif"@) {
                    None => Emitted::Abort(add_overflow()),
                    Some((end_label, g3)) => {
                        let g4 = emit(g3, "    JMP_FALSE "@ + r(tmp()) + " "@ + else_label);
                        match gen_block_in(t, g4, then_block) {
                            Emitted::Done(g5) => {
                                let g6 = emit(
                                    emit(g5, "    JMP "@ + end_label),
                                    else_label + ":"@,
                                );
                                match gen_block_in(t, g6, else_block) {
                                    Emitted::Done(g7) => Emitted::Done(emit(g7, end_label + ":"@)),
                                    other => other,
                                }
                            },
                            other => other,
                        }
                    },
                },
            },
            other => other,
        },
        StmtV::While { cond, body } => match label_in(g, "while_start"@) {
            None => Emitted::Abort(add_overflow()),
            Some((start_label, g1)) => match label_in(g1, "while_end"@) {
                None => Emitted::Abort(add_overflow()),
                Some((end_label, g2)) => match gen_expr_in(
                    t,
                    emit(g2, start_label + ":"@),
                    cond,
                    tmp(),
                ) {
                    Emitted::Done(g3) => match gen_block_in(
                        t,
                        emit(g3, "    JMP_FALSE "@ + r(tmp()) + " "@ + end_label),
                        body,
                    ) {
                        Emitted::Done(g4) => Emitted::Done(
                            emit(emit(g4, "    JMP "@ + start_label), end_label + ":"@),
                        ),
                        other => other,
                    },
                    other => other,
                },
            },
        },
        StmtV::Return(e) => match gen_expr_in(t, g, e, 0) {
            Emitted::Done(g1) => Emitted::Done(emit(g1, "    RET"@)),
            other => other,
        },
        StmtV::ExprStmt(e) => gen_expr_in(t, g, e, tmp()),
        StmtV::Print(args) => print_args_in(t, g, args),
        StmtV::Input(name) => match reg_of(t, name) {
            None => Emitted::Abort(unwrap_none()),
            Some(reg) => Emitted::Done(emit(g, "    READ_STR "@ + r(reg as nat) + " 0 0"@)),
        },
        StmtV::SetOutput(e) => match gen_expr_in(t, g, e, tmp()) {
            Emitted::Done(g1) => Emitted::Done(
                emit(g1, "    SET_OUT_FILE "@ + r(tmp()) + " 0 0"@),
            ),
            other => other,
        },
    }
}

/// Code for statements in order.
pub open spec fn gen_block_in(t: TableV, g: GenV, ss: Seq<StmtV>) -> Emitted
    decreases ss,
{
    if ss.len() == 0 {
        Emitted::Done(g)
    } else {
        match gen_stmt_in(t, g, ss[0]) {
            Emitted::Done(g1) => gen_block_in(t, g1, ss.drop_first()),
            other => other,
        }
    }
}

/// Whether a block has a `return` among its own statements (not nested ones).
pub open spec fn has_return(ss: Seq<StmtV>) -> bool {
    exists|i: int| 0 <= i < ss.len() && ss[i] is Return
}

/// Code for a function: its label `func_NAME`, its body, and a final `RET`
/// unless the body has a `return` of its own.
pub open spec fn gen_function_in(t: TableV, g: GenV, f: FunctionV) -> Emitted {
    match gen_block_in(t, emit(g, "func_"@ + f.name + ":"@), f.body) {
        Emitted::Done(g1) => if has_return(f.body) {
            Emitted::Done(g1)
        } else {
            Emitted::Done(emit(g1, "    RET"@))
        },
        other => other,
    }
}

pub open spec fn gen_functions_in(t: TableV, g: GenV, fs: Seq<FunctionV>) -> Emitted
    decreases fs.len(),
{
    if fs.len() == 0 {
        Emitted::Done(g)
    } else {
        match gen_function_in(t, g, fs[0]) {
            Emitted::Done(g1) => gen_functions_in(t, g1, fs.drop_first()),
            other => other,
        }
    }
}

/// Lines joined with line breaks between them.
pub open spec fn join_lines(ls: Seq<Seq<char>>) -> Seq<char>
    decreases ls.len(),
{
    if ls.len() == 0 {
        Seq::empty()
    } else if ls.len() == 1 {
        ls[0]
    } else {
        join_lines(ls.drop_last()) + "\n"@ + ls.last()
    }
}

/// The result of generating a whole program: its text, or the message that
/// generation stops with.
pub enum Generated {
    Text(Seq<char>),
    Abort(Seq<char>),
}

/// The assembly text of a program: a `.data` line, an empty line, the label
/// `start:`, the code of the top-level statements, the code of each function,
/// and a final `HALT`, one instruction or label per line.
pub open spec fn generate_in(t: TableV, g: GenV, p: ProgramV) -> Generated {
    let g1 = emit(emit(emit(g, ".data"@), Seq::empty()), "start:"@);
    match gen_block_in(t, g1, p.globals) {
        Emitted::Done(g2) => match gen_functions_in(t, g2, p.functions) {
            Emitted::Done(g3) => Generated::Text(join_lines(emit(g3, "    HALT 0 0 0"@).lines)),
            Emitted::Abort(m) => Generated::Abort(m),
        },
        Emitted::Abort(m) => Generated::Abort(m),
    }
}

// ---------------------------------------------------------------------------
// The generator.
// ---------------------------------------------------------------------------

/// The code generator: the lines emitted so far, the number of labels made,
/// and the symbol table that gives variables their registers.
pub struct CodeGen {
    output: Vec<String>,
    labels: usize,
    sym_table: SymbolTable,
}

pub open spec fn lines_view(v: Seq<String>) -> Seq<Seq<char>> {
    v.map_values(|s: String| s@)
}

/// Whether an executable result (with `Err` carrying the stop message), with
/// the generator left in state `g`, is the outcome `e`.
pub open spec fn emitted_is(e: Emitted, r: Result<(), String>, g: GenV) -> bool {
    match e {
        Emitted::Done(g2) => r is Ok && g == g2,
        Emitted::Abort(m) => r matches Err(x) && x@ == m,
    }
}

impl CodeGen {
    /// The lines emitted and the labels made so far.
    pub closed spec fn state(&self) -> GenV {
        GenV { lines: lines_view(self.output@), labels: self.labels as int }
    }

    /// The symbol table.
    pub closed spec fn table(&self) -> TableV {
        self.sym_table@
    }

    pub closed spec fn wf(&self) -> bool {
        self.sym_table.wf()
    }

    /// A generator with no lines and no labels yet, over a symbol table.
    pub fn new(sym_table: SymbolTable) -> (r: Self)
        requires
            sym_table.wf(),
        ensures
            r.wf(),
            r.table() == sym_table@,
            r.state() == (GenV { lines: Seq::empty(), labels: 0 }),
    {
        let r = CodeGen { output: Vec::new(), labels: 0, sym_table };
        assert(lines_view(r.output@) =~= Seq::empty());
        r
    }

    fn emit(&mut self, line: String)
        ensures
            final(self).state() == emit(old(self).state(), line@),
            final(self).sym_table == old(self).sym_table,
    {
        let ghost old_out = self.output@;
        self.output.push(line);
        assert(lines_view(self.output@) =~= lines_view(old_out).push(line@));
    }

    fn new_label(&mut self, prefix: &str) -> (r: Result<String, String>)
        ensures
            final(self).sym_table == old(self).sym_table,
            match label_in(old(self).state(), prefix@) {
                Some((l, g)) => r matches Ok(x) && x@ == l && final(self).state() == g,
                None => r matches Err(x) && x@ == add_overflow(),
            },
    {
        if self.labels == usize::MAX {
            return Err(owned("attempt to add with overflow"));
        }
        let mut l = owned(prefix);
        push_str(&mut l, "_");
        push_usize(&mut l, self.labels);
        self.labels = self.labels + 1;
        Ok(l)
    }

    fn reg(&self, name: &String) -> (r: Option<usize>)
        requires
            self.wf(),
        ensures
            r == reg_of(self.table(), name@),
    {
        self.sym_table.get_reg(name.as_str())
    }

    fn gen_expr_into(&mut self, e: &Expr, target: usize) -> (r: Result<(), String>)
        requires
            old(self).wf(),
        ensures
            final(self).wf(),
            final(self).table() == old(self).table(),
            emitted_is(gen_expr_in(old(self).table(), old(self).state(), e@, target as nat), r, final(self).state()),
        decreases e,
    {
        match e {
            Expr::Integer(n) => {
                let mut l = owned("    LOAD_INT ");
                push_usize(&mut l, target);
                push_str(&mut l, " ");
                push_i64(&mut l, *n);
                self.emit(l);
                Ok(())
            },
            Expr::Float(f) => {
                let mut l = owned("    LOAD_FLOAT ");
                push_usize(&mut l, target);
                push_str(&mut l, " ");
                push_str(&mut l, f.as_str());
                self.emit(l);
                Ok(())
            },
            Expr::Bool(b) => {
                let mut l = owned("    LOAD_BOOL ");
                push_usize(&mut l, target);
                if *b {
                    push_str(&mut l, " 1");
                } else {
                    push_str(&mut l, " 0");
                }
                self.emit(l);
                Ok(())
            },
            Expr::String(s) => {
                let mut l = owned("    ; STRING ");
                push_usize(&mut l, target);
                push_str(&mut l, " \"");
                push_str(&mut l, s.as_str());
                push_str(&mut l, "\"");
                self.emit(l);
                Ok(())
            },
            Expr::Char(c) => {
                let mut l = owned("    LOAD_CHAR ");
                push_usize(&mut l, target);
                push_str(&mut l, " ");
                push_usize(&mut l, *c as u32 as usize);
                self.emit(l);
                Ok(())
            },
            Expr::Variable(name) => {
                let reg = match self.reg(name) {
                    Some(x) => x,
                    None => return Err(owned("called `Option::unwrap()` on a `None` value")),
                };
                let mut l = owned("    ADD_I ");
                push_usize(&mut l, target);
                push_str(&mut l, " ");
                push_usize(&mut l, reg);
                push_str(&mut l, " 0");
                self.emit(l);
                Ok(())
            },
            Expr::ArrayElement(name, idx) => {
                let base = match self.reg(name) {
                    Some(x) => x,
                    None => return Err(owned("called `Option::unwrap()` on a `None` value")),
                };
                match self.gen_expr_into(idx, 100) {
                    Ok(()) => {},
                    Err(m) => return Err(m),
                }
                let mut l = owned("    ADD_I ");
                push_usize(&mut l, target);
                push_str(&mut l, " ");
                push_usize(&mut l, base);
                push_str(&mut l, " ");
                push_usize(&mut l, 100);
                self.emit(l);
                Ok(())
            },
            Expr::BinaryOp(lhs, op, rhs) => {
                match self.gen_expr_into(lhs, 100) {
                    Ok(()) => {},
                    Err(m) => return Err(m),
                }
                match self.gen_expr_into(rhs, 100) {
                    Ok(()) => {},
                    Err(m) => return Err(m),
                }
                let instr = match op {
                    BinOp::Add => "ADD_I",
                    BinOp::Sub => "SUB_I",
                    BinOp::Mul => "MUL_I",
                    BinOp::Div => "DIV_I",
                    BinOp::Eq => "IF_I",
                    BinOp::Ne => "IF_I",
                    BinOp::Lt => "CMP_LT",
                    BinOp::Le => "CMP_LE",
                    BinOp::Gt => "CMP_GT",
                    BinOp::Ge => "CMP_GE",
                    BinOp::And => "AND_B",
                    BinOp::Or => "OR_B",
                };
                let mut l = owned("    ");
                push_str(&mut l, instr);
                push_str(&mut l, " ");
                push_usize(&mut l, target);
                push_str(&mut l, " ");
                push_usize(&mut l, 100);
                push_str(&mut l, " ");
                push_usize(&mut l, 100);
                self.emit(l);
                if *op == BinOp::Ne {
                    let mut l2 = owned("    NOT_B ");
                    push_usize(&mut l2, target);
                    push_str(&mut l2, " ");
                    push_usize(&mut l2, target);
                    self.emit(l2);
                }
                Ok(())
            },
            Expr::UnaryOp(op, x) => {
                match self.gen_expr_into(x, 100) {
                    Ok(()) => {},
                    Err(m) => return Err(m),
                }
                let l = match op {
                    UnOp::Neg => {
                        let mut l = owned("    SUB_I ");
                        push_usize(&mut l, target);
                        push_str(&mut l, " 0 ");
                        push_usize(&mut l, 100);
                        l
                    },
                    UnOp::Not => {
                        let mut l = owned("    NOT_B ");
                        push_usize(&mut l, target);
                        push_str(&mut l, " ");
                        push_usize(&mut l, 100);
                        l
                    },
                };
                self.emit(l);
                Ok(())
            },
            Expr::Call(name, args) => {
                match self.gen_args(args) {
                    Ok(()) => {},
                    Err(m) => return Err(m),
                }
                let mut l = owned("    CALL func_");
                push_str(&mut l, name.as_str());
                self.emit(l);
                if target != 0 {
                    let mut l2 = owned("    ADD_I ");
                    push_usize(&mut l2, target);
                    push_str(&mut l2, " 0 0");
                    self.emit(l2);
                }
                Ok(())
            },
        }
    }

    fn gen_args(&mut self, args: &Vec<Expr>) -> (r: Result<(), String>)
        requires
            old(self).wf(),
        ensures
            final(self).wf(),
            final(self).table() == old(self).table(),
            emitted_is(gen_args_in(old(self).table(), old(self).state(), exprs_view(args@), 0), r, final(self).state()),
        decreases args,
    {
        let ghost av = exprs_view(args@);
        proof {
            lemma_exprs_view(args@);
        }
        let ghost g0 = self.state();
        let ghost t0 = self.table();
        let mut i: usize = 0;
        assert(av.skip(0) == av);
        while i < args.len()
            invariant
                self.wf(),
                self.table() == t0,
                t0 == old(self).table(),
                g0 == old(self).state(),
                i <= args.len(),
                av == exprs_view(args@),
                av.len() == args@.len(),
                forall|j: int| 0 <= j < args@.len() ==> #[trigger] av[j] == args@[j]@,
                gen_args_in(t0, self.state(), av.skip(i as int), i as nat) == gen_args_in(t0, g0, av, 0),
            decreases args.len() - i,
        {
            let ghost rest = av.skip(i as int);
            let ghost before = self.state();
            assert(rest[0] == args@[i as int]@);
            assert(rest.drop_first() == av.skip(i + 1));
            match self.gen_expr_into(&args[i], i) {
                Ok(()) => {},
                Err(m) => {
                    assert(gen_args_in(t0, before, rest, i as nat) == gen_expr_in(t0, before, rest[0], i as nat));
                    return Err(m);
                },
            }
            i += 1;
        }
        Ok(())
    }

    fn gen_print_args(&mut self, args: &Vec<Expr>) -> (r: Result<(), String>)
        requires
            old(self).wf(),
        ensures
            final(self).wf(),
            final(self).table() == old(self).table(),
            emitted_is(print_args_in(old(self).table(), old(self).state(), exprs_view(args@)), r, final(self).state()),
    {
        let ghost av = exprs_view(args@);
        proof {
            lemma_exprs_view(args@);
        }
        let ghost g0 = self.state();
        let ghost t0 = self.table();
        let mut i: usize = 0;
        assert(av.skip(0) == av);
        while i < args.len()
            invariant
                self.wf(),
                self.table() == t0,
                t0 == old(self).table(),
                g0 == old(self).state(),
                i <= args.len(),
                av == exprs_view(args@),
                av.len() == args@.len(),
                forall|j: int| 0 <= j < args@.len() ==> #[trigger] av[j] == args@[j]@,
                print_args_in(t0, self.state(), av.skip(i as int)) == print_args_in(t0, g0, av),
            decreases args.len() - i,
        {
            let ghost rest = av.skip(i as int);
            let ghost before = self.state();
            assert(rest[0] == args@[i as int]@);
            assert(rest.drop_first() == av.skip(i + 1));
            match &args[i] {
                Expr::String(_) => {
                    let mut l = owned("    ; PRINT_STR ");
                    push_usize(&mut l, 100);
                    self.emit(l);
                },
                a => {
                    match self.gen_expr_into(a, 100) {
                        Ok(()) => {},
                        Err(m) => {
                            assert(print_args_in(t0, before, rest) == print_arg_in(t0, before, rest[0]));
                            return Err(m);
                        },
                    }
                    let mut l = owned("    INT2STR ");
                    push_usize(&mut l, 100);
                    push_str(&mut l, " ");
                    push_usize(&mut l, 100);
                    self.emit(l);
                    let mut l2 = owned("    PRINT_STR ");
                    push_usize(&mut l2, 100);
                    push_str(&mut l2, " 0 0");
                    self.emit(l2);
                },
            }
            i += 1;
        }
        Ok(())
    }

    fn gen_stmt(&mut self, st: &Stmt) -> (r: Result<(), String>)
        requires
            old(self).wf(),
        ensures
            final(self).wf(),
            final(self).table() == old(self).table(),
            emitted_is(gen_stmt_in(old(self).table(), old(self).state(), st@), r, final(self).state()),
        decreases st,
    {
        match st {
            Stmt::VarDecl { name, typ: _, init } => {
                let reg = match self.reg(name) {
                    Some(x) => x,
                    None => return Err(owned("called `Option::unwrap()` on a `None` value")),
                };
                match init {
                    None => Ok(()),
                    Some(e) => self.gen_expr_into(e, reg),
                }
            },
            Stmt::Assign { target, index, expr } => {
                let base = match self.reg(target) {
                    Some(x) => x,
                    None => return Err(owned("called `Option::unwrap()` on a `None` value")),
                };
                match index {
                    None => self.gen_expr_into(expr, base),
                    Some(ie) => {
                        let idx = match &**ie {
                            Expr::Integer(n) => *n as usize,
                            _ => return Err(owned("called `Option::unwrap()` on a `None` value")),
                        };
                        if base > usize::MAX - idx {
                            return Err(owned("attempt to add with overflow"));
                        }
                        self.gen_expr_into(expr, base + idx)
                    },
                }
            },
            Stmt::If { cond, then_block, else_block } => {
                match self.gen_expr_into(cond, 100) {
                    Ok(()) => {},
                    Err(m) => return Err(m),
                }
                let else_label = match self.new_label("else") {
                    Ok(x) => x,
                    Err(m) => return Err(m),
                };
                let end_label = match self.new_label("endif") {
                    Ok(x) => x,
                    Err(m) => return Err(m),
                };
                let mut l = owned("    JMP_FALSE ");
                push_usize(&mut l, 100);
                push_str(&mut l, " ");
                push_str(&mut l, else_label.as_str());
                self.emit(l);
                match self.gen_block(then_block) {
                    Ok(()) => {},
                    Err(m) => return Err(m),
                }
                let mut l2 = owned("    JMP ");
                push_str(&mut l2, end_label.as_str());
                self.emit(l2);
                let mut l3 = copy_text(&else_label);
                push_str(&mut l3, ":");
                self.emit(l3);
                match self.gen_block(else_block) {
                    Ok(()) => {},
                    Err(m) => return Err(m),
                }
                let mut l4 = copy_text(&end_label);
                push_str(&mut l4, ":");
                self.emit(l4);
                Ok(())
            },
            Stmt::While { cond, body } => {
                let start_label = match self.new_label("while_start") {
                    Ok(x) => x,
                    Err(m) => return Err(m),
                };
                let end_label = match self.new_label("while_end") {
                    Ok(x) => x,
                    Err(m) => return Err(m),
                };
                let mut l = copy_text(&start_label);
                push_str(&mut l, ":");
                self.emit(l);
                match self.gen_expr_into(cond, 100) {
                    Ok(()) => {},
                    Err(m) => return Err(m),
                }
                let mut l2 = owned("    JMP_FALSE ");
                push_usize(&mut l2, 100);
                push_str(&mut l2, " ");
                push_str(&mut l2, end_label.as_str());
                self.emit(l2);
                match self.gen_block(body) {
                    Ok(()) => {},
                    Err(m) => return Err(m),
                }
                let mut l3 = owned("    JMP ");
                push_str(&mut l3, start_label.as_str());
                self.emit(l3);
                let mut l4 = copy_text(&end_label);
                push_str(&mut l4, ":");
                self.emit(l4);
                Ok(())
            },
            Stmt::Return(e) => {
                match self.gen_expr_into(e, 0) {
                    Ok(()) => {},
                    Err(m) => return Err(m),
                }
                self.emit(owned("    RET"));
                Ok(())
            },
            Stmt::ExprStmt(e) => self.gen_expr_into(e, 100),
            Stmt::Print(args) => self.gen_print_args(args),
            Stmt::Input(var) => {
                let reg = match self.reg(var) {
                    Some(x) => x,
                    None => return Err(owned("called `Option::unwrap()` on a `None` value")),
                };
                let mut l = owned("    READ_STR ");
                push_usize(&mut l, reg);
                push_str(&mut l, " 0 0");
                self.emit(l);
                Ok(())
            },
            Stmt::SetOutput(e) => {
                match self.gen_expr_into(e, 100) {
                    Ok(()) => {},
                    Err(m) => return Err(m),
                }
                let mut l = owned("    SET_OUT_FILE ");
                push_usize(&mut l, 100);
                push_str(&mut l, " 0 0");
                self.emit(l);
                Ok(())
            },
        }
    }

    fn gen_block(&mut self, ss: &Vec<Stmt>) -> (r: Result<(), String>)
        requires
            old(self).wf(),
        ensures
            final(self).wf(),
            final(self).table() == old(self).table(),
            emitted_is(gen_block_in(old(self).table(), old(self).state(), stmts_view(ss@)), r, final(self).state()),
        decreases ss,
    {
        let ghost sv = stmts_view(ss@);
        proof {
            lemma_stmts_view(ss@);
        }
        let ghost g0 = self.state();
        let ghost t0 = self.table();
        let mut i: usize = 0;
        assert(sv.skip(0) == sv);
        while i < ss.len()
            invariant
                self.wf(),
                self.table() == t0,
                t0 == old(self).table(),
                g0 == old(self).state(),
                i <= ss.len(),
                sv == stmts_view(ss@),
                sv.len() == ss@.len(),
                forall|j: int| 0 <= j < ss@.len() ==> #[trigger] sv[j] == ss@[j]@,
                gen_block_in(t0, self.state(), sv.skip(i as int)) == gen_block_in(t0, g0, sv),
            decreases ss.len() - i,
        {
            let ghost rest = sv.skip(i as int);
            let ghost before = self.state();
            assert(rest[0] == ss@[i as int]@);
            assert(rest.drop_first() == sv.skip(i + 1));
            match self.gen_stmt(&ss[i]) {
                Ok(()) => {},
                Err(m) => {
                    assert(gen_block_in(t0, before, rest) == gen_stmt_in(t0, before, rest[0]));
                    return Err(m);
                },
            }
            i += 1;
        }
        Ok(())
    }

    fn gen_function(&mut self, f: &Function) -> (r: Result<(), String>)
        requires
            old(self).wf(),
        ensures
            final(self).wf(),
            final(self).table() == old(self).table(),
            emitted_is(gen_function_in(old(self).table(), old(self).state(), f@), r, final(self).state()),
    {
        let mut l = owned("func_");
        push_str(&mut l, f.name.as_str());
        push_str(&mut l, ":");
        self.emit(l);
        match self.gen_block(&f.body) {
            Ok(()) => {},
            Err(m) => return Err(m),
        }
        // a final RET unless the body returns by itself
        let ghost sv = stmts_view(f.body@);
        proof {
            lemma_stmts_view(f.body@);
        }
        let mut i: usize = 0;
        let mut found = false;
        while i < f.body.len()
            invariant
                i <= f.body.len(),
                sv == stmts_view(f.body@),
                sv.len() == f.body@.len(),
                forall|j: int| 0 <= j < f.body@.len() ==> #[trigger] sv[j] == f.body@[j]@,
                found <==> exists|j: int| 0 <= j < i && sv[j] is Return,
            decreases f.body.len() - i,
        {
            if let Stmt::Return(_) = &f.body[i] {
                found = true;
            }
            assert(sv[i as int] == f.body@[i as int]@);
            i += 1;
        }
        if !found {
            self.emit(owned("    RET"));
        }
        Ok(())
    }

    /// The assembly text of a program (see `generate_in`), or the message
    /// that generation stops with.
    pub fn generate_outcome(self, prog: &Program) -> (r: Result<String, String>)
        requires
            self.wf(),
        ensures
            match generate_in(self.table(), self.state(), prog@) {
                Generated::Text(t) => r matches Ok(x) && x@ == t,
                Generated::Abort(m) => r matches Err(x) && x@ == m,
            },
    {
        let mut cg = self;
        let ghost t0 = cg.table();
        let ghost gstart = cg.state();
        cg.emit(owned(".data"));
        cg.emit(String::new());
        cg.emit(owned("start:"));
        match cg.gen_block(&prog.globals) {
            Ok(()) => {},
            Err(m) => return Err(m),
        }
        let ghost fv = functions_view(prog.functions@);
        let ghost g0 = cg.state();
        let mut i: usize = 0;
        assert(fv.skip(0) == fv);
        while i < prog.functions.len()
            invariant
                cg.wf(),
                cg.table() == t0,
                i <= prog.functions.len(),
                fv == functions_view(prog.functions@),
                gen_functions_in(t0, cg.state(), fv.skip(i as int)) == gen_functions_in(t0, g0, fv),
                t0 == self.table(),
                gstart == self.state(),
                generate_in(t0, gstart, prog@) == match gen_functions_in(t0, g0, fv) {
                    Emitted::Done(g3) => Generated::Text(join_lines(emit(g3, "    HALT 0 0 0"@).lines)),
                    Emitted::Abort(m) => Generated::Abort(m),
                },
            decreases prog.functions.len() - i,
        {
            let ghost rest = fv.skip(i as int);
            let ghost before = cg.state();
            assert(rest[0] == prog.functions@[i as int]@);
            assert(rest.drop_first() == fv.skip(i + 1));
            match cg.gen_function(&prog.functions[i]) {
                Ok(()) => {},
                Err(m) => {
                    assert(gen_functions_in(t0, before, rest) == gen_function_in(t0, before, rest[0]));
                    return Err(m);
                },
            }
            i += 1;
        }
        cg.emit(owned("    HALT 0 0 0"));
        Ok(join(&cg.output))
    }

    /// The assembly text of a program (see `generate_in`), for a program
    /// whose generation does not stop.
    pub fn generate(self, prog: &Program) -> (r: String)
        requires
            self.wf(),
            generate_in(self.table(), self.state(), prog@) is Text,
        ensures
            generate_in(self.table(), self.state(), prog@) == Generated::Text(r@),
    {
        match self.generate_outcome(prog) {
            Ok(x) => x,
            Err(_) => {
                assert(false);
                String::new()
            },
        }
    }
}

/// Lines joined with line breaks between them.
fn join(lines: &Vec<String>) -> (r: String)
    ensures
        r@ == join_lines(lines_view(lines@)),
{
    let ghost lv = lines_view(lines@);
    let mut r = String::new();
    let mut i: usize = 0;
    assert(lv.take(0) =~= Seq::<Seq<char>>::empty());
    while i < lines.len()
        invariant
            i <= lines.len(),
            lv == lines_view(lines@),
            r@ == join_lines(lv.take(i as int)),
        decreases lines.len() - i,
    {
        assert(lv.take(i + 1).drop_last() == lv.take(i as int));
        if i > 0 {
            push_str(&mut r, "\n");
        }
        push_str(&mut r, lines[i].as_str());
        i += 1;
        assert(lv.take(i as int).last() == lines@[i - 1]@);
    }
    assert(lv.take(lines.len() as int) == lv);
    r
}


// ---------------------------------------------------------------------------
// Laws: code is only ever appended, and labels are only ever added.
// ---------------------------------------------------------------------------

/// Whether generation from `g` kept every line of `g` in place and made no
/// label twice (the count never goes back).
pub open spec fn extends(g: GenV, e: Emitted) -> bool {
    e matches Emitted::Done(g2) ==> {
        &&& g.lines.len() <= g2.lines.len()
        &&& forall|i: int| 0 <= i < g.lines.len() ==> #[trigger] g2.lines[i] == g.lines[i]
        &&& g.labels <= g2.labels
    }
}

proof fn lemma_expr_extends(t: TableV, g: GenV, e: ExprV, target: nat)
    ensures
        extends(g, gen_expr_in(t, g, e, target)),
    decreases e,
{
    match e {
        ExprV::ArrayElement(name, idx) => {
            lemma_expr_extends(t, g, *idx, tmp());
        },
        ExprV::BinaryOp(lhs, op, rhs) => {
            lemma_expr_extends(t, g, *lhs, tmp());
            if let Emitted::Done(g1) = gen_expr_in(t, g, *lhs, tmp()) {
                lemma_expr_extends(t, g1, *rhs, tmp());
            }
        },
        ExprV::UnaryOp(op, x) => {
            lemma_expr_extends(t, g, *x, tmp());
        },
        ExprV::Call(name, args) => {
            lemma_args_extend(t, g, args, 0);
        },
        _ => {},
    }
}

proof fn lemma_args_extend(t: TableV, g: GenV, args: Seq<ExprV>, first: nat)
    ensures
        extends(g, gen_args_in(t, g, args, first)),
    decreases args,
{
    if args.len() > 0 {
        lemma_expr_extends(t, g, args[0], first);
        if let Emitted::Done(g1) = gen_expr_in(t, g, args[0], first) {
            lemma_args_extend(t, g1, args.drop_first(), first + 1);
        }
    }
}

proof fn lemma_print_args_extend(t: TableV, g: GenV, args: Seq<ExprV>)
    ensures
        extends(g, print_args_in(t, g, args)),
    decreases args.len(),
{
    if args.len() > 0 {
        lemma_expr_extends(t, g, args[0], tmp());
        if let Emitted::Done(g1) = print_arg_in(t, g, args[0]) {
            lemma_print_args_extend(t, g1, args.drop_first());
        }
    }
}

proof fn lemma_stmt_extends(t: TableV, g: GenV, s: StmtV)
    ensures
        extends(g, gen_stmt_in(t, g, s)),
    decreases s,
{
    match s {
        StmtV::VarDecl { name, typ: _, init } => {
            if let Some(e) = init {
                if let Some(reg) = reg_of(t, name) {
                    lemma_expr_extends(t, g, e, reg as nat);
                }
            }
        },
        StmtV::Assign { target, index, expr } => {
            if let Some(base) = reg_of(t, target) {
                lemma_expr_extends(t, g, expr, base as nat);
                if let Some(ExprV::Integer(n)) = index {
                    lemma_expr_extends(t, g, expr, (base + (n as usize)) as nat);
                }
            }
        },
        StmtV::If { cond, then_block, else_block } => {
            lemma_expr_extends(t, g, cond, tmp());
            if let Emitted::Done(g1) = gen_expr_in(t, g, cond, tmp()) {
                if let Some((else_label, g2)) = label_in(g1, "else"@) {
                    if let Some((end_label, g3)) = label_in(g2, "endif"@) {
                        let g4 = emit(g3, "    JMP_FALSE "@ + r(tmp()) + " "@ + else_label);
                        lemma_block_extends(t, g4, then_block);
                        if let Emitted::Done(g5) = gen_block_in(t, g4, then_block) {
                            let g6 = emit(emit(g5, "    JMP "@ + end_label), else_label + ":"@);
                            lemma_block_extends(t, g6, else_block);
                        }
                    }
                }
            }
        },
        StmtV::While { cond, body } => {
            if let Some((start_label, g1)) = label_in(g, "while_start"@) {
                if let Some((end_label, g2)) = label_in(g1, "while_end"@) {
                    let g2s = emit(g2, start_label + ":"@);
                    lemma_expr_extends(t, g2s, cond, tmp());
                    if let Emitted::Done(g3) = gen_expr_in(t, g2s, cond, tmp()) {
                        let g3j = emit(g3, "    JMP_FALSE "@ + r(tmp()) + " "@ + end_label);
                        lemma_block_extends(t, g3j, body);
                    }
                }
            }
        },
        StmtV::Return(e) => {
            lemma_expr_extends(t, g, e, 0);
        },
        StmtV::ExprStmt(e) => {
            lemma_expr_extends(t, g, e, tmp());
        },
        StmtV::Print(args) => {
            lemma_print_args_extend(t, g, args);
        },
        StmtV::SetOutput(e) => {
            lemma_expr_extends(t, g, e, tmp());
        },
        _ => {},
    }
}

proof fn lemma_block_extends(t: TableV, g: GenV, ss: Seq<StmtV>)
    ensures
        extends(g, gen_block_in(t, g, ss)),
    decreases ss,
{
    if ss.len() > 0 {
        lemma_stmt_extends(t, g, ss[0]);
        if let Emitted::Done(g1) = gen_stmt_in(t, g, ss[0]) {
            assert(ss.drop_first().len() < ss.len());
            lemma_block_extends(t, g1, ss.drop_first());
        }
    }
}

proof fn lemma_functions_extend(t: TableV, g: GenV, fs: Seq<FunctionV>)
    ensures
        extends(g, gen_functions_in(t, g, fs)),
    decreases fs.len(),
{
    if fs.len() > 0 {
        let f = fs[0];
        lemma_block_extends(t, emit(g, "func_"@ + f.name + ":"@), f.body);
        if let Emitted::Done(g1) = gen_function_in(t, g, f) {
            lemma_functions_extend(t, g1, fs.drop_first());
        }
    }
}

/// Code is only ever appended: generating a statement keeps every line
/// already emitted in place and never takes back a label number.
pub proof fn law_statement_appends(t: TableV, g: GenV, s: StmtV)
    ensures
        extends(g, gen_stmt_in(t, g, s)),
{
    lemma_stmt_extends(t, g, s);
}

/// The frame of a generated listing: the lines `.data`, an empty line and
/// `start:`, then the code, and a final `HALT 0 0 0`.
pub open spec fn framed(ls: Seq<Seq<char>>) -> bool {
    &&& ls.len() >= 4
    &&& ls[0] == ".data"@
    &&& ls[1] == Seq::<char>::empty()
    &&& ls[2] == "start:"@
    &&& ls.last() == "    HALT 0 0 0"@
}

/// Whether a text is the lines of a framed listing joined by line breaks.
pub open spec fn framed_text(s: Seq<char>) -> bool {
    exists|ls: Seq<Seq<char>>| #[trigger] framed(ls) && s == join_lines(ls)
}

/// Every listing the generator produces from a fresh start opens with the
/// data section and the `start:` entry point and ends with `HALT`.
pub proof fn law_listing_frame(t: TableV, p: ProgramV)
    ensures
        generate_in(t, GenV { lines: Seq::empty(), labels: 0 }, p) matches Generated::Text(s)
            ==> framed_text(s),
{
    let g = GenV { lines: Seq::empty(), labels: 0 };
    let g1 = emit(emit(emit(g, ".data"@), Seq::empty()), "start:"@);
    lemma_block_extends(t, g1, p.globals);
    if let Emitted::Done(g2) = gen_block_in(t, g1, p.globals) {
        lemma_functions_extend(t, g2, p.functions);
        if let Emitted::Done(g3) = gen_functions_in(t, g2, p.functions) {
            let ls = emit(g3, "    HALT 0 0 0"@).lines;
            assert(g1.lines[0] == ".data"@);
            assert(g1.lines[1] == Seq::<char>::empty());
            assert(g1.lines[2] == "start:"@);
            assert(g3.lines[0] == g2.lines[0] && g2.lines[0] == g1.lines[0]);
            assert(g3.lines[1] == g2.lines[1] && g2.lines[1] == g1.lines[1]);
            assert(g3.lines[2] == g2.lines[2] && g2.lines[2] == g1.lines[2]);
            assert(framed(ls));
            assert(framed_text(join_lines(ls)));
        }
    }
}

proof fn lemma_label_suffix(p: Seq<char>, n: nat, k: int)
    requires
        p.len() < k < (p + "_"@ + dec_nat(n)).len(),
    ensures
        (p + "_"@ + dec_nat(n))[k] != '_',
        (p + "_"@ + dec_nat(n))[p.len() as int] == '_',
{
    reveal_strlit("_");
    lemma_dec_nat_shape(n);
    assert((p + "_"@ + dec_nat(n))[k] == dec_nat(n)[k - p.len() - 1]);
}

/// Labels never collide: two labels made at different counts differ,
/// whatever their prefixes, so every label a generation makes is new.
pub proof fn law_labels_distinct(g1: GenV, p1: Seq<char>, g2: GenV, p2: Seq<char>)
    requires
        g1.labels >= 0,
        g2.labels >= 0,
        g1.labels != g2.labels,
    ensures
        label_in(g1, p1) matches Some((l1, _)) ==> (label_in(g2, p2) matches Some((l2, _)) ==> l1
            != l2),
{
    if let Some((l1, _)) = label_in(g1, p1) {
        if let Some((l2, _)) = label_in(g2, p2) {
            let n1 = g1.labels as nat;
            let n2 = g2.labels as nat;
            reveal_strlit("_");
            lemma_dec_nat_shape(n1);
            lemma_dec_nat_shape(n2);
            if l1 == l2 {
                if p1.len() < p2.len() {
                    lemma_label_suffix(p1, n1, p2.len() as int);
                    lemma_label_suffix(p2, n2, p2.len() as int + 1);
                    assert(l2[p2.len() as int] == '_');
                } else if p2.len() < p1.len() {
                    lemma_label_suffix(p2, n2, p1.len() as int);
                    lemma_label_suffix(p1, n1, p1.len() as int + 1);
                    assert(l1[p1.len() as int] == '_');
                } else {
                    assert(dec_nat(n1) =~= l1.subrange(p1.len() as int + 1, l1.len() as int));
                    assert(dec_nat(n2) =~= l2.subrange(p2.len() as int + 1, l2.len() as int));
                    lemma_dec_nat_injective(n1, n2);
                }
            }
        }
    }
}

// ---------------------------------------------------------------------------
// Law: generation goes through when every name is known.
// ---------------------------------------------------------------------------

/// Every variable an expression reads has a register.
pub open spec fn expr_names_known(t: TableV, e: ExprV) -> bool
    decreases e,
{
    match e {
        ExprV::Variable(name) => reg_of(t, name) is Some,
        ExprV::ArrayElement(name, idx) => reg_of(t, name) is Some && expr_names_known(t, *idx),
        ExprV::BinaryOp(l, _, r) => expr_names_known(t, *l) && expr_names_known(t, *r),
        ExprV::UnaryOp(_, x) => expr_names_known(t, *x),
        ExprV::Call(_, args) => args_names_known(t, args),
        _ => true,
    }
}

pub open spec fn args_names_known(t: TableV, args: Seq<ExprV>) -> bool
    decreases args,
{
    if args.len() == 0 {
        true
    } else {
        expr_names_known(t, args[0]) && args_names_known(t, args.drop_first())
    }
}

/// Every `print` argument that is computed reads only known variables.
pub open spec fn print_names_known(t: TableV, args: Seq<ExprV>) -> bool
    decreases args.len(),
{
    if args.len() == 0 {
        true
    } else {
        (args[0] is String || expr_names_known(t, args[0])) && print_names_known(t, args.drop_first())
    }
}

/// Every name a statement uses has a register, and every array index it
/// assigns through is an integer literal whose register does not overflow.
pub open spec fn stmt_names_known(t: TableV, s: StmtV) -> bool
    decreases s,
{
    match s {
        StmtV::VarDecl { name, typ: _, init } => reg_of(t, name) is Some && match init {
            Some(e) => expr_names_known(t, e),
            None => true,
        },
        StmtV::Assign { target, index, expr } => match reg_of(t, target) {
            None => false,
            Some(base) => expr_names_known(t, expr) && match index {
                None => true,
                Some(ExprV::Integer(n)) => base + (n as usize) <= usize::MAX,
                Some(_) => false,
            },
        },
        StmtV::If { cond, then_block, else_block } => expr_names_known(t, cond) && block_names_known(
            t,
            then_block,
        ) && block_names_known(t, else_block),
        StmtV::While { cond, body } => expr_names_known(t, cond) && block_names_known(t, body),
        StmtV::Return(e) => expr_names_known(t, e),
        StmtV::ExprStmt(e) => expr_names_known(t, e),
        StmtV::Print(args) => print_names_known(t, args),
        StmtV::Input(name) => reg_of(t, name) is Some,
        StmtV::SetOutput(e) => expr_names_known(t, e),
    }
}

pub open spec fn block_names_known(t: TableV, ss: Seq<StmtV>) -> bool
    decreases ss,
{
    if ss.len() == 0 {
        true
    } else {
        stmt_names_known(t, ss[0]) && block_names_known(t, ss.drop_first())
    }
}

/// The number of labels a statement's code makes: two for each `if` and
/// each `while`, nested ones included.
pub open spec fn stmt_labels(s: StmtV) -> nat
    decreases s,
{
    match s {
        StmtV::If { cond: _, then_block, else_block } => 2 + block_labels(then_block) + block_labels(
            else_block,
        ),
        StmtV::While { cond: _, body } => 2 + block_labels(body),
        _ => 0,
    }
}

pub open spec fn block_labels(ss: Seq<StmtV>) -> nat
    decreases ss,
{
    if ss.len() == 0 {
        0
    } else {
        stmt_labels(ss[0]) + block_labels(ss.drop_first())
    }
}

proof fn lemma_expr_goes(t: TableV, g: GenV, e: ExprV, target: nat)
    requires
        expr_names_known(t, e),
    ensures
        gen_expr_in(t, g, e, target) matches Emitted::Done(g2) && g2.labels == g.labels,
    decreases e,
{
    match e {
        ExprV::ArrayElement(name, idx) => {
            lemma_expr_goes(t, g, *idx, tmp());
        },
        ExprV::BinaryOp(l, op, r) => {
            lemma_expr_goes(t, g, *l, tmp());
            if let Emitted::Done(g1) = gen_expr_in(t, g, *l, tmp()) {
                lemma_expr_goes(t, g1, *r, tmp());
            }
        },
        ExprV::UnaryOp(op, x) => {
            lemma_expr_goes(t, g, *x, tmp());
        },
        ExprV::Call(name, args) => {
            lemma_args_go(t, g, args, 0);
        },
        _ => {},
    }
}

proof fn lemma_args_go(t: TableV, g: GenV, args: Seq<ExprV>, first: nat)
    requires
        args_names_known(t, args),
    ensures
        gen_args_in(t, g, args, first) matches Emitted::Done(g2) && g2.labels == g.labels,
    decreases args,
{
    if args.len() > 0 {
        lemma_expr_goes(t, g, args[0], first);
        if let Emitted::Done(g1) = gen_expr_in(t, g, args[0], first) {
            lemma_args_go(t, g1, args.drop_first(), first + 1);
        }
    }
}

proof fn lemma_print_goes(t: TableV, g: GenV, args: Seq<ExprV>)
    requires
        print_names_known(t, args),
    ensures
        print_args_in(t, g, args) matches Emitted::Done(g2) && g2.labels == g.labels,
    decreases args.len(),
{
    if args.len() > 0 {
        if !(args[0] is String) {
            lemma_expr_goes(t, g, args[0], tmp());
        }
        if let Emitted::Done(g1) = print_arg_in(t, g, args[0]) {
            lemma_print_goes(t, g1, args.drop_first());
        }
    }
}

proof fn lemma_stmt_goes(t: TableV, g: GenV, s: StmtV)
    requires
        stmt_names_known(t, s),
        g.labels + stmt_labels(s) <= usize::MAX,
    ensures
        gen_stmt_in(t, g, s) matches Emitted::Done(g2) && g2.labels == g.labels + stmt_labels(s),
    decreases s,
{
    match s {
        StmtV::VarDecl { name, typ: _, init } => {
            if let Some(e) = init {
                lemma_expr_goes(t, g, e, reg_of(t, name)->0 as nat);
            }
        },
        StmtV::Assign { target, index, expr } => {
            let base = reg_of(t, target)->0;
            match index {
                None => lemma_expr_goes(t, g, expr, base as nat),
                Some(ExprV::Integer(n)) => lemma_expr_goes(t, g, expr, (base + (n as usize)) as nat),
                Some(_) => {},
            }
        },
        StmtV::If { cond, then_block, else_block } => {
            lemma_expr_goes(t, g, cond, tmp());
            let g1 = gen_expr_in(t, g, cond, tmp())->Done_0;
            let (else_label, g2) = label_in(g1, "else"@)->0;
            let (end_label, g3) = label_in(g2, "endif"@)->0;
            let g4 = emit(g3, "    JMP_FALSE "@ + r(tmp()) + " "@ + else_label);
            lemma_block_goes(t, g4, then_block);
            let g5 = gen_block_in(t, g4, then_block)->Done_0;
            let g6 = emit(emit(g5, "    JMP "@ + end_label), else_label + ":"@);
            lemma_block_goes(t, g6, else_block);
        },
        StmtV::While { cond, body } => {
            let (start_label, g1) = label_in(g, "while_start"@)->0;
            let (end_label, g2) = label_in(g1, "while_end"@)->0;
            let g2s = emit(g2, start_label + ":"@);
            lemma_expr_goes(t, g2s, cond, tmp());
            let g3 = gen_expr_in(t, g2s, cond, tmp())->Done_0;
            lemma_block_goes(t, emit(g3, "    JMP_FALSE "@ + r(tmp()) + " "@ + end_label), body);
        },
        StmtV::Return(e) => lemma_expr_goes(t, g, e, 0),
        StmtV::ExprStmt(e) => lemma_expr_goes(t, g, e, tmp()),
        StmtV::Print(args) => lemma_print_goes(t, g, args),
        StmtV::SetOutput(e) => lemma_expr_goes(t, g, e, tmp()),
        StmtV::Input(_) => {},
    }
}

proof fn lemma_block_goes(t: TableV, g: GenV, ss: Seq<StmtV>)
    requires
        block_names_known(t, ss),
        g.labels + block_labels(ss) <= usize::MAX,
    ensures
        gen_block_in(t, g, ss) matches Emitted::Done(g2) && g2.labels == g.labels + block_labels(ss),
    decreases ss,
{
    if ss.len() > 0 {
        lemma_stmt_goes(t, g, ss[0]);
        let g1 = gen_stmt_in(t, g, ss[0])->Done_0;
        assert(ss.drop_first().len() < ss.len());
        lemma_block_goes(t, g1, ss.drop_first());
    }
}

/// Whether every function body uses only known names.
pub open spec fn functions_names_known(t: TableV, fs: Seq<FunctionV>) -> bool {
    forall|i: int| 0 <= i < fs.len() ==> block_names_known(t, (#[trigger] fs[i]).body)
}

/// The labels the code of the functions makes.
pub open spec fn functions_labels(fs: Seq<FunctionV>) -> nat
    decreases fs.len(),
{
    if fs.len() == 0 {
        0
    } else {
        block_labels(fs[0].body) + functions_labels(fs.drop_first())
    }
}

proof fn lemma_functions_go(t: TableV, g: GenV, fs: Seq<FunctionV>)
    requires
        functions_names_known(t, fs),
        g.labels + functions_labels(fs) <= usize::MAX,
    ensures
        gen_functions_in(t, g, fs) matches Emitted::Done(g2) && g2.labels == g.labels
            + functions_labels(fs),
    decreases fs.len(),
{
    if fs.len() > 0 {
        let f = fs[0];
        assert(block_names_known(t, fs[0].body));
        lemma_block_goes(t, emit(g, "func_"@ + f.name + ":"@), f.body);
        let g1 = gen_function_in(t, g, f)->Done_0;
        let rest = fs.drop_first();
        assert forall|i: int| 0 <= i < rest.len() implies block_names_known(t, (#[trigger] rest[i]).body) by {
            assert(rest[i] == fs[i + 1]);
        }
        lemma_functions_go(t, g1, rest);
    }
}

/// Generation never stops for a program whose statements use only names
/// that have registers and index arrays only by integer literals (with
/// registers in range), as long as the label count does not overflow: the
/// result is a listing, and each `if` and `while` makes exactly two labels.
pub proof fn law_generation_goes_through(t: TableV, g: GenV, p: ProgramV)
    requires
        block_names_known(t, p.globals),
        functions_names_known(t, p.functions),
        g.labels + block_labels(p.globals) + functions_labels(p.functions) <= usize::MAX,
    ensures
        generate_in(t, g, p) is Text,
{
    let g1 = emit(emit(emit(g, ".data"@), Seq::empty()), "start:"@);
    lemma_block_goes(t, g1, p.globals);
    let g2 = gen_block_in(t, g1, p.globals)->Done_0;
    lemma_functions_go(t, g2, p.functions);
}

/// The instruction line of a binary operation: its code ends with one line
/// that applies the operator's VM instruction to register 100 twice and puts
/// the result in the target: `ADD_I`, `SUB_I`, `MUL_I`, `DIV_I` for
/// arithmetic, `IF_I` for `==`, `CMP_LT`, `CMP_LE`, `CMP_GT`, `CMP_GE` for
/// the orderings, `AND_B` and `OR_B` for the logic; `!=` is `IF_I` followed
/// by a `NOT_B` of the target.
pub proof fn law_binary_instruction(t: TableV, g: GenV, l: ExprV, op: BinOp, rhs: ExprV, target: nat)
    ensures
        gen_expr_in(t, g, ExprV::BinaryOp(Box::new(l), op, Box::new(rhs)), target) matches Emitted::Done(
            g2,
        ) ==> ({
            let tail = " "@ + dec_nat(target) + " 100 100"@;
            let name = match op {
                BinOp::Add => "ADD_I"@,
                BinOp::Sub => "SUB_I"@,
                BinOp::Mul => "MUL_I"@,
                BinOp::Div => "DIV_I"@,
                BinOp::Eq => "IF_I"@,
                BinOp::Ne => "IF_I"@,
                BinOp::Lt => "CMP_LT"@,
                BinOp::Le => "CMP_LE"@,
                BinOp::Gt => "CMP_GT"@,
                BinOp::Ge => "CMP_GE"@,
                BinOp::And => "AND_B"@,
                BinOp::Or => "OR_B"@,
            };
            if op == BinOp::Ne {
                &&& g2.lines.len() >= 2
                &&& g2.lines[g2.lines.len() - 2] == "    "@ + name + tail
                &&& g2.lines.last() == "    NOT_B "@ + dec_nat(target) + " "@ + dec_nat(target)
            } else {
                &&& g2.lines.len() >= 1
                &&& g2.lines.last() == "    "@ + name + tail
            }
        }),
{
    if let Emitted::Done(g2) = gen_expr_in(
        t,
        g,
        ExprV::BinaryOp(Box::new(l), op, Box::new(rhs)),
        target,
    ) {
        let g1 = gen_expr_in(t, g, l, tmp())->Done_0;
        let g1b = gen_expr_in(t, g1, rhs, tmp())->Done_0;
        let line = "    "@ + binop_instr(op) + " "@ + r(target) + " "@ + r(tmp()) + " "@ + r(tmp());
        reveal_strlit("100");
        assert(dec_nat(100) =~= "100"@) by {
            reveal_with_fuel(dec_nat, 3);
        }
        assert(line =~= "    "@ + binop_instr(op) + (" "@ + dec_nat(target) + " 100 100"@)) by {
            reveal_strlit(" ");
            reveal_strlit(" 100 100");
            reveal_strlit("    ");
        }
    }
}

/// The code of a leaf or a prefix operation into `target`: a literal is one
/// load line (`LOAD_INT`, `LOAD_BOOL` with 1 or 0, `LOAD_CHAR` with the code
/// point, `LOAD_FLOAT` with the literal's text, and a `; STRING` comment for a
/// string); a variable is one `ADD_I target register 0` line, or a stop when
/// it has no register; negation ends with `SUB_I target 0 100` and `!` with
/// `NOT_B target 100`.
pub proof fn law_leaf_code(t: TableV, g: GenV, e: ExprV, target: nat)
    ensures
        ({
            let tg = dec_nat(target);
            match e {
                ExprV::Integer(n) => gen_expr_in(t, g, e, target) == Emitted::Done(
                    emit(g, "    LOAD_INT "@ + tg + " "@ + dec_int(n as int)),
                ),
                ExprV::Bool(b) => gen_expr_in(t, g, e, target) == Emitted::Done(
                    emit(g, "    LOAD_BOOL "@ + tg + if b { " 1"@ } else { " 0"@ }),
                ),
                ExprV::Char(c) => gen_expr_in(t, g, e, target) == Emitted::Done(
                    emit(g, "    LOAD_CHAR "@ + tg + " "@ + dec_nat(c as u32 as nat)),
                ),
                ExprV::Float(f) => gen_expr_in(t, g, e, target) == Emitted::Done(
                    emit(g, "    LOAD_FLOAT "@ + tg + " "@ + f),
                ),
                ExprV::String(s) => gen_expr_in(t, g, e, target) == Emitted::Done(
                    emit(g, "    ; STRING "@ + tg + " \""@ + s + "\""@),
                ),
                ExprV::Variable(x) => gen_expr_in(t, g, e, target) == match lookup_in(t.scopes, x) {
                    Some(sym) => Emitted::Done(
                        emit(g, "    ADD_I "@ + tg + " "@ + dec_nat(sym.reg as nat) + " 0"@),
                    ),
                    None => Emitted::Abort(unwrap_none()),
                },
                ExprV::UnaryOp(op, x) => gen_expr_in(t, g, e, target) matches Emitted::Done(g2) ==> (
                g2.lines.len() > 0 && g2.lines.last() == match op {
                    UnOp::Neg => "    SUB_I "@ + tg + " 0 "@ + dec_nat(100),
                    UnOp::Not => "    NOT_B "@ + tg + " "@ + dec_nat(100),
                }),
                _ => true,
            }
        }),
{
}

proof fn lemma_expr_labels(t: TableV, g: GenV, e: ExprV, target: nat)
    ensures
        gen_expr_in(t, g, e, target) matches Emitted::Done(g2) ==> g2.labels == g.labels,
    decreases e,
{
    match e {
        ExprV::ArrayElement(name, idx) => {
            lemma_expr_labels(t, g, *idx, tmp());
        },
        ExprV::BinaryOp(l, op, r) => {
            lemma_expr_labels(t, g, *l, tmp());
            if let Emitted::Done(g1) = gen_expr_in(t, g, *l, tmp()) {
                lemma_expr_labels(t, g1, *r, tmp());
            }
        },
        ExprV::UnaryOp(op, x) => {
            lemma_expr_labels(t, g, *x, tmp());
        },
        ExprV::Call(name, args) => {
            lemma_args_labels(t, g, args, 0);
        },
        _ => {},
    }
}

proof fn lemma_args_labels(t: TableV, g: GenV, args: Seq<ExprV>, first: nat)
    ensures
        gen_args_in(t, g, args, first) matches Emitted::Done(g2) ==> g2.labels == g.labels,
    decreases args,
{
    if args.len() > 0 {
        lemma_expr_labels(t, g, args[0], first);
        if let Emitted::Done(g1) = gen_expr_in(t, g, args[0], first) {
            lemma_args_labels(t, g1, args.drop_first(), first + 1);
        }
    }
}

/// The control flow of statements. With `k` labels made before it:
/// - a `while` opens with the line `while_start_k:`, tests its condition
///   with `JMP_FALSE 100 while_end_(k+1)`, and ends with a jump back,
///   `JMP while_start_k`, and the line `while_end_(k+1):`;
/// - an `if` tests its condition with `JMP_FALSE 100 else_k`, and ends with
///   the line `endif_(k+1):`, the `else_k:` line lying between;
/// - `return` ends with `RET`, `input(x)` is `READ_STR` of `x`'s register,
///   and `set_output` ends with `SET_OUT_FILE 100 0 0`.
pub proof fn law_statement_code(t: TableV, g: GenV, s: StmtV)
    ensures
        gen_stmt_in(t, g, s) matches Emitted::Done(g2) ==> ({
            let k = dec_nat(g.labels as nat);
            let k1 = dec_nat((g.labels + 1) as nat);
            let n = g.lines.len();
            match s {
                StmtV::While { .. } => {
                    &&& g2.lines.len() >= n + 4
                    &&& g2.lines[n as int] == "while_start_"@ + k + ":"@
                    &&& exists|i: int|
                        n < i < g2.lines.len() - 2 && #[trigger] g2.lines[i] == "    JMP_FALSE "@
                            + dec_nat(100) + " "@ + "while_end_"@ + k1
                    &&& g2.lines[g2.lines.len() - 2] == "    JMP "@ + "while_start_"@ + k
                    &&& g2.lines.last() == "while_end_"@ + k1 + ":"@
                },
                StmtV::If { .. } => {
                    &&& g2.lines.len() >= n + 3
                    &&& exists|i: int|
                        n <= i < g2.lines.len() && #[trigger] g2.lines[i] == "    JMP_FALSE "@
                            + dec_nat(100) + " "@ + "else_"@ + k
                    &&& exists|i: int|
                        n <= i < g2.lines.len() && #[trigger] g2.lines[i] == "else_"@ + k + ":"@
                    &&& g2.lines.last() == "endif_"@ + k1 + ":"@
                },
                StmtV::Return(_) => g2.lines.len() > n && g2.lines.last() == "    RET"@,
                StmtV::Input(x) => g2.lines.len() == n + 1 && lookup_in(t.scopes, x) is Some
                    && g2.lines.last() == "    READ_STR "@ + dec_nat(
                    lookup_in(t.scopes, x)->0.reg as nat,
                ) + " 0 0"@,
                StmtV::SetOutput(_) => g2.lines.len() > n && g2.lines.last() == "    SET_OUT_FILE "@
                    + dec_nat(100) + " 0 0"@,
                _ => true,
            }
        }),
{
    lemma_stmt_extends(t, g, s);
    reveal_strlit("_");
    reveal_strlit("else");
    reveal_strlit("else_");
    reveal_strlit("endif");
    reveal_strlit("endif_");
    reveal_strlit("while_start");
    reveal_strlit("while_start_");
    reveal_strlit("while_end");
    reveal_strlit("while_end_");
    assert("else"@ + "_"@ =~= "else_"@);
    assert("endif"@ + "_"@ =~= "endif_"@);
    assert("while_start"@ + "_"@ =~= "while_start_"@);
    assert("while_end"@ + "_"@ =~= "while_end_"@);
    match s {
        StmtV::While { cond, body } => {
            if let Some((start_label, g1)) = label_in(g, "while_start"@) {
                if let Some((end_label, g2)) = label_in(g1, "while_end"@) {
                    let g2s = emit(g2, start_label + ":"@);
                    lemma_expr_extends(t, g2s, cond, tmp());
                    if let Emitted::Done(g3) = gen_expr_in(t, g2s, cond, tmp()) {
                        let line = "    JMP_FALSE "@ + r(tmp()) + " "@ + end_label;
                        let g3j = emit(g3, line);
                        lemma_block_extends(t, g3j, body);
                        if let Emitted::Done(g4) = gen_block_in(t, g3j, body) {
                            let i = g3.lines.len() as int;
                            assert(g3j.lines[i] == line);
                            assert(g4.lines[i] == line);
                            assert(g2s.lines[g.lines.len() as int] == start_label + ":"@);
                            assert(g3.lines[g.lines.len() as int] == start_label + ":"@);
                            assert(g4.lines[g.lines.len() as int] == start_label + ":"@);
                            assert(line =~= "    JMP_FALSE "@ + dec_nat(100) + " "@ + "while_end_"@
                                + dec_nat((g.labels + 1) as nat));
                            let gf = emit(emit(g4, "    JMP "@ + start_label), end_label + ":"@);
                            assert(gf.lines[i] == line);
                            assert(gf.lines[g.lines.len() as int] == start_label + ":"@);
                            assert(start_label + ":"@ =~= "while_start_"@ + dec_nat(g.labels as nat)
                                + ":"@);
                            assert("    JMP "@ + start_label =~= "    JMP "@ + "while_start_"@
                                + dec_nat(g.labels as nat));
                            assert(end_label + ":"@ =~= "while_end_"@ + dec_nat((g.labels + 1) as nat)
                                + ":"@);
                        }
                    }
                }
            }
        },
        StmtV::If { cond, then_block, else_block } => {
            lemma_expr_extends(t, g, cond, tmp());
            lemma_expr_labels(t, g, cond, tmp());
            if let Emitted::Done(g1) = gen_expr_in(t, g, cond, tmp()) {
                if let Some((else_label, g2)) = label_in(g1, "else"@) {
                    if let Some((end_label, g3)) = label_in(g2, "endif"@) {
                        let line = "    JMP_FALSE "@ + r(tmp()) + " "@ + else_label;
                        let g4 = emit(g3, line);
                        lemma_block_extends(t, g4, then_block);
                        if let Emitted::Done(g5) = gen_block_in(t, g4, then_block) {
                            let g6 = emit(emit(g5, "    JMP "@ + end_label), else_label + ":"@);
                            lemma_block_extends(t, g6, else_block);
                            if let Emitted::Done(g7) = gen_block_in(t, g6, else_block) {
                                let i = g3.lines.len() as int;
                                assert(g4.lines[i] == line);
                                assert(g5.lines[i] == line);
                                assert(g6.lines[i] == line);
                                assert(g7.lines[i] == line);
                                let j = g5.lines.len() as int + 1;
                                assert(g6.lines[j] == else_label + ":"@);
                                assert(g7.lines[j] == else_label + ":"@);
                                let gf = emit(g7, end_label + ":"@);
                                assert(gf.lines[i] == line);
                                assert(gf.lines[j] == else_label + ":"@);
                                assert(line =~= "    JMP_FALSE "@ + dec_nat(100) + " "@ + "else_"@
                                    + dec_nat(g.labels as nat));
                                assert(else_label + ":"@ =~= "else_"@ + dec_nat(g.labels as nat)
                                    + ":"@);
                                assert(end_label + ":"@ =~= "endif_"@ + dec_nat((g.labels + 1) as nat)
                                    + ":"@);
                            }
                        }
                    }
                }
            }
        },
        StmtV::Return(e) => {
            lemma_expr_extends(t, g, e, 0);
        },
        StmtV::SetOutput(e) => {
            lemma_expr_extends(t, g, e, tmp());
        },
        _ => {},
    }
}

/// Declarations and assignments compute into the variable's register: a
/// declaration `var x = n` or an assignment `x = n` of an integer literal is
/// the single line `LOAD_INT` of `x`'s register, and `x[k] = n` with a
/// literal index loads into the register `k` places after `x`'s first; a
/// declaration without an initializer makes no code.
pub proof fn law_assignment_code(t: TableV, g: GenV, s: StmtV)
    ensures
        match s {
            StmtV::VarDecl { name, typ: _, init } => match lookup_in(t.scopes, name) {
                None => gen_stmt_in(t, g, s) is Abort,
                Some(sym) => match init {
                    None => gen_stmt_in(t, g, s) == Emitted::Done(g),
                    Some(ExprV::Integer(n)) => gen_stmt_in(t, g, s) == Emitted::Done(
                        emit(g, "    LOAD_INT "@ + dec_nat(sym.reg as nat) + " "@ + dec_int(n as int)),
                    ),
                    Some(_) => true,
                },
            },
            StmtV::Assign { target, index, expr } => match lookup_in(t.scopes, target) {
                None => gen_stmt_in(t, g, s) is Abort,
                Some(sym) => match (index, expr) {
                    (None, ExprV::Integer(n)) => gen_stmt_in(t, g, s) == Emitted::Done(
                        emit(g, "    LOAD_INT "@ + dec_nat(sym.reg as nat) + " "@ + dec_int(n as int)),
                    ),
                    (Some(ExprV::Integer(k)), ExprV::Integer(n)) => sym.reg + (k as usize) <= usize::MAX
                        ==> gen_stmt_in(t, g, s) == Emitted::Done(
                        emit(
                            g,
                            "    LOAD_INT "@ + dec_nat((sym.reg + (k as usize)) as nat) + " "@ + dec_int(
                                n as int,
                            ),
                        ),
                    ),
                    _ => true,
                },
            },
            _ => true,
        },
{
}

} // verus!
