//! Stack-machine bytecode and the lowering from the AST.
//!
//! Each function is one `Function`. Jumps are relative to the pc after the
//! jump op: after reading a jump at `pc`, execution continues at
//! `pc + 1 + offset`.
//!
//! `Op::Const` holds the tagged value: integer literals are shifted left by
//! one bit when lowered, so both backends see tagged values on the value
//! stack (see `value`).

use crate::ast::{
    exprs_v, expr_v, fn_v, fns_v, names_v, stmt_v, stmts_v, BinOp, Expr, Fn, SExpr, SFn, SStmt,
    Span, Stmt, UnOp,
};
use crate::text::{concat, concat_lit, dec_int, fmt_i64, fmt_usize, lit};
use crate::value::{self, INT_MAX, INT_MIN};
use crate::{Error, Result};
use vstd::prelude::*;

verus! {

/// Bytecode operations.
#[derive(Debug, Clone, Copy, PartialEq, Eq)]
pub enum Op {
    /// Push an already-tagged value.
    Const(i64),
    LoadLocal(u16),
    StoreLocal(u16),
    LoadArg(u8),
    Add,
    Sub,
    Mul,
    Div,
    Mod,
    Neg,
    Not,
    Lt,
    Le,
    Gt,
    Ge,
    Eq,
    Ne,
    Jump(i32),
    JumpIfFalse(i32),
    Call(u32, u8),
    Ret,
    Print,
    Pop,
    /// Push a tagged pointer to the interned string `string_pool[id]`.
    Str(u32),
    /// Pop two strings, push their concatenation.
    Concat,
    /// Pop a string, push its length.
    StrLen,
}

/// One lowered function.
#[derive(Debug, Clone)]
pub struct Function {
    pub name: String,
    pub argc: u8,
    /// Number of `let` locals (args not included).
    pub locals: u16,
    pub code: Vec<Op>,
    /// Parallel to `code`: the source position of ops that can fault at run
    /// time (`Div`, `Mod`), `Span::unknown()` for the others.
    pub spans: Vec<Span>,
}

/// A lowered program.
#[derive(Debug, Clone)]
pub struct Program {
    pub fns: Vec<Function>,
    pub main_id: u32,
    /// Literal string pool, indexed by `Op::Str`. Equal literals share an id.
    pub string_pool: Vec<String>,
}

/// A piece of lowered code: ops and their spans.
#[verifier::ext_equal]
pub struct Frag {
    pub ops: Seq<Op>,
    pub spans: Seq<Span>,
}

pub open spec fn frag_empty() -> Frag {
    Frag { ops: Seq::empty(), spans: Seq::empty() }
}

/// `a` followed by `b`, as one fragment.
pub open spec fn fcat(a: Frag, b: Frag) -> Frag {
    Frag { ops: a.ops + b.ops, spans: a.spans + b.spans }
}

/// A fragment of ops with no source position.
pub open spec fn plain(ops: Seq<Op>) -> Frag {
    Frag { ops, spans: Seq::new(ops.len(), |i: int| Span { line: 0, col: 0 }) }
}

/// What stays fixed while a function body is lowered: the names of all
/// functions (their ids are their positions) and the argument count.
pub struct LCtx {
    pub fnames: Seq<Seq<char>>,
    pub argc: nat,
}

/// What lowering threads through a body: local names (arguments first, then
/// `let`s in order of declaration) and the string pool.
#[verifier::ext_equal]
pub struct LState {
    pub locals: Seq<Seq<char>>,
    pub pool: Seq<Seq<char>>,
}

/// The result of lowering a piece of AST.
pub type LRes = std::result::Result<(Frag, LState), Seq<char>>;

/// The first position at or after `i` where `s` holds `x`.
pub open spec fn find_from(s: Seq<Seq<char>>, x: Seq<char>, i: int) -> Option<int>
    decreases s.len() - i,
{
    if i < 0 || i >= s.len() {
        None
    } else if s[i] == x {
        Some(i)
    } else {
        find_from(s, x, i + 1)
    }
}

pub open spec fn find(s: Seq<Seq<char>>, x: Seq<char>) -> Option<int> {
    find_from(s, x, 0)
}

/// The id of a literal in the pool, adding it when new.
pub open spec fn intern(pool: Seq<Seq<char>>, s: Seq<char>) -> (int, Seq<Seq<char>>) {
    match find(pool, s) {
        Some(i) => (i, pool),
        None => (pool.len() as int, pool.push(s)),
    }
}

pub open spec fn m_undeclared(n: Seq<char>) -> Seq<char> {
    "undeclared variable "@ + n
}

pub open spec fn m_assign_undeclared(n: Seq<char>) -> Seq<char> {
    "assignment to undeclared variable "@ + n
}

pub open spec fn m_int_range(v: i64) -> Seq<char> {
    "integer literal "@ + dec_int(v as int) + " doesn't fit in i63 (range "@ + dec_int(
        INT_MIN as int,
    ) + "..="@ + dec_int(INT_MAX as int) + ")"@
}

pub open spec fn m_len_args(k: int) -> Seq<char> {
    "len() takes exactly 1 argument, got "@ + dec_int(k)
}

pub open spec fn m_print_args(k: int) -> Seq<char> {
    "print() takes exactly 1 argument, got "@ + dec_int(k)
}

pub open spec fn m_unknown_fn(n: Seq<char>) -> Seq<char> {
    "unknown function "@ + n
}

pub open spec fn m_too_many_args(n: Seq<char>) -> Seq<char> {
    "call to "@ + n + " has >6 args; limit is 6"@
}

pub open spec fn m_dup(n: Seq<char>) -> Seq<char> {
    "duplicate function "@ + n
}

/// The op of a plain binary operator.
pub open spec fn bin_op(op: BinOp) -> Op {
    match op {
        BinOp::Add => Op::Add,
        BinOp::Sub => Op::Sub,
        BinOp::Mul => Op::Mul,
        BinOp::Div => Op::Div,
        BinOp::Mod => Op::Mod,
        BinOp::Lt => Op::Lt,
        BinOp::Le => Op::Le,
        BinOp::Gt => Op::Gt,
        BinOp::Ge => Op::Ge,
        BinOp::Eq => Op::Eq,
        BinOp::Ne => Op::Ne,
        BinOp::And => Op::Eq,
        BinOp::Or => Op::Eq,
    }
}

/// Lowering of an expression: code that leaves its value on the stack.
pub open spec fn l_expr(ctx: LCtx, e: SExpr, st: LState) -> LRes
    decreases e,
{
    match e {
        SExpr::Int(v) => if INT_MIN <= v <= INT_MAX {
            Ok((plain(seq![Op::Const((2 * v) as i64)]), st))
        } else {
            Err(m_int_range(v))
        },
        SExpr::Str(s, _) => {
            let (id, pool) = intern(st.pool, s);
            if id > u32::MAX {
                Err("too many string literals"@)
            } else {
                Ok((plain(seq![Op::Str(id as u32)]), LState { locals: st.locals, pool }))
            }
        },
        SExpr::Var(n) => match find(st.locals, n) {
            None => Err(m_undeclared(n)),
            Some(i) => if i < ctx.argc {
                Ok((plain(seq![Op::LoadArg(i as u8)]), st))
            } else {
                Ok((plain(seq![Op::LoadLocal(i as u16)]), st))
            },
        },
        SExpr::Call(n, args, _) => if n == "len"@ {
            if args.len() != 1 {
                Err(m_len_args(args.len() as int))
            } else {
                match l_expr(ctx, args[0], st) {
                    Err(m) => Err(m),
                    Ok((f, st1)) => Ok((fcat(f, plain(seq![Op::StrLen])), st1)),
                }
            }
        } else if n == "print"@ {
            if args.len() != 1 {
                Err(m_print_args(args.len() as int))
            } else {
                match l_expr(ctx, args[0], st) {
                    Err(m) => Err(m),
                    Ok((f, st1)) => Ok((fcat(f, plain(seq![Op::Print, Op::Const(0)])), st1)),
                }
            }
        } else {
            match find(ctx.fnames, n) {
                None => Err(m_unknown_fn(n)),
                Some(id) => if args.len() > 6 {
                    Err(m_too_many_args(n))
                } else {
                    match l_args(ctx, args, st) {
                        Err(m) => Err(m),
                        Ok((f, st1)) => Ok(
                            (fcat(f, plain(seq![Op::Call(id as u32, args.len() as u8)])), st1),
                        ),
                    }
                },
            }
        },
        SExpr::Un(op, a) => match l_expr(ctx, *a, st) {
            Err(m) => Err(m),
            Ok((f, st1)) => Ok(
                (
                    fcat(
                        f,
                        plain(
                            seq![
                                match op {
                                    UnOp::Neg => Op::Neg,
                                    UnOp::Not => Op::Not,
                                },
                            ],
                        ),
                    ),
                    st1,
                ),
            ),
        },
        SExpr::Bin(op, a, b, sp) => match l_expr(ctx, *a, st) {
            Err(m) => Err(m),
            Ok((fa, st1)) => match l_expr(ctx, *b, st1) {
                Err(m) => Err(m),
                Ok((fb, st2)) => Ok((bin_frag(op, fa, fb, sp), st2)),
            },
        },
    }
}

/// The code of a binary operation from the code of its operands. `&&` and
/// `||` short-circuit: the right operand runs only when needed, and the
/// result is a tagged 0 or 1.
pub open spec fn bin_frag(op: BinOp, fa: Frag, fb: Frag, sp: Span) -> Frag {
    match op {
        BinOp::And => fcat(fa, and_tail(fb)),
        BinOp::Or => fcat(fa, or_tail(fb)),
        BinOp::Div => fcat(fcat(fa, fb), Frag { ops: seq![Op::Div], spans: seq![sp] }),
        BinOp::Mod => fcat(fcat(fa, fb), Frag { ops: seq![Op::Mod], spans: seq![sp] }),
        _ => fcat(fcat(fa, fb), plain(seq![bin_op(op)])),
    }
}

/// After the left operand of `&&`: if it is false the result is 0,
/// else the right operand compared with 0.
pub open spec fn and_tail(fb: Frag) -> Frag {
    fcat(
        plain(seq![Op::JumpIfFalse((fb.ops.len() + 3) as i32)]),
        fcat(fb, plain(seq![Op::Const(0), Op::Ne, Op::Jump(1), Op::Const(0)])),
    )
}

/// After the left operand of `||`: if it is true the result is 1, else the
/// right operand compared with 0.
pub open spec fn or_tail(fb: Frag) -> Frag {
    fcat(
        plain(seq![Op::JumpIfFalse(2), Op::Const(2), Op::Jump((fb.ops.len() + 2) as i32)]),
        fcat(fb, plain(seq![Op::Const(0), Op::Ne])),
    )
}

/// Lowering of call arguments, left to right.
pub open spec fn l_args(ctx: LCtx, args: Seq<SExpr>, st: LState) -> LRes
    decreases args,
{
    if args.len() == 0 {
        Ok((frag_empty(), st))
    } else {
        match l_args(ctx, args.drop_last(), st) {
            Err(m) => Err(m),
            Ok((f, st1)) => match l_expr(ctx, args.last(), st1) {
                Err(m) => Err(m),
                Ok((g, st2)) => Ok((fcat(f, g), st2)),
            },
        }
    }
}

/// Lowering of a statement.
pub open spec fn l_stmt(ctx: LCtx, s: SStmt, st: LState) -> LRes
    decreases s,
{
    match s {
        SStmt::Let(n, e) => match l_expr(ctx, e, st) {
            Err(m) => Err(m),
            Ok((f, st1)) => if st1.locals.len() >= 65535 {
                Err("too many locals"@)
            } else {
                Ok(
                    (
                        fcat(f, plain(seq![Op::StoreLocal(st1.locals.len() as u16)])),
                        LState { locals: st1.locals.push(n), pool: st1.pool },
                    ),
                )
            },
        },
        SStmt::Assign(n, e) => match l_expr(ctx, e, st) {
            Err(m) => Err(m),
            Ok((f, st1)) => match find(st1.locals, n) {
                None => Err(m_assign_undeclared(n)),
                Some(i) => Ok((fcat(f, plain(seq![Op::StoreLocal(i as u16)])), st1)),
            },
        },
        SStmt::ExprStmt(e) => match l_expr(ctx, e, st) {
            Err(m) => Err(m),
            Ok((f, st1)) => Ok((fcat(f, plain(seq![Op::Pop])), st1)),
        },
        SStmt::Print(e) => match l_expr(ctx, e, st) {
            Err(m) => Err(m),
            Ok((f, st1)) => Ok((fcat(f, plain(seq![Op::Print])), st1)),
        },
        SStmt::Return(e) => match l_expr(ctx, e, st) {
            Err(m) => Err(m),
            Ok((f, st1)) => Ok((fcat(f, plain(seq![Op::Ret])), st1)),
        },
        SStmt::If(c, tb, eb) => match l_expr(ctx, c, st) {
            Err(m) => Err(m),
            Ok((fc, st1)) => match l_stmts(ctx, tb, st1) {
                Err(m) => Err(m),
                Ok((ft, st2)) => if eb.len() == 0 {
                    Ok(
                        (
                            fcat(
                                fcat(fc, plain(seq![Op::JumpIfFalse(ft.ops.len() as i32)])),
                                ft,
                            ),
                            st2,
                        ),
                    )
                } else {
                    match l_stmts(ctx, eb, st2) {
                        Err(m) => Err(m),
                        Ok((fe, st3)) => Ok(
                            (
                                fcat(
                                    fcat(
                                        fcat(
                                            fc,
                                            plain(seq![Op::JumpIfFalse((ft.ops.len() + 1) as i32)]),
                                        ),
                                        ft,
                                    ),
                                    fcat(plain(seq![Op::Jump(fe.ops.len() as i32)]), fe),
                                ),
                                st3,
                            ),
                        ),
                    }
                },
            },
        },
        SStmt::While(c, body) => match l_expr(ctx, c, st) {
            Err(m) => Err(m),
            Ok((fc, st1)) => match l_stmts(ctx, body, st1) {
                Err(m) => Err(m),
                Ok((fb, st2)) => Ok(
                    (
                        fcat(
                            fcat(fc, plain(seq![Op::JumpIfFalse((fb.ops.len() + 1) as i32)])),
                            fcat(
                                fb,
                                plain(
                                    seq![
                                        Op::Jump(
                                            (0i32).wrapping_sub(
                                                (fc.ops.len() + fb.ops.len() + 2) as i32,
                                            ),
                                        ),
                                    ],
                                ),
                            ),
                        ),
                        st2,
                    ),
                ),
            },
        },
    }
}

/// Lowering of a statement list, in order.
pub open spec fn l_stmts(ctx: LCtx, ss: Seq<SStmt>, st: LState) -> LRes
    decreases ss,
{
    if ss.len() == 0 {
        Ok((frag_empty(), st))
    } else {
        match l_stmts(ctx, ss.drop_last(), st) {
            Err(m) => Err(m),
            Ok((f, st1)) => match l_stmt(ctx, ss.last(), st1) {
                Err(m) => Err(m),
                Ok((g, st2)) => Ok((fcat(f, g), st2)),
            },
        }
    }
}


/// Mathematical form of a lowered function.
pub struct SFunction {
    pub name: Seq<char>,
    pub argc: u8,
    pub locals: u16,
    pub code: Seq<Op>,
    pub spans: Seq<Span>,
}

impl View for Function {
    type V = SFunction;

    open spec fn view(&self) -> SFunction {
        SFunction {
            name: self.name@,
            argc: self.argc,
            locals: self.locals,
            code: self.code@,
            spans: self.spans@,
        }
    }
}

/// Mathematical form of a lowered program.
pub struct SProgram {
    pub fns: Seq<SFunction>,
    pub main_id: u32,
    pub pool: Seq<Seq<char>>,
}

impl View for Program {
    type V = SProgram;

    open spec fn view(&self) -> SProgram {
        SProgram { fns: funcs_v(self.fns@), main_id: self.main_id, pool: names_v(self.string_pool@) }
    }
}

pub open spec fn funcs_v(fs: Seq<Function>) -> Seq<SFunction> {
    fs.map_values(|f: Function| f@)
}

/// Lowering of one function: its body, then `Const(0); Ret` for control
/// that falls off the end. Arguments take the first slots.
pub open spec fn l_fn(fnames: Seq<Seq<char>>, f: SFn, pool: Seq<Seq<char>>) -> std::result::Result<
    (SFunction, Seq<Seq<char>>),
    Seq<char>,
> {
    if f.params.len() > 255 {
        Err("too many parameters"@)
    } else {
        let ctx = LCtx { fnames, argc: f.params.len() };
        match l_stmts(ctx, f.body, LState { locals: f.params, pool }) {
            Err(m) => Err(m),
            Ok((fr, st)) => {
                let all = fcat(fr, plain(seq![Op::Const(0), Op::Ret]));
                Ok(
                    (
                        SFunction {
                            name: f.name,
                            argc: f.params.len() as u8,
                            locals: (st.locals.len() - f.params.len()) as u16,
                            code: all.ops,
                            spans: all.spans,
                        },
                        st.pool,
                    ),
                )
            },
        }
    }
}

/// Lowering of the functions in order, threading the string pool.
pub open spec fn l_fns(fnames: Seq<Seq<char>>, fs: Seq<SFn>, pool: Seq<Seq<char>>) -> std::result::Result<
    (Seq<SFunction>, Seq<Seq<char>>),
    Seq<char>,
>
    decreases fs.len(),
{
    if fs.len() == 0 {
        Ok((Seq::empty(), pool))
    } else {
        match l_fns(fnames, fs.drop_last(), pool) {
            Err(m) => Err(m),
            Ok((done, pool1)) => match l_fn(fnames, fs.last(), pool1) {
                Err(m) => Err(m),
                Ok((g, pool2)) => Ok((done.push(g), pool2)),
            },
        }
    }
}

/// The first function (in order) whose name an earlier function already has.
pub open spec fn first_dup(names: Seq<Seq<char>>, i: int) -> Option<int>
    decreases names.len() - i,
{
    if i < 0 || i >= names.len() {
        None
    } else if find(names.take(i), names[i]) is Some {
        Some(i)
    } else {
        first_dup(names, i + 1)
    }
}

pub open spec fn fn_names(fs: Seq<SFn>) -> Seq<Seq<char>> {
    fs.map_values(|f: SFn| f.name)
}

/// Lowering of a program: function ids must fit in `u32`, no two functions
/// may share a name, there must be a `main`, and each function is lowered in
/// order with a shared string pool. The result is the functions, the id of
/// `main`, and the pool.
pub open spec fn spec_lower(fs: Seq<SFn>) -> std::result::Result<
    (Seq<SFunction>, int, Seq<Seq<char>>),
    Seq<char>,
> {
    let names = fn_names(fs);
    if fs.len() > u32::MAX {
        Err("too many functions"@)
    } else {
        match first_dup(names, 0) {
        Some(i) => Err(m_dup(names[i])),
        None => match find(names, "main"@) {
            None => Err("no main() function"@),
            Some(main_id) => match l_fns(names, fs, Seq::empty()) {
                Err(m) => Err(m),
                Ok((funcs, pool)) => Ok((funcs, main_id, pool)),
            },
        },
    }
    }
}

// ---------------------------------------------------------------------
// Lemmas on the views.

proof fn lemma_stmts_index(ss: Seq<Stmt>)
    ensures
        stmts_v(ss).len() == ss.len(),
        forall|i: int| 0 <= i < ss.len() ==> #[trigger] stmts_v(ss)[i] == stmt_v(ss[i]),
    decreases ss.len(),
{
    if ss.len() > 0 {
        let tail = ss.subrange(1, ss.len() as int);
        lemma_stmts_index(tail);
        assert forall|i: int| 0 <= i < ss.len() implies #[trigger] stmts_v(ss)[i] == stmt_v(ss[i]) by {
            if i > 0 {
                assert(stmts_v(ss)[i] == stmts_v(tail)[i - 1]);
                assert(tail[i - 1] == ss[i]);
            }
        }
    }
}

proof fn lemma_exprs_index(es: Seq<Expr>)
    ensures
        exprs_v(es).len() == es.len(),
        forall|i: int| 0 <= i < es.len() ==> #[trigger] exprs_v(es)[i] == expr_v(es[i]),
    decreases es.len(),
{
    if es.len() > 0 {
        let tail = es.subrange(1, es.len() as int);
        lemma_exprs_index(tail);
        assert forall|i: int| 0 <= i < es.len() implies #[trigger] exprs_v(es)[i] == expr_v(es[i]) by {
            if i > 0 {
                assert(exprs_v(es)[i] == exprs_v(tail)[i - 1]);
                assert(tail[i - 1] == es[i]);
            }
        }
    }
}

/// An error in a prefix of a statement list is the error of the list.
proof fn lemma_stmts_prefix_err(ctx: LCtx, ss: Seq<SStmt>, i: int, st: LState)
    requires
        0 <= i <= ss.len(),
        l_stmts(ctx, ss.take(i), st) is Err,
    ensures
        l_stmts(ctx, ss, st) == l_stmts(ctx, ss.take(i), st),
    decreases ss.len() - i,
{
    if i < ss.len() {
        assert(ss.take(i + 1).drop_last() =~= ss.take(i));
        lemma_stmts_prefix_err(ctx, ss, i + 1, st);
    } else {
        assert(ss.take(i) =~= ss);
    }
}

proof fn lemma_args_prefix_err(ctx: LCtx, es: Seq<SExpr>, i: int, st: LState)
    requires
        0 <= i <= es.len(),
        l_args(ctx, es.take(i), st) is Err,
    ensures
        l_args(ctx, es, st) == l_args(ctx, es.take(i), st),
    decreases es.len() - i,
{
    if i < es.len() {
        assert(es.take(i + 1).drop_last() =~= es.take(i));
        lemma_args_prefix_err(ctx, es, i + 1, st);
    } else {
        assert(es.take(i) =~= es);
    }
}


// ---------------------------------------------------------------------
// The lowerer.

struct Lowerer<'a> {
    code: Vec<Op>,
    spans: Vec<Span>,
    /// Local names to slots: arguments first (slots `0..argc`), then lets.
    locals: Vec<String>,
    argc: u8,
    /// Function names; a function's id is its position.
    fnames: &'a Vec<String>,
    string_pool: Vec<String>,
}

spec fn lctx(l: &Lowerer) -> LCtx {
    LCtx { fnames: names_v(l.fnames@), argc: l.argc as nat }
}

spec fn lst(l: &Lowerer) -> LState {
    LState { locals: names_v(l.locals@), pool: names_v(l.string_pool@) }
}

spec fn l_inv(l: &Lowerer) -> bool {
    &&& l.code@.len() == l.spans@.len()
    &&& l.locals@.len() <= 65535
    &&& l.argc <= l.locals@.len()
    &&& l.fnames@.len() <= u32::MAX
    &&& l.string_pool@.len() <= u32::MAX + 1
}

/// `new` is `old` with the fragment `f` appended and the state `st`.
spec fn appended(old: &Lowerer, new: &Lowerer, f: Frag, st: LState) -> bool {
    &&& new.code@ == old.code@ + f.ops
    &&& new.spans@ == old.spans@ + f.spans
    &&& lst(new) == st
}

/// What stays fixed while lowering one function.
spec fn same_ctx(old: &Lowerer, new: &Lowerer) -> bool {
    &&& new.fnames == old.fnames
    &&& new.argc == old.argc
    &&& l_inv(new)
}

pub(crate) proof fn lemma_find_range(s: Seq<Seq<char>>, x: Seq<char>, i: int)
    requires
        0 <= i,
    ensures
        find_from(s, x, i) matches Some(j) ==> i <= j < s.len() && s[j] == x,
    decreases s.len() - i,
{
    if i < s.len() {
        lemma_find_range(s, x, i + 1);
    }
}

/// The position of `name` in `v`, as `find` states it.
fn find_name(v: &Vec<String>, name: &String) -> (r: Option<usize>)
    ensures
        match find(names_v(v@), name@) {
            Some(i) => r == Some(i as usize),
            None => r is None,
        },
        r matches Some(i) ==> i < v@.len(),
{
    let mut i: usize = 0;
    proof {
        lemma_find_range(names_v(v@), name@, 0);
    }
    while i < v.len()
        invariant
            0 <= i <= v@.len(),
            find(names_v(v@), name@) == find_from(names_v(v@), name@, i as int),
            find(names_v(v@), name@) matches Some(j) ==> j < v@.len(),
        decreases v@.len() - i,
    {
        if v[i] == *name {
            return Some(i);
        }
        i += 1;
    }
    None
}

impl<'a> Lowerer<'a> {
    fn emit(&mut self, op: Op)
        requires
            l_inv(old(self)),
        ensures
            same_ctx(old(self), final(self)),
            appended(old(self), final(self), plain(seq![op]), lst(old(self))),
    {
        self.code.push(op);
        self.spans.push(Span::unknown());
        assert(self.spans@ =~= old(self).spans@ + plain(seq![op]).spans);
        assert(self.code@ =~= old(self).code@ + plain(seq![op]).ops);
    }

    fn emit_at(&mut self, op: Op, span: Span)
        requires
            l_inv(old(self)),
        ensures
            same_ctx(old(self), final(self)),
            appended(old(self), final(self), Frag { ops: seq![op], spans: seq![span] }, lst(old(self))),
    {
        self.code.push(op);
        self.spans.push(span);
        assert(self.spans@ =~= old(self).spans@ + seq![span]);
        assert(self.code@ =~= old(self).code@ + seq![op]);
    }

    fn set_op(&mut self, pos: usize, op: Op)
        requires
            l_inv(old(self)),
            pos < old(self).code@.len(),
        ensures
            same_ctx(old(self), final(self)),
            final(self).code@ == old(self).code@.update(pos as int, op),
            final(self).spans == old(self).spans,
            lst(final(self)) == lst(old(self)),
    {
        self.code.set(pos, op);
    }

    /// The slot of a local name, and whether it is an argument.
    fn resolve(&self, name: &String) -> (r: Option<(bool, u16)>)
        requires
            l_inv(self),
        ensures
            match find(names_v(self.locals@), name@) {
                Some(i) => r == Some((i < self.argc, i as u16)) && 0 <= i < self.locals@.len(),
                None => r is None,
            },
    {
        proof {
            lemma_find_range(names_v(self.locals@), name@, 0);
        }
        match find_name(&self.locals, name) {
            Some(i) => {
                proof {
                    assert(names_v(self.locals@).len() == self.locals@.len());
                }
                let slot: u16 = i as u16;
                let argc: usize = self.argc as usize;
                let is_arg: bool = i < argc;
                assert(slot == i);
                assert(is_arg == (i < self.argc));
                Some((is_arg, slot))
            },
            None => None,
        }
    }

    /// Declare a new local; it takes the next slot.
    fn declare(&mut self, name: String) -> (slot: u16)
        requires
            l_inv(old(self)),
            old(self).locals@.len() < 65535,
        ensures
            same_ctx(old(self), final(self)),
            slot == old(self).locals@.len(),
            final(self).code == old(self).code,
            final(self).spans == old(self).spans,
            lst(final(self)) == (LState {
                locals: lst(old(self)).locals.push(name@),
                pool: lst(old(self)).pool,
            }),
    {
        self.locals.push(name);
        proof {
            assert(names_v(self.locals@) =~= names_v(old(self).locals@).push(name@));
        }
        (self.locals.len() - 1) as u16
    }

    /// The id of a literal in the shared pool; equal literals share an id.
    fn intern(&mut self, s: &String) -> (r: Result<u32>)
        requires
            l_inv(old(self)),
        ensures
            same_ctx(old(self), final(self)),
            final(self).code == old(self).code,
            final(self).spans == old(self).spans,
            ({
                let (id, pool) = intern(lst(old(self)).pool, s@);
                if id > u32::MAX {
                    r matches Err(Error::Parse(m)) && m@ == "too many string literals"@
                } else {
                    r == Ok::<u32, Error>(id as u32) && lst(final(self)) == (LState {
                        locals: lst(old(self)).locals,
                        pool,
                    })
                }
            }),
    {
        proof {
            lemma_find_range(names_v(self.string_pool@), s@, 0);
        }
        match find_name(&self.string_pool, s) {
            Some(i) => {
                proof {
                    assert(names_v(self.string_pool@).len() == self.string_pool@.len());
                }
                let id: u32 = i as u32;
                assert(id == i);
                Ok(id)
            },
            None => {
                let id = self.string_pool.len();
                if id > 0xffff_ffffusize {
                    return Err(Error::Parse(lit("too many string literals")));
                }
                self.string_pool.push(s.clone());
                proof {
                    assert(names_v(self.string_pool@) =~= names_v(old(self).string_pool@).push(
                        s@,
                    ));
                }
                let id32: u32 = id as u32;
                assert(id32 == id);
                Ok(id32)
            },
        }
    }

    /// Push a tagged integer constant, checking the i63 range first.
    fn emit_int_const(&mut self, v: i64) -> (r: Result<()>)
        requires
            l_inv(old(self)),
        ensures
            same_ctx(old(self), final(self)),
            match l_expr(lctx(old(self)), SExpr::Int(v), lst(old(self))) {
                Ok((f, st)) => r is Ok && appended(old(self), final(self), f, st),
                Err(m) => r matches Err(Error::Parse(mm)) && mm@ == m && final(self).code@ == old(
                    self,
                ).code@ && final(self).spans@ == old(self).spans@,
            },
    {
        if !value::fits_int(v) {
            let m = concat(lit("integer literal "), &fmt_i64(v));
            let m = concat_lit(m, " doesn't fit in i63 (range ");
            let m = concat(m, &fmt_i64(INT_MIN));
            let m = concat_lit(m, "..=");
            let m = concat(m, &fmt_i64(INT_MAX));
            let m = concat_lit(m, ")");
            proof {
                assert(m@ =~= m_int_range(v));
            }
            return Err(Error::Parse(m));
        }
        self.emit(Op::Const(value::pack_int(v)));
        Ok(())
    }
}


/// The ensures of a lowering step: the fragment of `res` was appended, or
/// its error came back.
spec fn lowered(old: &Lowerer, new: &Lowerer, res: LRes, r: Result<()>) -> bool {
    &&& same_ctx(old, new)
    &&& match res {
        Ok((f, st)) => r is Ok && appended(old, new, f, st),
        Err(m) => r matches Err(Error::Parse(mm)) && mm@ == m,
    }
}

impl<'a> Lowerer<'a> {
    fn expr(&mut self, e: &Expr) -> (r: Result<()>)
        requires
            l_inv(old(self)),
        ensures
            lowered(old(self), final(self), l_expr(lctx(old(self)), expr_v(*e), lst(old(self))), r),
        decreases e, 1int,
    {
        match e {
            Expr::Int(v) => self.emit_int_const(*v),
            Expr::Str(s, _span) => {
                let id = match self.intern(s) {
                    Ok(id) => id,
                    Err(err) => {
                        return Err(err);
                    },
                };
                self.emit(Op::Str(id));
                Ok(())
            },
            Expr::Var(name) => {
                match self.resolve(name) {
                    None => Err(Error::Parse(concat(lit("undeclared variable "), name))),
                    Some((is_arg, slot)) => {
                        if is_arg {
                            assert(slot < self.argc);
                            self.emit(Op::LoadArg(slot as u8));
                        } else {
                            self.emit(Op::LoadLocal(slot));
                        }
                        Ok(())
                    },
                }
            },
            Expr::Call(name, args, span) => self.call(name, args, *span),
            Expr::Un(op, a) => {
                let ghost c0 = self.code@;
                let ghost s0 = self.spans@;
                let ghost res = l_expr(lctx(self), expr_v(**a), lst(self));
                match self.expr(a) {
                    Ok(()) => {},
                    Err(err) => {
                        return Err(err);
                    },
                }
                let o = match op {
                    UnOp::Neg => Op::Neg,
                    UnOp::Not => Op::Not,
                };
                self.emit(o);
                proof {
                    let f = res->Ok_0.0;
                    assert(self.code@ =~= c0 + fcat(f, plain(seq![o])).ops);
                    assert(self.spans@ =~= s0 + fcat(f, plain(seq![o])).spans);
                }
                Ok(())
            },
            Expr::Bin(..) => self.bin(e),
        }
    }
}

/// A lowering result with its code wrapped as the right operand of `&&`.
spec fn and_res(res: LRes) -> LRes {
    match res {
        Ok((f, st)) => Ok((and_tail(f), st)),
        Err(m) => Err(m),
    }
}

/// A lowering result with its code wrapped as the right operand of `||`.
spec fn or_res(res: LRes) -> LRes {
    match res {
        Ok((f, st)) => Ok((or_tail(f), st)),
        Err(m) => Err(m),
    }
}

impl<'a> Lowerer<'a> {
    /// The code of `&&` after its left operand.
    fn and_rest(&mut self, b: &Expr) -> (r: Result<()>)
        requires
            l_inv(old(self)),
        ensures
            lowered(
                old(self),
                final(self),
                and_res(l_expr(lctx(old(self)), expr_v(*b), lst(old(self)))),
                r,
            ),
        decreases b, 2int,
    {
        let ghost c0 = self.code@;
        let ghost s0 = self.spans@;
        let ghost res = l_expr(lctx(self), expr_v(*b), lst(self));
        let jf = self.code.len();
        self.emit(Op::JumpIfFalse(0));
        let ghost cj = self.code@;
        let ghost sj = self.spans@;
        match self.expr(b) {
            Ok(()) => {},
            Err(err) => {
                return Err(err);
            },
        }
        let ghost fb = res->Ok_0.0;
        assert(self.code@ == cj + fb.ops);
        self.emit(Op::Const(0));
        self.emit(Op::Ne);
        let jmp_end = self.code.len();
        self.emit(Op::Jump(0));
        let false_start = self.code.len();
        assert(false_start - (jf + 1) == fb.ops.len() + 3);
        self.set_op(jf, Op::JumpIfFalse((false_start - (jf + 1)) as i32));
        self.emit(Op::Const(0));
        let end = self.code.len();
        self.set_op(jmp_end, Op::Jump((end - (jmp_end + 1)) as i32));
        proof {
            assert(self.code@ =~= c0 + and_tail(fb).ops);
            assert(self.spans@ =~= s0 + and_tail(fb).spans);
        }
        Ok(())
    }

    /// The code of `||` after its left operand.
    fn or_rest(&mut self, b: &Expr) -> (r: Result<()>)
        requires
            l_inv(old(self)),
        ensures
            lowered(
                old(self),
                final(self),
                or_res(l_expr(lctx(old(self)), expr_v(*b), lst(old(self)))),
                r,
            ),
        decreases b, 2int,
    {
        let ghost c0 = self.code@;
        let ghost s0 = self.spans@;
        let ghost res = l_expr(lctx(self), expr_v(*b), lst(self));
        let jf = self.code.len();
        self.emit(Op::JumpIfFalse(0));
        self.emit(Op::Const(2));
        let jmp_end = self.code.len();
        self.emit(Op::Jump(0));
        let b_start = self.code.len();
        self.set_op(jf, Op::JumpIfFalse((b_start - (jf + 1)) as i32));
        let ghost cj = self.code@;
        let ghost sj = self.spans@;
        match self.expr(b) {
            Ok(()) => {},
            Err(err) => {
                return Err(err);
            },
        }
        let ghost fb = res->Ok_0.0;
        assert(self.code@ == cj + fb.ops);
        self.emit(Op::Const(0));
        self.emit(Op::Ne);
        let end = self.code.len();
        assert(end - (jmp_end + 1) == fb.ops.len() + 2);
        self.set_op(jmp_end, Op::Jump((end - (jmp_end + 1)) as i32));
        proof {
            assert(self.code@ =~= c0 + or_tail(fb).ops);
            assert(self.spans@ =~= s0 + or_tail(fb).spans);
        }
        Ok(())
    }

    /// A binary operation.
    fn bin(&mut self, e: &Expr) -> (r: Result<()>)
        requires
            l_inv(old(self)),
            e is Bin,
        ensures
            lowered(old(self), final(self), l_expr(lctx(old(self)), expr_v(*e), lst(old(self))), r),
        decreases e, 0int,
    {
        let ghost c0 = self.code@;
        let ghost s0 = self.spans@;
        let ghost ctx = lctx(self);
        match e {
            Expr::Bin(op, a, b, span) => {
                let ghost ra = l_expr(ctx, expr_v(**a), lst(self));
                match self.expr(a) {
                    Ok(()) => {},
                    Err(err) => {
                        return Err(err);
                    },
                }
                let ghost fa = ra->Ok_0.0;
                let ghost st1 = ra->Ok_0.1;
                let ghost rb = l_expr(ctx, expr_v(**b), st1);
                let ghost ca = self.code@;
                let ghost sa = self.spans@;
                match op {
                    BinOp::And => {
                        let r = self.and_rest(b);
                        proof {
                            if r is Ok {
                                let fb = rb->Ok_0.0;
                                assert(self.code@ =~= c0 + fcat(fa, and_tail(fb)).ops);
                                assert(self.spans@ =~= s0 + fcat(fa, and_tail(fb)).spans);
                            }
                        }
                        r
                    },
                    BinOp::Or => {
                        let r = self.or_rest(b);
                        proof {
                            if r is Ok {
                                let fb = rb->Ok_0.0;
                                assert(self.code@ =~= c0 + fcat(fa, or_tail(fb)).ops);
                                assert(self.spans@ =~= s0 + fcat(fa, or_tail(fb)).spans);
                            }
                        }
                        r
                    },
                    _ => {
                        match self.expr(b) {
                            Ok(()) => {},
                            Err(err) => {
                                return Err(err);
                            },
                        }
                        let ghost cb = self.code@;
                        let ghost sb = self.spans@;
                        let out = match op {
                            BinOp::Add => Op::Add,
                            BinOp::Sub => Op::Sub,
                            BinOp::Mul => Op::Mul,
                            BinOp::Div => Op::Div,
                            BinOp::Mod => Op::Mod,
                            BinOp::Lt => Op::Lt,
                            BinOp::Le => Op::Le,
                            BinOp::Gt => Op::Gt,
                            BinOp::Ge => Op::Ge,
                            BinOp::Eq => Op::Eq,
                            BinOp::Ne => Op::Ne,
                            BinOp::And => Op::Eq,
                            BinOp::Or => Op::Eq,
                        };
                        let is_div = match op {
                            BinOp::Div | BinOp::Mod => true,
                            _ => false,
                        };
                        if is_div {
                            self.emit_at(out, *span);
                        } else {
                            self.emit(out);
                        }
                        proof {
                            let fb = rb->Ok_0.0;
                            let g = bin_frag(*op, fa, fb, *span);
                            assert(self.code@ =~= c0 + g.ops);
                            assert(self.spans@ =~= s0 + g.spans);
                        }
                        Ok(())
                    },
                }
            },
            _ => Err(Error::Parse(lit(""))),
        }
    }

    fn call(&mut self, name: &String, args: &Vec<Expr>, span: Span) -> (r: Result<()>)
        requires
            l_inv(old(self)),
        ensures
            lowered(
                old(self),
                final(self),
                l_expr(lctx(old(self)), SExpr::Call(name@, exprs_v(args@), span), lst(old(self))),
                r,
            ),
        decreases args, 0int,
    {
        proof {
            lemma_exprs_index(args@);
        }
        let ghost c0 = self.code@;
        let ghost s0 = self.spans@;
        let ghost ctx = lctx(self);
        let ghost st0 = lst(self);
        if crate::text::str_is(name, "len") {
            if args.len() != 1 {
                return Err(
                    Error::Parse(
                        concat(lit("len() takes exactly 1 argument, got "), &fmt_usize(args.len())),
                    ),
                );
            }
            match self.expr(&args[0]) {
                Ok(()) => {},
                Err(err) => {
                    return Err(err);
                },
            }
            self.emit(Op::StrLen);
            proof {
                let f = l_expr(ctx, exprs_v(args@)[0], st0)->Ok_0.0;
                assert(self.code@ =~= c0 + fcat(f, plain(seq![Op::StrLen])).ops);
                assert(self.spans@ =~= s0 + fcat(f, plain(seq![Op::StrLen])).spans);
            }
            return Ok(());
        }
        if crate::text::str_is(name, "print") {
            if args.len() != 1 {
                return Err(
                    Error::Parse(
                        concat(
                            lit("print() takes exactly 1 argument, got "),
                            &fmt_usize(args.len()),
                        ),
                    ),
                );
            }
            match self.expr(&args[0]) {
                Ok(()) => {},
                Err(err) => {
                    return Err(err);
                },
            }
            self.emit(Op::Print);
            self.emit(Op::Const(0));
            proof {
                let f = l_expr(ctx, exprs_v(args@)[0], st0)->Ok_0.0;
                assert(self.code@ =~= c0 + fcat(f, plain(seq![Op::Print, Op::Const(0)])).ops);
                assert(self.spans@ =~= s0 + fcat(f, plain(seq![Op::Print, Op::Const(0)])).spans);
            }
            return Ok(());
        }
        proof {
            lemma_find_range(names_v(self.fnames@), name@, 0);
        }
        let id = match find_name(self.fnames, name) {
            Some(id) => id,
            None => {
                return Err(Error::Parse(concat(lit("unknown function "), name)));
            },
        };
        if args.len() > 6 {
            let m = concat(lit("call to "), name);
            let m = concat_lit(m, " has >6 args; limit is 6");
            return Err(Error::Parse(m));
        }
        let n = args.len() as u8;
        let mut i: usize = 0;
        let ghost mut acc = frag_empty();
        assert(exprs_v(args@).take(0) =~= Seq::<SExpr>::empty());
        assert(self.code@ =~= c0 + acc.ops);
        assert(self.spans@ =~= s0 + acc.spans);
        while i < args.len()
            invariant
                same_ctx(old(self), self),
                ctx == lctx(old(self)),
                st0 == lst(old(self)),
                0 <= i <= args@.len(),
                exprs_v(args@).len() == args@.len(),
                forall|j: int| 0 <= j < args@.len() ==> #[trigger] exprs_v(args@)[j] == expr_v(args@[j]),
                self.code@ == c0 + acc.ops,
                self.spans@ == s0 + acc.spans,
                l_args(ctx, exprs_v(args@).take(i as int), st0) == Ok::<(Frag, LState), Seq<char>>(
                    (acc, lst(self)),
                ),
                n == args@.len(),
                l_expr(ctx, SExpr::Call(name@, exprs_v(args@), span), st0) == match l_args(
                    ctx,
                    exprs_v(args@),
                    st0,
                ) {
                    Err(m) => Err(m),
                    Ok((f, st1)) => Ok((fcat(f, plain(seq![Op::Call(id as u32, n)])), st1)),
                },
            decreases args@.len() - i,
        {
            let ghost before = lst(self);
            let ghost res = l_expr(ctx, expr_v(args@[i as int]), before);
            let ghost cb = self.code@;
            let ghost sb = self.spans@;
            match self.expr(&args[i]) {
                Ok(()) => {},
                Err(err) => {
                    proof {
                        let pre = exprs_v(args@).take(i + 1);
                        assert(pre.drop_last() =~= exprs_v(args@).take(i as int));
                        assert(pre.last() == expr_v(args@[i as int]));
                        assert(l_args(ctx, pre, st0) is Err);
                        lemma_args_prefix_err(ctx, exprs_v(args@), i + 1, st0);
                    }
                    return Err(err);
                },
            }
            proof {
                assert(exprs_v(args@).take(i + 1).drop_last() =~= exprs_v(args@).take(i as int));
                let g = res->Ok_0.0;
                assert(self.code@ =~= c0 + fcat(acc, g).ops);
                assert(self.spans@ =~= s0 + fcat(acc, g).spans);
                acc = fcat(acc, g);
            }
            i += 1;
        }
        proof {
            assert(exprs_v(args@).take(args@.len() as int) =~= exprs_v(args@));
        }
        self.emit(Op::Call(id as u32, n));
        proof {
            assert(self.code@ =~= c0 + fcat(acc, plain(seq![Op::Call(id as u32, n)])).ops);
            assert(self.spans@ =~= s0 + fcat(acc, plain(seq![Op::Call(id as u32, n)])).spans);
        }
        Ok(())
    }
}


/// A lowering result with one op appended to its code.
spec fn op_res(res: LRes, op: Op) -> LRes {
    match res {
        Ok((f, st)) => Ok((fcat(f, plain(seq![op])), st)),
        Err(m) => Err(m),
    }
}

impl<'a> Lowerer<'a> {
    /// Lower `e`, then append `op`.
    fn expr_then(&mut self, e: &Expr, op: Op) -> (r: Result<()>)
        requires
            l_inv(old(self)),
        ensures
            lowered(old(self), final(self), op_res(l_expr(lctx(old(self)), expr_v(*e), lst(old(self))), op), r),
    {
        let ghost c0 = self.code@;
        let ghost s0 = self.spans@;
        let ghost res = l_expr(lctx(self), expr_v(*e), lst(self));
        match self.expr(e) {
            Ok(()) => {},
            Err(err) => {
                return Err(err);
            },
        }
        self.emit(op);
        proof {
            let f = res->Ok_0.0;
            assert(self.code@ =~= c0 + fcat(f, plain(seq![op])).ops);
            assert(self.spans@ =~= s0 + fcat(f, plain(seq![op])).spans);
        }
        Ok(())
    }

    fn stmt(&mut self, s: &Stmt) -> (r: Result<()>)
        requires
            l_inv(old(self)),
        ensures
            lowered(old(self), final(self), l_stmt(lctx(old(self)), stmt_v(*s), lst(old(self))), r),
        decreases s, 2int,
    {
        match s {
            Stmt::Let(name, e) => self.let_stmt(name, e),
            Stmt::Assign(name, e) => self.assign_stmt(name, e),
            Stmt::ExprStmt(e) => self.expr_then(e, Op::Pop),
            Stmt::Print(e) => self.expr_then(e, Op::Print),
            Stmt::Return(e) => self.expr_then(e, Op::Ret),
            Stmt::If(..) => self.if_stmt(s),
            Stmt::While(..) => self.while_stmt(s),
        }
    }

    /// `let name = e;`: the value goes to a new slot.
    fn let_stmt(&mut self, name: &String, e: &Expr) -> (r: Result<()>)
        requires
            l_inv(old(self)),
        ensures
            lowered(old(self), final(self), l_stmt(lctx(old(self)), SStmt::Let(name@, expr_v(*e)), lst(old(self))), r),
    {
        let ghost c0 = self.code@;
        let ghost s0 = self.spans@;
        let ghost ctx = lctx(self);
        let ghost st0 = lst(self);
        let ghost res = l_expr(ctx, expr_v(*e), st0);
        match self.expr(e) {
            Ok(()) => {},
            Err(err) => {
                return Err(err);
            },
        }
        if self.locals.len() >= 65535 {
            return Err(Error::Parse(lit("too many locals")));
        }
        let slot = self.declare(name.clone());
        self.emit(Op::StoreLocal(slot));
        proof {
            let f = res->Ok_0.0;
            assert(self.code@ =~= c0 + fcat(f, plain(seq![Op::StoreLocal(slot)])).ops);
            assert(self.spans@ =~= s0 + fcat(f, plain(seq![Op::StoreLocal(slot)])).spans);
        }
        Ok(())
    }

    /// `name = e;` for a declared name.
    fn assign_stmt(&mut self, name: &String, e: &Expr) -> (r: Result<()>)
        requires
            l_inv(old(self)),
        ensures
            lowered(old(self), final(self), l_stmt(lctx(old(self)), SStmt::Assign(name@, expr_v(*e)), lst(old(self))), r),
    {
        let ghost c0 = self.code@;
        let ghost s0 = self.spans@;
        let ghost ctx = lctx(self);
        let ghost st0 = lst(self);
        let ghost res = l_expr(ctx, expr_v(*e), st0);
        match self.expr(e) {
            Ok(()) => {},
            Err(err) => {
                return Err(err);
            },
        }
        match self.resolve(name) {
            None => Err(Error::Parse(concat(lit("assignment to undeclared variable "), name))),
            Some((_is_arg, slot)) => {
                self.emit(Op::StoreLocal(slot));
                proof {
                    let f = res->Ok_0.0;
                    assert(self.code@ =~= c0 + fcat(f, plain(seq![Op::StoreLocal(slot)])).ops);
                    assert(self.spans@ =~= s0 + fcat(f, plain(seq![Op::StoreLocal(slot)])).spans);
                }
                Ok(())
            },
        }
    }

    fn if_stmt(&mut self, s: &Stmt) -> (r: Result<()>)
        requires
            l_inv(old(self)),
            s is If,
        ensures
            lowered(old(self), final(self), l_stmt(lctx(old(self)), stmt_v(*s), lst(old(self))), r),
        decreases s, 1int,
    {
        let ghost c0 = self.code@;
        let ghost s0 = self.spans@;
        let ghost ctx = lctx(self);
        let ghost st0 = lst(self);
        match s {
            Stmt::If(cond, then_b, else_b) => {
        proof {
            lemma_stmts_index(else_b@);
        }
        let ghost rc = l_expr(ctx, expr_v(*cond), st0);
        match self.expr(cond) {
            Ok(()) => {},
            Err(err) => {
                return Err(err);
            },
        }
        let ghost fc = rc->Ok_0.0;
        let ghost st1 = rc->Ok_0.1;
        let jf = self.code.len();
        self.emit(Op::JumpIfFalse(0));
        let ghost rt = l_stmts(ctx, stmts_v(then_b@), st1);
        match self.stmts(then_b) {
            Ok(()) => {},
            Err(err) => {
                return Err(err);
            },
        }
        let ghost ft = rt->Ok_0.0;
        let ghost st2 = rt->Ok_0.1;
        if else_b.len() == 0 {
            let end = self.code.len();
            assert(end - (jf + 1) == ft.ops.len());
            self.set_op(jf, Op::JumpIfFalse((end - (jf + 1)) as i32));
            proof {
                let g = fcat(fcat(fc, plain(seq![Op::JumpIfFalse(ft.ops.len() as i32)])), ft);
                assert(self.code@ =~= c0 + g.ops);
                assert(self.spans@ =~= s0 + g.spans);
            }
            Ok(())
        } else {
            let jmp = self.code.len();
            self.emit(Op::Jump(0));
            let else_start = self.code.len();
            assert(else_start - (jf + 1) == ft.ops.len() + 1);
            self.set_op(jf, Op::JumpIfFalse((else_start - (jf + 1)) as i32));
            let ghost cm = self.code@;
            let ghost sm = self.spans@;
            let ghost re = l_stmts(ctx, stmts_v(else_b@), st2);
            match self.stmts(else_b) {
                Ok(()) => {},
                Err(err) => {
                    return Err(err);
                },
            }
            let ghost fe = re->Ok_0.0;
            let end = self.code.len();
            assert(end - (jmp + 1) == fe.ops.len());
            self.set_op(jmp, Op::Jump((end - (jmp + 1)) as i32));
            proof {
                let g = fcat(
                    fcat(fcat(fc, plain(seq![Op::JumpIfFalse((ft.ops.len() + 1) as i32)])), ft),
                    fcat(plain(seq![Op::Jump(fe.ops.len() as i32)]), fe),
                );
                assert(self.code@ =~= c0 + g.ops);
                assert(self.spans@ =~= s0 + g.spans);
            }
            Ok(())
        }
            },
            _ => Err(Error::Parse(lit(""))),
        }
    }

    fn while_stmt(&mut self, s: &Stmt) -> (r: Result<()>)
        requires
            l_inv(old(self)),
            s is While,
        ensures
            lowered(old(self), final(self), l_stmt(lctx(old(self)), stmt_v(*s), lst(old(self))), r),
        decreases s, 1int,
    {
        let ghost c0 = self.code@;
        let ghost s0 = self.spans@;
        let ghost ctx = lctx(self);
        let ghost st0 = lst(self);
        match s {
            Stmt::While(cond, body) => {
        let start = self.code.len();
        let ghost rc = l_expr(ctx, expr_v(*cond), st0);
        match self.expr(cond) {
            Ok(()) => {},
            Err(err) => {
                return Err(err);
            },
        }
        let ghost fc = rc->Ok_0.0;
        let ghost st1 = rc->Ok_0.1;
        let jf = self.code.len();
        self.emit(Op::JumpIfFalse(0));
        let ghost rb = l_stmts(ctx, stmts_v(body@), st1);
        match self.stmts(body) {
            Ok(()) => {},
            Err(err) => {
                return Err(err);
            },
        }
        let ghost fb = rb->Ok_0.0;
        let back_pos = self.code.len();
        self.emit(Op::Jump(0));
        let end = self.code.len();
        let back: usize = end - start;
        assert(back == fc.ops.len() + fb.ops.len() + 2);
        self.set_op(back_pos, Op::Jump(0i32.wrapping_sub(back as i32)));
        assert(end - (jf + 1) == fb.ops.len() + 1);
        self.set_op(jf, Op::JumpIfFalse((end - (jf + 1)) as i32));
        proof {
            let g = fcat(
                fcat(fc, plain(seq![Op::JumpIfFalse((fb.ops.len() + 1) as i32)])),
                fcat(
                    fb,
                    plain(
                        seq![
                            Op::Jump(
                                (0i32).wrapping_sub((fc.ops.len() + fb.ops.len() + 2) as i32),
                            ),
                        ],
                    ),
                ),
            );
            assert(self.code@ =~= c0 + g.ops);
            assert(self.spans@ =~= s0 + g.spans);
        }
        Ok(())
            },
            _ => Err(Error::Parse(lit(""))),
        }
    }

    fn stmts(&mut self, ss: &Vec<Stmt>) -> (r: Result<()>)
        requires
            l_inv(old(self)),
        ensures
            lowered(old(self), final(self), l_stmts(lctx(old(self)), stmts_v(ss@), lst(old(self))), r),
        decreases ss, 0int,
    {
        proof {
            lemma_stmts_index(ss@);
        }
        let ghost c0 = self.code@;
        let ghost s0 = self.spans@;
        let ghost ctx = lctx(self);
        let ghost st0 = lst(self);
        let ghost mut acc = frag_empty();
        assert(stmts_v(ss@).take(0) =~= Seq::<SStmt>::empty());
        assert(self.code@ =~= c0 + acc.ops);
        assert(self.spans@ =~= s0 + acc.spans);
        let mut i: usize = 0;
        while i < ss.len()
            invariant
                same_ctx(old(self), self),
                ctx == lctx(old(self)),
                st0 == lst(old(self)),
                c0 == old(self).code@,
                s0 == old(self).spans@,
                0 <= i <= ss@.len(),
                stmts_v(ss@).len() == ss@.len(),
                forall|j: int| 0 <= j < ss@.len() ==> #[trigger] stmts_v(ss@)[j] == stmt_v(ss@[j]),
                self.code@ == c0 + acc.ops,
                self.spans@ == s0 + acc.spans,
                l_stmts(ctx, stmts_v(ss@).take(i as int), st0) == Ok::<(Frag, LState), Seq<char>>(
                    (acc, lst(self)),
                ),
            decreases ss@.len() - i,
        {
            let ghost res = l_stmt(ctx, stmt_v(ss@[i as int]), lst(self));
            match self.stmt(&ss[i]) {
                Ok(()) => {},
                Err(err) => {
                    proof {
                        let pre = stmts_v(ss@).take(i + 1);
                        assert(pre.drop_last() =~= stmts_v(ss@).take(i as int));
                        assert(pre.last() == stmt_v(ss@[i as int]));
                        assert(l_stmts(ctx, pre, st0) is Err);
                        lemma_stmts_prefix_err(ctx, stmts_v(ss@), i + 1, st0);
                        assert(stmts_v(ss@).take(ss@.len() as int) =~= stmts_v(ss@));
                    }
                    return Err(err);
                },
            }
            proof {
                let pre = stmts_v(ss@).take(i + 1);
                assert(pre.drop_last() =~= stmts_v(ss@).take(i as int));
                assert(pre.last() == stmt_v(ss@[i as int]));
                let g = res->Ok_0.0;
                assert(self.code@ =~= c0 + fcat(acc, g).ops);
                assert(self.spans@ =~= s0 + fcat(acc, g).spans);
                acc = fcat(acc, g);
            }
            i += 1;
        }
        proof {
            assert(stmts_v(ss@).take(ss@.len() as int) =~= stmts_v(ss@));
        }
        Ok(())
    }
}


proof fn lemma_fns_prefix_err(fnames: Seq<Seq<char>>, fs: Seq<SFn>, i: int, pool: Seq<Seq<char>>)
    requires
        0 <= i <= fs.len(),
        l_fns(fnames, fs.take(i), pool) is Err,
    ensures
        l_fns(fnames, fs, pool) == l_fns(fnames, fs.take(i), pool),
    decreases fs.len() - i,
{
    if i < fs.len() {
        assert(fs.take(i + 1).drop_last() =~= fs.take(i));
        lemma_fns_prefix_err(fnames, fs, i + 1, pool);
    } else {
        assert(fs.take(i) =~= fs);
    }
}

/// A copy of a list of names.
fn clone_names(v: &Vec<String>) -> (r: Vec<String>)
    ensures
        r@ == v@,
{
    let mut r: Vec<String> = Vec::new();
    let mut i: usize = 0;
    while i < v.len()
        invariant
            0 <= i <= v@.len(),
            r@ == v@.take(i as int),
        decreases v@.len() - i,
    {
        r.push(v[i].clone());
        assert(r@ =~= v@.take(i + 1));
        i += 1;
    }
    assert(v@.take(v@.len() as int) =~= v@);
    r
}

/// Lowers one function, given the names of all functions and the string
/// pool so far; hands back the function and the grown pool.
fn lower_fn(f: &Fn, fnames: &Vec<String>, pool: Vec<String>) -> (r: Result<(Function, Vec<String>)>)
    requires
        fnames@.len() <= u32::MAX,
        pool@.len() <= u32::MAX + 1,
    ensures
        match l_fn(names_v(fnames@), fn_v(*f), names_v(pool@)) {
            Ok((g, p)) => r matches Ok((func, pool2)) && func@ == g && names_v(pool2@) == p
                && pool2@.len() <= u32::MAX + 1,
            Err(m) => r matches Err(Error::Parse(mm)) && mm@ == m,
        },
{
    if f.params.len() > 255 {
        return Err(Error::Parse(lit("too many parameters")));
    }
    let locals = clone_names(&f.params);
    let argc: u8 = f.params.len() as u8;
    let mut l = Lowerer { code: Vec::new(), spans: Vec::new(), locals, argc, fnames, string_pool: pool };
    let ghost l0 = l;
    assert(lst(&l) == (LState { locals: names_v(f.params@), pool: names_v(pool@) }));
    match l.stmts(&f.body) {
        Ok(()) => {},
        Err(err) => {
            return Err(err);
        },
    }
    let ghost c1 = l.code@;
    let ghost s1 = l.spans@;
    l.emit(Op::Const(0));
    l.emit(Op::Ret);
    let nlocals: u16 = (l.locals.len() - l.argc as usize) as u16;
    let name = f.name.clone();
    let func = Function { name, argc: l.argc, locals: nlocals, code: l.code, spans: l.spans };
    proof {
        let ctx = LCtx { fnames: names_v(fnames@), argc: f.params@.len() };
        assert(lctx(&l0) == ctx);
        let fr = l_stmts(ctx, stmts_v(f.body@), lst(&l0))->Ok_0.0;
        let all = fcat(fr, plain(seq![Op::Const(0), Op::Ret]));
        assert(func.code@ =~= all.ops);
        assert(func.spans@ =~= all.spans);
    }
    Ok((func, l.string_pool))
}

/// Lowers a parsed program. Function ids are positions in the program;
/// duplicate names and a missing `main` are errors.
pub fn lower(prog: &crate::ast::Program) -> (r: Result<Program>)
    ensures
        match spec_lower(fns_v(prog.fns@)) {
            Ok((funcs, main_id, pool)) => r matches Ok(p) && funcs_v(p.fns@) == funcs
                && p.main_id == main_id && names_v(p.string_pool@) == pool,
            Err(m) => r matches Err(Error::Parse(mm)) && mm@ == m,
        },
{
    let ghost sfs = fns_v(prog.fns@);
    let ghost all_names = fn_names(sfs);
    if prog.fns.len() > 0xffff_ffffusize {
        return Err(Error::Parse(lit("too many functions")));
    }
    // names, checking for duplicates in order
    let mut names: Vec<String> = Vec::new();
    let mut i: usize = 0;
    while i < prog.fns.len()
        invariant
            0 <= i <= prog.fns@.len(),
            prog.fns@.len() <= u32::MAX,
            sfs == fns_v(prog.fns@),
            all_names == fn_names(sfs),
            names_v(names@) == all_names.take(i as int),
            names@.len() == i,
            first_dup(all_names, 0) == first_dup(all_names, i as int),
        decreases prog.fns@.len() - i,
    {
        let ghost nm = all_names.take(i as int);
        assert(all_names[i as int] == prog.fns@[i as int].name@);
        match find_name(&names, &prog.fns[i].name) {
            Some(_) => {
                let m = concat(lit("duplicate function "), &prog.fns[i].name);
                proof {
                    assert(find(all_names.take(i as int), all_names[i as int]) is Some);
                }
                return Err(Error::Parse(m));
            },
            None => {},
        }
        names.push(prog.fns[i].name.clone());
        proof {
            assert(names_v(names@) =~= all_names.take(i + 1));
        }
        i += 1;
    }
    proof {
        assert(names_v(names@) =~= all_names);
    }
    let main_name = lit("main");
    let main_id = match find_name(&names, &main_name) {
        Some(id) => id,
        None => {
            return Err(Error::Parse(lit("no main() function")));
        },
    };
    proof {
        assert(first_dup(all_names, prog.fns@.len() as int) is None);
        assert(first_dup(all_names, 0) is None);
        lemma_find_range(all_names, "main"@, 0);
        assert(find(all_names, "main"@) == Some(main_id as int));
        assert(sfs.len() <= u32::MAX);
    }
    let mut fns: Vec<Function> = Vec::new();
    let mut pool: Vec<String> = Vec::new();
    let mut k: usize = 0;
    assert(sfs.take(0) =~= Seq::<SFn>::empty());
    assert(funcs_v(fns@) =~= Seq::<SFunction>::empty());
    assert(names_v(pool@) =~= Seq::<Seq<char>>::empty());
    while k < prog.fns.len()
        invariant
            0 <= k <= prog.fns@.len(),
            prog.fns@.len() <= u32::MAX,
            names@.len() == prog.fns@.len(),
            sfs == fns_v(prog.fns@),
            names_v(names@) == all_names,
            pool@.len() <= u32::MAX + 1,
            main_id < prog.fns@.len(),
            spec_lower(sfs) == match l_fns(all_names, sfs, Seq::empty()) {
                Err(m) => Err(m),
                Ok((funcs, pool)) => Ok((funcs, main_id as int, pool)),
            },
            l_fns(all_names, sfs.take(k as int), Seq::empty()) == Ok::<
                (Seq<SFunction>, Seq<Seq<char>>),
                Seq<char>,
            >((funcs_v(fns@), names_v(pool@))),
        decreases prog.fns@.len() - k,
    {
        let ghost pre = sfs.take(k + 1);
        assert(pre.drop_last() =~= sfs.take(k as int));
        assert(pre.last() == fn_v(prog.fns@[k as int]));
        let ghost fb = fns@;
        let p = pool;
        match lower_fn(&prog.fns[k], &names, p) {
            Ok((func, p2)) => {
                fns.push(func);
                pool = p2;
                proof {
                    assert(funcs_v(fns@) =~= funcs_v(fb).push(fns@.last()@));
                }
            },
            Err(err) => {
                proof {
                    lemma_fns_prefix_err(all_names, sfs, k + 1, Seq::empty());
                    assert(sfs.take(prog.fns@.len() as int) =~= sfs);
                }
                return Err(err);
            },
        }
        k += 1;
    }
    proof {
        assert(sfs.take(prog.fns@.len() as int) =~= sfs);
    }
    Ok(Program { fns, main_id: main_id as u32, string_pool: pool })
}

} // verus!
