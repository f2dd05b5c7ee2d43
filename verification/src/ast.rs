//! AST types, small and boring on purpose, with their mathematical views
//! (names become character sequences).

use crate::text::{concat, concat_lit, fmt_u64, lit};
use vstd::prelude::*;

verus! {

/// Source position of a token. `(0, 0)` means "unknown".
#[derive(Debug, Clone, Copy, Default, PartialEq, Eq)]
pub struct Span {
    pub line: u32,
    pub col: u32,
}

impl Span {
    /// The span of an op with no source position.
    pub fn unknown() -> (s: Span)
        ensures
            s == (Span { line: 0, col: 0 }),
    {
        Span { line: 0, col: 0 }
    }

    pub fn new(line: u32, col: u32) -> (s: Span)
        ensures
            s == (Span { line, col }),
    {
        Span { line, col }
    }

    pub fn is_known(&self) -> (b: bool)
        ensures
            b == (self.line != 0),
    {
        self.line != 0
    }

    /// "line {line}, col {col}" for a known span, "?" otherwise.
    pub fn to_string(&self) -> (s: String)
        ensures
            s@ == span_text(*self),
    {
        if self.is_known() {
            let s = concat(lit("line "), &fmt_u64(self.line as u64));
            let s = concat_lit(s, ", col ");
            let s = concat(s, &fmt_u64(self.col as u64));
            proof {
                assert(s@ =~= span_text(*self));
            }
            s
        } else {
            lit("?")
        }
    }
}

/// The text of a span.
pub open spec fn span_text(s: Span) -> Seq<char> {
    if s.line != 0 {
        "line "@ + crate::text::dec_nat(s.line as nat) + ", col "@ + crate::text::dec_nat(
            s.col as nat,
        )
    } else {
        "?"@
    }
}

#[derive(Debug)]
pub struct Program {
    pub fns: Vec<Fn>,
}

#[derive(Debug)]
pub struct Fn {
    pub name: String,
    pub params: Vec<String>,
    pub body: Vec<Stmt>,
}

#[derive(Debug)]
pub enum Stmt {
    Let(String, Expr),
    Assign(String, Expr),
    If(Expr, Vec<Stmt>, Vec<Stmt>),
    While(Expr, Vec<Stmt>),
    Return(Expr),
    ExprStmt(Expr),
    Print(Expr),
}

#[derive(Debug, Clone, Copy, PartialEq, Eq)]
pub enum BinOp {
    Add,
    Sub,
    Mul,
    Div,
    Mod,
    Lt,
    Le,
    Gt,
    Ge,
    Eq,
    Ne,
    And,
    Or,
}

#[derive(Debug, Clone, Copy, PartialEq, Eq)]
pub enum UnOp {
    Neg,
    Not,
}

#[derive(Debug)]
pub enum Expr {
    Int(i64),
    Str(String, Span),
    Var(String),
    Call(String, Vec<Expr>, Span),
    /// `Bin` carries the operator's source span so runtime errors such as a
    /// division by zero can report the faulting position.
    Bin(BinOp, Box<Expr>, Box<Expr>, Span),
    Un(UnOp, Box<Expr>),
}

/// Mathematical form of an expression.
pub enum SExpr {
    Int(i64),
    Str(Seq<char>, Span),
    Var(Seq<char>),
    Call(Seq<char>, Seq<SExpr>, Span),
    Bin(BinOp, Box<SExpr>, Box<SExpr>, Span),
    Un(UnOp, Box<SExpr>),
}

/// Mathematical form of a statement.
pub enum SStmt {
    Let(Seq<char>, SExpr),
    Assign(Seq<char>, SExpr),
    If(SExpr, Seq<SStmt>, Seq<SStmt>),
    While(SExpr, Seq<SStmt>),
    Return(SExpr),
    ExprStmt(SExpr),
    Print(SExpr),
}

/// Mathematical form of a function.
pub struct SFn {
    pub name: Seq<char>,
    pub params: Seq<Seq<char>>,
    pub body: Seq<SStmt>,
}

pub open spec fn expr_v(e: Expr) -> SExpr
    decreases e,
{
    match e {
        Expr::Int(v) => SExpr::Int(v),
        Expr::Str(s, sp) => SExpr::Str(s@, sp),
        Expr::Var(n) => SExpr::Var(n@),
        Expr::Call(n, args, sp) => SExpr::Call(n@, exprs_v(args@), sp),
        Expr::Bin(op, a, b, sp) => SExpr::Bin(op, Box::new(expr_v(*a)), Box::new(expr_v(*b)), sp),
        Expr::Un(op, a) => SExpr::Un(op, Box::new(expr_v(*a))),
    }
}

pub open spec fn exprs_v(es: Seq<Expr>) -> Seq<SExpr>
    decreases es,
{
    if es.len() == 0 {
        Seq::empty()
    } else {
        seq![expr_v(es[0])] + exprs_v(es.subrange(1, es.len() as int))
    }
}

pub open spec fn stmt_v(s: Stmt) -> SStmt
    decreases s,
{
    match s {
        Stmt::Let(n, e) => SStmt::Let(n@, expr_v(e)),
        Stmt::Assign(n, e) => SStmt::Assign(n@, expr_v(e)),
        Stmt::If(c, t, f) => SStmt::If(expr_v(c), stmts_v(t@), stmts_v(f@)),
        Stmt::While(c, b) => SStmt::While(expr_v(c), stmts_v(b@)),
        Stmt::Return(e) => SStmt::Return(expr_v(e)),
        Stmt::ExprStmt(e) => SStmt::ExprStmt(expr_v(e)),
        Stmt::Print(e) => SStmt::Print(expr_v(e)),
    }
}

pub open spec fn stmts_v(ss: Seq<Stmt>) -> Seq<SStmt>
    decreases ss,
{
    if ss.len() == 0 {
        Seq::empty()
    } else {
        seq![stmt_v(ss[0])] + stmts_v(ss.subrange(1, ss.len() as int))
    }
}

pub open spec fn names_v(ns: Seq<String>) -> Seq<Seq<char>> {
    ns.map_values(|n: String| n@)
}

pub open spec fn fn_v(f: Fn) -> SFn {
    SFn { name: f.name@, params: names_v(f.params@), body: stmts_v(f.body@) }
}

pub open spec fn fns_v(fs: Seq<Fn>) -> Seq<SFn> {
    fs.map_values(|f: Fn| fn_v(f))
}

} // verus!
