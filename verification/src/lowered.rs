//! What lowering guarantees of the bytecode it produces: every op stays
//! inside its function, its slots, the program's functions and the string
//! pool, literals are tagged integers, and every function ends in `Ret`.
//! That is the well-formedness that the interpreter and the code generator
//! check before they run a program, so a program that lowering accepts is
//! never refused as malformed.

use crate::ast::{SExpr, SFn, SStmt, UnOp};
use crate::interp::{fn_ok, op_ok, wf_program};
use crate::ir::{
    and_tail, bin_frag, bin_op, fcat, find, find_from, fn_names, intern, l_args, l_expr, l_fn,
    l_fns, l_stmt, l_stmts, lemma_find_range, or_tail, plain, spec_lower, Frag, LCtx,
    LState, Op, SProgram,
};
use vstd::prelude::*;

verus! {

/// No literal occurs twice.
pub open spec fn no_dups(s: Seq<Seq<char>>) -> bool {
    forall|i: int, j: int| 0 <= i < j < s.len() ==> s[i] != s[j]
}

/// A search that finds nothing from `i` on means `x` occurs nowhere from `i`
/// on.
proof fn lemma_find_none(s: Seq<Seq<char>>, x: Seq<char>, i: int)
    requires
        0 <= i,
    ensures
        find_from(s, x, i) is None ==> forall|k: int| i <= k < s.len() ==> s[k] != x,
    decreases s.len() - i,
{
    if i < s.len() {
        lemma_find_none(s, x, i + 1);
    }
}

/// Op `k` of `ops` is in bounds: slots below `ns`, pool ids below `np`,
/// function ids below `nf`, jump targets inside `ops` or just past its end,
/// and constants tagged as integers.
pub open spec fn op_in(ops: Seq<Op>, k: int, ns: int, np: int, nf: int) -> bool {
    match ops[k] {
        Op::Const(v) => v % 2 == 0,
        Op::LoadLocal(s) => s < ns,
        Op::StoreLocal(s) => s < ns,
        Op::LoadArg(a) => a < ns,
        Op::Jump(off) => 0 <= k + 1 + off <= ops.len(),
        Op::JumpIfFalse(off) => 0 <= k + 1 + off <= ops.len(),
        Op::Call(id, _) => id < nf,
        Op::Str(id) => id < np,
        _ => true,
    }
}

/// Every op of a fragment is in bounds, and each op has its span.
pub open spec fn frag_ok(f: Frag, ns: int, np: int, nf: int) -> bool {
    &&& f.spans.len() == f.ops.len()
    &&& forall|k: int| 0 <= k < f.ops.len() ==> #[trigger] op_in(f.ops, k, ns, np, nf)
}

/// Larger bounds keep a fragment in bounds.
proof fn lemma_frag_mono(f: Frag, ns: int, np: int, nf: int, ns2: int, np2: int, nf2: int)
    requires
        frag_ok(f, ns, np, nf),
        ns <= ns2,
        np <= np2,
        nf <= nf2,
    ensures
        frag_ok(f, ns2, np2, nf2),
{
    assert forall|k: int| 0 <= k < f.ops.len() implies #[trigger] op_in(f.ops, k, ns2, np2, nf2) by {
        assert(op_in(f.ops, k, ns, np, nf));
    }
}

/// Two fragments in bounds, one after the other, are in bounds: jumps are
/// relative, so moving a fragment does not move its targets.
proof fn lemma_fcat_ok(a: Frag, b: Frag, ns: int, np: int, nf: int)
    requires
        frag_ok(a, ns, np, nf),
        frag_ok(b, ns, np, nf),
    ensures
        frag_ok(fcat(a, b), ns, np, nf),
{
    let c = fcat(a, b);
    assert forall|k: int| 0 <= k < c.ops.len() implies #[trigger] op_in(c.ops, k, ns, np, nf) by {
        if k < a.ops.len() {
            assert(c.ops[k] == a.ops[k]);
            assert(op_in(a.ops, k, ns, np, nf));
        } else {
            assert(c.ops[k] == b.ops[k - a.ops.len()]);
            assert(op_in(b.ops, k - a.ops.len(), ns, np, nf));
        }
    }
}

/// The code of an expression is in bounds and leaves the locals alone.
proof fn lemma_expr_ok(ctx: LCtx, e: SExpr, st: LState)
    requires
        ctx.argc <= st.locals.len() <= 65535,
        ctx.argc <= 255,
        ctx.fnames.len() <= u32::MAX,
        l_expr(ctx, e, st) is Ok,
    ensures
        ({
            let (f, st1) = l_expr(ctx, e, st)->Ok_0;
            &&& no_dups(st.pool) ==> no_dups(st1.pool)
            &&& st1.locals == st.locals
            &&& st.pool.len() <= st1.pool.len()
            &&& f.ops.len() <= i32::MAX ==> frag_ok(
                f,
                st.locals.len() as int,
                st1.pool.len() as int,
                ctx.fnames.len() as int,
            )
        }),
    decreases e,
{
    let ns = st.locals.len() as int;
    let nf = ctx.fnames.len() as int;
    match e {
        SExpr::Int(v) => {
            let f = plain(seq![Op::Const((2 * v) as i64)]);
            assert(op_in(f.ops, 0, ns, st.pool.len() as int, nf));
        },
        SExpr::Str(s, _) => {
            lemma_find_range(st.pool, s, 0);
            lemma_find_none(st.pool, s, 0);
            let (id, pool) = intern(st.pool, s);
            let f = plain(seq![Op::Str(id as u32)]);
            assert(op_in(f.ops, 0, ns, pool.len() as int, nf));
        },
        SExpr::Var(n) => {
            lemma_find_range(st.locals, n, 0);
            let f = l_expr(ctx, e, st)->Ok_0.0;
            assert(op_in(f.ops, 0, ns, st.pool.len() as int, nf));
        },
        SExpr::Call(n, args, _) => {
            if n == "len"@ {
                lemma_expr_ok(ctx, args[0], st);
                let (fa, st1) = l_expr(ctx, args[0], st)->Ok_0;
                let t = plain(seq![Op::StrLen]);
                assert(op_in(t.ops, 0, ns, st1.pool.len() as int, nf));
                if fcat(fa, t).ops.len() <= i32::MAX {
                    lemma_fcat_ok(fa, t, ns, st1.pool.len() as int, nf);
                }
            } else if n == "print"@ {
                lemma_expr_ok(ctx, args[0], st);
                let (fa, st1) = l_expr(ctx, args[0], st)->Ok_0;
                let t = plain(seq![Op::Print, Op::Const(0)]);
                assert(op_in(t.ops, 0, ns, st1.pool.len() as int, nf));
                assert(op_in(t.ops, 1, ns, st1.pool.len() as int, nf));
                if fcat(fa, t).ops.len() <= i32::MAX {
                    lemma_fcat_ok(fa, t, ns, st1.pool.len() as int, nf);
                }
            } else {
                lemma_find_range(ctx.fnames, n, 0);
                let id = find(ctx.fnames, n)->Some_0;
                lemma_args_ok(ctx, args, st);
                let (fa, st1) = l_args(ctx, args, st)->Ok_0;
                let t = plain(seq![Op::Call(id as u32, args.len() as u8)]);
                assert(op_in(t.ops, 0, ns, st1.pool.len() as int, nf));
                if fcat(fa, t).ops.len() <= i32::MAX {
                    lemma_fcat_ok(fa, t, ns, st1.pool.len() as int, nf);
                }
            }
        },
        SExpr::Un(op, a) => {
            lemma_expr_ok(ctx, *a, st);
            let (fa, st1) = l_expr(ctx, *a, st)->Ok_0;
            let t = plain(
                seq![
                    match op {
                        UnOp::Neg => Op::Neg,
                        UnOp::Not => Op::Not,
                    },
                ],
            );
            assert(op_in(t.ops, 0, ns, st1.pool.len() as int, nf));
            if fcat(fa, t).ops.len() <= i32::MAX {
                lemma_fcat_ok(fa, t, ns, st1.pool.len() as int, nf);
            }
        },
        SExpr::Bin(op, a, b, sp) => {
            lemma_expr_ok(ctx, *a, st);
            let (fa, st1) = l_expr(ctx, *a, st)->Ok_0;
            lemma_expr_ok(ctx, *b, st1);
            let (fb, st2) = l_expr(ctx, *b, st1)->Ok_0;
            let np = st2.pool.len() as int;
            let r = bin_frag(op, fa, fb, sp);
            if r.ops.len() <= i32::MAX {
                lemma_frag_mono(fa, ns, st1.pool.len() as int, nf, ns, np, nf);
                lemma_bin_ok(op, fa, fb, sp, ns, np, nf);
            }
        },
    }
}

/// The code of a binary operation is in bounds when its operands' is.
proof fn lemma_bin_ok(op: crate::ast::BinOp, fa: Frag, fb: Frag, sp: crate::ast::Span, ns: int, np: int, nf: int)
    requires
        frag_ok(fa, ns, np, nf),
        frag_ok(fb, ns, np, nf),
        bin_frag(op, fa, fb, sp).ops.len() <= i32::MAX,
    ensures
        frag_ok(bin_frag(op, fa, fb, sp), ns, np, nf),
{
    match op {
        crate::ast::BinOp::And => {
            let t2 = plain(seq![Op::Const(0), Op::Ne, Op::Jump(1), Op::Const(0)]);
            let at = and_tail(fb);
            assert forall|k: int| 0 <= k < at.ops.len() implies #[trigger] op_in(at.ops, k, ns, np, nf) by {
                if k == 0 {
                    assert(at.ops[0] == Op::JumpIfFalse((fb.ops.len() + 3) as i32));
                } else if k <= fb.ops.len() {
                    assert(at.ops[k] == fb.ops[k - 1]);
                    assert(op_in(fb.ops, k - 1, ns, np, nf));
                } else {
                    let j = k - 1 - fb.ops.len();
                    assert(at.ops[k] == t2.ops[j]);
                }
            }
            lemma_fcat_ok(fa, at, ns, np, nf);
        },
        crate::ast::BinOp::Or => {
            let t1 = plain(seq![Op::JumpIfFalse(2), Op::Const(2), Op::Jump((fb.ops.len() + 2) as i32)]);
            let t2 = plain(seq![Op::Const(0), Op::Ne]);
            let ot = or_tail(fb);
            assert forall|k: int| 0 <= k < ot.ops.len() implies #[trigger] op_in(ot.ops, k, ns, np, nf) by {
                if k < 3 {
                    assert(ot.ops[k] == t1.ops[k]);
                } else if k < 3 + fb.ops.len() {
                    assert(ot.ops[k] == fb.ops[k - 3]);
                    assert(op_in(fb.ops, k - 3, ns, np, nf));
                } else {
                    assert(ot.ops[k] == t2.ops[k - 3 - fb.ops.len()]);
                }
            }
            lemma_fcat_ok(fa, ot, ns, np, nf);
        },
        crate::ast::BinOp::Div => {
            let t = Frag { ops: seq![Op::Div], spans: seq![sp] };
            assert(op_in(t.ops, 0, ns, np, nf));
            lemma_fcat_ok(fa, fb, ns, np, nf);
            lemma_fcat_ok(fcat(fa, fb), t, ns, np, nf);
        },
        crate::ast::BinOp::Mod => {
            let t = Frag { ops: seq![Op::Mod], spans: seq![sp] };
            assert(op_in(t.ops, 0, ns, np, nf));
            lemma_fcat_ok(fa, fb, ns, np, nf);
            lemma_fcat_ok(fcat(fa, fb), t, ns, np, nf);
        },
        _ => {
            let t = plain(seq![bin_op(op)]);
            assert(op_in(t.ops, 0, ns, np, nf));
            lemma_fcat_ok(fa, fb, ns, np, nf);
            lemma_fcat_ok(fcat(fa, fb), t, ns, np, nf);
        },
    }
}

/// The code of call arguments is in bounds and leaves the locals alone.
proof fn lemma_args_ok(ctx: LCtx, args: Seq<SExpr>, st: LState)
    requires
        ctx.argc <= st.locals.len() <= 65535,
        ctx.argc <= 255,
        ctx.fnames.len() <= u32::MAX,
        l_args(ctx, args, st) is Ok,
    ensures
        ({
            let (f, st1) = l_args(ctx, args, st)->Ok_0;
            &&& no_dups(st.pool) ==> no_dups(st1.pool)
            &&& st1.locals == st.locals
            &&& st.pool.len() <= st1.pool.len()
            &&& f.ops.len() <= i32::MAX ==> frag_ok(
                f,
                st.locals.len() as int,
                st1.pool.len() as int,
                ctx.fnames.len() as int,
            )
        }),
    decreases args,
{
    if args.len() == 0 {
    } else {
        let ns = st.locals.len() as int;
        let nf = ctx.fnames.len() as int;
        lemma_args_ok(ctx, args.drop_last(), st);
        let (f, st1) = l_args(ctx, args.drop_last(), st)->Ok_0;
        lemma_expr_ok(ctx, args.last(), st1);
        let (g, st2) = l_expr(ctx, args.last(), st1)->Ok_0;
        if fcat(f, g).ops.len() <= i32::MAX {
            lemma_frag_mono(f, ns, st1.pool.len() as int, nf, ns, st2.pool.len() as int, nf);
            lemma_fcat_ok(f, g, ns, st2.pool.len() as int, nf);
        }
    }
}

/// The code of a statement is in bounds of the locals after it; locals
/// only grow, and stay within `u16` slots.
proof fn lemma_stmt_ok(ctx: LCtx, s: SStmt, st: LState)
    requires
        ctx.argc <= st.locals.len() <= 65535,
        ctx.argc <= 255,
        ctx.fnames.len() <= u32::MAX,
        l_stmt(ctx, s, st) is Ok,
    ensures
        ({
            let (f, st1) = l_stmt(ctx, s, st)->Ok_0;
            &&& no_dups(st.pool) ==> no_dups(st1.pool)
            &&& st.locals.len() <= st1.locals.len() <= 65535
            &&& st.pool.len() <= st1.pool.len()
            &&& f.ops.len() <= i32::MAX ==> frag_ok(
                f,
                st1.locals.len() as int,
                st1.pool.len() as int,
                ctx.fnames.len() as int,
            )
        }),
    decreases s,
{
    let nf = ctx.fnames.len() as int;
    let ns = st.locals.len() as int;
    match s {
        SStmt::Let(n, e) => {
            lemma_expr_ok(ctx, e, st);
            let (fe, st1) = l_expr(ctx, e, st)->Ok_0;
            let np = st1.pool.len() as int;
            let t = plain(seq![Op::StoreLocal(st1.locals.len() as u16)]);
            assert(op_in(t.ops, 0, ns + 1, np, nf));
            if fcat(fe, t).ops.len() <= i32::MAX {
                lemma_frag_mono(fe, ns, np, nf, ns + 1, np, nf);
                lemma_fcat_ok(fe, t, ns + 1, np, nf);
            }
        },
        SStmt::Assign(n, e) => {
            lemma_expr_ok(ctx, e, st);
            let (fe, st1) = l_expr(ctx, e, st)->Ok_0;
            let np = st1.pool.len() as int;
            lemma_find_range(st1.locals, n, 0);
            let i = find(st1.locals, n)->Some_0;
            let t = plain(seq![Op::StoreLocal(i as u16)]);
            assert(op_in(t.ops, 0, ns, np, nf));
            if fcat(fe, t).ops.len() <= i32::MAX {
                lemma_fcat_ok(fe, t, ns, np, nf);
            }
        },
        SStmt::ExprStmt(e) => {
            lemma_expr_ok(ctx, e, st);
            let (fe, st1) = l_expr(ctx, e, st)->Ok_0;
            let t = plain(seq![Op::Pop]);
            assert(op_in(t.ops, 0, ns, st1.pool.len() as int, nf));
            if fcat(fe, t).ops.len() <= i32::MAX {
                lemma_fcat_ok(fe, t, ns, st1.pool.len() as int, nf);
            }
        },
        SStmt::Print(e) => {
            lemma_expr_ok(ctx, e, st);
            let (fe, st1) = l_expr(ctx, e, st)->Ok_0;
            let t = plain(seq![Op::Print]);
            assert(op_in(t.ops, 0, ns, st1.pool.len() as int, nf));
            if fcat(fe, t).ops.len() <= i32::MAX {
                lemma_fcat_ok(fe, t, ns, st1.pool.len() as int, nf);
            }
        },
        SStmt::Return(e) => {
            lemma_expr_ok(ctx, e, st);
            let (fe, st1) = l_expr(ctx, e, st)->Ok_0;
            let t = plain(seq![Op::Ret]);
            assert(op_in(t.ops, 0, ns, st1.pool.len() as int, nf));
            if fcat(fe, t).ops.len() <= i32::MAX {
                lemma_fcat_ok(fe, t, ns, st1.pool.len() as int, nf);
            }
        },
        SStmt::If(c, tb, eb) => {
            lemma_expr_ok(ctx, c, st);
            let (fc, st1) = l_expr(ctx, c, st)->Ok_0;
            lemma_stmts_ok(ctx, tb, st1);
            let (ft, st2) = l_stmts(ctx, tb, st1)->Ok_0;
            if eb.len() == 0 {
                let r = l_stmt(ctx, s, st)->Ok_0.0;
                if r.ops.len() <= i32::MAX {
                    let ns2 = st2.locals.len() as int;
                    let np2 = st2.pool.len() as int;
                    lemma_frag_mono(fc, ns, st1.pool.len() as int, nf, ns2, np2, nf);
                    let a = fc.ops.len();
                    assert forall|k: int| 0 <= k < r.ops.len() implies #[trigger] op_in(r.ops, k, ns2, np2, nf) by {
                        if k < a {
                            assert(r.ops[k] == fc.ops[k]);
                            assert(op_in(fc.ops, k, ns2, np2, nf));
                        } else if k == a {
                            assert(r.ops[k] == Op::JumpIfFalse(ft.ops.len() as i32));
                        } else {
                            assert(r.ops[k] == ft.ops[k - a - 1]);
                            assert(op_in(ft.ops, k - a - 1, ns2, np2, nf));
                        }
                    }
                }
            } else {
                lemma_stmts_ok(ctx, eb, st2);
                let (fe, st3) = l_stmts(ctx, eb, st2)->Ok_0;
                let r = l_stmt(ctx, s, st)->Ok_0.0;
                if r.ops.len() <= i32::MAX {
                    let ns3 = st3.locals.len() as int;
                    let np3 = st3.pool.len() as int;
                    lemma_frag_mono(fc, ns, st1.pool.len() as int, nf, ns3, np3, nf);
                    lemma_frag_mono(ft, st2.locals.len() as int, st2.pool.len() as int, nf, ns3, np3, nf);
                    let a = fc.ops.len();
                    let b = ft.ops.len();
                    assert forall|k: int| 0 <= k < r.ops.len() implies #[trigger] op_in(r.ops, k, ns3, np3, nf) by {
                        if k < a {
                            assert(r.ops[k] == fc.ops[k]);
                            assert(op_in(fc.ops, k, ns3, np3, nf));
                        } else if k == a {
                            assert(r.ops[k] == Op::JumpIfFalse((b + 1) as i32));
                        } else if k < a + 1 + b {
                            assert(r.ops[k] == ft.ops[k - a - 1]);
                            assert(op_in(ft.ops, k - a - 1, ns3, np3, nf));
                        } else if k == a + 1 + b {
                            assert(r.ops[k] == Op::Jump(fe.ops.len() as i32));
                        } else {
                            assert(r.ops[k] == fe.ops[k - a - b - 2]);
                            assert(op_in(fe.ops, k - a - b - 2, ns3, np3, nf));
                        }
                    }
                }
            }
        },
        SStmt::While(c, body) => {
            lemma_expr_ok(ctx, c, st);
            let (fc, st1) = l_expr(ctx, c, st)->Ok_0;
            lemma_stmts_ok(ctx, body, st1);
            let (fb, st2) = l_stmts(ctx, body, st1)->Ok_0;
            let r = l_stmt(ctx, s, st)->Ok_0.0;
            if r.ops.len() <= i32::MAX {
                let ns2 = st2.locals.len() as int;
                let np2 = st2.pool.len() as int;
                lemma_frag_mono(fc, ns, st1.pool.len() as int, nf, ns2, np2, nf);
                let a = fc.ops.len();
                let b = fb.ops.len();
                assert forall|k: int| 0 <= k < r.ops.len() implies #[trigger] op_in(r.ops, k, ns2, np2, nf) by {
                    if k < a {
                        assert(r.ops[k] == fc.ops[k]);
                        assert(op_in(fc.ops, k, ns2, np2, nf));
                    } else if k == a {
                        assert(r.ops[k] == Op::JumpIfFalse((b + 1) as i32));
                    } else if k < a + 1 + b {
                        assert(r.ops[k] == fb.ops[k - a - 1]);
                        assert(op_in(fb.ops, k - a - 1, ns2, np2, nf));
                    } else {
                        assert(r.ops[k] == Op::Jump((0i32).wrapping_sub((a + b + 2) as i32)));
                    }
                }
            }
        },
    }
}

/// The code of a statement list is in bounds of the locals after it.
proof fn lemma_stmts_ok(ctx: LCtx, ss: Seq<SStmt>, st: LState)
    requires
        ctx.argc <= st.locals.len() <= 65535,
        ctx.argc <= 255,
        ctx.fnames.len() <= u32::MAX,
        l_stmts(ctx, ss, st) is Ok,
    ensures
        ({
            let (f, st1) = l_stmts(ctx, ss, st)->Ok_0;
            &&& no_dups(st.pool) ==> no_dups(st1.pool)
            &&& st.locals.len() <= st1.locals.len() <= 65535
            &&& st.pool.len() <= st1.pool.len()
            &&& f.ops.len() <= i32::MAX ==> frag_ok(
                f,
                st1.locals.len() as int,
                st1.pool.len() as int,
                ctx.fnames.len() as int,
            )
        }),
    decreases ss,
{
    if ss.len() > 0 {
        let nf = ctx.fnames.len() as int;
        lemma_stmts_ok(ctx, ss.drop_last(), st);
        let (f, st1) = l_stmts(ctx, ss.drop_last(), st)->Ok_0;
        lemma_stmt_ok(ctx, ss.last(), st1);
        let (g, st2) = l_stmt(ctx, ss.last(), st1)->Ok_0;
        if fcat(f, g).ops.len() <= i32::MAX {
            let ns2 = st2.locals.len() as int;
            let np2 = st2.pool.len() as int;
            lemma_frag_mono(f, st1.locals.len() as int, st1.pool.len() as int, nf, ns2, np2, nf);
            lemma_fcat_ok(f, g, ns2, np2, nf);
        }
    }
}

/// One lowered function is well formed, given a program with at least
/// as many functions and literals.
proof fn lemma_fn_ok(fnames: Seq<Seq<char>>, f: SFn, pool: Seq<Seq<char>>, p: SProgram)
    requires
        fnames.len() <= u32::MAX,
        l_fn(fnames, f, pool) is Ok,
        l_fn(fnames, f, pool)->Ok_0.0.code.len() <= i32::MAX,
        fnames.len() <= p.fns.len(),
        l_fn(fnames, f, pool)->Ok_0.1.len() <= p.pool.len(),
    ensures
        pool.len() <= l_fn(fnames, f, pool)->Ok_0.1.len(),
        ({
            let g = l_fn(fnames, f, pool)->Ok_0.0;
            &&& 0 < g.code.len() <= i32::MAX
            &&& g.spans.len() == g.code.len()
            &&& g.code.last() is Ret
            &&& forall|pc: int| 0 <= pc < g.code.len() ==> #[trigger] op_ok(p, g, pc)
        }),
{
    let ctx = LCtx { fnames, argc: f.params.len() };
    let st0 = LState { locals: f.params, pool };
    lemma_stmts_ok(ctx, f.body, st0);
    let (fr, st) = l_stmts(ctx, f.body, st0)->Ok_0;
    let g = l_fn(fnames, f, pool)->Ok_0.0;
    let ns = st.locals.len() as int;
    let np = st.pool.len() as int;
    let nf = fnames.len() as int;
    assert(g.argc + g.locals == ns);
    assert forall|pc: int| 0 <= pc < g.code.len() implies #[trigger] op_ok(p, g, pc) by {
        if pc < fr.ops.len() {
            assert(g.code[pc] == fr.ops[pc]);
            assert(op_in(fr.ops, pc, ns, np, nf));
        } else {
            assert(g.code[pc] == seq![Op::Const(0), Op::Ret][pc - fr.ops.len()]);
        }
    }
}

/// Lowering keeps one function per function.
proof fn lemma_fns_len(fnames: Seq<Seq<char>>, fs: Seq<SFn>, pool: Seq<Seq<char>>)
    requires
        l_fns(fnames, fs, pool) is Ok,
    ensures
        l_fns(fnames, fs, pool)->Ok_0.0.len() == fs.len(),
    decreases fs.len(),
{
    if fs.len() > 0 {
        lemma_fns_len(fnames, fs.drop_last(), pool);
    }
}

/// The functions lowered in order are well formed against the final pool.
proof fn lemma_fns_ok(fnames: Seq<Seq<char>>, fs: Seq<SFn>, pool: Seq<Seq<char>>, p: SProgram)
    requires
        fnames.len() <= u32::MAX,
        l_fns(fnames, fs, pool) is Ok,
        forall|i: int|
            0 <= i < l_fns(fnames, fs, pool)->Ok_0.0.len() ==> (#[trigger] l_fns(fnames, fs, pool)->Ok_0.0[i]).code.len()
                <= i32::MAX,
        fnames.len() <= p.fns.len(),
        l_fns(fnames, fs, pool)->Ok_0.1.len() <= p.pool.len(),
    ensures
        pool.len() <= l_fns(fnames, fs, pool)->Ok_0.1.len(),
        l_fns(fnames, fs, pool)->Ok_0.0.len() == fs.len(),
        forall|i: int| 0 <= i < fs.len() ==> fn_ok(p, #[trigger] l_fns(fnames, fs, pool)->Ok_0.0[i]),
    decreases fs.len(),
{
    if fs.len() > 0 {
        let (done, pool1) = l_fns(fnames, fs.drop_last(), pool)->Ok_0;
        let (g, pool2) = l_fn(fnames, fs.last(), pool1)->Ok_0;
        let all = l_fns(fnames, fs, pool)->Ok_0.0;
        assert(all == done.push(g));
        assert forall|i: int| 0 <= i < done.len() implies (#[trigger] done[i]).code.len() <= i32::MAX by {
            assert(all[i] == done[i]);
        }
        assert(all[done.len() as int] == g);
        lemma_fn_ok(fnames, fs.last(), pool1, p);
        lemma_fns_ok(fnames, fs.drop_last(), pool, p);
        assert forall|i: int| 0 <= i < fs.len() implies fn_ok(p, #[trigger] all[i]) by {
            if i < done.len() {
                assert(all[i] == done[i]);
            } else {
                assert(all[i] == g);
            }
        }
    }
}

/// Lowering produces well-formed bytecode: in a program that lowering
/// accepts, every op stays inside its function, its slots, the program's
/// functions and the string pool, every constant is a tagged integer, and
/// every function ends in `Ret`; `main` is one of the functions. This
/// holds of every function whose code fits 32-bit jump offsets.
pub proof fn lemma_lowered_wf(fs: Seq<SFn>)
    requires
        spec_lower(fs) is Ok,
        forall|i: int|
            0 <= i < spec_lower(fs)->Ok_0.0.len() ==> (#[trigger] spec_lower(fs)->Ok_0.0[i]).code.len()
                <= i32::MAX,
    ensures
        ({
            let (funcs, main_id, pool) = spec_lower(fs)->Ok_0;
            wf_program(SProgram { fns: funcs, main_id: main_id as u32, pool })
        }),
{
    let names = fn_names(fs);
    let (funcs, main_id, pool) = spec_lower(fs)->Ok_0;
    let p = SProgram { fns: funcs, main_id: main_id as u32, pool };
    lemma_find_range(names, "main"@, 0);
    lemma_fns_len(names, fs, Seq::empty());
    lemma_fns_ok(names, fs, Seq::empty(), p);
    assert(main_id < funcs.len());
    assert forall|i: int| 0 <= i < p.fns.len() implies #[trigger] fn_ok(p, p.fns[i]) by {
        assert(fn_ok(p, funcs[i]));
    }
}

/// Lowering a function never adds a literal the pool already holds.
proof fn lemma_fn_pool(fnames: Seq<Seq<char>>, f: SFn, pool: Seq<Seq<char>>)
    requires
        fnames.len() <= u32::MAX,
        l_fn(fnames, f, pool) is Ok,
    ensures
        no_dups(pool) ==> no_dups(l_fn(fnames, f, pool)->Ok_0.1),
{
    let ctx = LCtx { fnames, argc: f.params.len() };
    lemma_stmts_ok(ctx, f.body, LState { locals: f.params, pool });
}

/// Lowering the functions in order never adds a literal the pool already
/// holds.
proof fn lemma_fns_pool(fnames: Seq<Seq<char>>, fs: Seq<SFn>, pool: Seq<Seq<char>>)
    requires
        fnames.len() <= u32::MAX,
        l_fns(fnames, fs, pool) is Ok,
    ensures
        no_dups(pool) ==> no_dups(l_fns(fnames, fs, pool)->Ok_0.1),
    decreases fs.len(),
{
    if fs.len() > 0 {
        lemma_fns_pool(fnames, fs.drop_last(), pool);
        let pool1 = l_fns(fnames, fs.drop_last(), pool)->Ok_0.1;
        lemma_fn_pool(fnames, fs.last(), pool1);
    }
}

/// Equal string literals share one pool entry: the string pool of a
/// program that lowering accepts holds no literal twice.
pub proof fn lemma_pool_distinct(fs: Seq<SFn>)
    requires
        spec_lower(fs) is Ok,
    ensures
        no_dups(spec_lower(fs)->Ok_0.2),
{
    lemma_fns_pool(fn_names(fs), fs, Seq::empty());
}

/// Bytecode from tokens is well formed when each function fits 32-bit
/// jump offsets.
proof fn lemma_back_wf(ts: Seq<crate::lexer::SToken>)
    requires
        crate::spec_back(ts) is Ok,
        forall|i: int|
            0 <= i < crate::spec_back(ts)->Ok_0.fns.len() ==> (#[trigger] crate::spec_back(ts)->Ok_0.fns[i]).code.len()
                <= i32::MAX,
    ensures
        wf_program(crate::spec_back(ts)->Ok_0),
{
    let fs = crate::parser::spec_parse(ts)->Ok_0;
    assert(spec_lower(fs) is Ok);
    assert(spec_lower(fs)->Ok_0.0 == crate::spec_back(ts)->Ok_0.fns);
    lemma_lowered_wf(fs);
}

/// A program loaded from source text is well formed, when each of its
/// functions fits 32-bit jump offsets: the interpreter and the code
/// generator never refuse it as malformed bytecode.
#[verifier::spinoff_prover]
pub proof fn lemma_loaded_wf(b: Seq<u8>)
    requires
        crate::spec_load(b) is Ok,
        forall|i: int|
            0 <= i < crate::spec_load(b)->Ok_0.fns.len() ==> (#[trigger] crate::spec_load(b)->Ok_0.fns[i]).code.len()
                <= i32::MAX,
    ensures
        wf_program(crate::spec_load(b)->Ok_0),
{
    let f = crate::spec_front(b);
    assert(f is Ok);
    let ts = f->Ok_0;
    assert(crate::spec_load(b) == crate::spec_back(ts));
    lemma_back_wf(ts);
}

} // verus!
