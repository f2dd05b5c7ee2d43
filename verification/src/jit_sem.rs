//! What the code generator's templates compute, run on the instruction
//! model of `x86_model`: the template of each op that moves values
//! (`Const`, `Pop`, `LoadLocal`, `LoadArg`, `StoreLocal`) or computes on
//! integers (`Add`, `Sub`, `Mul`, `Div`, `Mod`, the comparisons, `Neg`,
//! `Not`) does to the frame and the value stack what the interpreter's
//! step does, and `Str` pushes its literal's tagged address; `Jump` and
//! `JumpIfFalse` branch when the interpreter does. The templates of calls,
//! returns, printing and string length leave the model (they call, use the
//! machine stack or read the heap).

use crate::interp::{
    lemma_step_int_binop, lemma_step_int_unop, lemma_tagged_div_mod, op_at, spec_step, top, wdiv, wrem, AFrame, AState,
    AVal, Outcome,
};
use crate::ir::{Op, SProgram};
use crate::jit::{
    t_inc_r14, t_dec_r14, t_load_rax_top, t_load_rcx_top, t_op, t_pop_rax, t_pop_rcx, t_push_rax,
    t_store_top, t_local, t_divzero_guard, t_guard_body, t_divide, SLinks,
};
use crate::x86::{le32, le64, enc_alu_rr, enc_call_reg, enc_mov_reg_imm64, enc_pop_reg, enc_push_reg, enc_d1, enc_f7, enc_imul_reg_reg, enc_mov_reg_reg, enc_setcc_al, Reg, CC_E, CC_G, CC_GE, CC_L, CC_LE, CC_NE};
use crate::x86_model::{cond, exec1, exec_seq, lemma_exec_concat, rd32, rd64, Cpu};
use crate::value;
use vstd::prelude::*;

verus! {

/// A single modelled instruction that fills `b` runs as that instruction.
proof fn lemma_exec_one(b: Seq<u8>, c: Cpu)
    requires
        exec1(b, c) matches Some((_, n)) && n == b.len() && n > 0,
    ensures
        exec1(b, c) matches Some((d, _)) && exec_seq(b, c) == Some(d),
{
    let (d, n) = exec1(b, c)->Some_0;
    assert(b.skip(n).len() == 0);
    assert(exec_seq(b.skip(n), d) == Some(d));
}

/// Running `a` to `d`, then `b` from `d`, is running `a + b`.
proof fn lemma_exec_then(a: Seq<u8>, b: Seq<u8>, c: Cpu, d: Cpu)
    requires
        exec_seq(a, c) == Some(d),
    ensures
        exec_seq(a + b, c) == exec_seq(b, d),
{
    lemma_exec_concat(a, b, c);
}

/// `dec r14` and `inc r14`.
#[verifier::spinoff_prover]
proof fn lemma_i_r14(c: Cpu)
    ensures
        exec_seq(t_dec_r14(), c) == Some(Cpu { r14: c.r14 - 1, ..c }),
        exec_seq(t_inc_r14(), c) == Some(Cpu { r14: c.r14 + 1, ..c }),
{
    reveal(exec1);
    lemma_exec_one(t_dec_r14(), c);
    lemma_exec_one(t_inc_r14(), c);
}

/// The loads and the store at the top index.
#[verifier::spinoff_prover]
proof fn lemma_i_top(c: Cpu)
    requires
        0 <= c.r14 < c.mem.len(),
    ensures
        exec_seq(t_load_rax_top(), c) == Some(Cpu { rax: c.mem[c.r14], ..c }),
        exec_seq(t_load_rcx_top(), c) == Some(Cpu { rcx: c.mem[c.r14], ..c }),
        exec_seq(t_store_top(), c) == Some(Cpu { mem: c.mem.update(c.r14, c.rax), ..c }),
{
    reveal(exec1);
    lemma_exec_one(t_load_rax_top(), c);
    lemma_exec_one(t_load_rcx_top(), c);
    lemma_exec_one(t_store_top(), c);
}

/// `add`, `sub` and `cmp` of rax with rcx, `test` of rax or rcx with
/// itself, and `mov rax, rdx`.
#[verifier::spinoff_prover]
proof fn lemma_i_alu(c: Cpu)
    ensures
        exec_seq(enc_alu_rr(0x01, Reg::Rax, Reg::Rcx), c) == Some(Cpu { rax: c.rax.wrapping_add(c.rcx), ..c }),
        exec_seq(enc_alu_rr(0x29, Reg::Rax, Reg::Rcx), c) == Some(Cpu { rax: c.rax.wrapping_sub(c.rcx), ..c }),
        exec_seq(enc_alu_rr(0x39, Reg::Rax, Reg::Rcx), c) == Some(Cpu { fa: c.rax, fb: c.rcx, ..c }),
        exec_seq(enc_alu_rr(0x85, Reg::Rax, Reg::Rax), c) == Some(Cpu { fa: c.rax & c.rax, fb: 0, ..c }),
        exec_seq(enc_alu_rr(0x85, Reg::Rcx, Reg::Rcx), c) == Some(Cpu { fa: c.rcx & c.rcx, fb: 0, ..c }),
        exec_seq(enc_mov_reg_reg(Reg::Rax, Reg::Rdx), c) == Some(Cpu { rax: c.rdx, ..c }),
{
    reveal(exec1);
    assert(enc_alu_rr(0x01, Reg::Rax, Reg::Rcx)[2] == 0xC8u8);
    assert(enc_alu_rr(0x29, Reg::Rax, Reg::Rcx)[2] == 0xC8u8);
    assert(enc_alu_rr(0x39, Reg::Rax, Reg::Rcx)[2] == 0xC8u8);
    assert(enc_alu_rr(0x85, Reg::Rax, Reg::Rax)[2] == 0xC0u8);
    assert(enc_alu_rr(0x85, Reg::Rcx, Reg::Rcx)[2] == 0xC9u8);
    assert(enc_mov_reg_reg(Reg::Rax, Reg::Rdx)[2] == 0xD0u8);
    lemma_exec_one(enc_alu_rr(0x01, Reg::Rax, Reg::Rcx), c);
    lemma_exec_one(enc_alu_rr(0x29, Reg::Rax, Reg::Rcx), c);
    lemma_exec_one(enc_alu_rr(0x39, Reg::Rax, Reg::Rcx), c);
    lemma_exec_one(enc_alu_rr(0x85, Reg::Rax, Reg::Rax), c);
    lemma_exec_one(enc_alu_rr(0x85, Reg::Rcx, Reg::Rcx), c);
    lemma_exec_one(enc_mov_reg_reg(Reg::Rax, Reg::Rdx), c);
}

/// `imul rax, rcx`, `movzx rax, al`, `cqo`, the shifts by one and
/// `neg rax`.
#[verifier::spinoff_prover]
proof fn lemma_i_unary(c: Cpu)
    ensures
        exec_seq(enc_imul_reg_reg(Reg::Rax, Reg::Rcx), c) == Some(Cpu { rax: c.rax.wrapping_mul(c.rcx), ..c }),
        exec_seq(seq![0x48u8, 0x0Fu8, 0xB6u8, 0xC0u8], c) == Some(Cpu { rax: c.rax & 0xff, ..c }),
        exec_seq(seq![0x48u8, 0x99u8], c) == Some(Cpu { rdx: if c.rax < 0 { -1i64 } else { 0i64 }, ..c }),
        exec_seq(enc_d1(4, Reg::Rax), c) == Some(Cpu { rax: c.rax.wrapping_shl(1), ..c }),
        exec_seq(enc_d1(7, Reg::Rax), c) == Some(Cpu { rax: c.rax >> 1, ..c }),
        exec_seq(enc_d1(7, Reg::Rcx), c) == Some(Cpu { rcx: c.rcx >> 1, ..c }),
        exec_seq(enc_f7(3, Reg::Rax), c) == Some(Cpu { rax: 0i64.wrapping_sub(c.rax), ..c }),
{
    lemma_i_misc(c);
    lemma_i_shift(c);
}

#[verifier::spinoff_prover]
proof fn lemma_i_misc(c: Cpu)
    ensures
        exec_seq(enc_imul_reg_reg(Reg::Rax, Reg::Rcx), c) == Some(Cpu { rax: c.rax.wrapping_mul(c.rcx), ..c }),
        exec_seq(seq![0x48u8, 0x0Fu8, 0xB6u8, 0xC0u8], c) == Some(Cpu { rax: c.rax & 0xff, ..c }),
        exec_seq(seq![0x48u8, 0x99u8], c) == Some(Cpu { rdx: if c.rax < 0 { -1i64 } else { 0i64 }, ..c }),
{
    reveal(exec1);
    assert(enc_imul_reg_reg(Reg::Rax, Reg::Rcx)[3] == 0xC1u8);
    lemma_exec_one(enc_imul_reg_reg(Reg::Rax, Reg::Rcx), c);
    lemma_exec_one(seq![0x48u8, 0x0Fu8, 0xB6u8, 0xC0u8], c);
    lemma_exec_one(seq![0x48u8, 0x99u8], c);
}

#[verifier::spinoff_prover]
proof fn lemma_i_shift(c: Cpu)
    ensures
        exec_seq(enc_d1(4, Reg::Rax), c) == Some(Cpu { rax: c.rax.wrapping_shl(1), ..c }),
        exec_seq(enc_d1(7, Reg::Rax), c) == Some(Cpu { rax: c.rax >> 1, ..c }),
        exec_seq(enc_d1(7, Reg::Rcx), c) == Some(Cpu { rcx: c.rcx >> 1, ..c }),
        exec_seq(enc_f7(3, Reg::Rax), c) == Some(Cpu { rax: 0i64.wrapping_sub(c.rax), ..c }),
{
    reveal(exec1);
    assert(enc_d1(4, Reg::Rax)[2] == 0xE0u8);
    assert(enc_d1(7, Reg::Rax)[2] == 0xF8u8);
    assert(enc_d1(7, Reg::Rcx)[2] == 0xF9u8);
    assert(enc_f7(3, Reg::Rax)[2] == 0xD8u8);
    lemma_exec_one(enc_d1(4, Reg::Rax), c);
    lemma_exec_one(enc_d1(7, Reg::Rax), c);
    lemma_exec_one(enc_d1(7, Reg::Rcx), c);
    lemma_exec_one(enc_f7(3, Reg::Rax), c);
}

/// `setcc al`.
#[verifier::spinoff_prover]
proof fn lemma_i_setcc(cc: u8, c: Cpu)
    requires
        cc == CC_E || cc == CC_NE || cc == CC_L || cc == CC_LE || cc == CC_G || cc == CC_GE,
    ensures
        exec_seq(enc_setcc_al(cc), c) == Some(
            Cpu {
                rax: (c.rax & !0xffi64) | (if cond(cc as int, c.fa, c.fb) == Some(true) { 1i64 } else { 0i64 }),
                ..c
            },
        ),
{
    reveal(exec1);
    assert(enc_setcc_al(cc)[1] - 0x90 == cc as int);
    lemma_exec_one(enc_setcc_al(cc), c);
}

/// `le32` and `le64` read back.
proof fn lemma_read_back(v: i32, n: i64)
    ensures
        rd32(seq![0u8, 0u8, 0u8, 0u8] + le32(v), 4) == v,
        rd64(seq![0u8, 0u8] + le64(n), 2) == n,
{
    let b = seq![0u8, 0u8, 0u8, 0u8] + le32(v);
    let (b0, b1, b2, b3) = (b[4], b[5], b[6], b[7]);
    assert(b0 == v as u8 && b1 == (v >> 8) as u8 && b2 == (v >> 16) as u8 && b3 == (v >> 24) as u8);
    assert(((b0 as u32) | ((b1 as u32) << 8u32) | ((b2 as u32) << 16u32) | ((b3 as u32) << 24u32)) as i32 == v)
        by (bit_vector)
        requires
            b0 == v as u8 && b1 == (v >> 8) as u8 && b2 == (v >> 16) as u8 && b3 == (v >> 24) as u8,
    ;
    let e = seq![0u8, 0u8] + le64(n);
    let (e0, e1, e2, e3, e4, e5, e6, e7) = (e[2], e[3], e[4], e[5], e[6], e[7], e[8], e[9]);
    assert(e0 == n as u8 && e1 == (n >> 8) as u8 && e2 == (n >> 16) as u8 && e3 == (n >> 24) as u8);
    assert(e4 == (n >> 32) as u8 && e5 == (n >> 40) as u8 && e6 == (n >> 48) as u8 && e7 == (n >> 56) as u8);
    assert(((e0 as u64) | ((e1 as u64) << 8u64) | ((e2 as u64) << 16u64) | ((e3 as u64) << 24u64) | ((e4 as u64)
        << 32u64) | ((e5 as u64) << 40u64) | ((e6 as u64) << 48u64) | ((e7 as u64) << 56u64)) as i64 == n)
        by (bit_vector)
        requires
            e0 == n as u8 && e1 == (n >> 8) as u8 && e2 == (n >> 16) as u8 && e3 == (n >> 24) as u8,
            e4 == (n >> 32) as u8 && e5 == (n >> 40) as u8 && e6 == (n >> 48) as u8 && e7 == (n >> 56) as u8,
    ;
}

/// `mov rax, imm64`.
#[verifier::spinoff_prover]
proof fn lemma_i_imm(n: i64, c: Cpu)
    ensures
        exec_seq(enc_mov_reg_imm64(Reg::Rax, n), c) == Some(Cpu { rax: n, ..c }),
{
    reveal(exec1);
    let b = enc_mov_reg_imm64(Reg::Rax, n);
    let e = seq![0u8, 0u8] + le64(n);
    lemma_read_back(0, n);
    assert(forall|k: int| 2 <= k < 10 ==> b[k] == e[k]);
    assert(rd64(b, 2) == rd64(e, 2));
    assert(b[1] == 0xB8u8);
    lemma_exec_one(b, c);
}

/// The load and the store of slot `slot` of the frame.
#[verifier::spinoff_prover]
proof fn lemma_i_local(slot: u16, c: Cpu)
    requires
        0 <= c.r13 + slot < c.mem.len(),
    ensures
        exec_seq(t_local(0x8B, slot), c) == Some(Cpu { rax: c.mem[c.r13 + slot], ..c }),
        exec_seq(t_local(0x89, slot), c) == Some(Cpu { mem: c.mem.update(c.r13 + slot, c.rax), ..c }),
{
    reveal(exec1);
    let v = (slot * 8) as i32;
    assert(v == slot * 8);
    let e = seq![0u8, 0u8, 0u8, 0u8] + le32(v);
    lemma_read_back(v, 0);
    let ld = t_local(0x8B, slot);
    let st = t_local(0x89, slot);
    assert(forall|k: int| 4 <= k < 8 ==> ld[k] == e[k] && st[k] == e[k]);
    assert(rd32(ld, 4) == rd32(e, 4));
    assert(rd32(st, 4) == rd32(e, 4));
    assert((slot * 8) / 8 == slot && (slot * 8) % 8 == 0);
    lemma_exec_one(ld, c);
    lemma_exec_one(st, c);
}

/// The zero-divisor guard with a non-zero divisor: `test rcx, rcx`, and
/// `jne` over the call of the helper.
#[verifier::spinoff_prover]
proof fn lemma_i_guard(l: SLinks, c: Cpu)
    requires
        c.rcx != 0,
    ensures
        exec_seq(t_divzero_guard(l), c) == Some(Cpu { fa: c.rcx, fb: 0, ..c }),
{
    let x = c.rcx;
    assert(x & x == x) by (bit_vector);
    let c1 = Cpu { fa: c.rcx, fb: 0, ..c };
    let ts = enc_alu_rr(0x85, Reg::Rcx, Reg::Rcx);
    let body = t_guard_body(l);
    assert(enc_push_reg(Reg::Rdi).len() == 1);
    assert(enc_pop_reg(Reg::Rdi).len() == 1);
    assert(enc_call_reg(Reg::Rax).len() == 2);
    assert(body.len() == 14);
    let j = seq![0x0Fu8, 0x85u8] + le32(14i32) + body;
    assert(t_divzero_guard(l) =~= ts + j);
    lemma_i_alu(c);
    let e = seq![0u8, 0u8, 0u8, 0u8] + le32(14i32);
    lemma_read_back(14i32, 0);
    assert(forall|k: int| 2 <= k < 6 ==> j[k] == e[k + 2]);
    assert(rd32(j, 2) == rd32(e, 4));
    assert(j.len() == 20);
    reveal(exec1);
    lemma_exec_one(j, c1);
    lemma_exec_then(ts, j, c, c1);
}

/// `idiv rcx`, on a dividend sign-extended from rax, where neither the
/// quotient nor the remainder overflows.
#[verifier::spinoff_prover]
proof fn lemma_i_idiv(c: Cpu)
    requires
        c.rdx == (if c.rax < 0 { -1i64 } else { 0i64 }),
        c.rax.checked_div(c.rcx) is Some,
        c.rax.checked_rem(c.rcx) is Some,
    ensures
        exec_seq(enc_f7(7, Reg::Rcx), c) == Some(
            Cpu { rax: c.rax.checked_div(c.rcx)->Some_0, rdx: c.rax.checked_rem(c.rcx)->Some_0, ..c },
        ),
{
    reveal(exec1);
    assert(enc_f7(7, Reg::Rcx)[2] == 0xF9u8);
    lemma_exec_one(enc_f7(7, Reg::Rcx), c);
}

/// The state after popping `b` into rcx and then `a` into rax.
pub open spec fn popped2(c: Cpu) -> Cpu {
    Cpu { rax: c.mem[c.r14 - 2], rcx: c.mem[c.r14 - 1], r14: c.r14 - 2, ..c }
}

proof fn lemma_pop2(c: Cpu)
    requires
        2 <= c.r14 <= c.mem.len(),
    ensures
        exec_seq(t_pop_rcx() + t_pop_rax(), c) == Some(popped2(c)),
{
    let c1 = Cpu { r14: c.r14 - 1, ..c };
    let c2 = Cpu { rcx: c.mem[c.r14 - 1], ..c1 };
    let c3 = Cpu { r14: c.r14 - 2, ..c2 };
    let c4 = Cpu { rax: c.mem[c.r14 - 2], ..c3 };
    lemma_i_r14(c);
    lemma_i_top(c1);
    lemma_exec_then(t_dec_r14(), t_load_rcx_top(), c, c1);
    lemma_i_r14(c2);
    lemma_i_top(c3);
    lemma_exec_then(t_dec_r14(), t_load_rax_top(), c2, c3);
    lemma_exec_then(t_pop_rcx(), t_pop_rax(), c, c2);
    assert(c4 == popped2(c));
}

proof fn lemma_pop1(c: Cpu)
    requires
        1 <= c.r14 <= c.mem.len(),
    ensures
        exec_seq(t_pop_rax(), c) == Some(Cpu { rax: c.mem[c.r14 - 1], r14: c.r14 - 1, ..c }),
{
    let c1 = Cpu { r14: c.r14 - 1, ..c };
    lemma_i_r14(c);
    lemma_i_top(c1);
    lemma_exec_then(t_dec_r14(), t_load_rax_top(), c, c1);
}

proof fn lemma_push(c: Cpu)
    requires
        0 <= c.r14 < c.mem.len(),
    ensures
        exec_seq(t_push_rax(), c) == Some(Cpu { mem: c.mem.update(c.r14, c.rax), r14: c.r14 + 1, ..c }),
{
    let c1 = Cpu { mem: c.mem.update(c.r14, c.rax), ..c };
    lemma_i_top(c);
    lemma_i_r14(c1);
    lemma_exec_then(t_store_top(), t_inc_r14(), c, c1);
}

/// A two-operand template: pop both operands, run `core` on them, push rax.
proof fn lemma_binop_frame(core: Seq<u8>, c: Cpu, d: Cpu)
    requires
        2 <= c.r14 <= c.mem.len(),
        exec_seq(core, popped2(c)) == Some(d),
        d.r13 == c.r13,
        d.r14 == c.r14 - 2,
        d.mem == c.mem,
    ensures
        exec_seq(t_pop_rcx() + t_pop_rax() + core + t_push_rax(), c) matches Some(e) && e.r13 == c.r13 && e.r14 == c.r14 - 1
            && e.mem == c.mem.update(c.r14 - 2, d.rax),
{
    lemma_pop2(c);
    lemma_exec_then(t_pop_rcx() + t_pop_rax(), core, c, popped2(c));
    lemma_push(d);
    lemma_exec_then(t_pop_rcx() + t_pop_rax() + core, t_push_rax(), c, d);
}

/// `setcc al; movzx rax, al; shl rax, 1`: the tagged truth of `cc` on the
/// compared pair.
proof fn lemma_flag_tail(cc: u8, c: Cpu)
    requires
        cc == CC_E || cc == CC_NE || cc == CC_L || cc == CC_LE || cc == CC_G || cc == CC_GE,
    ensures
        exec_seq(enc_setcc_al(cc) + seq![0x48u8, 0x0Fu8, 0xB6u8, 0xC0u8] + enc_d1(4, Reg::Rax), c)
            matches Some(d) && d.r13 == c.r13 && d.r14 == c.r14 && d.mem == c.mem && d.rax == (if cond(cc as int, c.fa, c.fb)
            == Some(true) {
            2i64
        } else {
            0i64
        }),
{
    let t = cond(cc as int, c.fa, c.fb)->Some_0;
    let bit: i64 = if t { 1 } else { 0 };
    let x = c.rax;
    let r1 = (x & !0xffi64) | bit;
    let r2 = r1 & 0xff;
    let r3 = r2.wrapping_shl(1);
    assert(r2 == bit) by (bit_vector)
        requires
            r1 == (x & !0xffi64) | bit,
            r2 == r1 & 0xff,
            bit == 0 || bit == 1,
    ;
    assert(r3 == 2 * bit) by {
        assert(r2 == bit);
        assert((bit << 1u32) == 2 * bit) by (bit_vector)
            requires
                bit == 0 || bit == 1,
        ;
    }
    let c1 = Cpu { rax: r1, ..c };
    let c2 = Cpu { rax: r2, ..c };
    let c3 = Cpu { rax: r3, ..c };
    let sc = enc_setcc_al(cc);
    let mz = seq![0x48u8, 0x0Fu8, 0xB6u8, 0xC0u8];
    let sh = enc_d1(4, Reg::Rax);
    lemma_i_setcc(cc, c);
    lemma_i_unary(c1);
    lemma_exec_then(sc, mz, c, c1);
    lemma_i_unary(c2);
    lemma_exec_then(sc + mz, sh, c, c2);
}

/// The machine code of each arithmetic and comparison op computes what the
/// op means. Run on a value stack whose top two entries are `a` (below)
/// and `b`, it leaves one entry fewer, with `a` replaced by the wrapping
/// sum `a + b`, the wrapping difference `a - b`, the tagged product
/// (`a * b` shifted right by one bit), or the tagged truth (2 or 0) of
/// `a < b`, `a <= b`, `a > b`, `a >= b`, `a == b` or `a != b`: the values
/// that the interpreter's step pushes for the same op.
pub proof fn lemma_jit_binop(op: Op, l: SLinks, rel: i32, c: Cpu)
    requires
        2 <= c.r14 <= c.mem.len(),
    ensures
        op == Op::Add ==> (exec_seq(t_op(op, l, rel), c) matches Some(d) && d.r13 == c.r13 && d.r14 == c.r14 - 1 && d.mem
            == c.mem.update(c.r14 - 2, c.mem[c.r14 - 2].wrapping_add(c.mem[c.r14 - 1]))),
        op == Op::Sub ==> (exec_seq(t_op(op, l, rel), c) matches Some(d) && d.r13 == c.r13 && d.r14 == c.r14 - 1 && d.mem
            == c.mem.update(c.r14 - 2, c.mem[c.r14 - 2].wrapping_sub(c.mem[c.r14 - 1]))),
        op == Op::Mul ==> (exec_seq(t_op(op, l, rel), c) matches Some(d) && d.r13 == c.r13 && d.r14 == c.r14 - 1 && d.mem
            == c.mem.update(c.r14 - 2, c.mem[c.r14 - 2].wrapping_mul(c.mem[c.r14 - 1]) >> 1)),
        op == Op::Lt ==> (exec_seq(t_op(op, l, rel), c) matches Some(d) && d.r13 == c.r13 && d.r14 == c.r14 - 1 && d.mem
            == c.mem.update(c.r14 - 2, if c.mem[c.r14 - 2] < c.mem[c.r14 - 1] { 2i64 } else { 0i64 })),
        op == Op::Le ==> (exec_seq(t_op(op, l, rel), c) matches Some(d) && d.r13 == c.r13 && d.r14 == c.r14 - 1 && d.mem
            == c.mem.update(c.r14 - 2, if c.mem[c.r14 - 2] <= c.mem[c.r14 - 1] { 2i64 } else { 0i64 })),
        op == Op::Gt ==> (exec_seq(t_op(op, l, rel), c) matches Some(d) && d.r13 == c.r13 && d.r14 == c.r14 - 1 && d.mem
            == c.mem.update(c.r14 - 2, if c.mem[c.r14 - 2] > c.mem[c.r14 - 1] { 2i64 } else { 0i64 })),
        op == Op::Ge ==> (exec_seq(t_op(op, l, rel), c) matches Some(d) && d.r13 == c.r13 && d.r14 == c.r14 - 1 && d.mem
            == c.mem.update(c.r14 - 2, if c.mem[c.r14 - 2] >= c.mem[c.r14 - 1] { 2i64 } else { 0i64 })),
        op == Op::Eq ==> (exec_seq(t_op(op, l, rel), c) matches Some(d) && d.r13 == c.r13 && d.r14 == c.r14 - 1 && d.mem
            == c.mem.update(c.r14 - 2, if c.mem[c.r14 - 2] == c.mem[c.r14 - 1] { 2i64 } else { 0i64 })),
        op == Op::Ne ==> (exec_seq(t_op(op, l, rel), c) matches Some(d) && d.r13 == c.r13 && d.r14 == c.r14 - 1 && d.mem
            == c.mem.update(c.r14 - 2, if c.mem[c.r14 - 2] != c.mem[c.r14 - 1] { 2i64 } else { 0i64 })),
{
    if op == Op::Add || op == Op::Sub {
        lemma_add_sub_template(op, l, rel, c);
    } else if op == Op::Mul {
        lemma_mul_template(l, rel, c);
    } else if op == Op::Lt || op == Op::Le || op == Op::Gt || op == Op::Ge || op == Op::Eq || op == Op::Ne {
        lemma_compare_template(op, l, rel, c);
    }
}

#[verifier::spinoff_prover]
proof fn lemma_add_sub_template(op: Op, l: SLinks, rel: i32, c: Cpu)
    requires
        2 <= c.r14 <= c.mem.len(),
        op == Op::Add || op == Op::Sub,
    ensures
        exec_seq(t_op(op, l, rel), c) matches Some(d) && d.r13 == c.r13 && d.r14 == c.r14 - 1 && d.mem == c.mem.update(
            c.r14 - 2,
            if op == Op::Add {
                c.mem[c.r14 - 2].wrapping_add(c.mem[c.r14 - 1])
            } else {
                c.mem[c.r14 - 2].wrapping_sub(c.mem[c.r14 - 1])
            },
        ),
{
    let p = popped2(c);
    let a = c.mem[c.r14 - 2];
    let b = c.mem[c.r14 - 1];
    let opc: u8 = if op == Op::Add { 0x01 } else { 0x29 };
    let core = enc_alu_rr(opc, Reg::Rax, Reg::Rcx);
    let v = if op == Op::Add { a.wrapping_add(b) } else { a.wrapping_sub(b) };
    lemma_i_alu(p);
    lemma_binop_frame(core, c, Cpu { rax: v, ..p });
    assert(t_op(op, l, rel) == t_pop_rcx() + t_pop_rax() + core + t_push_rax());
}

#[verifier::spinoff_prover]
proof fn lemma_mul_template(l: SLinks, rel: i32, c: Cpu)
    requires
        2 <= c.r14 <= c.mem.len(),
    ensures
        exec_seq(t_op(Op::Mul, l, rel), c) matches Some(d) && d.r13 == c.r13 && d.r14 == c.r14 - 1 && d.mem == c.mem.update(
            c.r14 - 2,
            c.mem[c.r14 - 2].wrapping_mul(c.mem[c.r14 - 1]) >> 1,
        ),
{
    let p = popped2(c);
    let a = c.mem[c.r14 - 2];
    let b = c.mem[c.r14 - 1];
    let im = enc_imul_reg_reg(Reg::Rax, Reg::Rcx);
    let sr = enc_d1(7, Reg::Rax);
    let p1 = Cpu { rax: a.wrapping_mul(b), ..p };
    lemma_i_unary(p);
    lemma_i_unary(p1);
    lemma_exec_then(im, sr, p, p1);
    lemma_binop_frame(im + sr, c, Cpu { rax: a.wrapping_mul(b) >> 1, ..p });
    assert(t_op(Op::Mul, l, rel) =~= t_pop_rcx() + t_pop_rax() + (im + sr) + t_push_rax());
}

/// The condition code that a comparison op's template tests.
spec fn cc_of(op: Op) -> u8 {
    match op {
        Op::Lt => CC_L,
        Op::Le => CC_LE,
        Op::Gt => CC_G,
        Op::Ge => CC_GE,
        Op::Eq => CC_E,
        _ => CC_NE,
    }
}

#[verifier::spinoff_prover]
proof fn lemma_compare_template(op: Op, l: SLinks, rel: i32, c: Cpu)
    requires
        2 <= c.r14 <= c.mem.len(),
        op == Op::Lt || op == Op::Le || op == Op::Gt || op == Op::Ge || op == Op::Eq || op == Op::Ne,
    ensures
        exec_seq(t_op(op, l, rel), c) matches Some(d) && d.r13 == c.r13 && d.r14 == c.r14 - 1 && d.mem == c.mem.update(
            c.r14 - 2,
            if cond(cc_of(op) as int, c.mem[c.r14 - 2], c.mem[c.r14 - 1]) == Some(true) {
                2i64
            } else {
                0i64
            },
        ),
{
    let p = popped2(c);
    let a = c.mem[c.r14 - 2];
    let b = c.mem[c.r14 - 1];
    let cc = cc_of(op);
    let cm = enc_alu_rr(0x39, Reg::Rax, Reg::Rcx);
    let tail = enc_setcc_al(cc) + seq![0x48u8, 0x0Fu8, 0xB6u8, 0xC0u8] + enc_d1(4, Reg::Rax);
    let p1 = Cpu { fa: a, fb: b, ..p };
    lemma_i_alu(p);
    lemma_flag_tail(cc, p1);
    let d = exec_seq(tail, p1)->Some_0;
    lemma_exec_then(cm, tail, p, p1);
    lemma_binop_frame(cm + tail, c, d);
    assert(t_op(op, l, rel) =~= t_pop_rcx() + t_pop_rax() + (cm + tail) + t_push_rax());
}

/// A tagged integer (an even raw value) is its untagged value shifted
/// left by one; the arithmetic shift right by one untags it.
proof fn lemma_untag(a: i64)
    requires
        a % 2 == 0,
    ensures
        a == 2 * (a >> 1),
        value::spec_fits_int((a >> 1) as int),
        (a >> 1).wrapping_shl(1) == a,
{
    vstd::arithmetic::div_mod::lemma_fundamental_div_mod(a as int, 2);
    let k = (a / 2) as i64;
    assert(a == 2 * k);
    assert(-0x4000_0000_0000_0000 <= k <= 0x3fff_ffff_ffff_ffff);
    assert(-0x4000_0000_0000_0000 <= k <= 0x3fff_ffff_ffff_ffff ==> (k << 1u32) == 2 * k && ((k << 1u32) >> 1u32)
        == k) by (bit_vector);
    assert(a == (k << 1u32));
    assert((a >> 1u32) == k);
    assert(k.wrapping_shl(1) == k << 1u32);
}

/// Truncating division of integers of the i63 range by a non-zero divisor
/// neither overflows nor leaves a remainder out of range.
proof fn lemma_div_in_range(x: i64, y: i64)
    requires
        value::spec_fits_int(x as int),
        y != 0,
    ensures
        x.checked_div(y) is Some,
        x.checked_rem(y) is Some,
{
    let ax: int = if x < 0 { -x } else { x as int };
    let ad: int = if y < 0 { -y } else { y as int };
    vstd::arithmetic::div_mod::lemma_div_is_ordered_by_denominator(ax, 1, ad);
    vstd::arithmetic::div_mod::lemma_div_pos_is_pos(ax, ad);
    vstd::arithmetic::div_mod::lemma_mod_bound(ax, ad);
    assert(ax / 1 == ax);
    if x < 0 && y < 0 {
        assert((x * -1) / (y * -1) == ax / ad);
        assert((x * -1) % (y * -1) == ax % ad);
    } else if x < 0 && y > 0 {
        assert((x * -1) / (y as int) == ax / ad);
        assert((x * -1) % (y as int) == ax % ad);
    } else if x > 0 && y < 0 {
        assert((x as int) / (y * -1) == ax / ad);
        assert((x as int) % (y * -1) == ax % ad);
    }
}

/// Tagged division and remainder, where the divisor is not zero: `Div`
/// replaces the operands by the tagged quotient, `Mod` by the remainder,
/// as the interpreter does.
pub proof fn lemma_jit_divmod(op: Op, l: SLinks, rel: i32, c: Cpu)
    requires
        2 <= c.r14 <= c.mem.len(),
        op == Op::Div || op == Op::Mod,
        c.mem[c.r14 - 2] % 2 == 0,
        c.mem[c.r14 - 1] % 2 == 0,
        c.mem[c.r14 - 1] != 0,
    ensures
        op == Op::Div ==> (exec_seq(t_op(op, l, rel), c) matches Some(d) && d.r13 == c.r13 && d.r14 == c.r14 - 1 && d.mem
            == c.mem.update(c.r14 - 2, wdiv(c.mem[c.r14 - 2], c.mem[c.r14 - 1]).wrapping_shl(1))),
        op == Op::Mod ==> (exec_seq(t_op(op, l, rel), c) matches Some(d) && d.r13 == c.r13 && d.r14 == c.r14 - 1 && d.mem
            == c.mem.update(c.r14 - 2, wrem(c.mem[c.r14 - 2], c.mem[c.r14 - 1]))),
{
    let a = c.mem[c.r14 - 2];
    let b = c.mem[c.r14 - 1];
    lemma_untag(a);
    lemma_untag(b);
    let x = a >> 1;
    let y = b >> 1;
    lemma_tagged_div_mod(x, y);
    lemma_div_in_range(x, y);
    let q = x.checked_div(y)->Some_0;
    let r = x.checked_rem(y)->Some_0;
    let p = popped2(c);
    lemma_pop2(c);
    lemma_i_guard(l, p);
    let p1 = Cpu { fa: b, fb: 0, ..p };
    let p2 = Cpu { rax: x, ..p1 };
    let p3 = Cpu { rcx: y, ..p2 };
    let p4 = Cpu { rdx: if x < 0 { -1i64 } else { 0i64 }, ..p3 };
    let p5 = Cpu { rax: q, rdx: r, ..p4 };
    lemma_i_unary(p1);
    lemma_i_unary(p2);
    lemma_i_unary(p3);
    lemma_i_idiv(p4);
    let g = t_divzero_guard(l);
    let sa = enc_d1(7, Reg::Rax);
    let sc = enc_d1(7, Reg::Rcx);
    let cq = seq![0x48u8, 0x99u8];
    let dv = enc_f7(7, Reg::Rcx);
    let pp = t_pop_rcx() + t_pop_rax();
    lemma_exec_then(pp, g, c, p);
    lemma_exec_then(pp + g, sa, c, p1);
    lemma_exec_then(pp + g + sa, sc, c, p2);
    lemma_exec_then(pp + g + sa + sc, cq, c, p3);
    lemma_exec_then(pp + g + sa + sc + cq, dv, c, p4);
    assert(t_divide(l) =~= pp + g + sa + sc + cq + dv);
    let sh = enc_d1(4, Reg::Rax);
    if op == Op::Div {
        let p6 = Cpu { rax: q.wrapping_shl(1), ..p5 };
        lemma_i_unary(p5);
        lemma_exec_then(t_divide(l), sh, c, p5);
        lemma_push(p6);
        lemma_exec_then(t_divide(l) + sh, t_push_rax(), c, p6);
    } else {
        let mv = enc_mov_reg_reg(Reg::Rax, Reg::Rdx);
        let p6 = Cpu { rax: r, ..p5 };
        let p7 = Cpu { rax: r.wrapping_shl(1), ..p5 };
        lemma_i_alu(p5);
        lemma_i_unary(p6);
        lemma_exec_then(t_divide(l), mv, c, p5);
        lemma_exec_then(t_divide(l) + mv, sh, c, p6);
        lemma_push(p7);
        lemma_exec_then(t_divide(l) + mv + sh, t_push_rax(), c, p7);
    }
}

/// The machine code of the ops that move values: `Const(n)` pushes `n`,
/// `Str(id)` pushes the address of literal `id` with the pointer tag set,
/// `Pop` drops the top entry, `LoadLocal(s)` and `LoadArg(s)` push slot
/// `s` of the frame (the entry `s` above `r13`), and `StoreLocal(s)` pops
/// the top entry into slot `s`.
pub proof fn lemma_jit_data_ops(op: Op, l: SLinks, rel: i32, c: Cpu)
    requires
        0 <= c.r14 <= c.mem.len(),
    ensures
        op is Const && c.r14 < c.mem.len() ==> (exec_seq(t_op(op, l, rel), c) matches Some(d)
            && d.r13 == c.r13 && d.r14 == c.r14 + 1 && d.mem == c.mem.update(c.r14, op->Const_0)),
        op is Str && c.r14 < c.mem.len() ==> (exec_seq(t_op(op, l, rel), c) matches Some(d) && d.r13
            == c.r13 && d.r14 == c.r14 + 1 && d.mem == c.mem.update(c.r14, l.literals[op->Str_0 as int] | 1)),
        op is Pop && c.r14 >= 1 ==> (exec_seq(t_op(op, l, rel), c) matches Some(d) && d.r13 == c.r13 && d.r14 == c.r14 - 1
            && d.mem == c.mem),
        op is LoadLocal && c.r14 < c.mem.len() && 0 <= c.r13 + op->LoadLocal_0 < c.mem.len() ==> (exec_seq(
            t_op(op, l, rel),
            c,
        ) matches Some(d) && d.r13 == c.r13 && d.r14 == c.r14 + 1 && d.mem == c.mem.update(c.r14, c.mem[c.r13 + op->LoadLocal_0])),
        op is LoadArg && c.r14 < c.mem.len() && 0 <= c.r13 + op->LoadArg_0 < c.mem.len() ==> (exec_seq(
            t_op(op, l, rel),
            c,
        ) matches Some(d) && d.r13 == c.r13 && d.r14 == c.r14 + 1 && d.mem == c.mem.update(c.r14, c.mem[c.r13 + op->LoadArg_0])),
        op is StoreLocal && c.r14 >= 1 && 0 <= c.r13 + op->StoreLocal_0 < c.mem.len() ==> (exec_seq(
            t_op(op, l, rel),
            c,
        ) matches Some(d) && d.r13 == c.r13 && d.r14 == c.r14 - 1 && d.mem == c.mem.update(
            c.r13 + op->StoreLocal_0,
            c.mem[c.r14 - 1],
        )),
{
    match op {
        Op::Const(n) => {
            if c.r14 < c.mem.len() {
                let c1 = Cpu { rax: n, ..c };
                lemma_i_imm(n, c);
                lemma_push(c1);
                lemma_exec_then(enc_mov_reg_imm64(Reg::Rax, n), t_push_rax(), c, c1);
            }
        },
        Op::Str(id) => {
            if c.r14 < c.mem.len() {
                let v = l.literals[id as int] | 1;
                let c1 = Cpu { rax: v, ..c };
                lemma_i_imm(v, c);
                lemma_push(c1);
                lemma_exec_then(enc_mov_reg_imm64(Reg::Rax, v), t_push_rax(), c, c1);
            }
        },
        Op::Pop => {
            lemma_i_r14(c);
        },
        Op::LoadLocal(k) => {
            if c.r14 < c.mem.len() && 0 <= c.r13 + k < c.mem.len() {
                let c1 = Cpu { rax: c.mem[c.r13 + k], ..c };
                lemma_i_local(k, c);
                lemma_push(c1);
                lemma_exec_then(t_local(0x8B, k), t_push_rax(), c, c1);
            }
        },
        Op::LoadArg(a) => {
            if c.r14 < c.mem.len() && 0 <= c.r13 + a < c.mem.len() {
                let k = a as u16;
                assert(k == a);
                let c1 = Cpu { rax: c.mem[c.r13 + k], ..c };
                lemma_i_local(k, c);
                lemma_push(c1);
                lemma_exec_then(t_local(0x8B, k), t_push_rax(), c, c1);
            }
        },
        Op::StoreLocal(k) => {
            if c.r14 >= 1 && 0 <= c.r13 + k < c.mem.len() {
                let c1 = Cpu { rax: c.mem[c.r14 - 1], r14: c.r14 - 1, ..c };
                lemma_pop1(c);
                lemma_i_local(k, c1);
                lemma_exec_then(t_pop_rax(), t_local(0x89, k), c, c1);
            }
        },
        _ => {},
    }
}

/// The machine code of the jumps: `Jump` always moves over its own five
/// bytes and the displacement `rel`; `JumpIfFalse` pops the top entry
/// (its first ten bytes), then moves over its last six bytes and also
/// `rel` exactly when the popped value is 0, as the interpreter jumps
/// exactly on the integer 0.
pub proof fn lemma_jit_jumps(op: Op, l: SLinks, rel: i32, c: Cpu)
    requires
        1 <= c.r14 <= c.mem.len(),
    ensures
        op is Jump ==> exec1(t_op(op, l, rel), c) == Some((c, 5 + rel)),
        op is JumpIfFalse ==> ({
            let a = c.mem[c.r14 - 1];
            let c1 = Cpu { rax: a, r14: c.r14 - 1, fa: a, fb: 0, ..c };
            &&& t_op(op, l, rel).len() == 16
            &&& exec_seq(t_op(op, l, rel).take(10), c) == Some(c1)
            &&& exec1(t_op(op, l, rel).skip(10), c1) == Some((c1, if a == 0 { 6 + rel } else { 6int }))
        }),
{
    let e = seq![0u8, 0u8, 0u8, 0u8] + le32(rel);
    lemma_read_back(rel, 0);
    if op is Jump {
        let j = t_op(op, l, rel);
        assert(forall|k: int| 1 <= k < 5 ==> j[k] == e[k + 3]);
        assert(rd32(j, 1) == rd32(e, 4));
        reveal(exec1);
    } else if op is JumpIfFalse {
        let a = c.mem[c.r14 - 1];
        let c0 = Cpu { rax: a, r14: c.r14 - 1, ..c };
        let c1 = Cpu { rax: a, r14: c.r14 - 1, fa: a, fb: 0, ..c };
        let ts = enc_alu_rr(0x85, Reg::Rax, Reg::Rax);
        let j = seq![0x0Fu8, 0x84u8] + le32(rel);
        let t = t_op(op, l, rel);
        assert(t =~= t_pop_rax() + ts + j);
        assert(t.take(10) =~= t_pop_rax() + ts);
        assert(t.skip(10) =~= j);
        assert(a & a == a) by (bit_vector);
        lemma_pop1(c);
        lemma_i_alu(c0);
        lemma_exec_then(t_pop_rax(), ts, c, c0);
        assert(forall|k: int| 2 <= k < 6 ==> j[k] == e[k + 2]);
        assert(rd32(j, 2) == rd32(e, 4));
        reveal(exec1);
    }
}

/// The machine code of `Neg` and `Not` computes what the op means: on a
/// value stack whose top entry is `a`, `Neg` replaces it by its wrapping
/// negation and `Not` by tagged 1 (2) when `a` is 0 and 0 otherwise, the
/// values that the interpreter's step pushes.
pub proof fn lemma_jit_unop(op: Op, l: SLinks, rel: i32, c: Cpu)
    requires
        1 <= c.r14 <= c.mem.len(),
    ensures
        op == Op::Neg ==> (exec_seq(t_op(op, l, rel), c) matches Some(d) && d.r13 == c.r13 && d.r14 == c.r14 && d.mem
            == c.mem.update(c.r14 - 1, 0i64.wrapping_sub(c.mem[c.r14 - 1]))),
        op == Op::Not ==> (exec_seq(t_op(op, l, rel), c) matches Some(d) && d.r13 == c.r13 && d.r14 == c.r14 && d.mem
            == c.mem.update(c.r14 - 1, if c.mem[c.r14 - 1] == 0 { 2i64 } else { 0i64 })),
{
    let a = c.mem[c.r14 - 1];
    let p = Cpu { rax: a, r14: c.r14 - 1, ..c };
    lemma_pop1(c);
    if op == Op::Neg {
        let ng = enc_f7(3, Reg::Rax);
        let p1 = Cpu { rax: 0i64.wrapping_sub(a), ..p };
        lemma_i_unary(p);
        lemma_exec_then(t_pop_rax(), ng, c, p);
        lemma_push(p1);
        lemma_exec_then(t_pop_rax() + ng, t_push_rax(), c, p1);
    } else if op == Op::Not {
        let ts = enc_alu_rr(0x85, Reg::Rax, Reg::Rax);
        let tail = enc_setcc_al(CC_E) + seq![0x48u8, 0x0Fu8, 0xB6u8, 0xC0u8] + enc_d1(4, Reg::Rax);
        assert(a & a == a) by (bit_vector);
        let p1 = Cpu { fa: a, fb: 0, ..p };
        lemma_i_alu(p);
        lemma_flag_tail(CC_E, p1);
        let d = exec_seq(tail, p1)->Some_0;
        lemma_exec_then(ts, tail, p, p1);
        lemma_exec_then(t_pop_rax(), ts + tail, c, p);
        lemma_push(d);
        lemma_exec_then(t_pop_rax() + (ts + tail), t_push_rax(), c, d);
        assert(t_op(op, l, rel) =~= t_pop_rax() + (ts + tail) + t_push_rax());
    }
}

/// The emitted code's frame holds the interpreter's frame `f`: its slots
/// from entry `r13` on, then its value stack up to `r14`, each integer by
/// its raw value. (A string is a pointer into the heap there, which this
/// relation leaves open.)
pub open spec fn holds_frame(c: Cpu, f: AFrame) -> bool {
    &&& 0 <= c.r13
    &&& c.r14 == c.r13 + f.slots.len() + f.stack.len() <= c.mem.len()
    &&& forall|k: int| 0 <= k < f.slots.len() && (#[trigger] f.slots[k]) is Int ==> f.slots[k] == AVal::Int(c.mem[c.r13 + k])
    &&& forall|k: int| 0 <= k < f.stack.len() && (#[trigger] f.stack[k]) is Int ==> f.stack[k] == AVal::Int(
        c.mem[c.r13 + f.slots.len() + k],
    )
}

/// What the emitted code of an op asks of the frame to do what the
/// interpreter does: room for a pushed value, the slot it names, and
/// operands that are integers (tagged integers, and a non-zero divisor,
/// for `Div` and `Mod`). The templates assume integer operands and do no
/// tag dispatch, so on strings they differ from the interpreter.
pub open spec fn jit_operands_ok(op: Op, f: AFrame, c: Cpu) -> bool {
    let st = f.stack;
    let n = st.len();
    match op {
        Op::Const(_) => c.r14 < c.mem.len(),
        Op::Pop => n >= 1,
        Op::LoadLocal(k) => k < f.slots.len() && c.r14 < c.mem.len(),
        Op::LoadArg(k) => k < f.slots.len() && c.r14 < c.mem.len(),
        Op::StoreLocal(k) => k < f.slots.len() && n >= 1,
        Op::Add | Op::Sub | Op::Mul | Op::Lt | Op::Le | Op::Gt | Op::Ge | Op::Eq | Op::Ne => n >= 2 && st[n - 2] is Int
            && st[n - 1] is Int,
        Op::Div | Op::Mod => n >= 2 && (st[n - 2] matches AVal::Int(a) && a % 2 == 0) && (st[n
            - 1] matches AVal::Int(b) && b % 2 == 0 && b != 0),
        Op::Neg | Op::Not => n >= 1 && st[n - 1] is Int,
        _ => false,
    }
}

/// The emitted code of each value-moving, arithmetic, comparison, `Neg`
/// and `Not` op does what the interpreter's step does: from a frame that
/// holds the interpreter's innermost frame, it leaves a frame that holds
/// the one the interpreter's step leaves.
pub proof fn lemma_jit_simulates_step(p: SProgram, s: AState, l: SLinks, rel: i32, c: Cpu)
    requires
        s.frames.len() > 0,
        0 <= top(s).fid < p.fns.len(),
        0 <= top(s).pc < p.fns[top(s).fid].code.len(),
        holds_frame(c, top(s)),
        jit_operands_ok(op_at(p, s), top(s), c),
    ensures
        spec_step(p, s) matches Outcome::Go(s2) && s2.frames.len() == s.frames.len() && top(s2).pc == top(s).pc
            + 1 && (exec_seq(t_op(op_at(p, s), l, rel), c) matches Some(d) && holds_frame(d, top(s2))),
{
    let op = op_at(p, s);
    if op is Const || op is Pop || op is LoadLocal || op is LoadArg || op is StoreLocal {
        lemma_sim_data(p, s, l, rel, c);
    } else if op is Neg || op is Not {
        lemma_sim_unary(p, s, l, rel, c);
    } else {
        lemma_sim_binary(p, s, l, rel, c);
    }
}

#[verifier::spinoff_prover]
proof fn lemma_sim_unary(p: SProgram, s: AState, l: SLinks, rel: i32, c: Cpu)
    requires
        s.frames.len() > 0,
        0 <= top(s).fid < p.fns.len(),
        0 <= top(s).pc < p.fns[top(s).fid].code.len(),
        holds_frame(c, top(s)),
        jit_operands_ok(op_at(p, s), top(s), c),
        op_at(p, s) is Neg || op_at(p, s) is Not,
    ensures
        spec_step(p, s) matches Outcome::Go(s2) && s2.frames.len() == s.frames.len() && top(s2).pc == top(s).pc
            + 1 && (exec_seq(t_op(op_at(p, s), l, rel), c) matches Some(d) && holds_frame(d, top(s2))),
{
    let op = op_at(p, s);
    let f = top(s);
    let st = f.stack;
    let n = st.len() as int;
    let base = c.r13 + f.slots.len();
    let a = c.mem[base + n - 1];
    let rest = st.drop_last();
    assert(st[n - 1] == AVal::Int(c.mem[base + (n - 1)]));
    assert(st =~= rest.push(AVal::Int(a)));
    lemma_step_int_unop(p, s, a, rest);
    lemma_jit_unop(op, l, rel, c);
    let v = if op is Neg { 0i64.wrapping_sub(a) } else if a == 0 { 2i64 } else { 0i64 };
    let st2 = rest.push(AVal::Int(v));
    let d = exec_seq(t_op(op, l, rel), c)->Some_0;
    assert(d.mem == c.mem.update(base + n - 1, v));
    assert forall|k: int| 0 <= k < st2.len() && (#[trigger] st2[k]) is Int implies st2[k] == AVal::Int(
        d.mem[d.r13 + f.slots.len() + k],
    ) by {
        if k < n - 1 {
            assert(st[k] == st2[k]);
        }
    }
    assert forall|k: int| 0 <= k < f.slots.len() && (#[trigger] f.slots[k]) is Int implies f.slots[k] == AVal::Int(
        d.mem[d.r13 + k],
    ) by {
        assert(c.r13 + k < base + n - 1);
    }
}

#[verifier::spinoff_prover]
proof fn lemma_sim_binary(p: SProgram, s: AState, l: SLinks, rel: i32, c: Cpu)
    requires
        s.frames.len() > 0,
        0 <= top(s).fid < p.fns.len(),
        0 <= top(s).pc < p.fns[top(s).fid].code.len(),
        holds_frame(c, top(s)),
        jit_operands_ok(op_at(p, s), top(s), c),
        !(op_at(p, s) is Neg || op_at(p, s) is Not || op_at(p, s) is Const || op_at(p, s) is Pop || op_at(
            p,
            s,
        ) is LoadLocal || op_at(p, s) is LoadArg || op_at(p, s) is StoreLocal),
    ensures
        spec_step(p, s) matches Outcome::Go(s2) && s2.frames.len() == s.frames.len() && top(s2).pc == top(s).pc
            + 1 && (exec_seq(t_op(op_at(p, s), l, rel), c) matches Some(d) && holds_frame(d, top(s2))),
{
    let op = op_at(p, s);
    let f = top(s);
    let st = f.stack;
    let n = st.len() as int;
    let base = c.r13 + f.slots.len();
    let a = c.mem[base + n - 2];
    let b = c.mem[base + n - 1];
    let rest = st.drop_last().drop_last();
    assert(st[n - 1] == AVal::Int(c.mem[base + (n - 1)]));
    assert(st[n - 2] == AVal::Int(c.mem[base + (n - 2)]));
    assert(st =~= rest.push(AVal::Int(a)).push(AVal::Int(b)));
    lemma_step_int_binop(p, s, a, b, rest);
    if op is Div || op is Mod {
        lemma_jit_divmod(op, l, rel, c);
    } else {
        lemma_jit_binop(op, l, rel, c);
    }
    let v = match op {
        Op::Add => a.wrapping_add(b),
        Op::Sub => a.wrapping_sub(b),
        Op::Mul => a.wrapping_mul(b) >> 1,
        Op::Div => wdiv(a, b).wrapping_shl(1),
        Op::Mod => wrem(a, b),
        Op::Lt => if a < b { 2i64 } else { 0i64 },
        Op::Le => if a <= b { 2i64 } else { 0i64 },
        Op::Gt => if a > b { 2i64 } else { 0i64 },
        Op::Ge => if a >= b { 2i64 } else { 0i64 },
        Op::Eq => if a == b { 2i64 } else { 0i64 },
        _ => if a != b { 2i64 } else { 0i64 },
    };
    let st2 = rest.push(AVal::Int(v));
    let d = exec_seq(t_op(op, l, rel), c)->Some_0;
    assert(d.mem == c.mem.update(base + n - 2, v));
    assert forall|k: int| 0 <= k < st2.len() && (#[trigger] st2[k]) is Int implies st2[k] == AVal::Int(
        d.mem[d.r13 + f.slots.len() + k],
    ) by {
        if k < n - 2 {
            assert(st[k] == st2[k]);
        }
    }
    assert forall|k: int| 0 <= k < f.slots.len() && (#[trigger] f.slots[k]) is Int implies f.slots[k] == AVal::Int(
        d.mem[d.r13 + k],
    ) by {
        assert(c.r13 + k < base + n - 2);
    }
}

#[verifier::spinoff_prover]
proof fn lemma_sim_data(p: SProgram, s: AState, l: SLinks, rel: i32, c: Cpu)
    requires
        s.frames.len() > 0,
        0 <= top(s).fid < p.fns.len(),
        0 <= top(s).pc < p.fns[top(s).fid].code.len(),
        holds_frame(c, top(s)),
        jit_operands_ok(op_at(p, s), top(s), c),
        op_at(p, s) is Const || op_at(p, s) is Pop || op_at(p, s) is LoadLocal || op_at(p, s) is LoadArg || op_at(
            p,
            s,
        ) is StoreLocal,
    ensures
        spec_step(p, s) matches Outcome::Go(s2) && s2.frames.len() == s.frames.len() && top(s2).pc == top(s).pc
            + 1 && (exec_seq(t_op(op_at(p, s), l, rel), c) matches Some(d) && holds_frame(d, top(s2))),
{
    let op = op_at(p, s);
    let f = top(s);
    let st = f.stack;
    let n = st.len() as int;
    let ns = f.slots.len() as int;
    let base = c.r13 + ns;
    lemma_jit_data_ops(op, l, rel, c);
    let d = exec_seq(t_op(op, l, rel), c)->Some_0;
    match spec_step(p, s) {
        Outcome::Go(s2) => {
            let f2 = top(s2);
            assert forall|k: int| 0 <= k < f2.slots.len() && (#[trigger] f2.slots[k]) is Int implies f2.slots[k]
                == AVal::Int(d.mem[d.r13 + k]) by {
                if op is StoreLocal && k == op->StoreLocal_0 {
                    assert(st[n - 1] == f2.slots[k]);
                    assert(st[n - 1] == AVal::Int(c.mem[base + (n - 1)]));
                } else {
                    assert(f.slots[k] == f2.slots[k]);
                }
            }
            assert forall|k: int| 0 <= k < f2.stack.len() && (#[trigger] f2.stack[k]) is Int implies f2.stack[k]
                == AVal::Int(d.mem[d.r13 + f2.slots.len() + k]) by {
                if k < n {
                    assert(st[k] == f2.stack[k]);
                } else if op is LoadLocal || op is LoadArg {
                    let j: int = if op is LoadLocal { op->LoadLocal_0 as int } else { op->LoadArg_0 as int };
                    assert(f2.stack[k] == f.slots[j]);
                }
            }
        },
        _ => {},
    }
}

} // verus!
