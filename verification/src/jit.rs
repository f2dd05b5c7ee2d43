//! x86-64 template code generation. Each function becomes one blob of
//! machine code; the blobs are laid end to end.
//!
//! The value stack is an array of i64: r15 holds its base, r14 the index of
//! the first free entry, r13 the index of the current frame's first slot.
//! Values are tagged (see `value`), and arithmetic stays in tagged form:
//!
//! - add/sub: `(i<<1) + (j<<1) = (i+j)<<1`, a plain add or sub;
//! - mul: `(i<<1) * (j<<1) = (i*j)<<2`, then `sar rax, 1`;
//! - div/mod: untag both operands, `idiv`, re-tag with `shl rax, 1`;
//! - comparisons: `setcc` gives 0 or 1, `shl rax, 1` tags it.
//!
//! These templates assume both operands are integers; there is no tag
//! dispatch except in `Print`.
//!
//! Code generation runs in two passes: the first lays out every function
//! and op (the size of each template is fixed), the second emits the bytes
//! with every jump and call displacement already known. Running the code
//! (mapping it executable, calling into it) happens outside this library;
//! it hands in the addresses of the runtime helpers and of the literals.

use crate::heap::{fnv1a, le_u32, obj_at, obj_size, round_up_8, spec_fnv1a, MAX_USED};
use crate::interp::{check_program, fn_ok, lemma_pool_size_mono, op_ok, pool_size, wf_program};
use crate::ast::names_v;
use crate::ir::{Function, Op, Program, SFunction, SProgram};
use crate::text::lit;
use crate::x86::{
    add_reg_reg, and_reg_imm8, call_reg, cqo, enc_alu_rr, enc_and_imm8, enc_call_reg,
    enc_d1, enc_f7, enc_imul_reg_reg, enc_mov_r32_mem, enc_mov_reg_imm64, enc_mov_reg_reg,
    enc_pop_reg, enc_push_reg, enc_setcc_al, idiv_reg, imul_reg_reg, jcc_rel32, jmp_rel32, le32,
    mov_r32_from_mem_reg, mov_reg_imm64, mov_reg_reg, movzx_rax_al, neg_reg, pop_reg, push_le32,
    push_reg, rel32_to, ret, sar_reg_1, setcc_al, shl_reg_1, sub_reg_reg, test_reg_imm32,
    test_reg_reg, call_rel32, Reg, CC_E, CC_G, CC_GE, CC_L, CC_LE, CC_NE,
};
use crate::{Error, Result};
use vstd::prelude::*;
use vstd::utf8::*;

verus! {

/// The addresses the emitted code calls into or loads: the runtime helpers
/// and, for each literal of the string pool, the address of its header.
pub struct JitLinks {
    pub div_by_zero: i64,
    pub print_int: i64,
    pub print_str: i64,
    pub literals: Vec<i64>,
}

/// Mathematical form of `JitLinks`.
pub struct SLinks {
    pub div_by_zero: i64,
    pub print_int: i64,
    pub print_str: i64,
    pub literals: Seq<i64>,
}

impl View for JitLinks {
    type V = SLinks;

    open spec fn view(&self) -> SLinks {
        SLinks {
            div_by_zero: self.div_by_zero,
            print_int: self.print_int,
            print_str: self.print_str,
            literals: self.literals@,
        }
    }
}

// ---------------------------------------------------------------------
// Templates.

/// `mov [r15 + r14*8], rax`.
pub open spec fn t_store_top() -> Seq<u8> {
    seq![0x4Bu8, 0x89u8, 0x04u8, 0xF7u8]
}

/// `mov rax, [r15 + r14*8]`.
pub open spec fn t_load_rax_top() -> Seq<u8> {
    seq![0x4Bu8, 0x8Bu8, 0x04u8, 0xF7u8]
}

/// `mov rcx, [r15 + r14*8]`.
pub open spec fn t_load_rcx_top() -> Seq<u8> {
    seq![0x4Bu8, 0x8Bu8, 0x0Cu8, 0xF7u8]
}

/// `inc r14`.
pub open spec fn t_inc_r14() -> Seq<u8> {
    seq![0x49u8, 0xFFu8, 0xC6u8]
}

/// `dec r14`.
pub open spec fn t_dec_r14() -> Seq<u8> {
    seq![0x49u8, 0xFFu8, 0xCEu8]
}

/// Push rax on the value stack.
pub open spec fn t_push_rax() -> Seq<u8> {
    t_store_top() + t_inc_r14()
}

/// Pop the value stack into rax.
pub open spec fn t_pop_rax() -> Seq<u8> {
    t_dec_r14() + t_load_rax_top()
}

/// Pop the value stack into rcx.
pub open spec fn t_pop_rcx() -> Seq<u8> {
    t_dec_r14() + t_load_rcx_top()
}

/// `mov rax, [r15 + r13*8 + slot*8]` (opcode 8B) or the store (opcode 89).
pub open spec fn t_local(opcode: u8, slot: u16) -> Seq<u8> {
    seq![0x4Bu8, opcode, 0x84u8, 0xEFu8] + le32((slot * 8) as i32)
}

/// `mov r13, r14`.
pub open spec fn t_mov_r13_r14() -> Seq<u8> {
    seq![0x4Du8, 0x89u8, 0xF5u8]
}

/// `mov r14, r13`.
pub open spec fn t_mov_r14_r13() -> Seq<u8> {
    seq![0x4Du8, 0x89u8, 0xEEu8]
}

/// Call a runtime helper: `mov rax, addr; call rax`.
pub open spec fn t_call_helper(addr: i64) -> Seq<u8> {
    enc_mov_reg_imm64(Reg::Rax, addr) + enc_call_reg(Reg::Rax)
}

/// What the zero-divisor guard skips when rcx is not zero.
pub open spec fn t_guard_body(l: SLinks) -> Seq<u8> {
    enc_push_reg(Reg::Rdi) + t_call_helper(l.div_by_zero) + enc_pop_reg(Reg::Rdi)
}

/// `test rcx, rcx; jne skip; <call the division-by-zero helper>; skip:`.
pub open spec fn t_divzero_guard(l: SLinks) -> Seq<u8> {
    enc_alu_rr(0x85, Reg::Rcx, Reg::Rcx) + seq![0x0Fu8, 0x85u8] + le32(
        t_guard_body(l).len() as i32,
    ) + t_guard_body(l)
}

/// Save the registers a Rust helper may clobber (and keep rsp aligned).
pub open spec fn t_save() -> Seq<u8> {
    enc_push_reg(Reg::R13) + enc_push_reg(Reg::R14) + enc_push_reg(Reg::R15) + enc_push_reg(Reg::Rdi)
}

pub open spec fn t_restore() -> Seq<u8> {
    enc_pop_reg(Reg::Rdi) + enc_pop_reg(Reg::R15) + enc_pop_reg(Reg::R14) + enc_pop_reg(Reg::R13)
}

/// The string branch of `Print`: untag the pointer, call the helper.
pub open spec fn t_print_str(l: SLinks) -> Seq<u8> {
    enc_mov_reg_reg(Reg::Rdi, Reg::Rax) + enc_and_imm8(Reg::Rdi, -2i8) + t_save() + t_call_helper(
        l.print_str,
    ) + t_restore()
}

/// The integer branch of `Print`.
pub open spec fn t_print_int(l: SLinks) -> Seq<u8> {
    enc_mov_reg_reg(Reg::Rdi, Reg::Rax) + t_save() + t_call_helper(l.print_int) + t_restore()
}

/// `Print`: branch on the tag bit to the string or the integer helper.
pub open spec fn t_print(l: SLinks) -> Seq<u8> {
    t_pop_rax() + enc_f7(0, Reg::Rax) + le32(1) + seq![0x0Fu8, 0x84u8] + le32(
        (t_print_str(l).len() + 5) as i32,
    ) + t_print_str(l) + seq![0xE9u8] + le32(t_print_int(l).len() as i32) + t_print_int(l)
}

/// Pop two values, `setcc`, tag, push.
pub open spec fn t_compare(cc: u8) -> Seq<u8> {
    t_pop_rcx() + t_pop_rax() + enc_alu_rr(0x39, Reg::Rax, Reg::Rcx) + enc_setcc_al(cc) + seq![
        0x48u8,
        0x0Fu8,
        0xB6u8,
        0xC0u8,
    ] + enc_d1(4, Reg::Rax) + t_push_rax()
}

/// Untag both operands and divide rdx:rax by rcx.
pub open spec fn t_divide(l: SLinks) -> Seq<u8> {
    t_pop_rcx() + t_pop_rax() + t_divzero_guard(l) + enc_d1(7, Reg::Rax) + enc_d1(7, Reg::Rcx) + seq![
        0x48u8,
        0x99u8,
    ] + enc_f7(7, Reg::Rcx)
}

/// The position, within an op's template, of its rel32.
pub open spec fn rel_pos(op: Op) -> int {
    match op {
        Op::Jump(_) => 1,
        Op::JumpIfFalse(_) => 12,
        Op::Call(_, _) => 4,
        _ => 0,
    }
}

/// The machine code of one op. `rel` is the displacement of its jump or
/// call, relative to the end of the rel32.
pub open spec fn t_op(op: Op, l: SLinks, rel: i32) -> Seq<u8> {
    match op {
        Op::Const(n) => enc_mov_reg_imm64(Reg::Rax, n) + t_push_rax(),
        Op::Pop => t_dec_r14(),
        Op::LoadLocal(s) => t_local(0x8B, s) + t_push_rax(),
        Op::LoadArg(a) => t_local(0x8B, a as u16) + t_push_rax(),
        Op::StoreLocal(s) => t_pop_rax() + t_local(0x89, s),
        Op::Add => t_pop_rcx() + t_pop_rax() + enc_alu_rr(0x01, Reg::Rax, Reg::Rcx) + t_push_rax(),
        Op::Sub => t_pop_rcx() + t_pop_rax() + enc_alu_rr(0x29, Reg::Rax, Reg::Rcx) + t_push_rax(),
        Op::Mul => t_pop_rcx() + t_pop_rax() + enc_imul_reg_reg(Reg::Rax, Reg::Rcx) + enc_d1(
            7,
            Reg::Rax,
        ) + t_push_rax(),
        Op::Div => t_divide(l) + enc_d1(4, Reg::Rax) + t_push_rax(),
        Op::Mod => t_divide(l) + enc_mov_reg_reg(Reg::Rax, Reg::Rdx) + enc_d1(4, Reg::Rax)
            + t_push_rax(),
        Op::Neg => t_pop_rax() + enc_f7(3, Reg::Rax) + t_push_rax(),
        Op::Not => t_pop_rax() + enc_alu_rr(0x85, Reg::Rax, Reg::Rax) + enc_setcc_al(CC_E) + seq![
            0x48u8,
            0x0Fu8,
            0xB6u8,
            0xC0u8,
        ] + enc_d1(4, Reg::Rax) + t_push_rax(),
        Op::Lt => t_compare(CC_L),
        Op::Le => t_compare(CC_LE),
        Op::Gt => t_compare(CC_G),
        Op::Ge => t_compare(CC_GE),
        Op::Eq => t_compare(CC_E),
        Op::Ne => t_compare(CC_NE),
        Op::Jump(_) => seq![0xE9u8] + le32(rel),
        Op::JumpIfFalse(_) => t_pop_rax() + enc_alu_rr(0x85, Reg::Rax, Reg::Rax) + seq![0x0Fu8, 0x84u8]
            + le32(rel),
        Op::Call(_, _) => enc_push_reg(Reg::R13) + enc_push_reg(Reg::Rdi) + seq![0xE8u8] + le32(rel)
            + enc_pop_reg(Reg::Rdi) + enc_pop_reg(Reg::R13),
        Op::Ret => t_pop_rax() + t_mov_r14_r13() + t_push_rax() + enc_mov_reg_reg(Reg::Rsp, Reg::Rbp)
            + enc_pop_reg(Reg::Rbp) + seq![0xC3u8],
        Op::Print => t_print(l),
        Op::Str(id) => enc_mov_reg_imm64(Reg::Rax, l.literals[id as int] | 1) + t_push_rax(),
        Op::StrLen => t_pop_rax() + enc_and_imm8(Reg::Rax, -2i8) + enc_mov_r32_mem(Reg::Rax, Reg::Rax)
            + enc_d1(4, Reg::Rax) + t_push_rax(),
        Op::Concat => Seq::empty(),
    }
}

/// The size in bytes of an op's code.
pub open spec fn op_len(op: Op) -> nat {
    match op {
        Op::Const(_) => 17,
        Op::Pop => 3,
        Op::LoadLocal(_) => 15,
        Op::LoadArg(_) => 15,
        Op::StoreLocal(_) => 15,
        Op::Add => 24,
        Op::Sub => 24,
        Op::Mul => 28,
        Op::Div => 58,
        Op::Mod => 61,
        Op::Neg => 17,
        Op::Not => 27,
        Op::Lt | Op::Le | Op::Gt | Op::Ge | Op::Eq | Op::Ne => 34,
        Op::Jump(_) => 5,
        Op::JumpIfFalse(_) => 16,
        Op::Call(_, _) => 11,
        Op::Ret => 22,
        Op::Print => 87,
        Op::Str(_) => 17,
        Op::StrLen => 23,
        Op::Concat => 0,
    }
}

/// The size of an op's code does not depend on what it refers to.
pub proof fn lemma_op_len(op: Op, l: SLinks, rel: i32)
    requires
        op matches Op::Str(id) ==> id < l.literals.len(),
    ensures
        t_op(op, l, rel).len() == op_len(op),
{
    assert(t_push_rax().len() == 7);
    assert(t_pop_rax().len() == 7);
    assert(t_pop_rcx().len() == 7);
    assert(enc_push_reg(Reg::R13).len() == 2);
    assert(enc_push_reg(Reg::R14).len() == 2);
    assert(enc_push_reg(Reg::R15).len() == 2);
    assert(enc_push_reg(Reg::Rdi).len() == 1);
    assert(enc_pop_reg(Reg::R13).len() == 2);
    assert(enc_pop_reg(Reg::R14).len() == 2);
    assert(enc_pop_reg(Reg::R15).len() == 2);
    assert(enc_pop_reg(Reg::Rdi).len() == 1);
    assert(enc_pop_reg(Reg::Rbp).len() == 1);
    assert(enc_call_reg(Reg::Rax).len() == 2);
    assert(t_call_helper(0).len() == 12);
    assert(t_save().len() == 7);
    assert(t_restore().len() == 7);
    assert(t_guard_body(l).len() == 14);
    assert(t_divzero_guard(l).len() == 23);
    assert(t_divide(l).len() == 48);
    assert(t_print_str(l).len() == 33);
    assert(t_print_int(l).len() == 29);
    assert(t_print(l).len() == 87);
    assert(enc_mov_r32_mem(Reg::Rax, Reg::Rax).len() == 2);
}

/// A function's prologue: save rbp and r13, keep rsp 16-aligned, point r13
/// at the first argument, make room for the locals.
pub open spec fn t_prologue(argc: u8, locals: u16) -> Seq<u8> {
    enc_push_reg(Reg::Rbp) + enc_mov_reg_reg(Reg::Rbp, Reg::Rsp) + enc_push_reg(Reg::R13)
        + enc_push_reg(Reg::Rdi) + t_mov_r13_r14() + (if argc > 0 {
        seq![0x49u8, 0x81u8, 0xEDu8] + le32(argc as i32)
    } else {
        Seq::empty()
    }) + (if locals > 0 {
        seq![0x49u8, 0x81u8, 0xC6u8] + le32(locals as i32)
    } else {
        Seq::empty()
    })
}

pub open spec fn prologue_len(argc: u8, locals: u16) -> nat {
    10 + (if argc > 0 {
        7nat
    } else {
        0nat
    }) + (if locals > 0 {
        7nat
    } else {
        0nat
    })
}


// ---------------------------------------------------------------------
// Emitters.

/// Append raw bytes.
fn emit(buf: &mut Vec<u8>, bytes: &[u8])
    ensures
        final(buf)@ == old(buf)@ + bytes@,
{
    let mut i: usize = 0;
    while i < bytes.len()
        invariant
            0 <= i <= bytes@.len(),
            buf@ == old(buf)@ + bytes@.take(i as int),
        decreases bytes@.len() - i,
    {
        buf.push(bytes[i]);
        assert(bytes@.take(i + 1) =~= bytes@.take(i as int).push(bytes@[i as int]));
        i += 1;
    }
    assert(bytes@.take(bytes@.len() as int) =~= bytes@);
}

/// Append a little-endian `i32`.
fn emit_i32(buf: &mut Vec<u8>, v: i32)
    ensures
        final(buf)@ == old(buf)@ + le32(v),
{
    push_le32(buf, v);
}

fn inc_r14(b: &mut Vec<u8>)
    ensures
        final(b)@ == old(b)@ + t_inc_r14(),
{
    emit(b, &[0x49, 0xFF, 0xC6]);
}


fn dec_r14(b: &mut Vec<u8>)
    ensures
        final(b)@ == old(b)@ + t_dec_r14(),
{
    emit(b, &[0x49, 0xFF, 0xCE]);
}

/// `add r14, v`.
fn add_r14_imm32(b: &mut Vec<u8>, v: i32)
    ensures
        final(b)@ == old(b)@ + seq![0x49u8, 0x81u8, 0xC6u8] + le32(v),
{
    emit(b, &[0x49, 0x81, 0xC6]);
    emit_i32(b, v);
}

/// `sub r13, v`.
fn sub_r13_imm32(b: &mut Vec<u8>, v: i32)
    ensures
        final(b)@ == old(b)@ + seq![0x49u8, 0x81u8, 0xEDu8] + le32(v),
{
    emit(b, &[0x49, 0x81, 0xED]);
    emit_i32(b, v);
}

fn store_rax_top(b: &mut Vec<u8>)
    ensures
        final(b)@ == old(b)@ + t_store_top(),
{
    emit(b, &[0x4B, 0x89, 0x04, 0xF7]);
}

fn load_rax_top(b: &mut Vec<u8>)
    ensures
        final(b)@ == old(b)@ + t_load_rax_top(),
{
    emit(b, &[0x4B, 0x8B, 0x04, 0xF7]);
}

fn load_rcx_top(b: &mut Vec<u8>)
    ensures
        final(b)@ == old(b)@ + t_load_rcx_top(),
{
    emit(b, &[0x4B, 0x8B, 0x0C, 0xF7]);
}

fn push_val_rax(b: &mut Vec<u8>)
    ensures
        final(b)@ == old(b)@ + t_push_rax(),
{
    store_rax_top(b);
    inc_r14(b);
    assert(b@ =~= old(b)@ + t_push_rax());
}

fn pop_val_rax(b: &mut Vec<u8>)
    ensures
        final(b)@ == old(b)@ + t_pop_rax(),
{
    dec_r14(b);
    load_rax_top(b);
    assert(b@ =~= old(b)@ + t_pop_rax());
}

fn pop_val_rcx(b: &mut Vec<u8>)
    ensures
        final(b)@ == old(b)@ + t_pop_rcx(),
{
    dec_r14(b);
    load_rcx_top(b);
    assert(b@ =~= old(b)@ + t_pop_rcx());
}

fn load_local_rax(b: &mut Vec<u8>, slot: u16)
    ensures
        final(b)@ == old(b)@ + t_local(0x8B, slot),
{
    emit(b, &[0x4B, 0x8B, 0x84, 0xEF]);
    emit_i32(b, (slot as i32) * 8);
    assert(b@ =~= old(b)@ + t_local(0x8B, slot));
}

fn store_local_rax(b: &mut Vec<u8>, slot: u16)
    ensures
        final(b)@ == old(b)@ + t_local(0x89, slot),
{
    emit(b, &[0x4B, 0x89, 0x84, 0xEF]);
    emit_i32(b, (slot as i32) * 8);
    assert(b@ =~= old(b)@ + t_local(0x89, slot));
}

fn mov_r13_r14(b: &mut Vec<u8>)
    ensures
        final(b)@ == old(b)@ + t_mov_r13_r14(),
{
    emit(b, &[0x4D, 0x89, 0xF5]);
}

fn mov_r14_r13(b: &mut Vec<u8>)
    ensures
        final(b)@ == old(b)@ + t_mov_r14_r13(),
{
    emit(b, &[0x4D, 0x89, 0xEE]);
}

fn call_helper(b: &mut Vec<u8>, addr: i64)
    ensures
        final(b)@ == old(b)@ + t_call_helper(addr),
{
    mov_reg_imm64(b, Reg::Rax, addr);
    call_reg(b, Reg::Rax);
    assert(b@ =~= old(b)@ + t_call_helper(addr));
}

/// `test rcx, rcx; jne skip; call the division-by-zero helper; skip:`.
fn emit_divzero_guard(buf: &mut Vec<u8>, l: &JitLinks)
    ensures
        final(buf)@ == old(buf)@ + t_divzero_guard(l@),
{
    test_reg_reg(buf, Reg::Rcx, Reg::Rcx);
    let ghost b0 = buf@;
    jcc_rel32(buf, CC_NE, 14);
    push_reg(buf, Reg::Rdi);
    call_helper(buf, l.div_by_zero);
    pop_reg(buf, Reg::Rdi);
    proof {
        assert(t_guard_body(l@).len() == 14);
        assert(buf@ =~= old(buf)@ + t_divzero_guard(l@));
    }
}

fn emit_save(b: &mut Vec<u8>)
    ensures
        final(b)@ == old(b)@ + t_save(),
{
    push_reg(b, Reg::R13);
    push_reg(b, Reg::R14);
    push_reg(b, Reg::R15);
    push_reg(b, Reg::Rdi);
    assert(b@ =~= old(b)@ + t_save());
}

fn emit_restore(b: &mut Vec<u8>)
    ensures
        final(b)@ == old(b)@ + t_restore(),
{
    pop_reg(b, Reg::Rdi);
    pop_reg(b, Reg::R15);
    pop_reg(b, Reg::R14);
    pop_reg(b, Reg::R13);
    assert(b@ =~= old(b)@ + t_restore());
}

/// `Print`, dispatching on the tag bit.
fn emit_print(buf: &mut Vec<u8>, l: &JitLinks)
    ensures
        final(buf)@ == old(buf)@ + t_print(l@),
{
    pop_val_rax(buf);
    test_reg_imm32(buf, Reg::Rax, 1);
    jcc_rel32(buf, CC_E, 38);
    let ghost b1 = buf@;
    mov_reg_reg(buf, Reg::Rdi, Reg::Rax);
    and_reg_imm8(buf, Reg::Rdi, -2);
    emit_save(buf);
    call_helper(buf, l.print_str);
    emit_restore(buf);
    let ghost b2 = buf@;
    jmp_rel32(buf, 29);
    let ghost b3 = buf@;
    mov_reg_reg(buf, Reg::Rdi, Reg::Rax);
    emit_save(buf);
    call_helper(buf, l.print_int);
    emit_restore(buf);
    proof {
        assert(t_print_str(l@).len() == 33);
        assert(t_print_int(l@).len() == 29);
        assert(b2 =~= b1 + t_print_str(l@));
        assert(buf@ =~= b3 + t_print_int(l@));
        assert(buf@ =~= old(buf)@ + t_print(l@));
    }
}

/// Pop two values, compare, push the tagged truth value.
fn emit_compare(buf: &mut Vec<u8>, cc: u8)
    requires
        cc < 16,
    ensures
        final(buf)@ == old(buf)@ + t_compare(cc),
{
    pop_val_rcx(buf);
    pop_val_rax(buf);
    crate::x86::cmp_reg_reg(buf, Reg::Rax, Reg::Rcx);
    setcc_al(buf, cc);
    movzx_rax_al(buf);
    shl_reg_1(buf, Reg::Rax);
    push_val_rax(buf);
    assert(buf@ =~= old(buf)@ + t_compare(cc));
}

/// Untag both operands and divide.
fn emit_divide(buf: &mut Vec<u8>, l: &JitLinks)
    ensures
        final(buf)@ == old(buf)@ + t_divide(l@),
{
    pop_val_rcx(buf);
    pop_val_rax(buf);
    emit_divzero_guard(buf, l);
    sar_reg_1(buf, Reg::Rax);
    sar_reg_1(buf, Reg::Rcx);
    cqo(buf);
    idiv_reg(buf, Reg::Rcx);
    assert(buf@ =~= old(buf)@ + t_divide(l@));
}


/// The machine code of one op; `rel` is the displacement of a jump or call.
fn emit_op(buf: &mut Vec<u8>, op: Op, l: &JitLinks, rel: i32)
    requires
        op matches Op::Str(id) ==> id < l.literals@.len(),
    ensures
        final(buf)@ == old(buf)@ + t_op(op, l@, rel),
{
    match op {
        Op::Const(n) => {
            mov_reg_imm64(buf, Reg::Rax, n);
            push_val_rax(buf);
        },
        Op::Pop => {
            dec_r14(buf);
        },
        Op::LoadLocal(s) => {
            load_local_rax(buf, s);
            push_val_rax(buf);
        },
        Op::LoadArg(a) => {
            load_local_rax(buf, a as u16);
            push_val_rax(buf);
        },
        Op::StoreLocal(s) => {
            pop_val_rax(buf);
            store_local_rax(buf, s);
        },
        Op::Add => {
            pop_val_rcx(buf);
            pop_val_rax(buf);
            add_reg_reg(buf, Reg::Rax, Reg::Rcx);
            push_val_rax(buf);
        },
        Op::Sub => {
            pop_val_rcx(buf);
            pop_val_rax(buf);
            sub_reg_reg(buf, Reg::Rax, Reg::Rcx);
            push_val_rax(buf);
        },
        Op::Mul => {
            pop_val_rcx(buf);
            pop_val_rax(buf);
            imul_reg_reg(buf, Reg::Rax, Reg::Rcx);
            sar_reg_1(buf, Reg::Rax);
            push_val_rax(buf);
        },
        Op::Div => {
            emit_divide(buf, l);
            shl_reg_1(buf, Reg::Rax);
            push_val_rax(buf);
        },
        Op::Mod => {
            emit_divide(buf, l);
            mov_reg_reg(buf, Reg::Rax, Reg::Rdx);
            shl_reg_1(buf, Reg::Rax);
            push_val_rax(buf);
        },
        Op::Neg => {
            pop_val_rax(buf);
            neg_reg(buf, Reg::Rax);
            push_val_rax(buf);
        },
        Op::Not => {
            pop_val_rax(buf);
            test_reg_reg(buf, Reg::Rax, Reg::Rax);
            setcc_al(buf, CC_E);
            movzx_rax_al(buf);
            shl_reg_1(buf, Reg::Rax);
            push_val_rax(buf);
        },
        Op::Lt => emit_compare(buf, CC_L),
        Op::Le => emit_compare(buf, CC_LE),
        Op::Gt => emit_compare(buf, CC_G),
        Op::Ge => emit_compare(buf, CC_GE),
        Op::Eq => emit_compare(buf, CC_E),
        Op::Ne => emit_compare(buf, CC_NE),
        Op::Jump(_) => {
            jmp_rel32(buf, rel);
        },
        Op::JumpIfFalse(_) => {
            pop_val_rax(buf);
            test_reg_reg(buf, Reg::Rax, Reg::Rax);
            jcc_rel32(buf, CC_E, rel);
        },
        Op::Call(_, _) => {
            push_reg(buf, Reg::R13);
            push_reg(buf, Reg::Rdi);
            call_rel32(buf, rel);
            pop_reg(buf, Reg::Rdi);
            pop_reg(buf, Reg::R13);
        },
        Op::Ret => {
            pop_val_rax(buf);
            mov_r14_r13(buf);
            push_val_rax(buf);
            mov_reg_reg(buf, Reg::Rsp, Reg::Rbp);
            pop_reg(buf, Reg::Rbp);
            ret(buf);
        },
        Op::Print => emit_print(buf, l),
        Op::Str(id) => {
            let p = l.literals[id as usize];
            mov_reg_imm64(buf, Reg::Rax, p | 1);
            push_val_rax(buf);
        },
        Op::StrLen => {
            pop_val_rax(buf);
            and_reg_imm8(buf, Reg::Rax, -2);
            mov_r32_from_mem_reg(buf, Reg::Rax, Reg::Rax);
            shl_reg_1(buf, Reg::Rax);
            push_val_rax(buf);
        },
        Op::Concat => {},
    }
    assert(buf@ =~= old(buf)@ + t_op(op, l@, rel));
}


// ---------------------------------------------------------------------
// Layout and the whole module.

/// Bytes taken by a sequence of ops.
pub open spec fn code_len(ops: Seq<Op>) -> nat
    decreases ops.len(),
{
    if ops.len() == 0 {
        0
    } else {
        code_len(ops.drop_last()) + op_len(ops.last())
    }
}

pub open spec fn fn_len(f: SFunction) -> nat {
    prologue_len(f.argc, f.locals) + code_len(f.code)
}

/// Bytes taken by a sequence of functions.
pub open spec fn fns_len(fs: Seq<SFunction>) -> nat
    decreases fs.len(),
{
    if fs.len() == 0 {
        0
    } else {
        fns_len(fs.drop_last()) + fn_len(fs.last())
    }
}

/// Where function `i` starts in the module.
pub open spec fn fn_start(p: SProgram, i: int) -> int {
    fns_len(p.fns.take(i)) as int
}

/// Where op `j` of function `i` starts in the module (`j` may be the
/// number of ops: the end of the function).
pub open spec fn op_off(p: SProgram, i: int, j: int) -> int {
    fn_start(p, i) + prologue_len(p.fns[i].argc, p.fns[i].locals) + code_len(p.fns[i].code.take(j))
}

/// The displacement of op `j` of function `i`: a jump lands on the first
/// byte of its target op, a call on the first byte of its callee.
pub open spec fn op_rel(p: SProgram, i: int, j: int) -> i32 {
    let op = p.fns[i].code[j];
    match op {
        Op::Jump(r) => rel32_to(op_off(p, i, j) + rel_pos(op), op_off(p, i, j + 1 + r)),
        Op::JumpIfFalse(r) => rel32_to(op_off(p, i, j) + rel_pos(op), op_off(p, i, j + 1 + r)),
        Op::Call(id, _) => rel32_to(op_off(p, i, j) + rel_pos(op), fn_start(p, id as int)),
        _ => 0,
    }
}

/// The code of the first `n` ops of function `i`.
pub open spec fn ops_code(p: SProgram, l: SLinks, i: int, n: nat) -> Seq<u8>
    decreases n,
{
    if n == 0 {
        Seq::empty()
    } else {
        ops_code(p, l, i, (n - 1) as nat) + t_op(p.fns[i].code[n - 1], l, op_rel(p, i, n - 1))
    }
}

/// The code of function `i`: prologue, then each op.
pub open spec fn fn_code(p: SProgram, l: SLinks, i: int) -> Seq<u8> {
    t_prologue(p.fns[i].argc, p.fns[i].locals) + ops_code(p, l, i, p.fns[i].code.len())
}

/// The code of the first `n` functions, end to end.
pub open spec fn module_code(p: SProgram, l: SLinks, n: nat) -> Seq<u8>
    decreases n,
{
    if n == 0 {
        Seq::empty()
    } else {
        module_code(p, l, (n - 1) as nat) + fn_code(p, l, n - 1)
    }
}

pub open spec fn has_concat(p: SProgram) -> bool {
    exists|i: int, j: int|
        0 <= i < p.fns.len() && 0 <= j < p.fns[i].code.len() && #[trigger] p.fns[i].code[j]
            is Concat
}

/// What code generation makes of a program: malformed bytecode, runtime
/// string concatenation, a literal table of the wrong size and a module
/// too large for 32-bit displacements are errors; otherwise the module's
/// code and the offset of `main`.
pub open spec fn spec_compile(p: SProgram, l: SLinks) -> std::result::Result<(Seq<u8>, int), Seq<char>> {
    if !wf_program(p) {
        Err("malformed bytecode"@)
    } else if has_concat(p) {
        Err(concat_msg())
    } else if l.literals.len() != p.pool.len() {
        Err("literal table does not match the string pool"@)
    } else if fns_len(p.fns) > i32::MAX {
        Err("code too large"@)
    } else {
        Ok((module_code(p, l, p.fns.len()), fn_start(p, p.main_id as int)))
    }
}

pub open spec fn concat_msg() -> Seq<char> {
    "jit does not support runtime string concat in v0.2 (run with --interp for programs that concat at runtime)"@
}

proof fn lemma_code_len_take(ops: Seq<Op>, j: int)
    requires
        0 <= j < ops.len(),
    ensures
        code_len(ops.take(j + 1)) == code_len(ops.take(j)) + op_len(ops[j]),
{
    assert(ops.take(j + 1).drop_last() =~= ops.take(j));
}

proof fn lemma_fns_len_take(fs: Seq<SFunction>, i: int)
    requires
        0 <= i < fs.len(),
    ensures
        fns_len(fs.take(i + 1)) == fns_len(fs.take(i)) + fn_len(fs[i]),
{
    assert(fs.take(i + 1).drop_last() =~= fs.take(i));
}

proof fn lemma_code_len_mono(ops: Seq<Op>, j: int, k: int)
    requires
        0 <= j <= k <= ops.len(),
    ensures
        code_len(ops.take(j)) <= code_len(ops.take(k)),
    decreases k - j,
{
    if j < k {
        lemma_code_len_mono(ops, j, k - 1);
        lemma_code_len_take(ops, k - 1);
    }
}

proof fn lemma_fns_len_mono(fs: Seq<SFunction>, j: int, k: int)
    requires
        0 <= j <= k <= fs.len(),
    ensures
        fns_len(fs.take(j)) <= fns_len(fs.take(k)),
    decreases k - j,
{
    if j < k {
        lemma_fns_len_mono(fs, j, k - 1);
        lemma_fns_len_take(fs, k - 1);
    }
}

/// Where every function and op goes: `starts[i] == fn_start(i)`,
/// `offs[i][j] == op_off(i, j)`. `None` when the module would not fit in
/// `i32::MAX` bytes.
fn layout(prog: &Program) -> (r: Option<(Vec<usize>, Vec<Vec<usize>>)>)
    ensures
        match r {
            None => fns_len(prog@.fns) > i32::MAX,
            Some((starts, offs)) => {
                &&& fns_len(prog@.fns) <= i32::MAX
                &&& starts@.len() == prog@.fns.len() + 1
                &&& offs@.len() == prog@.fns.len()
                &&& forall|i: int| 0 <= i <= prog@.fns.len() ==> #[trigger] starts@[i] == fn_start(prog@, i)
                &&& forall|i: int|
                    0 <= i < prog@.fns.len() ==> (#[trigger] offs@[i])@.len() == prog@.fns[i].code.len() + 1
                &&& forall|i: int, j: int|
                    0 <= i < prog@.fns.len() && 0 <= j <= prog@.fns[i].code.len() ==> #[trigger] offs@[i]@[j]
                        == op_off(prog@, i, j)
            },
        },
{
    let ghost p = prog@;
    let mut starts: Vec<usize> = Vec::new();
    let mut offs: Vec<Vec<usize>> = Vec::new();
    let mut total: usize = 0;
    let mut i: usize = 0;
    assert(p.fns.take(0) =~= Seq::<SFunction>::empty());
    while i < prog.fns.len()
        invariant
            p == prog@,
            0 <= i <= p.fns.len(),
            total == fns_len(p.fns.take(i as int)),
            total <= i32::MAX,
            starts@.len() == i,
            offs@.len() == i,
            forall|k: int| 0 <= k < i ==> #[trigger] starts@[k] == fn_start(p, k),
            forall|k: int| 0 <= k < i ==> (#[trigger] offs@[k])@.len() == p.fns[k].code.len() + 1,
            forall|k: int, j: int|
                0 <= k < i && 0 <= j <= p.fns[k].code.len() ==> #[trigger] offs@[k]@[j] == op_off(p, k, j),
        decreases p.fns.len() - i,
    {
        let f = &prog.fns[i];
        starts.push(total);
        let mut pos: usize = total + 10;
        if f.argc > 0 {
            pos = pos + 7;
        }
        if f.locals > 0 {
            pos = pos + 7;
        }
        let mut o: Vec<usize> = Vec::new();
        let mut j: usize = 0;
        let ghost code = p.fns[i as int].code;
        assert(code.take(0) =~= Seq::<Op>::empty());
        assert(code.take(code.len() as int) =~= code);
        if pos > 0x7fff_ffffusize {
            proof {
                lemma_code_len_mono(code, 0, code.len() as int);
                lemma_fns_len_take(p.fns, i as int);
                lemma_fns_len_mono(p.fns, i + 1, p.fns.len() as int);
                assert(p.fns.take(p.fns.len() as int) =~= p.fns);
            }
            return None;
        }
        while j < f.code.len()
            invariant
                p == prog@,
                i < p.fns.len(),
                code == p.fns[i as int].code,
                code == f.code@,
                f.argc == p.fns[i as int].argc,
                f.locals == p.fns[i as int].locals,
                total == fns_len(p.fns.take(i as int)),
                0 <= j <= code.len(),
                pos == total + prologue_len(p.fns[i as int].argc, p.fns[i as int].locals) + code_len(code.take(j as int)),
                pos <= i32::MAX,
                o@.len() == j,
                forall|k: int| 0 <= k < j ==> #[trigger] o@[k] == op_off(p, i as int, k),
            decreases code.len() - j,
        {
            o.push(pos);
            let n: usize = match f.code[j] {
                Op::Const(_) => 17,
                Op::Pop => 3,
                Op::LoadLocal(_) => 15,
                Op::LoadArg(_) => 15,
                Op::StoreLocal(_) => 15,
                Op::Add => 24,
                Op::Sub => 24,
                Op::Mul => 28,
                Op::Div => 58,
                Op::Mod => 61,
                Op::Neg => 17,
                Op::Not => 27,
                Op::Lt | Op::Le | Op::Gt | Op::Ge | Op::Eq | Op::Ne => 34,
                Op::Jump(_) => 5,
                Op::JumpIfFalse(_) => 16,
                Op::Call(_, _) => 11,
                Op::Ret => 22,
                Op::Print => 87,
                Op::Str(_) => 17,
                Op::StrLen => 23,
                Op::Concat => 0,
            };
            proof {
                lemma_code_len_take(code, j as int);
                assert(n == op_len(code[j as int]));
            }
            if pos + n > 0x7fff_ffffusize {
                proof {
                    assert(code.take(code.len() as int) =~= code);
                    assert(fn_len(p.fns[i as int]) == prologue_len(p.fns[i as int].argc, p.fns[i as int].locals) + code_len(code));
                    lemma_code_len_mono(code, j + 1, code.len() as int);
                    lemma_fns_len_take(p.fns, i as int);
                    lemma_fns_len_mono(p.fns, i + 1, p.fns.len() as int);
                    assert(p.fns.take(p.fns.len() as int) =~= p.fns);
                }
                return None;
            }
            pos = pos + n;
            j += 1;
        }
        o.push(pos);
        assert(code.take(code.len() as int) =~= code);
        proof {
            lemma_fns_len_take(p.fns, i as int);
        }
        offs.push(o);
        total = pos;
        i += 1;
    }
    starts.push(total);
    assert(p.fns.take(p.fns.len() as int) =~= p.fns);
    Some((starts, offs))
}


/// Every op starts inside the module.
proof fn lemma_op_off_bound(p: SProgram, i: int, j: int)
    requires
        0 <= i < p.fns.len(),
        0 <= j <= p.fns[i].code.len(),
    ensures
        0 <= fn_start(p, i) <= op_off(p, i, j) <= fn_start(p, i + 1) <= fns_len(p.fns),
{
    let code = p.fns[i].code;
    lemma_code_len_mono(code, j, code.len() as int);
    assert(code.take(code.len() as int) =~= code);
    lemma_fns_len_take(p.fns, i);
    lemma_fns_len_mono(p.fns, i + 1, p.fns.len() as int);
    assert(p.fns.take(p.fns.len() as int) =~= p.fns);
}

/// What `compile_code` needs of a program and its links.
pub open spec fn jit_ok(p: SProgram, l: SLinks) -> bool {
    &&& jit_base_ok(p, l)
    &&& !has_concat(p)
}

/// Well-formed bytecode, one literal address per pool entry, and a module
/// small enough for 32-bit displacements.
pub open spec fn jit_base_ok(p: SProgram, l: SLinks) -> bool {
    &&& wf_program(p)
    &&& l.literals.len() == p.pool.len()
    &&& fns_len(p.fns) <= i32::MAX
}

/// Whether function `i` holds a runtime string concatenation.
pub open spec fn fn_has_concat(p: SProgram, i: int) -> bool {
    exists|j: int| 0 <= j < p.fns[i].code.len() && #[trigger] p.fns[i].code[j] is Concat
}

/// Emit function `i`, given where everything goes.
fn emit_fn(
    buf: &mut Vec<u8>,
    prog: &Program,
    i: usize,
    l: &JitLinks,
    starts: &Vec<usize>,
    offs: &Vec<Vec<usize>>,
) -> (r: Result<()>)
    requires
        jit_base_ok(prog@, l@),
        i < prog@.fns.len(),
        old(buf)@ == module_code(prog@, l@, i as nat),
        starts@.len() == prog@.fns.len() + 1,
        offs@.len() == prog@.fns.len(),
        forall|k: int| 0 <= k <= prog@.fns.len() ==> #[trigger] starts@[k] == fn_start(prog@, k),
        forall|k: int| 0 <= k < prog@.fns.len() ==> (#[trigger] offs@[k])@.len() == prog@.fns[k].code.len() + 1,
        forall|k: int, j: int|
            0 <= k < prog@.fns.len() && 0 <= j <= prog@.fns[k].code.len() ==> #[trigger] offs@[k]@[j]
                == op_off(prog@, k, j),
    ensures
        r is Err <==> fn_has_concat(prog@, i as int),
        r is Err ==> (r matches Err(Error::Codegen(m)) && m@ == concat_msg()),
        r is Ok ==> final(buf)@ == module_code(prog@, l@, (i + 1) as nat),
{
    let ghost p = prog@;
    let f = &prog.fns[i];
    let ghost b0 = buf@;
    push_reg(buf, Reg::Rbp);
    mov_reg_reg(buf, Reg::Rbp, Reg::Rsp);
    push_reg(buf, Reg::R13);
    push_reg(buf, Reg::Rdi);
    mov_r13_r14(buf);
    if f.argc > 0 {
        sub_r13_imm32(buf, f.argc as i32);
    }
    if f.locals > 0 {
        add_r14_imm32(buf, f.locals as i32);
    }
    let ghost pro = t_prologue(f.argc, f.locals);
    assert(buf@ =~= b0 + pro);
    assert(fn_ok(p, p.fns[i as int]));
    let mut j: usize = 0;
    assert(ops_code(p, l@, i as int, 0) =~= Seq::<u8>::empty());
    assert(buf@ =~= b0 + pro + ops_code(p, l@, i as int, 0));
    while j < f.code.len()
        invariant
            p == prog@,
            jit_base_ok(p, l@),
            i < p.fns.len(),
            f.code@ == p.fns[i as int].code,
            fn_ok(p, p.fns[i as int]),
            0 <= j <= f.code@.len(),
            buf@ == b0 + pro + ops_code(p, l@, i as int, j as nat),
            forall|q: int| 0 <= q < j ==> !(#[trigger] p.fns[i as int].code[q] is Concat),
            starts@.len() == p.fns.len() + 1,
            offs@.len() == p.fns.len(),
            forall|k: int| 0 <= k <= p.fns.len() ==> #[trigger] starts@[k] == fn_start(p, k),
            forall|k: int| 0 <= k < p.fns.len() ==> (#[trigger] offs@[k])@.len() == p.fns[k].code.len() + 1,
            forall|k: int, q: int|
                0 <= k < p.fns.len() && 0 <= q <= p.fns[k].code.len() ==> #[trigger] offs@[k]@[q]
                    == op_off(p, k, q),
        decreases f.code@.len() - j,
    {
        let op = f.code[j];
        if let Op::Concat = op {
            return Err(
                Error::Codegen(
                    lit(
                        "jit does not support runtime string concat in v0.2 (run with --interp for programs that concat at runtime)",
                    ),
                ),
            );
        }
        proof {
            assert(op_ok(p, p.fns[i as int], j as int));
            lemma_op_off_bound(p, i as int, j as int);
        }
        let here = offs[i][j];
        let rel: i32 = match op {
            Op::Jump(r) => {
                let t = (j as i64 + 1 + r as i64) as usize;
                proof {
                    lemma_op_off_bound(p, i as int, t as int);
                }
                let target = offs[i][t];
                (target as i64 - (here as i64 + 1 + 4)) as i32
            },
            Op::JumpIfFalse(r) => {
                let t = (j as i64 + 1 + r as i64) as usize;
                proof {
                    lemma_op_off_bound(p, i as int, t as int);
                }
                let target = offs[i][t];
                (target as i64 - (here as i64 + 12 + 4)) as i32
            },
            Op::Call(id, _) => {
                proof {
                    lemma_fns_len_mono(p.fns, id as int, p.fns.len() as int);
                    assert(p.fns.take(p.fns.len() as int) =~= p.fns);
                }
                let target = starts[id as usize];
                (target as i64 - (here as i64 + 4 + 4)) as i32
            },
            _ => 0,
        };
        assert(rel == op_rel(p, i as int, j as int));
        emit_op(buf, op, l, rel);
        j += 1;
    }
    Ok(())
}

/// Whether any op is a runtime string concatenation.
fn find_concat(prog: &Program) -> (b: bool)
    ensures
        b == has_concat(prog@),
{
    let ghost p = prog@;
    let mut i: usize = 0;
    while i < prog.fns.len()
        invariant
            p == prog@,
            0 <= i <= p.fns.len(),
            forall|k: int, j: int| 0 <= k < i && 0 <= j < p.fns[k].code.len() ==> !(#[trigger] p.fns[k].code[j] is Concat),
        decreases p.fns.len() - i,
    {
        let f = &prog.fns[i];
        let mut j: usize = 0;
        while j < f.code.len()
            invariant
                p == prog@,
                i < p.fns.len(),
                f.code@ == p.fns[i as int].code,
                0 <= j <= f.code@.len(),
                forall|k: int, q: int| 0 <= k < i && 0 <= q < p.fns[k].code.len() ==> !(#[trigger] p.fns[k].code[q] is Concat),
                forall|q: int| 0 <= q < j ==> !(#[trigger] p.fns[i as int].code[q] is Concat),
            decreases f.code@.len() - j,
        {
            match f.code[j] {
                Op::Concat => {
                    return true;
                },
                _ => {},
            }
            j += 1;
        }
        i += 1;
    }
    false
}

/// Generated machine code: the module's bytes and the offset of `main`.
pub struct Compiled {
    pub code: Vec<u8>,
    pub main_entry: usize,
}

/// Generate the machine code of a program, given the addresses of the
/// runtime helpers and of the literals.
pub fn compile_code(prog: &Program, links: &JitLinks) -> (r: Result<Compiled>)
    ensures
        match spec_compile(prog@, links@) {
            Ok((code, main)) => r matches Ok(c) && c.code@ == code && c.main_entry == main,
            Err(m) => r matches Err(Error::Codegen(mm)) && mm@ == m,
        },
{
    let ghost p = prog@;
    if !check_program(prog) {
        return Err(Error::Codegen(lit("malformed bytecode")));
    }
    if find_concat(prog) {
        return Err(
            Error::Codegen(
                lit(
                    "jit does not support runtime string concat in v0.2 (run with --interp for programs that concat at runtime)",
                ),
            ),
        );
    }
    if links.literals.len() != prog.string_pool.len() {
        return Err(Error::Codegen(lit("literal table does not match the string pool")));
    }
    let (starts, offs) = match layout(prog) {
        None => {
            return Err(Error::Codegen(lit("code too large")));
        },
        Some(x) => x,
    };
    let mut buf: Vec<u8> = Vec::new();
    let mut i: usize = 0;
    assert(buf@ =~= module_code(p, links@, 0));
    while i < prog.fns.len()
        invariant
            p == prog@,
            jit_ok(p, links@),
            0 <= i <= p.fns.len(),
            buf@ == module_code(p, links@, i as nat),
            starts@.len() == p.fns.len() + 1,
            offs@.len() == p.fns.len(),
            forall|k: int| 0 <= k <= p.fns.len() ==> #[trigger] starts@[k] == fn_start(p, k),
            forall|k: int| 0 <= k < p.fns.len() ==> (#[trigger] offs@[k])@.len() == p.fns[k].code.len() + 1,
            forall|k: int, q: int|
                0 <= k < p.fns.len() && 0 <= q <= p.fns[k].code.len() ==> #[trigger] offs@[k]@[q]
                    == op_off(p, k, q),
        decreases p.fns.len() - i,
    {
        match emit_fn(&mut buf, prog, i, links, &starts, &offs) {
            Ok(()) => {},
            Err(e) => {
                proof {
                    let j = choose|j: int| 0 <= j < p.fns[i as int].code.len() && #[trigger] p.fns[i as int].code[j] is Concat;
                    assert(has_concat(p));
                }
                return Err(e);
            },
        }
        i += 1;
    }
    let main_entry = starts[prog.main_id as usize];
    Ok(Compiled { code: buf, main_entry })
}

/// The code of the first `n` ops of function `i` is as long as the layout
/// says.
proof fn lemma_ops_code_len(p: SProgram, l: SLinks, i: int, n: nat)
    requires
        jit_ok(p, l),
        0 <= i < p.fns.len(),
        n <= p.fns[i].code.len(),
    ensures
        ops_code(p, l, i, n).len() == code_len(p.fns[i].code.take(n as int)),
    decreases n,
{
    if n > 0 {
        lemma_ops_code_len(p, l, i, (n - 1) as nat);
        assert(fn_ok(p, p.fns[i]));
        assert(op_ok(p, p.fns[i], n - 1));
        lemma_op_len(p.fns[i].code[n - 1], l, op_rel(p, i, n - 1));
        lemma_code_len_take(p.fns[i].code, n - 1);
    }
}

/// Op `j` of function `i` sits in that function's op code exactly where
/// the layout puts it.
proof fn lemma_ops_code_at(p: SProgram, l: SLinks, i: int, n: nat, j: int)
    requires
        jit_ok(p, l),
        0 <= i < p.fns.len(),
        0 <= j < n <= p.fns[i].code.len(),
    ensures
        ops_code(p, l, i, n).subrange(
            code_len(p.fns[i].code.take(j)) as int,
            code_len(p.fns[i].code.take(j + 1)) as int,
        ) == t_op(p.fns[i].code[j], l, op_rel(p, i, j)),
    decreases n,
{
    let code = p.fns[i].code;
    let prev = ops_code(p, l, i, (n - 1) as nat);
    lemma_ops_code_len(p, l, i, (n - 1) as nat);
    lemma_code_len_take(code, j);
    assert(fn_ok(p, p.fns[i]));
    assert(op_ok(p, p.fns[i], j));
    lemma_op_len(code[j], l, op_rel(p, i, j));
    if j == n - 1 {
        assert(ops_code(p, l, i, n).subrange(
            code_len(code.take(j)) as int,
            code_len(code.take(j + 1)) as int,
        ) =~= t_op(code[j], l, op_rel(p, i, j)));
    } else {
        lemma_ops_code_at(p, l, i, (n - 1) as nat, j);
        lemma_code_len_mono(code, j + 1, n - 1);
        assert(ops_code(p, l, i, n).subrange(
            code_len(code.take(j)) as int,
            code_len(code.take(j + 1)) as int,
        ) =~= prev.subrange(code_len(code.take(j)) as int, code_len(code.take(j + 1)) as int));
    }
}

/// A function's code is as long as the layout says.
proof fn lemma_fn_code_len(p: SProgram, l: SLinks, i: int)
    requires
        jit_ok(p, l),
        0 <= i < p.fns.len(),
    ensures
        fn_code(p, l, i).len() == fn_len(p.fns[i]),
        t_prologue(p.fns[i].argc, p.fns[i].locals).len() == prologue_len(p.fns[i].argc, p.fns[i].locals),
{
    lemma_ops_code_len(p, l, i, p.fns[i].code.len());
    assert(p.fns[i].code.take(p.fns[i].code.len() as int) =~= p.fns[i].code);
}

/// Function `i` sits in the code of the first `n` functions exactly where
/// the layout puts it.
proof fn lemma_module_code_at(p: SProgram, l: SLinks, n: nat, i: int)
    requires
        jit_ok(p, l),
        n <= p.fns.len(),
        0 <= i < n,
    ensures
        module_code(p, l, n).len() == fn_start(p, n as int),
        module_code(p, l, n).subrange(fn_start(p, i), fn_start(p, i + 1)) == fn_code(p, l, i),
    decreases n,
{
    let prev = module_code(p, l, (n - 1) as nat);
    lemma_fn_code_len(p, l, n - 1);
    lemma_fns_len_take(p.fns, n - 1);
    lemma_fns_len_take(p.fns, i);
    if n - 1 > 0 {
        lemma_module_code_at(p, l, (n - 1) as nat, 0);
    } else {
        assert(p.fns.take(0) =~= Seq::<SFunction>::empty());
    }
    if i == n - 1 {
        assert(module_code(p, l, n).subrange(fn_start(p, i), fn_start(p, i + 1)) =~= fn_code(p, l, i));
    } else {
        lemma_module_code_at(p, l, (n - 1) as nat, i);
        lemma_fns_len_mono(p.fns, i + 1, n - 1);
        assert(module_code(p, l, n).subrange(fn_start(p, i), fn_start(p, i + 1))
            =~= prev.subrange(fn_start(p, i), fn_start(p, i + 1)));
    }
}

/// Where the layout places a function and each of its ops, the module
/// holds exactly their code: the prologue of function `i` begins at
/// `fn_start(p, i)` and op `j` occupies `op_off(p, i, j)` up to
/// `op_off(p, i, j + 1)`. And the displacement of a jump or call, counted
/// from the end of its rel32, lands on the first byte of its target: the
/// target op, or the callee's prologue.
pub proof fn lemma_layout_matches_code(p: SProgram, l: SLinks, i: int, j: int)
    requires
        jit_ok(p, l),
        0 <= i < p.fns.len(),
        0 <= j < p.fns[i].code.len(),
    ensures
        module_code(p, l, p.fns.len()).len() == fns_len(p.fns),
        module_code(p, l, p.fns.len()).subrange(
            fn_start(p, i),
            fn_start(p, i) + prologue_len(p.fns[i].argc, p.fns[i].locals),
        ) == t_prologue(p.fns[i].argc, p.fns[i].locals),
        module_code(p, l, p.fns.len()).subrange(op_off(p, i, j), op_off(p, i, j + 1)) == t_op(
            p.fns[i].code[j],
            l,
            op_rel(p, i, j),
        ),
        p.fns[i].code[j] matches Op::Jump(r) ==> op_off(p, i, j) + rel_pos(p.fns[i].code[j]) + 4
            + op_rel(p, i, j) == op_off(p, i, j + 1 + r),
        p.fns[i].code[j] matches Op::JumpIfFalse(r) ==> op_off(p, i, j) + rel_pos(p.fns[i].code[j])
            + 4 + op_rel(p, i, j) == op_off(p, i, j + 1 + r),
        p.fns[i].code[j] matches Op::Call(id, _) ==> op_off(p, i, j) + rel_pos(p.fns[i].code[j]) + 4
            + op_rel(p, i, j) == fn_start(p, id as int),
{
    assert(fn_ok(p, p.fns[i]));
    assert(op_ok(p, p.fns[i], j));
    lemma_op_off_bound(p, i, j);
    match p.fns[i].code[j] {
        Op::Jump(r) => {
            lemma_op_off_bound(p, i, j + 1 + r);
        },
        Op::JumpIfFalse(r) => {
            lemma_op_off_bound(p, i, j + 1 + r);
        },
        Op::Call(id, _) => {
            lemma_fns_len_mono(p.fns, id as int, p.fns.len() as int);
            assert(p.fns.take(p.fns.len() as int) =~= p.fns);
        },
        _ => {},
    }
    let m = module_code(p, l, p.fns.len());
    let fc = fn_code(p, l, i);
    let pro = t_prologue(p.fns[i].argc, p.fns[i].locals);
    let ops = ops_code(p, l, i, p.fns[i].code.len());
    let code = p.fns[i].code;
    lemma_module_code_at(p, l, p.fns.len(), i);
    assert(p.fns.take(p.fns.len() as int) =~= p.fns);
    lemma_fn_code_len(p, l, i);
    lemma_fns_len_take(p.fns, i);
    lemma_ops_code_at(p, l, i, code.len(), j);
    lemma_ops_code_len(p, l, i, code.len());
    lemma_code_len_mono(code, j + 1, code.len() as int);
    lemma_code_len_take(code, j);
    assert(code.take(code.len() as int) =~= code);
    let a = fn_start(p, i);
    let b = fn_start(p, i + 1);
    lemma_fns_len_mono(p.fns, i + 1, p.fns.len() as int);
    assert(a + fc.len() == b);
    assert(b <= m.len());
    assert(m.subrange(a, b) == fc);
    assert(m.subrange(a, a + pro.len()) =~= fc.subrange(0, pro.len() as int));
    assert(fc.subrange(0, pro.len() as int) =~= pro);
    let x = code_len(code.take(j)) as int;
    let y = code_len(code.take(j + 1)) as int;
    assert(m.subrange(op_off(p, i, j), op_off(p, i, j + 1)) =~= fc.subrange(pro.len() + x, pro.len() + y));
    assert(fc.subrange(pro.len() + x, pro.len() + y) =~= ops.subrange(x, y));
}

/// `n` rounded up to a whole number of 4096-byte pages.
pub fn page_round_up(n: usize) -> (r: usize)
    requires
        n + 4095 <= usize::MAX,
    ensures
        r % 4096 == 0,
        n <= r < n + 4096,
{
    let m = n + 4095;
    m - m % 4096
}


/// An object stays in place when bytes are appended after it.
proof fn lemma_obj_prefix(a: Seq<u8>, b: Seq<u8>, off: int, s: Seq<u8>)
    requires
        obj_at(a, off, s),
        a.len() <= b.len(),
        b.subrange(0, a.len() as int) == a,
    ensures
        obj_at(b, off, s),
{
    assert forall|i: int| 0 <= i < a.len() implies #[trigger] b[i] == a[i] by {
        assert(b.subrange(0, a.len() as int)[i] == a[i]);
    }
    assert(b.subrange(off, off + 4) =~= a.subrange(off, off + 4));
    assert(b.subrange(off + 4, off + 8) =~= a.subrange(off + 4, off + 8));
    assert(b.subrange(off + 8, off + 8 + s.len()) =~= a.subrange(off + 8, off + 8 + s.len()));
}

/// Append a little-endian `u32`.
fn push_u32(buf: &mut Vec<u8>, x: u32)
    ensures
        final(buf)@ == old(buf)@ + le_u32(x),
{
    buf.push(x as u8);
    buf.push((x >> 8) as u8);
    buf.push((x >> 16) as u8);
    buf.push((x >> 24) as u8);
    assert(buf@ =~= old(buf)@ + le_u32(x));
}

/// The bytes of one literal object: length and hash headers, the bytes,
/// then zeros up to the next multiple of 8.
pub open spec fn obj_image(b: Seq<u8>) -> Seq<u8> {
    le_u32(b.len() as u32) + le_u32(spec_fnv1a(b)) + b + Seq::new(
        (obj_size(b.len()) - 8 - b.len()) as nat,
        |i: int| 0u8,
    )
}

/// The literal arena of a pool: each literal's object, in pool order.
pub open spec fn pool_image(pool: Seq<Seq<char>>) -> Seq<u8>
    decreases pool.len(),
{
    if pool.len() == 0 {
        Seq::empty()
    } else {
        pool_image(pool.drop_last()) + obj_image(encode_utf8(pool.last()))
    }
}

/// Append one literal object, header then bytes then padding, at the
/// current (8-aligned) end of `buf`.
fn push_literal(buf: &mut Vec<u8>, s: &[u8])
    requires
        old(buf)@.len() % 8 == 0,
        old(buf)@.len() + obj_size(s@.len()) <= MAX_USED,
    ensures
        final(buf)@.len() == old(buf)@.len() + obj_size(s@.len()),
        final(buf)@ == old(buf)@ + obj_image(s@),
        final(buf)@.subrange(0, old(buf)@.len() as int) == old(buf)@,
        obj_at(final(buf)@, old(buf)@.len() as int, s@),
{
    let ghost sb = s@;
    let ghost b0 = buf@;
    let off = buf.len();
    push_u32(&mut *buf, s.len() as u32);
    push_u32(&mut *buf, fnv1a(s));
    emit(&mut *buf, s);
    let ghost b1 = buf@;
    assert(b1 == b0 + le_u32(sb.len() as u32) + le_u32(spec_fnv1a(sb)) + sb);
    let end = off + round_up_8(8 + s.len());
    pad_zeros(&mut *buf, end);
    proof {
        assert(buf@.subrange(0, b1.len() as int) =~= b1);
        lemma_literal_obj(b0, b1, buf@, sb);
        assert(buf@ =~= b0 + obj_image(sb));
    }
}

/// Append zeros up to length `end`.
fn pad_zeros(buf: &mut Vec<u8>, end: usize)
    requires
        old(buf)@.len() <= end,
    ensures
        final(buf)@ == old(buf)@ + Seq::new((end - old(buf)@.len()) as nat, |i: int| 0u8),
{
    let ghost b1 = buf@;
    while buf.len() < end
        invariant
            b1.len() <= buf@.len() <= end,
            buf@ == b1 + Seq::new((buf@.len() - b1.len()) as nat, |i: int| 0u8),
        decreases end - buf@.len(),
    {
        buf.push(0);
        assert(buf@ =~= b1 + Seq::new((buf@.len() - b1.len()) as nat, |i: int| 0u8));
    }
}

/// A header and the bytes it describes, written at the end of `b0`, make
/// an object there, whatever follows them.
proof fn lemma_literal_obj(b0: Seq<u8>, b1: Seq<u8>, b: Seq<u8>, sb: Seq<u8>)
    requires
        b1 == b0 + le_u32(sb.len() as u32) + le_u32(spec_fnv1a(sb)) + sb,
        b1.len() <= b.len(),
        b.subrange(0, b1.len() as int) == b1,
    ensures
        obj_at(b, b0.len() as int, sb),
        b.subrange(0, b0.len() as int) == b0,
{
    let off = b0.len() as int;
    assert(b1.subrange(off, off + 4) =~= le_u32(sb.len() as u32));
    assert(b1.subrange(off + 4, off + 8) =~= le_u32(spec_fnv1a(sb)));
    assert(b1.subrange(off + 8, off + 8 + sb.len()) =~= sb);
    assert(obj_at(b1, off, sb));
    lemma_obj_prefix(b1, b, off, sb);
    assert(b.subrange(0, off) =~= b1.subrange(0, off));
    assert(b1.subrange(0, off) =~= b0);
}

/// The literal arena of generated code: every literal of the pool laid out
/// once, header then bytes, 8-aligned, in pool order. Compiled code holds
/// the addresses of these headers, so the arena is never collected.
pub struct JitHeap {
    pub buf: Vec<u8>,
    pub offsets: Vec<usize>,
}

impl JitHeap {
    /// The arena is the pool's image, each literal's object in pool order,
    /// and literal `k` is the object at `offsets[k]`.
    pub open spec fn holds(&self, pool: Seq<Seq<char>>) -> bool {
        &&& self.buf@ == pool_image(pool)
        &&& self.offsets@.len() == pool.len()
        &&& forall|k: int| 0 <= k < pool.len() ==> #[trigger] self.offsets@[k] == pool_size(pool.take(k))
        &&& self.buf@.len() == pool_size(pool)
        &&& self.buf@.len() % 8 == 0
        &&& forall|k: int|
            0 <= k < pool.len() ==> #[trigger] self.offsets@[k] % 8 == 0 && obj_at(
                self.buf@,
                self.offsets@[k] as int,
                encode_utf8(pool[k]),
            )
    }

    /// Lay out every literal of the pool.
    pub fn build(pool: &Vec<String>) -> (h: JitHeap)
        requires
            pool_size(names_v(pool@)) <= MAX_USED,
        ensures
            h.holds(names_v(pool@)),
    {
        let ghost names = names_v(pool@);
        let mut buf: Vec<u8> = Vec::new();
        let mut offsets: Vec<usize> = Vec::new();
        let mut k: usize = 0;
        assert(names.take(0) =~= Seq::<Seq<char>>::empty());
        while k < pool.len()
            invariant
                names == names_v(pool@),
                pool_size(names) <= MAX_USED,
                0 <= k <= pool@.len(),
                buf@.len() == pool_size(names.take(k as int)),
                buf@ == pool_image(names.take(k as int)),
                buf@.len() % 8 == 0,
                offsets@.len() == k,
                forall|j: int| 0 <= j < k ==> #[trigger] offsets@[j] == pool_size(names.take(j)),
                forall|j: int|
                    0 <= j < k ==> #[trigger] offsets@[j] % 8 == 0 && obj_at(
                        buf@,
                        offsets@[j] as int,
                        encode_utf8(names[j]),
                    ),
            decreases pool@.len() - k,
        {
            let s = pool[k].as_str().as_bytes();
            let ghost sb = s@;
            proof {
                assert(names.take(k + 1).drop_last() =~= names.take(k as int));
                lemma_pool_size_mono(names, k + 1);
                assert(sb == encode_utf8(names[k as int]));
            }
            let ghost b0 = buf@;
            let off = buf.len();
            offsets.push(off);
            push_literal(&mut buf, s);
            proof {
                assert forall|j: int| 0 <= j < k implies #[trigger] offsets@[j] % 8 == 0 && obj_at(
                    buf@,
                    offsets@[j] as int,
                    encode_utf8(names[j]),
                ) by {
                    let o = offsets@[j] as int;
                    let t = encode_utf8(names[j]);
                    lemma_obj_prefix(b0, buf@, o, t);
                }
            }
            k += 1;
        }
        assert(names.take(names.len() as int) =~= names);
        JitHeap { buf, offsets }
    }
}

} // verus!
