//! A hand-rolled x86-64 encoder: just enough for the code generator.
//!
//! Every function appends raw bytes to a `Vec<u8>`. Nothing is validated;
//! each function emits exactly the shape documented in its comment and
//! stated in its contract. The REX.W form is always used for 64-bit
//! operations. Condition codes (`CC_*`) are the low nibble of the Jcc and
//! SETcc opcodes.

use vstd::prelude::*;

verus! {

/// The sixteen 64-bit general purpose registers.
#[derive(Debug, Clone, Copy, PartialEq, Eq)]
pub enum Reg {
    Rax,
    Rcx,
    Rdx,
    Rbx,
    Rsp,
    Rbp,
    Rsi,
    Rdi,
    R8,
    R9,
    R10,
    R11,
    R12,
    R13,
    R14,
    R15,
}

/// The hardware number of a register (0..16).
pub open spec fn reg_num(r: Reg) -> u8 {
    match r {
        Reg::Rax => 0,
        Reg::Rcx => 1,
        Reg::Rdx => 2,
        Reg::Rbx => 3,
        Reg::Rsp => 4,
        Reg::Rbp => 5,
        Reg::Rsi => 6,
        Reg::Rdi => 7,
        Reg::R8 => 8,
        Reg::R9 => 9,
        Reg::R10 => 10,
        Reg::R11 => 11,
        Reg::R12 => 12,
        Reg::R13 => 13,
        Reg::R14 => 14,
        Reg::R15 => 15,
    }
}

/// The low three bits of the register number (the ModRM / opcode field).
pub open spec fn low3(r: Reg) -> u8 {
    (reg_num(r) % 8) as u8
}

/// Whether the register needs a REX extension bit.
pub open spec fn is_high(r: Reg) -> bool {
    reg_num(r) >= 8
}

impl Reg {
    pub fn num(self) -> (n: u8)
        ensures
            n == reg_num(self),
    {
        match self {
            Reg::Rax => 0,
            Reg::Rcx => 1,
            Reg::Rdx => 2,
            Reg::Rbx => 3,
            Reg::Rsp => 4,
            Reg::Rbp => 5,
            Reg::Rsi => 6,
            Reg::Rdi => 7,
            Reg::R8 => 8,
            Reg::R9 => 9,
            Reg::R10 => 10,
            Reg::R11 => 11,
            Reg::R12 => 12,
            Reg::R13 => 13,
            Reg::R14 => 14,
            Reg::R15 => 15,
        }
    }

    fn low3(self) -> (b: u8)
        ensures
            b == low3(self),
            b < 8,
    {
        self.num() % 8
    }

    fn is_high(self) -> (b: bool)
        ensures
            b == is_high(self),
    {
        self.num() >= 8
    }
}

/// REX prefix with W set, plus R and B extension bits.
pub open spec fn spec_rex_w(r_ext: bool, b_ext: bool) -> u8 {
    (0x48 + (if r_ext { 4int } else { 0int }) + (if b_ext { 1int } else { 0int })) as u8
}

/// ModRM byte from its three fields.
pub open spec fn spec_modrm(mod_: u8, reg: u8, rm: u8) -> u8 {
    ((mod_ % 4) * 64 + (reg % 8) * 8 + (rm % 8)) as u8
}

fn rex_w(r_ext: bool, b_ext: bool) -> (b: u8)
    ensures
        b == spec_rex_w(r_ext, b_ext),
{
    0x48 + (if r_ext { 4u8 } else { 0u8 }) + (if b_ext { 1u8 } else { 0u8 })
}

fn modrm(mod_: u8, reg: u8, rm: u8) -> (b: u8)
    ensures
        b == spec_modrm(mod_, reg, rm),
{
    (mod_ % 4) * 64 + (reg % 8) * 8 + (rm % 8)
}

/// Little-endian bytes of a 32-bit value.
pub open spec fn le32(v: i32) -> Seq<u8> {
    seq![v as u8, (v >> 8) as u8, (v >> 16) as u8, (v >> 24) as u8]
}

/// Little-endian bytes of a 64-bit value.
pub open spec fn le64(v: i64) -> Seq<u8> {
    seq![
        v as u8,
        (v >> 8) as u8,
        (v >> 16) as u8,
        (v >> 24) as u8,
        (v >> 32) as u8,
        (v >> 40) as u8,
        (v >> 48) as u8,
        (v >> 56) as u8,
    ]
}

/// Append the little-endian bytes of a 32-bit value.
pub fn push_le32(buf: &mut Vec<u8>, v: i32)
    ensures
        final(buf)@ == old(buf)@ + le32(v),
{
    buf.push(v as u8);
    buf.push((v >> 8u32) as u8);
    buf.push((v >> 16u32) as u8);
    buf.push((v >> 24u32) as u8);
}

/// Append the little-endian bytes of a 64-bit value.
pub fn push_le64(buf: &mut Vec<u8>, v: i64)
    ensures
        final(buf)@ == old(buf)@ + le64(v),
{
    buf.push(v as u8);
    buf.push((v >> 8u32) as u8);
    buf.push((v >> 16u32) as u8);
    buf.push((v >> 24u32) as u8);
    buf.push((v >> 32u32) as u8);
    buf.push((v >> 40u32) as u8);
    buf.push((v >> 48u32) as u8);
    buf.push((v >> 56u32) as u8);
}

/// `mov reg, imm64`: REX.W + B8+rd + imm64.
pub open spec fn enc_mov_reg_imm64(dst: Reg, imm: i64) -> Seq<u8> {
    seq![spec_rex_w(false, is_high(dst)), (0xB8 + low3(dst)) as u8] + le64(imm)
}

pub fn mov_reg_imm64(buf: &mut Vec<u8>, dst: Reg, imm: i64)
    ensures
        final(buf)@ == old(buf)@ + enc_mov_reg_imm64(dst, imm),
{
    buf.push(rex_w(false, dst.is_high()));
    buf.push(0xB8 + dst.low3());
    push_le64(buf, imm);
}

/// `mov dst, src` (both r64): REX.W + 0x89 /r.
pub open spec fn enc_mov_reg_reg(dst: Reg, src: Reg) -> Seq<u8> {
    seq![spec_rex_w(is_high(src), is_high(dst)), 0x89u8, spec_modrm(3, low3(src), low3(dst))]
}

pub fn mov_reg_reg(buf: &mut Vec<u8>, dst: Reg, src: Reg)
    ensures
        final(buf)@ == old(buf)@ + enc_mov_reg_reg(dst, src),
{
    buf.push(rex_w(src.is_high(), dst.is_high()));
    buf.push(0x89);
    buf.push(modrm(0b11, src.low3(), dst.low3()));
}

/// `push r64`: optional REX.B (0x41), then 0x50+rd.
pub open spec fn enc_push_reg(r: Reg) -> Seq<u8> {
    if is_high(r) {
        seq![0x41u8, (0x50 + low3(r)) as u8]
    } else {
        seq![(0x50 + low3(r)) as u8]
    }
}

pub fn push_reg(buf: &mut Vec<u8>, r: Reg)
    ensures
        final(buf)@ == old(buf)@ + enc_push_reg(r),
{
    if r.is_high() {
        buf.push(0x41);
    }
    buf.push(0x50 + r.low3());
}

/// `pop r64`: optional REX.B (0x41), then 0x58+rd.
pub open spec fn enc_pop_reg(r: Reg) -> Seq<u8> {
    if is_high(r) {
        seq![0x41u8, (0x58 + low3(r)) as u8]
    } else {
        seq![(0x58 + low3(r)) as u8]
    }
}

pub fn pop_reg(buf: &mut Vec<u8>, r: Reg)
    ensures
        final(buf)@ == old(buf)@ + enc_pop_reg(r),
{
    if r.is_high() {
        buf.push(0x41);
    }
    buf.push(0x58 + r.low3());
}

/// `ret`: C3.
pub fn ret(buf: &mut Vec<u8>)
    ensures
        final(buf)@ == old(buf)@ + seq![0xC3u8],
{
    buf.push(0xC3);
}

/// A register-to-register ALU form: REX.W + opcode + ModRM(11, src, dst).
pub open spec fn enc_alu_rr(opcode: u8, dst: Reg, src: Reg) -> Seq<u8> {
    seq![spec_rex_w(is_high(src), is_high(dst)), opcode, spec_modrm(3, low3(src), low3(dst))]
}

fn alu_rr(buf: &mut Vec<u8>, opcode: u8, dst: Reg, src: Reg)
    ensures
        final(buf)@ == old(buf)@ + enc_alu_rr(opcode, dst, src),
{
    buf.push(rex_w(src.is_high(), dst.is_high()));
    buf.push(opcode);
    buf.push(modrm(0b11, src.low3(), dst.low3()));
}

/// `add dst, src`: REX.W + 0x01 /r.
pub fn add_reg_reg(buf: &mut Vec<u8>, dst: Reg, src: Reg)
    ensures
        final(buf)@ == old(buf)@ + enc_alu_rr(0x01, dst, src),
{
    alu_rr(buf, 0x01, dst, src);
}

/// `sub dst, src`: REX.W + 0x29 /r.
pub fn sub_reg_reg(buf: &mut Vec<u8>, dst: Reg, src: Reg)
    ensures
        final(buf)@ == old(buf)@ + enc_alu_rr(0x29, dst, src),
{
    alu_rr(buf, 0x29, dst, src);
}

/// `imul dst, src`: REX.W + 0F AF /r (dst in the reg field).
pub open spec fn enc_imul_reg_reg(dst: Reg, src: Reg) -> Seq<u8> {
    seq![
        spec_rex_w(is_high(dst), is_high(src)),
        0x0Fu8,
        0xAFu8,
        spec_modrm(3, low3(dst), low3(src)),
    ]
}

pub fn imul_reg_reg(buf: &mut Vec<u8>, dst: Reg, src: Reg)
    ensures
        final(buf)@ == old(buf)@ + enc_imul_reg_reg(dst, src),
{
    buf.push(rex_w(dst.is_high(), src.is_high()));
    buf.push(0x0F);
    buf.push(0xAF);
    buf.push(modrm(0b11, dst.low3(), src.low3()));
}

/// A one-operand group-3 form: REX.W + F7 /ext.
pub open spec fn enc_f7(ext: u8, r: Reg) -> Seq<u8> {
    seq![spec_rex_w(false, is_high(r)), 0xF7u8, spec_modrm(3, ext, low3(r))]
}

/// `neg r64`: REX.W + F7 /3.
pub fn neg_reg(buf: &mut Vec<u8>, r: Reg)
    ensures
        final(buf)@ == old(buf)@ + enc_f7(3, r),
{
    buf.push(rex_w(false, r.is_high()));
    buf.push(0xF7);
    buf.push(modrm(0b11, 3, r.low3()));
}

/// `cqo`: 48 99 (sign-extend rax into rdx:rax; used before idiv).
pub fn cqo(buf: &mut Vec<u8>)
    ensures
        final(buf)@ == old(buf)@ + seq![0x48u8, 0x99u8],
{
    buf.push(0x48);
    buf.push(0x99);
}

/// `idiv r64`: REX.W + F7 /7 (rdx:rax divided by the register).
pub fn idiv_reg(buf: &mut Vec<u8>, r: Reg)
    ensures
        final(buf)@ == old(buf)@ + enc_f7(7, r),
{
    buf.push(rex_w(false, r.is_high()));
    buf.push(0xF7);
    buf.push(modrm(0b11, 7, r.low3()));
}

/// `cmp lhs, rhs`: REX.W + 0x39 /r (flags = lhs - rhs).
pub fn cmp_reg_reg(buf: &mut Vec<u8>, lhs: Reg, rhs: Reg)
    ensures
        final(buf)@ == old(buf)@ + enc_alu_rr(0x39, lhs, rhs),
{
    alu_rr(buf, 0x39, lhs, rhs);
}

/// `test lhs, rhs`: REX.W + 0x85 /r (flags = lhs & rhs).
pub fn test_reg_reg(buf: &mut Vec<u8>, lhs: Reg, rhs: Reg)
    ensures
        final(buf)@ == old(buf)@ + enc_alu_rr(0x85, lhs, rhs),
{
    alu_rr(buf, 0x85, lhs, rhs);
}

/// `xor dst, src`: REX.W + 0x31 /r.
pub fn xor_reg_reg(buf: &mut Vec<u8>, dst: Reg, src: Reg)
    ensures
        final(buf)@ == old(buf)@ + enc_alu_rr(0x31, dst, src),
{
    alu_rr(buf, 0x31, dst, src);
}

/// `setCC al`: 0F 9x /0.
pub open spec fn enc_setcc_al(cc: u8) -> Seq<u8> {
    seq![0x0Fu8, (0x90 + cc) as u8, spec_modrm(3, 0, 0)]
}

pub fn setcc_al(buf: &mut Vec<u8>, cc: u8)
    requires
        cc < 16,
    ensures
        final(buf)@ == old(buf)@ + enc_setcc_al(cc),
{
    buf.push(0x0F);
    buf.push(0x90 + cc);
    buf.push(modrm(0b11, 0, 0));
}

/// `movzx rax, al`: 48 0F B6 C0.
pub fn movzx_rax_al(buf: &mut Vec<u8>)
    ensures
        final(buf)@ == old(buf)@ + seq![0x48u8, 0x0Fu8, 0xB6u8, 0xC0u8],
{
    buf.push(0x48);
    buf.push(0x0F);
    buf.push(0xB6);
    buf.push(0xC0);
}

pub const CC_E: u8 = 0x4;
pub const CC_NE: u8 = 0x5;
pub const CC_L: u8 = 0xC;
pub const CC_LE: u8 = 0xE;
pub const CC_G: u8 = 0xF;
pub const CC_GE: u8 = 0xD;

/// `jmp rel32`: E9 + rel32. Returns the position of the imm32.
pub fn jmp_rel32(buf: &mut Vec<u8>, rel: i32) -> (pos: usize)
    ensures
        final(buf)@ == old(buf)@ + seq![0xE9u8] + le32(rel),
        pos == old(buf)@.len() + 1,
{
    buf.push(0xE9);
    let pos = buf.len();
    push_le32(buf, rel);
    pos
}

/// `jcc rel32`: 0F 8x + rel32. Returns the position of the imm32.
pub fn jcc_rel32(buf: &mut Vec<u8>, cc: u8, rel: i32) -> (pos: usize)
    requires
        cc < 16,
    ensures
        final(buf)@ == old(buf)@ + seq![0x0Fu8, (0x80 + cc) as u8] + le32(rel),
        pos == old(buf)@.len() + 2,
{
    buf.push(0x0F);
    buf.push(0x80 + cc);
    let pos = buf.len();
    push_le32(buf, rel);
    pos
}

/// `call rel32`: E8 + rel32. Returns the position of the imm32.
pub fn call_rel32(buf: &mut Vec<u8>, rel: i32) -> (pos: usize)
    ensures
        final(buf)@ == old(buf)@ + seq![0xE8u8] + le32(rel),
        pos == old(buf)@.len() + 1,
{
    buf.push(0xE8);
    let pos = buf.len();
    push_le32(buf, rel);
    pos
}

/// `call r64`: optional REX.B, then FF /2.
pub open spec fn enc_call_reg(r: Reg) -> Seq<u8> {
    if is_high(r) {
        seq![0x41u8, 0xFFu8, spec_modrm(3, 2, low3(r))]
    } else {
        seq![0xFFu8, spec_modrm(3, 2, low3(r))]
    }
}

pub fn call_reg(buf: &mut Vec<u8>, r: Reg)
    ensures
        final(buf)@ == old(buf)@ + enc_call_reg(r),
{
    if r.is_high() {
        buf.push(0x41);
    }
    buf.push(0xFF);
    buf.push(modrm(0b11, 2, r.low3()));
}

/// A shift-by-one form: REX.W + D1 /ext.
pub open spec fn enc_d1(ext: u8, r: Reg) -> Seq<u8> {
    seq![spec_rex_w(false, is_high(r)), 0xD1u8, spec_modrm(3, ext, low3(r))]
}

/// `sar r64, 1`: REX.W + D1 /7 (arithmetic shift right by one).
pub fn sar_reg_1(buf: &mut Vec<u8>, r: Reg)
    ensures
        final(buf)@ == old(buf)@ + enc_d1(7, r),
{
    buf.push(rex_w(false, r.is_high()));
    buf.push(0xD1);
    buf.push(modrm(0b11, 7, r.low3()));
}

/// `shl r64, 1`: REX.W + D1 /4.
pub fn shl_reg_1(buf: &mut Vec<u8>, r: Reg)
    ensures
        final(buf)@ == old(buf)@ + enc_d1(4, r),
{
    buf.push(rex_w(false, r.is_high()));
    buf.push(0xD1);
    buf.push(modrm(0b11, 4, r.low3()));
}

/// `test r64, imm32`: REX.W + F7 /0 id.
pub fn test_reg_imm32(buf: &mut Vec<u8>, r: Reg, imm: i32)
    ensures
        final(buf)@ == old(buf)@ + enc_f7(0, r) + le32(imm),
{
    buf.push(rex_w(false, r.is_high()));
    buf.push(0xF7);
    buf.push(modrm(0b11, 0, r.low3()));
    push_le32(buf, imm);
}

/// `and r64, imm8` (sign-extended): REX.W + 83 /4 ib.
pub open spec fn enc_and_imm8(r: Reg, imm: i8) -> Seq<u8> {
    seq![spec_rex_w(false, is_high(r)), 0x83u8, spec_modrm(3, 4, low3(r)), imm as u8]
}

pub fn and_reg_imm8(buf: &mut Vec<u8>, r: Reg, imm: i8)
    ensures
        final(buf)@ == old(buf)@ + enc_and_imm8(r, imm),
{
    buf.push(rex_w(false, r.is_high()));
    buf.push(0x83);
    buf.push(modrm(0b11, 4, r.low3()));
    buf.push(imm as u8);
}

/// `mov r32, [base]`: 8B /r with mod 00, REX.R / REX.B for high registers.
/// The base must not be rsp, rbp, r12 or r13, whose mod-00 forms mean
/// something else.
pub open spec fn enc_mov_r32_mem(dst: Reg, base: Reg) -> Seq<u8> {
    let body = seq![0x8Bu8, spec_modrm(0, low3(dst), low3(base))];
    if is_high(dst) || is_high(base) {
        seq![(0x40 + (if is_high(dst) { 4int } else { 0int }) + (if is_high(base) { 1int } else { 0int })) as u8] + body
    } else {
        body
    }
}

pub fn mov_r32_from_mem_reg(buf: &mut Vec<u8>, dst: Reg, base: Reg)
    requires
        low3(base) != 4 && low3(base) != 5,
    ensures
        final(buf)@ == old(buf)@ + enc_mov_r32_mem(dst, base),
{
    let dh = dst.is_high();
    let bh = base.is_high();
    if dh || bh {
        buf.push(0x40 + (if dh { 4u8 } else { 0u8 }) + (if bh { 1u8 } else { 0u8 }));
    }
    buf.push(0x8B);
    buf.push(modrm(0b00, dst.low3(), base.low3()));
    proof {
        if dh || bh {
            assert(buf@ =~= old(buf)@ + enc_mov_r32_mem(dst, base));
        }
    }
}

/// The rel32 that makes a jump whose imm32 sits at `pos` land on `target`:
/// relative to the end of the imm32.
pub open spec fn rel32_to(pos: int, target: int) -> i32 {
    (target - (pos + 4)) as i32
}

/// Overwrite the four bytes at `pos` with `a, b, c, d`.
fn write4(buf: &mut Vec<u8>, pos: usize, a: u8, b: u8, c: u8, d: u8)
    requires
        pos + 4 <= old(buf)@.len(),
    ensures
        final(buf)@.len() == old(buf)@.len(),
        final(buf)@ == old(buf)@.take(pos as int) + seq![a, b, c, d] + old(buf)@.skip(pos + 4),
{
    let n = buf.len();
    assert(pos + 4 <= n);
    buf.set(pos, a);
    buf.set(pos + 1, b);
    buf.set(pos + 2, c);
    buf.set(pos + 3, d);
    assert(buf@ =~= old(buf)@.take(pos as int) + seq![a, b, c, d] + old(buf)@.skip(pos + 4));
}

/// Patch the rel32 at `pos` so that it points at `target` (both offsets in
/// `buf`): `rel = target - (pos + 4)`.
pub fn patch_rel32(buf: &mut Vec<u8>, pos: usize, target: usize)
    requires
        pos + 4 <= old(buf)@.len(),
        target <= i32::MAX,
        pos + 4 <= i32::MAX,
    ensures
        final(buf)@ == old(buf)@.take(pos as int) + le32(rel32_to(pos as int, target as int))
            + old(buf)@.skip(pos + 4),
{
    let rel: i32 = target as i32 - (pos as i32 + 4);
    write4(
        buf,
        pos,
        rel as u8,
        (rel >> 8u32) as u8,
        (rel >> 16u32) as u8,
        (rel >> 24u32) as u8,
    );
}

/// `mov reg, [rbp + disp]`: REX.W + 8B /r with disp8 or disp32.
pub open spec fn enc_rbp_disp(opcode: u8, r: Reg, disp: i32) -> Seq<u8> {
    if -128 <= disp <= 127 {
        seq![spec_rex_w(is_high(r), false), opcode, spec_modrm(1, low3(r), 5), (disp as i8) as u8]
    } else {
        seq![spec_rex_w(is_high(r), false), opcode, spec_modrm(2, low3(r), 5)] + le32(disp)
    }
}

fn rbp_disp(buf: &mut Vec<u8>, opcode: u8, r: Reg, disp: i32)
    ensures
        final(buf)@ == old(buf)@ + enc_rbp_disp(opcode, r, disp),
{
    buf.push(rex_w(r.is_high(), false));
    buf.push(opcode);
    if -128 <= disp && disp <= 127 {
        buf.push(modrm(0b01, r.low3(), 5));
        buf.push(disp as i8 as u8);
    } else {
        buf.push(modrm(0b10, r.low3(), 5));
        push_le32(buf, disp);
    }
}

pub fn mov_reg_rbp_disp(buf: &mut Vec<u8>, dst: Reg, disp: i32)
    ensures
        final(buf)@ == old(buf)@ + enc_rbp_disp(0x8B, dst, disp),
{
    rbp_disp(buf, 0x8B, dst, disp);
}

/// `mov [rbp + disp], src`: REX.W + 89 /r with disp8 or disp32.
pub fn mov_rbp_disp_reg(buf: &mut Vec<u8>, disp: i32, src: Reg)
    ensures
        final(buf)@ == old(buf)@ + enc_rbp_disp(0x89, src, disp),
{
    rbp_disp(buf, 0x89, src, disp);
}

/// `sub rsp, imm32`: 48 81 EC imm32.
pub fn sub_rsp_imm32(buf: &mut Vec<u8>, imm: i32)
    ensures
        final(buf)@ == old(buf)@ + seq![0x48u8, 0x81u8, spec_modrm(3, 5, 4)] + le32(imm),
{
    buf.push(0x48);
    buf.push(0x81);
    buf.push(modrm(0b11, 5, 4));
    push_le32(buf, imm);
}

/// `add rsp, imm32`: 48 81 C4 imm32.
pub fn add_rsp_imm32(buf: &mut Vec<u8>, imm: i32)
    ensures
        final(buf)@ == old(buf)@ + seq![0x48u8, 0x81u8, spec_modrm(3, 0, 4)] + le32(imm),
{
    buf.push(0x48);
    buf.push(0x81);
    buf.push(modrm(0b11, 0, 4));
    push_le32(buf, imm);
}

/// `push rbp; mov rbp, rsp; sub rsp, frame` (the last only when frame > 0).
pub fn emit_prologue(buf: &mut Vec<u8>, frame: i32)
    ensures
        final(buf)@ == old(buf)@ + enc_push_reg(Reg::Rbp) + enc_mov_reg_reg(Reg::Rbp, Reg::Rsp) + (
        if frame > 0 {
            seq![0x48u8, 0x81u8, spec_modrm(3, 5, 4)] + le32(frame)
        } else {
            Seq::empty()
        }),
{
    push_reg(buf, Reg::Rbp);
    mov_reg_reg(buf, Reg::Rbp, Reg::Rsp);
    if frame > 0 {
        sub_rsp_imm32(buf, frame);
    }
    assert(buf@ =~= old(buf)@ + enc_push_reg(Reg::Rbp) + enc_mov_reg_reg(Reg::Rbp, Reg::Rsp) + (
    if frame > 0 {
        seq![0x48u8, 0x81u8, spec_modrm(3, 5, 4)] + le32(frame)
    } else {
        Seq::empty()
    }));
}

/// `mov rsp, rbp; pop rbp; ret`.
pub fn emit_epilogue(buf: &mut Vec<u8>)
    ensures
        final(buf)@ == old(buf)@ + enc_mov_reg_reg(Reg::Rsp, Reg::Rbp) + enc_pop_reg(Reg::Rbp)
            + seq![0xC3u8],
{
    mov_reg_reg(buf, Reg::Rsp, Reg::Rbp);
    pop_reg(buf, Reg::Rbp);
    ret(buf);
}

} // verus!
