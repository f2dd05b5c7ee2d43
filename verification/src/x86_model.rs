//! A model of the x86-64 instructions that the op templates of the code
//! generator use for value-stack traffic and integer arithmetic, after the
//! Intel SDM: `dec`/`inc r14`, `mov` between rax/rcx and `[r15 + r14*8]`
//! or `[r15 + r13*8 + disp32]`, `mov rax, imm64`, `mov` between registers,
//! `add`, `sub`, `cmp`, `test`, `imul`, `neg`, `shl`/`sar` by one, `cqo`,
//! `idiv`, `setcc al`, `movzx rax, al`, `jmp`, `je` and `jne`, on rax,
//! rcx and rdx. A jump moves over its own bytes and its displacement, so a
//! run of the bytes in order follows it only forward and within them. The
//! value stack is `mem`, indexed by entry; `r14` is the index of its first
//! free entry and `r13` that of the frame's first slot. Flags
//! are kept as the pair of operands of the last `cmp` (for `test`, the AND
//! of its operands against 0), which is what every condition code reads.
//! An instruction outside the model, or one that would fault, runs to
//! `None`.

use vstd::prelude::*;

verus! {

pub struct Cpu {
    pub rax: i64,
    pub rcx: i64,
    pub rdx: i64,
    pub r13: int,
    pub r14: int,
    pub mem: Seq<i64>,
    pub fa: i64,
    pub fb: i64,
}

/// Register 0 (rax), 1 (rcx) or 2 (rdx) of a ModRM field.
pub open spec fn get(c: Cpu, r: int) -> i64 {
    if r == 0 {
        c.rax
    } else if r == 1 {
        c.rcx
    } else {
        c.rdx
    }
}

pub open spec fn set(c: Cpu, r: int, v: i64) -> Cpu {
    if r == 0 {
        Cpu { rax: v, ..c }
    } else if r == 1 {
        Cpu { rcx: v, ..c }
    } else {
        Cpu { rdx: v, ..c }
    }
}

/// The little-endian 32-bit value at `b[i..i + 4]`.
pub open spec fn rd32(b: Seq<u8>, i: int) -> i32 {
    ((b[i] as u32) | ((b[i + 1] as u32) << 8u32) | ((b[i + 2] as u32) << 16u32) | ((b[i + 3] as u32)
        << 24u32)) as i32
}

/// The little-endian 64-bit value at `b[i..i + 8]`.
pub open spec fn rd64(b: Seq<u8>, i: int) -> i64 {
    ((b[i] as u64) | ((b[i + 1] as u64) << 8u64) | ((b[i + 2] as u64) << 16u64) | ((b[i + 3] as u64)
        << 24u64) | ((b[i + 4] as u64) << 32u64) | ((b[i + 5] as u64) << 40u64) | ((b[i + 6] as u64)
        << 48u64) | ((b[i + 7] as u64) << 56u64)) as i64
}

/// Whether condition code `cc` holds after comparing `a` with `b`.
pub open spec fn cond(cc: int, a: i64, b: i64) -> Option<bool> {
    if cc == 0x4 {
        Some(a == b)
    } else if cc == 0x5 {
        Some(a != b)
    } else if cc == 0xC {
        Some(a < b)
    } else if cc == 0xD {
        Some(a >= b)
    } else if cc == 0xE {
        Some(a <= b)
    } else if cc == 0xF {
        Some(a > b)
    } else {
        None
    }
}

/// The first instruction of `b` run on `c`: the new state and the
/// instruction's length, or `None` outside the modelled instructions.
#[verifier::opaque]
pub open spec fn exec1(b: Seq<u8>, c: Cpu) -> Option<(Cpu, int)> {
    if b.len() >= 8 && b[0] == 0x4B && b[2] == 0x84 && b[3] == 0xEF && (b[1] == 0x8B || b[1] == 0x89) {
        // mov rax, [r15 + r13*8 + disp32] / mov [r15 + r13*8 + disp32], rax
        let disp = rd32(b, 4) as int;
        let k = c.r13 + disp / 8;
        if disp % 8 != 0 || !(0 <= k < c.mem.len()) {
            None
        } else if b[1] == 0x8B {
            Some((Cpu { rax: c.mem[k], ..c }, 8))
        } else {
            Some((Cpu { mem: c.mem.update(k, c.rax), ..c }, 8))
        }
    } else if b.len() >= 10 && b[0] == 0x48 && b[1] == 0xB8 {
        // mov rax, imm64
        Some((Cpu { rax: rd64(b, 2), ..c }, 10))
    } else if b.len() >= 2 && b[0] == 0x48 && b[1] == 0x99 {
        // cqo
        Some((Cpu { rdx: if c.rax < 0 { -1i64 } else { 0i64 }, ..c }, 2))
    } else if b.len() >= 6 && b[0] == 0x0F && (b[1] == 0x84 || b[1] == 0x85) {
        // je / jne rel32: the length moved over is that of the instruction
        // plus the displacement when the branch is taken
        let rel = rd32(b, 2) as int;
        if (b[1] == 0x84) == (c.fa == c.fb) {
            Some((c, 6 + rel))
        } else {
            Some((c, 6))
        }
    } else if b.len() >= 5 && b[0] == 0xE9 {
        // jmp rel32
        Some((c, 5 + rd32(b, 1) as int))
    } else if b.len() >= 4 && b[0] == 0x4B && b[2] == 0x04 && b[3] == 0xF7 && (b[1] == 0x8B || b[1] == 0x89) {
        // mov rax, [r15 + r14*8] / mov [r15 + r14*8], rax
        if !(0 <= c.r14 < c.mem.len()) {
            None
        } else if b[1] == 0x8B {
            Some((Cpu { rax: c.mem[c.r14], ..c }, 4))
        } else {
            Some((Cpu { mem: c.mem.update(c.r14, c.rax), ..c }, 4))
        }
    } else if b.len() >= 4 && b[0] == 0x4B && b[1] == 0x8B && b[2] == 0x0C && b[3] == 0xF7 {
        // mov rcx, [r15 + r14*8]
        if !(0 <= c.r14 < c.mem.len()) {
            None
        } else {
            Some((Cpu { rcx: c.mem[c.r14], ..c }, 4))
        }
    } else if b.len() >= 3 && b[0] == 0x49 && b[1] == 0xFF && b[2] == 0xCE {
        Some((Cpu { r14: c.r14 - 1, ..c }, 3))
    } else if b.len() >= 3 && b[0] == 0x49 && b[1] == 0xFF && b[2] == 0xC6 {
        Some((Cpu { r14: c.r14 + 1, ..c }, 3))
    } else if b.len() >= 4 && b[0] == 0x48 && b[1] == 0x0F && b[2] == 0xB6 && b[3] == 0xC0 {
        // movzx rax, al
        Some((Cpu { rax: c.rax & 0xff, ..c }, 4))
    } else if b.len() >= 4 && b[0] == 0x48 && b[1] == 0x0F && b[2] == 0xAF && b[3] >= 0xC0 {
        // imul reg, r/m
        let reg = (b[3] / 8) % 8;
        let rm = b[3] % 8;
        if reg > 2 || rm > 2 {
            None
        } else {
            Some((set(c, reg as int, get(c, reg as int).wrapping_mul(get(c, rm as int))), 4))
        }
    } else if b.len() >= 3 && b[0] == 0x0F && 0x90 <= b[1] <= 0x9F && b[2] == 0xC0 {
        // setcc al
        match cond(b[1] - 0x90, c.fa, c.fb) {
            Some(t) => Some((Cpu { rax: (c.rax & !0xffi64) | (if t { 1i64 } else { 0i64 }), ..c }, 3)),
            None => None,
        }
    } else if b.len() >= 3 && b[0] == 0x48 && b[2] >= 0xC0 {
        let reg = (b[2] / 8) % 8;
        let rm = b[2] % 8;
        let x = get(c, rm as int);
        if rm > 2 {
            None
        } else if b[1] == 0x89 && reg <= 2 {
            Some((set(c, rm as int, get(c, reg as int)), 3))
        } else if b[1] == 0x01 && reg <= 2 {
            Some((set(c, rm as int, x.wrapping_add(get(c, reg as int))), 3))
        } else if b[1] == 0x29 && reg <= 2 {
            Some((set(c, rm as int, x.wrapping_sub(get(c, reg as int))), 3))
        } else if b[1] == 0x39 && reg <= 2 {
            Some((Cpu { fa: x, fb: get(c, reg as int), ..c }, 3))
        } else if b[1] == 0x85 && reg <= 2 {
            Some((Cpu { fa: x & get(c, reg as int), fb: 0, ..c }, 3))
        } else if b[1] == 0xF7 && reg == 3 {
            Some((set(c, rm as int, 0i64.wrapping_sub(x)), 3))
        } else if b[1] == 0xF7 && reg == 7 {
            // idiv: rdx:rax by the operand, the dividend sign-extended from rax
            if c.rdx != (if c.rax < 0 { -1i64 } else { 0i64 }) {
                None
            } else {
                match (c.rax.checked_div(x), c.rax.checked_rem(x)) {
                    (Some(q), Some(r)) => Some((Cpu { rax: q, rdx: r, ..c }, 3)),
                    _ => None,
                }
            }
        } else if b[1] == 0xD1 && reg == 4 {
            Some((set(c, rm as int, x.wrapping_shl(1)), 3))
        } else if b[1] == 0xD1 && reg == 7 {
            Some((set(c, rm as int, x >> 1), 3))
        } else {
            None
        }
    } else {
        None
    }
}

/// Run the instructions of `b` in order.
pub open spec fn exec_seq(b: Seq<u8>, c: Cpu) -> Option<Cpu>
    decreases b.len(),
{
    if b.len() == 0 {
        Some(c)
    } else {
        match exec1(b, c) {
            Some((c2, n)) => if 0 < n <= b.len() {
                exec_seq(b.skip(n), c2)
            } else {
                None
            },
            None => None,
        }
    }
}

/// Running `a + b` is running `a`, then `b`.
pub proof fn lemma_exec_concat(a: Seq<u8>, b: Seq<u8>, c: Cpu)
    requires
        exec_seq(a, c) is Some,
    ensures
        exec_seq(a + b, c) == exec_seq(b, exec_seq(a, c)->Some_0),
    decreases a.len(),
{
    if a.len() == 0 {
        assert(a + b =~= b);
    } else {
        let (c2, n) = exec1(a, c)->Some_0;
        assert((a + b).take(4) =~= a.take(4) || a.len() < 4);
        lemma_exec1_prefix(a, b, c);
        assert((a + b).skip(n) =~= a.skip(n) + b);
        lemma_exec_concat(a.skip(n), b, c2);
    }
}

/// An instruction decodes the same with more bytes after it.
proof fn lemma_exec1_prefix(a: Seq<u8>, b: Seq<u8>, c: Cpu)
    requires
        exec1(a, c) matches Some((_, n)) && 0 < n <= a.len(),
    ensures
        exec1(a + b, c) == exec1(a, c),
{
    reveal(exec1);
    let ab = a + b;
    assert(forall|i: int| 0 <= i < a.len() ==> ab[i] == a[i]);
}

} // verus!
