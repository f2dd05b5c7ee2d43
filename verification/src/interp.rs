//! The bytecode interpreter, and the semantics it implements.
//!
//! Values on the value stack and in slots are tagged (see `value`); every
//! arithmetic op checks tags on the way in. Strings live on the collected
//! heap. Every value the program can still reach (the interned literals and
//! every slot and stack entry of every frame) is a root of each collection.
//!
//! The semantics is stated over abstract values: an integer is its raw
//! tagged value, a string is its bytes. `spec_step` is one op of the
//! innermost frame; `spec_run` is the whole run.

use crate::ast::{BinOp, SExpr, Span};
use crate::heap::{obj_size, roots_ok, same_val, val_ok, Heap, HEADER_SIZE, MAX_USED};
use crate::ir::{
    and_tail, bin_frag, bin_op, fcat, l_expr, or_tail, plain, Frag, LCtx, LState, Op, Program, SFunction, SProgram,
};
use crate::lexer::{lemma_lex_reads_decimal, lex_step, text_bytes, STok, Step};
use crate::text::{concat, concat_lit, dec_int, dec_nat, fmt_i64, fmt_usize, lit, spec_utf8_lossy, utf8_lossy};
use crate::value::{self, spec_addr_of, spec_is_int, Addr, Value};
use crate::{Error, Result};
use vstd::prelude::*;
use vstd::utf8::*;

verus! {

/// An abstract value: an integer by its raw tagged value, or the bytes of a
/// string.
pub enum AVal {
    Int(i64),
    Str(Seq<u8>),
}

/// An abstract call frame: the function, the index of the next op, the
/// slots (arguments, then locals) and the value stack.
#[verifier::ext_equal]
pub struct AFrame {
    pub fid: int,
    pub pc: int,
    pub slots: Seq<AVal>,
    pub stack: Seq<AVal>,
}

/// An abstract machine state: the frames, innermost last, and the lines
/// printed so far.
#[verifier::ext_equal]
pub struct AState {
    pub frames: Seq<AFrame>,
    pub out: Seq<Seq<char>>,
}

/// What a step, or a run, comes to.
pub enum Outcome {
    /// The machine goes on in this state.
    Go(AState),
    /// The outermost function returned this value; the lines printed.
    Done(AVal, Seq<Seq<char>>),
    /// A runtime error: message, source position, the lines printed.
    Fail(Seq<char>, Option<Span>, Seq<Seq<char>>),
}

/// The tagged 0 or 1 of a truth value.
pub open spec fn tbool(b: bool) -> AVal {
    if b {
        AVal::Int(2)
    } else {
        AVal::Int(0)
    }
}

/// Truncating division, wrapping on `i64::MIN / -1`.
pub open spec fn wdiv(a: i64, b: i64) -> i64 {
    match a.checked_div(b) {
        Some(q) => q,
        None => i64::MIN,
    }
}

/// Remainder with the sign of `a`, 0 on `i64::MIN % -1`.
pub open spec fn wrem(a: i64, b: i64) -> i64 {
    match a.checked_rem(b) {
        Some(r) => r,
        None => 0,
    }
}

/// Tagging commutes with `+`, `-` and negation: on tagged integers the
/// raw wrapping operations are the tagged results of the same wrapping
/// operations, so `Add`, `Sub` and `Neg` need no untagging.
pub proof fn lemma_tagged_add_sub_neg(a: i64, b: i64)
    ensures
        a.wrapping_shl(1).wrapping_add(b.wrapping_shl(1)) == a.wrapping_add(b).wrapping_shl(1),
        a.wrapping_shl(1).wrapping_sub(b.wrapping_shl(1)) == a.wrapping_sub(b).wrapping_shl(1),
        0i64.wrapping_sub(a.wrapping_shl(1)) == 0i64.wrapping_sub(a).wrapping_shl(1),
{
    assert(((a << 1u32) + (b << 1u32)) as i64 == (((a + b) as i64) << 1u32)) by (bit_vector);
    assert(((a << 1u32) - (b << 1u32)) as i64 == (((a - b) as i64) << 1u32)) by (bit_vector);
    assert((0i64 - (a << 1u32)) as i64 == (((0i64 - a) as i64) << 1u32)) by (bit_vector);
    assert(a.wrapping_shl(1) == a << 1u32);
    assert(b.wrapping_shl(1) == b << 1u32);
    lemma_wrapping_is_cast(a << 1u32, b << 1u32);
    lemma_wrapping_is_cast(a, b);
    lemma_wrapping_is_cast(0i64, a << 1u32);
    lemma_wrapping_is_cast(0i64, a);
}

/// Tagging an integer of the i63 range doubles it.
proof fn lemma_tag_doubles(a: i64)
    requires
        value::spec_fits_int(a as int),
    ensures
        a.wrapping_shl(1) == 2 * a,
{
    assert(-0x4000_0000_0000_0000 <= a <= 0x3fff_ffff_ffff_ffff ==> (a << 1u32) == 2 * a) by (bit_vector);
}

/// The raw product of two tagged integers, shifted right by one bit, is
/// the tagged product, as long as the product fits in 62 bits (so that
/// four times it fits in an `i64`). `Mul` on tagged values is `imul` and
/// one arithmetic shift.
pub proof fn lemma_tagged_mul(a: i64, b: i64)
    requires
        value::spec_fits_int(a as int),
        value::spec_fits_int(b as int),
        -0x2000_0000_0000_0000 <= a * b < 0x2000_0000_0000_0000,
    ensures
        a.wrapping_shl(1).wrapping_mul(b.wrapping_shl(1)) >> 1 == ((a * b) as i64).wrapping_shl(1),
{
    lemma_tag_doubles(a);
    lemma_tag_doubles(b);
    let c = (a * b) as i64;
    assert(c == a * b);
    let v: int = (2 * a) * (2 * b);
    assert(v == 4 * (a * b)) by (nonlinear_arith)
        requires
            v == (2 * a) * (2 * b),
    ;
    assert(-0x8000_0000_0000_0000 <= v < 0x8000_0000_0000_0000);
    assert(v % 0x1_0000_0000_0000_0000 == if v >= 0 { v } else { v + 0x1_0000_0000_0000_0000 }) by (nonlinear_arith)
        requires
            -0x8000_0000_0000_0000 <= v < 0x8000_0000_0000_0000,
    ;
    assert(((2 * a) as i64).wrapping_mul((2 * b) as i64) == v);
    assert(-0x2000_0000_0000_0000 <= c < 0x2000_0000_0000_0000 ==> (c << 2u32) == 4 * c && ((c << 2u32) >> 1u32)
        == (c << 1u32)) by (bit_vector);
    assert(c.wrapping_shl(1) == c << 1u32);
}

/// Dividing tagged integers gives the untagged quotient, and their
/// remainder is the tagged remainder: `Div` re-tags the quotient with one
/// shift, `Mod` needs none.
pub proof fn lemma_tagged_div_mod(a: i64, b: i64)
    requires
        value::spec_fits_int(a as int),
        value::spec_fits_int(b as int),
        b != 0,
    ensures
        wdiv(a.wrapping_shl(1), b.wrapping_shl(1)) == wdiv(a, b),
        wrem(a.wrapping_shl(1), b.wrapping_shl(1)) == wrem(a, b).wrapping_shl(1),
{
    lemma_tag_doubles(a);
    lemma_tag_doubles(b);
    let x = a as int;
    let d = b as int;
    let ax = if x < 0 { -x } else { x };
    let ad = if d < 0 { -d } else { d };
    vstd::arithmetic::div_mod::lemma_div_multiples_vanish_quotient(2, ax, ad);
    vstd::arithmetic::div_mod::lemma_truncate_middle(ax, 2, ad);
    assert((2 * ax) / (2 * ad) == ax / ad);
    assert((2 * ax) % (2 * ad) == 2 * (ax % ad));
    assert(0 <= ax % ad < ad) by {
        vstd::arithmetic::div_mod::lemma_mod_bound(ax, ad);
    }
    assert(ax / ad <= ax) by {
        vstd::arithmetic::div_mod::lemma_div_is_ordered_by_denominator(ax, 1, ad);
    }
    assert(0 <= ax / ad) by {
        vstd::arithmetic::div_mod::lemma_div_pos_is_pos(ax, ad);
    }
    lemma_tag_doubles(wrem(a, b));
}

/// `wrapping_add` and `wrapping_sub` are `+` and `-` cut to 64 bits.
proof fn lemma_wrapping_is_cast(x: i64, y: i64)
    ensures
        x.wrapping_add(y) == (x + y) as i64,
        x.wrapping_sub(y) == (x - y) as i64,
{
    assert(x + y > i64::MAX ==> (x + y - 0x1_0000_0000_0000_0000) as i64 == (x + y) as i64) by (bit_vector);
    assert(x + y < i64::MIN ==> (x + y + 0x1_0000_0000_0000_0000) as i64 == (x + y) as i64) by (bit_vector);
    assert(x - y > i64::MAX ==> (x - y - 0x1_0000_0000_0000_0000) as i64 == (x - y) as i64) by (bit_vector);
    assert(x - y < i64::MIN ==> (x - y + 0x1_0000_0000_0000_0000) as i64 == (x - y) as i64) by (bit_vector);
}

/// The error when control passes the last op of a function.
pub open spec fn off_end_msg(name: Seq<char>) -> Seq<char> {
    "control ran off the end of "@ + name
}

pub open spec fn type_msg(what: Seq<char>) -> Seq<char> {
    "type error: "@ + what + " on non-int"@
}

pub open spec fn arity_msg(name: Seq<char>, want: u8, got: u8) -> Seq<char> {
    "arity mismatch calling "@ + name + ": expected "@ + dec_int(want as int) + ", got "@ + dec_int(
        got as int,
    )
}

/// The line `print` writes for a value.
pub open spec fn print_text(v: AVal) -> Seq<char> {
    match v {
        AVal::Int(raw) => dec_int((raw >> 1) as int),
        AVal::Str(b) => spec_utf8_lossy(b),
    }
}

/// The line `print` writes for a tagged integer.
pub fn int_text(raw: Value) -> (s: String)
    ensures
        s@ == print_text(AVal::Int(raw)),
{
    fmt_i64(raw >> 1u32)
}

/// The line `print` writes for the bytes of a string.
pub fn str_text(b: &[u8]) -> (s: String)
    ensures
        s@ == print_text(AVal::Str(b@)),
{
    utf8_lossy(b)
}

/// The ops that build a new string.
pub open spec fn allocates(op: Op) -> bool {
    op is Add || op is Concat
}

/// The heap bytes that the strings among `vs` take, each counted once per
/// value that holds it.
pub open spec fn str_bytes(vs: Seq<AVal>) -> int
    decreases vs.len(),
{
    if vs.len() == 0 {
        0
    } else {
        str_bytes(vs.drop_last()) + match vs.last() {
            AVal::Str(b) => obj_size(b.len()),
            AVal::Int(_) => 0,
        }
    }
}

/// The values of a list of frames: each frame's slots, then its stack.
pub open spec fn frames_vals(fs: Seq<AFrame>) -> Seq<AVal>
    decreases fs.len(),
{
    if fs.len() == 0 {
        Seq::empty()
    } else {
        frames_vals(fs.drop_last()) + fs.last().slots + fs.last().stack
    }
}

/// The literals of the pool, as values.
pub open spec fn pool_vals(p: SProgram) -> Seq<AVal> {
    Seq::new(p.pool.len(), |k: int| AVal::Str(pool_bytes(p, k)))
}

/// Every value a state holds: the literals, then each frame's slots and
/// stack.
pub open spec fn state_vals(p: SProgram, s: AState) -> Seq<AVal> {
    pool_vals(p) + frames_vals(s.frames)
}

/// The heap bytes that the strings of a state take, each counted once per
/// place that holds it.
pub open spec fn state_bytes(p: SProgram, s: AState) -> int {
    str_bytes(state_vals(p, s))
}

/// Where a run may stop with "out of memory": at an op that builds a
/// string from the two strings on top of the stack, when the strings the
/// state holds without those two, counted once per place that holds them,
/// and the new string do not fit in `MAX_USED` bytes.
pub open spec fn oom_at(p: SProgram, s: AState) -> bool {
    let st = top(s).stack;
    &&& allocates(op_at(p, s))
    &&& st.len() >= 2
    &&& st[st.len() - 2] is Str
    &&& st.last() is Str
    &&& state_bytes(p, with_stack(s, st.drop_last().drop_last())) + obj_size(
        st[st.len() - 2]->Str_0.len() + st.last()->Str_0.len(),
    ) > MAX_USED
}

proof fn lemma_str_bytes_nonneg(vs: Seq<AVal>)
    ensures
        str_bytes(vs) >= 0,
    decreases vs.len(),
{
    if vs.len() > 0 {
        lemma_str_bytes_nonneg(vs.drop_last());
    }
}

/// The strings' sizes counted per value are the strings' sizes counted
/// per root.
proof fn lemma_absvs_bytes(h: Map<u64, Seq<u8>>, vals: Seq<Value>)
    requires
        roots_ok(h, vals),
    ensures
        str_bytes(absvs(h, vals)) == crate::heap::roots_bytes(h, vals),
    decreases vals.len(),
{
    if vals.len() > 0 {
        assert(val_ok(h, vals[vals.len() - 1]));
        assert forall|i: int| 0 <= i < vals.drop_last().len() implies val_ok(h, #[trigger] vals.drop_last()[i]) by {
            assert(val_ok(h, vals[i]));
        }
        lemma_absvs_bytes(h, vals.drop_last());
        assert(absvs(h, vals).drop_last() =~= absvs(h, vals.drop_last()));
    }
}

/// Is op `pc` of function `f` well formed in program `p`?
pub open spec fn op_ok(p: SProgram, f: SFunction, pc: int) -> bool {
    let nslots = f.argc + f.locals;
    match f.code[pc] {
        Op::Const(v) => v % 2 == 0,
        Op::LoadLocal(s) => s < nslots,
        Op::StoreLocal(s) => s < nslots,
        Op::LoadArg(a) => a < nslots,
        Op::Jump(off) => 0 <= pc + 1 + off < f.code.len(),
        Op::JumpIfFalse(off) => 0 <= pc + 1 + off < f.code.len(),
        Op::Call(id, _) => id < p.fns.len(),
        Op::Str(id) => id < p.pool.len(),
        _ => true,
    }
}

pub open spec fn fn_ok(p: SProgram, f: SFunction) -> bool {
    &&& 0 < f.code.len() <= i32::MAX
    &&& forall|pc: int| 0 <= pc < f.code.len() ==> #[trigger] op_ok(p, f, pc)
}

/// Well-formed bytecode: every op stays inside its function, its slots,
/// the program's functions and the string pool. (Control may still run
/// off the end of a function; that is a runtime error.)
pub open spec fn wf_program(p: SProgram) -> bool {
    &&& p.main_id < p.fns.len()
    &&& forall|i: int| 0 <= i < p.fns.len() ==> #[trigger] fn_ok(p, p.fns[i])
}

/// The bytes of a pool literal.
pub open spec fn pool_bytes(p: SProgram, id: int) -> Seq<u8> {
    encode_utf8(p.pool[id])
}

pub open spec fn zeros(n: nat) -> Seq<AVal> {
    Seq::new(n, |i: int| AVal::Int(0))
}

/// The state before the first op: `main`'s frame, nothing printed.
pub open spec fn init_state(p: SProgram) -> AState {
    let main = p.fns[p.main_id as int];
    AState {
        frames: seq![
            AFrame {
                fid: p.main_id as int,
                pc: 0,
                slots: zeros((main.argc + main.locals) as nat),
                stack: Seq::empty(),
            },
        ],
        out: Seq::empty(),
    }
}

/// `s` with its innermost frame replaced.
pub open spec fn with_top(s: AState, t: AFrame) -> AState {
    AState { frames: s.frames.drop_last().push(t), out: s.out }
}

/// The innermost frame moved on to the next op with the stack `stack`.
pub open spec fn next(s: AState, stack: Seq<AVal>) -> Outcome {
    let t = s.frames.last();
    Outcome::Go(with_top(s, AFrame { pc: t.pc + 1, stack, ..t }))
}

pub open spec fn underflow(s: AState) -> Outcome {
    Outcome::Fail("stack underflow"@, None, s.out)
}

/// A binary op on two integers: `f` of their raw values, or a type error.
pub open spec fn int_bin(
    s: AState,
    sp: Span,
    what: Seq<char>,
    a: AVal,
    b: AVal,
    rest: Seq<AVal>,
    f: spec_fn(i64, i64) -> AVal,
) -> Outcome {
    match (a, b) {
        (AVal::Int(x), AVal::Int(y)) => next(s, rest.push(f(x, y))),
        (AVal::Int(_), _) => Outcome::Fail(type_msg(what), Some(sp), s.out),
        _ => Outcome::Fail(type_msg(what), Some(sp), s.out),
    }
}

/// Content equality of two values; values of different kinds differ.
pub open spec fn aval_eq(a: AVal, b: AVal) -> bool {
    match (a, b) {
        (AVal::Int(x), AVal::Int(y)) => x == y,
        (AVal::Str(x), AVal::Str(y)) => x == y,
        _ => false,
    }
}

/// An op that pops two values.
pub open spec fn step2(p: SProgram, s: AState, op: Op, sp: Span) -> Outcome {
    let st = s.frames.last().stack;
    if st.len() < 2 {
        underflow(s)
    } else {
        let b = st.last();
        let a = st.drop_last().last();
        let rest = st.drop_last().drop_last();
        match op {
            Op::Add => match (a, b) {
                (AVal::Str(x), AVal::Str(y)) => next(s, rest.push(AVal::Str(x + y))),
                (AVal::Int(x), AVal::Int(y)) => next(s, rest.push(AVal::Int(x.wrapping_add(y)))),
                _ => Outcome::Fail("type error: + requires two ints or two strings"@, Some(sp), s.out),
            },
            Op::Sub => int_bin(s, sp, "-"@, a, b, rest, |x: i64, y: i64| AVal::Int(x.wrapping_sub(y))),
            Op::Mul => int_bin(
                s,
                sp,
                "*"@,
                a,
                b,
                rest,
                |x: i64, y: i64| AVal::Int(x.wrapping_mul(y) >> 1),
            ),
            Op::Div => match (a, b) {
                (AVal::Int(x), AVal::Int(y)) => if y == 0 {
                    Outcome::Fail("division by zero"@, Some(sp), s.out)
                } else {
                    next(s, rest.push(AVal::Int(wdiv(x, y).wrapping_shl(1))))
                },
                _ => Outcome::Fail(type_msg("/"@), Some(sp), s.out),
            },
            Op::Mod => match (a, b) {
                (AVal::Int(x), AVal::Int(y)) => if y == 0 {
                    Outcome::Fail("mod by zero"@, Some(sp), s.out)
                } else {
                    next(s, rest.push(AVal::Int(wrem(x, y))))
                },
                _ => Outcome::Fail(type_msg("%"@), Some(sp), s.out),
            },
            Op::Lt => int_bin(s, sp, "cmp"@, a, b, rest, |x: i64, y: i64| tbool(x < y)),
            Op::Le => int_bin(s, sp, "cmp"@, a, b, rest, |x: i64, y: i64| tbool(x <= y)),
            Op::Gt => int_bin(s, sp, "cmp"@, a, b, rest, |x: i64, y: i64| tbool(x > y)),
            Op::Ge => int_bin(s, sp, "cmp"@, a, b, rest, |x: i64, y: i64| tbool(x >= y)),
            Op::Eq => next(s, rest.push(tbool(aval_eq(a, b)))),
            Op::Ne => next(s, rest.push(tbool(!aval_eq(a, b)))),
            Op::Concat => match (a, b) {
                (AVal::Str(x), AVal::Str(y)) => next(s, rest.push(AVal::Str(x + y))),
                _ => Outcome::Fail("concat on non-strings"@, Some(sp), s.out),
            },
            _ => Outcome::Fail("stack underflow"@, None, s.out),
        }
    }
}

/// An op that pops one value.
pub open spec fn step1(p: SProgram, s: AState, op: Op, sp: Span) -> Outcome {
    let t = s.frames.last();
    let st = t.stack;
    if st.len() < 1 {
        underflow(s)
    } else {
        let v = st.last();
        let rest = st.drop_last();
        match op {
            Op::StoreLocal(slot) => Outcome::Go(
                with_top(s, AFrame { pc: t.pc + 1, slots: t.slots.update(slot as int, v), stack: rest, ..t }),
            ),
            Op::Neg => match v {
                AVal::Int(x) => next(s, rest.push(AVal::Int(0i64.wrapping_sub(x)))),
                _ => Outcome::Fail(type_msg("unary -"@), Some(sp), s.out),
            },
            Op::Not => next(s, rest.push(tbool(v == AVal::Int(0)))),
            Op::JumpIfFalse(off) => if v == AVal::Int(0) {
                Outcome::Go(with_top(s, AFrame { pc: t.pc + 1 + off, stack: rest, ..t }))
            } else {
                next(s, rest)
            },
            Op::Print => Outcome::Go(
                AState {
                    frames: s.frames.drop_last().push(AFrame { pc: t.pc + 1, stack: rest, ..t }),
                    out: s.out.push(print_text(v)),
                },
            ),
            Op::StrLen => match v {
                AVal::Str(b) => next(s, rest.push(AVal::Int((2 * b.len()) as i64))),
                _ => Outcome::Fail("len() on non-string"@, Some(sp), s.out),
            },
            _ => Outcome::Fail("stack underflow"@, None, s.out),
        }
    }
}

/// A call: the arguments move from the caller's stack to the callee's
/// first slots, the other slots start as 0.
pub open spec fn step_call(p: SProgram, s: AState, id: u32, argc: u8, sp: Span) -> Outcome {
    let t = s.frames.last();
    let callee = p.fns[id as int];
    if callee.argc != argc {
        Outcome::Fail(arity_msg(callee.name, callee.argc, argc), Some(sp), s.out)
    } else if t.stack.len() < argc {
        underflow(s)
    } else {
        let at = t.stack.len() - argc;
        let caller = AFrame { pc: t.pc + 1, stack: t.stack.take(at), ..t };
        let frame = AFrame {
            fid: id as int,
            pc: 0,
            slots: t.stack.skip(at) + zeros(callee.locals as nat),
            stack: Seq::empty(),
        };
        Outcome::Go(AState { frames: s.frames.drop_last().push(caller).push(frame), out: s.out })
    }
}

/// A return: the top of the stack (0 when it is empty) goes to the caller,
/// or ends the run.
pub open spec fn step_ret(s: AState) -> Outcome {
    let t = s.frames.last();
    let v = if t.stack.len() == 0 {
        AVal::Int(0)
    } else {
        t.stack.last()
    };
    if s.frames.len() == 1 {
        Outcome::Done(v, s.out)
    } else {
        let rest = s.frames.drop_last();
        let c = rest.last();
        Outcome::Go(
            AState { frames: rest.drop_last().push(AFrame { stack: c.stack.push(v), ..c }), out: s.out },
        )
    }
}

/// One op of the innermost frame.
pub open spec fn spec_step(p: SProgram, s: AState) -> Outcome {
    let t = s.frames.last();
    let f = p.fns[t.fid];
    let op = f.code[t.pc];
    let sp = span_of_op(f, t.pc);
    if t.pc >= f.code.len() {
        Outcome::Fail(off_end_msg(f.name), None, s.out)
    } else {
    match op {
        Op::Const(v) => next(s, t.stack.push(AVal::Int(v))),
        Op::LoadLocal(slot) => next(s, t.stack.push(t.slots[slot as int])),
        Op::LoadArg(a) => next(s, t.stack.push(t.slots[a as int])),
        Op::Jump(off) => Outcome::Go(with_top(s, AFrame { pc: t.pc + 1 + off, ..t })),
        Op::Call(id, argc) => step_call(p, s, id, argc, sp),
        Op::Ret => step_ret(s),
        Op::Pop => next(
            s,
            if t.stack.len() == 0 {
                t.stack
            } else {
                t.stack.drop_last()
            },
        ),
        Op::Str(id) => next(s, t.stack.push(AVal::Str(pool_bytes(p, id as int)))),
        Op::StoreLocal(_) | Op::Neg | Op::Not | Op::JumpIfFalse(_) | Op::Print | Op::StrLen => step1(
            p,
            s,
            op,
            sp,
        ),
        _ => step2(p, s, op, sp),
    }
    }
}

/// At most `fuel` steps from `s`.
pub open spec fn spec_run_from(p: SProgram, s: AState, fuel: nat) -> Outcome
    decreases fuel,
{
    if fuel == 0 {
        Outcome::Fail("step limit exceeded"@, None, s.out)
    } else {
        match spec_step(p, s) {
            Outcome::Go(s2) => spec_run_from(p, s2, (fuel - 1) as nat),
            o => o,
        }
    }
}

/// Exactly `n` steps from `s`, if the machine goes on that long.
pub open spec fn spec_steps(p: SProgram, s: AState, n: nat) -> Outcome
    decreases n,
{
    if n == 0 {
        Outcome::Go(s)
    } else {
        match spec_step(p, s) {
            Outcome::Go(s2) => spec_steps(p, s2, (n - 1) as nat),
            o => o,
        }
    }
}

/// Most ops a run executes.
pub const FUEL: u64 = 0xffff_ffff_ffff_ffff;

/// A whole run: malformed bytecode is refused, `main` must take no
/// arguments, the literals must fit in the heap, then at most `FUEL` steps
/// from the initial state.
pub open spec fn spec_run(p: SProgram) -> Outcome {
    if !wf_program(p) {
        Outcome::Fail("malformed bytecode"@, None, Seq::empty())
    } else if p.fns[p.main_id as int].argc != 0 {
        Outcome::Fail("main() must take no arguments"@, None, Seq::empty())
    } else if !pool_fits(p) {
        Outcome::Fail("out of memory"@, None, Seq::empty())
    } else {
        spec_run_from(p, init_state(p), FUEL as nat)
    }
}

/// Arena bytes the interned literals take.
pub open spec fn pool_size(pool: Seq<Seq<char>>) -> int
    decreases pool.len(),
{
    if pool.len() == 0 {
        0
    } else {
        pool_size(pool.drop_last()) + obj_size(encode_utf8(pool.last()).len())
    }
}

/// The interned literals fit in the heap.
pub open spec fn pool_fits(p: SProgram) -> bool {
    pool_size(p.pool) <= MAX_USED
}


/// A frame names a function, an op of it, and has its slots.
pub open spec fn aframe_ok(p: SProgram, f: AFrame) -> bool {
    &&& 0 <= f.fid < p.fns.len()
    &&& 0 <= f.pc <= p.fns[f.fid].code.len()
    &&& f.slots.len() == p.fns[f.fid].argc + p.fns[f.fid].locals
}

pub open spec fn astate_ok(p: SProgram, s: AState) -> bool {
    &&& s.frames.len() > 0
    &&& forall|i: int| 0 <= i < s.frames.len() ==> #[trigger] aframe_ok(p, s.frames[i])
}

/// In well-formed bytecode a step keeps every frame inside its function.
pub proof fn lemma_step_ok(p: SProgram, s: AState)
    requires
        wf_program(p),
        astate_ok(p, s),
    ensures
        spec_step(p, s) matches Outcome::Go(s2) ==> astate_ok(p, s2),
{
    let t = s.frames.last();
    let f = p.fns[t.fid];
    assert(aframe_ok(p, s.frames[s.frames.len() - 1]));
    assert(fn_ok(p, f));
    let op = f.code[t.pc];
    if t.pc < f.code.len() {
        assert(op_ok(p, f, t.pc));
    }
    if let Outcome::Go(s2) = spec_step(p, s) {
        assert forall|i: int| 0 <= i < s2.frames.len() implies #[trigger] aframe_ok(p, s2.frames[i]) by {
            if i < s.frames.len() - 1 {
                assert(aframe_ok(p, s.frames[i]));
            }
            if op is Call && i == s.frames.len() {
                let id = op->Call_0;
                assert(fn_ok(p, p.fns[id as int]));
            }
            if op is Ret {
                assert(aframe_ok(p, s.frames[s.frames.len() - 2]));
            }
        }
    }
}

/// The abstract value of a raw value in heap `h`.
pub open spec fn absv(h: Map<u64, Seq<u8>>, v: Value) -> AVal {
    if spec_is_int(v) {
        AVal::Int(v)
    } else {
        AVal::Str(h[spec_addr_of(v)])
    }
}

pub open spec fn absvs(h: Map<u64, Seq<u8>>, vs: Seq<Value>) -> Seq<AVal> {
    vs.map_values(|v: Value| absv(h, v))
}

/// The lines printed, as text.
pub open spec fn lines_v(out: Seq<String>) -> Seq<Seq<char>> {
    out.map_values(|s: String| s@)
}

/// A frame of the running machine: its slots start at `base` in the value
/// array, its stack follows them.
#[derive(Clone, Copy)]
struct XFrame {
    fid: usize,
    pc: usize,
    base: usize,
    nslots: usize,
}

/// The running machine. `vals` holds, in order, the interned literals and,
/// for each frame, its slots and then its stack: every value the program
/// can reach, so all of `vals` is the root set of a collection.
struct Machine {
    heap: Heap,
    vals: Vec<Value>,
    frames: Vec<XFrame>,
    out: Vec<String>,
    npool: usize,
}

impl Machine {
    /// Where the stack of frame `i` ends.
    spec fn frame_end(&self, i: int) -> int {
        if i + 1 < self.frames@.len() {
            self.frames@[i + 1].base as int
        } else {
            self.vals@.len() as int
        }
    }

    spec fn avals(&self) -> Seq<AVal> {
        absvs(self.heap@, self.vals@)
    }

    /// Frame `i` of the machine stands for the abstract frame `a`.
    spec fn frame_rel(&self, i: int, a: AFrame) -> bool {
        let f = self.frames@[i];
        &&& f.fid == a.fid
        &&& f.pc == a.pc
        &&& f.nslots == a.slots.len()
        &&& self.npool <= f.base
        &&& f.base + f.nslots <= self.frame_end(i) <= self.vals@.len()
        &&& self.avals().subrange(f.base as int, f.base + f.nslots) == a.slots
        &&& self.avals().subrange(f.base + f.nslots, self.frame_end(i)) == a.stack
    }

    /// The machine stands for the abstract state `s` of program `p`.
    spec fn rel(&self, p: SProgram, s: AState) -> bool {
        &&& self.rel0(p, s)
        &&& astate_ok(p, s)
    }

    /// Where the values of the first `k` frames end.
    spec fn prefix_end(&self, k: int) -> int {
        if k == 0 {
            self.npool as int
        } else {
            self.frame_end(k - 1)
        }
    }

    /// The values of the machine up to the end of frame `k - 1` are the
    /// literals and the values of the first `k` abstract frames.
    proof fn lemma_avals_prefix(&self, p: SProgram, s: AState, k: int)
        requires
            self.rel0(p, s),
            0 <= k <= s.frames.len(),
        ensures
            0 <= self.prefix_end(k) <= self.vals@.len(),
            self.avals().subrange(0, self.prefix_end(k)) == pool_vals(p) + frames_vals(s.frames.take(k)),
        decreases k,
    {
        let a = self.avals();
        if k == 0 {
            assert(s.frames.take(0) =~= Seq::<AFrame>::empty());
            assert(a.subrange(0, self.npool as int) =~= pool_vals(p));
        } else {
            self.lemma_avals_prefix(p, s, k - 1);
            let i = k - 1;
            let f = self.frames@[i];
            assert(self.frame_rel(i, s.frames[i]));
            assert(f.base == self.prefix_end(i));
            let lo = f.base as int;
            let mid = f.base + f.nslots;
            let hi = self.frame_end(i);
            assert(s.frames.take(k).drop_last() =~= s.frames.take(i));
            assert(s.frames.take(k).last() == s.frames[i]);
            assert(a.subrange(0, hi) =~= a.subrange(0, lo) + a.subrange(lo, mid) + a.subrange(mid, hi));
        }
    }

    /// The machine's values are the state's values.
    proof fn lemma_avals_state(&self, p: SProgram, s: AState)
        requires
            self.rel0(p, s),
        ensures
            self.avals() == state_vals(p, s),
    {
        self.lemma_avals_prefix(p, s, s.frames.len() as int);
        assert(s.frames.take(s.frames.len() as int) =~= s.frames);
        assert(self.avals().subrange(0, self.vals@.len() as int) =~= self.avals());
    }

    /// `rel` without the bounds on the abstract state.
    spec fn rel0(&self, p: SProgram, s: AState) -> bool {
        &&& self.heap.wf()
        &&& roots_ok(self.heap@, self.vals@)
        &&& s.frames.len() > 0
        &&& self.npool == p.pool.len()
        &&& self.npool <= self.vals@.len()
        &&& forall|k: int| 0 <= k < self.npool ==> #[trigger] self.avals()[k] == AVal::Str(pool_bytes(p, k))
        &&& self.frames@.len() == s.frames.len()
        &&& self.frames@[0].base == self.npool
        &&& forall|i: int| 0 <= i < s.frames.len() ==> #[trigger] self.frame_rel(i, s.frames[i])
        &&& forall|i: int, j: int|
            0 <= i < j < self.frames@.len() ==> #[trigger] self.frame_end(i) <= #[trigger] self.frames@[j].base
        &&& lines_v(self.out@) == s.out
    }
}

pub open spec fn top(s: AState) -> AFrame {
    s.frames.last()
}


pub open spec fn with_stack(s: AState, st: Seq<AVal>) -> AState {
    with_top(s, AFrame { stack: st, ..top(s) })
}

impl Machine {
    /// Push `v` on the innermost frame's stack.
    fn push(&mut self, v: Value, Ghost(p): Ghost<SProgram>, Ghost(s): Ghost<AState>)
        requires
            old(self).rel0(p, s),
            val_ok(old(self).heap@, v),
        ensures
            final(self).rel0(p, with_stack(s, top(s).stack.push(absv(old(self).heap@, v)))),
            final(self).heap == old(self).heap,
            final(self).frames@ == old(self).frames@,
            final(self).out == old(self).out,
    {
        let ghost a0 = self.avals();
        self.vals.push(v);
        let ghost s2 = with_stack(s, top(s).stack.push(absv(self.heap@, v)));
        proof {
            let a1 = self.avals();
            assert(a1 =~= a0.push(absv(self.heap@, v)));
            let n = s.frames.len();
            assert forall|i: int| 0 <= i < s2.frames.len() implies #[trigger] self.frame_rel(i, s2.frames[i]) by {
                assert(old(self).frame_rel(i, s.frames[i]));
                let f = self.frames@[i];
                if i < n - 1 {
                    assert(a1.subrange(f.base as int, f.base + f.nslots) =~= a0.subrange(f.base as int, f.base + f.nslots));
                    assert(a1.subrange(f.base + f.nslots, self.frame_end(i)) =~= a0.subrange(f.base + f.nslots, old(self).frame_end(i)));
                } else {
                    assert(a1.subrange(f.base as int, f.base + f.nslots) =~= a0.subrange(f.base as int, f.base + f.nslots));
                    assert(a1.subrange(f.base + f.nslots, self.frame_end(i)) =~= a0.subrange(f.base + f.nslots, old(self).frame_end(i)).push(absv(self.heap@, v)));
                }
            }
            assert forall|i: int, j: int|
                0 <= i < j < self.frames@.len() implies #[trigger] self.frame_end(i) <= #[trigger] self.frames@[j].base by {
                assert(old(self).frame_end(i) <= old(self).frames@[j].base);
            }
            assert forall|k: int| 0 <= k < self.npool implies #[trigger] self.avals()[k] == AVal::Str(pool_bytes(p, k)) by {
                assert(old(self).avals()[k] == AVal::Str(pool_bytes(p, k)));
            }
            assert(roots_ok(self.heap@, self.vals@)) by {
                assert forall|k: int| 0 <= k < self.vals@.len() implies val_ok(self.heap@, #[trigger] self.vals@[k]) by {
                    if k < old(self).vals@.len() {
                        assert(val_ok(self.heap@, old(self).vals@[k]));
                    }
                }
            }
        }
    }

    /// Pop the innermost frame's stack; `None` when it is empty.
    fn pop(&mut self, Ghost(p): Ghost<SProgram>, Ghost(s): Ghost<AState>) -> (r: Option<Value>)
        requires
            old(self).rel0(p, s),
        ensures
            final(self).heap == old(self).heap,
            final(self).frames@ == old(self).frames@,
            final(self).out == old(self).out,
            top(s).stack.len() == 0 ==> r is None && final(self).rel0(p, s),
            top(s).stack.len() > 0 ==> (r matches Some(v) && val_ok(old(self).heap@, v) && absv(
                old(self).heap@,
                v,
            ) == top(s).stack.last() && final(self).rel0(p, with_stack(s, top(s).stack.drop_last()))),
    {
        let n = self.frames.len();
        proof {
            assert(self.frame_rel(n - 1, s.frames[n - 1]));
        }
        let _vl = self.vals.len();
        let t = &self.frames[n - 1];
        let lo = t.base + t.nslots;
        if self.vals.len() <= lo {
            return None;
        }
        let ghost a0 = self.avals();
        let v = self.vals.pop().unwrap();
        let ghost s2 = with_stack(s, top(s).stack.drop_last());
        proof {
            let a1 = self.avals();
            assert(a1 =~= a0.drop_last());
            assert(val_ok(self.heap@, old(self).vals@[old(self).vals@.len() - 1]));
            assert forall|i: int| 0 <= i < s2.frames.len() implies #[trigger] self.frame_rel(i, s2.frames[i]) by {
                assert(old(self).frame_rel(i, s.frames[i]));
                let f = self.frames@[i];
                if i < n - 1 {
                    assert(old(self).frame_end(i) <= old(self).frames@[n - 1].base);
                    assert(a1.subrange(f.base as int, f.base + f.nslots) =~= a0.subrange(f.base as int, f.base + f.nslots));
                    assert(a1.subrange(f.base + f.nslots, self.frame_end(i)) =~= a0.subrange(f.base + f.nslots, old(self).frame_end(i)));
                } else {
                    assert(a1.subrange(f.base as int, f.base + f.nslots) =~= a0.subrange(f.base as int, f.base + f.nslots));
                    assert(a1.subrange(f.base + f.nslots, self.frame_end(i)) =~= a0.subrange(f.base + f.nslots, old(self).frame_end(i)).drop_last());
                }
            }
            assert forall|i: int, j: int|
                0 <= i < j < self.frames@.len() implies #[trigger] self.frame_end(i) <= #[trigger] self.frames@[j].base by {
                assert(old(self).frame_end(i) <= old(self).frames@[j].base);
            }
            assert forall|k: int| 0 <= k < self.npool implies #[trigger] self.avals()[k] == AVal::Str(pool_bytes(p, k)) by {
                assert(old(self).avals()[k] == AVal::Str(pool_bytes(p, k)));
            }
            assert(roots_ok(self.heap@, self.vals@)) by {
                assert forall|k: int| 0 <= k < self.vals@.len() implies val_ok(self.heap@, #[trigger] self.vals@[k]) by {
                    assert(val_ok(self.heap@, old(self).vals@[k]));
                }
            }
        }
        Some(v)
    }
}


pub open spec fn with_slots(s: AState, sl: Seq<AVal>) -> AState {
    with_top(s, AFrame { slots: sl, ..top(s) })
}

pub open spec fn with_pc(s: AState, pc: int) -> AState {
    with_top(s, AFrame { pc, ..top(s) })
}

/// Same values in the same places, read in two heaps.
proof fn lemma_absvs_same(h0: Map<u64, Seq<u8>>, v0: Seq<Value>, h1: Map<u64, Seq<u8>>, v1: Seq<Value>)
    requires
        v0.len() == v1.len(),
        forall|i: int| 0 <= i < v0.len() ==> same_val(h0, #[trigger] v0[i], h1, v1[i]),
    ensures
        absvs(h1, v1) == absvs(h0, v0),
        roots_ok(h1, v1),
{
    assert forall|i: int| 0 <= i < v0.len() implies #[trigger] absvs(h1, v1)[i] == absvs(h0, v0)[i] by {
        assert(same_val(h0, v0[i], h1, v1[i]));
    }
    assert(absvs(h1, v1) =~= absvs(h0, v0));
    assert forall|i: int| 0 <= i < v1.len() implies val_ok(h1, #[trigger] v1[i]) by {
        assert(same_val(h0, v0[i], h1, v1[i]));
    }
}

impl Machine {
    /// Slot `k` of the innermost frame.
    fn get_slot(&self, k: usize, Ghost(p): Ghost<SProgram>, Ghost(s): Ghost<AState>) -> (v: Value)
        requires
            self.rel0(p, s),
            k < top(s).slots.len(),
        ensures
            val_ok(self.heap@, v),
            absv(self.heap@, v) == top(s).slots[k as int],
    {
        let n = self.frames.len();
        proof {
            assert(self.frame_rel(n - 1, s.frames[n - 1]));
        }
        let _vl = self.vals.len();
        let i = self.frames[n - 1].base + k;
        proof {
            assert(self.avals().subrange(self.frames@[n - 1].base as int, self.frames@[n - 1].base + self.frames@[n - 1].nslots)[k as int] == self.avals()[i as int]);
            assert(val_ok(self.heap@, self.vals@[i as int]));
        }
        self.vals[i]
    }

    /// Store `v` in slot `k` of the innermost frame.
    fn set_slot(&mut self, k: usize, v: Value, Ghost(p): Ghost<SProgram>, Ghost(s): Ghost<AState>)
        requires
            old(self).rel0(p, s),
            k < top(s).slots.len(),
            val_ok(old(self).heap@, v),
        ensures
            final(self).rel0(p, with_slots(s, top(s).slots.update(k as int, absv(old(self).heap@, v)))),
            final(self).heap == old(self).heap,
            final(self).frames@ == old(self).frames@,
    {
        let n = self.frames.len();
        proof {
            assert(self.frame_rel(n - 1, s.frames[n - 1]));
        }
        let _vl = self.vals.len();
        let idx = self.frames[n - 1].base + k;
        let ghost a0 = self.avals();
        self.vals.set(idx, v);
        let ghost s2 = with_slots(s, top(s).slots.update(k as int, absv(self.heap@, v)));
        proof {
            let a1 = self.avals();
            assert(a1 =~= a0.update(idx as int, absv(self.heap@, v)));
            assert forall|i: int| 0 <= i < s2.frames.len() implies #[trigger] self.frame_rel(i, s2.frames[i]) by {
                assert(old(self).frame_rel(i, s.frames[i]));
                let f = self.frames@[i];
                if i < n - 1 {
                    assert(old(self).frame_end(i) <= old(self).frames@[n - 1].base);
                    assert(a1.subrange(f.base as int, f.base + f.nslots) =~= a0.subrange(f.base as int, f.base + f.nslots));
                    assert(a1.subrange(f.base + f.nslots, self.frame_end(i)) =~= a0.subrange(f.base + f.nslots, old(self).frame_end(i)));
                } else {
                    assert(a1.subrange(f.base as int, f.base + f.nslots) =~= a0.subrange(f.base as int, f.base + f.nslots).update(k as int, absv(self.heap@, v)));
                    assert(a1.subrange(f.base + f.nslots, self.frame_end(i)) =~= a0.subrange(f.base + f.nslots, old(self).frame_end(i)));
                }
            }
            assert forall|i: int, j: int|
                0 <= i < j < self.frames@.len() implies #[trigger] self.frame_end(i) <= #[trigger] self.frames@[j].base by {
                assert(old(self).frame_end(i) <= old(self).frames@[j].base);
            }
            assert forall|k: int| 0 <= k < self.npool implies #[trigger] self.avals()[k] == AVal::Str(pool_bytes(p, k)) by {
                assert(old(self).avals()[k] == AVal::Str(pool_bytes(p, k)));
            }
            assert(roots_ok(self.heap@, self.vals@)) by {
                assert forall|j: int| 0 <= j < self.vals@.len() implies val_ok(self.heap@, #[trigger] self.vals@[j]) by {
                    if j != idx {
                        assert(val_ok(self.heap@, old(self).vals@[j]));
                    }
                }
            }
        }
    }

    /// Move the innermost frame to op `pc`.
    fn set_pc(&mut self, pc: usize, Ghost(p): Ghost<SProgram>, Ghost(s): Ghost<AState>)
        requires
            old(self).rel0(p, s),
        ensures
            final(self).rel0(p, with_pc(s, pc as int)),
            final(self).heap == old(self).heap,
            final(self).vals == old(self).vals,
            final(self).frames@.len() == old(self).frames@.len(),
            final(self).out == old(self).out,
    {
        let n = self.frames.len();
        let mut t = self.frames[n - 1];
        t.pc = pc;
        self.frames.set(n - 1, t);
        let ghost s2 = with_pc(s, pc as int);
        proof {
            assert forall|i: int| 0 <= i < s2.frames.len() implies #[trigger] self.frame_rel(i, s2.frames[i]) by {
                assert(old(self).frame_rel(i, s.frames[i]));
                let f = self.frames@[i];
                assert(self.frame_end(i) == old(self).frame_end(i));
            }
            assert forall|i: int, j: int|
                0 <= i < j < self.frames@.len() implies #[trigger] self.frame_end(i) <= #[trigger] self.frames@[j].base by {
                assert(old(self).frame_end(i) <= old(self).frames@[j].base);
            }
            assert forall|k: int| 0 <= k < self.npool implies #[trigger] self.avals()[k] == AVal::Str(pool_bytes(p, k)) by {
                assert(old(self).avals()[k] == AVal::Str(pool_bytes(p, k)));
            }
        }
    }

    /// Print a line.
    fn print_line(&mut self, line: String, Ghost(p): Ghost<SProgram>, Ghost(s): Ghost<AState>)
        requires
            old(self).rel0(p, s),
        ensures
            final(self).rel0(p, AState { frames: s.frames, out: s.out.push(line@) }),
            final(self).heap == old(self).heap,
            final(self).vals == old(self).vals,
            final(self).frames == old(self).frames,
    {
        self.out.push(line);
        proof {
            assert(lines_v(self.out@) =~= s.out.push(line@));
            assert forall|i: int| 0 <= i < s.frames.len() implies #[trigger] self.frame_rel(i, s.frames[i]) by {
                assert(old(self).frame_rel(i, s.frames[i]));
            }
            assert forall|i: int, j: int|
                0 <= i < j < self.frames@.len() implies #[trigger] self.frame_end(i) <= #[trigger] self.frames@[j].base by {
                assert(old(self).frame_end(i) <= old(self).frames@[j].base);
            }
            assert forall|k: int| 0 <= k < self.npool implies #[trigger] self.avals()[k] == AVal::Str(pool_bytes(p, k)) by {
                assert(old(self).avals()[k] == AVal::Str(pool_bytes(p, k)));
            }
        }
    }

    /// A new string holding `bytes`; collects first, with every value of
    /// the machine as a root, when the arena would pass `MAX_USED`.
    /// `None` when the live strings leave no room.
    fn new_string(&mut self, bytes: &[u8], Ghost(p): Ghost<SProgram>, Ghost(s): Ghost<AState>) -> (r: Option<Value>)
        requires
            old(self).rel0(p, s),
        ensures
            r matches Some(v) ==> final(self).rel0(p, s) && val_ok(final(self).heap@, v) && absv(
                final(self).heap@,
                v,
            ) == AVal::Str(bytes@),
            final(self).frames == old(self).frames,
            final(self).out == old(self).out,
            r is None ==> state_bytes(p, s) + obj_size(bytes@.len()) > MAX_USED,
    {
        proof {
            self.lemma_avals_state(p, s);
            lemma_absvs_bytes(self.heap@, self.vals@);
            lemma_str_bytes_nonneg(state_vals(p, s));
            self.heap.lemma_live_bound(self.vals@);
        }
        if bytes.len() > MAX_USED {
            return None;
        }
        let need = crate::heap::round_up_8(crate::heap::HEADER_SIZE + bytes.len());
        let ghost h0 = self.heap@;
        let ghost v0 = self.vals@;
        proof {
            self.heap.lemma_used();
        }
        if self.heap.bytes_in_use() + need > MAX_USED {
            self.heap.collect(&mut self.vals);
            proof {
                self.heap.lemma_used();
            }
        }
        if self.heap.bytes_in_use() + need > MAX_USED {
            return None;
        }
        let ghost h1 = self.heap@;
        let ghost v1 = self.vals@;
        proof {
            if h1 != h0 || v1 != v0 {
                lemma_absvs_same(h0, v0, h1, v1);
            }
        }
        proof {
            self.heap.lemma_live_bound(self.vals@);
        }
        let a = self.heap.alloc_str(bytes, &mut self.vals);
        proof {
            lemma_absvs_same(h1, v1, self.heap@, self.vals@);
            self.heap.lemma_addrs(a);
            crate::value::lemma_ptr_roundtrip(a);
            assert forall|i: int| 0 <= i < s.frames.len() implies #[trigger] self.frame_rel(i, s.frames[i]) by {
                assert(old(self).frame_rel(i, s.frames[i]));
            }
            assert forall|i: int, j: int|
                0 <= i < j < self.frames@.len() implies #[trigger] self.frame_end(i) <= #[trigger] self.frames@[j].base by {
                assert(old(self).frame_end(i) <= old(self).frames@[j].base);
            }
            assert forall|k: int| 0 <= k < self.npool implies #[trigger] self.avals()[k] == AVal::Str(pool_bytes(p, k)) by {
                assert(old(self).avals()[k] == AVal::Str(pool_bytes(p, k)));
            }
        }
        Some(crate::value::pack_ptr(a))
    }
}


/// The abstract state after a call splits the innermost frame: its last
/// `n` stack values become the slots of a new frame for function `id`.
pub open spec fn split_top(s: AState, id: int, n: int) -> AState {
    let t = top(s);
    let at = t.stack.len() - n;
    AState {
        frames: s.frames.drop_last().push(AFrame { stack: t.stack.take(at), ..t }).push(
            AFrame { fid: id, pc: 0, slots: t.stack.skip(at), stack: Seq::empty() },
        ),
        out: s.out,
    }
}

pub open spec fn drop_top(s: AState) -> AState {
    AState { frames: s.frames.drop_last(), out: s.out }
}

impl Machine {
    /// Turn the last `n` stack values of the innermost frame into the slots
    /// of a new innermost frame for function `id`.
    fn split_frame(&mut self, id: usize, n: usize, Ghost(p): Ghost<SProgram>, Ghost(s): Ghost<AState>)
        requires
            old(self).rel0(p, s),
            n <= top(s).stack.len(),
        ensures
            final(self).rel0(p, split_top(s, id as int, n as int)),
            final(self).heap == old(self).heap,
            final(self).vals == old(self).vals,
            final(self).out == old(self).out,
    {
        let ghost len = self.frames@.len();
        proof {
            assert(self.frame_rel(len - 1, s.frames[len - 1]));
        }
        let base = self.vals.len() - n;
        self.frames.push(XFrame { fid: id, pc: 0, base, nslots: n });
        let ghost s2 = split_top(s, id as int, n as int);
        proof {
            let a = self.avals();
            let t = top(s);
            let ft = old(self).frames@[len - 1];
            assert forall|i: int| 0 <= i < s2.frames.len() implies #[trigger] self.frame_rel(i, s2.frames[i]) by {
                if i < len - 1 {
                    assert(old(self).frame_rel(i, s.frames[i]));
                    assert(self.frame_end(i) == old(self).frame_end(i));
                } else if i == len - 1 {
                    assert(old(self).frame_rel(i, s.frames[i]));
                    assert(self.frame_end(i) == base);
                    assert(a.subrange(ft.base + ft.nslots, base as int) =~= a.subrange(ft.base + ft.nslots, old(self).frame_end(i)).take(t.stack.len() - n));
                } else {
                    assert(old(self).frame_rel(len - 1, s.frames[len - 1]));
                    assert(a.subrange(base as int, base + n) =~= a.subrange(ft.base + ft.nslots, old(self).frame_end(len - 1)).skip(t.stack.len() - n));
                    assert(a.subrange(base + n, self.frame_end(i)) =~= Seq::<AVal>::empty());
                }
            }
            assert forall|i: int, j: int|
                0 <= i < j < self.frames@.len() implies #[trigger] self.frame_end(i) <= #[trigger] self.frames@[j].base by {
                if j < len {
                    assert(old(self).frame_end(i) <= old(self).frames@[j].base);
                } else if i < len - 1 {
                    assert(old(self).frame_end(i) <= old(self).frames@[len - 1].base);
                }
            }
            assert forall|k: int| 0 <= k < self.npool implies #[trigger] self.avals()[k] == AVal::Str(pool_bytes(p, k)) by {
                assert(old(self).avals()[k] == AVal::Str(pool_bytes(p, k)));
            }
        }
    }

    /// Remove the innermost frame and its values.
    fn drop_frame(&mut self, Ghost(p): Ghost<SProgram>, Ghost(s): Ghost<AState>)
        requires
            old(self).rel0(p, s),
            s.frames.len() >= 2,
        ensures
            final(self).rel0(p, drop_top(s)),
            final(self).heap == old(self).heap,
            final(self).out == old(self).out,
    {
        let n = self.frames.len();
        proof {
            assert(self.frame_rel(n - 1, s.frames[n - 1]));
        }
        let base = self.frames[n - 1].base;
        let ghost a0 = self.avals();
        self.vals.truncate(base);
        self.frames.pop();
        let ghost s2 = drop_top(s);
        proof {
            let a1 = self.avals();
            assert(a1 =~= a0.take(base as int));
            assert forall|i: int| 0 <= i < s2.frames.len() implies #[trigger] self.frame_rel(i, s2.frames[i]) by {
                assert(old(self).frame_rel(i, s.frames[i]));
                let f = self.frames@[i];
                assert(old(self).frame_end(i) <= old(self).frames@[n - 1].base);
                assert(a1.subrange(f.base as int, f.base + f.nslots) =~= a0.subrange(f.base as int, f.base + f.nslots));
                assert(a1.subrange(f.base + f.nslots, self.frame_end(i)) =~= a0.subrange(f.base + f.nslots, old(self).frame_end(i)));
            }
            assert forall|i: int, j: int|
                0 <= i < j < self.frames@.len() implies #[trigger] self.frame_end(i) <= #[trigger] self.frames@[j].base by {
                assert(old(self).frame_end(i) <= old(self).frames@[j].base);
            }
            assert(old(self).frame_rel(0, s.frames[0]));
            assert forall|k: int| 0 <= k < self.npool implies #[trigger] self.avals()[k] == AVal::Str(pool_bytes(p, k)) by {
                assert(old(self).avals()[k] == AVal::Str(pool_bytes(p, k)));
            }
            assert(roots_ok(self.heap@, self.vals@)) by {
                assert forall|j: int| 0 <= j < self.vals@.len() implies val_ok(self.heap@, #[trigger] self.vals@[j]) by {
                    assert(val_ok(self.heap@, old(self).vals@[j]));
                }
            }
        }
    }
}


/// Setting the stack and then the pc is `next`.
pub proof fn lemma_next(s: AState, st: Seq<AVal>)
    requires
        s.frames.len() > 0,
    ensures
        next(s, st) == Outcome::Go(with_pc(with_stack(s, st), top(s).pc + 1)),
{
    assert(with_pc(with_stack(s, st), top(s).pc + 1) =~= with_top(
        s,
        AFrame { pc: top(s).pc + 1, stack: st, ..top(s) },
    ));
}

/// Setting the stack twice is setting it once.
pub proof fn lemma_stack_twice(s: AState, a: Seq<AVal>, b: Seq<AVal>)
    requires
        s.frames.len() > 0,
    ensures
        with_stack(with_stack(s, a), b) == with_stack(s, b),
        top(with_stack(s, a)).stack == a,
{
    assert(with_stack(with_stack(s, a), b) =~= with_stack(s, b));
}

/// The op the innermost frame is at.
pub open spec fn op_at(p: SProgram, s: AState) -> Op {
    p.fns[top(s).fid].code[top(s).pc]
}

pub open spec fn span_at(p: SProgram, s: AState) -> Span {
    span_of_op(p.fns[top(s).fid], top(s).pc)
}

/// The source position of op `pc` of `f`: its span, or the unknown
/// position when `spans` is shorter than the code.
pub open spec fn span_of_op(f: SFunction, pc: int) -> Span {
    if 0 <= pc < f.spans.len() {
        f.spans[pc]
    } else {
        Span { line: 0, col: 0 }
    }
}

/// What one step of the machine came to.
enum XStep {
    Go,
    Done(Value),
    Fail(String, Option<Span>),
    /// The live strings left no room for a new one.
    Oom,
}

impl Machine {
    /// The machine after a step from abstract state `s` that returned `r`
    /// is where `spec_step` says.
    spec fn post(&self, p: SProgram, s: AState, r: XStep) -> bool {
        match spec_step(p, s) {
            Outcome::Go(s2) => (r is Go && self.rel0(p, s2)) || (r is Oom && oom_at(p, s)
                && lines_v(self.out@) == s.out),
            Outcome::Done(v, out) => r matches XStep::Done(x) && self.heap.wf() && val_ok(self.heap@, x)
                && absv(self.heap@, x) == v && lines_v(self.out@) == out,
            Outcome::Fail(m, sp, out) => r matches XStep::Fail(mm, sp2) && mm@ == m && sp2 == sp
                && lines_v(self.out@) == out,
        }
    }

    /// Where the innermost frame is, and what function it runs.
    fn here(&self, prog: &Program, Ghost(s): Ghost<AState>) -> (r: (usize, usize))
        requires
            self.rel(prog@, s),
        ensures
            r.0 == top(s).fid,
            r.1 == top(s).pc,
            r.0 < prog.fns@.len(),
            r.1 <= prog.fns@[r.0 as int].code@.len(),
    {
        let n = self.frames.len();
        proof {
            assert(self.frame_rel(n - 1, s.frames[n - 1]));
            assert(aframe_ok(prog@, s.frames[n - 1]));
        }
        (self.frames[n - 1].fid, self.frames[n - 1].pc)
    }

    /// Ops that pop nothing: constants, loads, jumps, `Pop`, literals.
    fn exec_simple(&mut self, prog: &Program, op: Op, Ghost(s): Ghost<AState>) -> (r: XStep)
        requires
            old(self).rel(prog@, s),
            wf_program(prog@),
            op_at(prog@, s) == op,
            top(s).pc < prog@.fns[top(s).fid].code.len(),
            op is Const || op is LoadLocal || op is LoadArg || op is Jump || op is Pop || op is Str,
        ensures
            final(self).post(prog@, s, r),
    {
        let ghost p = prog@;
        let (fid, pc) = self.here(prog, Ghost(s));
        proof {
            assert(fn_ok(p, p.fns[fid as int]));
            assert(op_ok(p, p.fns[fid as int], pc as int));
            assert(op !is Ret && op !is Jump ==> pc + 1 <= p.fns[fid as int].code.len());
            assert(aframe_ok(p, s.frames[s.frames.len() - 1]));
        }
        match op {
            Op::Const(v) => {
                proof {
                    lemma_next(s, top(s).stack.push(AVal::Int(v)));
                }
                self.push(v, Ghost(p), Ghost(s));
                self.set_pc(pc + 1, Ghost(p), Ghost(with_stack(s, top(s).stack.push(AVal::Int(v)))));
                XStep::Go
            },
            Op::LoadLocal(k) => {
                let v = self.get_slot(k as usize, Ghost(p), Ghost(s));
                let ghost av = absv(self.heap@, v);
                proof {
                    lemma_next(s, top(s).stack.push(av));
                }
                self.push(v, Ghost(p), Ghost(s));
                self.set_pc(pc + 1, Ghost(p), Ghost(with_stack(s, top(s).stack.push(av))));
                XStep::Go
            },
            Op::LoadArg(k) => {
                let v = self.get_slot(k as usize, Ghost(p), Ghost(s));
                let ghost av = absv(self.heap@, v);
                proof {
                    lemma_next(s, top(s).stack.push(av));
                }
                self.push(v, Ghost(p), Ghost(s));
                self.set_pc(pc + 1, Ghost(p), Ghost(with_stack(s, top(s).stack.push(av))));
                XStep::Go
            },
            Op::Jump(off) => {
                let target = (pc as i64 + 1 + off as i64) as usize;
                self.set_pc(target, Ghost(p), Ghost(s));
                proof {
                    assert(with_pc(s, target as int) =~= with_top(s, AFrame { pc: top(s).pc + 1 + off, ..top(s) }));
                }
                XStep::Go
            },
            Op::Pop => {
                let ghost st = top(s).stack;
                proof {
                    lemma_next(s, if st.len() == 0 { st } else { st.drop_last() });
                    assert(with_stack(s, st) =~= s);
                }
                match self.pop(Ghost(p), Ghost(s)) {
                    None => {
                        self.set_pc(pc + 1, Ghost(p), Ghost(s));
                    },
                    Some(_) => {
                        self.set_pc(pc + 1, Ghost(p), Ghost(with_stack(s, st.drop_last())));
                    },
                }
                XStep::Go
            },
            Op::Str(id) => {
                proof {
                    assert(self.avals()[id as int] == AVal::Str(pool_bytes(p, id as int)));
                    lemma_next(s, top(s).stack.push(AVal::Str(pool_bytes(p, id as int))));
                }
                let v = self.vals[id as usize];
                proof {
                    assert(roots_ok(self.heap@, self.vals@));
                    assert(val_ok(self.heap@, self.vals@[id as int]));
                }
                self.push(v, Ghost(p), Ghost(s));
                self.set_pc(
                    pc + 1,
                    Ghost(p),
                    Ghost(with_stack(s, top(s).stack.push(AVal::Str(pool_bytes(p, id as int))))),
                );
                XStep::Go
            },
            _ => XStep::Oom,
        }
    }
}


/// "type error: {what} on non-int".
fn type_err(what: &str) -> (m: String)
    ensures
        m@ == type_msg(what@),
{
    concat_lit(concat_lit(lit("type error: "), what), " on non-int")
}

impl Machine {
    /// Ops that pop one value.
    fn exec_one(&mut self, prog: &Program, op: Op, span: Span, Ghost(s): Ghost<AState>) -> (r: XStep)
        requires
            old(self).rel(prog@, s),
            wf_program(prog@),
            op_at(prog@, s) == op,
            top(s).pc < prog@.fns[top(s).fid].code.len(),
            span_at(prog@, s) == span,
            op is StoreLocal || op is Neg || op is Not || op is JumpIfFalse || op is Print || op is StrLen,
        ensures
            final(self).post(prog@, s, r),
    {
        let ghost p = prog@;
        let (fid, pc) = self.here(prog, Ghost(s));
        proof {
            assert(fn_ok(p, p.fns[fid as int]));
            assert(op_ok(p, p.fns[fid as int], pc as int));
            assert(pc + 1 <= p.fns[fid as int].code.len());
            assert(aframe_ok(p, s.frames[s.frames.len() - 1]));
        }
        let ghost st = top(s).stack;
        let v = match self.pop(Ghost(p), Ghost(s)) {
            None => {
                return XStep::Fail(lit("stack underflow"), None);
            },
            Some(v) => v,
        };
        let ghost s1 = with_stack(s, st.drop_last());
        let ghost av = absv(self.heap@, v);
        let ghost rest = st.drop_last();
        proof {
            lemma_stack_twice(s, rest, rest.push(AVal::Int(0)));
            lemma_stack_twice(s, rest, rest.push(AVal::Int(2)));
        }
        match op {
            Op::StoreLocal(k) => {
                self.set_slot(k as usize, v, Ghost(p), Ghost(s1));
                let ghost s2 = with_slots(s1, top(s).slots.update(k as int, av));
                self.set_pc(pc + 1, Ghost(p), Ghost(s2));
                proof {
                    assert(with_pc(s2, pc + 1) =~= with_top(
                        s,
                        AFrame { pc: top(s).pc + 1, slots: top(s).slots.update(k as int, av), stack: rest, ..top(s) },
                    ));
                }
                XStep::Go
            },
            Op::Neg => {
                if value::is_int(v) {
                    let x = 0i64.wrapping_sub(v);
                    proof {
                        lemma_even_ops(v, 0);
                        lemma_next(s, rest.push(AVal::Int(x)));
                        lemma_stack_twice(s, rest, rest.push(AVal::Int(x)));
                    }
                    self.push(x, Ghost(p), Ghost(s1));
                    self.set_pc(pc + 1, Ghost(p), Ghost(with_stack(s, rest.push(AVal::Int(x)))));
                    XStep::Go
                } else {
                    XStep::Fail(type_err("unary -"), Some(span))
                }
            },
            Op::Not => {
                let x: i64 = if v == 0 {
                    2
                } else {
                    0
                };
                proof {
                    assert(tbool(av == AVal::Int(0)) == AVal::Int(x));
                    lemma_next(s, rest.push(AVal::Int(x)));
                }
                self.push(x, Ghost(p), Ghost(s1));
                self.set_pc(pc + 1, Ghost(p), Ghost(with_stack(s, rest.push(AVal::Int(x)))));
                XStep::Go
            },
            Op::JumpIfFalse(off) => {
                if v == 0 {
                    let target = (pc as i64 + 1 + off as i64) as usize;
                    self.set_pc(target, Ghost(p), Ghost(s1));
                    proof {
                        assert(with_pc(s1, target as int) =~= with_top(
                            s,
                            AFrame { pc: top(s).pc + 1 + off, stack: rest, ..top(s) },
                        ));
                    }
                } else {
                    proof {
                        lemma_next(s, rest);
                        assert(with_stack(s, rest) == s1);
                    }
                    self.set_pc(pc + 1, Ghost(p), Ghost(s1));
                }
                XStep::Go
            },
            Op::Print => {
                let line = match value::unpack_ptr(v) {
                    Some(a) => str_text(self.heap.bytes_of(a)),
                    None => int_text(v),
                };
                assert(line@ == print_text(av));
                self.print_line(line, Ghost(p), Ghost(s1));
                let ghost s2 = AState { frames: s1.frames, out: s1.out.push(line@) };
                self.set_pc(pc + 1, Ghost(p), Ghost(s2));
                proof {
                    assert(with_pc(s2, pc + 1) =~= AState {
                        frames: s.frames.drop_last().push(AFrame { pc: top(s).pc + 1, stack: rest, ..top(s) }),
                        out: s.out.push(print_text(av)),
                    });
                }
                XStep::Go
            },
            Op::StrLen => {
                match value::unpack_ptr(v) {
                    Some(a) => {
                        let n = self.heap.len_of(a);
                        proof {
                            self.heap.lemma_addrs(a);
                        }
                        let x = value::pack_int(n as i64);
                        proof {
                            lemma_next(s, rest.push(AVal::Int(x)));
                            lemma_stack_twice(s, rest, rest.push(AVal::Int(x)));
                        }
                        self.push(x, Ghost(p), Ghost(s1));
                        self.set_pc(pc + 1, Ghost(p), Ghost(with_stack(s, rest.push(AVal::Int(x)))));
                        XStep::Go
                    },
                    None => XStep::Fail(lit("len() on non-string"), Some(span)),
                }
            },
            _ => XStep::Oom,
        }
    }
}


/// The state after the innermost frame moves to its next op with stack `st`.
pub open spec fn next_state(s: AState, st: Seq<AVal>) -> AState {
    with_pc(with_stack(s, st), top(s).pc + 1)
}

/// `u % v` of two even numbers is even.
proof fn lemma_rem_even(u: int, v: int)
    requires
        u % 2 == 0,
        v % 2 == 0,
        v > 0,
    ensures
        (u % v) % 2 == 0,
{
    vstd::arithmetic::div_mod::lemma_fundamental_div_mod(u, v);
    let q = u / v;
    let h = v / 2;
    assert(v == 2 * h);
    vstd::arithmetic::mul::lemma_mul_is_associative(2, h, q);
    assert(v * q == 2 * (h * q));
}

/// Tagged integer arithmetic gives tagged integers.
proof fn lemma_even_ops(a: i64, b: i64)
    requires
        a % 2 == 0,
        b % 2 == 0,
    ensures
        a.wrapping_add(b) % 2 == 0,
        a.wrapping_sub(b) % 2 == 0,
        (a.wrapping_mul(b) >> 1u32) % 2 == 0,
        b != 0 ==> wrem(a, b) % 2 == 0,
        0i64.wrapping_sub(a) % 2 == 0,
{
    let m = a.wrapping_mul(b);
    assert((a as int) * (b as int) % 4 == 0) by (nonlinear_arith)
        requires
            a % 2 == 0,
            b % 2 == 0,
    {
        let i = a / 2;
        let j = b / 2;
        assert(a == 2 * i && b == 2 * j);
        assert(a * b == 4 * (i * j));
    }
    let p = (a as int) * (b as int);
    let r = 0x1_0000_0000_0000_0000int;
    assert((p % r) % 4 == 0) by {
        vstd::arithmetic::div_mod::lemma_fundamental_div_mod(p, r);
        let q = p / r;
        assert(r * q == 4 * (0x4000_0000_0000_0000int * q)) by {
            vstd::arithmetic::mul::lemma_mul_is_associative(4, 0x4000_0000_0000_0000int, q);
        }
    }
    assert(m % 4 == 0);
    assert(m % 4 == 0 ==> (m >> 1u32) % 2 == 0) by (bit_vector);
    if b != 0 {
        let x = a as int;
        let d = b as int;
        if x > 0 && d > 0 {
            lemma_rem_even(x, d);
        } else if x < 0 && d < 0 {
            lemma_rem_even(-x, -d);
        } else if x < 0 && d > 0 {
            lemma_rem_even(-x, d);
        } else if x > 0 {
            lemma_rem_even(x, -d);
        }
    }
}

/// Whether two byte strings are equal.
fn bytes_eq(a: &[u8], b: &[u8]) -> (r: bool)
    ensures
        r == (a@ == b@),
{
    if a.len() != b.len() {
        return false;
    }
    let mut i: usize = 0;
    while i < a.len()
        invariant
            a@.len() == b@.len(),
            0 <= i <= a@.len(),
            forall|j: int| 0 <= j < i ==> a@[j] == b@[j],
        decreases a@.len() - i,
    {
        if a[i] != b[i] {
            return false;
        }
        i += 1;
    }
    assert(a@ =~= b@);
    true
}

/// Append `b` to `v`.
fn push_bytes(v: &mut Vec<u8>, b: &[u8])
    ensures
        final(v)@ == old(v)@ + b@,
{
    let mut i: usize = 0;
    while i < b.len()
        invariant
            0 <= i <= b@.len(),
            v@ == old(v)@ + b@.take(i as int),
        decreases b@.len() - i,
    {
        v.push(b[i]);
        assert(b@.take(i + 1) =~= b@.take(i as int).push(b@[i as int]));
        i += 1;
    }
    assert(b@.take(b@.len() as int) =~= b@);
}

impl Machine {
    /// Push `v` on the innermost frame's stack, which is now `rest`, and
    /// move to the next op.
    fn push_next(
        &mut self,
        v: Value,
        pc: usize,
        Ghost(p): Ghost<SProgram>,
        Ghost(s): Ghost<AState>,
        Ghost(rest): Ghost<Seq<AVal>>,
    )
        requires
            old(self).rel0(p, with_stack(s, rest)),
            val_ok(old(self).heap@, v),
            s.frames.len() > 0,
            pc == top(s).pc,
            pc < i32::MAX,
        ensures
            final(self).rel0(p, next_state(s, rest.push(absv(old(self).heap@, v)))),
            final(self).heap == old(self).heap,
            final(self).out == old(self).out,
    {
        let ghost x = absv(self.heap@, v);
        proof {
            lemma_stack_twice(s, rest, rest.push(x));
        }
        self.push(v, Ghost(p), Ghost(with_stack(s, rest)));
        self.set_pc(pc + 1, Ghost(p), Ghost(with_stack(s, rest.push(x))));
    }

    /// The bytes of two strings, one after the other.
    fn cat_bytes(&self, a: Value, b: Value) -> (r: Vec<u8>)
        requires
            self.heap.wf(),
            !spec_is_int(a),
            !spec_is_int(b),
            val_ok(self.heap@, a),
            val_ok(self.heap@, b),
        ensures
            r@ == self.heap@[spec_addr_of(a)] + self.heap@[spec_addr_of(b)],
    {
        let mut out: Vec<u8> = Vec::new();
        let pa = value::unpack_ptr(a).unwrap();
        let pb = value::unpack_ptr(b).unwrap();
        push_bytes(&mut out, self.heap.bytes_of(pa));
        push_bytes(&mut out, self.heap.bytes_of(pb));
        out
    }

    /// Content equality of two values.
    fn val_eq(&self, a: Value, b: Value) -> (r: bool)
        requires
            self.heap.wf(),
            val_ok(self.heap@, a),
            val_ok(self.heap@, b),
        ensures
            r == aval_eq(absv(self.heap@, a), absv(self.heap@, b)),
    {
        if value::is_ptr(a) && value::is_ptr(b) {
            let pa = value::unpack_ptr(a).unwrap();
            let pb = value::unpack_ptr(b).unwrap();
            bytes_eq(self.heap.bytes_of(pa), self.heap.bytes_of(pb))
        } else if value::is_int(a) && value::is_int(b) {
            a == b
        } else {
            false
        }
    }

    /// Ops that pop two values.
    fn exec_two(&mut self, prog: &Program, op: Op, span: Span, Ghost(s): Ghost<AState>) -> (r: XStep)
        requires
            old(self).rel(prog@, s),
            wf_program(prog@),
            op_at(prog@, s) == op,
            top(s).pc < prog@.fns[top(s).fid].code.len(),
            span_at(prog@, s) == span,
            op is Add || op is Sub || op is Mul || op is Div || op is Mod || op is Lt || op is Le
                || op is Gt || op is Ge || op is Eq || op is Ne || op is Concat,
        ensures
            final(self).post(prog@, s, r),
    {
        let ghost p = prog@;
        let (fid, pc) = self.here(prog, Ghost(s));
        proof {
            assert(fn_ok(p, p.fns[fid as int]));
            assert(op_ok(p, p.fns[fid as int], pc as int));
            assert(pc + 1 <= p.fns[fid as int].code.len());
        }
        let ghost st = top(s).stack;
        let b = match self.pop(Ghost(p), Ghost(s)) {
            None => {
                return XStep::Fail(lit("stack underflow"), None);
            },
            Some(v) => v,
        };
        let ghost s1 = with_stack(s, st.drop_last());
        proof {
            lemma_stack_twice(s, st.drop_last(), st.drop_last().drop_last());
        }
        let a = match self.pop(Ghost(p), Ghost(s1)) {
            None => {
                return XStep::Fail(lit("stack underflow"), None);
            },
            Some(v) => v,
        };
        let ghost rest = st.drop_last().drop_last();
        let ghost h = self.heap@;
        let ghost av = absv(h, a);
        let ghost bv = absv(h, b);
        assert(av == st.drop_last().last() && bv == st.last());
        let both_int = value::is_int(a) && value::is_int(b);
        match op {
            Op::Add => {
                if value::is_ptr(a) && value::is_ptr(b) {
                    let bytes = self.cat_bytes(a, b);
                    match self.new_string(bytes.as_slice(), Ghost(p), Ghost(with_stack(s, rest))) {
                        None => XStep::Oom,
                        Some(v) => {
                            proof {
                                lemma_next(s, rest.push(absv(self.heap@, v)));
                            }
                            self.push_next(v, pc, Ghost(p), Ghost(s), Ghost(rest));
                            XStep::Go
                        },
                    }
                } else if both_int {
                    let x = a.wrapping_add(b);
                    proof {
                        lemma_next(s, rest.push(AVal::Int(x)));
                        lemma_even_ops(a, b);
                    }
                    self.push_next(x, pc, Ghost(p), Ghost(s), Ghost(rest));
                    XStep::Go
                } else {
                    XStep::Fail(lit("type error: + requires two ints or two strings"), Some(span))
                }
            },
            Op::Concat => {
                if value::is_ptr(a) && value::is_ptr(b) {
                    let bytes = self.cat_bytes(a, b);
                    match self.new_string(bytes.as_slice(), Ghost(p), Ghost(with_stack(s, rest))) {
                        None => XStep::Oom,
                        Some(v) => {
                            proof {
                                lemma_next(s, rest.push(absv(self.heap@, v)));
                            }
                            self.push_next(v, pc, Ghost(p), Ghost(s), Ghost(rest));
                            XStep::Go
                        },
                    }
                } else {
                    XStep::Fail(lit("concat on non-strings"), Some(span))
                }
            },
            Op::Eq | Op::Ne => {
                let e = self.val_eq(a, b);
                let want = match op {
                    Op::Eq => e,
                    _ => !e,
                };
                let x: i64 = if want {
                    2
                } else {
                    0
                };
                proof {
                    lemma_next(s, rest.push(AVal::Int(x)));
                }
                self.push_next(x, pc, Ghost(p), Ghost(s), Ghost(rest));
                XStep::Go
            },
            _ => {
                if !both_int {
                    let what = match op {
                        Op::Sub => "-",
                        Op::Mul => "*",
                        Op::Div => "/",
                        Op::Mod => "%",
                        _ => "cmp",
                    };
                    return XStep::Fail(type_err(what), Some(span));
                }
                let x: i64 = match op {
                    Op::Sub => a.wrapping_sub(b),
                    Op::Mul => a.wrapping_mul(b) >> 1u32,
                    Op::Div => {
                        if b == 0 {
                            return XStep::Fail(lit("division by zero"), Some(span));
                        }
                        let q = match a.checked_div(b) {
                            Some(q) => q,
                            None => i64::MIN,
                        };
                        q.wrapping_shl(1)
                    },
                    Op::Mod => {
                        if b == 0 {
                            return XStep::Fail(lit("mod by zero"), Some(span));
                        }
                        match a.checked_rem(b) {
                            Some(r) => r,
                            None => 0,
                        }
                    },
                    Op::Lt => if a < b { 2 } else { 0 },
                    Op::Le => if a <= b { 2 } else { 0 },
                    Op::Gt => if a > b { 2 } else { 0 },
                    _ => if a >= b { 2 } else { 0 },
                };
                proof {
                    lemma_next(s, rest.push(AVal::Int(x)));
                    lemma_even_ops(a, b);
                    if op is Div {
                        let q = wdiv(a, b);
                        assert(q.wrapping_shl(1) % 2 == 0) by {
                            assert(q << 1u32 == q << (1u32 % 64u32)) by (bit_vector);
                            assert((q << 1u32) % 2 == 0) by (bit_vector);
                        }
                    }
                }
                self.push_next(x, pc, Ghost(p), Ghost(s), Ghost(rest));
                XStep::Go
            },
        }
    }
}


/// "arity mismatch calling {name}: expected {want}, got {got}".
fn arity_err(name: &String, want: u8, got: u8) -> (m: String)
    ensures
        m@ == arity_msg(name@, want, got),
{
    let m = concat(lit("arity mismatch calling "), name);
    let m = concat_lit(m, ": expected ");
    let m = concat(m, &fmt_usize(want as usize));
    let m = concat_lit(m, ", got ");
    concat(m, &fmt_usize(got as usize))
}

impl Machine {
    /// The number of values on the innermost frame's stack.
    fn depth(&self, Ghost(p): Ghost<SProgram>, Ghost(s): Ghost<AState>) -> (d: usize)
        requires
            self.rel0(p, s),
        ensures
            d == top(s).stack.len(),
    {
        let n = self.frames.len();
        proof {
            assert(self.frame_rel(n - 1, s.frames[n - 1]));
        }
        let _vl = self.vals.len();
        self.vals.len() - (self.frames[n - 1].base + self.frames[n - 1].nslots)
    }

    fn exec_call(&mut self, prog: &Program, id: u32, argc: u8, span: Span, Ghost(s): Ghost<AState>) -> (r: XStep)
        requires
            old(self).rel(prog@, s),
            wf_program(prog@),
            op_at(prog@, s) == Op::Call(id, argc),
            top(s).pc < prog@.fns[top(s).fid].code.len(),
            span_at(prog@, s) == span,
        ensures
            final(self).post(prog@, s, r),
    {
        let ghost p = prog@;
        let (fid, pc) = self.here(prog, Ghost(s));
        proof {
            assert(fn_ok(p, p.fns[fid as int]));
            assert(op_ok(p, p.fns[fid as int], pc as int));
            assert(pc + 1 <= p.fns[fid as int].code.len());
        }
        let callee = &prog.fns[id as usize];
        if callee.argc != argc {
            return XStep::Fail(arity_err(&callee.name, callee.argc, argc), Some(span));
        }
        if self.depth(Ghost(p), Ghost(s)) < argc as usize {
            return XStep::Fail(lit("stack underflow"), None);
        }
        let ghost st = top(s).stack;
        self.set_pc(pc + 1, Ghost(p), Ghost(s));
        let ghost s1 = with_pc(s, pc + 1);
        let nlocals = callee.locals as usize;
        let mut k: usize = 0;
        proof {
            assert(st + zeros(0) =~= st);
            assert(with_stack(s1, st) =~= s1);
        }
        while k < nlocals
            invariant
                0 <= k <= nlocals,
                self.rel0(p, with_stack(s1, st + zeros(k as nat))),
                s1.frames.len() == s.frames.len(),
                s1.frames.len() > 0,
            decreases nlocals - k,
        {
            let ghost x = with_stack(s1, st + zeros(k as nat));
            self.push(0, Ghost(p), Ghost(x));
            proof {
                lemma_stack_twice(s1, st + zeros(k as nat), st + zeros((k + 1) as nat));
                assert((st + zeros(k as nat)).push(AVal::Int(0)) =~= st + zeros((k + 1) as nat));
            }
            k += 1;
        }
        let ghost s2 = with_stack(s1, st + zeros(nlocals as nat));
        self.split_frame(id as usize, argc as usize + nlocals, Ghost(p), Ghost(s2));
        proof {
            let at = st.len() - argc;
            let t = top(s);
            let all = st + zeros(nlocals as nat);
            assert(all.take(at) =~= st.take(at));
            assert(all.skip(at) =~= st.skip(at) + zeros(callee@.locals as nat));
            let want = AState {
                frames: s.frames.drop_last().push(AFrame { pc: t.pc + 1, stack: st.take(at), ..t }).push(
                    AFrame { fid: id as int, pc: 0, slots: st.skip(at) + zeros(callee@.locals as nat), stack: Seq::empty() },
                ),
                out: s.out,
            };
            assert(split_top(s2, id as int, argc + nlocals) =~= want);
        }
        XStep::Go
    }

    fn exec_ret(&mut self, prog: &Program, Ghost(s): Ghost<AState>) -> (r: XStep)
        requires
            old(self).rel(prog@, s),
            op_at(prog@, s) is Ret,
            top(s).pc < prog@.fns[top(s).fid].code.len(),
        ensures
            final(self).post(prog@, s, r),
    {
        let ghost p = prog@;
        let ghost st = top(s).stack;
        let v: Value = match self.pop(Ghost(p), Ghost(s)) {
            None => 0,
            Some(v) => v,
        };
        let ghost s1 = if st.len() == 0 {
            s
        } else {
            with_stack(s, st.drop_last())
        };
        if self.frames.len() == 1 {
            return XStep::Done(v);
        }
        let ghost av = absv(self.heap@, v);
        self.drop_frame(Ghost(p), Ghost(s1));
        let ghost s2 = drop_top(s1);
        self.push(v, Ghost(p), Ghost(s2));
        proof {
            let rest = s.frames.drop_last();
            let c = rest.last();
            assert(s2.frames =~= rest);
            assert(with_stack(s2, top(s2).stack.push(av)) =~= AState {
                frames: rest.drop_last().push(AFrame { stack: c.stack.push(av), ..c }),
                out: s.out,
            });
        }
        XStep::Go
    }

    /// One op of the innermost frame.
    fn step(&mut self, prog: &Program, Ghost(s): Ghost<AState>) -> (r: XStep)
        requires
            old(self).rel(prog@, s),
            wf_program(prog@),
        ensures
            final(self).post(prog@, s, r),
    {
        let (fid, pc) = self.here(prog, Ghost(s));
        let f = &prog.fns[fid];
        proof {
            assert(fn_ok(prog@, prog@.fns[fid as int]));
        }
        if pc >= f.code.len() {
            let m = concat(lit("control ran off the end of "), &f.name);
            return XStep::Fail(m, None);
        }
        let op = f.code[pc];
        let span = if pc < f.spans.len() {
            f.spans[pc]
        } else {
            Span::unknown()
        };
        match op {
            Op::Const(_) | Op::LoadLocal(_) | Op::LoadArg(_) | Op::Jump(_) | Op::Pop | Op::Str(_) => {
                self.exec_simple(prog, op, Ghost(s))
            },
            Op::StoreLocal(_) | Op::Neg | Op::Not | Op::JumpIfFalse(_) | Op::Print | Op::StrLen => {
                self.exec_one(prog, op, span, Ghost(s))
            },
            Op::Call(id, argc) => self.exec_call(prog, id, argc, span, Ghost(s)),
            Op::Ret => self.exec_ret(prog, Ghost(s)),
            _ => self.exec_two(prog, op, span, Ghost(s)),
        }
    }
}


/// Whether op `pc` of function `f` is well formed.
fn check_op(prog: &Program, fid: usize, pc: usize) -> (b: bool)
    requires
        fid < prog.fns@.len(),
        pc < prog.fns@[fid as int].code@.len(),
    ensures
        b == op_ok(prog@, prog@.fns[fid as int], pc as int),
{
    let f = &prog.fns[fid];
    let nslots = f.argc as usize + f.locals as usize;
    let n = f.code.len();
    match f.code[pc] {
        Op::Const(v) => v % 2 == 0,
        Op::LoadLocal(k) => (k as usize) < nslots,
        Op::StoreLocal(k) => (k as usize) < nslots,
        Op::LoadArg(k) => (k as usize) < nslots,
        Op::Jump(off) | Op::JumpIfFalse(off) => {
            let t: i128 = pc as i128 + 1 + off as i128;
            0 <= t && t < n as i128
        },
        Op::Call(id, _) => (id as usize) < prog.fns.len(),
        Op::Str(id) => (id as usize) < prog.string_pool.len(),
        _ => true,
    }
}

/// Whether the bytecode is well formed.
pub fn check_program(prog: &Program) -> (b: bool)
    ensures
        b == wf_program(prog@),
{
    let ghost p = prog@;
    if prog.main_id as usize >= prog.fns.len() {
        return false;
    }
    let mut i: usize = 0;
    while i < prog.fns.len()
        invariant
            p == prog@,
            0 <= i <= prog.fns@.len(),
            forall|j: int| 0 <= j < i ==> #[trigger] fn_ok(p, p.fns[j]),
        decreases prog.fns@.len() - i,
    {
        let f = &prog.fns[i];
        let n = f.code.len();
        if n == 0 || n > 0x7fff_ffffusize {
            proof {
                assert(!fn_ok(p, p.fns[i as int]));
            }
            return false;
        }
        let mut pc: usize = 0;
        while pc < n
            invariant
                p == prog@,
                i < prog.fns@.len(),
                n == prog.fns@[i as int].code@.len(),
                0 <= pc <= n,
                forall|q: int| 0 <= q < pc ==> #[trigger] op_ok(p, p.fns[i as int], q),
            decreases n - pc,
        {
            if !check_op(prog, i, pc) {
                proof {
                    assert(!fn_ok(p, p.fns[i as int]));
                }
                return false;
            }
            pc += 1;
        }
        proof {
            assert(fn_ok(p, p.fns[i as int]));
        }
        i += 1;
    }
    true
}

/// Whether the literals fit in the heap.
pub fn check_pool(prog: &Program) -> (b: bool)
    ensures
        b == pool_fits(prog@),
{
    let ghost pool = prog@.pool;
    let mut total: usize = 0;
    let mut i: usize = 0;
    assert(pool.take(0) =~= Seq::<Seq<char>>::empty());
    while i < prog.string_pool.len()
        invariant
            pool == prog@.pool,
            0 <= i <= pool.len(),
            total == pool_size(pool.take(i as int)),
            total <= MAX_USED,
        decreases pool.len() - i,
    {
        let n = prog.string_pool[i].as_str().as_bytes().len();
        proof {
            assert(pool.take(i + 1).drop_last() =~= pool.take(i as int));
        }
        if n > MAX_USED {
            proof {
                lemma_pool_size_mono(pool, i + 1);
            }
            return false;
        }
        let need = crate::heap::round_up_8(HEADER_SIZE + n);
        if total + need > MAX_USED {
            proof {
                lemma_pool_size_mono(pool, i + 1);
            }
            return false;
        }
        total = total + need;
        i += 1;
    }
    assert(pool.take(pool.len() as int) =~= pool);
    true
}

/// The literals of a prefix of the pool take no more than the whole pool.
pub proof fn lemma_pool_size_mono(pool: Seq<Seq<char>>, k: int)
    requires
        0 <= k <= pool.len(),
    ensures
        pool_size(pool.take(k)) <= pool_size(pool),
    decreases pool.len() - k,
{
    if k < pool.len() {
        lemma_pool_size_mono(pool, k + 1);
        assert(pool.take(k + 1).drop_last() =~= pool.take(k));
    } else {
        assert(pool.take(k) =~= pool);
    }
}

/// The heap and the interned literals of a program about to run.
pub struct Context {
    pub heap: Heap,
    /// `interned_ptrs[id]` is the address of literal `id`.
    pub interned_ptrs: Vec<Addr>,
}

impl Context {
    /// The heap holds every literal of `p`, at the addresses listed.
    pub open spec fn ready(&self, p: SProgram) -> bool {
        &&& self.heap.wf()
        &&& self.interned_ptrs@.len() == p.pool.len()
        &&& forall|k: int|
            0 <= k < p.pool.len() ==> #[trigger] self.heap@.contains_key(self.interned_ptrs@[k])
                && self.heap@[self.interned_ptrs@[k]] == pool_bytes(p, k)
    }

    /// A fresh heap with every literal of the pool allocated once.
    pub fn new(prog: &Program) -> (c: Context)
        requires
            pool_fits(prog@),
        ensures
            c.ready(prog@),
    {
        let ghost p = prog@;
        let mut heap = Heap::new();
        let mut roots: Vec<Value> = Vec::new();
        let mut i: usize = 0;
        assert(p.pool.take(0) =~= Seq::<Seq<char>>::empty());
        while i < prog.string_pool.len()
            invariant
                p == prog@,
                pool_fits(p),
                0 <= i <= p.pool.len(),
                heap.wf(),
                heap.spec_used() <= pool_size(p.pool.take(i as int)),
                roots@.len() == i,
                forall|j: int|
                    0 <= j < i ==> !spec_is_int(#[trigger] roots@[j]) && heap@.contains_key(
                        spec_addr_of(roots@[j]),
                    ) && heap@[spec_addr_of(roots@[j])] == pool_bytes(p, j),
            decreases p.pool.len() - i,
        {
            let bytes = prog.string_pool[i].as_str().as_bytes();
            proof {
                assert(p.pool.take(i + 1).drop_last() =~= p.pool.take(i as int));
                lemma_pool_size_mono(p.pool, i + 1);
                assert forall|j: int| 0 <= j < roots@.len() implies val_ok(heap@, #[trigger] roots@[j]) by {}
            }
            let ghost h0 = heap@;
            let ghost r0 = roots@;
            proof {
                heap.lemma_live_bound(roots@);
            }
            let a = heap.alloc_str(bytes, &mut roots);
            proof {
                heap.lemma_addrs(a);
                value::lemma_ptr_roundtrip(a);
                assert forall|j: int| 0 <= j < i implies #[trigger] same_val(h0, r0[j], heap@, roots@[j]) by {}
            }
            let ghost r1 = roots@;
            roots.push(value::pack_ptr(a));
            proof {
                assert(bytes@ == pool_bytes(p, i as int));
                assert forall|j: int| 0 <= j < i + 1 implies !spec_is_int(#[trigger] roots@[j]) && heap@.contains_key(
                    spec_addr_of(roots@[j]),
                ) && heap@[spec_addr_of(roots@[j])] == pool_bytes(p, j) by {
                    if j < i {
                        assert(same_val(h0, r0[j], heap@, r1[j]));
                        assert(roots@[j] == r1[j]);
                    }
                }
            }
            i += 1;
        }
        let mut ptrs: Vec<Addr> = Vec::new();
        let mut k: usize = 0;
        while k < roots.len()
            invariant
                0 <= k <= roots@.len(),
                roots@.len() == p.pool.len(),
                ptrs@.len() == k,
                forall|j: int| 0 <= j < k ==> #[trigger] ptrs@[j] == spec_addr_of(roots@[j]),
                forall|j: int|
                    0 <= j < p.pool.len() ==> !spec_is_int(#[trigger] roots@[j]) && heap@.contains_key(
                        spec_addr_of(roots@[j]),
                    ) && heap@[spec_addr_of(roots@[j])] == pool_bytes(p, j),
            decreases roots@.len() - k,
        {
            ptrs.push(value::unpack_ptr(roots[k]).unwrap());
            k += 1;
        }
        Context { heap, interned_ptrs: ptrs }
    }
}


/// Taking one more step after `k` steps.
proof fn lemma_steps_snoc(p: SProgram, s0: AState, k: nat, s: AState)
    requires
        spec_steps(p, s0, k) == Outcome::Go(s),
    ensures
        spec_steps(p, s0, k + 1) == spec_step(p, s),
    decreases k,
{
    if k > 0 {
        let s1 = spec_step(p, s0)->Go_0;
        lemma_steps_snoc(p, s1, (k - 1) as nat, s);
        assert(spec_steps(p, s0, k + 1) == spec_steps(p, s1, k));
    } else {
        assert(s == s0);
        assert(spec_steps(p, s0, 1) == match spec_step(p, s0) {
            Outcome::Go(s2) => spec_steps(p, s2, 0),
            o => o,
        });
    }
}

impl Machine {
    /// The machine about to run `main`: the literals, then `main`'s slots.
    fn start(ctx: Context, prog: &Program) -> (m: Machine)
        requires
            ctx.ready(prog@),
            wf_program(prog@),
            prog@.fns[prog@.main_id as int].argc == 0,
        ensures
            m.rel(prog@, init_state(prog@)),
    {
        let ghost p = prog@;
        let mut vals: Vec<Value> = Vec::new();
        let mut k: usize = 0;
        while k < ctx.interned_ptrs.len()
            invariant
                ctx.ready(p),
                0 <= k <= ctx.interned_ptrs@.len(),
                vals@.len() == k,
                forall|j: int|
                    0 <= j < k ==> !spec_is_int(#[trigger] vals@[j]) && spec_addr_of(vals@[j])
                        == ctx.interned_ptrs@[j],
            decreases ctx.interned_ptrs@.len() - k,
        {
            let a = ctx.interned_ptrs[k];
            proof {
                assert(ctx.heap@.contains_key(ctx.interned_ptrs@[k as int]));
                ctx.heap.lemma_addrs(a);
                value::lemma_ptr_roundtrip(a);
            }
            vals.push(value::pack_ptr(a));
            k += 1;
        }
        let heap = ctx.heap;
        let interned_ptrs = ctx.interned_ptrs;
        let npool = vals.len();
        let main_id = prog.main_id as usize;
        let main = &prog.fns[main_id];
        let nslots = main.argc as usize + main.locals as usize;
        let mut z: usize = 0;
        while z < nslots
            invariant
                0 <= z <= nslots,
                vals@.len() == npool + z,
                forall|j: int|
                    0 <= j < npool ==> !spec_is_int(#[trigger] vals@[j]) && spec_addr_of(vals@[j])
                        == interned_ptrs@[j],
                forall|j: int| npool <= j < npool + z ==> #[trigger] vals@[j] == 0,
            decreases nslots - z,
        {
            vals.push(0);
            z += 1;
        }
        let mut frames: Vec<XFrame> = Vec::new();
        frames.push(XFrame { fid: main_id, pc: 0, base: npool, nslots });
        let m = Machine { heap, vals, frames, out: Vec::new(), npool };
        proof {
            let s = init_state(p);
            let a = m.avals();
            assert(fn_ok(p, p.fns[main_id as int]));
            assert(aframe_ok(p, s.frames[0]));
            assert forall|j: int| 0 <= j < m.vals@.len() implies val_ok(m.heap@, #[trigger] m.vals@[j]) by {
                if j < npool {
                    assert(m.heap@.contains_key(interned_ptrs@[j]));
                }
            }
            assert forall|j: int| 0 <= j < m.npool implies #[trigger] m.avals()[j] == AVal::Str(pool_bytes(p, j)) by {
                assert(m.heap@.contains_key(interned_ptrs@[j]));
            }
            assert(a.subrange(npool as int, npool + nslots) =~= zeros(nslots as nat));
            assert(a.subrange(npool + nslots, m.vals@.len() as int) =~= Seq::<AVal>::empty());
            assert(m.frame_rel(0, s.frames[0]));
            assert(lines_v(m.out@) =~= Seq::<Seq<char>>::empty());
        }
        m
    }
}

/// The outcome of a run: the value `main` returned or the error that
/// stopped the program, and the lines it printed.
pub struct Run {
    pub value: Result<i64>,
    pub prints: Vec<String>,
}

/// `r` is what running `p` comes to: what `spec_run` says, except that a
/// run may stop with "out of memory" at a reachable step that builds a
/// string, and only when the strings the state holds and the new one,
/// each counted once per place that holds it, exceed `MAX_USED` bytes
/// (`oom_at`). An integer returned by `main` comes back untagged; a string
/// comes back as its tagged address.
pub open spec fn run_ok(p: SProgram, r: Run) -> bool {
    ||| match spec_run(p) {
        Outcome::Done(v, out) => lines_v(r.prints@) == out && match v {
            AVal::Int(raw) => r.value matches Ok(x) && x == (raw / 2) as i64,
            AVal::Str(_) => r.value matches Ok(x) && !spec_is_int(x),
        },
        Outcome::Fail(m, sp, out) => lines_v(r.prints@) == out && (r.value matches Err(
            Error::Runtime(mm, sp2),
        ) && mm@ == m && sp2 == sp),
        Outcome::Go(_) => false,
    }
    ||| {
        &&& r.value matches Err(Error::Runtime(mm, None)) && mm@ == "out of memory"@
        &&& wf_program(p)
        &&& p.fns[p.main_id as int].argc == 0
        &&& pool_fits(p)
        &&& exists|n: nat|
            n < FUEL && (#[trigger] spec_steps(p, init_state(p), n) matches Outcome::Go(s) && oom_at(p, s)
                && lines_v(r.prints@) == s.out)
    }
}

/// A run that stopped before its first op.
fn early_stop(msg: &str) -> (r: Run)
    ensures
        r.value matches Err(Error::Runtime(m, None)) && m@ == msg@,
        lines_v(r.prints@) == Seq::<Seq<char>>::empty(),
{
    let prints: Vec<String> = Vec::new();
    assert(lines_v(prints@) =~= Seq::<Seq<char>>::empty());
    Run { value: Err(Error::runtime(msg)), prints }
}

/// Run a program from `main`.
pub fn run(prog: &Program) -> (r: Run)
    ensures
        run_ok(prog@, r),
{
    let ghost p = prog@;
    if !check_program(prog) {
        return early_stop("malformed bytecode");
    }
    if prog.fns[prog.main_id as usize].argc != 0 {
        return early_stop("main() must take no arguments");
    }
    if !check_pool(prog) {
        return early_stop("out of memory");
    }
    let ctx = Context::new(prog);
    let mut m = Machine::start(ctx, prog);
    let mut fuel: u64 = FUEL;
    let ghost mut s = init_state(p);
    while fuel > 0
        invariant
            p == prog@,
            m.rel(p, s),
            wf_program(p),
            p.fns[p.main_id as int].argc == 0,
            pool_fits(p),
            spec_run(p) == spec_run_from(p, s, fuel as nat),
            spec_steps(p, init_state(p), (FUEL - fuel) as nat) == Outcome::Go(s),
        decreases fuel,
    {
        let ghost s0 = s;
        let ghost k = (FUEL - fuel) as nat;
        match m.step(prog, Ghost(s)) {
            XStep::Go => {
                proof {
                    lemma_step_ok(p, s0);
                    lemma_steps_snoc(p, init_state(p), k, s0);
                    s = spec_step(p, s0)->Go_0;
                }
                fuel = fuel - 1;
            },
            XStep::Done(v) => {
                let x = match value::unpack_int(v) {
                    Some(i) => i,
                    None => v,
                };
                return Run { value: Ok(x), prints: m.out };
            },
            XStep::Fail(msg, sp) => {
                return Run { value: Err(Error::Runtime(msg, sp)), prints: m.out };
            },
            XStep::Oom => {
                proof {
                    assert(spec_steps(p, init_state(p), k) matches Outcome::Go(s1) && oom_at(p, s1) && lines_v(m.out@) == s1.out);
                }
                return Run { value: Err(Error::runtime("out of memory")), prints: m.out };
            },
        }
    }
    Run { value: Err(Error::runtime("step limit exceeded")), prints: m.out }
}

/// Run `f` and hand back the lines it printed, or its error.
pub fn capture_prints<F: FnOnce() -> Run>(f: F) -> (r: Result<Vec<String>>)
    requires
        f.requires(()),
    ensures
        exists|run: Run|
            #[trigger] f.ensures((), run) && match run.value {
                Ok(_) => r matches Ok(v) && v@ == run.prints@,
                Err(e) => r matches Err(e2) && e2 == e,
            },
{
    let run = f();
    match run.value {
        Ok(_) => Ok(run.prints),
        Err(e) => Err(e),
    }
}

/// What each arithmetic and comparison op does to two integers on top of
/// the stack: it pops them (`a` below `b`) and pushes their wrapping sum,
/// difference or tagged product, their tagged quotient or remainder when
/// `b` is not zero, or the tagged truth (2 or 0) of `a < b`, `a <= b`,
/// `a > b`, `a >= b`, `a == b` or `a != b`; division and remainder by zero
/// fail. The frame moves on to the next op and nothing else changes.
pub proof fn lemma_step_int_binop(p: SProgram, s: AState, a: i64, b: i64, rest: Seq<AVal>)
    requires
        s.frames.len() > 0,
        0 <= top(s).fid < p.fns.len(),
        0 <= top(s).pc < p.fns[top(s).fid].code.len(),
        top(s).stack == rest.push(AVal::Int(a)).push(AVal::Int(b)),
    ensures
        op_at(p, s) == Op::Add ==> spec_step(p, s) == next(s, rest.push(AVal::Int(a.wrapping_add(b)))),
        op_at(p, s) == Op::Sub ==> spec_step(p, s) == next(s, rest.push(AVal::Int(a.wrapping_sub(b)))),
        op_at(p, s) == Op::Mul ==> spec_step(p, s) == next(s, rest.push(AVal::Int(a.wrapping_mul(b) >> 1))),
        op_at(p, s) == Op::Div && b != 0 ==> spec_step(p, s) == next(
            s,
            rest.push(AVal::Int(wdiv(a, b).wrapping_shl(1))),
        ),
        op_at(p, s) == Op::Mod && b != 0 ==> spec_step(p, s) == next(s, rest.push(AVal::Int(wrem(a, b)))),
        op_at(p, s) == Op::Div && b == 0 ==> spec_step(p, s) == Outcome::Fail(
            "division by zero"@,
            Some(span_at(p, s)),
            s.out,
        ),
        op_at(p, s) == Op::Mod && b == 0 ==> spec_step(p, s) == Outcome::Fail(
            "mod by zero"@,
            Some(span_at(p, s)),
            s.out,
        ),
        op_at(p, s) == Op::Lt ==> spec_step(p, s) == next(s, rest.push(AVal::Int(if a < b { 2 } else { 0 }))),
        op_at(p, s) == Op::Le ==> spec_step(p, s) == next(s, rest.push(AVal::Int(if a <= b { 2 } else { 0 }))),
        op_at(p, s) == Op::Gt ==> spec_step(p, s) == next(s, rest.push(AVal::Int(if a > b { 2 } else { 0 }))),
        op_at(p, s) == Op::Ge ==> spec_step(p, s) == next(s, rest.push(AVal::Int(if a >= b { 2 } else { 0 }))),
        op_at(p, s) == Op::Eq ==> spec_step(p, s) == next(s, rest.push(AVal::Int(if a == b { 2 } else { 0 }))),
        op_at(p, s) == Op::Ne ==> spec_step(p, s) == next(s, rest.push(AVal::Int(if a != b { 2 } else { 0 }))),
{
    let st = top(s).stack;
    assert(st.drop_last().drop_last() =~= rest);
    assert(st.last() == AVal::Int(b));
    assert(st.drop_last().last() == AVal::Int(a));
}

/// Negation and `!` on an integer on top of the stack: `Neg` pushes its
/// wrapping negation, `Not` pushes tagged 1 (2) exactly when it is 0.
pub proof fn lemma_step_int_unop(p: SProgram, s: AState, a: i64, rest: Seq<AVal>)
    requires
        s.frames.len() > 0,
        0 <= top(s).fid < p.fns.len(),
        0 <= top(s).pc < p.fns[top(s).fid].code.len(),
        top(s).stack == rest.push(AVal::Int(a)),
    ensures
        op_at(p, s) == Op::Neg ==> spec_step(p, s) == next(s, rest.push(AVal::Int(0i64.wrapping_sub(a)))),
        op_at(p, s) == Op::Not ==> spec_step(p, s) == next(s, rest.push(AVal::Int(if a == 0 { 2 } else { 0 }))),
{
    let st = top(s).stack;
    assert(st.drop_last() =~= rest);
    assert(st.last() == AVal::Int(a));
}

/// A source operator other than `&&` and `||` lowers to the op that
/// computes it: on two integers `a` and `b` (raw tagged values, whose
/// order is that of the integers they stand for) the lowered op of `+`,
/// `-` and `*` pushes the wrapping sum, difference and tagged product,
/// `/` and `%` the tagged quotient and remainder for a non-zero `b`, and
/// each comparison tagged 1 (2) exactly when the comparison holds.
pub proof fn lemma_lowered_binop_meaning(bop: BinOp, p: SProgram, s: AState, a: i64, b: i64, rest: Seq<AVal>)
    requires
        s.frames.len() > 0,
        0 <= top(s).fid < p.fns.len(),
        0 <= top(s).pc < p.fns[top(s).fid].code.len(),
        top(s).stack == rest.push(AVal::Int(a)).push(AVal::Int(b)),
        op_at(p, s) == bin_op(bop),
    ensures
        bop == BinOp::Add ==> spec_step(p, s) == next(s, rest.push(AVal::Int(a.wrapping_add(b)))),
        bop == BinOp::Sub ==> spec_step(p, s) == next(s, rest.push(AVal::Int(a.wrapping_sub(b)))),
        bop == BinOp::Mul ==> spec_step(p, s) == next(s, rest.push(AVal::Int(a.wrapping_mul(b) >> 1))),
        bop == BinOp::Div && b != 0 ==> spec_step(p, s) == next(
            s,
            rest.push(AVal::Int(wdiv(a, b).wrapping_shl(1))),
        ),
        bop == BinOp::Mod && b != 0 ==> spec_step(p, s) == next(s, rest.push(AVal::Int(wrem(a, b)))),
        bop == BinOp::Lt ==> spec_step(p, s) == next(s, rest.push(AVal::Int(if a < b { 2 } else { 0 }))),
        bop == BinOp::Le ==> spec_step(p, s) == next(s, rest.push(AVal::Int(if a <= b { 2 } else { 0 }))),
        bop == BinOp::Gt ==> spec_step(p, s) == next(s, rest.push(AVal::Int(if a > b { 2 } else { 0 }))),
        bop == BinOp::Ge ==> spec_step(p, s) == next(s, rest.push(AVal::Int(if a >= b { 2 } else { 0 }))),
        bop == BinOp::Eq ==> spec_step(p, s) == next(s, rest.push(AVal::Int(if a == b { 2 } else { 0 }))),
        bop == BinOp::Ne ==> spec_step(p, s) == next(s, rest.push(AVal::Int(if a != b { 2 } else { 0 }))),
{
    lemma_step_int_binop(p, s, a, b, rest);
}

/// What the two-operand ops do to two strings on top of the stack: `+`
/// and `Concat` push their concatenation, `==` and `!=` compare their
/// contents (tagged 1 or 0), and every other arithmetic or comparison op
/// is a type error at the op's source position.
pub proof fn lemma_step_str_binop(p: SProgram, s: AState, x: Seq<u8>, y: Seq<u8>, rest: Seq<AVal>)
    requires
        s.frames.len() > 0,
        0 <= top(s).fid < p.fns.len(),
        0 <= top(s).pc < p.fns[top(s).fid].code.len(),
        top(s).stack == rest.push(AVal::Str(x)).push(AVal::Str(y)),
    ensures
        op_at(p, s) == Op::Add ==> spec_step(p, s) == next(s, rest.push(AVal::Str(x + y))),
        op_at(p, s) == Op::Concat ==> spec_step(p, s) == next(s, rest.push(AVal::Str(x + y))),
        op_at(p, s) == Op::Eq ==> spec_step(p, s) == next(s, rest.push(AVal::Int(if x == y { 2 } else { 0 }))),
        op_at(p, s) == Op::Ne ==> spec_step(p, s) == next(s, rest.push(AVal::Int(if x != y { 2 } else { 0 }))),
        op_at(p, s) is Sub || op_at(p, s) is Mul || op_at(p, s) is Div || op_at(p, s) is Mod || op_at(p, s) is Lt
            || op_at(p, s) is Le || op_at(p, s) is Gt || op_at(p, s) is Ge ==> (spec_step(p, s) matches Outcome::Fail(
            _,
            sp,
            out,
        ) && sp == Some(span_at(p, s)) && out == s.out),
{
    let st = top(s).stack;
    assert(st.drop_last().drop_last() =~= rest);
    assert(st.last() == AVal::Str(y));
    assert(st.drop_last().last() == AVal::Str(x));
}

/// `==` and `!=` on an integer and a string, in either order: they are
/// never equal.
pub proof fn lemma_step_mixed_eq(p: SProgram, s: AState, v: i64, x: Seq<u8>, rest: Seq<AVal>, int_first: bool)
    requires
        s.frames.len() > 0,
        0 <= top(s).fid < p.fns.len(),
        0 <= top(s).pc < p.fns[top(s).fid].code.len(),
        top(s).stack == (if int_first {
            rest.push(AVal::Int(v)).push(AVal::Str(x))
        } else {
            rest.push(AVal::Str(x)).push(AVal::Int(v))
        }),
    ensures
        op_at(p, s) == Op::Eq ==> spec_step(p, s) == next(s, rest.push(AVal::Int(0))),
        op_at(p, s) == Op::Ne ==> spec_step(p, s) == next(s, rest.push(AVal::Int(2))),
{
    let st = top(s).stack;
    assert(st.drop_last().drop_last() =~= rest);
}

/// The innermost frame of `s` at op `pc` with the stack `st`.
pub open spec fn frame_at(s: AState, pc: int, st: Seq<AVal>) -> AState {
    with_top(s, AFrame { pc, stack: st, ..top(s) })
}

proof fn lemma_frame_at(s: AState, pc: int, st: Seq<AVal>, pc2: int, st2: Seq<AVal>)
    requires
        s.frames.len() > 0,
    ensures
        top(frame_at(s, pc, st)) == (AFrame { pc, stack: st, ..top(s) }),
        frame_at(s, pc, st).frames.len() == s.frames.len(),
        frame_at(s, pc, st).out == s.out,
        frame_at(frame_at(s, pc, st), pc2, st2) == frame_at(s, pc2, st2),
        next(frame_at(s, pc, st), st2) == Outcome::Go(frame_at(s, pc + 1, st2)),
{
    assert(frame_at(frame_at(s, pc, st), pc2, st2) =~= frame_at(s, pc2, st2));
    assert(frame_at(frame_at(s, pc, st), pc + 1, st2) =~= frame_at(s, pc + 1, st2));
}

/// A step that goes on, then `n` more.
proof fn lemma_steps_cons(p: SProgram, s: AState, s2: AState, n: nat)
    requires
        spec_step(p, s) == Outcome::Go(s2),
    ensures
        spec_steps(p, s, n + 1) == spec_steps(p, s2, n),
        spec_steps(p, s2, 0) == Outcome::Go(s2),
{
}

/// `&&` short-circuits: after its left operand, with the tagged value `a`
/// on the stack and a literal right operand `b`, the lowered code leaves
/// tagged 1 exactly when both are true (non-zero) and runs the right
/// operand only when `a` is true, ending just past its code.
#[verifier::spinoff_prover]
#[verifier::rlimit(30)]
pub proof fn lemma_and_short_circuits(p: SProgram, s: AState, a: i64, b: i64, rest: Seq<AVal>)
    requires
        s.frames.len() > 0,
        0 <= top(s).fid < p.fns.len(),
        0 <= top(s).pc,
        top(s).pc + 6 <= p.fns[top(s).fid].code.len(),
        p.fns[top(s).fid].code.subrange(top(s).pc, top(s).pc + 6) == and_tail(plain(seq![Op::Const(b)])).ops,
        top(s).stack == rest.push(AVal::Int(a)),
    ensures
        spec_steps(p, s, if a == 0 { 2 } else { 5 }) == Outcome::Go(
            frame_at(s, top(s).pc + 6, rest.push(AVal::Int(if a != 0 && b != 0 { 2 } else { 0 }))),
        ),
{
    let pc = top(s).pc;
    let code = p.fns[top(s).fid].code;
    let ops = and_tail(plain(seq![Op::Const(b)])).ops;
    assert(ops =~= seq![Op::JumpIfFalse(4), Op::Const(b), Op::Const(0), Op::Ne, Op::Jump(1), Op::Const(0)]);
    assert forall|k: int| 0 <= k < 6 implies code[pc + k] == ops[k] by {
        assert(code.subrange(pc, pc + 6)[k] == code[pc + k]);
    }
    let st = top(s).stack;
    assert(st.drop_last() =~= rest);
    assert(s == frame_at(s, pc, st)) by {
        assert(s =~= frame_at(s, pc, st));
    }
    if a == 0 {
        let s1 = frame_at(s, pc + 5, rest);
        let s2 = frame_at(s, pc + 6, rest.push(AVal::Int(0)));
        lemma_frame_at(s, pc + 5, rest, pc + 6, rest.push(AVal::Int(0)));
        assert(spec_step(p, s) == Outcome::Go(s1));
        assert(spec_step(p, s1) == Outcome::Go(s2));
        lemma_steps_cons(p, s1, s2, 0);
        lemma_steps_cons(p, s, s1, 1);
    } else {
        let v = if b != 0 { 2i64 } else { 0i64 };
        let s1 = frame_at(s, pc + 1, rest);
        let s2 = frame_at(s, pc + 2, rest.push(AVal::Int(b)));
        let s3 = frame_at(s, pc + 3, rest.push(AVal::Int(b)).push(AVal::Int(0)));
        let s4 = frame_at(s, pc + 4, rest.push(AVal::Int(v)));
        let s5 = frame_at(s, pc + 6, rest.push(AVal::Int(v)));
        lemma_frame_at(s, pc, st, pc + 1, rest);
        lemma_frame_at(s, pc + 1, rest, pc + 2, rest.push(AVal::Int(b)));
        lemma_frame_at(s, pc + 2, rest.push(AVal::Int(b)), pc + 3, rest.push(AVal::Int(b)).push(AVal::Int(0)));
        lemma_frame_at(s, pc + 3, rest.push(AVal::Int(b)).push(AVal::Int(0)), pc + 4, rest.push(AVal::Int(v)));
        lemma_frame_at(s, pc + 4, rest.push(AVal::Int(v)), pc + 6, rest.push(AVal::Int(v)));
        assert(spec_step(p, s) == Outcome::Go(s1));
        assert(spec_step(p, s1) == Outcome::Go(s2));
        assert(spec_step(p, s2) == Outcome::Go(s3));
        lemma_step_int_binop(p, s3, b, 0, rest);
        assert(spec_step(p, s3) == Outcome::Go(s4));
        assert(spec_step(p, s4) == Outcome::Go(s5));
        lemma_steps_cons(p, s4, s5, 0);
        lemma_steps_cons(p, s3, s4, 1);
        lemma_steps_cons(p, s2, s3, 2);
        lemma_steps_cons(p, s1, s2, 3);
        lemma_steps_cons(p, s, s1, 4);
    }
}

/// `||` short-circuits: after its left operand, with the tagged value `a`
/// on the stack and a literal right operand `b`, the lowered code leaves
/// tagged 1 exactly when either is true (non-zero) and runs the right
/// operand only when `a` is false, ending just past its code.
#[verifier::spinoff_prover]
#[verifier::rlimit(30)]
pub proof fn lemma_or_short_circuits(p: SProgram, s: AState, a: i64, b: i64, rest: Seq<AVal>)
    requires
        s.frames.len() > 0,
        0 <= top(s).fid < p.fns.len(),
        0 <= top(s).pc,
        top(s).pc + 6 <= p.fns[top(s).fid].code.len(),
        p.fns[top(s).fid].code.subrange(top(s).pc, top(s).pc + 6) == or_tail(plain(seq![Op::Const(b)])).ops,
        top(s).stack == rest.push(AVal::Int(a)),
    ensures
        spec_steps(p, s, if a == 0 { 4 } else { 3 }) == Outcome::Go(
            frame_at(s, top(s).pc + 6, rest.push(AVal::Int(if a != 0 || b != 0 { 2 } else { 0 }))),
        ),
{
    let pc = top(s).pc;
    let code = p.fns[top(s).fid].code;
    let ops = or_tail(plain(seq![Op::Const(b)])).ops;
    assert(ops =~= seq![Op::JumpIfFalse(2), Op::Const(2), Op::Jump(3), Op::Const(b), Op::Const(0), Op::Ne]);
    assert forall|k: int| 0 <= k < 6 implies code[pc + k] == ops[k] by {
        assert(code.subrange(pc, pc + 6)[k] == code[pc + k]);
    }
    let st = top(s).stack;
    assert(st.drop_last() =~= rest);
    assert(s == frame_at(s, pc, st)) by {
        assert(s =~= frame_at(s, pc, st));
    }
    if a == 0 {
        let v = if b != 0 { 2i64 } else { 0i64 };
        let s1 = frame_at(s, pc + 3, rest);
        let s2 = frame_at(s, pc + 4, rest.push(AVal::Int(b)));
        let s3 = frame_at(s, pc + 5, rest.push(AVal::Int(b)).push(AVal::Int(0)));
        let s4 = frame_at(s, pc + 6, rest.push(AVal::Int(v)));
        lemma_frame_at(s, pc, st, pc + 3, rest);
        lemma_frame_at(s, pc + 3, rest, pc + 4, rest.push(AVal::Int(b)));
        lemma_frame_at(s, pc + 4, rest.push(AVal::Int(b)), pc + 5, rest.push(AVal::Int(b)).push(AVal::Int(0)));
        lemma_frame_at(s, pc + 5, rest.push(AVal::Int(b)).push(AVal::Int(0)), pc + 6, rest.push(AVal::Int(v)));
        assert(spec_step(p, s) == Outcome::Go(s1));
        assert(spec_step(p, s1) == Outcome::Go(s2));
        assert(spec_step(p, s2) == Outcome::Go(s3));
        lemma_step_int_binop(p, s3, b, 0, rest);
        assert(spec_step(p, s3) == Outcome::Go(s4));
        lemma_steps_cons(p, s3, s4, 0);
        lemma_steps_cons(p, s2, s3, 1);
        lemma_steps_cons(p, s1, s2, 2);
        lemma_steps_cons(p, s, s1, 3);
    } else {
        let s1 = frame_at(s, pc + 1, rest);
        let s2 = frame_at(s, pc + 2, rest.push(AVal::Int(2)));
        let s3 = frame_at(s, pc + 6, rest.push(AVal::Int(2)));
        lemma_frame_at(s, pc, st, pc + 1, rest);
        lemma_frame_at(s, pc + 1, rest, pc + 2, rest.push(AVal::Int(2)));
        lemma_frame_at(s, pc + 2, rest.push(AVal::Int(2)), pc + 6, rest.push(AVal::Int(2)));
        assert(spec_step(p, s) == Outcome::Go(s1));
        assert(spec_step(p, s1) == Outcome::Go(s2));
        assert(spec_step(p, s2) == Outcome::Go(s3));
        lemma_steps_cons(p, s2, s3, 0);
        lemma_steps_cons(p, s1, s2, 1);
        lemma_steps_cons(p, s, s1, 2);
    }
}

/// The lowered code of `x && y` and of `x || y`, for integer literals `x`
/// and `y`, run from its first op, leaves tagged 1 exactly when both
/// (for `&&`) or either (for `||`) are non-zero, and ends just past the
/// code: lowering and the interpreter together give the operators their
/// logical meaning.
pub proof fn lemma_lowered_logic(
    p: SProgram,
    s: AState,
    ctx: LCtx,
    lst: LState,
    bop: BinOp,
    x: i64,
    y: i64,
    sp: Span,
    rest: Seq<AVal>,
)
    requires
        bop == BinOp::And || bop == BinOp::Or,
        -0x4000_0000_0000_0000 <= x <= 0x3fff_ffff_ffff_ffff,
        -0x4000_0000_0000_0000 <= y <= 0x3fff_ffff_ffff_ffff,
        s.frames.len() > 0,
        0 <= top(s).fid < p.fns.len(),
        0 <= top(s).pc,
        top(s).stack == rest,
        l_expr(ctx, SExpr::Bin(bop, Box::new(SExpr::Int(x)), Box::new(SExpr::Int(y)), sp), lst) matches Ok((f, _))
            && top(s).pc + f.ops.len() <= p.fns[top(s).fid].code.len() && p.fns[top(s).fid].code.subrange(
            top(s).pc,
            top(s).pc + f.ops.len(),
        ) == f.ops,
    ensures
        bop == BinOp::And ==> spec_steps(p, s, if x == 0 { 3 } else { 6 }) == Outcome::Go(
            frame_at(s, top(s).pc + 7, rest.push(AVal::Int(if x != 0 && y != 0 { 2 } else { 0 }))),
        ),
        bop == BinOp::Or ==> spec_steps(p, s, if x == 0 { 5 } else { 4 }) == Outcome::Go(
            frame_at(s, top(s).pc + 7, rest.push(AVal::Int(if x != 0 || y != 0 { 2 } else { 0 }))),
        ),
{
    let pc = top(s).pc;
    let code = p.fns[top(s).fid].code;
    let a = (2 * x) as i64;
    let b = (2 * y) as i64;
    let fa = plain(seq![Op::Const(a)]);
    let fb = plain(seq![Op::Const(b)]);
    assert(l_expr(ctx, SExpr::Int(x), lst) == Ok::<(Frag, LState), Seq<char>>((fa, lst)));
    assert(l_expr(ctx, SExpr::Int(y), lst) == Ok::<(Frag, LState), Seq<char>>((fb, lst)));
    let tail = if bop == BinOp::And { and_tail(fb) } else { or_tail(fb) };
    let f = fcat(fa, tail);
    assert(l_expr(ctx, SExpr::Bin(bop, Box::new(SExpr::Int(x)), Box::new(SExpr::Int(y)), sp), lst) == Ok::<
        (Frag, LState),
        Seq<char>,
    >((f, lst)));
    assert(f.ops =~= seq![Op::Const(a)] + tail.ops);
    assert(tail.ops.len() == 6);
    assert(code[pc] == Op::Const(a)) by {
        assert(code.subrange(pc, pc + 7)[0] == code[pc]);
    }
    let s1 = frame_at(s, pc + 1, rest.push(AVal::Int(a)));
    lemma_frame_at(s, pc, rest, pc + 1, rest.push(AVal::Int(a)));
    assert(s =~= frame_at(s, pc, rest));
    assert(spec_step(p, s) == Outcome::Go(s1));
    assert(code.subrange(pc + 1, pc + 7) =~= tail.ops) by {
        assert forall|k: int| 0 <= k < 6 implies code.subrange(pc + 1, pc + 7)[k] == tail.ops[k] by {
            assert(code.subrange(pc, pc + 7)[k + 1] == f.ops[k + 1]);
        }
    }
    assert(a == 0 <==> x == 0);
    assert(b == 0 <==> y == 0);
    lemma_frame_at(s, pc + 1, rest.push(AVal::Int(a)), pc + 7, rest);
    if bop == BinOp::And {
        lemma_and_short_circuits(p, s1, a, b, rest);
        lemma_steps_cons(p, s, s1, if x == 0 { 2 } else { 5 });
        lemma_frame_at(s, pc + 1, rest.push(AVal::Int(a)), pc + 7, rest.push(AVal::Int(if x != 0 && y != 0 { 2 } else { 0 })));
    } else {
        lemma_or_short_circuits(p, s1, a, b, rest);
        lemma_steps_cons(p, s, s1, if x == 0 { 4 } else { 3 });
        lemma_frame_at(s, pc + 1, rest.push(AVal::Int(a)), pc + 7, rest.push(AVal::Int(if x != 0 || y != 0 { 2 } else { 0 })));
    }
}

/// The lowered code of `x op y`, for integer literals `x` and `y` and an
/// operator other than `&&` and `||`, run from its first op, takes three
/// steps and leaves the tagged value of the expression: `2 * r` for the
/// sum, difference and product `r` where it stays in the integer range,
/// the truncated quotient and the remainder for a non-zero `y`, and
/// tagged 1 exactly when the comparison holds of `x` and `y`.
#[verifier::rlimit(30)]
pub proof fn lemma_lowered_binary(
    p: SProgram,
    s: AState,
    ctx: LCtx,
    lst: LState,
    bop: BinOp,
    x: i64,
    y: i64,
    sp: Span,
    rest: Seq<AVal>,
)
    requires
        bop != BinOp::And && bop != BinOp::Or,
        -0x4000_0000_0000_0000 <= x <= 0x3fff_ffff_ffff_ffff,
        -0x4000_0000_0000_0000 <= y <= 0x3fff_ffff_ffff_ffff,
        s.frames.len() > 0,
        0 <= top(s).fid < p.fns.len(),
        0 <= top(s).pc,
        top(s).stack == rest,
        l_expr(ctx, SExpr::Bin(bop, Box::new(SExpr::Int(x)), Box::new(SExpr::Int(y)), sp), lst) matches Ok((f, _))
            && top(s).pc + f.ops.len() <= p.fns[top(s).fid].code.len() && p.fns[top(s).fid].code.subrange(
            top(s).pc,
            top(s).pc + f.ops.len(),
        ) == f.ops,
    ensures
        ({
            let fin = |v: i64| Outcome::Go(frame_at(s, top(s).pc + 3, rest.push(AVal::Int(v))));
            &&& bop == BinOp::Add && -0x4000_0000_0000_0000 <= x + y <= 0x3fff_ffff_ffff_ffff ==> spec_steps(p, s, 3)
                == fin((2 * (x + y)) as i64)
            &&& bop == BinOp::Sub && -0x4000_0000_0000_0000 <= x - y <= 0x3fff_ffff_ffff_ffff ==> spec_steps(p, s, 3)
                == fin((2 * (x - y)) as i64)
            &&& bop == BinOp::Mul && -0x2000_0000_0000_0000 <= x * y < 0x2000_0000_0000_0000 ==> spec_steps(p, s, 3)
                == fin((2 * (x * y)) as i64)
            &&& bop == BinOp::Div && y != 0 && !(x == -0x4000_0000_0000_0000 && y == -1) ==> spec_steps(p, s, 3) == fin(
                (2 * wdiv(x, y)) as i64,
            )
            &&& bop == BinOp::Mod && y != 0 ==> spec_steps(p, s, 3) == fin((2 * wrem(x, y)) as i64)
            &&& bop == BinOp::Lt ==> spec_steps(p, s, 3) == fin(if x < y { 2 } else { 0 })
            &&& bop == BinOp::Le ==> spec_steps(p, s, 3) == fin(if x <= y { 2 } else { 0 })
            &&& bop == BinOp::Gt ==> spec_steps(p, s, 3) == fin(if x > y { 2 } else { 0 })
            &&& bop == BinOp::Ge ==> spec_steps(p, s, 3) == fin(if x >= y { 2 } else { 0 })
            &&& bop == BinOp::Eq ==> spec_steps(p, s, 3) == fin(if x == y { 2 } else { 0 })
            &&& bop == BinOp::Ne ==> spec_steps(p, s, 3) == fin(if x != y { 2 } else { 0 })
        }),
{
    let pc = top(s).pc;
    let code = p.fns[top(s).fid].code;
    let a = (2 * x) as i64;
    let b = (2 * y) as i64;
    let fa = plain(seq![Op::Const(a)]);
    let fb = plain(seq![Op::Const(b)]);
    assert(l_expr(ctx, SExpr::Int(x), lst) == Ok::<(Frag, LState), Seq<char>>((fa, lst)));
    assert(l_expr(ctx, SExpr::Int(y), lst) == Ok::<(Frag, LState), Seq<char>>((fb, lst)));
    let f = bin_frag(bop, fa, fb, sp);
    assert(l_expr(ctx, SExpr::Bin(bop, Box::new(SExpr::Int(x)), Box::new(SExpr::Int(y)), sp), lst) == Ok::<
        (Frag, LState),
        Seq<char>,
    >((f, lst)));
    assert(f.ops =~= seq![Op::Const(a), Op::Const(b), bin_op(bop)]);
    assert forall|k: int| 0 <= k < 3 implies code[pc + k] == f.ops[k] by {
        assert(code.subrange(pc, pc + 3)[k] == code[pc + k]);
    }
    let st1 = rest.push(AVal::Int(a));
    let st2 = st1.push(AVal::Int(b));
    let s1 = frame_at(s, pc + 1, st1);
    let s2 = frame_at(s, pc + 2, st2);
    assert(s =~= frame_at(s, pc, rest));
    lemma_frame_at(s, pc, rest, pc + 1, st1);
    lemma_frame_at(s, pc + 1, st1, pc + 2, st2);
    assert(spec_step(p, s) == Outcome::Go(s1));
    assert(spec_step(p, s1) == Outcome::Go(s2));
    lemma_lowered_binop_meaning(bop, p, s2, a, b, rest);
    let v: i64 = match bop {
        BinOp::Add => a.wrapping_add(b),
        BinOp::Sub => a.wrapping_sub(b),
        BinOp::Mul => a.wrapping_mul(b) >> 1,
        BinOp::Div => wdiv(a, b).wrapping_shl(1),
        BinOp::Mod => wrem(a, b),
        BinOp::Lt => if a < b { 2 } else { 0 },
        BinOp::Le => if a <= b { 2 } else { 0 },
        BinOp::Gt => if a > b { 2 } else { 0 },
        BinOp::Ge => if a >= b { 2 } else { 0 },
        BinOp::Eq => if a == b { 2 } else { 0 },
        _ => if a != b { 2 } else { 0 },
    };
    lemma_frame_at(s, pc + 2, st2, pc + 3, rest.push(AVal::Int(v)));
    if !((bop == BinOp::Div || bop == BinOp::Mod) && y == 0) {
        let s3 = frame_at(s, pc + 3, rest.push(AVal::Int(v)));
        assert(spec_step(p, s2) == Outcome::Go(s3));
        lemma_steps_cons(p, s2, s3, 0);
        lemma_steps_cons(p, s1, s2, 1);
        lemma_steps_cons(p, s, s1, 2);
    }
    lemma_tag_doubles(x);
    lemma_tag_doubles(y);
    lemma_tagged_add_sub_neg(x, y);
    if bop == BinOp::Mul && -0x2000_0000_0000_0000 <= x * y < 0x2000_0000_0000_0000 {
        lemma_tagged_mul(x, y);
        lemma_tag_doubles((x * y) as i64);
    }
    if (bop == BinOp::Div || bop == BinOp::Mod) && y != 0 {
        lemma_tagged_div_mod(x, y);
        lemma_div_range(x, y);
        if !(x == -0x4000_0000_0000_0000 && y == -1) {
            lemma_tag_doubles(wdiv(x, y));
        }
        lemma_tag_doubles(wrem(x, y));
    }
    if bop == BinOp::Add && -0x4000_0000_0000_0000 <= x + y <= 0x3fff_ffff_ffff_ffff {
        lemma_tag_doubles((x + y) as i64);
    }
    if bop == BinOp::Sub && -0x4000_0000_0000_0000 <= x - y <= 0x3fff_ffff_ffff_ffff {
        lemma_tag_doubles((x - y) as i64);
    }
}

/// The remainder of integers of the i63 range by a non-zero divisor stays
/// in that range, and so does the truncated quotient but for the one that
/// overflows, the least integer by -1.
proof fn lemma_div_range(x: i64, y: i64)
    requires
        -0x4000_0000_0000_0000 <= x <= 0x3fff_ffff_ffff_ffff,
        -0x4000_0000_0000_0000 <= y <= 0x3fff_ffff_ffff_ffff,
        y != 0,
    ensures
        !(x == -0x4000_0000_0000_0000 && y == -1) ==> -0x4000_0000_0000_0000 <= wdiv(x, y)
            <= 0x3fff_ffff_ffff_ffff,
        -0x4000_0000_0000_0000 <= wrem(x, y) <= 0x3fff_ffff_ffff_ffff,
{
    let ax: int = if x < 0 { -x } else { x as int };
    let ad: int = if y < 0 { -y } else { y as int };
    vstd::arithmetic::div_mod::lemma_div_is_ordered_by_denominator(ax, 1, ad);
    vstd::arithmetic::div_mod::lemma_div_pos_is_pos(ax, ad);
    vstd::arithmetic::div_mod::lemma_mod_bound(ax, ad);
    assert(ax / 1 == ax);
    if ad == 1 {
        assert(ax / ad == ax);
    } else if ax > 0 {
        vstd::arithmetic::div_mod::lemma_div_decreases(ax, ad);
    }
    if x < 0 && y < 0 {
        assert((x * -1) / (y * -1) == ax / ad);
        assert((x * -1) % (y * -1) == ax % ad);
    } else if x < 0 && y > 0 {
        assert((x * -1) / (y as int) == ax / ad);
        assert((x * -1) % (y as int) == ax % ad);
    } else if x > 0 && y < 0 {
        assert((x as int) / (y * -1) == ax / ad);
        assert((x as int) % (y * -1) == ax % ad);
    }
}

/// What `print` writes for a non-negative integer the lexer reads back as
/// that integer: the line for the raw value `raw` is the decimal text of
/// `raw / 2`, and lexing it, up to a byte that is no digit, gives one
/// integer token of that value.
pub proof fn lemma_printed_int_reads_back(raw: i64, b: Seq<u8>, i: int, line: int, col: int)
    requires
        raw >= 0,
        0 <= i,
        i + print_text(AVal::Int(raw)).len() <= b.len(),
        b.subrange(i, i + print_text(AVal::Int(raw)).len()) == text_bytes(print_text(AVal::Int(raw))),
        i + print_text(AVal::Int(raw)).len() < b.len() ==> !(0x30 <= b[i + print_text(AVal::Int(raw)).len()]
            <= 0x39),
    ensures
        print_text(AVal::Int(raw)) == dec_nat((raw / 2) as nat),
        lex_step(b, i, line, col) == Step::Emit(
            STok::Int((raw / 2) as i64),
            i + print_text(AVal::Int(raw)).len(),
            line,
            col + print_text(AVal::Int(raw)).len(),
        ),
{
    let q = raw >> 1u32;
    let r = raw & 1;
    assert(q + q + r == raw && q >= 0 && (r == 0 || r == 1)) by (bit_vector)
        requires
            raw >= 0,
            q == raw >> 1u32,
            r == raw & 1,
    ;
    vstd::arithmetic::div_mod::lemma_fundamental_div_mod_converse(raw as int, 2, q as int, r as int);
    assert(print_text(AVal::Int(raw)) == dec_nat(q as nat));
    lemma_lex_reads_decimal(q as nat, b, i, line, col);
}

} // verus!
