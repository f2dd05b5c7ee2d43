//! Tagged 64-bit runtime values. The low bit is the tag.
//!
//! - low bit 0: an integer; the integer is `raw >> 1` (range i63).
//! - low bit 1: a heap address; the address is `raw & !1`.
//!
//! Every heap object is 8-byte aligned, so the low bit of an address is
//! always free for the tag.

use vstd::prelude::*;

verus! {

/// A raw tagged value as it lives on the value stack.
pub type Value = i64;

/// A heap address. Addresses of heap objects are 8-aligned.
pub type Addr = u64;

pub const TAG_INT: i64 = 0;
pub const TAG_PTR: i64 = 1;

/// Smallest integer that can be tagged into a `Value`.
pub const INT_MIN: i64 = -0x4000_0000_0000_0000;

/// Largest integer that can be tagged into a `Value`.
pub const INT_MAX: i64 = 0x3fff_ffff_ffff_ffff;

/// A raw value is an integer when its low bit is clear.
pub open spec fn spec_is_int(v: Value) -> bool {
    v % 2 == 0
}

/// The integer carried by a raw value whose tag is clear.
pub open spec fn spec_int_of(v: Value) -> int {
    v / 2
}

/// The i63 range: the integers that survive tagging.
pub open spec fn spec_fits_int(i: int) -> bool {
    INT_MIN <= i <= INT_MAX
}

/// The address carried by a raw value whose tag is set.
pub open spec fn spec_addr_of(v: Value) -> Addr {
    (v - 1) as u64
}

/// The raw value of a tagged address.
pub open spec fn spec_pack_ptr(p: Addr) -> Value {
    (p as i64) | 1
}

/// The low (tag) bit of `v`.
pub fn tag_of(v: Value) -> (t: i64)
    ensures
        t == v % 2,
        t == 0 || t == 1,
{
    assert((v & 1) == v % 2) by (bit_vector);
    v & 1
}

pub fn is_int(v: Value) -> (b: bool)
    ensures
        b == spec_is_int(v),
{
    tag_of(v) == TAG_INT
}

pub fn is_ptr(v: Value) -> (b: bool)
    ensures
        b == !spec_is_int(v),
{
    tag_of(v) == TAG_PTR
}

/// Shift left by one bit, wrapping. Callers that care about the range check
/// with `fits_int` first.
pub fn pack_int(i: i64) -> (v: Value)
    ensures
        v == i.wrapping_shl(1),
        spec_is_int(v),
        spec_fits_int(i as int) ==> v == 2 * i,
{
    let v = i.wrapping_shl(1);
    assert(i << 1u32 == i << (1u32 % 64u32)) by (bit_vector);
    assert((i << 1u32) % 2 == 0) by (bit_vector);
    assert(INT_MIN <= i <= INT_MAX ==> (i << 1u32) == 2 * i) by (bit_vector);
    v
}

/// Whether `i` is in the i63 range that a tagged value can carry.
pub fn fits_int(i: i64) -> (b: bool)
    ensures
        b == spec_fits_int(i as int),
{
    INT_MIN <= i && i <= INT_MAX
}

/// The integer in `v`, or `None` when `v` is a pointer.
pub fn unpack_int(v: Value) -> (r: Option<i64>)
    ensures
        r == (if spec_is_int(v) { Some((v / 2) as i64) } else { None }),
        r is Some ==> spec_fits_int(r->0 as int),
{
    if is_int(v) {
        assert(v % 2 == 0 ==> (v >> 1u32) == v / 2) by (bit_vector);
        assert(v % 2 == 0 ==> INT_MIN <= v / 2 <= INT_MAX) by (bit_vector);
        Some(v >> 1u32)
    } else {
        None
    }
}

/// Tag an address.
pub fn pack_ptr(p: Addr) -> (v: Value)
    ensures
        v == spec_pack_ptr(p),
        !spec_is_int(v),
{
    let v = (p as i64) | TAG_PTR;
    let q = p as i64;
    assert((q | 1) % 2 == 1) by (bit_vector);
    v
}

/// The address in `v`, or `None` when `v` is an integer.
pub fn unpack_ptr(v: Value) -> (r: Option<Addr>)
    ensures
        r == (if spec_is_int(v) { None } else { Some(spec_addr_of(v)) }),
{
    if is_ptr(v) {
        assert(v % 2 == 1 ==> (v & !1i64) == v - 1) by (bit_vector);
        Some((v & !1i64) as u64)
    } else {
        None
    }
}

/// Tagging an integer in range and untagging it gives it back.
pub proof fn lemma_int_roundtrip(i: i64)
    requires
        spec_fits_int(i as int),
    ensures
        spec_is_int((2 * i) as i64),
        spec_int_of((2 * i) as i64) == i,
{
}

/// Tagging an 8-aligned address that fits in an i64 and untagging it gives
/// it back.
pub proof fn lemma_ptr_roundtrip(p: Addr)
    requires
        p % 2 == 0,
        p <= i64::MAX,
    ensures
        !spec_is_int(spec_pack_ptr(p)),
        spec_addr_of(spec_pack_ptr(p)) == p,
{
    let q = p as i64;
    assert(q >= 0 && q % 2 == 0 ==> (q | 1) == q + 1) by (bit_vector);
    assert((q | 1) % 2 == 1) by (bit_vector);
}

/// Tagged integers compare like the integers they carry: shifting by one
/// bit is monotone on the i63 range.
pub proof fn lemma_tagged_order(a: i64, b: i64)
    requires
        spec_fits_int(a as int),
        spec_fits_int(b as int),
    ensures
        (a < b) <==> (2 * a < 2 * b),
        (a <= b) <==> (2 * a <= 2 * b),
        (a == b) <==> (2 * a == 2 * b),
{
}

} // verus!
