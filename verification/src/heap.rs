//! A bump-allocated arena of immutable byte strings with a copying
//! collector.
//!
//! Each object is a header followed by its bytes, 8-aligned:
//!
//! ```text
//!   offset 0:  u32 len      (byte length, little-endian)
//!   offset 4:  u32 hash     (FNV-1a over the bytes)
//!   offset 8:  [u8; len]    bytes
//!   then padding up to the next multiple of 8
//! ```
//!
//! Addresses are the arena's base address plus an offset. The collector
//! evacuates every object reachable from the roots into a fresh arena whose
//! base is the other of two fixed address spaces, and rewrites the roots. An
//! evacuated object's header in the old arena becomes a forwarding record
//! (`len = u32::MAX`, `hash = new offset`), so roots that share an object
//! still share its copy.

use crate::value::{self, spec_addr_of, spec_is_int, spec_pack_ptr, Addr, Value};
use vstd::prelude::*;
use vstd::set_lib::*;

verus! {

/// The header in front of every string.
pub struct StrHeader {
    pub len: u32,
    pub hash: u32,
}

/// Size in bytes of a `StrHeader`.
pub const HEADER_SIZE: usize = 8;

/// Base address of the first of the two address spaces an arena can use.
pub const SPACE_A: u64 = 0x1000_0000_0000;

/// Base address of the second address space.
pub const SPACE_B: u64 = 0x2000_0000_0000;

/// Most bytes the arena can have in use. An object header holds the
/// string's length, and a forwarding record the new offset, in 32 bits, so
/// offsets and lengths must stay below 2^32; and the arena, which doubles
/// when full, must fit a `usize` of 32 bits.
pub const MAX_USED: usize = 0x7fff_fff8;

/// Arena size of `Heap::new`.
pub const DEFAULT_ARENA_SIZE: usize = 1024 * 1024;

/// FNV-1a over a byte sequence.
pub open spec fn spec_fnv1a(b: Seq<u8>) -> u32
    decreases b.len(),
{
    if b.len() == 0 {
        0x811c_9dc5u32
    } else {
        (spec_fnv1a(b.drop_last()) ^ (b.last() as u32)).wrapping_mul(0x0100_0193u32)
    }
}

/// FNV-1a over the bytes.
pub fn fnv1a(bytes: &[u8]) -> (h: u32)
    ensures
        h == spec_fnv1a(bytes@),
{
    let mut h: u32 = 0x811c_9dc5;
    let mut i: usize = 0;
    assert(bytes@.take(0) =~= Seq::<u8>::empty());
    while i < bytes.len()
        invariant
            0 <= i <= bytes@.len(),
            h == spec_fnv1a(bytes@.take(i as int)),
        decreases bytes@.len() - i,
    {
        let b = bytes[i];
        assert(bytes@.take(i + 1).drop_last() =~= bytes@.take(i as int));
        h = h ^ (b as u32);
        h = h.wrapping_mul(0x0100_0193);
        i += 1;
    }
    assert(bytes@.take(bytes@.len() as int) =~= bytes@);
    h
}

/// `n` rounded up to a multiple of 8.
pub open spec fn spec_round8(n: int) -> int {
    (n + 7) - (n + 7) % 8
}

/// The arena bytes an object of `len` bytes takes, header and padding
/// included.
pub open spec fn obj_size(len: nat) -> int {
    spec_round8(HEADER_SIZE + len)
}

pub(crate) fn round_up_8(n: usize) -> (r: usize)
    requires
        n + 7 <= usize::MAX,
    ensures
        r == spec_round8(n as int),
        r % 8 == 0,
        n <= r < n + 8,
{
    let m = n + 7;
    m - m % 8
}

/// Little-endian bytes of a `u32`.
pub open spec fn le_u32(x: u32) -> Seq<u8> {
    seq![x as u8, (x >> 8) as u8, (x >> 16) as u8, (x >> 24) as u8]
}

proof fn lemma_le_u32_injective(x: u32, y: u32)
    requires
        le_u32(x) == le_u32(y),
    ensures
        x == y,
{
    assert(le_u32(x)[0] == le_u32(y)[0]);
    assert(le_u32(x)[1] == le_u32(y)[1]);
    assert(le_u32(x)[2] == le_u32(y)[2]);
    assert(le_u32(x)[3] == le_u32(y)[3]);
    assert((x as u8) == (y as u8) && ((x >> 8) as u8) == ((y >> 8) as u8) && ((x >> 16) as u8) == ((
    y >> 16) as u8) && ((x >> 24) as u8) == ((y >> 24) as u8) ==> x == y) by (bit_vector);
}

/// The `u32` stored little-endian at `off`.
fn read_u32(a: &Vec<u8>, off: usize) -> (x: u32)
    requires
        off + 4 <= a@.len(),
    ensures
        le_u32(x) == a@.subrange(off as int, off + 4),
{
    let _n = a.len();
    let b0 = a[off];
    let b1 = a[off + 1];
    let b2 = a[off + 2];
    let b3 = a[off + 3];
    let x: u32 = (b0 as u32) | ((b1 as u32) << 8) | ((b2 as u32) << 16) | ((b3 as u32) << 24);
    assert(x == ((b0 as u32) | ((b1 as u32) << 8) | ((b2 as u32) << 16) | ((b3 as u32) << 24))
        ==> (x as u8) == b0 && ((x >> 8) as u8) == b1 && ((x >> 16) as u8) == b2 && ((x >> 24)
        as u8) == b3) by (bit_vector);
    assert(le_u32(x) =~= a@.subrange(off as int, off + 4));
    x
}

/// Store `x` little-endian at `off`.
fn write_u32(a: &mut Vec<u8>, off: usize, x: u32)
    requires
        off + 4 <= old(a)@.len(),
    ensures
        final(a)@.len() == old(a)@.len(),
        final(a)@.subrange(off as int, off + 4) == le_u32(x),
        forall|i: int|
            0 <= i < old(a)@.len() && !(off <= i < off + 4) ==> #[trigger] final(a)@[i] == old(a)@[i],
{
    let _n = a.len();
    a.set(off, x as u8);
    a.set(off + 1, (x >> 8) as u8);
    a.set(off + 2, (x >> 16) as u8);
    a.set(off + 3, (x >> 24) as u8);
    assert(a@.subrange(off as int, off + 4) =~= le_u32(x));
}

/// The object with bytes `s` is laid out at `off` in `a`.
pub open spec fn obj_at(a: Seq<u8>, off: int, s: Seq<u8>) -> bool {
    &&& 0 <= off
    &&& off + HEADER_SIZE + s.len() <= a.len()
    &&& a.subrange(off, off + 4) == le_u32(s.len() as u32)
    &&& a.subrange(off + 4, off + 8) == le_u32(spec_fnv1a(s))
    &&& a.subrange(off + 8, off + 8 + s.len()) == s
}

/// The objects `objs` (by address) fit, 8-aligned and without overlap, in
/// the first `used` bytes of an arena whose first byte has address `base`.
pub open spec fn addr_ok(base: u64, used: int, objs: Map<u64, Seq<u8>>) -> bool {
    &&& forall|p: u64| #[trigger]
        objs.contains_key(p) ==> {
            &&& base <= p
            &&& (p - base) % 8 == 0
            &&& objs[p].len() < u32::MAX
            &&& (p - base) + obj_size(objs[p].len()) <= used
        }
    &&& disjoint(objs)
}

/// The objects `objs` are laid out in `a` as `addr_ok` places them.
pub open spec fn layout_ok(a: Seq<u8>, base: u64, used: int, objs: Map<u64, Seq<u8>>) -> bool {
    &&& addr_ok(base, used, objs)
    &&& forall|p: u64| #[trigger] objs.contains_key(p) ==> obj_at(a, p - base, objs[p])
}

/// No two objects overlap.
pub open spec fn disjoint(objs: Map<u64, Seq<u8>>) -> bool {
    forall|p: u64, q: u64|
        #![trigger objs.contains_key(p), objs.contains_key(q)]
        objs.contains_key(p) && objs.contains_key(q) && p < q ==> p + obj_size(objs[p].len()) <= q
}

/// Writing outside an object's bytes leaves it in place.
proof fn lemma_obj_frame(a: Seq<u8>, b: Seq<u8>, off: int, s: Seq<u8>, lo: int, hi: int)
    requires
        obj_at(a, off, s),
        a.len() <= b.len(),
        forall|i: int| 0 <= i < a.len() && !(lo <= i < hi) ==> #[trigger] b[i] == a[i],
        off + HEADER_SIZE + s.len() <= lo || hi <= off,
    ensures
        obj_at(b, off, s),
{
    assert(b.subrange(off, off + 4) =~= a.subrange(off, off + 4));
    assert(b.subrange(off + 4, off + 8) =~= a.subrange(off + 4, off + 8));
    assert(b.subrange(off + 8, off + 8 + s.len()) =~= a.subrange(off + 8, off + 8 + s.len()));
}

/// Writing at or past `used` leaves a layout in place.
proof fn lemma_layout_frame(a: Seq<u8>, b: Seq<u8>, base: u64, used: int, objs: Map<u64, Seq<u8>>)
    requires
        layout_ok(a, base, used, objs),
        a.len() <= b.len(),
        forall|i: int| 0 <= i < used && i < a.len() ==> #[trigger] b[i] == a[i],
    ensures
        layout_ok(b, base, used, objs),
{
    assert forall|p: u64| #[trigger] objs.contains_key(p) implies obj_at(b, p - base, objs[p]) by {
        lemma_obj_frame(a, b, p - base, objs[p], used, b.len() as int);
    }
}

/// A layout with one more object appended at `used`.
proof fn lemma_layout_push(
    a: Seq<u8>,
    base: u64,
    used: int,
    objs: Map<u64, Seq<u8>>,
    s: Seq<u8>,
)
    requires
        layout_ok(a, base, used, objs),
        used % 8 == 0,
        0 <= used,
        s.len() < u32::MAX,
        obj_at(a, used, s),
        base + used <= u64::MAX,
    ensures
        layout_ok(
            a,
            base,
            used + obj_size(s.len()),
            objs.insert((base + used) as u64, s),
        ),
        !objs.contains_key((base + used) as u64),
{
    let p0 = (base + used) as u64;
    let o2 = objs.insert(p0, s);
    assert forall|p: u64| #[trigger] objs.contains_key(p) implies p < p0 by {}
    assert forall|p: u64, q: u64|
        #![trigger o2.contains_key(p), o2.contains_key(q)]
        o2.contains_key(p) && o2.contains_key(q) && p < q implies p + obj_size(o2[p].len()) <= q by {
        if q != p0 {
            assert(objs.contains_key(p) && objs.contains_key(q));
        } else {
            assert(objs.contains_key(p));
        }
    }
}

/// Copy `n` bytes from `src[src_off..]` into `dst[dst_off..]`.
fn copy_bytes(dst: &mut Vec<u8>, dst_off: usize, src: &[u8], src_off: usize, n: usize)
    requires
        dst_off + n <= old(dst)@.len(),
        src_off + n <= src@.len(),
    ensures
        final(dst)@.len() == old(dst)@.len(),
        forall|i: int| 0 <= i < n ==> #[trigger] final(dst)@[dst_off + i] == src@[src_off + i],
        forall|i: int|
            0 <= i < old(dst)@.len() && !(dst_off <= i < dst_off + n) ==> #[trigger] final(dst)@[i]
                == old(dst)@[i],
{
    let mut k: usize = 0;
    while k < n
        invariant
            0 <= k <= n,
            dst_off + n <= old(dst)@.len(),
            src_off + n <= src@.len(),
            dst@.len() == old(dst)@.len(),
            forall|i: int| 0 <= i < k ==> #[trigger] dst@[dst_off + i] == src@[src_off + i],
            forall|i: int|
                0 <= i < old(dst)@.len() && !(dst_off <= i < dst_off + k) ==> #[trigger] dst@[i]
                    == old(dst)@[i],
        decreases n - k,
    {
        let _dl = dst.len();
        let _sl = src.len();
        let ghost prev = dst@;
        dst.set(dst_off + k, src[src_off + k]);
        proof {
            assert forall|i: int| 0 <= i < k + 1 implies #[trigger] dst@[dst_off + i] == src@[src_off + i] by {
                if i < k {
                    assert(dst@[dst_off + i] == prev[dst_off + i]);
                }
            }
        }
        k += 1;
    }
}

/// Lay out the object holding `bytes` at `off`: header, then the bytes.
fn put_obj(a: &mut Vec<u8>, off: usize, bytes: &[u8])
    requires
        off + HEADER_SIZE + bytes@.len() <= old(a)@.len(),
        bytes@.len() < u32::MAX,
    ensures
        final(a)@.len() == old(a)@.len(),
        obj_at(final(a)@, off as int, bytes@),
        forall|i: int|
            0 <= i < old(a)@.len() && !(off <= i < off + HEADER_SIZE + bytes@.len()) ==> #[trigger] final(a)@[i]
                == old(a)@[i],
{
    let _n = a.len();
    let hash = fnv1a(bytes);
    write_u32(a, off, bytes.len() as u32);
    let ghost a1 = a@;
    write_u32(a, off + 4, hash);
    let ghost a2 = a@;
    copy_bytes(a, off + HEADER_SIZE, bytes, 0, bytes.len());
    proof {
        let s = bytes@;
        assert(a@.subrange(off as int, off + 4) =~= a1.subrange(off as int, off + 4));
        assert(a@.subrange(off + 4, off + 8) =~= a2.subrange(off + 4, off + 8));
        let x = a@.subrange(off + 8, off + 8 + s.len());
        assert forall|k: int| 0 <= k < s.len() implies #[trigger] x[k] == s[k] by {
            assert(a@[(off + HEADER_SIZE) + k] == bytes@[0 + k]);
        }
        assert(x =~= s);
    }
}

/// A forwarding record stands at `off` in `a`: length word `u32::MAX`,
/// then the new offset.
pub open spec fn fwd_at(a: Seq<u8>, off: int, to: u64) -> bool {
    &&& 0 <= off
    &&& off + 8 <= a.len()
    &&& a.subrange(off, off + 4) == le_u32(u32::MAX)
    &&& a.subrange(off + 4, off + 8) == le_u32(to as u32)
}

/// During a collection: every old object whose address `fwd` maps has a
/// forwarding record in the old arena, the others are still in place.
spec fn from_ok(a: Seq<u8>, base: u64, objs: Map<u64, Seq<u8>>, fwd: Map<u64, u64>) -> bool {
    forall|p: u64| #[trigger]
        objs.contains_key(p) ==> if fwd.contains_key(p) {
            fwd_at(a, p - base, fwd[p])
        } else {
            obj_at(a, p - base, objs[p])
        }
}

/// The arena bytes taken by the object at `p`.
spec fn span_of(base: u64, objs: Map<u64, Seq<u8>>, p: u64) -> Set<int> {
    set_int_range(p - base, p - base + obj_size(objs[p].len()))
}

/// `marked` is the set of old-arena bytes of the evacuated objects.
spec fn marked_ok(marked: Set<int>, base: u64, objs: Map<u64, Seq<u8>>, fwd: Map<u64, u64>, used: int) -> bool {
    &&& marked.finite()
    &&& marked.subset_of(set_int_range(0, used))
    &&& forall|b: int| #[trigger]
        marked.contains(b) ==> exists|q: u64|
            #[trigger] fwd.contains_key(q) && span_of(base, objs, q).contains(b)
    &&& forall|q: u64| #[trigger] fwd.contains_key(q) ==> span_of(base, objs, q).subset_of(marked)
}

proof fn lemma_span_len(base: u64, objs: Map<u64, Seq<u8>>, p: u64)
    requires
        base <= p,
    ensures
        span_of(base, objs, p).finite(),
        span_of(base, objs, p).len() == obj_size(objs[p].len()),
{
    lemma_int_range(p - base, p - base + obj_size(objs[p].len()));
}

/// Marking one more evacuated object adds its size to the marked count.
proof fn lemma_mark(
    marked: Set<int>,
    base: u64,
    used: int,
    objs: Map<u64, Seq<u8>>,
    fwd: Map<u64, u64>,
    p: u64,
    to: u64,
)
    requires
        addr_ok(base, used, objs),
        marked_ok(marked, base, objs, fwd, used),
        forall|q: u64| #[trigger] fwd.contains_key(q) ==> objs.contains_key(q),
        objs.contains_key(p),
        !fwd.contains_key(p),
    ensures
        marked_ok(marked + span_of(base, objs, p), base, objs, fwd.insert(p, to), used),
        (marked + span_of(base, objs, p)).len() == marked.len() + obj_size(objs[p].len()),
        marked.len() + obj_size(objs[p].len()) <= used,
{
    let sp = span_of(base, objs, p);
    lemma_span_len(base, objs, p);
    assert(marked.disjoint(sp)) by {
        assert forall|b: int| marked.contains(b) implies !sp.contains(b) by {
            let q = choose|q: u64| #[trigger] fwd.contains_key(q) && span_of(base, objs, q).contains(b);
            assert(objs.contains_key(q));
            assert(q != p);
            if q < p {
                assert(objs.contains_key(q) && objs.contains_key(p));
            } else {
                assert(objs.contains_key(p) && objs.contains_key(q));
            }
        }
    }
    lemma_set_disjoint_lens(marked, sp);
    let m2 = marked + sp;
    assert(m2.subset_of(set_int_range(0, used)));
    lemma_int_range(0, used);
    lemma_len_subset(m2, set_int_range(0, used));
    let f2 = fwd.insert(p, to);
    assert forall|b: int| #[trigger] m2.contains(b) implies exists|q: u64|
        #[trigger] f2.contains_key(q) && span_of(base, objs, q).contains(b) by {
        if marked.contains(b) {
            let q = choose|q: u64| #[trigger] fwd.contains_key(q) && span_of(base, objs, q).contains(b);
            assert(f2.contains_key(q));
        } else {
            assert(f2.contains_key(p) && span_of(base, objs, p).contains(b));
        }
    }
    assert forall|q: u64| #[trigger] f2.contains_key(q) implies span_of(base, objs, q).subset_of(m2) by {
        if q != p {
            assert(fwd.contains_key(q));
        }
    }
}

/// The old-arena bytes of the strings that some root points to: each
/// string's header, bytes and padding, counted once however many roots
/// point to it.
pub open spec fn live_bytes(base: u64, objs: Map<u64, Seq<u8>>, roots: Seq<Value>) -> Set<int> {
    Set::new(
        |b: int|
            exists|j: int|
                0 <= j < roots.len() && is_live(objs, #[trigger] roots[j]) && spec_addr_of(roots[j]) - base <= b
                    < spec_addr_of(roots[j]) - base + obj_size(objs[spec_addr_of(roots[j])].len()),
    )
}

/// `v` is the address of a live string.
pub open spec fn is_live(objs: Map<u64, Seq<u8>>, v: Value) -> bool {
    !spec_is_int(v) && objs.contains_key(spec_addr_of(v))
}

/// Every root that is a pointer either addresses a live string or lies
/// outside the bytes in use `[base, base + used)`.
pub open spec fn roots_in(base: u64, used: int, objs: Map<u64, Seq<u8>>, roots: Seq<Value>) -> bool {
    forall|i: int|
        0 <= i < roots.len() && !spec_is_int(#[trigger] roots[i]) ==> objs.contains_key(spec_addr_of(roots[i]))
            || spec_addr_of(roots[i]) < base || spec_addr_of(roots[i]) >= base + used
}

/// The sizes of the strings that `roots` point to, counted once per root.
pub open spec fn roots_bytes(objs: Map<u64, Seq<u8>>, roots: Seq<Value>) -> int
    decreases roots.len(),
{
    if roots.len() == 0 {
        0
    } else {
        roots_bytes(objs, roots.drop_last()) + if is_live(objs, roots.last()) {
            obj_size(objs[spec_addr_of(roots.last())].len())
        } else {
            0
        }
    }
}

/// The bytes of the strings the roots point to are at most their sizes
/// counted once per root, and lie within the bytes in use.
pub proof fn lemma_live_bytes_bound(base: u64, used: int, objs: Map<u64, Seq<u8>>, roots: Seq<Value>)
    requires
        addr_ok(base, used, objs),
        0 <= used,
    ensures
        live_bytes(base, objs, roots).finite(),
        live_bytes(base, objs, roots).len() <= roots_bytes(objs, roots),
        live_bytes(base, objs, roots).subset_of(set_int_range(0, used)),
        live_bytes(base, objs, roots).len() <= used,
    decreases roots.len(),
{
    let live = live_bytes(base, objs, roots);
    if roots.len() == 0 {
        assert(live =~= Set::<int>::empty());
    } else {
        let pre = roots.drop_last();
        lemma_live_bytes_bound(base, used, objs, pre);
        let lp = live_bytes(base, objs, pre);
        let r = roots.last();
        let k = roots.len() - 1;
        assert(roots[k] == r);
        if !is_live(objs, r) {
            assert forall|b: int| live.contains(b) implies lp.contains(b) by {
                let j = choose|j: int|
                    0 <= j < roots.len() && is_live(objs, #[trigger] roots[j]) && spec_addr_of(roots[j]) - base <= b
                        < spec_addr_of(roots[j]) - base + obj_size(objs[spec_addr_of(roots[j])].len());
                assert(pre[j] == roots[j]);
            }
            assert forall|b: int| lp.contains(b) implies live.contains(b) by {
                let j = choose|j: int|
                    0 <= j < pre.len() && is_live(objs, #[trigger] pre[j]) && spec_addr_of(pre[j]) - base <= b
                        < spec_addr_of(pre[j]) - base + obj_size(objs[spec_addr_of(pre[j])].len());
                assert(roots[j] == pre[j]);
            }
            assert(live =~= lp);
        } else {
            let a = spec_addr_of(r);
            assert(objs.contains_key(a));
            let sp = set_int_range(a - base, a - base + obj_size(objs[a].len()));
            lemma_int_range(a - base, a - base + obj_size(objs[a].len()));
            assert forall|b: int| live.contains(b) implies lp.union(sp).contains(b) by {
                let j = choose|j: int|
                    0 <= j < roots.len() && is_live(objs, #[trigger] roots[j]) && spec_addr_of(roots[j]) - base <= b
                        < spec_addr_of(roots[j]) - base + obj_size(objs[spec_addr_of(roots[j])].len());
                if j < k {
                    assert(pre[j] == roots[j]);
                    assert(lp.contains(b));
                } else {
                    assert(sp.contains(b));
                }
            }
            assert forall|b: int| lp.union(sp).contains(b) implies live.contains(b) by {
                if lp.contains(b) {
                    let j = choose|j: int|
                        0 <= j < pre.len() && is_live(objs, #[trigger] pre[j]) && spec_addr_of(pre[j]) - base <= b
                            < spec_addr_of(pre[j]) - base + obj_size(objs[spec_addr_of(pre[j])].len());
                    assert(roots[j] == pre[j]);
                } else {
                    assert(is_live(objs, roots[k]));
                }
            }
            assert(live =~= lp.union(sp));
            lemma_len_union(lp, sp);
            assert(sp.subset_of(set_int_range(0, used)));
        }
    }
    lemma_int_range(0, used);
    lemma_len_subset(live, set_int_range(0, used));
}

/// Some root among `roots` addresses the live string at `a`.
pub open spec fn seen(objs: Map<u64, Seq<u8>>, roots: Seq<Value>, a: u64) -> bool {
    exists|k: int| 0 <= k < roots.len() && is_live(objs, #[trigger] roots[k]) && spec_addr_of(roots[k]) == a
}

/// The sizes of the distinct live strings that `roots` point to: each
/// string counted once, at the first root that points to it.
#[verifier::opaque]
pub open spec fn live_sum(objs: Map<u64, Seq<u8>>, roots: Seq<Value>) -> int
    decreases roots.len(),
{
    if roots.len() == 0 {
        0
    } else {
        live_sum(objs, roots.drop_last()) + if is_live(objs, roots.last()) && !seen(
            objs,
            roots.drop_last(),
            spec_addr_of(roots.last()),
        ) {
            obj_size(objs[spec_addr_of(roots.last())].len())
        } else {
            0
        }
    }
}

/// The live bytes are the sum of the sizes of the distinct live strings the
/// roots point to: objects do not overlap.
pub proof fn lemma_live_bytes_sum(base: u64, used: int, objs: Map<u64, Seq<u8>>, roots: Seq<Value>)
    requires
        addr_ok(base, used, objs),
        0 <= used,
    ensures
        live_bytes(base, objs, roots).len() == live_sum(objs, roots),
    decreases roots.len(),
{
    reveal(live_sum);
    lemma_live_bytes_bound(base, used, objs, roots);
    let live = live_bytes(base, objs, roots);
    if roots.len() == 0 {
        assert(live =~= Set::<int>::empty());
    } else {
        let pre = roots.drop_last();
        lemma_live_bytes_sum(base, used, objs, pre);
        lemma_live_bytes_bound(base, used, objs, pre);
        let lp = live_bytes(base, objs, pre);
        let r = roots.last();
        let k = roots.len() - 1;
        assert(roots[k] == r);
        if !is_live(objs, r) {
            assert forall|b: int| live.contains(b) implies lp.contains(b) by {
                let j = choose|j: int|
                    0 <= j < roots.len() && is_live(objs, #[trigger] roots[j]) && spec_addr_of(roots[j]) - base <= b
                        < spec_addr_of(roots[j]) - base + obj_size(objs[spec_addr_of(roots[j])].len());
                assert(pre[j] == roots[j]);
            }
            assert forall|b: int| lp.contains(b) implies live.contains(b) by {
                let j = choose|j: int|
                    0 <= j < pre.len() && is_live(objs, #[trigger] pre[j]) && spec_addr_of(pre[j]) - base <= b
                        < spec_addr_of(pre[j]) - base + obj_size(objs[spec_addr_of(pre[j])].len());
                assert(roots[j] == pre[j]);
            }
            assert(live =~= lp);
        } else {
            let a = spec_addr_of(r);
            let sp = set_int_range(a - base, a - base + obj_size(objs[a].len()));
            lemma_int_range(a - base, a - base + obj_size(objs[a].len()));
            assert forall|b: int| live.contains(b) implies lp.union(sp).contains(b) by {
                let j = choose|j: int|
                    0 <= j < roots.len() && is_live(objs, #[trigger] roots[j]) && spec_addr_of(roots[j]) - base <= b
                        < spec_addr_of(roots[j]) - base + obj_size(objs[spec_addr_of(roots[j])].len());
                if j < k {
                    assert(pre[j] == roots[j]);
                    assert(lp.contains(b));
                } else {
                    assert(sp.contains(b));
                }
            }
            assert forall|b: int| lp.union(sp).contains(b) implies live.contains(b) by {
                if lp.contains(b) {
                    let j = choose|j: int|
                        0 <= j < pre.len() && is_live(objs, #[trigger] pre[j]) && spec_addr_of(pre[j]) - base <= b
                            < spec_addr_of(pre[j]) - base + obj_size(objs[spec_addr_of(pre[j])].len());
                    assert(roots[j] == pre[j]);
                } else {
                    assert(is_live(objs, roots[k]));
                }
            }
            assert(live =~= lp.union(sp));
            if seen(objs, pre, a) {
                let j = choose|j: int| 0 <= j < pre.len() && is_live(objs, #[trigger] pre[j]) && spec_addr_of(pre[j]) == a;
                assert forall|b: int| sp.contains(b) implies lp.contains(b) by {
                    assert(is_live(objs, pre[j]));
                }
                assert(lp.union(sp) =~= lp);
            } else {
                assert(lp.disjoint(sp)) by {
                    assert forall|b: int| lp.contains(b) implies !sp.contains(b) by {
                        let j = choose|j: int|
                            0 <= j < pre.len() && is_live(objs, #[trigger] pre[j]) && spec_addr_of(pre[j]) - base <= b
                                < spec_addr_of(pre[j]) - base + obj_size(objs[spec_addr_of(pre[j])].len());
                        let q = spec_addr_of(pre[j]);
                        assert(q != a);
                        assert(objs.contains_key(q) && objs.contains_key(a));
                        if q < a {
                            assert(q + obj_size(objs[q].len()) <= a);
                        } else {
                            assert(a + obj_size(objs[a].len()) <= q);
                        }
                    }
                }
                lemma_set_disjoint_lens(lp, sp);
            }
        }
    }
}

/// The arena size after doubling `cap` until `n` bytes fit.
pub open spec fn grown_cap(cap: int, n: int) -> int
    decreases if n > cap { n - cap } else { 0 },
{
    if cap <= 0 || n <= cap {
        cap
    } else {
        grown_cap(2 * cap, n)
    }
}

proof fn lemma_grown_cap(cap: int, n: int)
    requires
        0 < cap,
    ensures
        n <= grown_cap(cap, n) || grown_cap(cap, n) == cap,
        cap <= grown_cap(cap, n),
        n <= cap ==> grown_cap(cap, n) == cap,
        n > cap ==> n <= grown_cap(cap, n) < 2 * n,
    decreases if n > cap { n - cap } else { 0 },
{
    if n > cap {
        lemma_grown_cap(2 * cap, n);
    }
}

/// The arena.
pub struct Heap {
    arena: Vec<u8>,
    base: u64,
    used: usize,
    /// When `used` would cross this, the next allocation collects first.
    live_threshold: usize,
    /// Total bytes allocated over the heap's lifetime.
    pub bytes_allocated_lifetime: usize,
    /// Number of collections so far.
    pub collections: usize,
    objs: Ghost<Map<u64, Seq<u8>>>,
}

impl View for Heap {
    /// The live strings, by address.
    type V = Map<u64, Seq<u8>>;

    closed spec fn view(&self) -> Map<u64, Seq<u8>> {
        self.objs@
    }
}

/// A value is an integer or the address of a live string.
pub open spec fn val_ok(h: Map<u64, Seq<u8>>, v: Value) -> bool {
    spec_is_int(v) || h.contains_key(spec_addr_of(v))
}

pub open spec fn roots_ok(h: Map<u64, Seq<u8>>, roots: Seq<Value>) -> bool {
    forall|i: int| 0 <= i < roots.len() ==> val_ok(h, #[trigger] roots[i])
}

/// `v1` in heap `h1` stands for what `v0` stood for in `h0`: the same
/// integer, or a string with the same bytes.
pub open spec fn same_val(h0: Map<u64, Seq<u8>>, v0: Value, h1: Map<u64, Seq<u8>>, v1: Value) -> bool {
    if spec_is_int(v0) {
        v1 == v0
    } else {
        &&& !spec_is_int(v1)
        &&& h1.contains_key(spec_addr_of(v1))
        &&& h1[spec_addr_of(v1)] == h0[spec_addr_of(v0)]
    }
}

impl Heap {
    /// The heap's internal invariant.
    pub closed spec fn wf(&self) -> bool {
        &&& 0 < self.arena@.len()
        &&& self.used <= self.arena@.len()
        &&& self.used <= MAX_USED
        &&& self.used % 8 == 0
        &&& self.base == SPACE_A || self.base == SPACE_B
        &&& layout_ok(self.arena@, self.base, self.used as int, self.objs@)
    }

    /// Address of the arena's first byte.
    pub closed spec fn spec_base(&self) -> u64 {
        self.base
    }

    /// Bytes of the arena in use.
    pub closed spec fn spec_used(&self) -> nat {
        self.used as nat
    }

    pub closed spec fn spec_threshold(&self) -> nat {
        self.live_threshold as nat
    }

    /// Number of collections so far: the field `collections`.
    pub closed spec fn spec_collections(&self) -> nat {
        self.collections as nat
    }

    /// Total bytes allocated so far: the field `bytes_allocated_lifetime`.
    pub closed spec fn spec_lifetime(&self) -> nat {
        self.bytes_allocated_lifetime as nat
    }

    /// The arena's size in bytes.
    pub closed spec fn spec_capacity(&self) -> nat {
        self.arena@.len()
    }

    /// The bytes in use when an allocation of `n` bytes with `roots` as the
    /// roots places its object: as now, or after the collection that the
    /// threshold calls for.
    pub open spec fn kept_used(&self, roots: Seq<Value>, n: int) -> int {
        if self.spec_used() + n <= self.spec_threshold() {
            self.spec_used() as int
        } else {
            live_bytes(self.spec_base(), self@, roots).len() as int
        }
    }

    /// The threshold after that collection, if any.
    pub open spec fn kept_threshold(&self, roots: Seq<Value>, n: int) -> int {
        if self.spec_used() + n <= self.spec_threshold() {
            self.spec_threshold() as int
        } else if self.kept_used(roots, n) * 2 > self.spec_threshold() {
            self.kept_used(roots, n) * 2
        } else {
            self.spec_threshold() as int
        }
    }

    /// The bytes of the strings that `roots` point to are at most their
    /// sizes counted once per root.
    pub proof fn lemma_live_bound(&self, roots: Seq<Value>)
        requires
            self.wf(),
        ensures
            live_bytes(self.spec_base(), self@, roots).len() <= roots_bytes(self@, roots),
            live_bytes(self.spec_base(), self@, roots).len() <= self.spec_used(),
    {
        lemma_live_bytes_bound(self.base, self.used as int, self.objs@, roots);
    }

    /// The bytes in use stay within `MAX_USED`.
    pub proof fn lemma_used(&self)
        requires
            self.wf(),
        ensures
            self.spec_used() <= MAX_USED,
    {
    }

    /// Every live address is 8-aligned and fits in an `i64`.
    #[verifier::spinoff_prover]
    pub proof fn lemma_addrs(&self, p: u64)
        requires
            self.wf(),
            self@.contains_key(p),
        ensures
            p % 8 == 0,
            p < 0x4000_0000_0000,
            self@[p].len() < u32::MAX,
    {
    }

    /// A heap with the default arena size.
    pub fn new() -> (h: Heap)
        ensures
            h.wf(),
            h@ == Map::<u64, Seq<u8>>::empty(),
            h.spec_used() == 0,
            h.spec_capacity() == DEFAULT_ARENA_SIZE,
            h.spec_threshold() == DEFAULT_ARENA_SIZE / 2,
            h.spec_collections() == 0,
            h.spec_lifetime() == 0,
    {
        Self::with_capacity(DEFAULT_ARENA_SIZE)
    }

    /// A heap with an arena of `cap` bytes; it collects once half of them
    /// are in use.
    pub fn with_capacity(cap: usize) -> (h: Heap)
        requires
            0 < cap,
        ensures
            h.wf(),
            h@ == Map::<u64, Seq<u8>>::empty(),
            h.spec_used() == 0,
            h.spec_capacity() == cap,
            h.spec_threshold() == cap / 2,
            h.spec_collections() == 0,
            h.spec_lifetime() == 0,
    {
        let arena = vec![0u8; cap];
        Heap {
            arena,
            base: SPACE_A,
            used: 0,
            live_threshold: cap / 2,
            bytes_allocated_lifetime: 0,
            collections: 0,
            objs: Ghost(Map::empty()),
        }
    }

    /// Override the collection threshold.
    pub fn set_threshold(&mut self, n: usize)
        requires
            old(self).wf(),
        ensures
            final(self).wf(),
            final(self)@ == old(self)@,
            final(self).spec_threshold() == n,
            final(self).spec_used() == old(self).spec_used(),
            final(self).spec_capacity() == old(self).spec_capacity(),
            final(self).spec_collections() == old(self).spec_collections(),
            final(self).spec_lifetime() == old(self).spec_lifetime(),
    {
        self.live_threshold = n;
    }

    /// Bytes of the arena in use.
    pub fn bytes_in_use(&self) -> (n: usize)
        ensures
            n == self.spec_used(),
    {
        self.used
    }

    /// The number of collections so far (the field `collections`).
    pub fn collection_count(&self) -> (n: usize)
        ensures
            n == self.spec_collections(),
    {
        self.collections
    }

    /// The bytes allocated over the heap's lifetime (the field
    /// `bytes_allocated_lifetime`).
    pub fn lifetime_bytes(&self) -> (n: usize)
        ensures
            n == self.spec_lifetime(),
    {
        self.bytes_allocated_lifetime
    }

    /// The current collection threshold.
    pub fn collect_threshold_for_test(&self) -> (n: usize)
        ensures
            n == self.spec_threshold(),
    {
        self.live_threshold
    }

    fn offset_of(&self, ptr: Addr) -> (off: usize)
        requires
            self.wf(),
            self@.contains_key(ptr),
        ensures
            off == ptr - self.base,
            obj_at(self.arena@, off as int, self@[ptr]),
            off + obj_size(self@[ptr].len()) <= self.spec_used(),
    {
        (ptr - self.base) as usize
    }

    /// The byte length of the string at `ptr`, from its header.
    pub fn len_of(&self, ptr: Addr) -> (n: u32)
        requires
            self.wf(),
            self@.contains_key(ptr),
        ensures
            n == self@[ptr].len(),
    {
        let off = self.offset_of(ptr);
        let n = read_u32(&self.arena, off);
        proof {
            lemma_le_u32_injective(n, self@[ptr].len() as u32);
        }
        n
    }

    /// The FNV-1a hash stored in the header of the string at `ptr`.
    pub fn hash_of(&self, ptr: Addr) -> (h: u32)
        requires
            self.wf(),
            self@.contains_key(ptr),
        ensures
            h == spec_fnv1a(self@[ptr]),
    {
        let off = self.offset_of(ptr);
        let h = read_u32(&self.arena, off + 4);
        proof {
            lemma_le_u32_injective(h, spec_fnv1a(self@[ptr]));
        }
        h
    }

    /// The bytes of the string at `ptr`.
    pub fn bytes_of(&self, ptr: Addr) -> (b: &[u8])
        requires
            self.wf(),
            self@.contains_key(ptr),
        ensures
            b@ == self@[ptr],
    {
        let off = self.offset_of(ptr);
        let len = self.len_of(ptr) as usize;
        let s = self.arena.as_slice();
        &s[off + HEADER_SIZE..off + HEADER_SIZE + len]
    }
}

/// `a + b` wrapping at `usize::MAX`.
pub open spec fn wrap_add(a: nat, b: int) -> int {
    if a + b > usize::MAX {
        a + b - (usize::MAX + 1)
    } else {
        a + b
    }
}

/// The other address space.
pub open spec fn other_space(base: u64) -> u64 {
    if base == SPACE_A {
        SPACE_B
    } else {
        SPACE_A
    }
}

impl Heap {
    /// The state of a collection in progress: `fwd` maps each evacuated
    /// old address to its offset in `to_space`, whose first `to_used` bytes
    /// hold the copies `to_objs`; `marked` is the set of old-arena bytes the
    /// evacuated objects took.
    spec fn coll_inv(
        &self,
        to_space: Seq<u8>,
        to_used: int,
        to_base: u64,
        fwd: Map<u64, u64>,
        to_objs: Map<u64, Seq<u8>>,
        marked: Set<int>,
    ) -> bool {
        &&& 0 < self.arena@.len()
        &&& self.used <= self.arena@.len()
        &&& self.used <= MAX_USED
        &&& self.used % 8 == 0
        &&& self.base == SPACE_A || self.base == SPACE_B
        &&& to_base == other_space(self.base)
        &&& addr_ok(self.base, self.used as int, self.objs@)
        &&& from_ok(self.arena@, self.base, self.objs@, fwd)
        &&& forall|p: u64| #[trigger]
            fwd.contains_key(p) ==> {
                &&& self.objs@.contains_key(p)
                &&& fwd[p] < to_used
                &&& to_objs.contains_key((to_base + fwd[p]) as u64)
                &&& to_objs[(to_base + fwd[p]) as u64] == self.objs@[p]
            }
        &&& forall|t: u64| #[trigger]
            to_objs.contains_key(t) ==> exists|p: u64| #[trigger]
                fwd.contains_key(p) && t == to_base + fwd[p]
        &&& to_space.len() == self.arena@.len()
        &&& 0 <= to_used <= self.used
        &&& to_used % 8 == 0
        &&& layout_ok(to_space, to_base, to_used, to_objs)
        &&& marked_ok(marked, self.base, self.objs@, fwd, self.used as int)
        &&& marked.len() == to_used
    }

    /// Copy the not yet evacuated object at `p` to `to_space` at `to_used`
    /// and leave a forwarding record behind. Returns the new `to_used`.
    #[verifier::spinoff_prover]
    #[verifier::rlimit(30)]
    fn evacuate(
        &mut self,
        to_space: &mut Vec<u8>,
        to_used: usize,
        p: u64,
        Ghost(to_base): Ghost<u64>,
        Ghost(fwd): Ghost<Map<u64, u64>>,
        Ghost(to_objs): Ghost<Map<u64, Seq<u8>>>,
        Ghost(marked): Ghost<Set<int>>,
    ) -> (r: usize)
        requires
            old(self).coll_inv(old(to_space)@, to_used as int, to_base, fwd, to_objs, marked),
            old(self).objs@.contains_key(p),
            !fwd.contains_key(p),
        ensures
            r == to_used + obj_size(old(self).objs@[p].len()),
            final(self).base == old(self).base,
            final(self).used == old(self).used,
            final(self).objs == old(self).objs,
            final(self).live_threshold == old(self).live_threshold,
            final(self).collections == old(self).collections,
            final(self).bytes_allocated_lifetime == old(self).bytes_allocated_lifetime,
            final(self).arena@.len() == old(self).arena@.len(),
            final(self).coll_inv(
                final(to_space)@,
                r as int,
                to_base,
                fwd.insert(p, to_used as u64),
                to_objs.insert((to_base + to_used) as u64, old(self).objs@[p]),
                marked + span_of(old(self).base, old(self).objs@, p),
            ),
    {
        let ghost objs = self.objs@;
        let ghost s = objs[p];
        let ghost a0 = self.arena@;
        let ghost t0 = to_space@;
        let from_off = (p - self.base) as usize;
        let len = read_u32(&self.arena, from_off);
        proof {
            lemma_le_u32_injective(len, s.len() as u32);
            lemma_mark(marked, self.base, self.used as int, objs, fwd, p, to_used as u64);
        }
        let total = round_up_8(HEADER_SIZE + len as usize);
        assert(total == obj_size(s.len()));
        let new_off = to_used;
        copy_bytes(to_space, new_off, self.arena.as_slice(), from_off, total);
        write_u32(&mut self.arena, from_off, 0xffff_ffffu32);
        write_u32(&mut self.arena, from_off + 4, new_off as u32);
        let ghost fwd2 = fwd.insert(p, new_off as u64);
        let ghost to2 = to_objs.insert((to_base + new_off) as u64, s);
        proof {
            // the copy lands intact in to-space
            assert(obj_at(to_space@, new_off as int, s)) by {
                assert(to_space@[new_off + 0] == a0[from_off + 0]);
                assert(to_space@[new_off + 1] == a0[from_off + 1]);
                assert(to_space@[new_off + 2] == a0[from_off + 2]);
                assert(to_space@[new_off + 3] == a0[from_off + 3]);
                assert(to_space@[new_off + 4] == a0[from_off + 4]);
                assert(to_space@[new_off + 5] == a0[from_off + 5]);
                assert(to_space@[new_off + 6] == a0[from_off + 6]);
                assert(to_space@[new_off + 7] == a0[from_off + 7]);
                assert(to_space@.subrange(new_off as int, new_off + 4) =~= a0.subrange(from_off as int, from_off + 4));
                assert(to_space@.subrange(new_off + 4, new_off + 8) =~= a0.subrange(from_off + 4, from_off + 8));
                let x = to_space@.subrange(new_off + 8, new_off + 8 + s.len());
                let y = a0.subrange(from_off + 8, from_off + 8 + s.len());
                assert(new_off + 8 + s.len() <= to_space@.len());
                assert(x.len() == y.len());
                assert forall|k: int| 0 <= k < s.len() implies #[trigger] x[k] == y[k] by {
                    assert(to_space@[new_off + (8 + k)] == a0[from_off + (8 + k)]);
                }
                assert(x =~= y);
            }
            lemma_layout_frame(t0, to_space@, to_base, to_used as int, to_objs);
            lemma_layout_push(to_space@, to_base, to_used as int, to_objs, s);
            // the other old objects and records stay as they were
            assert forall|q: u64| #[trigger] objs.contains_key(q) implies if fwd2.contains_key(q) {
                fwd_at(self.arena@, q - self.base, fwd2[q])
            } else {
                obj_at(self.arena@, q - self.base, objs[q])
            } by {
                if q == p {
                    assert(self.arena@.subrange(from_off as int, from_off + 4) == le_u32(u32::MAX));
                } else {
                    if q < p {
                        assert(objs.contains_key(q) && objs.contains_key(p));
                    } else {
                        assert(objs.contains_key(p) && objs.contains_key(q));
                    }
                    let qo = q - self.base;
                    if fwd.contains_key(q) {
                        assert(self.arena@.subrange(qo, qo + 4) =~= a0.subrange(qo, qo + 4));
                        assert(self.arena@.subrange(qo + 4, qo + 8) =~= a0.subrange(qo + 4, qo + 8));
                    } else {
                        lemma_obj_frame(a0, self.arena@, qo, objs[q], from_off as int, from_off + 8);
                    }
                }
            }
            assert forall|q: u64| #[trigger] fwd2.contains_key(q) implies {
                &&& objs.contains_key(q)
                &&& fwd2[q] < total + to_used
                &&& to2.contains_key((to_base + fwd2[q]) as u64)
                &&& to2[(to_base + fwd2[q]) as u64] == objs[q]
            } by {
                if q != p {
                    assert(fwd.contains_key(q));
                    assert(to_objs.contains_key((to_base + fwd[q]) as u64));
                }
            }
            assert forall|t: u64| #[trigger] to2.contains_key(t) implies exists|q: u64| #[trigger]
                fwd2.contains_key(q) && t == to_base + fwd2[q] by {
                if t != (to_base + new_off) as u64 {
                    let q = choose|q: u64| #[trigger] fwd.contains_key(q) && t == to_base + fwd[q];
                    assert(fwd2.contains_key(q));
                } else {
                    assert(fwd2.contains_key(p));
                }
            }
        }
        to_used + total
    }
}

impl Heap {
    /// The new offset of the old object at `p`, evacuating it first when
    /// no forwarding record says where it went. Returns the offset and the
    /// new `to_used`.
    fn forward(
        &mut self,
        to_space: &mut Vec<u8>,
        to_used: usize,
        p: u64,
        Ghost(to_base): Ghost<u64>,
        Ghost(fwd): Ghost<Map<u64, u64>>,
        Ghost(to_objs): Ghost<Map<u64, Seq<u8>>>,
        Ghost(marked): Ghost<Set<int>>,
    ) -> (r: (usize, usize))
        requires
            old(self).coll_inv(old(to_space)@, to_used as int, to_base, fwd, to_objs, marked),
            old(self).objs@.contains_key(p),
        ensures
            final(self).base == old(self).base,
            final(self).used == old(self).used,
            final(self).objs == old(self).objs,
            final(self).live_threshold == old(self).live_threshold,
            final(self).collections == old(self).collections,
            final(self).bytes_allocated_lifetime == old(self).bytes_allocated_lifetime,
            final(self).arena@.len() == old(self).arena@.len(),
            fwd.contains_key(p) ==> {
                &&& r.0 == fwd[p]
                &&& r.1 == to_used
                &&& final(self).coll_inv(final(to_space)@, to_used as int, to_base, fwd, to_objs, marked)
            },
            !fwd.contains_key(p) ==> {
                &&& r.0 == to_used
                &&& final(self).coll_inv(
                    final(to_space)@,
                    r.1 as int,
                    to_base,
                    fwd.insert(p, to_used as u64),
                    to_objs.insert((to_base + to_used) as u64, old(self).objs@[p]),
                    marked + span_of(old(self).base, old(self).objs@, p),
                )
            },
    {
        let from_off = (p - self.base) as usize;
        let len_word = read_u32(&self.arena, from_off);
        if len_word == 0xffff_ffffu32 {
            proof {
                if !fwd.contains_key(p) {
                    lemma_le_u32_injective(len_word, self.objs@[p].len() as u32);
                }
            }
            let o = read_u32(&self.arena, from_off + 4);
            proof {
                lemma_le_u32_injective(o, fwd[p] as u32);
            }
            (o as usize, to_used)
        } else {
            proof {
                if fwd.contains_key(p) {
                    lemma_le_u32_injective(len_word, u32::MAX);
                }
            }
            let tu = self.evacuate(to_space, to_used, p, Ghost(to_base), Ghost(fwd), Ghost(to_objs), Ghost(marked));
            (to_used, tu)
        }
    }

    /// Copying collection. Every root that is the address of a live string
    /// is rewritten to the address of its copy in a fresh arena; roots that
    /// share a string share its copy. Strings no root reaches are dropped:
    /// the bytes in use afterwards are exactly those of the strings the
    /// roots point to (`live_bytes`). A pointer root outside the bytes in
    /// use is skipped and left as it is.
    #[verifier::spinoff_prover]
    #[verifier::rlimit(50)]
    pub fn collect(&mut self, roots: &mut Vec<Value>)
        requires
            old(self).wf(),
            roots_in(old(self).spec_base(), old(self).spec_used() as int, old(self)@, old(roots)@),
        ensures
            final(self).wf(),
            final(roots)@.len() == old(roots)@.len(),
            forall|i: int|
                0 <= i < old(roots)@.len() ==> if is_live(old(self)@, #[trigger] old(roots)@[i]) || spec_is_int(
                    old(roots)@[i],
                ) {
                    same_val(old(self)@, old(roots)@[i], final(self)@, final(roots)@[i])
                } else {
                    final(roots)@[i] == old(roots)@[i]
                },
            forall|i: int, j: int|
                0 <= i < old(roots)@.len() && 0 <= j < old(roots)@.len() && !spec_is_int(
                    old(roots)@[i],
                ) && #[trigger] old(roots)@[i] == #[trigger] old(roots)@[j] ==> final(roots)@[i]
                    == final(roots)@[j],
            forall|p: u64| #[trigger]
                final(self)@.contains_key(p) ==> exists|i: int|
                    0 <= i < final(roots)@.len() && !spec_is_int(#[trigger] final(roots)@[i])
                        && spec_addr_of(final(roots)@[i]) == p,
            final(self).spec_used() <= old(self).spec_used(),
            final(self).spec_used() == live_bytes(old(self).spec_base(), old(self)@, old(roots)@).len(),
            final(self).spec_used() == live_sum(old(self)@, old(roots)@),
            final(self).spec_capacity() == old(self).spec_capacity(),
            final(self).spec_collections() == wrap_add(old(self).spec_collections(), 1),
            final(self).spec_threshold() == if final(self).spec_used() * 2 > old(
                self,
            ).spec_threshold() {
                final(self).spec_used() * 2
            } else {
                old(self).spec_threshold()
            },
            final(self).spec_lifetime() == old(self).spec_lifetime(),
            final(self).spec_base() == other_space(old(self).spec_base()),
    {
        let from_base = self.base;
        let to_base: u64 = if from_base == SPACE_A {
            SPACE_B
        } else {
            SPACE_A
        };
        let from_end: u64 = from_base + self.used as u64;
        let mut to_space: Vec<u8> = vec![0u8; self.arena.len()];
        let mut to_used: usize = 0;
        let ghost old_roots = roots@;
        let ghost objs = self.objs@;
        let ghost mut fwd: Map<u64, u64> = Map::empty();
        let ghost mut to_objs: Map<u64, Seq<u8>> = Map::empty();
        let ghost mut marked: Set<int> = Set::empty();
        proof {
            lemma_int_range(0, self.used as int);
            assert(from_ok(self.arena@, self.base, objs, fwd));
        }
        let mut i: usize = 0;
        while i < roots.len()
            invariant
                self.coll_inv(to_space@, to_used as int, to_base, fwd, to_objs, marked),
                self.base == from_base,
                self.objs@ == objs,
                self.used == old(self).used,
                self.live_threshold == old(self).live_threshold,
                self.collections == old(self).collections,
                self.bytes_allocated_lifetime == old(self).bytes_allocated_lifetime,
                self.arena@.len() == old(self).arena@.len(),
                from_end == from_base + self.used,
                objs == old(self)@,
                old_roots == old(roots)@,
                roots_in(from_base, self.used as int, objs, old_roots),
                roots@.len() == old_roots.len(),
                0 <= i <= roots@.len(),
                forall|j: int| i <= j < roots@.len() ==> #[trigger] roots@[j] == old_roots[j],
                forall|j: int|
                    0 <= j < i ==> if !is_live(objs, #[trigger] old_roots[j]) {
                        roots@[j] == old_roots[j]
                    } else {
                        &&& !spec_is_int(roots@[j])
                        &&& fwd.contains_key(spec_addr_of(old_roots[j]))
                        &&& spec_addr_of(roots@[j]) == to_base + fwd[spec_addr_of(old_roots[j])]
                        &&& roots@[j] == spec_pack_ptr((to_base + fwd[spec_addr_of(old_roots[j])]) as u64)
                    },
                forall|t: u64| #[trigger]
                    to_objs.contains_key(t) ==> exists|j: int|
                        0 <= j < i && !spec_is_int(#[trigger] roots@[j]) && spec_addr_of(roots@[j]) == t,
                forall|q: u64| #[trigger]
                    fwd.contains_key(q) ==> exists|j: int|
                        0 <= j < i && !spec_is_int(#[trigger] old_roots[j]) && spec_addr_of(old_roots[j]) == q,
            decreases roots@.len() - i,
        {
            let r = roots[i];
            match value::unpack_ptr(r) {
                None => {},
                Some(raw) => {
                    if raw >= from_base && raw < from_end {
                        let ghost was_fwd = fwd.contains_key(raw);
                        let (new_off, tu) = self.forward(&mut to_space, to_used, raw, Ghost(to_base), Ghost(fwd), Ghost(to_objs), Ghost(marked));
                        proof {
                            if !was_fwd {
                                to_objs = to_objs.insert((to_base + to_used) as u64, objs[raw]);
                                marked = marked + span_of(from_base, objs, raw);
                                fwd = fwd.insert(raw, to_used as u64);
                            }
                        }
                        to_used = tu;
                        assert(new_off == fwd[raw]);
                        let to_addr: u64 = to_base + new_off as u64;
                        proof {
                            value::lemma_ptr_roundtrip(to_addr);
                        }
                        let ghost prev = roots@;
                        roots.set(i, value::pack_ptr(to_addr));
                        proof {
                            assert forall|q: u64| #[trigger] fwd.contains_key(q) implies exists|j: int|
                                0 <= j < i + 1 && !spec_is_int(#[trigger] old_roots[j]) && spec_addr_of(old_roots[j]) == q by {
                                if q == raw {
                                    assert(!spec_is_int(old_roots[i as int]) && spec_addr_of(old_roots[i as int]) == q);
                                } else {
                                    let j = choose|j: int| 0 <= j < i && !spec_is_int(#[trigger] old_roots[j]) && spec_addr_of(old_roots[j]) == q;
                                }
                            }
                            assert forall|t: u64| #[trigger] to_objs.contains_key(t) implies exists|j: int|
                                0 <= j < i + 1 && !spec_is_int(#[trigger] roots@[j]) && spec_addr_of(roots@[j]) == t by {
                                if t == to_addr {
                                    assert(!spec_is_int(roots@[i as int]) && spec_addr_of(roots@[i as int]) == t);
                                } else {
                                    if was_fwd {
                                        let j = choose|j: int| 0 <= j < i && !spec_is_int(#[trigger] prev[j]) && spec_addr_of(prev[j]) == t;
                                        assert(roots@[j] == prev[j]);
                                    } else {
                                        assert(to_objs.contains_key(t));
                                        let j = choose|j: int| 0 <= j < i && !spec_is_int(#[trigger] prev[j]) && spec_addr_of(prev[j]) == t;
                                        assert(roots@[j] == prev[j]);
                                    }
                                }
                            }
                        }
                    }
                },
            }
            i += 1;
        }
        let ghost to_u = to_used;
        proof {
            lemma_live_bytes_sum(from_base, self.used as int, objs, old_roots);
            let live = live_bytes(from_base, objs, old_roots);
            assert(marked =~= live) by {
                assert forall|b: int| marked.contains(b) implies live.contains(b) by {
                    let q = choose|q: u64| #[trigger] fwd.contains_key(q) && span_of(from_base, objs, q).contains(b);
                    let j = choose|j: int| 0 <= j < i && !spec_is_int(#[trigger] old_roots[j]) && spec_addr_of(old_roots[j]) == q;
                    assert(objs.contains_key(q));
                    assert(0 <= j < old_roots.len() && is_live(objs, old_roots[j]));
                }
                assert forall|b: int| live.contains(b) implies marked.contains(b) by {
                    let j = choose|j: int|
                        0 <= j < old_roots.len() && is_live(objs, #[trigger] old_roots[j]) && spec_addr_of(old_roots[j]) - from_base <= b
                            < spec_addr_of(old_roots[j]) - from_base + obj_size(objs[spec_addr_of(old_roots[j])].len());
                    let q = spec_addr_of(old_roots[j]);
                    assert(fwd.contains_key(q));
                    assert(span_of(from_base, objs, q).contains(b));
                }
            }
        }
        self.arena = to_space;
        self.base = to_base;
        self.used = to_used;
        self.objs = Ghost(to_objs);
        let c0 = self.collections;
        self.collections = c0.wrapping_add(1);
        if self.used * 2 > self.live_threshold {
            self.live_threshold = if self.used * 2 > self.live_threshold {
                self.used * 2
            } else {
                self.live_threshold
            };
        }
    }
}

impl Heap {
    /// Double the arena, keeping every string at its address.
    fn grow(&mut self)
        requires
            old(self).wf(),
            old(self).arena@.len() < MAX_USED,
        ensures
            final(self).wf(),
            final(self)@ == old(self)@,
            final(self).used == old(self).used,
            final(self).arena@.len() == 2 * old(self).arena@.len(),
            final(self).live_threshold == final(self).arena@.len() / 2,
            final(self).collections == old(self).collections,
            final(self).bytes_allocated_lifetime == old(self).bytes_allocated_lifetime,
            final(self).base == old(self).base,
    {
        let new_cap = self.arena.len() * 2;
        let ghost a0 = self.arena@;
        self.arena.resize(new_cap, 0u8);
        proof {
            assert forall|i: int| 0 <= i < self.used && i < a0.len() implies #[trigger] self.arena@[i] == a0[i] by {
                assert(self.arena@.subrange(0, a0.len() as int)[i] == a0[i]);
            }
            lemma_layout_frame(a0, self.arena@, self.base, self.used as int, self.objs@);
        }
        self.live_threshold = new_cap / 2;
    }

    /// Allocate a string holding `bytes` and return its address. When the
    /// allocation would take the bytes in use past the threshold, the heap
    /// collects first, with `roots` as the roots; they are rewritten in
    /// place. When the arena is still too small it doubles. The new string
    /// takes its size on top of the bytes in use (after the collection).
    #[verifier::spinoff_prover]
    pub fn alloc_str(&mut self, bytes: &[u8], roots: &mut Vec<Value>) -> (p: Addr)
        requires
            old(self).wf(),
            old(self).kept_used(old(roots)@, obj_size(bytes@.len())) + obj_size(bytes@.len()) <= MAX_USED,
            roots_ok(old(self)@, old(roots)@),
        ensures
            final(self).wf(),
            final(self)@.contains_key(p),
            final(self)@[p] == bytes@,
            !old(self)@.contains_key(p),
            final(roots)@.len() == old(roots)@.len(),
            forall|i: int|
                0 <= i < old(roots)@.len() ==> same_val(
                    old(self)@,
                    #[trigger] old(roots)@[i],
                    final(self)@,
                    final(roots)@[i],
                ),
            old(self).spec_used() + obj_size(bytes@.len()) <= old(self).spec_threshold() ==> {
                &&& final(roots)@ == old(roots)@
                &&& final(self)@ == old(self)@.insert(p, bytes@)
                &&& final(self).spec_collections() == old(self).spec_collections()
            },
            old(self).spec_used() + obj_size(bytes@.len()) > old(self).spec_threshold()
                ==> final(self).spec_collections() == wrap_add(old(self).spec_collections(), 1),
            final(self).spec_lifetime() == wrap_add(old(self).spec_lifetime(), obj_size(bytes@.len())),
            final(self).spec_used() <= old(self).spec_used() + obj_size(bytes@.len()),
            final(self).spec_used() == obj_size(bytes@.len()) + old(self).kept_used(
                old(roots)@,
                obj_size(bytes@.len()),
            ),
            final(self).spec_capacity() == grown_cap(
                old(self).spec_capacity() as int,
                old(self).kept_used(old(roots)@, obj_size(bytes@.len())) + obj_size(bytes@.len()),
            ),
            final(self).spec_threshold() == if final(self).spec_capacity() == old(self).spec_capacity() {
                old(self).kept_threshold(old(roots)@, obj_size(bytes@.len()))
            } else {
                (final(self).spec_capacity() / 2) as int
            },
    {
        let need = round_up_8(HEADER_SIZE + bytes.len());
        let ghost live = live_bytes(old(self).base, old(self)@, old(roots)@);
        proof {
            old(self).lemma_live_bound(old(roots)@);
        }
        if self.used + need > self.live_threshold {
            self.collect(roots);
            assert(self.used == live.len());
        }
        let ghost h1 = self@;
        let ghost c1 = self.collections;
        let ghost b1 = self.base;
        let ghost u1 = self.used;
        let ghost cap0 = self.arena@.len() as int;
        let ghost thr1 = self.live_threshold;
        assert(u1 <= old(self).used);
        assert(thr1 == old(self).kept_threshold(old(roots)@, need as int));
        proof {
            lemma_grown_cap(cap0, u1 + need);
        }
        while self.used + need > self.arena.len()
            invariant
                self.wf(),
                self.base == b1,
                self.used == u1,
                self.used + need <= MAX_USED,
                self@ == h1,
                self.collections == c1,
                self.bytes_allocated_lifetime == old(self).bytes_allocated_lifetime,
                cap0 <= self.arena@.len(),
                grown_cap(self.arena@.len() as int, u1 + need) == grown_cap(cap0, u1 + need),
                self.arena@.len() == cap0 ==> self.live_threshold == thr1,
                self.arena@.len() != cap0 ==> self.live_threshold == self.arena@.len() / 2,
            decreases if self.arena@.len() < MAX_USED { MAX_USED - self.arena@.len() } else { 0 },
        {
            self.grow();
        }
        self.bytes_allocated_lifetime = self.bytes_allocated_lifetime.wrapping_add(need);
        let off = self.used;
        let ghost a0 = self.arena@;
        put_obj(&mut self.arena, off, bytes);
        let p: u64 = self.base + off as u64;
        proof {
            lemma_layout_frame(a0, self.arena@, self.base, off as int, self.objs@);
            lemma_layout_push(self.arena@, self.base, off as int, self.objs@, bytes@);
            if old(self).base != self.base {
                assert forall|q: u64| old(self)@.contains_key(q) implies q != p by {
                    assert(old(self).objs@.contains_key(q));
                }
            }
        }
        self.used = off + need;
        self.objs = Ghost(self.objs@.insert(p, bytes@));
        p
    }
}

impl Default for Heap {
    fn default() -> (h: Heap)
        ensures
            h.wf(),
            h@ == Map::<u64, Seq<u8>>::empty(),
            h.spec_used() == 0,
            h.spec_collections() == 0,
    {
        Self::new()
    }
}

} // verus!
