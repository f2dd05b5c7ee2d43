use jitvm::heap::{fnv1a, Heap};
use jitvm::value::{self, Value};

#[test]
fn alloc_roundtrips() {
    let mut h = Heap::new();
    let mut roots: Vec<Value> = Vec::new();
    let p = h.alloc_str(b"abcdef", &mut roots);
    assert_eq!(h.len_of(p), 6);
    assert_eq!(h.bytes_of(p), b"abcdef");
    assert_eq!(h.hash_of(p), fnv1a(b"abcdef"));
}

#[test]
fn empty_string() {
    let mut h = Heap::new();
    let mut roots: Vec<Value> = Vec::new();
    let p = h.alloc_str(b"", &mut roots);
    assert_eq!(h.len_of(p), 0);
    assert_eq!(h.bytes_of(p), b"");
}

#[test]
fn collect_rewrites_ptrs() {
    let mut h = Heap::new();
    let mut roots: Vec<Value> = Vec::new();
    let p = h.alloc_str(b"keep-me", &mut roots);
    let mut roots = vec![value::pack_ptr(p)];
    let _ = h.alloc_str(b"ignored-one", &mut roots);
    let _ = h.alloc_str(b"ignored-two", &mut roots);
    let before = h.bytes_in_use();
    h.collect(&mut roots);
    let after = h.bytes_in_use();
    assert!(after < before, "collect should shrink arena");
    let new_p = value::unpack_ptr(roots[0]).unwrap();
    assert_eq!(h.bytes_of(new_p), b"keep-me");
}

#[test]
fn heap_test_threshold_triggers_collection() {
    let mut h = Heap::new();
    h.set_threshold(64);
    let mut dummy_roots: Vec<Value> = Vec::new();
    let p0 = h.alloc_str(b"root", &mut dummy_roots);
    let mut roots = vec![value::pack_ptr(p0)];
    for _ in 0..32 {
        let _ = h.alloc_str(b"some throwaway bytes", &mut roots);
    }
    assert!(
        h.collections > 0,
        "expected collection to fire, got 0 collections"
    );
    let p = value::unpack_ptr(roots[0]).unwrap();
    assert_eq!(h.bytes_of(p), b"root");
}

#[test]
fn multiple_roots_preserved_across_collection() {
    let mut h = Heap::new();
    h.set_threshold(64);
    let mut r: Vec<Value> = Vec::new();
    let a = h.alloc_str(b"alpha", &mut r);
    let b = h.alloc_str(b"beta", &mut r);
    let c = h.alloc_str(b"gamma", &mut r);
    let mut roots = vec![value::pack_ptr(a), value::pack_ptr(b), value::pack_ptr(c)];
    for _ in 0..50 {
        let _ = h.alloc_str(b"fill-up-the-arena-please", &mut roots);
    }
    let a2 = value::unpack_ptr(roots[0]).unwrap();
    let b2 = value::unpack_ptr(roots[1]).unwrap();
    let c2 = value::unpack_ptr(roots[2]).unwrap();
    assert_eq!(h.bytes_of(a2), b"alpha");
    assert_eq!(h.bytes_of(b2), b"beta");
    assert_eq!(h.bytes_of(c2), b"gamma");
}

#[test]
fn alloc_and_read() {
    let mut h = Heap::new();
    let mut roots: Vec<Value> = Vec::new();
    let p = h.alloc_str(b"hello", &mut roots);
    assert_eq!(h.len_of(p), 5);
    assert_eq!(h.bytes_of(p), b"hello");
}

#[test]
fn hash_matches_fnv1a() {
    let mut h = Heap::new();
    let mut roots: Vec<Value> = Vec::new();
    let p = h.alloc_str(b"abc", &mut roots);
    assert_eq!(h.hash_of(p), fnv1a(b"abc"));
}

#[test]
fn collect_rewrites_roots() {
    let mut h = Heap::with_capacity(1024);
    h.set_threshold(256);
    let mut roots: Vec<Value> = Vec::new();
    let p = h.alloc_str(b"live", &mut roots);
    let mut roots = vec![value::pack_ptr(p)];
    let _ = h.alloc_str(b"garbage-one", &mut roots);
    let _ = h.alloc_str(b"garbage-two", &mut roots);
    h.collect(&mut roots);
    let new_p = value::unpack_ptr(roots[0]).unwrap();
    assert_eq!(h.bytes_of(new_p), b"live");
}

#[test]
fn heap_threshold_triggers_collection() {
    let mut h = Heap::with_capacity(1024);
    h.set_threshold(64);
    let mut roots: Vec<Value> = Vec::new();
    let p0 = h.alloc_str(b"keep", &mut roots);
    let mut roots = vec![value::pack_ptr(p0)];
    for _ in 0..20 {
        let _ = h.alloc_str(b"throwaway string payload", &mut roots);
    }
    assert!(h.collections > 0, "expected at least one collection");
    let p = value::unpack_ptr(roots[0]).unwrap();
    assert_eq!(h.bytes_of(p), b"keep");
}

#[test]
fn fnv1a_known_values() {
    assert_eq!(fnv1a(b""), 0x811c_9dc5);
    assert_eq!(fnv1a(b"a"), 0xe40c_292c);
    assert_eq!(fnv1a(b"foobar"), 0xbf9c_f968);
}

#[test]
fn shared_roots_share_their_copy_and_ints_stay() {
    let mut h = Heap::with_capacity(4096);
    let mut r: Vec<Value> = Vec::new();
    let a = h.alloc_str(b"shared", &mut r);
    let _ = h.alloc_str(b"dropped", &mut r);
    let mut roots = vec![value::pack_ptr(a), value::pack_int(5), value::pack_ptr(a)];
    h.collect(&mut roots);
    assert_eq!(roots[0], roots[2]);
    assert_eq!(roots[1], value::pack_int(5));
    assert_eq!(h.bytes_in_use(), 16);
    assert_eq!(h.collections, 1);
}

#[test]
fn big_string_grows_the_arena() {
    let mut h = Heap::with_capacity(64);
    let mut roots: Vec<Value> = Vec::new();
    let big = vec![7u8; 1000];
    let p = h.alloc_str(&big, &mut roots);
    assert_eq!(h.len_of(p), 1000);
    assert_eq!(h.bytes_of(p), &big[..]);
}

#[test]
fn outside_roots_are_left_as_they_are() {
    let mut h = Heap::new();
    let mut r: Vec<Value> = Vec::new();
    let a = h.alloc_str(b"live", &mut r);
    let outside = value::pack_ptr(0x1000);
    let mut roots = vec![outside, value::pack_ptr(a)];
    h.collect(&mut roots);
    assert_eq!(roots[0], outside);
    assert_eq!(h.bytes_of(value::unpack_ptr(roots[1]).unwrap()), b"live");
    assert_eq!(h.bytes_in_use(), 16);
}

#[test]
fn counters_and_bytes_in_use_after_two_allocations() {
    let mut h = Heap::new();
    assert_eq!(h.collection_count(), 0);
    assert_eq!(h.lifetime_bytes(), 0);
    let mut r: Vec<Value> = Vec::new();
    h.alloc_str(b"hello", &mut r);
    h.alloc_str(b"", &mut r);
    assert_eq!(h.bytes_in_use(), 24);
    assert_eq!(h.collection_count(), 0);
    assert_eq!(h.lifetime_bytes(), 24);
    assert_eq!(h.collections, 0);
}
