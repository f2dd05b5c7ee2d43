use jitvm::value::{fits_int, is_int, is_ptr, pack_int, pack_ptr, unpack_int, unpack_ptr, INT_MAX, INT_MIN};

#[test]
fn roundtrip_int() {
    for i in [0_i64, 1, -1, 42, -42, INT_MAX, INT_MIN] {
        let v = pack_int(i);
        assert!(is_int(v));
        assert_eq!(unpack_int(v), Some(i));
    }
}

#[test]
fn tagged_ints_compare_like_raw() {
    let a = pack_int(3);
    let b = pack_int(5);
    assert!(a < b);
    let a = pack_int(-10);
    let b = pack_int(-1);
    assert!(a < b);
}

#[test]
fn roundtrip_ptr() {
    let p: u64 = 0x0000_7f00_0000_1000;
    let v = pack_ptr(p);
    assert!(is_ptr(v));
    assert_eq!(unpack_ptr(v), Some(p));
}

#[test]
fn fits_int_boundaries() {
    assert!(fits_int(INT_MIN));
    assert!(fits_int(INT_MAX));
    assert!(!fits_int(INT_MAX + 1));
    assert!(!fits_int(INT_MIN - 1));
}

#[test]
fn pack_int_doubles() {
    assert_eq!(pack_int(21), 42);
    assert_eq!(pack_int(-3), -6);
    assert_eq!(unpack_int(pack_ptr(0x1000)), None);
    assert_eq!(unpack_ptr(pack_int(7)), None);
}
