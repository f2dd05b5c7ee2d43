use jitvm::heap::fnv1a;
use jitvm::jit::{compile_code, page_round_up, JitHeap, JitLinks};
use jitvm::{Engine, Error};

fn links(n: usize) -> JitLinks {
    JitLinks {
        div_by_zero: 0x1111,
        print_int: 0x2222,
        print_str: 0x3333,
        literals: (0..n).map(|k| 0x10_0000 + 16 * k as i64).collect(),
    }
}

#[test]
fn main_only_program_code() {
    let eng = Engine::load_str("fn main() { return 5 }").unwrap();
    let c = compile_code(&eng.program, &links(0)).unwrap();
    assert_eq!(c.main_entry, 0);
    let mut want: Vec<u8> = vec![0x55, 0x48, 0x89, 0xE5, 0x41, 0x55, 0x57, 0x4D, 0x89, 0xF5];
    // Const(10): mov rax, 10; push
    want.extend_from_slice(&[0x48, 0xB8, 10, 0, 0, 0, 0, 0, 0, 0]);
    want.extend_from_slice(&[0x4B, 0x89, 0x04, 0xF7, 0x49, 0xFF, 0xC6]);
    // Ret
    let ret: [u8; 22] = [
        0x49, 0xFF, 0xCE, 0x4B, 0x8B, 0x04, 0xF7, 0x4D, 0x89, 0xEE, 0x4B, 0x89, 0x04, 0xF7,
        0x49, 0xFF, 0xC6, 0x48, 0x89, 0xEC, 0x5D, 0xC3,
    ];
    want.extend_from_slice(&ret);
    // the implicit `Const(0); Ret` after the body
    want.extend_from_slice(&[0x48, 0xB8, 0, 0, 0, 0, 0, 0, 0, 0]);
    want.extend_from_slice(&[0x4B, 0x89, 0x04, 0xF7, 0x49, 0xFF, 0xC6]);
    want.extend_from_slice(&ret);
    assert_eq!(c.code, want);
}

#[test]
fn calls_land_on_the_callee() {
    let eng = Engine::load_str("fn f() { return 1 } print f()").unwrap();
    let c = compile_code(&eng.program, &links(0)).unwrap();
    // f comes first: prologue 10 + Const 17 + Ret 22 + Const 17 + Ret 22 = 88
    assert_eq!(c.main_entry, 88);
    // main: prologue (10), then Call: push r13 (2), push rdi (1), E8 rel32
    let call_at = 88 + 10 + 3;
    assert_eq!(c.code[call_at], 0xE8);
    let rel = i32::from_le_bytes([
        c.code[call_at + 1],
        c.code[call_at + 2],
        c.code[call_at + 3],
        c.code[call_at + 4],
    ]);
    assert_eq!((call_at as i64 + 5) + rel as i64, 0);
}

#[test]
fn string_literal_address_is_baked_in_tagged() {
    let eng = Engine::load_str(r#"print "hi""#).unwrap();
    let l = links(1);
    let c = compile_code(&eng.program, &l).unwrap();
    // prologue 10, then mov rax, imm64
    assert_eq!(&c.code[10..12], &[0x48, 0xB8]);
    let imm = i64::from_le_bytes(c.code[12..20].try_into().unwrap());
    assert_eq!(imm, l.literals[0] | 1);
}

#[test]
fn runtime_concat_is_a_codegen_error() {
    let eng = Engine::load_str(r#"let s = "a" print s + s"#).unwrap();
    let prog = {
        let mut p = eng.program;
        for f in p.fns.iter_mut() {
            for op in f.code.iter_mut() {
                if *op == jitvm::ir::Op::Add {
                    *op = jitvm::ir::Op::Concat;
                }
            }
        }
        p
    };
    match compile_code(&prog, &links(1)) {
        Err(Error::Codegen(m)) => assert!(m.contains("runtime string concat"), "got: {m}"),
        _ => panic!("expected a codegen error"),
    }
}

#[test]
fn literal_table_must_match_the_pool() {
    let eng = Engine::load_str(r#"print "hi""#).unwrap();
    assert!(matches!(compile_code(&eng.program, &links(0)), Err(Error::Codegen(_))));
}

#[test]
fn jit_heap_lays_out_headers() {
    let pool = vec!["ab".to_string(), "".to_string(), "xyz12345".to_string()];
    let h = JitHeap::build(&pool);
    assert_eq!(h.offsets, vec![0, 16, 24]);
    assert_eq!(h.buf.len(), 40);
    assert_eq!(&h.buf[0..4], &2u32.to_le_bytes());
    assert_eq!(&h.buf[4..8], &fnv1a(b"ab").to_le_bytes());
    assert_eq!(&h.buf[8..10], b"ab");
    assert_eq!(&h.buf[16..20], &0u32.to_le_bytes());
    assert_eq!(&h.buf[32..40], b"xyz12345");
    // padding after "ab" is zeros
    assert_eq!(&h.buf[10..16], &[0u8; 6]);
}

#[test]
fn pages_round_up() {
    assert_eq!(page_round_up(1), 4096);
    assert_eq!(page_round_up(4096), 4096);
    assert_eq!(page_round_up(4097), 8192);
}

fn rel32_at(code: &[u8], at: usize) -> i64 {
    i32::from_le_bytes([code[at], code[at + 1], code[at + 2], code[at + 3]]) as i64
}

#[test]
fn jumps_land_on_their_target_ops() {
    let eng = Engine::load_str("let i = 0 while i < 3 { i = i + 1 }").unwrap();
    let c = compile_code(&eng.program, &links(0)).unwrap();
    // prologue with locals: 17 bytes; then Const 17, StoreLocal 15,
    // LoadLocal 15, Const 17, Lt 34, JumpIfFalse 16, LoadLocal 15,
    // Const 17, Add 24, StoreLocal 15, Jump 5.
    let cond = 17 + 17 + 15; // op 2: LoadLocal, the loop's condition
    let jif = cond + 15 + 17 + 34; // op 5
    let back = jif + 16 + 15 + 17 + 24 + 15; // op 10
    let after = back + 5; // op 11
    assert_eq!(c.code[back], 0xE9);
    assert_eq!((back as i64 + 1 + 4) + rel32_at(&c.code, back + 1), cond as i64);
    assert_eq!(&c.code[jif + 10..jif + 12], &[0x0F, 0x84]);
    assert_eq!((jif as i64 + 12 + 4) + rel32_at(&c.code, jif + 12), after as i64);
}
