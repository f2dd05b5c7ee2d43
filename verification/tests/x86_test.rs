use jitvm::x86::{
    add_reg_reg, cmp_reg_reg, emit_prologue, idiv_reg, mov_reg_imm64, patch_rel32, pop_reg, push_reg,
    ret, jmp_rel32, sar_reg_1, shl_reg_1, Reg,
};

#[test]
fn mov_rax_5() {
    let mut b = Vec::new();
    mov_reg_imm64(&mut b, Reg::Rax, 5);
    assert_eq!(b, vec![0x48, 0xB8, 5, 0, 0, 0, 0, 0, 0, 0]);
}

#[test]
fn mov_r8_1() {
    let mut b = Vec::new();
    mov_reg_imm64(&mut b, Reg::R8, 1);
    assert_eq!(b, vec![0x49, 0xB8, 1, 0, 0, 0, 0, 0, 0, 0]);
}

#[test]
fn add_rax_rcx() {
    let mut b = Vec::new();
    add_reg_reg(&mut b, Reg::Rax, Reg::Rcx);
    assert_eq!(b, vec![0x48, 0x01, 0xC8]);
}

#[test]
fn push_pop_rax() {
    let mut b = Vec::new();
    push_reg(&mut b, Reg::Rax);
    pop_reg(&mut b, Reg::Rax);
    assert_eq!(b, vec![0x50, 0x58]);
}

#[test]
fn push_r13_bytes() {
    let mut b = Vec::new();
    push_reg(&mut b, Reg::R13);
    assert_eq!(b, vec![0x41, 0x55]);
}

#[test]
fn ret_byte() {
    let mut b = Vec::new();
    ret(&mut b);
    assert_eq!(b, vec![0xC3]);
}

#[test]
fn cmp_rax_rcx() {
    let mut b = Vec::new();
    cmp_reg_reg(&mut b, Reg::Rax, Reg::Rcx);
    assert_eq!(b, vec![0x48, 0x39, 0xC8]);
}

#[test]
fn prologue() {
    let mut b = Vec::new();
    emit_prologue(&mut b, 0);
    assert_eq!(b, vec![0x55, 0x48, 0x89, 0xE5]);
}

#[test]
fn idiv_rcx_bytes() {
    let mut b = Vec::new();
    idiv_reg(&mut b, Reg::Rcx);
    assert_eq!(b, vec![0x48, 0xF7, 0xF9]);
}

#[test]
fn shifts_by_one() {
    let mut b = Vec::new();
    sar_reg_1(&mut b, Reg::Rax);
    shl_reg_1(&mut b, Reg::Rax);
    assert_eq!(b, vec![0x48, 0xD1, 0xF8, 0x48, 0xD1, 0xE0]);
}

#[test]
fn patch_points_jump_at_target() {
    let mut b = vec![0x90, 0x90];
    let at = jmp_rel32(&mut b, 0);
    assert_eq!(at, 3);
    patch_rel32(&mut b, at, 0);
    // rel = 0 - (3 + 4) = -7
    assert_eq!(b, vec![0x90, 0x90, 0xE9, 0xF9, 0xFF, 0xFF, 0xFF]);
}
