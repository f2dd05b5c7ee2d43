use jitvm::ir::Op;
use jitvm::{Engine, Error};

fn ops_of(src: &str, name: &str) -> Vec<Op> {
    let eng = Engine::load_str(src).expect("load");
    eng.program.fns.iter().find(|f| f.name == name).unwrap().code.clone()
}

fn parse_err(src: &str) -> String {
    match Engine::load_str(src) {
        Err(Error::Parse(m)) => m,
        Err(e) => panic!("expected Parse, got {e:?}"),
        Ok(_) => panic!("expected an error"),
    }
}

#[test]
fn literals_are_tagged_and_functions_end_with_return_zero() {
    assert_eq!(
        ops_of("print 21", "main"),
        vec![Op::Const(42), Op::Print, Op::Const(0), Op::Ret, Op::Const(0), Op::Ret]
    );
}

#[test]
fn if_else_jumps_over_the_right_code() {
    let ops = ops_of("if 1 { print 2 } else { print 3 }", "main");
    assert_eq!(
        ops,
        vec![
            Op::Const(2),
            Op::JumpIfFalse(3),
            Op::Const(4),
            Op::Print,
            Op::Jump(2),
            Op::Const(6),
            Op::Print,
            Op::Const(0),
            Op::Ret,
            Op::Const(0),
            Op::Ret,
        ]
    );
}

#[test]
fn while_jumps_back_to_its_condition() {
    let ops = ops_of("let i = 0 while i < 3 { i = i + 1 }", "main");
    assert_eq!(
        ops,
        vec![
            Op::Const(0),
            Op::StoreLocal(0),
            Op::LoadLocal(0),
            Op::Const(6),
            Op::Lt,
            Op::JumpIfFalse(5),
            Op::LoadLocal(0),
            Op::Const(2),
            Op::Add,
            Op::StoreLocal(0),
            Op::Jump(-9),
            Op::Const(0),
            Op::Ret,
            Op::Const(0),
            Op::Ret,
        ]
    );
}

#[test]
fn and_or_short_circuit_shapes() {
    assert_eq!(
        ops_of("print 1 && 0", "main"),
        vec![
            Op::Const(2),
            Op::JumpIfFalse(4),
            Op::Const(0),
            Op::Const(0),
            Op::Ne,
            Op::Jump(1),
            Op::Const(0),
            Op::Print,
            Op::Const(0),
            Op::Ret,
            Op::Const(0),
            Op::Ret,
        ]
    );
    assert_eq!(
        ops_of("print 0 || 1", "main"),
        vec![
            Op::Const(0),
            Op::JumpIfFalse(2),
            Op::Const(2),
            Op::Jump(3),
            Op::Const(2),
            Op::Const(0),
            Op::Ne,
            Op::Print,
            Op::Const(0),
            Op::Ret,
            Op::Const(0),
            Op::Ret,
        ]
    );
}

#[test]
fn args_and_locals_get_slots_in_order() {
    let eng = Engine::load_str("fn f(a, b) { let c = b return a } print f(1, 2)").unwrap();
    let f = eng.program.fns.iter().find(|f| f.name == "f").unwrap();
    assert_eq!(f.argc, 2);
    assert_eq!(f.locals, 1);
    assert_eq!(
        f.code,
        vec![Op::LoadArg(1), Op::StoreLocal(2), Op::LoadArg(0), Op::Ret, Op::Const(0), Op::Ret]
    );
}

#[test]
fn equal_literals_share_a_pool_entry() {
    let eng = Engine::load_str(r#"print "x" print "y" print "x""#).unwrap();
    assert_eq!(eng.program.string_pool, vec!["x".to_string(), "y".to_string()]);
}

#[test]
fn div_and_mod_carry_their_span() {
    let eng = Engine::load_str("let a = 1\nprint a / a").unwrap();
    let main = &eng.program.fns[eng.program.main_id as usize];
    let k = main.code.iter().position(|op| *op == Op::Div).unwrap();
    assert_eq!(main.spans[k].line, 2);
    assert_eq!(main.spans[k].col, 9);
    assert!(!main.spans[0].is_known());
}

#[test]
fn duplicate_function_is_refused() {
    assert_eq!(parse_err("fn f() { return 1 } fn f() { return 2 } fn main() { }"), "duplicate function f");
}

#[test]
fn missing_main_is_refused() {
    assert_eq!(parse_err("fn f() { return 1 }"), "no main function or top-level code");
}

#[test]
fn lowering_without_main_is_refused() {
    let prog = jitvm::ast::Program {
        fns: vec![jitvm::ast::Fn { name: "f".to_string(), params: vec![], body: vec![] }],
    };
    match jitvm::ir::lower(&prog) {
        Err(Error::Parse(m)) => assert_eq!(m, "no main() function"),
        _ => panic!("expected a parse error"),
    }
}

#[test]
fn assignment_to_undeclared_is_refused() {
    assert_eq!(parse_err("x = 1"), "assignment to undeclared variable x");
}

#[test]
fn len_and_print_take_one_argument() {
    assert_eq!(parse_err("print len(1, 2)"), "len() takes exactly 1 argument, got 2");
    assert_eq!(parse_err("let x = print(1, 2)"), "print() takes exactly 1 argument, got 2");
}

#[test]
fn error_text() {
    assert_eq!(Error::Parse("x".to_string()).to_string(), "parse error: x");
    assert_eq!(Error::Codegen("y".to_string()).to_string(), "codegen error: y");
    assert_eq!(Error::Io("z".to_string()).to_string(), "io: z");
    assert_eq!(Error::runtime("boom").to_string(), "runtime error: boom");
    let at = Error::runtime_at("boom".to_string(), jitvm::ast::Span::new(3, 4));
    assert_eq!(at.to_string(), "runtime error at line 3, col 4: boom");
    let unknown = Error::runtime_at("boom".to_string(), jitvm::ast::Span::unknown());
    assert_eq!(unknown.to_string(), "runtime error: boom");
}
