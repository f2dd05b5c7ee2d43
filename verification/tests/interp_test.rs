use jitvm::interp::{capture_prints, int_text, run, str_text};
use jitvm::{Engine, Error};

fn run_capture(src: &str) -> Vec<String> {
    let eng = Engine::load_str(src).expect("parse");
    capture_prints(|| run(&eng.program)).expect("run")
}

fn run_err(src: &str) -> String {
    let eng = Engine::load_str(src).expect("parse");
    match capture_prints(|| run(&eng.program)) {
        Ok(out) => panic!("expected a runtime error, got {out:?}"),
        Err(e) => {
            assert!(e.is_runtime(), "expected Runtime, got {e:?}");
            e.to_string()
        }
    }
}

#[test]
fn str_literal_print() {
    assert_eq!(run_capture(r#"print "hi""#), vec!["hi"]);
}

#[test]
fn str_concat_literal() {
    assert_eq!(
        run_capture(r#"print "hello, " + "world""#),
        vec!["hello, world"]
    );
}

#[test]
fn str_len() {
    assert_eq!(run_capture(r#"print len("abcde")"#), vec!["5"]);
    assert_eq!(run_capture(r#"print len("")"#), vec!["0"]);
}

#[test]
fn str_eq() {
    assert_eq!(run_capture(r#"print "a" == "a""#), vec!["1"]);
    assert_eq!(run_capture(r#"print "a" == "b""#), vec!["0"]);
    assert_eq!(run_capture(r#"print "abc" != "abd""#), vec!["1"]);
}

#[test]
fn str_repeat_concat_loop() {
    let src = r#"
        let s = ""
        let i = 0
        while i < 5 {
            s = s + "x"
            i = i + 1
        }
        print len(s)
        print s
    "#;
    assert_eq!(run_capture(src), vec!["5", "xxxxx"]);
}

#[test]
fn built_strings_compare_by_content() {
    let src = r#"let a = "ab" + "c" print a == "abc" print a != "abc""#;
    assert_eq!(run_capture(src), vec!["1", "0"]);
}

#[test]
fn strings_survive_many_collections() {
    // every iteration builds garbage; the live string must come through
    // every collection intact, including the one held by the caller's frame.
    let src = r#"
        fn grow(s, n) {
            let i = 0
            while i < n {
                let junk = "0123456789012345678901234567890123456789" + "!"
                s = s + "y"
                i = i + 1
            }
            return s
        }
        let keep = "start:"
        let t = grow(keep, 2000)
        print len(t)
        print keep
    "#;
    assert_eq!(run_capture(src), vec!["2006", "start:"]);
}

#[test]
fn main_return_value_comes_back_untagged() {
    let eng = Engine::load_str("fn main() { return 21 * 2 }").unwrap();
    assert_eq!(eng.run_interp().unwrap(), 42);
    let eng = Engine::load_str("fn main() { return -7 }").unwrap();
    assert_eq!(eng.run_interp().unwrap(), -7);
}

#[test]
fn falling_off_the_end_returns_zero() {
    let eng = Engine::load_str("fn main() { let x = 1 }").unwrap();
    assert_eq!(eng.run_interp().unwrap(), 0);
}

#[test]
fn type_error_on_mixed_add() {
    let m = run_err(r#"print 1 + "a""#);
    assert!(m.contains("type error: + requires two ints or two strings"), "got: {m}");
}

#[test]
fn type_error_on_string_sub() {
    let m = run_err(r#"print "a" - 1"#);
    assert!(m.contains("type error: - on non-int"), "got: {m}");
}

#[test]
fn len_of_int_is_an_error() {
    let m = run_err("print len(5)");
    assert!(m.contains("len() on non-string"), "got: {m}");
}

#[test]
fn arity_mismatch_is_a_runtime_error() {
    let m = run_err("fn f(a, b) { return a } print f(1)");
    assert!(m.contains("arity mismatch calling f: expected 2, got 1"), "got: {m}");
}

#[test]
fn main_with_arguments_is_refused() {
    let m = run_err("fn main(x) { return x }");
    assert_eq!(m, "runtime error: main() must take no arguments");
}

#[test]
fn prints_before_an_error_are_kept_in_the_run() {
    let eng = Engine::load_str("print 1 print 2 / 0").unwrap();
    let r = run(&eng.program);
    assert_eq!(r.prints, vec!["1".to_string()]);
    match r.value {
        Err(Error::Runtime(m, Some(sp))) => {
            assert_eq!(m, "division by zero");
            assert_eq!(sp.line, 1);
        }
        other => panic!("unexpected {other:?}"),
    }
}

#[test]
fn tagged_arithmetic_matches_plain_arithmetic() {
    let src = "print 7 * -6 print -7 / 2 print -7 % 2 print 1 - 10 print !0 print !(1 == 1)";
    assert_eq!(run_capture(src), vec!["-42", "-3", "-1", "-9", "1", "0"]);
}

#[test]
fn tagged_arithmetic_matches_integer_arithmetic() {
    assert_eq!(
        run_capture("print 7 + 5 print 7 - 12 print -7 print 6 * -7 print -7 / 2 print -7 % 2 print 7 % -2"),
        vec!["12", "-5", "-7", "-42", "-3", "-1", "1"]
    );
    // the i63 range wraps as a whole
    assert_eq!(
        run_capture("print 4611686018427387903 + 1"),
        vec!["-4611686018427387904"]
    );
    // the smallest i63 divided by -1 wraps back to itself
    assert_eq!(
        run_capture("print (0 - 4611686018427387903 - 1) / -1"),
        vec!["-4611686018427387904"]
    );
}

#[test]
fn tagged_product_beyond_62_bits_wraps() {
    // 2^31 * 2^30 = 2^61 is an i63 value, but four times it is not an
    // i64: the tagged product wraps.
    assert_eq!(
        run_capture("print 2147483648 * 1073741824"),
        vec!["-2305843009213693952"]
    );
    assert_eq!(
        run_capture("print 1073741824 * 1073741823"),
        vec!["1152921503533105152"]
    );
}

#[test]
fn loaded_programs_are_well_formed() {
    for src in [
        "print 1",
        "fn f(a, b) { let c = a if c < b { return b } else { return a } } print f(1, 2)",
        "let i = 0 while i < 10 { i = i + 1 if i == 5 { print i } } print i && 0 || 1",
        r#"let s = "a" print s + "b" print len(s)"#,
    ] {
        let eng = Engine::load_str(src).unwrap();
        assert!(jitvm::interp::check_program(&eng.program), "{src}");
    }
}

#[test]
fn print_texts() {
    assert_eq!(int_text(jitvm::value::pack_int(-42)), "-42");
    assert_eq!(int_text(jitvm::value::pack_int(jitvm::value::INT_MIN)), "-4611686018427387904");
    assert_eq!(str_text(b"hi"), "hi");
    assert_eq!(str_text(&[0x61, 0xff]), "a\u{FFFD}");
}

#[test]
fn spans_may_be_shorter_than_the_code() {
    use_program_without_spans();
}

fn use_program_without_spans() {
    let f = jitvm::ir::Function {
        name: "main".to_string(),
        argc: 0,
        locals: 0,
        code: vec![
            jitvm::ir::Op::Const(8),
            jitvm::ir::Op::Const(0),
            jitvm::ir::Op::Div,
            jitvm::ir::Op::Ret,
        ],
        spans: vec![],
    };
    let prog = jitvm::ir::Program { fns: vec![f], main_id: 0, string_pool: vec![] };
    let r = run(&prog);
    match r.value {
        Err(e) => assert_eq!(e.to_string(), "runtime error: division by zero"),
        Ok(v) => panic!("expected an error, got {v}"),
    }
}
