use jitvm::interp::{capture_prints, run};
use jitvm::ir::{Function, Op, Program};
use jitvm::Engine;

fn programs() -> Vec<(&'static str, &'static str, &'static str)> {
    vec![
        (
            "fib",
            "// comments start with //\nfn fib(n) {\n  if n < 2 { return n }\n  return fib(n - 1) + fib(n - 2)\n}\n\nfn main() {\n  let x = 10\n  while x > 0 { x = x - 1 }\n  print fib(30)\n}\n",
            "832040\n",
        ),
        ("str_hello", "print \"hello, world\"\n", "hello, world\n"),
        ("str_concat", "let a = \"foo\"\nlet b = \"bar\"\nprint a + b\n", "foobar\n"),
        ("str_len", "print len(\"hello\")\nprint len(\"\")\n", "5\n0\n"),
        ("str_empty_concat", "print \"\" + \"x\" + \"\"\n", "x\n"),
        (
            "str_multi",
            "let s = \"a\"\nlet i = 0\nwhile i < 3 { s = s + \"b\" i = i + 1 }\nprint s\nprint len(s)\n",
            "abbb\n4\n",
        ),
        (
            "gcd",
            "fn gcd(a, b) { while b != 0 { let t = b b = a % b a = t } return a }\nprint gcd(1071, 462)\n",
            "21\n",
        ),
        (
            "mutrec",
            "fn even(n) { if n == 0 { return 1 } return odd(n - 1) }\nfn odd(n) { if n == 0 { return 0 } return even(n - 1) }\nprint even(10)\nprint odd(7)\n",
            "1\n1\n",
        ),
        (
            "factorial_loop",
            "let n = 10\nlet acc = 1\nwhile n > 1 { acc = acc * n n = n - 1 }\nprint acc\n",
            "3628800\n",
        ),
    ]
}

fn normalize(s: &str) -> String {
    s.trim_end().to_string()
}

#[test]
fn interp_matches_expected_for_all_programs() {
    for (name, src, expected) in programs() {
        let eng = Engine::load_str(src).unwrap_or_else(|e| panic!("parse {name}: {}", e.to_string()));
        let out = capture_prints(|| run(&eng.program))
            .unwrap_or_else(|e| panic!("interp {name}: {}", e.to_string()));
        let actual = out.join("\n");
        assert_eq!(normalize(&actual), normalize(expected), "interp output mismatch for {name}");
    }
}

fn one_fn_program(code: Vec<Op>) -> Program {
    let f = Function { name: "main".to_string(), argc: 0, locals: 0, code, spans: vec![] };
    Program { fns: vec![f], main_id: 0, string_pool: vec![] }
}

#[test]
fn dead_ops_after_the_last_return_are_accepted() {
    let prog = one_fn_program(vec![Op::Const(4), Op::Ret, Op::Const(2)]);
    assert!(jitvm::interp::check_program(&prog));
    assert_eq!(run(&prog).value.unwrap(), 2);
}

#[test]
fn running_off_the_end_is_a_runtime_error() {
    let prog = one_fn_program(vec![Op::Const(2)]);
    match run(&prog).value {
        Err(e) => assert_eq!(e.to_string(), "runtime error: control ran off the end of main"),
        Ok(v) => panic!("expected an error, got {v}"),
    }
}
