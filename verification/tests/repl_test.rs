use jitvm::repl::{repl_step, ReplAction};

fn run_src(a: &ReplAction) -> Option<&str> {
    match a {
        ReplAction::Run(s) => Some(s.as_str()),
        _ => None,
    }
}

#[test]
fn functions_accumulate_and_expressions_run_through_main() {
    let mut acc = String::new();
    assert!(matches!(repl_step(&mut acc, "fn sq(n) { return n * n }\n"), ReplAction::Skip));
    assert_eq!(acc, "fn sq(n) { return n * n }\n");
    let a = repl_step(&mut acc, "  sq(7)\n");
    assert_eq!(run_src(&a), Some("fn sq(n) { return n * n }\n\nfn main() { print sq(7) return 0 }"));
    assert_eq!(acc, "fn sq(n) { return n * n }\n");
}

#[test]
fn commands() {
    let mut acc = "fn f() { return 1 }\n".to_string();
    assert!(matches!(repl_step(&mut acc, "\n"), ReplAction::Skip));
    assert!(matches!(repl_step(&mut acc, "   "), ReplAction::Skip));
    match repl_step(&mut acc, ":disasm\n") {
        ReplAction::Disasm(s) => assert_eq!(s, "fn f() { return 1 }\n\nfn __n() { return 0 }"),
        _ => panic!("expected disasm"),
    }
    assert!(matches!(repl_step(&mut acc, ":q\n"), ReplAction::Quit));
    assert!(matches!(repl_step(&mut acc, ":quit"), ReplAction::Quit));
    assert_eq!(acc, "fn f() { return 1 }\n");
    assert!(matches!(repl_step(&mut acc, ":reset\n"), ReplAction::Skip));
    assert_eq!(acc, "");
}

#[test]
fn a_line_is_a_function_only_with_fn_and_a_space() {
    let mut acc = String::new();
    let a = repl_step(&mut acc, "fnord");
    assert_eq!(run_src(&a), Some("\nfn main() { print fnord return 0 }"));
    assert_eq!(acc, "");
}

#[test]
fn repl_expression_runs() {
    let mut acc = String::new();
    repl_step(&mut acc, "fn sq(n) { return n * n }");
    let src = match repl_step(&mut acc, "sq(7)") {
        ReplAction::Run(s) => s,
        _ => panic!("expected run"),
    };
    let eng = jitvm::Engine::load_str(&src).unwrap();
    let run = jitvm::interp::run(&eng.program);
    assert_eq!(run.prints, vec!["49".to_string()]);
}
