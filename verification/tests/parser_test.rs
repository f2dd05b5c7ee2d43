use jitvm::ast::{BinOp, Expr, Stmt};
use jitvm::lexer::tokenize;
use jitvm::parser::parse;

#[test]
fn fib_parses() {
    let src = "fn fib(n) { if n < 2 { return n } return fib(n - 1) + fib(n - 2) } print fib(5)";
    let toks = tokenize(src).unwrap();
    let prog = parse(&toks).unwrap();
    assert!(prog.fns.iter().any(|f| f.name == "fib"));
    assert!(prog.fns.iter().any(|f| f.name == "main"));
}

#[test]
fn precedence_of_mul_over_add() {
    let toks = tokenize("print 1 + 2 * 3").unwrap();
    let prog = parse(&toks).unwrap();
    let main = prog.fns.iter().find(|f| f.name == "main").unwrap();
    match &main.body[0] {
        Stmt::Print(Expr::Bin(BinOp::Add, l, r, _)) => {
            assert!(matches!(**l, Expr::Int(1)));
            assert!(matches!(**r, Expr::Bin(BinOp::Mul, _, _, _)));
        }
        other => panic!("unexpected statement {other:?}"),
    }
}

#[test]
fn missing_paren_is_a_parse_error() {
    let toks = tokenize("print (1 + 2").unwrap();
    assert!(parse(&toks).is_err());
}

fn parse_msg(src: &str) -> String {
    let toks = tokenize(src).unwrap();
    match parse(&toks) {
        Err(jitvm::Error::Parse(m)) => m,
        _ => panic!("expected a parse error"),
    }
}

#[test]
fn messages_name_tokens_as_debug_does() {
    assert_eq!(parse_msg("print (1 + 2"), "line 1: expected RParen, got Eof");
    assert_eq!(parse_msg("fn 7() { }"), "line 1: expected identifier, got Int(7)");
    assert_eq!(parse_msg("let x = )"), "line 1: unexpected token RParen in expression");
    assert_eq!(parse_msg("fn f(a b) { }"), "line 1: expected RParen, got Ident(\"b\")");
    assert_eq!(parse_msg("let \"q\" = 1"), "line 1: expected identifier, got StrLit(\"q\")");
}

#[test]
fn subtraction_associates_to_the_left() {
    let toks = tokenize("print 10 - 3 - 2").unwrap();
    let prog = parse(&toks).unwrap();
    let main = prog.fns.iter().find(|f| f.name == "main").unwrap();
    match &main.body[0] {
        Stmt::Print(Expr::Bin(BinOp::Sub, l, r, _)) => {
            assert!(matches!(**l, Expr::Bin(BinOp::Sub, _, _, _)));
            assert!(matches!(**r, Expr::Int(2)));
        }
        other => panic!("unexpected statement {other:?}"),
    }
}
