use jitvm::lexer::{tokenize, Tok};

#[test]
fn simple() {
    let ts = tokenize("fn main() { return 42; }").unwrap();
    let kinds: Vec<_> = ts.iter().map(|t| t.tok.clone()).collect();
    assert_eq!(
        kinds,
        vec![
            Tok::Fn,
            Tok::Ident("main".into()),
            Tok::LParen,
            Tok::RParen,
            Tok::LBrace,
            Tok::Return,
            Tok::Int(42),
            Tok::Semi,
            Tok::RBrace,
            Tok::Eof,
        ]
    );
}

#[test]
fn ops() {
    let ts = tokenize("a == b && c != d || !e").unwrap();
    assert_eq!(ts[1].tok, Tok::Eq);
    assert_eq!(ts[3].tok, Tok::AndAnd);
    assert_eq!(ts[5].tok, Tok::Ne);
    assert_eq!(ts[7].tok, Tok::OrOr);
    assert_eq!(ts[8].tok, Tok::Bang);
}

#[test]
fn comment() {
    let ts = tokenize("// hi\n1").unwrap();
    assert_eq!(ts[0].tok, Tok::Int(1));
}

#[test]
fn token_positions() {
    let ts = tokenize("let x\n  = 10").unwrap();
    assert_eq!((ts[0].line, ts[0].col), (1, 1));
    assert_eq!((ts[1].line, ts[1].col), (1, 5));
    assert_eq!((ts[2].line, ts[2].col), (2, 3));
    assert_eq!((ts[3].line, ts[3].col), (2, 5));
    assert_eq!(ts[4].tok, Tok::Eof);
}

#[test]
fn string_literal_with_escapes() {
    let ts = tokenize(r#"print "a\tb\n\"c\"\\""#).unwrap();
    assert_eq!(ts[1].tok, Tok::StrLit("a\tb\n\"c\"\\".to_string()));
}

#[test]
fn unterminated_string_is_an_error() {
    let e = tokenize("print \"abc").unwrap_err();
    match e {
        jitvm::Error::Parse(m) => assert!(m.contains("unterminated string literal"), "got: {m}"),
        other => panic!("expected a parse error, got {other:?}"),
    }
}

#[test]
fn empty_source_is_just_eof() {
    let ts = tokenize("").unwrap();
    assert_eq!(ts.len(), 1);
    assert_eq!(ts[0].tok, Tok::Eof);
}

#[test]
fn unexpected_char_is_quoted_as_debug_does() {
    match tokenize("let x = 1 @ 2") {
        Err(jitvm::Error::Parse(m)) => assert_eq!(m, "unexpected char '@' at 1:11"),
        _ => panic!("expected a parse error"),
    }
    match tokenize("x\n  '") {
        Err(jitvm::Error::Parse(m)) => assert_eq!(m, "unexpected char '\\'' at 2:3"),
        _ => panic!("expected a parse error"),
    }
}

#[test]
fn non_ascii_literal_text() {
    let ts = tokenize("\"h\u{e9}llo\\n\"").unwrap();
    assert_eq!(ts[0].tok, Tok::StrLit("h\u{e9}llo\n".to_string()));
}
