//! Recursive descent for statements, precedence climbing (Pratt) for
//! expressions. The top level is a list of function definitions and/or
//! statements; top-level statements are bundled into a synthesized `main()`.

use crate::ast::{
    exprs_v, expr_v, fn_v, fns_v, names_v, stmt_v, stmts_v, BinOp, Expr, Fn, Program, SExpr, SFn,
    SStmt, Span, Stmt, UnOp,
};
use crate::lexer::{toks_view, STok, SToken, Tok, Token};
use crate::text::{concat, concat_lit, dec_int, fmt_i64, lit, str_is};
use crate::{Error, Result};
use vstd::prelude::*;

verus! {

/// Parse results: the value and the position after it, or an error message.
pub type PR<X> = std::result::Result<(X, int), Seq<char>>;

/// What `format!("{:?}", s)` makes of a string: quoted, with special
/// characters escaped.
pub uninterp spec fn spec_str_debug(s: Seq<char>) -> Seq<char>;

/// Calls the `Debug` formatting of `str`.
#[verifier::external_body]
fn str_debug(s: &str) -> (r: String)
    ensures
        r@ == spec_str_debug(s@),
{
    format!("{:?}", s)
}

/// The text of a token kind in messages, as `Debug` writes an enum: the
/// variant's name, then its payload in parentheses.
pub open spec fn spec_tok_debug(t: STok) -> Seq<char> {
    match t {
        STok::Int(n) => "Int("@ + dec_int(n as int) + ")"@,
        STok::Ident(s) => "Ident("@ + spec_str_debug(s) + ")"@,
        STok::StrLit(s) => "StrLit("@ + spec_str_debug(s) + ")"@,
        STok::Fn => "Fn"@,
        STok::Let => "Let"@,
        STok::If => "If"@,
        STok::Else => "Else"@,
        STok::While => "While"@,
        STok::Return => "Return"@,
        STok::LParen => "LParen"@,
        STok::RParen => "RParen"@,
        STok::LBrace => "LBrace"@,
        STok::RBrace => "RBrace"@,
        STok::Comma => "Comma"@,
        STok::Semi => "Semi"@,
        STok::Plus => "Plus"@,
        STok::Minus => "Minus"@,
        STok::Star => "Star"@,
        STok::Slash => "Slash"@,
        STok::Percent => "Percent"@,
        STok::Assign => "Assign"@,
        STok::Eq => "Eq"@,
        STok::Ne => "Ne"@,
        STok::Lt => "Lt"@,
        STok::Le => "Le"@,
        STok::Gt => "Gt"@,
        STok::Ge => "Ge"@,
        STok::AndAnd => "AndAnd"@,
        STok::OrOr => "OrOr"@,
        STok::Bang => "Bang"@,
        STok::Eof => "Eof"@,
    }
}

/// The text of a token kind in messages.
pub(crate) fn tok_debug(t: &Tok) -> (s: String)
    ensures
        s@ == spec_tok_debug(t@),
{
    match t {
        Tok::Int(n) => concat_lit(concat(lit("Int("), &fmt_i64(*n)), ")"),
        Tok::Ident(x) => concat_lit(concat(lit("Ident("), &str_debug(x.as_str())), ")"),
        Tok::StrLit(x) => concat_lit(concat(lit("StrLit("), &str_debug(x.as_str())), ")"),
        Tok::Fn => lit("Fn"),
        Tok::Let => lit("Let"),
        Tok::If => lit("If"),
        Tok::Else => lit("Else"),
        Tok::While => lit("While"),
        Tok::Return => lit("Return"),
        Tok::LParen => lit("LParen"),
        Tok::RParen => lit("RParen"),
        Tok::LBrace => lit("LBrace"),
        Tok::RBrace => lit("RBrace"),
        Tok::Comma => lit("Comma"),
        Tok::Semi => lit("Semi"),
        Tok::Plus => lit("Plus"),
        Tok::Minus => lit("Minus"),
        Tok::Star => lit("Star"),
        Tok::Slash => lit("Slash"),
        Tok::Percent => lit("Percent"),
        Tok::Assign => lit("Assign"),
        Tok::Eq => lit("Eq"),
        Tok::Ne => lit("Ne"),
        Tok::Lt => lit("Lt"),
        Tok::Le => lit("Le"),
        Tok::Gt => lit("Gt"),
        Tok::Ge => lit("Ge"),
        Tok::AndAnd => lit("AndAnd"),
        Tok::OrOr => lit("OrOr"),
        Tok::Bang => lit("Bang"),
        Tok::Eof => lit("Eof"),
    }
}

/// Token sequences the parser works on: non-empty, ending with `Eof`.
pub open spec fn wf_toks(t: Seq<SToken>) -> bool {
    t.len() > 0 && t.last().tok is Eof
}

pub open spec fn tok_at(t: Seq<SToken>, pos: int) -> STok {
    if 0 <= pos < t.len() {
        t[pos].tok
    } else {
        STok::Eof
    }
}

/// The line of the token at `pos`; past the end, the line of the last token.
pub open spec fn line_at(t: Seq<SToken>, pos: int) -> int {
    if 0 <= pos < t.len() {
        t[pos].line
    } else if t.len() > 0 {
        t.last().line
    } else {
        0
    }
}

pub open spec fn span_at(t: Seq<SToken>, pos: int) -> Span {
    Span { line: t[pos].line as u32, col: t[pos].col as u32 }
}

/// A number per token kind: two tokens of the same kind, whatever their
/// payloads, get the same number.
pub open spec fn kind_of(t: STok) -> u8 {
    match t {
        STok::Int(_) => 0,
        STok::Ident(_) => 1,
        STok::StrLit(_) => 2,
        STok::Fn => 3,
        STok::Let => 4,
        STok::If => 5,
        STok::Else => 6,
        STok::While => 7,
        STok::Return => 8,
        STok::LParen => 9,
        STok::RParen => 10,
        STok::LBrace => 11,
        STok::RBrace => 12,
        STok::Comma => 13,
        STok::Semi => 14,
        STok::Plus => 15,
        STok::Minus => 16,
        STok::Star => 17,
        STok::Slash => 18,
        STok::Percent => 19,
        STok::Assign => 20,
        STok::Eq => 21,
        STok::Ne => 22,
        STok::Lt => 23,
        STok::Le => 24,
        STok::Gt => 25,
        STok::Ge => 26,
        STok::AndAnd => 27,
        STok::OrOr => 28,
        STok::Bang => 29,
        STok::Eof => 30,
    }
}

fn kind(t: &Tok) -> (k: u8)
    ensures
        k == kind_of(t@),
{
    match t {
        Tok::Int(_) => 0,
        Tok::Ident(_) => 1,
        Tok::StrLit(_) => 2,
        Tok::Fn => 3,
        Tok::Let => 4,
        Tok::If => 5,
        Tok::Else => 6,
        Tok::While => 7,
        Tok::Return => 8,
        Tok::LParen => 9,
        Tok::RParen => 10,
        Tok::LBrace => 11,
        Tok::RBrace => 12,
        Tok::Comma => 13,
        Tok::Semi => 14,
        Tok::Plus => 15,
        Tok::Minus => 16,
        Tok::Star => 17,
        Tok::Slash => 18,
        Tok::Percent => 19,
        Tok::Assign => 20,
        Tok::Eq => 21,
        Tok::Ne => 22,
        Tok::Lt => 23,
        Tok::Le => 24,
        Tok::Gt => 25,
        Tok::Ge => 26,
        Tok::AndAnd => 27,
        Tok::OrOr => 28,
        Tok::Bang => 29,
        Tok::Eof => 30,
    }
}

/// "line {line}: expected {want:?}, got {got:?}".
pub open spec fn msg_expected(line: int, want: STok, got: STok) -> Seq<char> {
    "line "@ + dec_int(line) + ": "@ + "expected "@ + spec_tok_debug(want) + ", got "@ + spec_tok_debug(
        got,
    )
}

/// "line {line}: expected identifier, got {got:?}".
pub open spec fn msg_expected_ident(line: int, got: STok) -> Seq<char> {
    "line "@ + dec_int(line) + ": "@ + "expected identifier, got "@ + spec_tok_debug(got)
}

/// "line {line}: unexpected token {got:?} in expression".
pub open spec fn msg_unexpected(line: int, got: STok) -> Seq<char> {
    "line "@ + dec_int(line) + ": "@ + "unexpected token "@ + spec_tok_debug(got) + " in expression"@
}

/// Consume a token of the same kind as `want`.
pub open spec fn p_eat(t: Seq<SToken>, pos: int, want: STok) -> std::result::Result<int, Seq<char>> {
    if kind_of(tok_at(t, pos)) == kind_of(want) {
        Ok(pos + 1)
    } else {
        Err(msg_expected(line_at(t, pos), want, tok_at(t, pos)))
    }
}

/// Consume an identifier. On failure the token has been consumed, and the
/// message names the line of the token after it.
pub open spec fn p_eat_ident(t: Seq<SToken>, pos: int) -> PR<Seq<char>> {
    match tok_at(t, pos) {
        STok::Ident(s) => Ok((s, pos + 1)),
        other => Err(msg_expected_ident(line_at(t, pos + 1), other)),
    }
}

/// Skip an optional semicolon.
pub open spec fn p_semi(t: Seq<SToken>, pos: int) -> int {
    if tok_at(t, pos) is Semi {
        pos + 1
    } else {
        pos
    }
}

/// Binding power and operator of a binary-operator token.
pub open spec fn bin_info_s(t: STok) -> Option<(u8, BinOp)> {
    match t {
        STok::OrOr => Some((1u8, BinOp::Or)),
        STok::AndAnd => Some((2u8, BinOp::And)),
        STok::Eq => Some((3u8, BinOp::Eq)),
        STok::Ne => Some((3u8, BinOp::Ne)),
        STok::Lt => Some((4u8, BinOp::Lt)),
        STok::Le => Some((4u8, BinOp::Le)),
        STok::Gt => Some((4u8, BinOp::Gt)),
        STok::Ge => Some((4u8, BinOp::Ge)),
        STok::Plus => Some((5u8, BinOp::Add)),
        STok::Minus => Some((5u8, BinOp::Sub)),
        STok::Star => Some((6u8, BinOp::Mul)),
        STok::Slash => Some((6u8, BinOp::Div)),
        STok::Percent => Some((6u8, BinOp::Mod)),
        _ => None,
    }
}

/// Whether `pos < q < t.len()`: a sub-parse that moved forward.
pub open spec fn fwd(t: Seq<SToken>, pos: int, q: int) -> bool {
    pos < q < t.len()
}

pub open spec fn p_expr(t: Seq<SToken>, pos: int) -> PR<SExpr>
    decreases t.len() - pos, 4int,
{
    if 0 <= pos < t.len() {
        p_prec(t, pos, 0)
    } else {
        Err(Seq::empty())
    }
}

pub open spec fn p_prec(t: Seq<SToken>, pos: int, min_bp: int) -> PR<SExpr>
    decreases t.len() - pos, 3int,
{
    if 0 <= pos < t.len() {
        match p_unary(t, pos) {
            Err(m) => Err(m),
            Ok((lhs, p1)) => if fwd(t, pos, p1) {
                p_prec_loop(t, p1, min_bp, lhs)
            } else {
                Err(Seq::empty())
            },
        }
    } else {
        Err(Seq::empty())
    }
}

/// The operator loop of precedence climbing, with the left operand so far.
pub open spec fn p_prec_loop(t: Seq<SToken>, pos: int, min_bp: int, lhs: SExpr) -> PR<SExpr>
    decreases t.len() - pos, 3int,
{
    if 0 <= pos < t.len() {
        match bin_info_s(tok_at(t, pos)) {
            None => Ok((lhs, pos)),
            Some((lbp, op)) => if lbp < min_bp {
                Ok((lhs, pos))
            } else if pos + 1 < t.len() {
                match p_prec(t, pos + 1, lbp + 1) {
                    Err(m) => Err(m),
                    Ok((rhs, p2)) => if fwd(t, pos, p2) {
                        p_prec_loop(
                            t,
                            p2,
                            min_bp,
                            SExpr::Bin(op, Box::new(lhs), Box::new(rhs), span_at(t, pos)),
                        )
                    } else {
                        Err(Seq::empty())
                    },
                }
            } else {
                Err(Seq::empty())
            },
        }
    } else {
        Err(Seq::empty())
    }
}

pub open spec fn p_unary(t: Seq<SToken>, pos: int) -> PR<SExpr>
    decreases t.len() - pos, 2int,
{
    if 0 <= pos < t.len() {
        match tok_at(t, pos) {
            STok::Minus => if pos + 1 < t.len() {
                match p_unary(t, pos + 1) {
                    Err(m) => Err(m),
                    Ok((e, p1)) => Ok((SExpr::Un(UnOp::Neg, Box::new(e)), p1)),
                }
            } else {
                Err(Seq::empty())
            },
            STok::Bang => if pos + 1 < t.len() {
                match p_unary(t, pos + 1) {
                    Err(m) => Err(m),
                    Ok((e, p1)) => Ok((SExpr::Un(UnOp::Not, Box::new(e)), p1)),
                }
            } else {
                Err(Seq::empty())
            },
            _ => p_atom(t, pos),
        }
    } else {
        Err(Seq::empty())
    }
}

pub open spec fn p_atom(t: Seq<SToken>, pos: int) -> PR<SExpr>
    decreases t.len() - pos, 1int,
{
    if 0 <= pos < t.len() {
        let sp = span_at(t, pos);
        match tok_at(t, pos) {
            STok::Int(n) => Ok((SExpr::Int(n), pos + 1)),
            STok::StrLit(s) => Ok((SExpr::Str(s, sp), pos + 1)),
            STok::LParen => if pos + 1 < t.len() {
                match p_expr(t, pos + 1) {
                    Err(m) => Err(m),
                    Ok((e, p1)) => match p_eat(t, p1, STok::RParen) {
                        Err(m) => Err(m),
                        Ok(p2) => Ok((e, p2)),
                    },
                }
            } else {
                Err(Seq::empty())
            },
            STok::Ident(name) => if tok_at(t, pos + 1) is LParen {
                if tok_at(t, pos + 2) is RParen {
                    match p_eat(t, pos + 2, STok::RParen) {
                        Err(m) => Err(m),
                        Ok(p3) => Ok((SExpr::Call(name, Seq::empty(), sp), p3)),
                    }
                } else if pos + 2 < t.len() {
                    match p_args(t, pos + 2, Seq::empty()) {
                        Err(m) => Err(m),
                        Ok((args, p3)) => match p_eat(t, p3, STok::RParen) {
                            Err(m) => Err(m),
                            Ok(p4) => Ok((SExpr::Call(name, args, sp), p4)),
                        },
                    }
                } else {
                    Err(Seq::empty())
                }
            } else {
                Ok((SExpr::Var(name), pos + 1))
            },
            other => Err(msg_unexpected(line_at(t, pos + 1), other)),
        }
    } else {
        Err(Seq::empty())
    }
}

/// Comma-separated call arguments, with the arguments parsed so far.
pub open spec fn p_args(t: Seq<SToken>, pos: int, acc: Seq<SExpr>) -> PR<Seq<SExpr>>
    decreases t.len() - pos, 5int,
{
    if 0 <= pos < t.len() {
        match p_expr(t, pos) {
            Err(m) => Err(m),
            Ok((e, p1)) => if fwd(t, pos, p1) {
                if tok_at(t, p1) is Comma && p1 + 1 < t.len() {
                    p_args(t, p1 + 1, acc.push(e))
                } else if tok_at(t, p1) is Comma {
                    Err(Seq::empty())
                } else {
                    Ok((acc.push(e), p1))
                }
            } else {
                Err(Seq::empty())
            },
        }
    } else {
        Err(Seq::empty())
    }
}

/// An expression followed by an optional semicolon, wrapped by `k`.
pub open spec fn p_expr_semi(t: Seq<SToken>, pos: int) -> PR<SExpr>
    decreases t.len() - pos, 5int,
{
    match p_expr(t, pos) {
        Err(m) => Err(m),
        Ok((e, p1)) => Ok((e, p_semi(t, p1))),
    }
}

/// `let NAME = EXPR [;]` at `pos` (the `let` token).
pub open spec fn p_let(t: Seq<SToken>, pos: int) -> PR<SStmt>
    decreases t.len() - pos, 6int,
{
    match p_eat_ident(t, pos + 1) {
        Err(m) => Err(m),
        Ok((name, p1)) => match p_eat(t, p1, STok::Assign) {
            Err(m) => Err(m),
            Ok(p2) => if 0 <= pos && fwd(t, pos, p2) {
                match p_expr_semi(t, p2) {
                    Err(m) => Err(m),
                    Ok((e, p3)) => Ok((SStmt::Let(name, e), p3)),
                }
            } else {
                Err(Seq::empty())
            },
        },
    }
}

/// `if COND BLOCK [else (if ... | BLOCK)]` at `pos` (the `if` token).
pub open spec fn p_if(t: Seq<SToken>, pos: int) -> PR<SStmt>
    decreases t.len() - pos, 6int,
{
    if 0 <= pos && pos + 1 < t.len() {
        match p_expr(t, pos + 1) {
            Err(m) => Err(m),
            Ok((c, p1)) => if fwd(t, pos, p1) {
                match p_block(t, p1) {
                    Err(m) => Err(m),
                    Ok((tb, p2)) => if fwd(t, pos, p2) {
                        if tok_at(t, p2) is Else && p2 + 1 < t.len() {
                            if tok_at(t, p2 + 1) is If {
                                match p_stmt(t, p2 + 1) {
                                    Err(m) => Err(m),
                                    Ok((s, p3)) => Ok((SStmt::If(c, tb, seq![s]), p3)),
                                }
                            } else {
                                match p_block(t, p2 + 1) {
                                    Err(m) => Err(m),
                                    Ok((eb, p3)) => Ok((SStmt::If(c, tb, eb), p3)),
                                }
                            }
                        } else if tok_at(t, p2) is Else {
                            Err(Seq::empty())
                        } else {
                            Ok((SStmt::If(c, tb, Seq::empty()), p2))
                        }
                    } else {
                        Err(Seq::empty())
                    },
                }
            } else {
                Err(Seq::empty())
            },
        }
    } else {
        Err(Seq::empty())
    }
}

/// `while COND BLOCK` at `pos` (the `while` token).
pub open spec fn p_while(t: Seq<SToken>, pos: int) -> PR<SStmt>
    decreases t.len() - pos, 6int,
{
    if 0 <= pos && pos + 1 < t.len() {
        match p_expr(t, pos + 1) {
            Err(m) => Err(m),
            Ok((c, p1)) => if fwd(t, pos, p1) {
                match p_block(t, p1) {
                    Err(m) => Err(m),
                    Ok((body, p2)) => Ok((SStmt::While(c, body), p2)),
                }
            } else {
                Err(Seq::empty())
            },
        }
    } else {
        Err(Seq::empty())
    }
}

/// `return [EXPR] [;]` at `pos` (the `return` token). A missing value
/// returns 0.
pub open spec fn p_return(t: Seq<SToken>, pos: int) -> PR<SStmt>
    decreases t.len() - pos, 6int,
{
    let nt = tok_at(t, pos + 1);
    if nt is RBrace || nt is Semi || nt is Eof {
        Ok((SStmt::Return(SExpr::Int(0)), p_semi(t, pos + 1)))
    } else if 0 <= pos && pos + 1 < t.len() {
        match p_expr_semi(t, pos + 1) {
            Err(m) => Err(m),
            Ok((e, p1)) => Ok((SStmt::Return(e), p1)),
        }
    } else {
        Err(Seq::empty())
    }
}

/// A statement that starts with the identifier `name` at `pos`: `print
/// EXPR`, `NAME = EXPR`, or an expression statement.
pub open spec fn p_ident_stmt(t: Seq<SToken>, pos: int, name: Seq<char>) -> PR<SStmt>
    decreases t.len() - pos, 6int,
{
    if name == "print"@ {
        if 0 <= pos && pos + 1 < t.len() {
            match p_expr_semi(t, pos + 1) {
                Err(m) => Err(m),
                Ok((e, p1)) => Ok((SStmt::Print(e), p1)),
            }
        } else {
            Err(Seq::empty())
        }
    } else if tok_at(t, pos + 1) is Assign && 0 <= pos && pos + 2 < t.len() {
        match p_expr_semi(t, pos + 2) {
            Err(m) => Err(m),
            Ok((e, p1)) => Ok((SStmt::Assign(name, e), p1)),
        }
    } else if tok_at(t, pos + 1) is Assign {
        Err(Seq::empty())
    } else {
        match p_expr_semi(t, pos) {
            Err(m) => Err(m),
            Ok((e, p1)) => Ok((SStmt::ExprStmt(e), p1)),
        }
    }
}

pub open spec fn p_stmt(t: Seq<SToken>, pos: int) -> PR<SStmt>
    decreases t.len() - pos, 7int,
{
    if 0 <= pos < t.len() {
        match tok_at(t, pos) {
            STok::Let => p_let(t, pos),
            STok::If => p_if(t, pos),
            STok::While => p_while(t, pos),
            STok::Return => p_return(t, pos),
            STok::Ident(name) => p_ident_stmt(t, pos, name),
            _ => match p_expr_semi(t, pos) {
                Err(m) => Err(m),
                Ok((e, p1)) => Ok((SStmt::ExprStmt(e), p1)),
            },
        }
    } else {
        Err(Seq::empty())
    }
}

pub open spec fn p_block(t: Seq<SToken>, pos: int) -> PR<Seq<SStmt>>
    decreases t.len() - pos, 9int,
{
    match p_eat(t, pos, STok::LBrace) {
        Err(m) => Err(m),
        Ok(p1) => if 0 <= pos && fwd(t, pos, p1) {
            p_block_loop(t, p1, Seq::empty())
        } else {
            Err(Seq::empty())
        },
    }
}

/// The statements of a block up to its closing brace.
pub open spec fn p_block_loop(t: Seq<SToken>, pos: int, acc: Seq<SStmt>) -> PR<Seq<SStmt>>
    decreases t.len() - pos, 8int,
{
    if 0 <= pos < t.len() {
        let nt = tok_at(t, pos);
        if nt is RBrace || nt is Eof {
            match p_eat(t, pos, STok::RBrace) {
                Err(m) => Err(m),
                Ok(p1) => Ok((acc, p1)),
            }
        } else {
            match p_stmt(t, pos) {
                Err(m) => Err(m),
                Ok((s, p1)) => if fwd(t, pos, p1) {
                    p_block_loop(t, p1, acc.push(s))
                } else {
                    Err(Seq::empty())
                },
            }
        }
    } else {
        Err(Seq::empty())
    }
}

/// Comma-separated parameter names.
pub open spec fn p_params(t: Seq<SToken>, pos: int, acc: Seq<Seq<char>>) -> PR<Seq<Seq<char>>>
    decreases t.len() - pos,
{
    if 0 <= pos < t.len() {
        match p_eat_ident(t, pos) {
            Err(m) => Err(m),
            Ok((n, p1)) => if tok_at(t, p1) is Comma && p1 + 1 < t.len() {
                p_params(t, p1 + 1, acc.push(n))
            } else if tok_at(t, p1) is Comma {
                Err(Seq::empty())
            } else {
                Ok((acc.push(n), p1))
            },
        }
    } else {
        Err(Seq::empty())
    }
}

pub open spec fn p_fn(t: Seq<SToken>, pos: int) -> PR<SFn>
    decreases t.len() - pos, 10int,
{
    match p_eat(t, pos, STok::Fn) {
        Err(m) => Err(m),
        Ok(p1) => match p_eat_ident(t, p1) {
            Err(m) => Err(m),
            Ok((name, p2)) => match p_eat(t, p2, STok::LParen) {
                Err(m) => Err(m),
                Ok(p3) => {
                    let ps = if tok_at(t, p3) is RParen {
                        Ok((Seq::<Seq<char>>::empty(), p3))
                    } else {
                        p_params(t, p3, Seq::empty())
                    };
                    match ps {
                        Err(m) => Err(m),
                        Ok((params, p4)) => match p_eat(t, p4, STok::RParen) {
                            Err(m) => Err(m),
                            Ok(p5) => if 0 <= pos && fwd(t, pos, p5) {
                                match p_block(t, p5) {
                                    Err(m) => Err(m),
                                    Ok((body, p6)) => Ok((SFn { name, params, body }, p6)),
                                }
                            } else {
                                Err(Seq::empty())
                            },
                        },
                    }
                },
            },
        },
    }
}

/// The top level: function definitions and statements, in order.
pub open spec fn p_top(t: Seq<SToken>, pos: int, fns: Seq<SFn>, tops: Seq<SStmt>) -> std::result::Result<
    (Seq<SFn>, Seq<SStmt>),
    Seq<char>,
>
    decreases t.len() - pos, 11int,
{
    if 0 <= pos < t.len() {
        let nt = tok_at(t, pos);
        if nt is Eof {
            Ok((fns, tops))
        } else if nt is Fn {
            match p_fn(t, pos) {
                Err(m) => Err(m),
                Ok((f, p1)) => if fwd(t, pos, p1) {
                    p_top(t, p1, fns.push(f), tops)
                } else {
                    Err(Seq::empty())
                },
            }
        } else {
            match p_stmt(t, pos) {
                Err(m) => Err(m),
                Ok((s, p1)) => if fwd(t, pos, p1) {
                    p_top(t, p1, fns, tops.push(s))
                } else {
                    Err(Seq::empty())
                },
            }
        }
    } else {
        Err(Seq::empty())
    }
}

pub open spec fn has_main(fns: Seq<SFn>) -> bool {
    exists|i: int| 0 <= i < fns.len() && #[trigger] fns[i].name == "main"@
}

/// The program of a token sequence: the functions in order, with the
/// top-level statements (if any) followed by `return 0` as a synthesized
/// `main` at the end.
pub open spec fn spec_parse(t: Seq<SToken>) -> std::result::Result<Seq<SFn>, Seq<char>> {
    match p_top(t, 0, Seq::empty(), Seq::empty()) {
        Err(m) => Err(m),
        Ok((fns, tops)) => if tops.len() > 0 && !has_main(fns) {
            Ok(
                fns.push(
                    SFn {
                        name: "main"@,
                        params: Seq::empty(),
                        body: tops.push(SStmt::Return(SExpr::Int(0))),
                    },
                ),
            )
        } else if tops.len() > 0 {
            Err("top-level statements not allowed when main() is defined"@)
        } else if !has_main(fns) {
            Err("no main function or top-level code"@)
        } else {
            Ok(fns)
        },
    }
}


proof fn lemma_exprs_push(es: Seq<Expr>, e: Expr)
    ensures
        exprs_v(es.push(e)) == exprs_v(es).push(expr_v(e)),
    decreases es.len(),
{
    if es.len() == 0 {
        assert(es.push(e).subrange(1, 1) =~= Seq::<Expr>::empty());
        assert(exprs_v(Seq::<Expr>::empty()) == Seq::<SExpr>::empty());
        assert(exprs_v(es.push(e)) =~= seq![expr_v(e)]);
    } else {
        let tail = es.subrange(1, es.len() as int);
        lemma_exprs_push(tail, e);
        assert(es.push(e).subrange(1, es.len() as int + 1) =~= tail.push(e));
        assert(exprs_v(es.push(e)) =~= exprs_v(es).push(expr_v(e)));
    }
}

proof fn lemma_stmts_push(ss: Seq<Stmt>, s: Stmt)
    ensures
        stmts_v(ss.push(s)) == stmts_v(ss).push(stmt_v(s)),
    decreases ss.len(),
{
    if ss.len() == 0 {
        assert(ss.push(s).subrange(1, 1) =~= Seq::<Stmt>::empty());
        assert(stmts_v(Seq::<Stmt>::empty()) == Seq::<SStmt>::empty());
        assert(stmts_v(ss.push(s)) =~= seq![stmt_v(s)]);
    } else {
        let tail = ss.subrange(1, ss.len() as int);
        lemma_stmts_push(tail, s);
        assert(ss.push(s).subrange(1, ss.len() as int + 1) =~= tail.push(s));
        assert(stmts_v(ss.push(s)) =~= stmts_v(ss).push(stmt_v(s)));
    }
}

/// A copy of a token kind.
fn tok_clone(t: &Tok) -> (r: Tok)
    ensures
        r@ == t@,
{
    match t {
        Tok::Int(v) => Tok::Int(*v),
        Tok::Ident(s) => Tok::Ident(s.clone()),
        Tok::StrLit(s) => Tok::StrLit(s.clone()),
        Tok::Fn => Tok::Fn,
        Tok::Let => Tok::Let,
        Tok::If => Tok::If,
        Tok::Else => Tok::Else,
        Tok::While => Tok::While,
        Tok::Return => Tok::Return,
        Tok::LParen => Tok::LParen,
        Tok::RParen => Tok::RParen,
        Tok::LBrace => Tok::LBrace,
        Tok::RBrace => Tok::RBrace,
        Tok::Comma => Tok::Comma,
        Tok::Semi => Tok::Semi,
        Tok::Plus => Tok::Plus,
        Tok::Minus => Tok::Minus,
        Tok::Star => Tok::Star,
        Tok::Slash => Tok::Slash,
        Tok::Percent => Tok::Percent,
        Tok::Assign => Tok::Assign,
        Tok::Eq => Tok::Eq,
        Tok::Ne => Tok::Ne,
        Tok::Lt => Tok::Lt,
        Tok::Le => Tok::Le,
        Tok::Gt => Tok::Gt,
        Tok::Ge => Tok::Ge,
        Tok::AndAnd => Tok::AndAnd,
        Tok::OrOr => Tok::OrOr,
        Tok::Bang => Tok::Bang,
        Tok::Eof => Tok::Eof,
    }
}

fn bin_info(t: &Tok) -> (r: Option<(u8, BinOp)>)
    ensures
        r == bin_info_s(t@),
{
    match t {
        Tok::OrOr => Some((1, BinOp::Or)),
        Tok::AndAnd => Some((2, BinOp::And)),
        Tok::Eq => Some((3, BinOp::Eq)),
        Tok::Ne => Some((3, BinOp::Ne)),
        Tok::Lt => Some((4, BinOp::Lt)),
        Tok::Le => Some((4, BinOp::Le)),
        Tok::Gt => Some((4, BinOp::Gt)),
        Tok::Ge => Some((4, BinOp::Ge)),
        Tok::Plus => Some((5, BinOp::Add)),
        Tok::Minus => Some((5, BinOp::Sub)),
        Tok::Star => Some((6, BinOp::Mul)),
        Tok::Slash => Some((6, BinOp::Div)),
        Tok::Percent => Some((6, BinOp::Mod)),
        _ => None,
    }
}

/// "line {line}: " followed by `rest`.
fn line_msg(line: u32, rest: String) -> (m: String)
    ensures
        m@ == "line "@ + dec_int(line as int) + ": "@ + rest@,
{
    let m = concat(lit("line "), &fmt_i64(line as i64));
    let m = concat_lit(m, ": ");
    concat(m, &rest)
}

/// The parser state: the tokens and the current position.
struct P<'a> {
    toks: &'a [Token],
    pos: usize,
}

spec fn pt(p: &P) -> Seq<SToken> {
    toks_view(p.toks@)
}

/// The parser can look at the current token.
spec fn p_ready(p: &P) -> bool {
    &&& wf_toks(pt(p))
    &&& p.pos < p.toks@.len()
    &&& p.toks@.len() < usize::MAX
}

impl<'a> P<'a> {
    fn peek(&self) -> (r: &Tok)
        requires
            p_ready(self),
        ensures
            r@ == tok_at(pt(self), self.pos as int),
    {
        &self.toks[self.pos].tok
    }

    fn line(&self) -> (l: u32)
        requires
            wf_toks(pt(self)),
        ensures
            l == line_at(pt(self), self.pos as int),
    {
        if self.pos < self.toks.len() {
            self.toks[self.pos].line
        } else {
            self.toks[self.toks.len() - 1].line
        }
    }

    fn span(&self) -> (s: Span)
        requires
            p_ready(self),
        ensures
            s == span_at(pt(self), self.pos as int),
    {
        let t = &self.toks[self.pos];
        Span::new(t.line, t.col)
    }

    fn bump(&mut self) -> (t: Tok)
        requires
            p_ready(old(self)),
        ensures
            t@ == tok_at(pt(old(self)), old(self).pos as int),
            final(self).toks == old(self).toks,
            final(self).pos == old(self).pos + 1,
    {
        let t = tok_clone(&self.toks[self.pos].tok);
        self.pos += 1;
        t
    }

    fn eat(&mut self, want: &Tok) -> (r: Result<()>)
        requires
            p_ready(old(self)),
        ensures
            final(self).toks == old(self).toks,
            match p_eat(pt(old(self)), old(self).pos as int, want@) {
                Ok(q) => r is Ok && final(self).pos == q,
                Err(m) => r matches Err(Error::Parse(mm)) && mm@ == m,
            },
    {
        if kind(self.peek()) == kind(want) {
            self.pos += 1;
            Ok(())
        } else {
            let m = concat(lit("expected "), &tok_debug(want));
            let m = concat_lit(m, ", got ");
            let m = concat(m, &tok_debug(self.peek()));
            let m = line_msg(self.line(), m);
            proof {
                assert(m@ =~= msg_expected(
                    line_at(pt(self), self.pos as int),
                    want@,
                    tok_at(pt(self), self.pos as int),
                ));
            }
            Err(Error::Parse(m))
        }
    }

    fn eat_ident(&mut self) -> (r: Result<String>)
        requires
            p_ready(old(self)),
        ensures
            final(self).toks == old(self).toks,
            match p_eat_ident(pt(old(self)), old(self).pos as int) {
                Ok((s, q)) => r is Ok && r->Ok_0@ == s && final(self).pos == q,
                Err(m) => r matches Err(Error::Parse(mm)) && mm@ == m,
            },
    {
        match self.bump() {
            Tok::Ident(s) => Ok(s),
            t => {
                let m = concat(lit("expected identifier, got "), &tok_debug(&t));
                let m = line_msg(self.line(), m);
                proof {
                    assert(m@ =~= msg_expected_ident(
                        line_at(pt(self), self.pos as int),
                        tok_at(pt(self), self.pos - 1),
                    ));
                }
                Err(Error::Parse(m))
            },
        }
    }

    fn maybe_semi(&mut self)
        requires
            p_ready(old(self)),
        ensures
            final(self).toks == old(self).toks,
            final(self).pos == p_semi(pt(old(self)), old(self).pos as int),
    {
        if matches!(self.peek(), Tok::Semi) {
            self.pos += 1;
        }
    }
}

/// A token that is not `Eof` is followed by another token.
proof fn lemma_not_eof_next(t: Seq<SToken>, i: int)
    requires
        wf_toks(t),
        0 <= i < t.len(),
        !(t[i].tok is Eof),
    ensures
        i + 1 < t.len(),
{
}

/// The error of a parse that went wrong.
spec fn is_err_msg(r: Result<()>, m: Seq<char>) -> bool {
    r matches Err(Error::Parse(mm)) && mm@ == m
}

fn parse_expr(p: &mut P) -> (r: Result<Expr>)
    requires
        p_ready(old(p)),
    ensures
        final(p).toks == old(p).toks,
        match p_expr(pt(old(p)), old(p).pos as int) {
            Ok((e, q)) => r is Ok && expr_v(r->Ok_0) == e && final(p).pos == q && old(p).pos < q
                < old(p).toks@.len(),
            Err(m) => r matches Err(Error::Parse(mm)) && mm@ == m,
        },
    decreases old(p).toks@.len() - old(p).pos, 4int,
{
    parse_prec(p, 0)
}

fn parse_prec(p: &mut P, min_bp: u8) -> (r: Result<Expr>)
    requires
        p_ready(old(p)),
        min_bp <= 7,
    ensures
        final(p).toks == old(p).toks,
        match p_prec(pt(old(p)), old(p).pos as int, min_bp as int) {
            Ok((e, q)) => r is Ok && expr_v(r->Ok_0) == e && final(p).pos == q && old(p).pos < q
                < old(p).toks@.len(),
            Err(m) => r matches Err(Error::Parse(mm)) && mm@ == m,
        },
    decreases old(p).toks@.len() - old(p).pos, 3int,
{
    let ghost t = pt(p);
    let ghost pos0 = p.pos as int;
    let mut lhs = match parse_unary(p) {
        Ok(e) => e,
        Err(e) => {
            return Err(e);
        },
    };
    loop
        invariant
            p.toks == old(p).toks,
            t == pt(p),
            pos0 == old(p).pos,
            p_ready(p),
            pos0 < p.pos,
            min_bp <= 7,
            p_prec(t, pos0, min_bp as int) == p_prec_loop(t, p.pos as int, min_bp as int, expr_v(lhs)),
        decreases p.toks@.len() - p.pos,
    {
        match bin_info(p.peek()) {
            None => {
                return Ok(lhs);
            },
            Some((lbp, op)) => {
                if lbp < min_bp {
                    return Ok(lhs);
                }
                let sp = p.span();
                proof {
                    lemma_not_eof_next(t, p.pos as int);
                }
                p.bump();
                let rhs = match parse_prec(p, lbp + 1) {
                    Ok(e) => e,
                    Err(e) => {
                        return Err(e);
                    },
                };
                lhs = Expr::Bin(op, Box::new(lhs), Box::new(rhs), sp);
            },
        }
    }
}

fn parse_unary(p: &mut P) -> (r: Result<Expr>)
    requires
        p_ready(old(p)),
    ensures
        final(p).toks == old(p).toks,
        match p_unary(pt(old(p)), old(p).pos as int) {
            Ok((e, q)) => r is Ok && expr_v(r->Ok_0) == e && final(p).pos == q && old(p).pos < q
                < old(p).toks@.len(),
            Err(m) => r matches Err(Error::Parse(mm)) && mm@ == m,
        },
    decreases old(p).toks@.len() - old(p).pos, 2int,
{
    let ghost t = pt(p);
    if matches!(p.peek(), Tok::Minus) {
        proof {
            lemma_not_eof_next(t, p.pos as int);
        }
        p.bump();
        let e = match parse_unary(p) {
            Ok(e) => e,
            Err(e) => {
                return Err(e);
            },
        };
        Ok(Expr::Un(UnOp::Neg, Box::new(e)))
    } else if matches!(p.peek(), Tok::Bang) {
        proof {
            lemma_not_eof_next(t, p.pos as int);
        }
        p.bump();
        let e = match parse_unary(p) {
            Ok(e) => e,
            Err(e) => {
                return Err(e);
            },
        };
        Ok(Expr::Un(UnOp::Not, Box::new(e)))
    } else {
        parse_atom(p)
    }
}

fn parse_atom(p: &mut P) -> (r: Result<Expr>)
    requires
        p_ready(old(p)),
    ensures
        final(p).toks == old(p).toks,
        match p_atom(pt(old(p)), old(p).pos as int) {
            Ok((e, q)) => r is Ok && expr_v(r->Ok_0) == e && final(p).pos == q && old(p).pos < q
                < old(p).toks@.len(),
            Err(m) => r matches Err(Error::Parse(mm)) && mm@ == m,
        },
    decreases old(p).toks@.len() - old(p).pos, 1int,
{
    let ghost t = pt(p);
    let ghost pos0 = p.pos as int;
    let span = p.span();
    match p.bump() {
        Tok::Int(n) => {
            proof {
                lemma_not_eof_next(t, pos0);
            }
            Ok(Expr::Int(n))
        },
        Tok::StrLit(s) => {
            proof {
                lemma_not_eof_next(t, pos0);
            }
            Ok(Expr::Str(s, span))
        },
        Tok::LParen => {
            proof {
                lemma_not_eof_next(t, pos0);
            }
            let e = match parse_expr(p) {
                Ok(e) => e,
                Err(e) => {
                    return Err(e);
                },
            };
            match p.eat(&Tok::RParen) {
                Ok(()) => {},
                Err(e) => {
                    return Err(e);
                },
            }
            proof {
                lemma_not_eof_next(t, p.pos - 1);
            }
            Ok(e)
        },
        Tok::Ident(name) => {
            proof {
                lemma_not_eof_next(t, pos0);
            }
            if matches!(p.peek(), Tok::LParen) {
                proof {
                    lemma_not_eof_next(t, pos0 + 1);
                }
                p.bump();
                let mut args: Vec<Expr> = Vec::new();
                if !matches!(p.peek(), Tok::RParen) {
                    let ghost a0 = p.pos as int;
                    assert(exprs_v(args@) =~= Seq::<SExpr>::empty());
                    loop
                        invariant_except_break
                            p_args(t, a0, Seq::empty()) == p_args(t, p.pos as int, exprs_v(args@)),
                        invariant
                            p.toks == old(p).toks,
                            t == pt(p),
                            p_ready(p),
                            pos0 == old(p).pos,
                            t == pt(old(p)),
                            a0 == pos0 + 2,
                            a0 <= p.pos,
                            tok_at(t, pos0) == STok::Ident(name@),
                            tok_at(t, pos0 + 1) is LParen,
                            !(tok_at(t, a0) is RParen),
                        ensures
                            p_args(t, a0, Seq::empty()) == Ok::<(Seq<SExpr>, int), Seq<char>>(
                                (exprs_v(args@), p.pos as int),
                            ),
                        decreases p.toks@.len() - p.pos,
                    {
                        let e = match parse_expr(p) {
                            Ok(e) => e,
                            Err(e) => {
                                return Err(e);
                            },
                        };
                        proof {
                            lemma_exprs_push(args@, e);
                        }
                        args.push(e);
                        if matches!(p.peek(), Tok::Comma) {
                            proof {
                                lemma_not_eof_next(t, p.pos as int);
                            }
                            p.bump();
                        } else {
                            break ;
                        }
                    }
                }
                match p.eat(&Tok::RParen) {
                    Ok(()) => {},
                    Err(e) => {
                        return Err(e);
                    },
                }
                proof {
                    lemma_not_eof_next(t, p.pos - 1);
                }
                Ok(Expr::Call(name, args, span))
            } else {
                Ok(Expr::Var(name))
            }
        },
        other => {
            let m = concat(lit("unexpected token "), &tok_debug(&other));
            let m = concat_lit(m, " in expression");
            let m = line_msg(p.line(), m);
            proof {
                assert(m@ =~= msg_unexpected(line_at(t, pos0 + 1), other@));
            }
            Err(Error::Parse(m))
        },
    }
}


/// An expression and an optional semicolon.
fn parse_expr_semi(p: &mut P) -> (r: Result<Expr>)
    requires
        p_ready(old(p)),
    ensures
        final(p).toks == old(p).toks,
        match p_expr_semi(pt(old(p)), old(p).pos as int) {
            Ok((e, q)) => r is Ok && expr_v(r->Ok_0) == e && final(p).pos == q && old(p).pos < q
                < old(p).toks@.len(),
            Err(m) => r matches Err(Error::Parse(mm)) && mm@ == m,
        },
    decreases old(p).toks@.len() - old(p).pos, 5int,
{
    let e = match parse_expr(p) {
        Ok(e) => e,
        Err(e) => {
            return Err(e);
        },
    };
    let ghost t = pt(p);
    proof {
        if tok_at(t, p.pos as int) is Semi {
            lemma_not_eof_next(t, p.pos as int);
        }
    }
    p.maybe_semi();
    Ok(e)
}

fn parse_let(p: &mut P) -> (r: Result<Stmt>)
    requires
        p_ready(old(p)),
        tok_at(pt(old(p)), old(p).pos as int) is Let,
    ensures
        final(p).toks == old(p).toks,
        match p_let(pt(old(p)), old(p).pos as int) {
            Ok((st, q)) => r is Ok && stmt_v(r->Ok_0) == st && final(p).pos == q && old(p).pos < q
                < old(p).toks@.len(),
            Err(m) => r matches Err(Error::Parse(mm)) && mm@ == m,
        },
    decreases old(p).toks@.len() - old(p).pos, 6int,
{
    let ghost t = pt(p);
    let ghost pos0 = p.pos as int;
    proof {
        lemma_not_eof_next(t, pos0);
    }
    p.bump();
    let name = match p.eat_ident() {
        Ok(n) => n,
        Err(e) => {
            return Err(e);
        },
    };
    proof {
        lemma_not_eof_next(t, pos0 + 1);
    }
    match p.eat(&Tok::Assign) {
        Ok(()) => {},
        Err(e) => {
            return Err(e);
        },
    }
    proof {
        lemma_not_eof_next(t, pos0 + 2);
    }
    let e = match parse_expr_semi(p) {
        Ok(e) => e,
        Err(e) => {
            return Err(e);
        },
    };
    Ok(Stmt::Let(name, e))
}

#[verifier::rlimit(100)]
fn parse_if(p: &mut P) -> (r: Result<Stmt>)
    requires
        p_ready(old(p)),
        tok_at(pt(old(p)), old(p).pos as int) is If,
    ensures
        final(p).toks == old(p).toks,
        match p_if(pt(old(p)), old(p).pos as int) {
            Ok((st, q)) => r is Ok && stmt_v(r->Ok_0) == st && final(p).pos == q && old(p).pos < q
                < old(p).toks@.len(),
            Err(m) => r matches Err(Error::Parse(mm)) && mm@ == m,
        },
    decreases old(p).toks@.len() - old(p).pos, 6int,
{
    let ghost t = pt(p);
    let ghost pos0 = p.pos as int;
    proof {
        lemma_not_eof_next(t, pos0);
    }
    p.bump();
    let c = match parse_expr(p) {
        Ok(e) => e,
        Err(e) => {
            return Err(e);
        },
    };
    let tb = match parse_block(p) {
        Ok(b) => b,
        Err(e) => {
            return Err(e);
        },
    };
    if matches!(p.peek(), Tok::Else) {
        proof {
            lemma_not_eof_next(t, p.pos as int);
        }
        p.bump();
        if matches!(p.peek(), Tok::If) {
            let s = match parse_stmt(p) {
                Ok(s) => s,
                Err(e) => {
                    return Err(e);
                },
            };
            let ghost gs = s;
            let eb = vec![s];
            proof {
                assert(eb@ == seq![gs]);
                lemma_stmts_push(Seq::<Stmt>::empty(), gs);
                assert(Seq::<Stmt>::empty().push(gs) =~= seq![gs]);
                assert(stmts_v(Seq::<Stmt>::empty()) == Seq::<SStmt>::empty());
                assert(Seq::<SStmt>::empty().push(stmt_v(gs)) =~= seq![stmt_v(gs)]);
            }
            Ok(Stmt::If(c, tb, eb))
        } else {
            let eb = match parse_block(p) {
                Ok(b) => b,
                Err(e) => {
                    return Err(e);
                },
            };
            Ok(Stmt::If(c, tb, eb))
        }
    } else {
        let eb: Vec<Stmt> = Vec::new();
        proof {
            assert(eb@ =~= Seq::<Stmt>::empty());
            assert(stmts_v(eb@) == Seq::<SStmt>::empty());
        }
        Ok(Stmt::If(c, tb, eb))
    }
}

fn parse_while(p: &mut P) -> (r: Result<Stmt>)
    requires
        p_ready(old(p)),
        tok_at(pt(old(p)), old(p).pos as int) is While,
    ensures
        final(p).toks == old(p).toks,
        match p_while(pt(old(p)), old(p).pos as int) {
            Ok((st, q)) => r is Ok && stmt_v(r->Ok_0) == st && final(p).pos == q && old(p).pos < q
                < old(p).toks@.len(),
            Err(m) => r matches Err(Error::Parse(mm)) && mm@ == m,
        },
    decreases old(p).toks@.len() - old(p).pos, 6int,
{
    let ghost t = pt(p);
    let ghost pos0 = p.pos as int;
    proof {
        lemma_not_eof_next(t, pos0);
    }
    p.bump();
    let c = match parse_expr(p) {
        Ok(e) => e,
        Err(e) => {
            return Err(e);
        },
    };
    let body = match parse_block(p) {
        Ok(b) => b,
        Err(e) => {
            return Err(e);
        },
    };
    Ok(Stmt::While(c, body))
}

fn parse_return(p: &mut P) -> (r: Result<Stmt>)
    requires
        p_ready(old(p)),
        tok_at(pt(old(p)), old(p).pos as int) is Return,
    ensures
        final(p).toks == old(p).toks,
        match p_return(pt(old(p)), old(p).pos as int) {
            Ok((st, q)) => r is Ok && stmt_v(r->Ok_0) == st && final(p).pos == q && old(p).pos < q
                < old(p).toks@.len(),
            Err(m) => r matches Err(Error::Parse(mm)) && mm@ == m,
        },
    decreases old(p).toks@.len() - old(p).pos, 6int,
{
    let ghost t = pt(p);
    let ghost pos0 = p.pos as int;
    proof {
        lemma_not_eof_next(t, pos0);
    }
    p.bump();
    if matches!(p.peek(), Tok::RBrace | Tok::Semi | Tok::Eof) {
        proof {
            if tok_at(t, p.pos as int) is Semi {
                lemma_not_eof_next(t, p.pos as int);
            }
        }
        p.maybe_semi();
        return Ok(Stmt::Return(Expr::Int(0)));
    }
    let e = match parse_expr_semi(p) {
        Ok(e) => e,
        Err(e) => {
            return Err(e);
        },
    };
    Ok(Stmt::Return(e))
}

fn parse_ident_stmt(p: &mut P, name: &String) -> (r: Result<Stmt>)
    requires
        p_ready(old(p)),
        tok_at(pt(old(p)), old(p).pos as int) == STok::Ident(name@),
    ensures
        final(p).toks == old(p).toks,
        match p_ident_stmt(pt(old(p)), old(p).pos as int, name@) {
            Ok((st, q)) => r is Ok && stmt_v(r->Ok_0) == st && final(p).pos == q && old(p).pos < q
                < old(p).toks@.len(),
            Err(m) => r matches Err(Error::Parse(mm)) && mm@ == m,
        },
    decreases old(p).toks@.len() - old(p).pos, 6int,
{
    let ghost t = pt(p);
    let ghost pos0 = p.pos as int;
    proof {
        lemma_not_eof_next(t, pos0);
    }
    if str_is(name, "print") {
        p.bump();
        let e = match parse_expr_semi(p) {
            Ok(e) => e,
            Err(e) => {
                return Err(e);
            },
        };
        return Ok(Stmt::Print(e));
    }
    let save = p.pos;
    p.bump();
    if matches!(p.peek(), Tok::Assign) {
        proof {
            lemma_not_eof_next(t, pos0 + 1);
        }
        p.bump();
        let e = match parse_expr_semi(p) {
            Ok(e) => e,
            Err(e) => {
                return Err(e);
            },
        };
        return Ok(Stmt::Assign(name.clone(), e));
    }
    p.pos = save;
    let e = match parse_expr_semi(p) {
        Ok(e) => e,
        Err(e) => {
            return Err(e);
        },
    };
    Ok(Stmt::ExprStmt(e))
}

fn parse_stmt(p: &mut P) -> (r: Result<Stmt>)
    requires
        p_ready(old(p)),
    ensures
        final(p).toks == old(p).toks,
        match p_stmt(pt(old(p)), old(p).pos as int) {
            Ok((st, q)) => r is Ok && stmt_v(r->Ok_0) == st && final(p).pos == q && old(p).pos < q
                < old(p).toks@.len(),
            Err(m) => r matches Err(Error::Parse(mm)) && mm@ == m,
        },
    decreases old(p).toks@.len() - old(p).pos, 7int,
{
    let k = kind(p.peek());
    if k == 4 {
        parse_let(p)
    } else if k == 5 {
        parse_if(p)
    } else if k == 7 {
        parse_while(p)
    } else if k == 8 {
        parse_return(p)
    } else if k == 1 {
        let name = match p.peek() {
            Tok::Ident(n) => n.clone(),
            _ => String::new(),
        };
        parse_ident_stmt(p, &name)
    } else {
        let e = match parse_expr_semi(p) {
            Ok(e) => e,
            Err(e) => {
                return Err(e);
            },
        };
        Ok(Stmt::ExprStmt(e))
    }
}

/// The statements of a block up to and including its closing brace, after
/// the statements `acc` already parsed.
#[verifier::rlimit(100)]
fn parse_block_loop(p: &mut P, acc: Vec<Stmt>) -> (r: Result<Vec<Stmt>>)
    requires
        p_ready(old(p)),
    ensures
        final(p).toks == old(p).toks,
        match p_block_loop(pt(old(p)), old(p).pos as int, stmts_v(acc@)) {
            Ok((ss, q)) => r is Ok && stmts_v(r->Ok_0@) == ss && final(p).pos == q && old(p).pos < q
                < old(p).toks@.len(),
            Err(m) => r matches Err(Error::Parse(mm)) && mm@ == m,
        },
    decreases old(p).toks@.len() - old(p).pos, 8int,
{
    let ghost t = pt(p);
    if matches!(p.peek(), Tok::RBrace | Tok::Eof) {
        match p.eat(&Tok::RBrace) {
            Ok(()) => {},
            Err(e) => {
                return Err(e);
            },
        }
        proof {
            lemma_not_eof_next(t, p.pos - 1);
        }
        return Ok(acc);
    }
    let s = match parse_stmt(p) {
        Ok(s) => s,
        Err(e) => {
            return Err(e);
        },
    };
    let mut acc = acc;
    proof {
        lemma_stmts_push(acc@, s);
    }
    acc.push(s);
    parse_block_loop(p, acc)
}

fn parse_block(p: &mut P) -> (r: Result<Vec<Stmt>>)
    requires
        p_ready(old(p)),
    ensures
        final(p).toks == old(p).toks,
        match p_block(pt(old(p)), old(p).pos as int) {
            Ok((ss, q)) => r is Ok && stmts_v(r->Ok_0@) == ss && final(p).pos == q && old(p).pos < q
                < old(p).toks@.len(),
            Err(m) => r matches Err(Error::Parse(mm)) && mm@ == m,
        },
    decreases old(p).toks@.len() - old(p).pos, 9int,
{
    let ghost t = pt(p);
    let ghost pos0 = p.pos as int;
    match p.eat(&Tok::LBrace) {
        Ok(()) => {},
        Err(e) => {
            return Err(e);
        },
    }
    proof {
        lemma_not_eof_next(t, pos0);
    }
    let out: Vec<Stmt> = Vec::new();
    assert(stmts_v(out@) =~= Seq::<SStmt>::empty()) by {
        assert(out@ =~= Seq::<Stmt>::empty());
    }
    parse_block_loop(p, out)
}

#[verifier::rlimit(100)]
fn parse_fn(p: &mut P) -> (r: Result<Fn>)
    requires
        p_ready(old(p)),
    ensures
        final(p).toks == old(p).toks,
        match p_fn(pt(old(p)), old(p).pos as int) {
            Ok((f, q)) => r is Ok && fn_v(r->Ok_0) == f && final(p).pos == q && old(p).pos < q
                < old(p).toks@.len(),
            Err(m) => r matches Err(Error::Parse(mm)) && mm@ == m,
        },
    decreases old(p).toks@.len() - old(p).pos, 10int,
{
    let ghost t = pt(p);
    let ghost pos0 = p.pos as int;
    match p.eat(&Tok::Fn) {
        Ok(()) => {},
        Err(e) => {
            return Err(e);
        },
    }
    proof {
        lemma_not_eof_next(t, pos0);
    }
    let name = match p.eat_ident() {
        Ok(n) => n,
        Err(e) => {
            return Err(e);
        },
    };
    proof {
        lemma_not_eof_next(t, pos0 + 1);
    }
    match p.eat(&Tok::LParen) {
        Ok(()) => {},
        Err(e) => {
            return Err(e);
        },
    }
    proof {
        lemma_not_eof_next(t, pos0 + 2);
    }
    let mut params: Vec<String> = Vec::new();
    let ghost p3 = p.pos as int;
    assert(names_v(params@) =~= Seq::<Seq<char>>::empty());
    if !matches!(p.peek(), Tok::RParen) {
        loop
            invariant_except_break
                p_params(t, p3, Seq::empty()) == p_params(t, p.pos as int, names_v(params@)),
            invariant
                p.toks == old(p).toks,
                t == pt(p),
                t == pt(old(p)),
                p_ready(p),
                p3 <= p.pos,
                pos0 == old(p).pos,
                p3 == pos0 + 3,
                tok_at(t, pos0) is Fn,
                tok_at(t, pos0 + 1) == STok::Ident(name@),
                tok_at(t, pos0 + 2) is LParen,
                !(tok_at(t, p3) is RParen),
            ensures
                p_params(t, p3, Seq::empty()) == Ok::<(Seq<Seq<char>>, int), Seq<char>>(
                    (names_v(params@), p.pos as int),
                ),
            decreases p.toks@.len() - p.pos,
        {
            let ghost before = p.pos as int;
            let n = match p.eat_ident() {
                Ok(n) => n,
                Err(e) => {
                    return Err(e);
                },
            };
            proof {
                lemma_not_eof_next(t, before);
                assert(names_v(params@.push(n)) =~= names_v(params@).push(n@));
            }
            params.push(n);
            if matches!(p.peek(), Tok::Comma) {
                proof {
                    lemma_not_eof_next(t, p.pos as int);
                }
                p.bump();
            } else {
                break ;
            }
        }
    }
    match p.eat(&Tok::RParen) {
        Ok(()) => {},
        Err(e) => {
            return Err(e);
        },
    }
    proof {
        lemma_not_eof_next(t, p.pos - 1);
    }
    let body = match parse_block(p) {
        Ok(b) => b,
        Err(e) => {
            return Err(e);
        },
    };
    Ok(Fn { name, params, body })
}


/// Function definitions and top-level statements up to `Eof`, after the
/// ones already parsed.
#[verifier::rlimit(100)]
fn parse_top(p: &mut P, fns: Vec<Fn>, tops: Vec<Stmt>) -> (r: Result<(Vec<Fn>, Vec<Stmt>)>)
    requires
        p_ready(old(p)),
    ensures
        match p_top(pt(old(p)), old(p).pos as int, fns_v(fns@), stmts_v(tops@)) {
            Ok((fs, ss)) => r is Ok && fns_v(r->Ok_0.0@) == fs && stmts_v(r->Ok_0.1@) == ss,
            Err(m) => r matches Err(Error::Parse(mm)) && mm@ == m,
        },
    decreases old(p).toks@.len() - old(p).pos, 11int,
{
    if matches!(p.peek(), Tok::Eof) {
        return Ok((fns, tops));
    }
    if matches!(p.peek(), Tok::Fn) {
        let f = match parse_fn(p) {
            Ok(f) => f,
            Err(e) => {
                return Err(e);
            },
        };
        let mut fns = fns;
        proof {
            assert(fns_v(fns@.push(f)) =~= fns_v(fns@).push(fn_v(f)));
        }
        fns.push(f);
        parse_top(p, fns, tops)
    } else {
        let s = match parse_stmt(p) {
            Ok(s) => s,
            Err(e) => {
                return Err(e);
            },
        };
        let mut tops = tops;
        proof {
            lemma_stmts_push(tops@, s);
        }
        tops.push(s);
        parse_top(p, fns, tops)
    }
}

/// Whether a function named `main` is among `fns`.
fn has_main_b(fns: &Vec<Fn>) -> (b: bool)
    ensures
        b == has_main(fns_v(fns@)),
{
    let mut i: usize = 0;
    while i < fns.len()
        invariant
            0 <= i <= fns@.len(),
            forall|j: int| 0 <= j < i ==> fns@[j].name@ != "main"@,
        decreases fns@.len() - i,
    {
        if str_is(&fns[i].name, "main") {
            assert(fns_v(fns@)[i as int].name == "main"@);
            return true;
        }
        i += 1;
    }
    assert forall|j: int| 0 <= j < fns_v(fns@).len() implies #[trigger] fns_v(fns@)[j].name
        != "main"@ by {
        assert(fns_v(fns@)[j].name == fns@[j].name@);
    }
    false
}

/// Parse a token sequence (ending with `Eof`) into a program: the result is
/// `spec_parse` of the tokens, or a `Parse` error with its message.
pub fn parse(toks: &[Token]) -> (r: Result<Program>)
    requires
        wf_toks(toks_view(toks@)),
        toks@.len() < usize::MAX,
    ensures
        match spec_parse(toks_view(toks@)) {
            Ok(fs) => r is Ok && fns_v(r->Ok_0.fns@) == fs,
            Err(m) => r matches Err(Error::Parse(mm)) && mm@ == m,
        },
{
    let mut p = P { toks, pos: 0 };
    let fns0: Vec<Fn> = Vec::new();
    let tops0: Vec<Stmt> = Vec::new();
    assert(fns_v(fns0@) =~= Seq::<SFn>::empty());
    assert(stmts_v(tops0@) =~= Seq::<SStmt>::empty()) by {
        assert(tops0@ =~= Seq::<Stmt>::empty());
    }
    let (mut fns, mut top_stmts) = match parse_top(&mut p, fns0, tops0) {
        Ok(x) => x,
        Err(e) => {
            return Err(e);
        },
    };
    let has_main = has_main_b(&fns);
    if top_stmts.len() > 0 && !has_main {
        // the synthesized main returns 0 when control falls off the end.
        let ghost before = top_stmts@;
        top_stmts.push(Stmt::Return(Expr::Int(0)));
        proof {
            lemma_stmts_push(before, Stmt::Return(Expr::Int(0)));
        }
        let mainf = Fn { name: lit("main"), params: Vec::new(), body: top_stmts };
        proof {
            assert(names_v(mainf.params@) =~= Seq::<Seq<char>>::empty());
            assert(fns_v(fns@.push(mainf)) =~= fns_v(fns@).push(fn_v(mainf)));
        }
        fns.push(mainf);
        return Ok(Program { fns });
    } else if top_stmts.len() > 0 {
        return Err(Error::Parse(lit("top-level statements not allowed when main() is defined")));
    }
    if !has_main {
        return Err(Error::Parse(lit("no main function or top-level code")));
    }
    Ok(Program { fns })
}

/// The binding power of a binary-operator token (0 for any other token).
pub open spec fn bp_of(t: STok) -> int {
    match bin_info_s(t) {
        Some((b, _)) => b as int,
        None => 0,
    }
}

/// A comparison token and the operator it stands for.
pub open spec fn comparison(c: STok, o: BinOp) -> bool {
    ||| c == STok::Eq && o == BinOp::Eq
    ||| c == STok::Ne && o == BinOp::Ne
    ||| c == STok::Lt && o == BinOp::Lt
    ||| c == STok::Le && o == BinOp::Le
    ||| c == STok::Gt && o == BinOp::Gt
    ||| c == STok::Ge && o == BinOp::Ge
}

/// Operator precedence is C's: `||` binds loosest, then `&&`, then `==`
/// and `!=`, then `<`, `<=`, `>`, `>=`, then `+` and `-`, and `*`, `/` and
/// `%` tightest; every binary operator is left-associative at its level,
/// and each token stands for its own operator.
pub proof fn lemma_precedence_is_c_like(t: STok)
    ensures
        bin_info_s(STok::OrOr) matches Some((_, o)) && o == BinOp::Or,
        bin_info_s(STok::AndAnd) matches Some((_, o)) && o == BinOp::And,
        bin_info_s(STok::Plus) matches Some((_, o)) && o == BinOp::Add,
        bin_info_s(STok::Minus) matches Some((_, o)) && o == BinOp::Sub,
        bin_info_s(STok::Star) matches Some((_, o)) && o == BinOp::Mul,
        bin_info_s(STok::Slash) matches Some((_, o)) && o == BinOp::Div,
        bin_info_s(STok::Percent) matches Some((_, o)) && o == BinOp::Mod,
        forall|o: BinOp| comparison(t, o) ==> (bin_info_s(t) matches Some((_, o2)) && o2 == o),
        bp_of(STok::OrOr) < bp_of(STok::AndAnd),
        t != STok::OrOr && t != STok::AndAnd && bin_info_s(t) is Some ==> bp_of(STok::AndAnd)
            < bp_of(t),
        bp_of(STok::Eq) == bp_of(STok::Ne),
        bp_of(STok::Eq) < bp_of(STok::Lt),
        bp_of(STok::Lt) == bp_of(STok::Le),
        bp_of(STok::Lt) == bp_of(STok::Gt),
        bp_of(STok::Lt) == bp_of(STok::Ge),
        bp_of(STok::Lt) < bp_of(STok::Plus),
        bp_of(STok::Plus) == bp_of(STok::Minus),
        bp_of(STok::Plus) < bp_of(STok::Star),
        bp_of(STok::Star) == bp_of(STok::Slash),
        bp_of(STok::Star) == bp_of(STok::Percent),
{
}

/// `&&` binds looser than comparisons: `x c1 y && z c2 w`, for integer
/// literals and comparison operators `c1`, `c2`, followed by a token that
/// ends an expression, parses as `(x c1 y) && (z c2 w)`.
pub proof fn lemma_and_of_comparisons(
    t: Seq<SToken>,
    pos: int,
    x: i64,
    y: i64,
    z: i64,
    w: i64,
    c1: STok,
    o1: BinOp,
    c2: STok,
    o2: BinOp,
)
    requires
        0 <= pos,
        pos + 7 < t.len(),
        comparison(c1, o1),
        comparison(c2, o2),
        t[pos].tok == STok::Int(x),
        t[pos + 1].tok == c1,
        t[pos + 2].tok == STok::Int(y),
        t[pos + 3].tok == STok::AndAnd,
        t[pos + 4].tok == STok::Int(z),
        t[pos + 5].tok == c2,
        t[pos + 6].tok == STok::Int(w),
        t[pos + 7].tok is Semi || t[pos + 7].tok is RParen || t[pos + 7].tok is RBrace || t[pos
            + 7].tok is LBrace || t[pos + 7].tok is Comma || t[pos + 7].tok is Eof,
    ensures
        p_expr(t, pos) == Ok::<(SExpr, int), Seq<char>>(
            (
                SExpr::Bin(
                    BinOp::And,
                    Box::new(SExpr::Bin(o1, Box::new(SExpr::Int(x)), Box::new(SExpr::Int(y)), span_at(t, pos + 1))),
                    Box::new(SExpr::Bin(o2, Box::new(SExpr::Int(z)), Box::new(SExpr::Int(w)), span_at(t, pos + 5))),
                    span_at(t, pos + 3),
                ),
                pos + 7,
            ),
        ),
{
    let lb1 = bp_of(c1);
    let lb2 = bp_of(c2);
    let ix = SExpr::Int(x);
    let iy = SExpr::Int(y);
    let iz = SExpr::Int(z);
    let iw = SExpr::Int(w);
    let l = SExpr::Bin(o1, Box::new(ix), Box::new(iy), span_at(t, pos + 1));
    let r = SExpr::Bin(o2, Box::new(iz), Box::new(iw), span_at(t, pos + 5));
    let e = SExpr::Bin(BinOp::And, Box::new(l), Box::new(r), span_at(t, pos + 3));
    assert(bin_info_s(c1) == Some((lb1 as u8, o1)) && 3 <= lb1);
    assert(bin_info_s(c2) == Some((lb2 as u8, o2)) && 3 <= lb2);
    assert(bin_info_s(tok_at(t, pos + 7)) is None);
    assert(tok_at(t, pos) == STok::Int(x));
    assert(p_atom(t, pos) == Ok::<(SExpr, int), Seq<char>>((ix, pos + 1)));
    assert(p_unary(t, pos) == Ok::<(SExpr, int), Seq<char>>((ix, pos + 1)));
    assert(tok_at(t, pos + 2) == STok::Int(y));
    assert(p_atom(t, pos + 2) == Ok::<(SExpr, int), Seq<char>>((iy, pos + 3)));
    assert(p_unary(t, pos + 2) == Ok::<(SExpr, int), Seq<char>>((iy, pos + 3)));
    assert(tok_at(t, pos + 4) == STok::Int(z));
    assert(p_atom(t, pos + 4) == Ok::<(SExpr, int), Seq<char>>((iz, pos + 5)));
    assert(p_unary(t, pos + 4) == Ok::<(SExpr, int), Seq<char>>((iz, pos + 5)));
    assert(tok_at(t, pos + 6) == STok::Int(w));
    assert(p_atom(t, pos + 6) == Ok::<(SExpr, int), Seq<char>>((iw, pos + 7)));
    assert(p_unary(t, pos + 6) == Ok::<(SExpr, int), Seq<char>>((iw, pos + 7)));
    assert(p_prec_loop(t, pos + 3, lb1 + 1, iy) == Ok::<(SExpr, int), Seq<char>>((iy, pos + 3)));
    assert(p_prec(t, pos + 2, lb1 + 1) == Ok::<(SExpr, int), Seq<char>>((iy, pos + 3)));
    assert(p_prec_loop(t, pos + 7, lb2 + 1, iw) == Ok::<(SExpr, int), Seq<char>>((iw, pos + 7)));
    assert(p_prec(t, pos + 6, lb2 + 1) == Ok::<(SExpr, int), Seq<char>>((iw, pos + 7)));
    assert(p_prec_loop(t, pos + 7, 3, r) == Ok::<(SExpr, int), Seq<char>>((r, pos + 7)));
    assert(p_prec_loop(t, pos + 5, 3, iz) == Ok::<(SExpr, int), Seq<char>>((r, pos + 7)));
    assert(p_prec(t, pos + 4, 3) == Ok::<(SExpr, int), Seq<char>>((r, pos + 7)));
    assert(p_prec_loop(t, pos + 7, 0, e) == Ok::<(SExpr, int), Seq<char>>((e, pos + 7)));
    assert(p_prec_loop(t, pos + 3, 0, l) == Ok::<(SExpr, int), Seq<char>>((e, pos + 7)));
    assert(p_prec_loop(t, pos + 1, 0, ix) == Ok::<(SExpr, int), Seq<char>>((e, pos + 7)));
    assert(p_prec(t, pos, 0) == Ok::<(SExpr, int), Seq<char>>((e, pos + 7)));
}

} // verus!
