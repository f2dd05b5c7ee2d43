//! Hand-written lexer: source text to a flat `Vec<Token>` with line and
//! column of each token's first byte.

use crate::text::{
    all_ascii, ascii_chars, ascii_string, char_debug, concat, concat_lit, dec_int, dec_nat, digit_char, fmt_i64, lit,
    spec_char_debug, spec_utf8_lossy, utf8_lossy,
};
use crate::{Error, Result};
use vstd::prelude::*;
use vstd::utf8::*;
use vstd::string::StringSliceAdditionalSpecFns;

verus! {

/// The text of a string literal whose escapes decode to `body`: the
/// characters that `body` encodes in UTF-8, or what
/// `String::from_utf8_lossy` makes of it when it is not valid UTF-8.
pub open spec fn lit_text(body: Seq<u8>) -> Seq<char> {
    if valid_utf8(body) {
        decode_utf8(body)
    } else {
        spec_utf8_lossy(body)
    }
}

/// Token kinds.
#[derive(Debug, Clone, PartialEq)]
pub enum Tok {
    Int(i64),
    Ident(String),
    StrLit(String),
    Fn,
    Let,
    If,
    Else,
    While,
    Return,
    LParen,
    RParen,
    LBrace,
    RBrace,
    Comma,
    Semi,
    Plus,
    Minus,
    Star,
    Slash,
    Percent,
    Assign,
    Eq,
    Ne,
    Lt,
    Le,
    Gt,
    Ge,
    AndAnd,
    OrOr,
    Bang,
    Eof,
}

/// The mathematical form of a token kind: names and string literals are
/// character sequences.
pub enum STok {
    Int(i64),
    Ident(Seq<char>),
    StrLit(Seq<char>),
    Fn,
    Let,
    If,
    Else,
    While,
    Return,
    LParen,
    RParen,
    LBrace,
    RBrace,
    Comma,
    Semi,
    Plus,
    Minus,
    Star,
    Slash,
    Percent,
    Assign,
    Eq,
    Ne,
    Lt,
    Le,
    Gt,
    Ge,
    AndAnd,
    OrOr,
    Bang,
    Eof,
}

impl View for Tok {
    type V = STok;

    open spec fn view(&self) -> STok {
        match self {
            Tok::Int(v) => STok::Int(*v),
            Tok::Ident(s) => STok::Ident(s@),
            Tok::StrLit(s) => STok::StrLit(s@),
            Tok::Fn => STok::Fn,
            Tok::Let => STok::Let,
            Tok::If => STok::If,
            Tok::Else => STok::Else,
            Tok::While => STok::While,
            Tok::Return => STok::Return,
            Tok::LParen => STok::LParen,
            Tok::RParen => STok::RParen,
            Tok::LBrace => STok::LBrace,
            Tok::RBrace => STok::RBrace,
            Tok::Comma => STok::Comma,
            Tok::Semi => STok::Semi,
            Tok::Plus => STok::Plus,
            Tok::Minus => STok::Minus,
            Tok::Star => STok::Star,
            Tok::Slash => STok::Slash,
            Tok::Percent => STok::Percent,
            Tok::Assign => STok::Assign,
            Tok::Eq => STok::Eq,
            Tok::Ne => STok::Ne,
            Tok::Lt => STok::Lt,
            Tok::Le => STok::Le,
            Tok::Gt => STok::Gt,
            Tok::Ge => STok::Ge,
            Tok::AndAnd => STok::AndAnd,
            Tok::OrOr => STok::OrOr,
            Tok::Bang => STok::Bang,
            Tok::Eof => STok::Eof,
        }
    }
}

/// A token with the line and column (both from 1) of its first byte.
#[derive(Debug, Clone)]
pub struct Token {
    pub tok: Tok,
    pub line: u32,
    pub col: u32,
}

pub struct SToken {
    pub tok: STok,
    pub line: int,
    pub col: int,
}

impl View for Token {
    type V = SToken;

    open spec fn view(&self) -> SToken {
        SToken { tok: self.tok@, line: self.line as int, col: self.col as int }
    }
}

/// The view of each token of a sequence.
pub open spec fn toks_view(ts: Seq<Token>) -> Seq<SToken> {
    ts.map_values(|t: Token| t@)
}

/// Why lexing stops.
pub enum LexErr {
    /// An integer literal that does not fit in i64, at its line and column.
    Overflow(int, int),
    /// A byte that starts no token.
    Unexpected(u8, int, int),
    /// A string literal without its closing quote on the same line.
    Unterminated(int, int),
}

pub open spec fn is_digit(c: u8) -> bool {
    48 <= c <= 57
}

pub open spec fn is_alpha(c: u8) -> bool {
    (65 <= c <= 90) || (97 <= c <= 122)
}

pub open spec fn is_ident_start(c: u8) -> bool {
    is_alpha(c) || c == 95
}

pub open spec fn is_ident_char(c: u8) -> bool {
    is_ident_start(c) || is_digit(c)
}

/// Number of digit bytes starting at `i`.
pub open spec fn digit_run(b: Seq<u8>, i: int) -> nat
    decreases b.len() - i,
{
    if 0 <= i < b.len() && is_digit(b[i]) {
        1 + digit_run(b, i + 1)
    } else {
        0
    }
}

/// Number of identifier bytes starting at `i`.
pub open spec fn ident_run(b: Seq<u8>, i: int) -> nat
    decreases b.len() - i,
{
    if 0 <= i < b.len() && is_ident_char(b[i]) {
        1 + ident_run(b, i + 1)
    } else {
        0
    }
}

/// Number of bytes before the next newline, starting at `i`.
pub open spec fn line_run(b: Seq<u8>, i: int) -> nat
    decreases b.len() - i,
{
    if 0 <= i < b.len() && b[i] != 10 {
        1 + line_run(b, i + 1)
    } else {
        0
    }
}

/// The byte an escape `\e` stands for: `n`, `t`, `\\` and `"` escape; any
/// other byte does not.
pub open spec fn unescape(e: u8) -> Option<u8> {
    if e == 110 {
        Some(10u8)
    } else if e == 116 {
        Some(9u8)
    } else if e == 92 {
        Some(92u8)
    } else if e == 34 {
        Some(34u8)
    } else {
        None
    }
}

/// The body of a string literal from `i` on, escapes decoded, appended to
/// `acc`, and the index of the byte that ends it: the closing quote, a
/// newline, or the end of the input.
pub open spec fn str_scan(b: Seq<u8>, i: int, acc: Seq<u8>) -> (Seq<u8>, int)
    decreases b.len() - i,
{
    if i < 0 || i >= b.len() || b[i] == 10 || b[i] == 34 {
        (acc, i)
    } else if b[i] == 92 && i + 1 < b.len() && unescape(b[i + 1]) is Some {
        str_scan(b, i + 2, acc.push(unescape(b[i + 1])->0))
    } else {
        str_scan(b, i + 1, acc.push(b[i]))
    }
}

/// The value of a sequence of decimal digit bytes.
pub open spec fn digits_value(s: Seq<u8>) -> int
    decreases s.len(),
{
    if s.len() == 0 {
        0
    } else {
        digits_value(s.drop_last()) * 10 + (s.last() - 48)
    }
}

/// Keywords, or else an identifier.
pub open spec fn word_tok(w: Seq<u8>) -> STok {
    if w == seq![102u8, 110u8] {
        STok::Fn
    } else if w == seq![108u8, 101u8, 116u8] {
        STok::Let
    } else if w == seq![105u8, 102u8] {
        STok::If
    } else if w == seq![101u8, 108u8, 115u8, 101u8] {
        STok::Else
    } else if w == seq![119u8, 104u8, 105u8, 108u8, 101u8] {
        STok::While
    } else if w == seq![114u8, 101u8, 116u8, 117u8, 114u8, 110u8] {
        STok::Return
    } else {
        STok::Ident(ascii_chars(w))
    }
}

/// Two-byte operators.
pub open spec fn two_tok(c: u8, d: u8) -> Option<STok> {
    if c == 61 && d == 61 {
        Some(STok::Eq)
    } else if c == 33 && d == 61 {
        Some(STok::Ne)
    } else if c == 60 && d == 61 {
        Some(STok::Le)
    } else if c == 62 && d == 61 {
        Some(STok::Ge)
    } else if c == 38 && d == 38 {
        Some(STok::AndAnd)
    } else if c == 124 && d == 124 {
        Some(STok::OrOr)
    } else {
        None
    }
}

/// One-byte punctuation and operators.
pub open spec fn one_tok(c: u8) -> Option<STok> {
    if c == 40 {
        Some(STok::LParen)
    } else if c == 41 {
        Some(STok::RParen)
    } else if c == 123 {
        Some(STok::LBrace)
    } else if c == 125 {
        Some(STok::RBrace)
    } else if c == 44 {
        Some(STok::Comma)
    } else if c == 59 {
        Some(STok::Semi)
    } else if c == 43 {
        Some(STok::Plus)
    } else if c == 45 {
        Some(STok::Minus)
    } else if c == 42 {
        Some(STok::Star)
    } else if c == 47 {
        Some(STok::Slash)
    } else if c == 37 {
        Some(STok::Percent)
    } else if c == 61 {
        Some(STok::Assign)
    } else if c == 60 {
        Some(STok::Lt)
    } else if c == 62 {
        Some(STok::Gt)
    } else if c == 33 {
        Some(STok::Bang)
    } else {
        None
    }
}

pub open spec fn tk(t: STok, line: int, col: int) -> SToken {
    SToken { tok: t, line, col }
}

/// One step of the lexer at byte `i`: skip bytes, emit a token, or fail.
pub enum Step {
    /// Continue at byte `.0` with line `.1` and column `.2`.
    Skip(int, int, int),
    /// Emit a token at the current position, then continue as for `Skip`.
    Emit(STok, int, int, int),
    /// Stop with an error.
    Fail(LexErr),
}

/// The lexer's decision at byte `i` (`0 <= i < b.len()`).
pub open spec fn lex_step(b: Seq<u8>, i: int, line: int, col: int) -> Step {
    let c = b[i];
    if c == 32 || c == 9 || c == 13 {
        Step::Skip(i + 1, line, col + 1)
    } else if c == 10 {
        Step::Skip(i + 1, line + 1, 1)
    } else if c == 47 && i + 1 < b.len() && b[i + 1] == 47 {
        Step::Skip(i + 2 + line_run(b, i + 2), line, col)
    } else if is_digit(c) {
        let n = 1 + digit_run(b, i + 1);
        let v = digits_value(b.subrange(i, i + n));
        if v > i64::MAX {
            Step::Fail(LexErr::Overflow(line, col))
        } else {
            Step::Emit(STok::Int(v as i64), i + n, line, col + n)
        }
    } else if is_ident_start(c) {
        let n = 1 + ident_run(b, i + 1);
        Step::Emit(word_tok(b.subrange(i, i + n)), i + n, line, col + n)
    } else if c == 34 {
        let (body, k) = str_scan(b, i + 1, Seq::empty());
        if i < k < b.len() && b[k] == 34 {
            Step::Emit(STok::StrLit(lit_text(body)), k + 1, line, col + (k + 1 - i))
        } else {
            Step::Fail(LexErr::Unterminated(line, col))
        }
    } else if i + 1 < b.len() && two_tok(c, b[i + 1]) is Some {
        Step::Emit(two_tok(c, b[i + 1])->0, i + 2, line, col + 2)
    } else if one_tok(c) is Some {
        Step::Emit(one_tok(c)->0, i + 1, line, col + 1)
    } else {
        Step::Fail(LexErr::Unexpected(c, line, col))
    }
}

/// Lexing from byte `i` at position (`line`, `col`), with the tokens `acc`
/// already produced.
pub open spec fn lex_from(b: Seq<u8>, i: int, line: int, col: int, acc: Seq<SToken>) -> std::result::Result<Seq<SToken>, LexErr>
    decreases b.len() - i,
{
    if i < 0 || i >= b.len() {
        Ok(acc.push(tk(STok::Eof, line, col)))
    } else {
        match lex_step(b, i, line, col) {
            Step::Skip(j, l, c) => if i < j <= b.len() {
                lex_from(b, j, l, c, acc)
            } else {
                Ok(acc)
            },
            Step::Emit(t, j, l, c) => if i < j <= b.len() {
                lex_from(b, j, l, c, acc.push(tk(t, line, col)))
            } else {
                Ok(acc)
            },
            Step::Fail(e) => Err(e),
        }
    }
}

/// The tokens of a byte sequence, ending with `Eof`.
pub open spec fn spec_tokenize(b: Seq<u8>) -> std::result::Result<Seq<SToken>, LexErr> {
    lex_from(b, 0, 1, 1, seq![])
}

/// " at {line}:{col}".
pub open spec fn at_pos(line: int, col: int) -> Seq<char> {
    " at "@ + dec_int(line) + ":"@ + dec_int(col)
}

/// The message of a lexing error.
pub open spec fn lex_err_msg(e: LexErr) -> Seq<char> {
    match e {
        LexErr::Overflow(l, c) => "int literal overflows i64"@ + at_pos(l, c),
        LexErr::Unexpected(ch, l, c) => "unexpected char "@ + spec_char_debug(ch as char) + at_pos(
            l,
            c,
        ),
        LexErr::Unterminated(l, c) => "unterminated string literal"@ + at_pos(l, c),
    }
}

/// The spans of `toks_view(v)` followed by `t`.
proof fn lemma_push_view(v: Seq<Token>, t: Token)
    ensures
        toks_view(v.push(t)) == toks_view(v).push(t@),
{
    assert(toks_view(v.push(t)) =~= toks_view(v).push(t@));
}

/// A prefix of a digit string is worth no more than the whole string.
proof fn lemma_digits_mono(s: Seq<u8>, k: int)
    requires
        0 <= k <= s.len(),
        forall|j: int| 0 <= j < s.len() ==> is_digit(#[trigger] s[j]),
    ensures
        0 <= digits_value(s.take(k)) <= digits_value(s),
    decreases s.len(),
{
    if s.len() > 0 {
        lemma_digits_mono(s.drop_last(), if k == s.len() { k - 1 } else { k });
        if k < s.len() {
            assert(s.take(k) =~= s.drop_last().take(k));
        } else {
            assert(s.take(k) =~= s);
        }
    }
}

proof fn lemma_run_facts(b: Seq<u8>, i: int)
    requires
        0 <= i <= b.len(),
    ensures
        i + digit_run(b, i) <= b.len(),
        i + ident_run(b, i) <= b.len(),
        i + line_run(b, i) <= b.len(),
    decreases b.len() - i,
{
    if i < b.len() {
        lemma_run_facts(b, i + 1);
    }
}

proof fn lemma_digit_run_all(b: Seq<u8>, i: int, j: int)
    requires
        0 <= i <= j < i + digit_run(b, i),
    ensures
        is_digit(b[j]),
    decreases j - i,
{
    if j > i {
        lemma_digit_run_all(b, i + 1, j);
    }
}

fn is_digit_b(c: u8) -> (r: bool)
    ensures
        r == is_digit(c),
{
    48 <= c && c <= 57
}

fn is_ident_start_b(c: u8) -> (r: bool)
    ensures
        r == is_ident_start(c),
{
    (65 <= c && c <= 90) || (97 <= c && c <= 122) || c == 95
}

fn is_ident_char_b(c: u8) -> (r: bool)
    ensures
        r == is_ident_char(c),
{
    is_ident_start_b(c) || is_digit_b(c)
}

fn two_tok_b(c: u8, d: u8) -> (r: Option<Tok>)
    ensures
        two_tok(c, d) is Some <==> r is Some,
        r is Some ==> r->0@ == two_tok(c, d)->0,
{
    if c == 61 && d == 61 {
        Some(Tok::Eq)
    } else if c == 33 && d == 61 {
        Some(Tok::Ne)
    } else if c == 60 && d == 61 {
        Some(Tok::Le)
    } else if c == 62 && d == 61 {
        Some(Tok::Ge)
    } else if c == 38 && d == 38 {
        Some(Tok::AndAnd)
    } else if c == 124 && d == 124 {
        Some(Tok::OrOr)
    } else {
        None
    }
}

fn one_tok_b(c: u8) -> (r: Option<Tok>)
    ensures
        one_tok(c) is Some <==> r is Some,
        r is Some ==> r->0@ == one_tok(c)->0,
{
    if c == 40 {
        Some(Tok::LParen)
    } else if c == 41 {
        Some(Tok::RParen)
    } else if c == 123 {
        Some(Tok::LBrace)
    } else if c == 125 {
        Some(Tok::RBrace)
    } else if c == 44 {
        Some(Tok::Comma)
    } else if c == 59 {
        Some(Tok::Semi)
    } else if c == 43 {
        Some(Tok::Plus)
    } else if c == 45 {
        Some(Tok::Minus)
    } else if c == 42 {
        Some(Tok::Star)
    } else if c == 47 {
        Some(Tok::Slash)
    } else if c == 37 {
        Some(Tok::Percent)
    } else if c == 61 {
        Some(Tok::Assign)
    } else if c == 60 {
        Some(Tok::Lt)
    } else if c == 62 {
        Some(Tok::Gt)
    } else if c == 33 {
        Some(Tok::Bang)
    } else {
        None
    }
}

/// The token for an identifier-shaped word.
fn word_tok_b(w: &[u8]) -> (t: Tok)
    requires
        forall|j: int| 0 <= j < w@.len() ==> is_ident_char(#[trigger] w@[j]),
    ensures
        t@ == word_tok(w@),
{
    let n = w.len();
    if n == 2 && w[0] == 102 && w[1] == 110 {
        assert(w@ =~= seq![102u8, 110u8]);
        Tok::Fn
    } else if n == 3 && w[0] == 108 && w[1] == 101 && w[2] == 116 {
        assert(w@ =~= seq![108u8, 101u8, 116u8]);
        Tok::Let
    } else if n == 2 && w[0] == 105 && w[1] == 102 {
        assert(w@ =~= seq![105u8, 102u8]);
        Tok::If
    } else if n == 4 && w[0] == 101 && w[1] == 108 && w[2] == 115 && w[3] == 101 {
        assert(w@ =~= seq![101u8, 108u8, 115u8, 101u8]);
        Tok::Else
    } else if n == 5 && w[0] == 119 && w[1] == 104 && w[2] == 105 && w[3] == 108 && w[4] == 101 {
        assert(w@ =~= seq![119u8, 104u8, 105u8, 108u8, 101u8]);
        Tok::While
    } else if n == 6 && w[0] == 114 && w[1] == 101 && w[2] == 116 && w[3] == 117 && w[4] == 114
        && w[5] == 110 {
        assert(w@ =~= seq![114u8, 101u8, 116u8, 117u8, 114u8, 110u8]);
        Tok::Return
    } else {
        assert(all_ascii(w@)) by {
            assert forall|j: int| 0 <= j < w@.len() implies #[trigger] w@[j] < 128 by {
                assert(is_ident_char(w@[j]));
            }
        }
        Tok::Ident(ascii_string(w))
    }
}

/// "{prefix} at {line}:{col}".
fn pos_msg(prefix: String, line: u32, col: u32) -> (m: String)
    ensures
        m@ == prefix@ + at_pos(line as int, col as int),
{
    let m = concat_lit(prefix, " at ");
    let m = concat(m, &fmt_i64(line as i64));
    let m = concat_lit(m, ":");
    let m = concat(m, &fmt_i64(col as i64));
    proof {
        assert(m@ =~= prefix@ + at_pos(line as int, col as int));
    }
    m
}

fn push(v: &mut Vec<Token>, tok: Tok, line: u32, col: u32)
    ensures
        final(v)@ == old(v)@.push(Token { tok, line, col }),
{
    v.push(Token { tok, line, col });
}

/// The exec form of a lexer step.
enum XStep {
    Skip(usize, u32, u32),
    Emit(Tok, usize, u32, u32),
    Fail(Error),
}

spec fn xstep_matches(x: XStep, s: Step) -> bool {
    match (x, s) {
        (XStep::Skip(j, l, c), Step::Skip(j2, l2, c2)) => j == j2 && l == l2 && c == c2,
        (XStep::Emit(t, j, l, c), Step::Emit(t2, j2, l2, c2)) => t@ == t2 && j == j2 && l == l2
            && c == c2,
        (XStep::Fail(Error::Parse(m)), Step::Fail(e)) => m@ == lex_err_msg(e),
        _ => false,
    }
}

/// Every step moves forward and keeps line and column within the bytes seen.
spec fn xstep_bounds(x: XStep, i: int, len: int) -> bool {
    match x {
        XStep::Skip(j, l, c) => i < j <= len && 1 <= l <= j + 1 && 1 <= c <= j + 1,
        XStep::Emit(_, j, l, c) => i < j <= len && 1 <= l <= j + 1 && 1 <= c <= j + 1,
        XStep::Fail(_) => true,
    }
}

proof fn lemma_run_all(b: Seq<u8>, i: int, j: int)
    requires
        0 <= i <= j < i + digit_run(b, i) || 0 <= i <= j < i + ident_run(b, i),
    ensures
        j < i + digit_run(b, i) ==> is_digit(b[j]),
        j < i + ident_run(b, i) ==> is_ident_char(b[j]),
    decreases j - i,
{
    if j > i {
        lemma_run_all(b, i + 1, j);
    }
}

/// The end of the line that starts at `i` (the position of the newline, or
/// the end of the input).
fn scan_line(bytes: &[u8], i: usize) -> (j: usize)
    requires
        i <= bytes@.len(),
    ensures
        j == i + line_run(bytes@, i as int),
{
    let len = bytes.len();
    let ghost target = i + line_run(bytes@, i as int);
    proof {
        lemma_run_facts(bytes@, i as int);
    }
    let mut j = i;
    while j < len && bytes[j] != 10
        invariant
            len == bytes@.len(),
            i <= j <= len,
            j + line_run(bytes@, j as int) == target,
        decreases len - j,
    {
        j += 1;
    }
    j
}

/// The end of the identifier bytes that start at `i`.
fn scan_ident(bytes: &[u8], i: usize) -> (j: usize)
    requires
        i <= bytes@.len(),
    ensures
        j == i + ident_run(bytes@, i as int),
        j <= bytes@.len(),
{
    let len = bytes.len();
    let ghost target = i + ident_run(bytes@, i as int);
    proof {
        lemma_run_facts(bytes@, i as int);
    }
    let mut j = i;
    while j < len && is_ident_char_b(bytes[j])
        invariant
            len == bytes@.len(),
            i <= j <= len,
            j + ident_run(bytes@, j as int) == target,
        decreases len - j,
    {
        j += 1;
    }
    j
}

/// The string-literal body that starts at `i`, escapes decoded, and the
/// index of the byte that ends it.
fn scan_str(bytes: &[u8], i: usize) -> (r: (Vec<u8>, usize))
    requires
        1 <= i <= bytes@.len(),
    ensures
        (r.0@, r.1 as int) == str_scan(bytes@, i as int, Seq::empty()),
        i <= r.1 <= bytes@.len(),
{
    let len = bytes.len();
    let mut body: Vec<u8> = Vec::new();
    let mut j = i;
    while j < len && bytes[j] != 34 && bytes[j] != 10
        invariant
            len == bytes@.len(),
            i <= j <= len,
            str_scan(bytes@, j as int, body@) == str_scan(bytes@, i as int, Seq::empty()),
        decreases len - j,
    {
        if bytes[j] == 92 && j + 1 < len {
            let e = bytes[j + 1];
            let d: u8 = if e == 110 {
                10
            } else if e == 116 {
                9
            } else if e == 92 || e == 34 {
                e
            } else {
                0
            };
            if e == 110 || e == 116 || e == 92 || e == 34 {
                body.push(d);
                j += 2;
                continue;
            }
        }
        body.push(bytes[j]);
        j += 1;
    }
    (body, j)
}

/// The value of the digit run that starts at `i` (a digit), or `None` when
/// it exceeds `i64::MAX`.
fn lex_number(bytes: &[u8], i: usize) -> (r: (Option<i64>, usize))
    requires
        i < bytes@.len(),
        is_digit(bytes@[i as int]),
    ensures
        r.1 == i + 1 + digit_run(bytes@, i + 1),
        r.1 <= bytes@.len(),
        ({
            let v = digits_value(bytes@.subrange(i as int, r.1 as int));
            match r.0 {
                Some(x) => v <= i64::MAX && x == v,
                None => v > i64::MAX,
            }
        }),
{
    let len = bytes.len();
    let ghost b = bytes@;
    let ghost n = 1 + digit_run(b, i + 1);
    proof {
        lemma_run_facts(b, i + 1);
        assert(digit_run(b, i as int) == n);
    }
    let mut j = i;
    let mut v: i64 = 0;
    assert(b.subrange(i as int, i as int) =~= Seq::<u8>::empty());
    while j < len && is_digit_b(bytes[j])
        invariant
            b == bytes@,
            len == b.len(),
            i <= j <= len,
            i + n == j + digit_run(b, j as int),
            i + n <= len,
            n == digit_run(b, i as int),
            forall|k: int| i <= k < j ==> is_digit(#[trigger] b[k]),
            v == digits_value(b.subrange(i as int, j as int)),
            v >= 0,
        decreases len - j,
    {
        let d = bytes[j] - 48;
        assert(b.subrange(i as int, j + 1) =~= b.subrange(i as int, j as int).push(b[j as int]));
        assert(b.subrange(i as int, j + 1).drop_last() =~= b.subrange(i as int, j as int));
        let next = match v.checked_mul(10) {
            Some(x) => x.checked_add(d as i64),
            None => None,
        };
        match next {
            Some(y) => {
                v = y;
            },
            None => {
                proof {
                    let s = b.subrange(i as int, i + n);
                    assert forall|k: int| 0 <= k < s.len() implies is_digit(#[trigger] s[k]) by {
                        lemma_run_all(b, i as int, i + k);
                        assert(s[k] == b[i + k]);
                    }
                    lemma_digits_mono(s, j + 1 - i);
                    assert(s.take(j + 1 - i) =~= b.subrange(i as int, j + 1));
                    assert(j + 1 <= i + n);
                    lemma_run_facts(b, j as int);
                }
                return (None, i + 1 + scan_digits_rest(bytes, i + 1));
            },
        }
        j += 1;
    }
    (Some(v), j)
}

/// Number of digits from `i` on.
fn scan_digits_rest(bytes: &[u8], i: usize) -> (n: usize)
    requires
        i <= bytes@.len(),
    ensures
        n == digit_run(bytes@, i as int),
        i + n <= bytes@.len(),
{
    let len = bytes.len();
    let ghost target = i + digit_run(bytes@, i as int);
    proof {
        lemma_run_facts(bytes@, i as int);
    }
    let mut j = i;
    while j < len && is_digit_b(bytes[j])
        invariant
            len == bytes@.len(),
            i <= j <= len,
            j + digit_run(bytes@, j as int) == target,
        decreases len - j,
    {
        j += 1;
    }
    j - i
}

/// One lexer step at byte `i`.
fn step(bytes: &[u8], i: usize, line: u32, col: u32) -> (x: XStep)
    requires
        i < bytes@.len(),
        bytes@.len() < u32::MAX - 1,
        1 <= line <= i + 1,
        1 <= col <= i + 1,
    ensures
        xstep_matches(x, lex_step(bytes@, i as int, line as int, col as int)),
        xstep_bounds(x, i as int, bytes@.len() as int),
{
    let len = bytes.len();
    let ghost b = bytes@;
    let c = bytes[i];
    proof {
        lemma_run_facts(b, i as int);
        lemma_run_facts(b, i + 1);
    }
    if c == 32 || c == 9 || c == 13 {
        return XStep::Skip(i + 1, line, col + 1);
    }
    if c == 10 {
        return XStep::Skip(i + 1, line + 1, 1);
    }
    if c == 47 && i + 1 < len && bytes[i + 1] == 47 {
        let j = scan_line(bytes, i + 2);
        proof {
            lemma_run_facts(b, i + 2);
        }
        return XStep::Skip(j, line, col);
    }
    if is_digit_b(c) {
        let (v, j) = lex_number(bytes, i);
        match v {
            Some(v) => {
                return XStep::Emit(Tok::Int(v), j, line, col + ((j - i) as u32));
            },
            None => {
                let m = pos_msg(lit("int literal overflows i64"), line, col);
                return XStep::Fail(Error::Parse(m));
            },
        }
    }
    if is_ident_start_b(c) {
        let j = scan_ident(bytes, i + 1);
        let w = vstd::slice::slice_subrange(bytes, i, j);
        proof {
            assert forall|k: int| 0 <= k < w@.len() implies is_ident_char(#[trigger] w@[k]) by {
                if k > 0 {
                    lemma_run_all(b, i + 1, i + k);
                }
                assert(w@[k] == b[i + k]);
            }
        }
        let tok = word_tok_b(w);
        return XStep::Emit(tok, j, line, col + ((j - i) as u32));
    }
    if c == 34 {
        let (body, k) = scan_str(bytes, i + 1);
        if k < len && bytes[k] == 34 {
            let s = utf8_lossy(body.as_slice());
            return XStep::Emit(Tok::StrLit(s), k + 1, line, col + ((k + 1 - i) as u32));
        } else {
            let m = pos_msg(lit("unterminated string literal"), line, col);
            return XStep::Fail(Error::Parse(m));
        }
    }
    if i + 1 < len {
        match two_tok_b(c, bytes[i + 1]) {
            Some(tok) => {
                return XStep::Emit(tok, i + 2, line, col + 2);
            },
            None => {},
        }
    }
    match one_tok_b(c) {
        Some(tok) => XStep::Emit(tok, i + 1, line, col + 1),
        None => {
            let m = concat(lit("unexpected char "), &char_debug(c as char));
            let m = pos_msg(m, line, col);
            proof {
                assert(m@ =~= lex_err_msg(LexErr::Unexpected(c, line as int, col as int)));
            }
            XStep::Fail(Error::Parse(m))
        },
    }
}

/// Split a source text into tokens. The last token is `Eof`, at the
/// position just past the input.
///
/// The result is `spec_tokenize` of the text's UTF-8 bytes: the tokens on
/// success, and on failure a `Parse` error whose message names the first
/// problem and its line and column.
pub fn tokenize(src: &str) -> (r: Result<Vec<Token>>)
    requires
        src.spec_bytes().len() < u32::MAX - 1,
    ensures
        match spec_tokenize(src.spec_bytes()) {
            Ok(ts) => r is Ok && toks_view(r->Ok_0@) == ts,
            Err(e) => r matches Err(Error::Parse(m)) && m@ == lex_err_msg(e),
        },
{
    let mut out: Vec<Token> = Vec::new();
    let bytes = src.as_bytes();
    let len = bytes.len();
    let ghost b = bytes@;
    let mut i: usize = 0;
    let mut line: u32 = 1;
    let mut col: u32 = 1;
    assert(toks_view(out@) =~= Seq::<SToken>::empty());
    while i < len
        invariant
            b == bytes@,
            b == src.spec_bytes(),
            len == b.len(),
            len < u32::MAX - 1,
            0 <= i <= len,
            1 <= line <= i + 1,
            1 <= col <= i + 1,
            spec_tokenize(b) == lex_from(b, i as int, line as int, col as int, toks_view(out@)),
        decreases len - i,
    {
        match step(bytes, i, line, col) {
            XStep::Skip(j, l, c) => {
                i = j;
                line = l;
                col = c;
            },
            XStep::Emit(tok, j, l, c) => {
                proof {
                    lemma_push_view(out@, Token { tok, line, col });
                }
                push(&mut out, tok, line, col);
                i = j;
                line = l;
                col = c;
            },
            XStep::Fail(e) => {
                return Err(e);
            },
        }
    }
    proof {
        lemma_push_view(out@, Token { tok: Tok::Eof, line, col });
    }
    push(&mut out, Tok::Eof, line, col);
    Ok(out)
}

/// An identifier or keyword starts at a letter or `_` and takes the
/// longest run of ASCII letters, digits and `_` from there: every byte of
/// the word is one of those, and the byte after it, if any, is not.
pub proof fn lemma_word_is_maximal(b: Seq<u8>, i: int, line: int, col: int)
    requires
        0 <= i < b.len(),
        (0x41 <= b[i] <= 0x5A) || (0x61 <= b[i] <= 0x7A) || b[i] == 0x5F,
    ensures
        lex_step(b, i, line, col) matches Step::Emit(tok, j, l2, c2) && i < j <= b.len() && tok == word_tok(
            b.subrange(i, j),
        ) && l2 == line && c2 == col + (j - i),
        lex_step(b, i, line, col) matches Step::Emit(_, j, _, _) && (forall|k: int|
            i <= k < j ==> (0x30 <= #[trigger] b[k] <= 0x39) || (0x41 <= b[k] <= 0x5A) || (0x61 <= b[k]
                <= 0x7A) || b[k] == 0x5F) && (j < b.len() ==> !((0x30 <= b[j] <= 0x39) || (0x41 <= b[j]
            <= 0x5A) || (0x61 <= b[j] <= 0x7A) || b[j] == 0x5F)),
{
    let n = 1 + ident_run(b, i + 1);
    lemma_run_end(b, i + 1);
    assert forall|k: int| i <= k < i + n implies (0x30 <= #[trigger] b[k] <= 0x39) || (0x41 <= b[k] <= 0x5A)
        || (0x61 <= b[k] <= 0x7A) || b[k] == 0x5F by {
        if k > i {
            lemma_run_all(b, i + 1, k);
        }
    }
}

/// Where an identifier run ends: within the input, at a byte that is not
/// an identifier byte.
proof fn lemma_run_end(b: Seq<u8>, i: int)
    requires
        0 <= i <= b.len(),
    ensures
        i + ident_run(b, i) <= b.len(),
        i + ident_run(b, i) < b.len() ==> !is_ident_char(b[i + ident_run(b, i)]),
    decreases b.len() - i,
{
    if i < b.len() && is_ident_char(b[i]) {
        lemma_run_end(b, i + 1);
    }
}

/// The bytes of a text of ASCII characters.
pub open spec fn text_bytes(t: Seq<char>) -> Seq<u8> {
    t.map_values(|c: char| c as u8)
}

/// Reading the decimal digits that the printer writes for `n` gives `n`
/// back.
pub proof fn lemma_digits_read_back(n: nat)
    ensures
        digits_value(text_bytes(dec_nat(n))) == n,
        forall|k: int| 0 <= k < dec_nat(n).len() ==> 0x30 <= #[trigger] text_bytes(dec_nat(n))[k] <= 0x39,
        dec_nat(n).len() >= 1,
    decreases n,
{
    let t = text_bytes(dec_nat(n));
    if n < 10 {
        assert(t.drop_last() =~= Seq::<u8>::empty());
        assert(digits_value(t.drop_last()) == 0);
    } else {
        lemma_digits_read_back(n / 10);
        let h = text_bytes(dec_nat(n / 10));
        assert(t.drop_last() =~= h);
        assert(t.last() == (48 + n % 10) as u8);
        assert forall|k: int| 0 <= k < dec_nat(n).len() implies 0x30 <= #[trigger] t[k] <= 0x39 by {
            if k < h.len() {
                assert(t[k] == h[k]);
            }
        }
    }
}

/// The lexer reads the decimal text of a number that fits in an `i64`,
/// ended by the end of the input or by a byte that is no digit, as one
/// integer token of that value spanning the whole text.
pub proof fn lemma_lex_reads_decimal(n: nat, b: Seq<u8>, i: int, line: int, col: int)
    requires
        n <= i64::MAX,
        0 <= i,
        i + dec_nat(n).len() <= b.len(),
        b.subrange(i, i + dec_nat(n).len()) == text_bytes(dec_nat(n)),
        i + dec_nat(n).len() < b.len() ==> !(0x30 <= b[i + dec_nat(n).len()] <= 0x39),
    ensures
        lex_step(b, i, line, col) == Step::Emit(
            STok::Int(n as i64),
            i + dec_nat(n).len(),
            line,
            col + dec_nat(n).len(),
        ),
{
    let m = dec_nat(n).len() as int;
    let t = text_bytes(dec_nat(n));
    lemma_digits_read_back(n);
    assert(b[i] == t[0]);
    assert forall|k: int| i + 1 <= k < i + m implies is_digit(b[k]) by {
        assert(b[k] == b.subrange(i, i + m)[k - i]);
    }
    lemma_digit_run_len(b, i + 1, i + m);
    assert(b.subrange(i, i + 1 + digit_run(b, i + 1)) == t);
}

/// A run of digits that ends at `e` has length `e - i`.
proof fn lemma_digit_run_len(b: Seq<u8>, i: int, e: int)
    requires
        0 <= i <= e <= b.len(),
        forall|k: int| i <= k < e ==> is_digit(b[k]),
        e < b.len() ==> !is_digit(b[e]),
    ensures
        digit_run(b, i) == e - i,
    decreases e - i,
{
    if i < e {
        lemma_digit_run_len(b, i + 1, e);
    }
}

} // verus!
