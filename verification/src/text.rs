//! Small text helpers: building `String`s from ASCII bytes, decimal
//! formatting, and string comparison with literals.

use vstd::prelude::*;
use vstd::utf8::*;

verus! {

/// The characters named by a sequence of ASCII bytes.
pub open spec fn ascii_chars(b: Seq<u8>) -> Seq<char> {
    b.map_values(|x: u8| x as char)
}

pub open spec fn all_ascii(b: Seq<u8>) -> bool {
    forall|i: int| 0 <= i < b.len() ==> #[trigger] b[i] < 128
}

/// What `String::from_utf8_lossy` makes of a byte sequence.
pub uninterp spec fn spec_utf8_lossy(b: Seq<u8>) -> Seq<char>;

/// Calls `String::from_utf8_lossy`. Its documentation states that valid
/// UTF-8 is decoded unchanged; invalid sequences are replaced by U+FFFD,
/// which this contract leaves to the name `spec_utf8_lossy` alone.
#[verifier::external_body]
pub(crate) fn utf8_lossy(b: &[u8]) -> (s: String)
    ensures
        s@ == spec_utf8_lossy(b@),
        valid_utf8(b@) ==> s@ == decode_utf8(b@),
{
    String::from_utf8_lossy(b).into_owned()
}

/// ASCII bytes are valid UTF-8 and decode to the characters they name.
pub proof fn lemma_ascii_decode(b: Seq<u8>)
    requires
        all_ascii(b),
    ensures
        valid_utf8(b),
        decode_utf8(b) == ascii_chars(b),
{
    let chars = ascii_chars(b);
    assert(is_ascii_chars(chars)) by {
        assert forall|i| 0 <= i < chars.len() implies '\0' <= #[trigger] chars[i] <= '\u{7f}' by {
            assert(b[i] < 128);
        }
    }
    is_ascii_chars_encode_utf8(chars);
    assert(encode_utf8(chars) =~= b) by {
        assert forall|i| 0 <= i < b.len() implies encode_utf8(chars)[i] == b[i] by {
            assert(chars[i] as u8 == encode_utf8(chars)[i]);
            let x = b[i];
            assert(x < 128 ==> (x as char) as u8 == x);
        }
    }
    encode_utf8_valid_utf8(chars);
    encode_utf8_decode_utf8(chars);
}

/// A `String` holding the characters of ASCII bytes.
pub(crate) fn ascii_string(b: &[u8]) -> (s: String)
    requires
        all_ascii(b@),
    ensures
        s@ == ascii_chars(b@),
{
    proof {
        lemma_ascii_decode(b@);
    }
    utf8_lossy(b)
}

/// A `String` with the characters of a literal.
pub(crate) fn lit(t: &str) -> (s: String)
    ensures
        s@ == t@,
{
    t.to_string()
}

/// `s + t`.
pub(crate) fn concat(s: String, t: &String) -> (r: String)
    ensures
        r@ == s@ + t@,
{
    let mut s = s;
    s.append(t.as_str());
    s
}

/// `s + t` for a literal `t`.
pub(crate) fn concat_lit(s: String, t: &str) -> (r: String)
    ensures
        r@ == s@ + t@,
{
    let mut s = s;
    s.append(t);
    s
}

/// Whether a string equals a literal.
pub(crate) fn str_is(s: &String, t: &str) -> (b: bool)
    ensures
        b == (s@ == t@),
{
    let u = lit(t);
    *s == u
}

/// The character of a decimal digit.
pub open spec fn digit_char(d: int) -> char {
    ((48 + d) as u8) as char
}

/// Decimal digits of a natural number, most significant first, no leading
/// zeros ("0" for zero).
pub open spec fn dec_nat(n: nat) -> Seq<char>
    decreases n,
{
    if n < 10 {
        seq![digit_char(n as int)]
    } else {
        dec_nat(n / 10) + seq![digit_char((n % 10) as int)]
    }
}

/// Decimal text of an integer, with a leading '-' when negative.
pub open spec fn dec_int(n: int) -> Seq<char> {
    if n < 0 {
        seq!['-'] + dec_nat((-n) as nat)
    } else {
        dec_nat(n as nat)
    }
}

/// ASCII digit bytes of `n`, most significant first.
spec fn dec_bytes(n: nat) -> Seq<u8>
    decreases n,
{
    if n < 10 {
        seq![(48 + n) as u8]
    } else {
        dec_bytes(n / 10) + seq![(48 + n % 10) as u8]
    }
}

proof fn lemma_dec_bytes(n: nat)
    ensures
        all_ascii(dec_bytes(n)),
        ascii_chars(dec_bytes(n)) == dec_nat(n),
    decreases n,
{
    if n >= 10 {
        lemma_dec_bytes(n / 10);
        assert(ascii_chars(dec_bytes(n)) =~= ascii_chars(dec_bytes(n / 10)) + seq![
            digit_char((n % 10) as int),
        ]);
    }
}

/// Decimal digits of `n`, pushed onto `out`.
fn push_dec_digits(out: &mut Vec<u8>, n: u64)
    ensures
        final(out)@ == old(out)@ + dec_bytes(n as nat),
    decreases n,
{
    if n < 10 {
        out.push(48 + n as u8);
    } else {
        push_dec_digits(out, n / 10);
        out.push(48 + (n % 10) as u8);
    }
}

/// The decimal text of `n`.
pub(crate) fn fmt_u64(n: u64) -> (s: String)
    ensures
        s@ == dec_nat(n as nat),
{
    let mut out: Vec<u8> = Vec::new();
    push_dec_digits(&mut out, n);
    proof {
        lemma_dec_bytes(n as nat);
    }
    ascii_string(out.as_slice())
}

/// The decimal text of a length or an index.
pub(crate) fn fmt_usize(n: usize) -> (s: String)
    ensures
        s@ == dec_int(n as int),
{
    fmt_u64(n as u64)
}

/// The decimal text of `n`, with a leading '-' when negative.
pub(crate) fn fmt_i64(n: i64) -> (s: String)
    ensures
        s@ == dec_int(n as int),
{
    let mut out: Vec<u8> = Vec::new();
    let mag: u64 = if n < 0 {
        out.push(45);
        if n == i64::MIN {
            0x8000_0000_0000_0000u64
        } else {
            (-n) as u64
        }
    } else {
        n as u64
    };
    push_dec_digits(&mut out, mag);
    proof {
        lemma_dec_bytes(mag as nat);
        if n < 0 {
            assert(out@ =~= seq![45u8] + dec_bytes(mag as nat));
            assert(ascii_chars(out@) =~= seq!['-'] + ascii_chars(dec_bytes(mag as nat)));
        } else {
            assert(out@ =~= dec_bytes(mag as nat));
        }
    }
    ascii_string(out.as_slice())
}

/// What `format!("{:?}", c)` makes of a character.
pub uninterp spec fn spec_char_debug(c: char) -> Seq<char>;

/// Calls the `Debug` formatting of `char` (a quoted, escaped character).
#[verifier::external_body]
pub(crate) fn char_debug(c: char) -> (s: String)
    ensures
        s@ == spec_char_debug(c),
{
    format!("{:?}", c)
}

} // verus!
