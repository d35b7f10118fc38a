//! Text: numbers written out as digits, and the UTF-8 bytes of strings.
use vstd::prelude::*;
use vstd::utf8::{decode_utf8, encode_utf8, valid_utf8};

use crate::bytes::Name;

verus! {

/// The digit for the value `d`: `0` to `9`, then `a` onwards.
pub open spec fn digit(d: int) -> u8 {
    if d < 10 {
        (48 + d) as u8
    } else {
        (87 + d) as u8
    }
}

/// `n` written in the given base, most significant digit first.
pub open spec fn numeral(n: nat, base: nat) -> Name
    decreases n,
{
    if base < 2 || n < base {
        seq![digit(n as int)]
    } else {
        proof {
            assert(n / base < n) by (nonlinear_arith)
                requires
                    n >= base,
                    base >= 2,
            ;
        }
        numeral(n / base, base).push(digit((n % base) as int))
    }
}

/// `n` in decimal.
pub open spec fn decimal(n: nat) -> Name {
    numeral(n, 10)
}

/// Writes `n` in base `base`.
pub fn write_numeral(n: u128, base: u128) -> (r: Vec<u8>)
    requires
        2 <= base <= 16,
    ensures
        r@ == numeral(n as nat, base as nat),
    decreases n,
{
    if n < base {
        let d: u8 = n as u8;
        vec![if d < 10 { 48 + d } else { 87 + d }]
    } else {
        assert(n / base < n) by (nonlinear_arith)
            requires
                n >= base,
                base >= 2,
        ;
        let mut head = write_numeral(n / base, base);
        let d: u8 = (n % base) as u8;
        head.push(if d < 10 { 48 + d } else { 87 + d });
        head
    }
}

/// Writes `n` in decimal.
pub fn write_decimal(n: u64) -> (r: Vec<u8>)
    ensures
        r@ == decimal(n as nat),
{
    write_numeral(n as u128, 10)
}

/// Every digit of a numeral is an ASCII letter or digit.
pub proof fn lemma_numeral_digits(n: nat, base: nat)
    requires
        2 <= base <= 16,
    ensures
        numeral(n, base).len() > 0,
        forall|i: int|
            0 <= i < numeral(n, base).len() ==> {
                let c = #[trigger] numeral(n, base)[i];
                48 <= c <= 57 || 97 <= c <= 102
            },
    decreases n,
{
    if n >= base {
        assert(n / base < n) by (nonlinear_arith)
            requires
                n >= base,
                base >= 2,
        ;
        lemma_numeral_digits(n / base, base);
    }
}

/// Different numbers are written differently.
#[verifier::spinoff_prover]
pub proof fn lemma_numeral_injective(m: nat, n: nat, base: nat)
    requires
        2 <= base <= 16,
        numeral(m, base) == numeral(n, base),
    ensures
        m == n,
    decreases m,
{
    lemma_numeral_digits(m / base, base);
    lemma_numeral_digits(n / base, base);
    if m >= base && n >= base {
        let x = numeral(m / base, base);
        let y = numeral(n / base, base);
        assert(x.push(digit((m % base) as int)).drop_last() =~= x);
        assert(y.push(digit((n % base) as int)).drop_last() =~= y);
        assert(x.push(digit((m % base) as int)).last() == y.push(digit((n % base) as int)).last());
        assert(m / base < m) by (nonlinear_arith)
            requires
                m >= base,
                base >= 2,
        ;
        lemma_numeral_injective(m / base, n / base, base);
        assert(0 <= m % base < base && 0 <= n % base < base) by (nonlinear_arith)
            requires
                base >= 2,
        ;
        assert(m % base == n % base);
        vstd::arithmetic::div_mod::lemma_fundamental_div_mod(m as int, base as int);
        vstd::arithmetic::div_mod::lemma_fundamental_div_mod(n as int, base as int);
        assert(m == base * (m / base) + m % base);
        assert(n == base * (n / base) + n % base);
    } else if m < base && n < base {
        assert(seq![digit(m as int)][0] == seq![digit(n as int)][0]);
    } else if m < base {
        assert(numeral(m, base).len() == 1);
        assert(numeral(n, base).len() == numeral(n / base, base).len() + 1);
    } else {
        assert(numeral(n, base).len() == 1);
        assert(numeral(m, base).len() == numeral(m / base, base).len() + 1);
    }
}

/// All bytes are below 128.
pub open spec fn is_ascii(b: Name) -> bool {
    forall|i: int| 0 <= i < b.len() ==> #[trigger] b[i] < 128
}

/// The characters of ASCII bytes.
pub open spec fn ascii_chars(b: Name) -> Seq<char> {
    b.map_values(|c: u8| c as char)
}

/// ASCII text is its own UTF-8 encoding.
pub proof fn lemma_ascii_utf8(b: Name)
    requires
        is_ascii(b),
    ensures
        encode_utf8(ascii_chars(b)) == b,
        valid_utf8(b),
        decode_utf8(b) == ascii_chars(b),
    decreases b.len(),
{
    let chars = ascii_chars(b);
    if b.len() > 0 {
        lemma_ascii_utf8(b.drop_first());
        assert(chars.drop_first() =~= ascii_chars(b.drop_first()));
        let c = b[0] as u32;
        assert(c & 0x7F == c) by (bit_vector)
            requires
                c < 128,
        ;
        assert(vstd::utf8::encode_scalar(chars[0] as u32) =~= seq![b[0]]);
        assert(b =~= seq![b[0]] + b.drop_first());
    } else {
        assert(encode_utf8(chars) =~= b);
    }
    vstd::utf8::encode_utf8_valid_utf8(chars);
    vstd::utf8::encode_utf8_decode_utf8(chars);
}

/// Calls `String::from_utf8`: the bytes are a string exactly when they are valid UTF-8, and
/// the string is then the one they encode.
#[verifier::external_body]
pub(crate) fn utf8_string(b: Vec<u8>) -> (r: Option<String>)
    ensures
        r is Some <==> valid_utf8(b@),
        r matches Some(s) ==> s@ == decode_utf8(b@) && encode_utf8(s@) == b@,
{
    String::from_utf8(b).ok()
}

/// How bytes read as text, with a replacement for what is not UTF-8: the name for what
/// [`lossy`] returns.
pub uninterp spec fn lossy_text(bytes: Seq<u8>) -> Seq<char>;

/// Calls `String::from_utf8_lossy`: the text depends on the bytes alone, and is the one that
/// they encode where they are valid UTF-8.
#[verifier::external_body]
pub(crate) fn lossy(bytes: &[u8]) -> (r: String)
    ensures
        r@ == lossy_text(bytes@),
        valid_utf8(bytes@) ==> r@ == decode_utf8(bytes@),
{
    String::from_utf8_lossy(bytes).into_owned()
}

/// The string made of ASCII bytes.
pub fn ascii_string(b: Vec<u8>) -> (r: String)
    requires
        is_ascii(b@),
    ensures
        r@ == ascii_chars(b@),
        encode_utf8(r@) == b@,
{
    proof {
        lemma_ascii_utf8(b@);
    }
    match utf8_string(b) {
        Some(s) => s,
        None => String::new(),
    }
}

/// The UTF-8 bytes of a string.
pub fn string_bytes(s: &str) -> (r: Vec<u8>)
    ensures
        r@ == encode_utf8(s@),
{
    vstd::slice::slice_to_vec(s.as_bytes())
}

/// Whether two strings are equal.
pub fn str_eq(a: &str, b: &str) -> (r: bool)
    ensures
        r == (a@ == b@),
{
    let r = crate::bytes::bytes_eq(a.as_bytes(), b.as_bytes());
    proof {
        vstd::utf8::encode_utf8_decode_utf8(a@);
        vstd::utf8::encode_utf8_decode_utf8(b@);
    }
    r
}

} // verus!
