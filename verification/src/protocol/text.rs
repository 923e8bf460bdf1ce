//! Text as the commands use it: comparing names, and numerals as text.

use vstd::prelude::*;
use vstd::utf8::*;
use crate::protocol::framing::text_of;
use crate::protocol::number::{
    decimal_text, decimal_u64, format_u64, is_digit, lemma_decimal_text_bytes, parse_u64,
};

verus! {

/// Bytes below 128 are well-formed UTF-8.
pub proof fn lemma_ascii_is_utf8(bytes: Seq<u8>)
    requires
        forall|i: int| 0 <= i < bytes.len() ==> (#[trigger] bytes[i]) < 128,
    ensures
        valid_utf8(bytes),
{
    assert(bytes.subrange(0, 0) =~= Seq::<u8>::empty());
    assert(partial_valid_utf8(bytes, 0));
    assert forall|i: int| 0 <= 0 <= i < bytes.len() <= bytes.len() implies #[trigger]
        is_leading_byte_width_1(bytes[i]) by {
        assert(bytes[i] < 128);
    }
    partial_valid_utf8_extend_ascii_block(bytes, 0, bytes.len() as int);
    assert(bytes.subrange(0, bytes.len() as int) =~= bytes);
}

/// Texts with the same UTF-8 bytes are the same text.
pub proof fn lemma_same_bytes_same_text(a: Seq<char>, b: Seq<char>)
    requires
        encode_utf8(a) == encode_utf8(b),
    ensures
        a == b,
{
    encode_utf8_decode_utf8(a);
    encode_utf8_decode_utf8(b);
}

/// The bytes of two texts, one behind the other, are the bytes of the one
/// behind the bytes of the other.
pub proof fn lemma_encode_utf8_concat(a: Seq<char>, b: Seq<char>)
    ensures
        encode_utf8(a + b) == encode_utf8(a) + encode_utf8(b),
    decreases a.len(),
{
    if a.len() == 0 {
        assert(a + b =~= b);
        assert(encode_utf8(a) + encode_utf8(b) =~= encode_utf8(b));
    } else {
        let whole = a + b;
        assert(whole[0] == a[0]);
        assert(whole.drop_first() =~= a.drop_first() + b);
        lemma_encode_utf8_concat(a.drop_first(), b);
        assert(encode_utf8(whole) =~= encode_utf8(a) + encode_utf8(b));
    }
}

/// The numeral of an integer as text.
pub open spec fn decimal_chars(v: int) -> Seq<char> {
    decode_utf8(decimal_text(v))
}

/// The text of a numeral has the bytes of the numeral.
pub proof fn lemma_decimal_chars(v: int)
    ensures
        valid_utf8(decimal_text(v)),
        encode_utf8(decimal_chars(v)) == decimal_text(v),
{
    lemma_decimal_text_bytes(v);
    let s = decimal_text(v);
    assert forall|i: int| 0 <= i < s.len() implies (#[trigger] s[i]) < 128 by {
        assert(is_digit(s[i]) || s[i] == 45);
    }
    lemma_ascii_is_utf8(s);
    decode_utf8_encode_utf8(s);
}

/// Tells whether two texts are the same.
pub fn same_text(a: &str, b: &str) -> (r: bool)
    ensures
        r == (a@ == b@),
{
    let x = a.as_bytes();
    let y = b.as_bytes();
    if x.len() != y.len() {
        return false;
    }
    let n = x.len();
    let mut i: usize = 0;
    while i < n
        invariant
            i <= n,
            n == x@.len(),
            n == y@.len(),
            x@ == encode_utf8(a@),
            y@ == encode_utf8(b@),
            forall|j: int| 0 <= j < i ==> x@[j] == y@[j],
        decreases n - i,
    {
        if x[i] != y[i] {
            return false;
        }
        i = i + 1;
    }
    proof {
        assert(x@ =~= y@);
        lemma_same_bytes_same_text(a@, b@);
    }
    true
}

/// The numeral of an unsigned integer as text.
pub fn decimal_string(n: u64) -> (s: String)
    ensures
        s@ == decimal_chars(n as int),
{
    let digits = format_u64(n);
    proof {
        lemma_decimal_chars(n as int);
        assert(digits@.subrange(0, digits@.len() as int) =~= digits@);
    }
    match text_of(digits.as_slice(), 0, digits.len()) {
        Some(s) => s,
        None => String::new(),
    }
}

/// Reads a text as an unsigned numeral.
pub fn parse_u64_text(s: &str) -> (r: Option<u64>)
    ensures
        r == decimal_u64(encode_utf8(s@)),
{
    parse_u64(s.as_bytes())
}

} // verus!
