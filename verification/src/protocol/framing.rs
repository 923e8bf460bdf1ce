//! Line framing: the CRLF terminator, where a piece of a frame lies in a buffer,
//! and text as UTF-8 bytes.

use vstd::prelude::*;
use vstd::slice::slice_subrange;
use vstd::utf8::*;

verus! {

/// Carriage return.
pub const CR: u8 = 13;

/// Line feed.
pub const LF: u8 = 10;

/// The two bytes that end every line of a frame.
pub open spec fn crlf() -> Seq<u8> {
    seq![CR, LF]
}

/// A carriage return at `i` with a line feed right behind it.
pub open spec fn is_crlf_at(s: Seq<u8>, i: int) -> bool {
    0 <= i && i + 1 < s.len() && s[i] == CR && s[i + 1] == LF
}

/// The bytes hold a CRLF somewhere.
pub open spec fn has_crlf(s: Seq<u8>) -> bool {
    exists|i: int| is_crlf_at(s, i)
}

/// Where the first CRLF at or after `from` starts, if there is one.
pub open spec fn first_crlf(s: Seq<u8>, from: int) -> Option<int>
    decreases s.len() - from,
{
    if from < 0 || from + 1 >= s.len() {
        None
    } else if s[from] == CR && s[from + 1] == LF {
        Some(from)
    } else {
        first_crlf(s, from + 1)
    }
}

/// `piece` lies in `buf` at offset `at`.
pub open spec fn holds_at(buf: Seq<u8>, at: int, piece: Seq<u8>) -> bool {
    &&& 0 <= at
    &&& at + piece.len() <= buf.len()
    &&& buf.subrange(at, at + piece.len()) == piece
}

/// What `first_crlf` finds is a CRLF, and none starts between `from` and it;
/// where it finds nothing, none starts at or after `from`.
pub proof fn lemma_first_crlf(s: Seq<u8>, from: int)
    requires
        0 <= from,
    ensures
        match first_crlf(s, from) {
            Some(p) => from <= p && is_crlf_at(s, p) && forall|q: int|
                from <= q < p ==> !is_crlf_at(s, q),
            None => forall|q: int| from <= q ==> !is_crlf_at(s, q),
        },
    decreases s.len() - from,
{
    if from + 1 >= s.len() {
    } else if s[from] == CR && s[from + 1] == LF {
    } else {
        lemma_first_crlf(s, from + 1);
    }
}

/// A position that is a CRLF and has none before it, back to `from`, is what
/// `first_crlf` finds.
pub proof fn lemma_first_crlf_is(s: Seq<u8>, from: int, p: int)
    requires
        0 <= from <= p,
        is_crlf_at(s, p),
        forall|q: int| from <= q < p ==> !is_crlf_at(s, q),
    ensures
        first_crlf(s, from) == Some(p),
    decreases p - from,
{
    if from < p {
        assert(!is_crlf_at(s, from));
        lemma_first_crlf_is(s, from + 1, p);
    }
}

/// The bytes in front of the first CRLF hold no CRLF themselves.
pub proof fn lemma_line_has_no_crlf(s: Seq<u8>, from: int, p: int)
    requires
        0 <= from,
        first_crlf(s, from) == Some(p),
    ensures
        from <= p,
        p + 2 <= s.len(),
        !has_crlf(s.subrange(from, p)),
{
    lemma_first_crlf(s, from);
    let text = s.subrange(from, p);
    assert forall|i: int| !is_crlf_at(text, i) by {
        if is_crlf_at(text, i) {
            assert(is_crlf_at(s, from + i));
        }
    }
}

/// A text without CRLF, followed by CRLF: the first CRLF from the start of the
/// text is the one behind it.
pub proof fn lemma_first_crlf_after_text(buf: Seq<u8>, at: int, text: Seq<u8>)
    requires
        holds_at(buf, at, text + crlf()),
        !has_crlf(text),
    ensures
        first_crlf(buf, at) == Some(at + text.len()),
{
    let line = text + crlf();
    let p = at + text.len();
    assert(buf[p] == line[text.len() as int]);
    assert(buf[p + 1] == line[text.len() as int + 1]);
    assert forall|q: int| at <= q < p implies !is_crlf_at(buf, q) by {
        assert(buf[q] == line[q - at]);
        assert(buf[q + 1] == line[q + 1 - at]);
        if is_crlf_at(buf, q) {
            if q + 1 < p {
                assert(is_crlf_at(text, q - at));
            }
        }
    }
    lemma_first_crlf_is(buf, at, p);
}

/// A piece that lies in the buffer can be read in two parts.
pub proof fn lemma_holds_at_split(buf: Seq<u8>, at: int, a: Seq<u8>, b: Seq<u8>)
    requires
        holds_at(buf, at, a + b),
    ensures
        holds_at(buf, at, a),
        holds_at(buf, at + a.len(), b),
{
    let whole = a + b;
    assert(buf.subrange(at, at + a.len()) =~= whole.subrange(0, a.len() as int));
    assert(whole.subrange(0, a.len() as int) =~= a);
    assert(buf.subrange(at + a.len(), at + a.len() + b.len()) =~= whole.subrange(
        a.len() as int,
        whole.len() as int,
    ));
    assert(whole.subrange(a.len() as int, whole.len() as int) =~= b);
}

/// Finds the first CRLF at or after `from`.
pub fn find_crlf(data: &[u8], from: usize) -> (r: Option<usize>)
    ensures
        match r {
            Some(p) => first_crlf(data@, from as int) == Some(p as int),
            None => first_crlf(data@, from as int) is None,
        },
{
    let n = data.len();
    let mut i: usize = from;
    while i < n && i + 1 < n
        invariant
            from <= i,
            n == data@.len(),
            first_crlf(data@, from as int) == first_crlf(data@, i as int),
        decreases n - i,
    {
        if data[i] == CR && data[i + 1] == LF {
            return Some(i);
        }
        i = i + 1;
    }
    None
}

/// Where the byte `b` first stands at or after `from`, if it does.
pub open spec fn first_byte(s: Seq<u8>, b: u8, from: int) -> Option<int>
    decreases s.len() - from,
{
    if from < 0 || from >= s.len() {
        None
    } else if s[from] == b {
        Some(from)
    } else {
        first_byte(s, b, from + 1)
    }
}

/// What `first_byte` finds is the byte, inside the bytes, and the byte does not
/// stand between `from` and there.
pub proof fn lemma_first_byte(s: Seq<u8>, b: u8, from: int)
    requires
        0 <= from,
    ensures
        match first_byte(s, b, from) {
            Some(p) => from <= p < s.len() && s[p] == b && forall|q: int|
                from <= q < p ==> s[q] != b,
            None => forall|q: int| from <= q < s.len() ==> s[q] != b,
        },
    decreases s.len() - from,
{
    if from < s.len() && s[from] != b {
        lemma_first_byte(s, b, from + 1);
    }
}

/// A position that holds the byte and has none of it before, back to `from`,
/// is what `first_byte` finds.
pub proof fn lemma_first_byte_is(s: Seq<u8>, b: u8, from: int, p: int)
    requires
        0 <= from <= p < s.len(),
        s[p] == b,
        forall|q: int| from <= q < p ==> s[q] != b,
    ensures
        first_byte(s, b, from) == Some(p),
    decreases p - from,
{
    if from < p {
        lemma_first_byte_is(s, b, from + 1, p);
    }
}

/// Finds the byte `b` at or after `from`.
pub fn find_byte(data: &[u8], b: u8, from: usize) -> (r: Option<usize>)
    ensures
        match r {
            Some(p) => first_byte(data@, b, from as int) == Some(p as int) && from <= p
                < data@.len(),
            None => first_byte(data@, b, from as int) is None,
        },
{
    let n = data.len();
    let mut i: usize = from;
    while i < n
        invariant
            from <= i,
            n == data@.len(),
            first_byte(data@, b, from as int) == first_byte(data@, b, i as int),
        decreases n - i,
    {
        if data[i] == b {
            return Some(i);
        }
        i = i + 1;
    }
    None
}

/// `s` begins with `prefix`.
pub open spec fn starts_with(s: Seq<u8>, prefix: Seq<u8>) -> bool {
    prefix.len() <= s.len() && s.subrange(0, prefix.len() as int) == prefix
}

/// Tells whether `data[from..to]` begins with `prefix`.
pub fn has_prefix(data: &[u8], from: usize, to: usize, prefix: &[u8]) -> (r: bool)
    requires
        from <= to <= data@.len(),
    ensures
        r == starts_with(data@.subrange(from as int, to as int), prefix@),
{
    let n = prefix.len();
    if to - from < n {
        return false;
    }
    let ghost s = data@.subrange(from as int, to as int);
    let mut i: usize = 0;
    while i < n
        invariant
            i <= n,
            n == prefix@.len(),
            from + n <= to <= data@.len(),
            s == data@.subrange(from as int, to as int),
            forall|j: int| 0 <= j < i ==> s[j] == prefix@[j],
        decreases n - i,
    {
        if data[from + i] != prefix[i] {
            assert(s.subrange(0, n as int)[i as int] != prefix@[i as int]);
            return false;
        }
        i = i + 1;
    }
    assert(s.subrange(0, n as int) =~= prefix@);
    true
}

/// The bytes are exactly CRLF at `at`.
pub fn crlf_at(data: &[u8], at: usize) -> (b: bool)
    ensures
        b == is_crlf_at(data@, at as int),
{
    let n = data.len();
    at < n && n - at >= 2 && data[at] == CR && data[at + 1] == LF
}

/// Reads bytes as UTF-8 text. Wraps `core::str::from_utf8`, which accepts a
/// slice exactly when it is well-formed UTF-8 and then returns it unchanged as a
/// string slice.
#[verifier::external_body]
fn str_from_utf8(bytes: &[u8]) -> (r: Option<&str>)
    ensures
        r is Some <==> valid_utf8(bytes@),
        r matches Some(s) ==> encode_utf8(s@) == bytes@,
{
    core::str::from_utf8(bytes).ok()
}

/// The text that `data[from..to]` holds as UTF-8, if it is well-formed.
pub fn text_of(data: &[u8], from: usize, to: usize) -> (r: Option<String>)
    requires
        from <= to <= data@.len(),
    ensures
        r is Some <==> valid_utf8(data@.subrange(from as int, to as int)),
        r matches Some(s) ==> s@ == decode_utf8(data@.subrange(from as int, to as int))
            && encode_utf8(s@) == data@.subrange(from as int, to as int),
{
    let piece = slice_subrange(data, from, to);
    match str_from_utf8(piece) {
        Some(s) => {
            proof {
                encode_utf8_decode_utf8(s@);
            }
            Some(s.to_owned())
        },
        None => None,
    }
}

/// Appends the UTF-8 bytes of a text.
pub fn push_text(out: &mut Vec<u8>, text: &str)
    ensures
        final(out)@ == old(out)@ + encode_utf8(text@),
{
    push_bytes(out, text.as_bytes());
}

/// Appends bytes.
pub fn push_bytes(out: &mut Vec<u8>, bytes: &[u8])
    ensures
        final(out)@ == old(out)@ + bytes@,
{
    let n = bytes.len();
    let mut i: usize = 0;
    while i < n
        invariant
            i <= n,
            n == bytes@.len(),
            out@ == old(out)@ + bytes@.subrange(0, i as int),
        decreases n - i,
    {
        out.push(bytes[i]);
        i = i + 1;
        assert(out@ =~= old(out)@ + bytes@.subrange(0, i as int));
    }
    assert(bytes@.subrange(0, n as int) =~= bytes@);
}

/// Appends the line terminator.
pub fn push_crlf(out: &mut Vec<u8>)
    ensures
        final(out)@ == old(out)@ + crlf(),
{
    out.push(CR);
    out.push(LF);
    assert(final(out)@ =~= old(out)@ + crlf());
}

} // verus!
