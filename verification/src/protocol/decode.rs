//! Decoding: from the bytes of a buffer to a value and the offset behind it.

use vstd::prelude::*;
use vstd::utf8::*;
use crate::protocol::framing::{
    crlf_at, find_crlf, first_crlf, is_crlf_at, lemma_first_crlf, text_of,
};
use crate::protocol::laws::lemma_decoded_sound;
use crate::protocol::number::{decimal_i64, is_float_literal, is_float_text, parse_i64};
use crate::protocol::order::{bytes_less, lemma_less_order};
use crate::protocol::r_object::{
    lemma_pair_views, lemma_place, lemma_with_entry, pair_views, place, sorted_keys, views,
    with_entry, RObject,
    Value, FLAG_FALSE, FLAG_TRUE, TAG_ARRAY, TAG_BIG_NUMBER, TAG_BOOLEAN, TAG_BULK_ERROR,
    TAG_BULK_STRING, TAG_DOUBLE, TAG_INTEGER, TAG_MAP, TAG_NULL, TAG_PUSH, TAG_SET,
    TAG_SIMPLE_ERROR, TAG_SIMPLE_STRING, TAG_VERBATIM_STRING,
};
use vstd::slice::slice_subrange;

verus! {

/// Why a buffer does not hold a frame at the offset asked for.
#[derive(Debug, Clone, Copy, PartialEq, Eq, Structural)]
pub enum ProtocolError {
    /// The buffer ends before the frame does: no byte at the offset, or a line
    /// without its CRLF.
    UnterminatedFrame,
    /// The first byte names no type.
    UnknownTypeByte,
    /// A declared length is negative, reaches past the end of the buffer, or
    /// the content is not followed by CRLF where the length says it ends.
    LengthMismatch,
    /// A text is not well-formed UTF-8.
    Utf8Error,
    /// A number or a truth value is not a literal of its kind, or is out of
    /// range.
    InvalidLiteral,
}

/// The line that starts at `from`: its bytes without the CRLF, and the offset
/// behind the CRLF.
pub open spec fn raw_line(buf: Seq<u8>, from: int) -> Result<(Seq<u8>, int), ProtocolError> {
    match first_crlf(buf, from) {
        Some(p) => Ok((buf.subrange(from, p), p + 2)),
        None => Err(ProtocolError::UnterminatedFrame),
    }
}

/// The line that starts at `from`, read as text.
pub open spec fn text_line(buf: Seq<u8>, from: int) -> Result<(Seq<char>, int), ProtocolError> {
    match raw_line(buf, from) {
        Ok((bytes, next)) => if valid_utf8(bytes) {
            Ok((decode_utf8(bytes), next))
        } else {
            Err(ProtocolError::Utf8Error)
        },
        Err(e) => Err(e),
    }
}

/// The line that starts at `from`, read as a signed 64-bit numeral.
pub open spec fn number_line(buf: Seq<u8>, from: int) -> Result<(int, int), ProtocolError> {
    match raw_line(buf, from) {
        Ok((bytes, next)) => match decimal_i64(bytes) {
            Some(v) => Ok((v as int, next)),
            None => Err(ProtocolError::InvalidLiteral),
        },
        Err(e) => Err(e),
    }
}

/// A text of `n` bytes at `from` with CRLF behind it, and the offset behind
/// that CRLF.
pub open spec fn blob(buf: Seq<u8>, from: int, n: int) -> Result<(Seq<char>, int), ProtocolError> {
    if n < 0 || from + n + 2 > buf.len() || !is_crlf_at(buf, from + n) {
        Err(ProtocolError::LengthMismatch)
    } else if !valid_utf8(buf.subrange(from, from + n)) {
        Err(ProtocolError::Utf8Error)
    } else {
        Ok((decode_utf8(buf.subrange(from, from + n)), from + n + 2))
    }
}

/// How many bytes the buffer holds from `at` on.
pub open spec fn remaining(buf: Seq<u8>, at: int) -> nat {
    if 0 <= at <= buf.len() {
        (buf.len() - at) as nat
    } else {
        0
    }
}

/// The value whose frame starts at `start`, and the offset behind the frame.
///
/// A length of -1 gives the null string for `$` and the null array for `*`;
/// for a map, a set or a push it gives the plain null.
pub open spec fn decoded(buf: Seq<u8>, start: int) -> Result<(Value, int), ProtocolError>
    decreases remaining(buf, start), 0nat,
{
    if start < 0 || start >= buf.len() {
        Err(ProtocolError::UnterminatedFrame)
    } else if buf[start] == TAG_SIMPLE_STRING {
        match text_line(buf, start + 1) {
            Ok((s, next)) => Ok((Value::SimpleString(s), next)),
            Err(e) => Err(e),
        }
    } else if buf[start] == TAG_SIMPLE_ERROR {
        match text_line(buf, start + 1) {
            Ok((s, next)) => Ok((Value::SimpleError(s), next)),
            Err(e) => Err(e),
        }
    } else if buf[start] == TAG_INTEGER {
        match number_line(buf, start + 1) {
            Ok((i, next)) => Ok((Value::Integer(i), next)),
            Err(e) => Err(e),
        }
    } else if buf[start] == TAG_BULK_STRING {
        match number_line(buf, start + 1) {
            Ok((n, next)) => if n == -1 {
                Ok((Value::NullBulkString, next))
            } else {
                match blob(buf, next, n) {
                    Ok((s, end)) => Ok((Value::BulkString(s), end)),
                    Err(e) => Err(e),
                }
            },
            Err(e) => Err(e),
        }
    } else if buf[start] == TAG_ARRAY {
        match number_line(buf, start + 1) {
            Ok((n, next)) => if n == -1 {
                Ok((Value::NullArray, next))
            } else if n < 0 {
                Err(ProtocolError::LengthMismatch)
            } else {
                proof {
                    lemma_first_crlf(buf, start + 1);
                }
                match decoded_items(buf, next, n, Seq::empty()) {
                    Ok((items, end)) => Ok((Value::Array(items), end)),
                    Err(e) => Err(e),
                }
            },
            Err(e) => Err(e),
        }
    } else if buf[start] == TAG_NULL {
        if is_crlf_at(buf, start + 1) {
            Ok((Value::Null, start + 3))
        } else {
            Err(ProtocolError::UnterminatedFrame)
        }
    } else if buf[start] == TAG_BOOLEAN {
        if start + 1 >= buf.len() {
            Err(ProtocolError::UnterminatedFrame)
        } else if buf[start + 1] != FLAG_TRUE && buf[start + 1] != FLAG_FALSE {
            Err(ProtocolError::InvalidLiteral)
        } else if !is_crlf_at(buf, start + 2) {
            Err(ProtocolError::UnterminatedFrame)
        } else {
            Ok((Value::Boolean(buf[start + 1] == FLAG_TRUE), start + 4))
        }
    } else if buf[start] == TAG_DOUBLE {
        match text_line(buf, start + 1) {
            Ok((s, next)) => if is_float_literal(encode_utf8(s)) {
                Ok((Value::Double(s), next))
            } else {
                Err(ProtocolError::InvalidLiteral)
            },
            Err(e) => Err(e),
        }
    } else if buf[start] == TAG_BIG_NUMBER {
        match text_line(buf, start + 1) {
            Ok((s, next)) => Ok((Value::BigNumber(s), next)),
            Err(e) => Err(e),
        }
    } else if buf[start] == TAG_BULK_ERROR {
        match number_line(buf, start + 1) {
            Ok((n, next)) => match blob(buf, next, n) {
                Ok((s, end)) => Ok((Value::BulkError(s), end)),
                Err(e) => Err(e),
            },
            Err(e) => Err(e),
        }
    } else if buf[start] == TAG_VERBATIM_STRING {
        match number_line(buf, start + 1) {
            Ok((n, next)) => match text_line(buf, next) {
                Ok((tag, at)) => match blob(buf, at, n) {
                    Ok((text, end)) => Ok((Value::VerbatimString(text, tag), end)),
                    Err(e) => Err(e),
                },
                Err(e) => Err(e),
            },
            Err(e) => Err(e),
        }
    } else if buf[start] == TAG_MAP {
        match number_line(buf, start + 1) {
            Ok((n, next)) => if n == -1 {
                Ok((Value::Null, next))
            } else if n < 0 {
                Err(ProtocolError::LengthMismatch)
            } else {
                proof {
                    lemma_first_crlf(buf, start + 1);
                }
                match decoded_entries(buf, next, n, Seq::empty()) {
                    Ok((entries, end)) => Ok((Value::RMap(entries), end)),
                    Err(e) => Err(e),
                }
            },
            Err(e) => Err(e),
        }
    } else if buf[start] == TAG_SET {
        match number_line(buf, start + 1) {
            Ok((n, next)) => if n == -1 {
                Ok((Value::Null, next))
            } else if n < 0 {
                Err(ProtocolError::LengthMismatch)
            } else {
                proof {
                    lemma_first_crlf(buf, start + 1);
                }
                match decoded_items(buf, next, n, Seq::empty()) {
                    Ok((items, end)) => Ok((Value::RSet(items), end)),
                    Err(e) => Err(e),
                }
            },
            Err(e) => Err(e),
        }
    } else if buf[start] == TAG_PUSH {
        match number_line(buf, start + 1) {
            Ok((n, next)) => if n == -1 {
                Ok((Value::Null, next))
            } else if n < 0 {
                Err(ProtocolError::LengthMismatch)
            } else {
                proof {
                    lemma_first_crlf(buf, start + 1);
                }
                match decoded_items(buf, next, n, Seq::empty()) {
                    Ok((items, end)) => Ok((Value::Push(items), end)),
                    Err(e) => Err(e),
                }
            },
            Err(e) => Err(e),
        }
    } else {
        Err(ProtocolError::UnknownTypeByte)
    }
}

/// A frame that starts at `from`, inside the buffer, ends at `next`, behind
/// where it started. Every decoded frame does; the definitions below say so
/// to be well-founded on their face.
pub open spec fn advances(buf: Seq<u8>, from: int, next: int) -> bool {
    0 <= from < buf.len() && from < next
}

/// `n` more values from `from` on, behind those already read.
pub open spec fn decoded_items(buf: Seq<u8>, from: int, n: int, read: Seq<Value>) -> Result<
    (Seq<Value>, int),
    ProtocolError,
>
    decreases remaining(buf, from), 1nat,
{
    if n <= 0 {
        Ok((read, from))
    } else {
        match decoded(buf, from) {
            Ok((v, next)) => if !advances(buf, from, next) {
                Err(ProtocolError::UnterminatedFrame)
            } else {
                decoded_items(buf, next, n - 1, read.push(v))
            },
            Err(e) => Err(e),
        }
    }
}

/// `n` more entries from `from` on, each a key and then its value, set one
/// after the other into the entries already read, each where its key belongs
/// in the order of the keys: a key that comes again replaces the value that it
/// had, and the entries read do not tell in which order they came.
pub open spec fn decoded_entries(
    buf: Seq<u8>,
    from: int,
    n: int,
    read: Seq<(Value, Value)>,
) -> Result<(Seq<(Value, Value)>, int), ProtocolError>
    decreases remaining(buf, from), 1nat,
{
    if n <= 0 {
        Ok((read, from))
    } else {
        match decoded(buf, from) {
            Ok((key, at)) => if !advances(buf, from, at) {
                Err(ProtocolError::UnterminatedFrame)
            } else {
                match decoded(buf, at) {
                    Ok((value, next)) => if !advances(buf, at, next) {
                        Err(ProtocolError::UnterminatedFrame)
                    } else {
                        decoded_entries(buf, next, n - 1, with_entry(read, key, value))
                    },
                    Err(e) => Err(e),
                }
            },
            Err(e) => Err(e),
        }
    }
}

/// An exec result agrees with what the model says of the same bytes.
pub open spec fn agrees(
    r: Result<(RObject, usize), ProtocolError>,
    model: Result<(Value, int), ProtocolError>,
) -> bool {
    match model {
        Ok((v, end)) => r matches Ok((o, e)) && o@ == v && e == end,
        Err(k) => r matches Err(e) && e == k,
    }
}

/// Reads the line that starts at `from`: the offset of its CRLF.
fn read_line(data: &[u8], from: usize) -> (r: Result<usize, ProtocolError>)
    ensures
        match raw_line(data@, from as int) {
            Ok((bytes, next)) => r matches Ok(p) && from <= p && p + 2 <= data@.len() && bytes
                == data@.subrange(from as int, p as int) && next == p + 2,
            Err(k) => r matches Err(e) && e == k,
        },
        data@.len() <= usize::MAX,
{
    // Asking for the length brings in the fact that it fits a `usize`, which
    // the callers rely on when they step over the CRLF.
    let _ = data.len();
    proof {
        lemma_first_crlf(data@, from as int);
    }
    match find_crlf(data, from) {
        Some(p) => Ok(p),
        None => Err(ProtocolError::UnterminatedFrame),
    }
}

/// Reads the line that starts at `from` as text.
fn read_text_line(data: &[u8], from: usize) -> (r: Result<(String, usize), ProtocolError>)
    ensures
        match text_line(data@, from as int) {
            Ok((s, next)) => r matches Ok((t, e)) && t@ == s && e == next && from + 2 <= next
                <= data@.len() && encode_utf8(s) == data@.subrange(from as int, next - 2),
            Err(k) => r matches Err(e) && e == k,
        },
{
    match read_line(data, from) {
        Ok(p) => match text_of(data, from, p) {
            Some(s) => Ok((s, p + 2)),
            None => Err(ProtocolError::Utf8Error),
        },
        Err(e) => Err(e),
    }
}

/// Reads the line that starts at `from` as a numeral.
fn read_number_line(data: &[u8], from: usize) -> (r: Result<(i64, usize), ProtocolError>)
    ensures
        match number_line(data@, from as int) {
            Ok((v, next)) => r matches Ok((i, e)) && i == v && e == next && from + 2 <= next
                <= data@.len(),
            Err(k) => r matches Err(e) && e == k,
        },
{
    match read_line(data, from) {
        Ok(p) => match parse_i64(slice_subrange(data, from, p)) {
            Some(v) => Ok((v, p + 2)),
            None => Err(ProtocolError::InvalidLiteral),
        },
        Err(e) => Err(e),
    }
}

/// Reads a text of `n` bytes at `from` and the CRLF behind it.
fn read_blob(data: &[u8], from: usize, n: i64) -> (r: Result<(String, usize), ProtocolError>)
    requires
        from <= data@.len(),
    ensures
        match blob(data@, from as int, n as int) {
            Ok((s, next)) => r matches Ok((t, e)) && t@ == s && e == next && from + 2 <= next
                <= data@.len(),
            Err(k) => r matches Err(e) && e == k,
        },
{
    let len = data.len();
    if n < 0 || len - from < 2 || (n as u64) > ((len - from - 2) as u64) {
        return Err(ProtocolError::LengthMismatch);
    }
    let end: usize = from + (n as usize);
    if !crlf_at(data, end) {
        return Err(ProtocolError::LengthMismatch);
    }
    match text_of(data, from, end) {
        Some(s) => Ok((s, end + 2)),
        None => Err(ProtocolError::Utf8Error),
    }
}

/// Finds where a key with the encoding `code` belongs among the entries.
fn find_place(entries: &Vec<(RObject, RObject)>, code: &[u8]) -> (at: usize)
    ensures
        at == place(pair_views(entries@), code@, 0),
        at <= entries@.len(),
{
    proof {
        lemma_pair_views(entries@);
    }
    let ghost held = pair_views(entries@);
    let n = entries.len();
    let mut i: usize = 0;
    while i < n
        invariant
            i <= n,
            n == entries@.len(),
            held == pair_views(entries@),
            held.len() == n,
            place(held, code@, 0) == place(held, code@, i as int),
            forall|j: int| 0 <= j < n ==> (#[trigger] held[j]) == (entries@[j].0@, entries@[j].1@),
        decreases n - i,
    {
        let here = entries[i].0.encode();
        if !bytes_less(here.as_slice(), code) {
            return i;
        }
        i = i + 1;
    }
    i
}

/// Sets `key` to `value` among entries that stand in the order of their keys:
/// the entry goes where its key belongs, in place of the entry under that key
/// where there is one. Entries set in any order end up standing in the same
/// order.
pub fn set_entry(entries: &mut Vec<(RObject, RObject)>, key: RObject, value: RObject)
    requires
        sorted_keys(pair_views(old(entries)@)),
    ensures
        pair_views(final(entries)@) == with_entry(pair_views(old(entries)@), key@, value@),
        sorted_keys(pair_views(final(entries)@)),
{
    let ghost before = pair_views(entries@);
    proof {
        lemma_pair_views(entries@);
        lemma_with_entry(before, key@, value@);
        lemma_place(before, key@.encoding(), 0);
    }
    let code = key.encode();
    let at = find_place(entries, code.as_slice());
    let there = if at < entries.len() {
        let here = entries[at].0.encode();
        proof {
            lemma_less_order(here@, code@);
        }
        !bytes_less(code.as_slice(), here.as_slice())
    } else {
        false
    };
    if there {
        entries.set(at, (key, value));
        proof {
            lemma_pair_views(entries@);
            assert(pair_views(entries@) =~= before.update(at as int, (key@, value@)));
        }
    } else {
        entries.insert(at, (key, value));
        proof {
            lemma_pair_views(entries@);
            assert(pair_views(entries@) =~= before.insert(at as int, (key@, value@)));
        }
    }
}

/// The entries of the map made of the pairs: the pairs set one after the
/// other, first to last, beginning with no entry. A key that comes again keeps
/// its last value.
pub open spec fn entries_of(pairs: Seq<(Value, Value)>) -> Seq<(Value, Value)>
    decreases pairs.len(),
{
    if pairs.len() == 0 {
        Seq::empty()
    } else {
        with_entry(entries_of(pairs.drop_last()), pairs.last().0, pairs.last().1)
    }
}

/// The entries of a map made of pairs stand in the order of their keys.
pub proof fn lemma_entries_of(pairs: Seq<(Value, Value)>)
    ensures
        sorted_keys(entries_of(pairs)),
    decreases pairs.len(),
{
    if pairs.len() > 0 {
        lemma_entries_of(pairs.drop_last());
        lemma_with_entry(entries_of(pairs.drop_last()), pairs.last().0, pairs.last().1);
    }
}

impl RObject {
    /// The map made of the pairs, whatever their order: its entries stand in
    /// the order of their keys, so the same pairs in another order make the
    /// same map.
    pub fn map_of(pairs: &Vec<(RObject, RObject)>) -> (r: RObject)
        ensures
            r@ == Value::RMap(entries_of(pair_views(pairs@))),
            sorted_keys(entries_of(pair_views(pairs@))),
    {
        proof {
            lemma_pair_views(pairs@);
            lemma_entries_of(pair_views(pairs@));
        }
        let ghost all = pair_views(pairs@);
        let n = pairs.len();
        let mut entries: Vec<(RObject, RObject)> = Vec::new();
        let mut i: usize = 0;
        assert(all.subrange(0, 0) =~= Seq::<(Value, Value)>::empty());
        while i < n
            invariant
                i <= n,
                n == pairs@.len(),
                all == pair_views(pairs@),
                all.len() == n,
                forall|j: int| 0 <= j < n ==> (#[trigger] all[j]) == (pairs@[j].0@, pairs@[j].1@),
                pair_views(entries@) == entries_of(all.subrange(0, i as int)),
                sorted_keys(pair_views(entries@)),
            decreases n - i,
        {
            let key = pairs[i].0.duplicate();
            let value = pairs[i].1.duplicate();
            proof {
                let longer = all.subrange(0, i + 1);
                assert(longer.drop_last() =~= all.subrange(0, i as int));
                assert(longer.last() == (key@, value@));
            }
            set_entry(&mut entries, key, value);
            i = i + 1;
        }
        proof {
            assert(all.subrange(0, n as int) =~= all);
        }
        RObject::RMap(entries)
    }
}

impl RObject {
    /// Decodes the frame that starts at offset `start` of `data`: the value, and
    /// the offset behind the frame.
    ///
    /// The result is the one that [`decoded`] defines, error for error. A value
    /// that comes back is fit for the wire, and its frame is not empty and ends
    /// inside the buffer.
    pub fn decode(data: &[u8], start: usize) -> (r: Result<(RObject, usize), ProtocolError>)
        ensures
            agrees(r, decoded(data@, start as int)),
            r matches Ok((o, end)) ==> o@.wf() && start < end <= data@.len(),
        decreases remaining(data@, start as int), 0nat,
    {
        proof {
            lemma_decoded_sound(data@, start as int);
        }
        if start >= data.len() {
            return Err(ProtocolError::UnterminatedFrame);
        }
        let tag = data[start];
        if tag == TAG_SIMPLE_STRING {
            match read_text_line(data, start + 1) {
                Ok((s, next)) => Ok((RObject::SimpleString(s), next)),
                Err(e) => Err(e),
            }
        } else if tag == TAG_SIMPLE_ERROR {
            match read_text_line(data, start + 1) {
                Ok((s, next)) => Ok((RObject::SimpleError(s), next)),
                Err(e) => Err(e),
            }
        } else if tag == TAG_INTEGER {
            match read_number_line(data, start + 1) {
                Ok((i, next)) => Ok((RObject::Integer(i), next)),
                Err(e) => Err(e),
            }
        } else if tag == TAG_BULK_STRING {
            match read_number_line(data, start + 1) {
                Ok((n, next)) => if n == -1 {
                    Ok((RObject::NullBulkString, next))
                } else {
                    match read_blob(data, next, n) {
                        Ok((s, end)) => Ok((RObject::BulkString(s), end)),
                        Err(e) => Err(e),
                    }
                },
                Err(e) => Err(e),
            }
        } else if tag == TAG_ARRAY {
            match read_number_line(data, start + 1) {
                Ok((n, next)) => if n == -1 {
                    Ok((RObject::NullArray, next))
                } else if n < 0 {
                    Err(ProtocolError::LengthMismatch)
                } else {
                    match Self::decode_items(data, next, n) {
                        Ok((items, end)) => Ok((RObject::Array(items), end)),
                        Err(e) => Err(e),
                    }
                },
                Err(e) => Err(e),
            }
        } else if tag == TAG_NULL {
            if crlf_at(data, start + 1) {
                Ok((RObject::Null, start + 3))
            } else {
                Err(ProtocolError::UnterminatedFrame)
            }
        } else if tag == TAG_BOOLEAN {
            if start + 1 >= data.len() {
                Err(ProtocolError::UnterminatedFrame)
            } else if data[start + 1] != FLAG_TRUE && data[start + 1] != FLAG_FALSE {
                Err(ProtocolError::InvalidLiteral)
            } else if !crlf_at(data, start + 2) {
                Err(ProtocolError::UnterminatedFrame)
            } else {
                Ok((RObject::Boolean(data[start + 1] == FLAG_TRUE), start + 4))
            }
        } else if tag == TAG_DOUBLE {
            match read_text_line(data, start + 1) {
                Ok((s, next)) => if is_float_text(slice_subrange(data, start + 1, next - 2)) {
                    Ok((RObject::Double(s), next))
                } else {
                    Err(ProtocolError::InvalidLiteral)
                },
                Err(e) => Err(e),
            }
        } else if tag == TAG_BIG_NUMBER {
            match read_text_line(data, start + 1) {
                Ok((s, next)) => Ok((RObject::BigNumber(s), next)),
                Err(e) => Err(e),
            }
        } else if tag == TAG_BULK_ERROR {
            match read_number_line(data, start + 1) {
                Ok((n, next)) => match read_blob(data, next, n) {
                    Ok((s, end)) => Ok((RObject::BulkError(s), end)),
                    Err(e) => Err(e),
                },
                Err(e) => Err(e),
            }
        } else if tag == TAG_VERBATIM_STRING {
            match read_number_line(data, start + 1) {
                Ok((n, next)) => match read_text_line(data, next) {
                    Ok((tag_text, at)) => match read_blob(data, at, n) {
                        Ok((text, end)) => Ok((RObject::VerbatimString(text, tag_text), end)),
                        Err(e) => Err(e),
                    },
                    Err(e) => Err(e),
                },
                Err(e) => Err(e),
            }
        } else if tag == TAG_MAP {
            match read_number_line(data, start + 1) {
                Ok((n, next)) => if n == -1 {
                    Ok((RObject::Null, next))
                } else if n < 0 {
                    Err(ProtocolError::LengthMismatch)
                } else {
                    match Self::decode_entries(data, next, n) {
                        Ok((entries, end)) => Ok((RObject::RMap(entries), end)),
                        Err(e) => Err(e),
                    }
                },
                Err(e) => Err(e),
            }
        } else if tag == TAG_SET {
            match read_number_line(data, start + 1) {
                Ok((n, next)) => if n == -1 {
                    Ok((RObject::Null, next))
                } else if n < 0 {
                    Err(ProtocolError::LengthMismatch)
                } else {
                    match Self::decode_items(data, next, n) {
                        Ok((items, end)) => Ok((RObject::RSet(items), end)),
                        Err(e) => Err(e),
                    }
                },
                Err(e) => Err(e),
            }
        } else if tag == TAG_PUSH {
            match read_number_line(data, start + 1) {
                Ok((n, next)) => if n == -1 {
                    Ok((RObject::Null, next))
                } else if n < 0 {
                    Err(ProtocolError::LengthMismatch)
                } else {
                    match Self::decode_items(data, next, n) {
                        Ok((items, end)) => Ok((RObject::Push(items), end)),
                        Err(e) => Err(e),
                    }
                },
                Err(e) => Err(e),
            }
        } else {
            Err(ProtocolError::UnknownTypeByte)
        }
    }

    /// Decodes `n` values that stand one behind the other from `from` on.
    fn decode_items(data: &[u8], from: usize, n: i64) -> (r: Result<
        (Vec<RObject>, usize),
        ProtocolError,
    >)
        requires
            from <= data@.len(),
        ensures
            match decoded_items(data@, from as int, n as int, Seq::empty()) {
                Ok((vs, end)) => r matches Ok((items, e)) && views(items@) == vs && e == end
                    && from <= e <= data@.len(),
                Err(k) => r matches Err(e) && e == k,
            },
        decreases remaining(data@, from as int), 1nat,
    {
        let mut items: Vec<RObject> = Vec::new();
        let mut at: usize = from;
        let mut left: i64 = n;
        while left > 0
            invariant
                from <= at <= data@.len(),
                decoded_items(data@, from as int, n as int, Seq::empty()) == decoded_items(
                    data@,
                    at as int,
                    left as int,
                    views(items@),
                ),
            decreases left,
        {
            match Self::decode(data, at) {
                Ok((item, next)) => {
                    proof {
                        assert(items@.push(item).drop_last() =~= items@);
                    }
                    items.push(item);
                    at = next;
                    left = left - 1;
                },
                Err(e) => {
                    return Err(e);
                },
            }
        }
        Ok((items, at))
    }

    /// Decodes `n` entries that stand one behind the other from `from` on.
    fn decode_entries(data: &[u8], from: usize, n: i64) -> (r: Result<
        (Vec<(RObject, RObject)>, usize),
        ProtocolError,
    >)
        requires
            from <= data@.len(),
        ensures
            match decoded_entries(data@, from as int, n as int, Seq::empty()) {
                Ok((vs, end)) => r matches Ok((entries, e)) && pair_views(entries@) == vs && e
                    == end && from <= e <= data@.len(),
                Err(k) => r matches Err(e) && e == k,
            },
        decreases remaining(data@, from as int), 1nat,
    {
        let mut entries: Vec<(RObject, RObject)> = Vec::new();
        let mut at: usize = from;
        let mut left: i64 = n;
        while left > 0
            invariant
                from <= at <= data@.len(),
                sorted_keys(pair_views(entries@)),
                decoded_entries(data@, from as int, n as int, Seq::empty()) == decoded_entries(
                    data@,
                    at as int,
                    left as int,
                    pair_views(entries@),
                ),
            decreases left,
        {
            match Self::decode(data, at) {
                Ok((key, mid)) => match Self::decode(data, mid) {
                    Ok((value, next)) => {
                        set_entry(&mut entries, key, value);
                        at = next;
                        left = left - 1;
                    },
                    Err(e) => {
                        return Err(e);
                    },
                },
                Err(e) => {
                    return Err(e);
                },
            }
        }
        Ok((entries, at))
    }
}

} // verus!
