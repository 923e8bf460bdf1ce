//! What holds of the codec as a whole: what decoding yields is fit for the
//! wire, and decoding undoes encoding.

use vstd::prelude::*;
use vstd::utf8::*;
use crate::protocol::decode::{
    advances, blob, decoded, decoded_entries, decoded_items, entries_of, lemma_entries_of,
    number_line, raw_line, remaining, text_line, ProtocolError,
};
use crate::protocol::framing::{
    crlf, first_crlf, has_crlf, holds_at, is_crlf_at, lemma_first_crlf,
    lemma_first_crlf_after_text, lemma_holds_at_split, lemma_line_has_no_crlf,
};
use crate::protocol::number::{
    decimal_text, is_digit, is_float_literal, lemma_decimal_round_trip, lemma_decimal_text_bytes,
    lemma_float_literal_bytes,
};
use crate::protocol::order::{lemma_less_order, less};
use crate::protocol::r_object::{
    encoding_all, encoding_entries, header, lemma_place, lemma_place_at_end, lemma_place_behind,
    lemma_with_entry, line, place, sorted_keys, with_entry, Value, FLAG_FALSE, FLAG_TRUE, TAG_ARRAY, TAG_BIG_NUMBER, TAG_BOOLEAN, TAG_BULK_ERROR,
    TAG_BULK_STRING, TAG_DOUBLE, TAG_INTEGER, TAG_MAP, TAG_NULL, TAG_PUSH, TAG_SET,
    TAG_SIMPLE_ERROR, TAG_SIMPLE_STRING, TAG_VERBATIM_STRING,
};
use crate::protocol::text::{lemma_ascii_is_utf8, lemma_decimal_chars};

verus! {

/// A numeral holds no CRLF.
pub proof fn lemma_decimal_text_has_no_crlf(v: int)
    ensures
        !has_crlf(decimal_text(v)),
{
    lemma_decimal_text_bytes(v);
    let s = decimal_text(v);
    assert forall|i: int| !is_crlf_at(s, i) by {
        if is_crlf_at(s, i) {
            assert(is_digit(s[i]) || s[i] == 45);
        }
    }
}

/// A floating-point literal holds no CRLF.
pub proof fn lemma_float_literal_has_no_crlf(s: Seq<u8>)
    requires
        is_float_literal(s),
    ensures
        !has_crlf(s),
{
    lemma_float_literal_bytes(s);
    assert forall|i: int| !is_crlf_at(s, i) by {
        if is_crlf_at(s, i) {
            assert(s[i] != 13);
        }
    }
}

/// A line of text that ends where the buffer allows holds no CRLF, and its
/// bytes are the ones in front of its CRLF.
pub proof fn lemma_text_line(buf: Seq<u8>, from: int)
    requires
        0 <= from,
    ensures
        text_line(buf, from) matches Ok((s, next)) ==> from + 2 <= next <= buf.len() && !has_crlf(
            encode_utf8(s),
        ) && encode_utf8(s) == buf.subrange(from, next - 2),
{
    if let Ok((bytes, next)) = raw_line(buf, from) {
        let p = first_crlf(buf, from)->0;
        lemma_line_has_no_crlf(buf, from, p);
        if valid_utf8(bytes) {
            decode_utf8_encode_utf8(bytes);
        }
    }
}

/// A line that holds a numeral ends where the buffer allows.
pub proof fn lemma_number_line(buf: Seq<u8>, from: int)
    requires
        0 <= from,
    ensures
        number_line(buf, from) matches Ok((n, next)) ==> from + 2 <= next <= buf.len()
            && i64::MIN <= n <= i64::MAX,
{
    if let Ok((bytes, next)) = raw_line(buf, from) {
        let p = first_crlf(buf, from)->0;
        lemma_line_has_no_crlf(buf, from, p);
    }
}

/// A text of a declared length ends where the buffer allows, and has the length
/// declared.
pub proof fn lemma_blob(buf: Seq<u8>, from: int, n: int)
    requires
        0 <= from,
    ensures
        blob(buf, from, n) matches Ok((s, next)) ==> next == from + n + 2 && next <= buf.len()
            && n >= 0 && encode_utf8(s).len() == n,
{
    if let Ok((s, next)) = blob(buf, from, n) {
        decode_utf8_encode_utf8(buf.subrange(from, from + n));
    }
}

/// What decoding yields is fit for the wire, and its frame ends behind where
/// it started, inside the buffer.
pub proof fn lemma_decoded_sound(buf: Seq<u8>, start: int)
    ensures
        decoded(buf, start) matches Ok((v, next)) ==> v.wf() && start < next <= buf.len()
            && advances(buf, start, next),
    decreases remaining(buf, start), 0nat,
{
    if 0 <= start < buf.len() {
        lemma_text_line(buf, start + 1);
        lemma_number_line(buf, start + 1);
        let tag = buf[start];
        if tag == TAG_BULK_STRING || tag == TAG_BULK_ERROR {
            if let Ok((n, next)) = number_line(buf, start + 1) {
                lemma_blob(buf, next, n);
            }
        } else if tag == TAG_VERBATIM_STRING {
            if let Ok((n, next)) = number_line(buf, start + 1) {
                lemma_text_line(buf, next);
                if let Ok((tag_text, at)) = text_line(buf, next) {
                    lemma_blob(buf, at, n);
                }
            }
        } else if tag == TAG_ARRAY || tag == TAG_SET || tag == TAG_PUSH {
            if let Ok((n, next)) = number_line(buf, start + 1) {
                if n >= 0 {
                    lemma_decoded_items_sound(buf, next, n, Seq::empty());
                }
            }
        } else if tag == TAG_MAP {
            if let Ok((n, next)) = number_line(buf, start + 1) {
                if n >= 0 {
                    lemma_decoded_entries_sound(buf, next, n, Seq::empty());
                }
            }
        }
    }
}

/// As many values as were asked for are read, each fit for the wire, and they
/// end inside the buffer.
pub proof fn lemma_decoded_items_sound(buf: Seq<u8>, from: int, n: int, read: Seq<Value>)
    requires
        0 <= from <= buf.len(),
        0 <= n,
        forall|i: int| 0 <= i < read.len() ==> (#[trigger] read[i]).wf(),
    ensures
        decoded_items(buf, from, n, read) matches Ok((items, end)) ==> from <= end <= buf.len()
            && items.len() == read.len() + n && forall|i: int|
            0 <= i < items.len() ==> (#[trigger] items[i]).wf(),
    decreases remaining(buf, from), 1nat,
{
    if n > 0 {
        lemma_decoded_sound(buf, from);
        if let Ok((v, next)) = decoded(buf, from) {
            lemma_decoded_items_sound(buf, next, n - 1, read.push(v));
        }
    }
}

/// No more entries than were asked for are read, in the order of their keys,
/// each key and value fit for the wire, and they end inside the buffer.
pub proof fn lemma_decoded_entries_sound(
    buf: Seq<u8>,
    from: int,
    n: int,
    read: Seq<(Value, Value)>,
)
    requires
        0 <= from <= buf.len(),
        0 <= n,
        sorted_keys(read),
        forall|i: int| 0 <= i < read.len() ==> (#[trigger] read[i]).0.wf() && read[i].1.wf(),
    ensures
        decoded_entries(buf, from, n, read) matches Ok((entries, end)) ==> from <= end
            <= buf.len() && entries.len() <= read.len() + n && sorted_keys(entries)
            && forall|i: int|
            0 <= i < entries.len() ==> (#[trigger] entries[i]).0.wf() && entries[i].1.wf(),
    decreases remaining(buf, from), 1nat,
{
    if n > 0 {
        lemma_decoded_sound(buf, from);
        if let Ok((key, at)) = decoded(buf, from) {
            lemma_decoded_sound(buf, at);
            if let Ok((value, next)) = decoded(buf, at) {
                lemma_with_entry(read, key, value);
                let set = with_entry(read, key, value);
                assert forall|i: int| 0 <= i < set.len() implies (#[trigger] set[i]).0.wf()
                    && set[i].1.wf() by {
                    if set[i] != (key, value) {
                        let j = choose|j: int| 0 <= j < read.len() && set[i] == read[j];
                        assert(read[j].0.wf() && read[j].1.wf());
                    }
                }
                lemma_decoded_entries_sound(buf, next, n - 1, set);
            }
        }
    }
}

/// A line that lies in the buffer is read back: its first byte, then its text
/// up to the CRLF.
pub proof fn lemma_line_at(buf: Seq<u8>, at: int, tag: u8, text: Seq<u8>)
    requires
        holds_at(buf, at, line(tag, text)),
        !has_crlf(text),
    ensures
        0 <= at < buf.len(),
        buf[at] == tag,
        line(tag, text).len() == text.len() + 3,
        raw_line(buf, at + 1) == Ok::<(Seq<u8>, int), ProtocolError>(
            (text, at + text.len() + 3),
        ),
{
    let whole = line(tag, text);
    assert(whole =~= seq![tag] + (text + crlf()));
    lemma_holds_at_split(buf, at, seq![tag], text + crlf());
    assert(buf[at] == buf.subrange(at, at + 1)[0]);
    lemma_first_crlf_after_text(buf, at + 1, text);
    lemma_holds_at_split(buf, at + 1, text, crlf());
}

/// A line of text that lies in the buffer is read back as that text.
pub proof fn lemma_text_at(buf: Seq<u8>, at: int, tag: u8, s: Seq<char>)
    requires
        holds_at(buf, at, line(tag, encode_utf8(s))),
        !has_crlf(encode_utf8(s)),
    ensures
        0 <= at < buf.len(),
        buf[at] == tag,
        text_line(buf, at + 1) == Ok::<(Seq<char>, int), ProtocolError>(
            (s, at + line(tag, encode_utf8(s)).len()),
        ),
{
    lemma_line_at(buf, at, tag, encode_utf8(s));
    encode_utf8_valid_utf8(s);
    encode_utf8_decode_utf8(s);
}

/// A header that lies in the buffer is read back as the number it announces.
pub proof fn lemma_header_at(buf: Seq<u8>, at: int, tag: u8, n: int)
    requires
        holds_at(buf, at, header(tag, n)),
        i64::MIN <= n <= i64::MAX,
    ensures
        0 <= at < buf.len(),
        buf[at] == tag,
        header(tag, n).len() >= 4,
        number_line(buf, at + 1) == Ok::<(int, int), ProtocolError>((n, at + header(tag, n).len())),
{
    lemma_decimal_text_has_no_crlf(n);
    lemma_decimal_round_trip(n);
    lemma_line_at(buf, at, tag, decimal_text(n));
}

/// A text with CRLF behind it that lies in the buffer is read back under its
/// length.
pub proof fn lemma_blob_at(buf: Seq<u8>, at: int, s: Seq<char>)
    requires
        holds_at(buf, at, encode_utf8(s) + crlf()),
    ensures
        blob(buf, at, encode_utf8(s).len() as int) == Ok::<(Seq<char>, int), ProtocolError>(
            (s, at + encode_utf8(s).len() + 2),
        ),
{
    let text = encode_utf8(s);
    lemma_holds_at_split(buf, at, text, crlf());
    let p = at + text.len();
    assert(buf[p] == buf.subrange(p, p + 2)[0]);
    assert(buf[p + 1] == buf.subrange(p, p + 2)[1]);
    encode_utf8_valid_utf8(s);
    encode_utf8_decode_utf8(s);
}

/// The encodings of items, one behind the other, start with the encoding of the
/// first.
pub proof fn lemma_encoding_all_front(items: Seq<Value>)
    requires
        items.len() > 0,
    ensures
        encoding_all(items) == items.first().encoding() + encoding_all(items.drop_first()),
    decreases items.len(),
{
    if items.len() == 1 {
        assert(items.drop_last() =~= Seq::<Value>::empty());
        assert(items.drop_first() =~= Seq::<Value>::empty());
        assert(encoding_all(items) =~= items.first().encoding() + encoding_all(
            items.drop_first(),
        ));
    } else {
        lemma_encoding_all_front(items.drop_last());
        let rest = items.drop_first();
        assert(rest.drop_last() =~= items.drop_last().drop_first());
        assert(rest.last() == items.last());
        assert(items.drop_last().first() == items.first());
        assert(encoding_all(items) =~= items.first().encoding() + encoding_all(rest));
    }
}

/// The encodings of entries, one behind the other, start with the first key and
/// the first value.
pub proof fn lemma_encoding_entries_front(entries: Seq<(Value, Value)>)
    requires
        entries.len() > 0,
    ensures
        encoding_entries(entries) == entries.first().0.encoding() + entries.first().1.encoding()
            + encoding_entries(entries.drop_first()),
    decreases entries.len(),
{
    if entries.len() == 1 {
        assert(entries.drop_last() =~= Seq::<(Value, Value)>::empty());
        assert(entries.drop_first() =~= Seq::<(Value, Value)>::empty());
        assert(encoding_entries(entries) =~= entries.first().0.encoding()
            + entries.first().1.encoding() + encoding_entries(entries.drop_first()));
    } else {
        lemma_encoding_entries_front(entries.drop_last());
        let rest = entries.drop_first();
        assert(rest.drop_last() =~= entries.drop_last().drop_first());
        assert(rest.last() == entries.last());
        assert(entries.drop_last().first() == entries.first());
        assert(encoding_entries(entries) =~= entries.first().0.encoding()
            + entries.first().1.encoding() + encoding_entries(rest));
    }
}

/// A line of text is read back: a simple string, a simple error, a double
/// or a big number.
proof fn lemma_round_trip_line(buf: Seq<u8>, at: int, v: Value)
    requires
        v.wf(),
        holds_at(buf, at, v.encoding()),
        v is SimpleString || v is SimpleError || v is Double || v is BigNumber,
    ensures
        decoded(buf, at) == Ok::<(Value, int), ProtocolError>((v, at + v.encoding().len())),
        v.encoding().len() >= 3,
{
    match v {
        Value::SimpleString(s) => {
            lemma_text_at(buf, at, TAG_SIMPLE_STRING, s);
        },
        Value::SimpleError(s) => {
            lemma_text_at(buf, at, TAG_SIMPLE_ERROR, s);
        },
        Value::Double(s) => {
            lemma_float_literal_has_no_crlf(encode_utf8(s));
            lemma_text_at(buf, at, TAG_DOUBLE, s);
        },
        Value::BigNumber(s) => {
            lemma_text_at(buf, at, TAG_BIG_NUMBER, s);
        },
        _ => {},
    }
}

/// A value that is one short line is read back: an integer, a null, a truth
/// value.
proof fn lemma_round_trip_word(buf: Seq<u8>, at: int, v: Value)
    requires
        v.wf(),
        holds_at(buf, at, v.encoding()),
        v is Integer || v is NullBulkString || v is NullArray || v is Null || v is Boolean,
    ensures
        decoded(buf, at) == Ok::<(Value, int), ProtocolError>((v, at + v.encoding().len())),
        v.encoding().len() >= 3,
{
    match v {
        Value::Integer(i) => {
            lemma_header_at(buf, at, TAG_INTEGER, i);
        },
        Value::NullBulkString => {
            lemma_header_at(buf, at, TAG_BULK_STRING, -1);
        },
        Value::NullArray => {
            lemma_header_at(buf, at, TAG_ARRAY, -1);
        },
        Value::Null => {
            let text = Seq::<u8>::empty();
            assert(!has_crlf(text));
            lemma_line_at(buf, at, TAG_NULL, text);
            lemma_first_crlf(buf, at + 1);
        },
        Value::Boolean(b) => {
            let text = if b {
                seq![FLAG_TRUE]
            } else {
                seq![FLAG_FALSE]
            };
            assert(!has_crlf(text));
            lemma_line_at(buf, at, TAG_BOOLEAN, text);
            lemma_first_crlf(buf, at + 1);
            assert(buf.subrange(at + 1, at + 2)[0] == text[0]);
        },
        _ => {},
    }
}

/// A text under its length is read back: a bulk string, a bulk error, a
/// verbatim string.
proof fn lemma_round_trip_blob(buf: Seq<u8>, at: int, v: Value)
    requires
        v.wf(),
        holds_at(buf, at, v.encoding()),
        v is BulkString || v is BulkError || v is VerbatimString,
    ensures
        decoded(buf, at) == Ok::<(Value, int), ProtocolError>((v, at + v.encoding().len())),
        v.encoding().len() >= 3,
{
    match v {
        Value::BulkString(s) => {
            let n = encode_utf8(s).len() as int;
            let h = header(TAG_BULK_STRING, n);
            assert(v.encoding() =~= h + (encode_utf8(s) + crlf()));
            lemma_holds_at_split(buf, at, h, encode_utf8(s) + crlf());
            lemma_header_at(buf, at, TAG_BULK_STRING, n);
            lemma_blob_at(buf, at + h.len(), s);
        },
        Value::BulkError(s) => {
            let n = encode_utf8(s).len() as int;
            let h = header(TAG_BULK_ERROR, n);
            assert(v.encoding() =~= h + (encode_utf8(s) + crlf()));
            lemma_holds_at_split(buf, at, h, encode_utf8(s) + crlf());
            lemma_header_at(buf, at, TAG_BULK_ERROR, n);
            lemma_blob_at(buf, at + h.len(), s);
        },
        Value::VerbatimString(text, tag) => {
            let n = encode_utf8(text).len() as int;
            let h = header(TAG_VERBATIM_STRING, n);
            let tag_line = encode_utf8(tag) + crlf();
            let body = encode_utf8(text) + crlf();
            assert(v.encoding() =~= h + (tag_line + body));
            lemma_holds_at_split(buf, at, h, tag_line + body);
            lemma_header_at(buf, at, TAG_VERBATIM_STRING, n);
            let mid = at + h.len();
            lemma_holds_at_split(buf, mid, tag_line, body);
            lemma_first_crlf_after_text(buf, mid, encode_utf8(tag));
            lemma_holds_at_split(buf, mid, encode_utf8(tag), crlf());
            encode_utf8_valid_utf8(tag);
            encode_utf8_decode_utf8(tag);
            lemma_blob_at(buf, mid + tag_line.len(), text);
        },
        _ => {},
    }
}

/// Wherever the encoding of a fit value lies in a buffer, decoding at that
/// offset gives the value back and ends right behind the encoding.
pub proof fn lemma_round_trip_at(buf: Seq<u8>, at: int, v: Value)
    requires
        v.wf(),
        holds_at(buf, at, v.encoding()),
    ensures
        decoded(buf, at) == Ok::<(Value, int), ProtocolError>((v, at + v.encoding().len())),
        v.encoding().len() >= 3,
    decreases v, 0nat,
{
    match v {
        Value::Array(items) => {
            let n = items.len() as int;
            let h = header(TAG_ARRAY, n);
            lemma_holds_at_split(buf, at, h, encoding_all(items));
            lemma_header_at(buf, at, TAG_ARRAY, n);
            lemma_round_trip_items(buf, at + h.len(), items, Seq::empty());
            assert(Seq::<Value>::empty() + items =~= items);
        },
        Value::RMap(entries) => {
            let n = entries.len() as int;
            let h = header(TAG_MAP, n);
            lemma_holds_at_split(buf, at, h, encoding_entries(entries));
            lemma_header_at(buf, at, TAG_MAP, n);
            assert(Seq::<(Value, Value)>::empty() + entries =~= entries);
            lemma_round_trip_entries(buf, at + h.len(), entries, Seq::empty());
        },
        Value::RSet(items) => {
            let n = items.len() as int;
            let h = header(TAG_SET, n);
            lemma_holds_at_split(buf, at, h, encoding_all(items));
            lemma_header_at(buf, at, TAG_SET, n);
            lemma_round_trip_items(buf, at + h.len(), items, Seq::empty());
            assert(Seq::<Value>::empty() + items =~= items);
        },
        Value::Push(items) => {
            let n = items.len() as int;
            let h = header(TAG_PUSH, n);
            lemma_holds_at_split(buf, at, h, encoding_all(items));
            lemma_header_at(buf, at, TAG_PUSH, n);
            lemma_round_trip_items(buf, at + h.len(), items, Seq::empty());
            assert(Seq::<Value>::empty() + items =~= items);
        },
        Value::SimpleString(_) | Value::SimpleError(_) | Value::Double(_) | Value::BigNumber(_) => {
            lemma_round_trip_line(buf, at, v);
        },
        Value::BulkString(_) | Value::BulkError(_) | Value::VerbatimString(_, _) => {
            lemma_round_trip_blob(buf, at, v);
        },
        _ => {
            lemma_round_trip_word(buf, at, v);
        },
    }
}

/// Wherever the encodings of fit items lie in a buffer one behind the other,
/// decoding as many values there gives the items back, behind those already
/// read.
pub proof fn lemma_round_trip_items(buf: Seq<u8>, at: int, items: Seq<Value>, read: Seq<Value>)
    requires
        forall|i: int| 0 <= i < items.len() ==> (#[trigger] items[i]).wf(),
        holds_at(buf, at, encoding_all(items)),
    ensures
        decoded_items(buf, at, items.len() as int, read) == Ok::<(Seq<Value>, int), ProtocolError>(
            (read + items, at + encoding_all(items).len()),
        ),
    decreases items, 1nat,
{
    if items.len() == 0 {
        assert(read + items =~= read);
    } else {
        let first = items.first();
        let rest = items.drop_first();
        lemma_encoding_all_front(items);
        lemma_holds_at_split(buf, at, first.encoding(), encoding_all(rest));
        assert(first.wf());
        lemma_round_trip_at(buf, at, first);
        let next = at + first.encoding().len();
        assert forall|i: int| 0 <= i < rest.len() implies (#[trigger] rest[i]).wf() by {
            assert(rest[i] == items[i + 1]);
        }
        lemma_round_trip_items(buf, next, rest, read.push(first));
        assert(read.push(first) + rest =~= read + items);
    }
}

/// Wherever the encodings of fit entries lie in a buffer one behind the other,
/// in the order of their keys and behind the keys already read, decoding as
/// many entries there gives them back, behind those already read.
pub proof fn lemma_round_trip_entries(
    buf: Seq<u8>,
    at: int,
    entries: Seq<(Value, Value)>,
    read: Seq<(Value, Value)>,
)
    requires
        forall|i: int|
            0 <= i < entries.len() ==> (#[trigger] entries[i]).0.wf() && entries[i].1.wf(),
        sorted_keys(read + entries),
        holds_at(buf, at, encoding_entries(entries)),
    ensures
        decoded_entries(buf, at, entries.len() as int, read) == Ok::<
            (Seq<(Value, Value)>, int),
            ProtocolError,
        >((read + entries, at + encoding_entries(entries).len())),
    decreases entries, 1nat,
{
    if entries.len() == 0 {
        assert(read + entries =~= read);
    } else {
        let first = entries.first();
        let rest = entries.drop_first();
        let all = read + entries;
        lemma_encoding_entries_front(entries);
        assert(encoding_entries(entries) =~= first.0.encoding() + (first.1.encoding()
            + encoding_entries(rest)));
        lemma_holds_at_split(
            buf,
            at,
            first.0.encoding(),
            first.1.encoding() + encoding_entries(rest),
        );
        assert(first.0.wf() && first.1.wf());
        lemma_round_trip_at(buf, at, first.0);
        let mid = at + first.0.encoding().len();
        lemma_holds_at_split(buf, mid, first.1.encoding(), encoding_entries(rest));
        lemma_round_trip_at(buf, mid, first.1);
        let next = mid + first.1.encoding().len();
        assert forall|j: int| 0 <= j < read.len() implies less(
            (#[trigger] read[j]).0.encoding(),
            first.0.encoding(),
        ) by {
            assert(all[j] == read[j]);
            assert(all[read.len() as int] == first);
            assert(less(all[j].0.encoding(), all[read.len() as int].0.encoding()));
        }
        lemma_place_at_end(read, first.0.encoding(), 0);
        assert(with_entry(read, first.0, first.1) =~= read.push(first));
        assert(read.push(first) + rest =~= all);
        assert forall|i: int| 0 <= i < rest.len() implies (#[trigger] rest[i]).0.wf()
            && rest[i].1.wf() by {
            assert(rest[i] == entries[i + 1]);
        }
        lemma_round_trip_entries(buf, next, rest, read.push(first));
    }
}

/// A line around well-formed UTF-8 is well-formed UTF-8, for a type byte below
/// 128.
pub proof fn lemma_line_is_utf8(tag: u8, text: Seq<u8>)
    requires
        tag < 128,
        valid_utf8(text),
    ensures
        valid_utf8(line(tag, text)),
{
    lemma_ascii_is_utf8(seq![tag]);
    lemma_ascii_is_utf8(crlf());
    valid_utf8_concat(seq![tag], text);
    valid_utf8_concat(seq![tag] + text, crlf());
}

/// A header is well-formed UTF-8, for a type byte below 128.
pub proof fn lemma_header_is_utf8(tag: u8, n: int)
    requires
        tag < 128,
    ensures
        valid_utf8(header(tag, n)),
{
    lemma_decimal_chars(n);
    lemma_line_is_utf8(tag, decimal_text(n));
}

/// The encoding of a value is well-formed UTF-8.
pub proof fn lemma_encoding_is_utf8(v: Value)
    ensures
        valid_utf8(v.encoding()),
    decreases v, 0nat,
{
    lemma_ascii_is_utf8(crlf());
    match v {
        Value::SimpleString(s) => {
            encode_utf8_valid_utf8(s);
            lemma_line_is_utf8(TAG_SIMPLE_STRING, encode_utf8(s));
        },
        Value::SimpleError(s) => {
            encode_utf8_valid_utf8(s);
            lemma_line_is_utf8(TAG_SIMPLE_ERROR, encode_utf8(s));
        },
        Value::Integer(i) => {
            lemma_header_is_utf8(TAG_INTEGER, i);
        },
        Value::BulkString(s) => {
            encode_utf8_valid_utf8(s);
            lemma_header_is_utf8(TAG_BULK_STRING, encode_utf8(s).len() as int);
            valid_utf8_concat(header(TAG_BULK_STRING, encode_utf8(s).len() as int), encode_utf8(s));
            valid_utf8_concat(
                header(TAG_BULK_STRING, encode_utf8(s).len() as int) + encode_utf8(s),
                crlf(),
            );
        },
        Value::NullBulkString => {
            lemma_header_is_utf8(TAG_BULK_STRING, -1);
        },
        Value::Array(items) => {
            lemma_header_is_utf8(TAG_ARRAY, items.len() as int);
            lemma_encoding_all_is_utf8(items);
            valid_utf8_concat(header(TAG_ARRAY, items.len() as int), encoding_all(items));
        },
        Value::NullArray => {
            lemma_header_is_utf8(TAG_ARRAY, -1);
        },
        Value::Null => {
            lemma_ascii_is_utf8(Seq::<u8>::empty());
            lemma_line_is_utf8(TAG_NULL, Seq::empty());
        },
        Value::Boolean(b) => {
            lemma_ascii_is_utf8(seq![FLAG_TRUE]);
            lemma_ascii_is_utf8(seq![FLAG_FALSE]);
            lemma_line_is_utf8(
                TAG_BOOLEAN,
                if b {
                    seq![FLAG_TRUE]
                } else {
                    seq![FLAG_FALSE]
                },
            );
        },
        Value::Double(s) => {
            encode_utf8_valid_utf8(s);
            lemma_line_is_utf8(TAG_DOUBLE, encode_utf8(s));
        },
        Value::BigNumber(s) => {
            encode_utf8_valid_utf8(s);
            lemma_line_is_utf8(TAG_BIG_NUMBER, encode_utf8(s));
        },
        Value::BulkError(s) => {
            encode_utf8_valid_utf8(s);
            lemma_header_is_utf8(TAG_BULK_ERROR, encode_utf8(s).len() as int);
            valid_utf8_concat(header(TAG_BULK_ERROR, encode_utf8(s).len() as int), encode_utf8(s));
            valid_utf8_concat(
                header(TAG_BULK_ERROR, encode_utf8(s).len() as int) + encode_utf8(s),
                crlf(),
            );
        },
        Value::VerbatimString(text, tag) => {
            encode_utf8_valid_utf8(text);
            encode_utf8_valid_utf8(tag);
            let h = header(TAG_VERBATIM_STRING, encode_utf8(text).len() as int);
            lemma_header_is_utf8(TAG_VERBATIM_STRING, encode_utf8(text).len() as int);
            valid_utf8_concat(h, encode_utf8(tag));
            valid_utf8_concat(h + encode_utf8(tag), crlf());
            valid_utf8_concat(h + encode_utf8(tag) + crlf(), encode_utf8(text));
            valid_utf8_concat(h + encode_utf8(tag) + crlf() + encode_utf8(text), crlf());
        },
        Value::RMap(entries) => {
            lemma_header_is_utf8(TAG_MAP, entries.len() as int);
            lemma_encoding_entries_is_utf8(entries);
            valid_utf8_concat(header(TAG_MAP, entries.len() as int), encoding_entries(entries));
        },
        Value::RSet(items) => {
            lemma_header_is_utf8(TAG_SET, items.len() as int);
            lemma_encoding_all_is_utf8(items);
            valid_utf8_concat(header(TAG_SET, items.len() as int), encoding_all(items));
        },
        Value::Push(items) => {
            lemma_header_is_utf8(TAG_PUSH, items.len() as int);
            lemma_encoding_all_is_utf8(items);
            valid_utf8_concat(header(TAG_PUSH, items.len() as int), encoding_all(items));
        },
    }
}

/// The encodings of items, one behind the other, are well-formed UTF-8.
pub proof fn lemma_encoding_all_is_utf8(items: Seq<Value>)
    ensures
        valid_utf8(encoding_all(items)),
    decreases items, 1nat,
{
    if items.len() > 0 {
        lemma_encoding_all_is_utf8(items.drop_last());
        lemma_encoding_is_utf8(items.last());
        valid_utf8_concat(encoding_all(items.drop_last()), items.last().encoding());
    }
}

/// The encodings of entries, one behind the other, are well-formed UTF-8.
pub proof fn lemma_encoding_entries_is_utf8(entries: Seq<(Value, Value)>)
    ensures
        valid_utf8(encoding_entries(entries)),
    decreases entries, 1nat,
{
    if entries.len() > 0 {
        lemma_encoding_entries_is_utf8(entries.drop_last());
        lemma_encoding_is_utf8(entries.last().0);
        lemma_encoding_is_utf8(entries.last().1);
        valid_utf8_concat(encoding_entries(entries.drop_last()), entries.last().0.encoding());
        valid_utf8_concat(
            encoding_entries(entries.drop_last()) + entries.last().0.encoding(),
            entries.last().1.encoding(),
        );
    }
}

/// Decoding undoes encoding: the encoding of a fit value decodes to that value
/// and is used up to its last byte.
pub proof fn law_decode_encode(v: Value)
    requires
        v.wf(),
    ensures
        decoded(v.encoding(), 0) == Ok::<(Value, int), ProtocolError>(
            (v, v.encoding().len() as int),
        ),
{
    let buf = v.encoding();
    assert(buf.subrange(0, buf.len() as int) =~= buf);
    lemma_round_trip_at(buf, 0, v);
}

/// Fit values with the same encoding are the same value.
pub proof fn lemma_encoding_tells_apart(a: Value, b: Value)
    requires
        a.wf(),
        b.wf(),
        a.encoding() == b.encoding(),
    ensures
        a == b,
{
    law_decode_encode(a);
    law_decode_encode(b);
}

/// The entries hold the entry somewhere.
pub open spec fn holds(entries: Seq<(Value, Value)>, entry: (Value, Value)) -> bool {
    exists|i: int| 0 <= i < entries.len() && #[trigger] entries[i] == entry
}

/// After a key was set, the entries hold the entry set, and they still hold
/// what they held under another key.
proof fn lemma_with_entry_keeps(
    entries: Seq<(Value, Value)>,
    key: Value,
    value: Value,
    x: (Value, Value),
)
    requires
        x == (key, value) || (holds(entries, x) && x.0.encoding() != key.encoding()),
    ensures
        holds(with_entry(entries, key, value), x),
{
    let code = key.encoding();
    let at = place(entries, code, 0);
    let after = with_entry(entries, key, value);
    lemma_place(entries, code, 0);
    let replaces = at < entries.len() && entries[at].0.encoding() == code;
    assert(after[at] == (key, value));
    if x != (key, value) {
        let j = choose|j: int| 0 <= j < entries.len() && #[trigger] entries[j] == x;
        if replaces || j < at {
            assert(after[j] == x);
        } else {
            assert(after[j + 1] == x);
        }
    }
}

/// After a key was set, the entries hold nothing but the entry set and what
/// they held before under another key.
proof fn lemma_with_entry_adds(
    entries: Seq<(Value, Value)>,
    key: Value,
    value: Value,
    x: (Value, Value),
)
    requires
        sorted_keys(entries),
        holds(with_entry(entries, key, value), x),
        x != (key, value),
    ensures
        holds(entries, x),
        x.0.encoding() != key.encoding(),
{
    let code = key.encoding();
    let at = place(entries, code, 0);
    let after = with_entry(entries, key, value);
    lemma_place(entries, code, 0);
    lemma_place_behind(entries, code);
    let replaces = at < entries.len() && entries[at].0.encoding() == code;
    assert(after[at] == (key, value));
    let i = choose|i: int| 0 <= i < after.len() && #[trigger] after[i] == x;
    lemma_less_order(x.0.encoding(), code);
    if replaces {
        assert(entries[i] == x);
        lemma_less_order(entries[i].0.encoding(), entries[at].0.encoding());
        if i < at {
            assert(less(entries[i].0.encoding(), entries[at].0.encoding()));
        } else {
            assert(less(entries[at].0.encoding(), entries[i].0.encoding()));
        }
    } else if i < at {
        assert(entries[i] == x);
    } else {
        assert(entries[i - 1] == x);
    }
}

/// After a key was set, the entries hold the entry set and, of what they held
/// before, everything under another key; nothing else.
pub proof fn lemma_with_entry_holds(
    entries: Seq<(Value, Value)>,
    key: Value,
    value: Value,
    x: (Value, Value),
)
    requires
        sorted_keys(entries),
    ensures
        holds(with_entry(entries, key, value), x) <==> (x == (key, value) || (holds(entries, x)
            && x.0.encoding() != key.encoding())),
{
    if x == (key, value) || (holds(entries, x) && x.0.encoding() != key.encoding()) {
        lemma_with_entry_keeps(entries, key, value, x);
    }
    if holds(with_entry(entries, key, value), x) && x != (key, value) {
        lemma_with_entry_adds(entries, key, value, x);
    }
}

/// Entries in the order of their keys are told by what they hold: two such
/// sequences that hold the same entries are the same sequence.
pub proof fn lemma_sorted_entries_are_unique(a: Seq<(Value, Value)>, b: Seq<(Value, Value)>)
    requires
        sorted_keys(a),
        sorted_keys(b),
        forall|x: (Value, Value)| holds(a, x) <==> holds(b, x),
    ensures
        a == b,
    decreases a.len(),
{
    if a.len() == 0 {
        if b.len() > 0 {
            assert(holds(b, b[0]));
        }
        assert(a =~= b);
    } else {
        assert(holds(a, a[0]));
        assert(holds(b, a[0]));
        let j = choose|j: int| 0 <= j < b.len() && #[trigger] b[j] == a[0];
        assert(holds(b, b[0]));
        assert(holds(a, b[0]));
        let i = choose|i: int| 0 <= i < a.len() && #[trigger] a[i] == b[0];
        if i > 0 && j > 0 {
            assert(less(a[0].0.encoding(), a[i].0.encoding()));
            assert(less(b[0].0.encoding(), b[j].0.encoding()));
            lemma_less_order(a[0].0.encoding(), b[0].0.encoding());
        }
        assert(a[0] == b[0]);
        let ra = a.drop_first();
        let rb = b.drop_first();
        assert forall|x: (Value, Value)| holds(ra, x) <==> holds(rb, x) by {
            lemma_less_order(x.0.encoding(), x.0.encoding());
            if holds(ra, x) {
                let m = choose|m: int| 0 <= m < ra.len() && #[trigger] ra[m] == x;
                assert(a[m + 1] == x);
                assert(less(a[0].0.encoding(), a[m + 1].0.encoding()));
                assert(holds(a, x));
                let n = choose|n: int| 0 <= n < b.len() && #[trigger] b[n] == x;
                assert(n > 0);
                assert(rb[n - 1] == x);
            }
            if holds(rb, x) {
                let m = choose|m: int| 0 <= m < rb.len() && #[trigger] rb[m] == x;
                assert(b[m + 1] == x);
                assert(less(b[0].0.encoding(), b[m + 1].0.encoding()));
                assert(holds(b, x));
                let n = choose|n: int| 0 <= n < a.len() && #[trigger] a[n] == x;
                assert(n > 0);
                assert(ra[n - 1] == x);
            }
        }
        assert forall|p: int, q: int| 0 <= p < q < ra.len() implies less(
            (#[trigger] ra[p]).0.encoding(),
            (#[trigger] ra[q]).0.encoding(),
        ) by {
            assert(less(a[p + 1].0.encoding(), a[q + 1].0.encoding()));
        }
        assert forall|p: int, q: int| 0 <= p < q < rb.len() implies less(
            (#[trigger] rb[p]).0.encoding(),
            (#[trigger] rb[q]).0.encoding(),
        ) by {
            assert(less(b[p + 1].0.encoding(), b[q + 1].0.encoding()));
        }
        lemma_sorted_entries_are_unique(ra, rb);
        assert(a =~= seq![a[0]] + ra);
        assert(b =~= seq![b[0]] + rb);
    }
}

/// A map does not tell in which order its entries were put in: setting two
/// keys one after the other gives the same entries, and so the same encoding,
/// as setting them the other way round.
pub proof fn law_map_is_the_same_in_any_order(
    entries: Seq<(Value, Value)>,
    first: (Value, Value),
    second: (Value, Value),
)
    requires
        sorted_keys(entries),
        first.0.wf(),
        second.0.wf(),
        first.0 != second.0,
    ensures
        with_entry(with_entry(entries, first.0, first.1), second.0, second.1) == with_entry(
            with_entry(entries, second.0, second.1),
            first.0,
            first.1,
        ),
        Value::RMap(
            with_entry(with_entry(entries, first.0, first.1), second.0, second.1),
        ).encoding() == Value::RMap(
            with_entry(with_entry(entries, second.0, second.1), first.0, first.1),
        ).encoding(),
{
    let one = with_entry(entries, first.0, first.1);
    let other = with_entry(entries, second.0, second.1);
    let one_two = with_entry(one, second.0, second.1);
    let two_one = with_entry(other, first.0, first.1);
    lemma_with_entry(entries, first.0, first.1);
    lemma_with_entry(entries, second.0, second.1);
    lemma_with_entry(one, second.0, second.1);
    lemma_with_entry(other, first.0, first.1);
    if first.0.encoding() == second.0.encoding() {
        lemma_encoding_tells_apart(first.0, second.0);
    }
    assert forall|x: (Value, Value)| holds(one_two, x) <==> holds(two_one, x) by {
        lemma_with_entry_holds(entries, first.0, first.1, x);
        lemma_with_entry_holds(entries, second.0, second.1, x);
        lemma_with_entry_holds(one, second.0, second.1, x);
        lemma_with_entry_holds(other, first.0, first.1, x);
    }
    lemma_sorted_entries_are_unique(one_two, two_one);
}

/// The two pairs given last can change places, and the map is the same.
proof fn lemma_entries_of_last_two(
    before: Seq<(Value, Value)>,
    one: (Value, Value),
    other: (Value, Value),
)
    requires
        one.0.wf(),
        other.0.wf(),
        one.0 != other.0,
    ensures
        entries_of(before + seq![one, other]) == entries_of(before + seq![other, one]),
{
    let left = before + seq![one, other];
    let right = before + seq![other, one];
    let l1 = left.drop_last();
    let r1 = right.drop_last();
    assert(l1 =~= before + seq![one]);
    assert(r1 =~= before + seq![other]);
    assert(l1.drop_last() =~= before);
    assert(r1.drop_last() =~= before);
    assert(left.last() == other && right.last() == one);
    assert(l1.last() == one && r1.last() == other);
    assert(entries_of(l1) == with_entry(entries_of(before), one.0, one.1));
    assert(entries_of(r1) == with_entry(entries_of(before), other.0, other.1));
    assert(entries_of(left) == with_entry(entries_of(l1), other.0, other.1));
    assert(entries_of(right) == with_entry(entries_of(r1), one.0, one.1));
    lemma_entries_of(before);
    law_map_is_the_same_in_any_order(entries_of(before), one, other);
}

/// A map does not tell in which order its pairs were given: two pairs with
/// different keys that stand side by side among the pairs can change places,
/// and the map, and so its encoding, is the same. Any other order of the pairs
/// is reached by such changes.
pub proof fn law_map_of_pairs_in_any_order(
    before: Seq<(Value, Value)>,
    one: (Value, Value),
    other: (Value, Value),
    after: Seq<(Value, Value)>,
)
    requires
        one.0.wf(),
        other.0.wf(),
        one.0 != other.0,
    ensures
        entries_of(before + seq![one, other] + after) == entries_of(
            before + seq![other, one] + after,
        ),
    decreases after.len(),
{
    let left = before + seq![one, other] + after;
    let right = before + seq![other, one] + after;
    if after.len() == 0 {
        assert(left =~= before + seq![one, other]);
        assert(right =~= before + seq![other, one]);
        lemma_entries_of_last_two(before, one, other);
    } else {
        law_map_of_pairs_in_any_order(before, one, other, after.drop_last());
        assert(left.drop_last() =~= before + seq![one, other] + after.drop_last());
        assert(right.drop_last() =~= before + seq![other, one] + after.drop_last());
        assert(left.last() == after.last() && right.last() == after.last());
    }
}

} // verus!
