//! The protocol's value type, its mathematical model and its encoding.

use vstd::prelude::*;
use vstd::utf8::*;
use crate::protocol::framing::{
    crlf, find_crlf, has_crlf, lemma_first_crlf, push_bytes, push_crlf, text_of,
};
use crate::protocol::number::{
    decimal_text, format_i64, format_u64, is_float_literal, is_float_text,
};
use crate::protocol::order::{bytes_less, lemma_less_order, lemma_less_transitive, less};

verus! {

/// The byte that tells the type of a frame: `+`, a simple string.
pub const TAG_SIMPLE_STRING: u8 = 43;

/// `-`, a simple error.
pub const TAG_SIMPLE_ERROR: u8 = 45;

/// `:`, an integer.
pub const TAG_INTEGER: u8 = 58;

/// `$`, a bulk string.
pub const TAG_BULK_STRING: u8 = 36;

/// `*`, an array.
pub const TAG_ARRAY: u8 = 42;

/// `_`, the null.
pub const TAG_NULL: u8 = 95;

/// `#`, a truth value.
pub const TAG_BOOLEAN: u8 = 35;

/// `,`, a double.
pub const TAG_DOUBLE: u8 = 44;

/// `(`, a big number.
pub const TAG_BIG_NUMBER: u8 = 40;

/// `!`, a bulk error.
pub const TAG_BULK_ERROR: u8 = 33;

/// `=`, a verbatim string.
pub const TAG_VERBATIM_STRING: u8 = 61;

/// `%`, a map.
pub const TAG_MAP: u8 = 37;

/// `~`, a set.
pub const TAG_SET: u8 = 126;

/// `>`, a push.
pub const TAG_PUSH: u8 = 62;

/// `t`, what a true truth value holds.
pub const FLAG_TRUE: u8 = 116;

/// `f`, what a false truth value holds.
pub const FLAG_FALSE: u8 = 102;

/// A value of the wire protocol.
///
/// Text is held as `String`. A double is held as the text of its literal, so
/// that what was received is what is sent again.
///
/// A map is held as its entries in the order of the encodings of their keys,
/// and no key comes twice. That is its one canonical form: maps that hold the
/// same entries are the same value and have the same encoding, in whatever
/// order the entries were put in. Any value can be a key, an aggregate too; a
/// map that is a key is in its canonical form like any other. `map_of` makes a
/// map of pairs in any order and `set_entry` sets one entry where it belongs;
/// decoding goes through them. Of a map put together by hand,
/// `is_well_formed` tells whether it stands in its canonical form.
#[derive(Debug, Hash)]
pub enum RObject {
    SimpleString(String),
    SimpleError(String),
    Integer(i64),
    BulkString(String),
    NullBulkString,
    Array(Vec<RObject>),
    NullArray,
    Null,
    Boolean(bool),
    Double(String),
    BigNumber(String),
    BulkError(String),
    /// The text, then the tag that names its encoding.
    VerbatimString(String, String),
    RMap(Vec<(RObject, RObject)>),
    RSet(Vec<RObject>),
    Push(Vec<RObject>),
}

/// The mathematical value that an [`RObject`] stands for.
pub enum Value {
    SimpleString(Seq<char>),
    SimpleError(Seq<char>),
    Integer(int),
    BulkString(Seq<char>),
    NullBulkString,
    Array(Seq<Value>),
    NullArray,
    Null,
    Boolean(bool),
    Double(Seq<char>),
    BigNumber(Seq<char>),
    BulkError(Seq<char>),
    VerbatimString(Seq<char>, Seq<char>),
    RMap(Seq<(Value, Value)>),
    RSet(Seq<Value>),
    Push(Seq<Value>),
}

/// The values that a sequence of objects stands for, one for one.
pub open spec fn views(items: Seq<RObject>) -> Seq<Value>
    decreases items,
{
    if items.len() == 0 {
        Seq::empty()
    } else {
        views(items.drop_last()).push(items.last().view())
    }
}

/// The entries that a sequence of pairs of objects stands for, one for one.
pub open spec fn pair_views(items: Seq<(RObject, RObject)>) -> Seq<(Value, Value)>
    decreases items,
{
    if items.len() == 0 {
        Seq::empty()
    } else {
        pair_views(items.drop_last()).push((items.last().0.view(), items.last().1.view()))
    }
}

impl View for RObject {
    type V = Value;

    open spec fn view(&self) -> Value
        decreases self,
    {
        match self {
            RObject::SimpleString(s) => Value::SimpleString(s@),
            RObject::SimpleError(s) => Value::SimpleError(s@),
            RObject::Integer(i) => Value::Integer(*i as int),
            RObject::BulkString(s) => Value::BulkString(s@),
            RObject::NullBulkString => Value::NullBulkString,
            RObject::Array(items) => Value::Array(views(items@)),
            RObject::NullArray => Value::NullArray,
            RObject::Null => Value::Null,
            RObject::Boolean(b) => Value::Boolean(*b),
            RObject::Double(s) => Value::Double(s@),
            RObject::BigNumber(s) => Value::BigNumber(s@),
            RObject::BulkError(s) => Value::BulkError(s@),
            RObject::VerbatimString(text, tag) => Value::VerbatimString(text@, tag@),
            RObject::RMap(entries) => Value::RMap(pair_views(entries@)),
            RObject::RSet(items) => Value::RSet(views(items@)),
            RObject::Push(items) => Value::Push(views(items@)),
        }
    }
}

/// `views` goes item by item.
pub proof fn lemma_views(items: Seq<RObject>)
    ensures
        views(items).len() == items.len(),
        forall|i: int| 0 <= i < items.len() ==> (#[trigger] views(items)[i]) == items[i]@,
    decreases items.len(),
{
    if items.len() > 0 {
        lemma_views(items.drop_last());
        let head = views(items.drop_last());
        assert(views(items) == head.push(items.last()@));
        assert forall|i: int| 0 <= i < items.len() implies (#[trigger] views(items)[i])
            == items[i]@ by {
            if i < items.len() - 1 {
                assert(head[i] == items.drop_last()[i]@);
            }
        }
    }
}

/// `pair_views` goes entry by entry.
pub proof fn lemma_pair_views(items: Seq<(RObject, RObject)>)
    ensures
        pair_views(items).len() == items.len(),
        forall|i: int|
            0 <= i < items.len() ==> (#[trigger] pair_views(items)[i]) == (
                items[i].0@,
                items[i].1@,
            ),
    decreases items.len(),
{
    if items.len() > 0 {
        lemma_pair_views(items.drop_last());
        let head = pair_views(items.drop_last());
        assert(pair_views(items) == head.push((items.last().0@, items.last().1@)));
        assert forall|i: int| 0 <= i < items.len() implies (#[trigger] pair_views(items)[i]) == (
            items[i].0@,
            items[i].1@,
        ) by {
            if i < items.len() - 1 {
                assert(head[i] == (items.drop_last()[i].0@, items.drop_last()[i].1@));
            }
        }
    }
}

/// The entries stand in the order of the encodings of their keys, each key
/// before the next. So no key comes twice, and entries that hold the same keys
/// stand in the same order however they were put in.
pub open spec fn sorted_keys(entries: Seq<(Value, Value)>) -> bool {
    forall|i: int, j: int|
        0 <= i < j < entries.len() ==> less(
            (#[trigger] entries[i]).0.encoding(),
            (#[trigger] entries[j]).0.encoding(),
        )
}

/// Where a key with the encoding `code` belongs among the entries from index
/// `from` on: behind the entries whose keys come before it.
pub open spec fn place(entries: Seq<(Value, Value)>, code: Seq<u8>, from: int) -> int
    decreases entries.len() - from,
{
    if 0 <= from < entries.len() && less(entries[from].0.encoding(), code) {
        place(entries, code, from + 1)
    } else {
        from
    }
}

/// The entries after `key` was set to `value`. The entry goes where its key
/// belongs in the order of the keys; where that key is there already, it takes
/// the place of the entry that was there.
pub open spec fn with_entry(entries: Seq<(Value, Value)>, key: Value, value: Value) -> Seq<
    (Value, Value),
> {
    let at = place(entries, key.encoding(), 0);
    if at < entries.len() && entries[at].0.encoding() == key.encoding() {
        entries.update(at, (key, value))
    } else {
        entries.insert(at, (key, value))
    }
}

/// What comes in front of the place of a key comes before the key, and what
/// stands at the place does not.
pub proof fn lemma_place(entries: Seq<(Value, Value)>, code: Seq<u8>, from: int)
    requires
        0 <= from <= entries.len(),
    ensures
        from <= place(entries, code, from) <= entries.len(),
        forall|j: int|
            from <= j < place(entries, code, from) ==> less(
                (#[trigger] entries[j]).0.encoding(),
                code,
            ),
        place(entries, code, from) < entries.len() ==> !less(
            entries[place(entries, code, from)].0.encoding(),
            code,
        ),
    decreases entries.len() - from,
{
    if from < entries.len() && less(entries[from].0.encoding(), code) {
        lemma_place(entries, code, from + 1);
    }
}

/// A key that comes behind the keys of all the entries belongs at the end.
pub proof fn lemma_place_at_end(entries: Seq<(Value, Value)>, code: Seq<u8>, from: int)
    requires
        0 <= from <= entries.len(),
        forall|j: int| from <= j < entries.len() ==> less((#[trigger] entries[j]).0.encoding(), code),
    ensures
        place(entries, code, from) == entries.len(),
    decreases entries.len() - from,
{
    if from < entries.len() {
        assert(less(entries[from].0.encoding(), code));
        lemma_place_at_end(entries, code, from + 1);
    }
}

/// Among entries in the order of their keys, what stands at the place of a key
/// or behind it comes behind the key, unless the key itself stands at its
/// place.
pub proof fn lemma_place_behind(entries: Seq<(Value, Value)>, code: Seq<u8>)
    requires
        sorted_keys(entries),
    ensures
        forall|j: int|
            place(entries, code, 0) <= j < entries.len() && entries[place(
                entries,
                code,
                0,
            )].0.encoding() != code ==> less(code, (#[trigger] entries[j]).0.encoding()),
{
    let at = place(entries, code, 0);
    lemma_place(entries, code, 0);
    assert forall|j: int| at <= j < entries.len() && entries[at].0.encoding() != code implies less(
        code,
        (#[trigger] entries[j]).0.encoding(),
    ) by {
        lemma_less_order(entries[at].0.encoding(), code);
        if j > at {
            assert(less(entries[at].0.encoding(), entries[j].0.encoding()));
            lemma_less_transitive(code, entries[at].0.encoding(), entries[j].0.encoding(), 0);
        }
    }
}

/// Setting an entry keeps the entries in the order of their keys, adds at most
/// one entry, and puts nothing among the entries but what was there and what
/// was set.
pub proof fn lemma_with_entry(entries: Seq<(Value, Value)>, key: Value, value: Value)
    requires
        sorted_keys(entries),
    ensures
        sorted_keys(with_entry(entries, key, value)),
        entries.len() <= with_entry(entries, key, value).len() <= entries.len() + 1,
        forall|i: int|
            0 <= i < with_entry(entries, key, value).len() ==> (#[trigger] with_entry(
                entries,
                key,
                value,
            )[i]) == (key, value) || exists|j: int|
                0 <= j < entries.len() && with_entry(entries, key, value)[i] == entries[j],
{
    let code = key.encoding();
    let at = place(entries, code, 0);
    let after = with_entry(entries, key, value);
    lemma_place(entries, code, 0);
    lemma_place_behind(entries, code);
    if at < entries.len() && entries[at].0.encoding() == code {
        assert forall|i: int, j: int| 0 <= i < j < after.len() implies less(
            (#[trigger] after[i]).0.encoding(),
            (#[trigger] after[j]).0.encoding(),
        ) by {
            assert(less(entries[i].0.encoding(), entries[j].0.encoding()));
        }
        assert forall|i: int| 0 <= i < after.len() implies (#[trigger] after[i]) == (key, value)
            || exists|j: int| 0 <= j < entries.len() && after[i] == entries[j] by {
            if i != at {
                assert(after[i] == entries[i]);
            }
        }
    } else {
        assert forall|i: int, j: int| 0 <= i < j < after.len() implies less(
            (#[trigger] after[i]).0.encoding(),
            (#[trigger] after[j]).0.encoding(),
        ) by {
            if j < at {
                assert(less(entries[i].0.encoding(), entries[j].0.encoding()));
            } else if j == at {
                assert(less(entries[i].0.encoding(), code));
            } else if i < at {
                assert(less(entries[i].0.encoding(), entries[j - 1].0.encoding()));
            } else if i == at {
                assert(less(code, entries[j - 1].0.encoding()));
            } else {
                assert(less(entries[i - 1].0.encoding(), entries[j - 1].0.encoding()));
            }
        }
        assert forall|i: int| 0 <= i < after.len() implies (#[trigger] after[i]) == (key, value)
            || exists|j: int| 0 <= j < entries.len() && after[i] == entries[j] by {
            if i < at {
                assert(after[i] == entries[i]);
            } else if i > at {
                assert(after[i] == entries[i - 1]);
            }
        }
    }
}

impl Value {
    /// What makes a value fit for the wire and back.
    ///
    /// - A line of text (simple string, simple error, big number, the tag of a
    ///   verbatim string) holds no CRLF, which would end it early.
    /// - A double is a floating-point literal.
    /// - An integer fits in 64 bits, and so does every length and count that a
    ///   header announces.
    /// - The entries of a map stand in the order of the encodings of their
    ///   keys, so that no key comes twice.
    /// - What an aggregate holds is fit itself.
    pub open spec fn wf(self) -> bool
        decreases self,
    {
        match self {
            Value::SimpleString(s) => !has_crlf(encode_utf8(s)),
            Value::SimpleError(s) => !has_crlf(encode_utf8(s)),
            Value::Integer(i) => i64::MIN <= i <= i64::MAX,
            Value::BulkString(s) => encode_utf8(s).len() <= i64::MAX,
            Value::NullBulkString => true,
            Value::Array(items) => all_wf(items),
            Value::NullArray => true,
            Value::Null => true,
            Value::Boolean(_) => true,
            Value::Double(s) => is_float_literal(encode_utf8(s)),
            Value::BigNumber(s) => !has_crlf(encode_utf8(s)),
            Value::BulkError(s) => encode_utf8(s).len() <= i64::MAX,
            Value::VerbatimString(text, tag) => encode_utf8(text).len() <= i64::MAX && !has_crlf(
                encode_utf8(tag),
            ),
            Value::RMap(entries) => sorted_keys(entries) && all_wf_entries(entries),
            Value::RSet(items) => all_wf(items),
            Value::Push(items) => all_wf(items),
        }
    }

    /// The bytes of the value on the wire.
    pub open spec fn encoding(self) -> Seq<u8>
        decreases self,
    {
        match self {
            Value::SimpleString(s) => line(TAG_SIMPLE_STRING, encode_utf8(s)),
            Value::SimpleError(s) => line(TAG_SIMPLE_ERROR, encode_utf8(s)),
            Value::Integer(i) => line(TAG_INTEGER, decimal_text(i)),
            Value::BulkString(s) => header(TAG_BULK_STRING, encode_utf8(s).len() as int) + encode_utf8(s)
                + crlf(),
            Value::NullBulkString => header(TAG_BULK_STRING, -1),
            Value::Array(items) => header(TAG_ARRAY, items.len() as int) + encoding_all(items),
            Value::NullArray => header(TAG_ARRAY, -1),
            Value::Null => line(TAG_NULL, Seq::empty()),
            Value::Boolean(b) => line(
                TAG_BOOLEAN,
                if b {
                    seq![FLAG_TRUE]
                } else {
                    seq![FLAG_FALSE]
                },
            ),
            Value::Double(s) => line(TAG_DOUBLE, encode_utf8(s)),
            Value::BigNumber(s) => line(TAG_BIG_NUMBER, encode_utf8(s)),
            Value::BulkError(s) => header(TAG_BULK_ERROR, encode_utf8(s).len() as int) + encode_utf8(s)
                + crlf(),
            Value::VerbatimString(text, tag) => header(TAG_VERBATIM_STRING, encode_utf8(text).len() as int)
                + encode_utf8(tag) + crlf() + encode_utf8(text) + crlf(),
            Value::RMap(entries) => header(TAG_MAP, entries.len() as int) + encoding_entries(entries),
            Value::RSet(items) => header(TAG_SET, items.len() as int) + encoding_all(items),
            Value::Push(items) => header(TAG_PUSH, items.len() as int) + encoding_all(items),
        }
    }
}

/// There are no more items than a header can announce, and each is fit for the
/// wire.
pub open spec fn all_wf(items: Seq<Value>) -> bool
    decreases items,
{
    &&& items.len() <= i64::MAX
    &&& forall|i: int| 0 <= i < items.len() ==> (#[trigger] items[i]).wf()
}

/// There are no more entries than a header can announce, and each key and
/// each value is fit for the wire.
pub open spec fn all_wf_entries(entries: Seq<(Value, Value)>) -> bool
    decreases entries,
{
    &&& entries.len() <= i64::MAX
    &&& forall|i: int|
        0 <= i < entries.len() ==> (#[trigger] entries[i]).0.wf() && entries[i].1.wf()
}

/// A line: the byte that tells the type, the text, CRLF.
pub open spec fn line(tag: u8, text: Seq<u8>) -> Seq<u8> {
    seq![tag] + text + crlf()
}

/// The line that announces a length or a count.
pub open spec fn header(tag: u8, n: int) -> Seq<u8> {
    line(tag, decimal_text(n))
}

/// The encodings of the items, one behind the other.
pub open spec fn encoding_all(items: Seq<Value>) -> Seq<u8>
    decreases items,
{
    if items.len() == 0 {
        Seq::empty()
    } else {
        encoding_all(items.drop_last()) + items.last().encoding()
    }
}

/// The encodings of the entries, one behind the other, each key in front of
/// its value.
pub open spec fn encoding_entries(entries: Seq<(Value, Value)>) -> Seq<u8>
    decreases entries,
{
    if entries.len() == 0 {
        Seq::empty()
    } else {
        encoding_entries(entries.drop_last()) + entries.last().0.encoding()
            + entries.last().1.encoding()
    }
}

/// Appends a line.
fn push_line(out: &mut Vec<u8>, tag: u8, text: &[u8])
    ensures
        final(out)@ == old(out)@ + line(tag, text@),
{
    out.push(tag);
    push_bytes(out, text);
    push_crlf(out);
    assert(final(out)@ =~= old(out)@ + line(tag, text@));
}

/// Appends a line that announces a length or a count.
fn push_header(out: &mut Vec<u8>, tag: u8, n: usize)
    ensures
        final(out)@ == old(out)@ + header(tag, n as int),
{
    let digits = format_u64(n as u64);
    push_line(out, tag, digits.as_slice());
}

/// Appends the line that announces a null: the length -1.
fn push_null_header(out: &mut Vec<u8>, tag: u8)
    ensures
        final(out)@ == old(out)@ + header(tag, -1),
{
    let digits = format_i64(-1);
    push_line(out, tag, digits.as_slice());
}

impl RObject {
    /// The value on the wire.
    pub fn encode(&self) -> (out: Vec<u8>)
        ensures
            out@ == self@.encoding(),
    {
        let mut out: Vec<u8> = Vec::new();
        self.encode_into(&mut out);
        assert(out@ =~= self@.encoding());
        out
    }

    /// The value on the wire, as text: the encoding is well-formed UTF-8
    /// whatever the value holds.
    pub fn to_string(&self) -> (s: String)
        ensures
            encode_utf8(s@) == self@.encoding(),
    {
        let bytes = self.encode();
        proof {
            crate::protocol::laws::lemma_encoding_is_utf8(self@);
            assert(bytes@.subrange(0, bytes@.len() as int) =~= bytes@);
        }
        match text_of(bytes.as_slice(), 0, bytes.len()) {
            Some(s) => s,
            None => String::new(),
        }
    }

    /// Appends the value as it goes on the wire.
    pub fn encode_into(&self, out: &mut Vec<u8>)
        ensures
            final(out)@ == old(out)@ + self@.encoding(),
        decreases self,
    {
        match self {
            RObject::SimpleString(s) => {
                push_line(out, TAG_SIMPLE_STRING, s.as_str().as_bytes());
            },
            RObject::SimpleError(s) => {
                push_line(out, TAG_SIMPLE_ERROR, s.as_str().as_bytes());
            },
            RObject::Integer(i) => {
                let digits = format_i64(*i);
                push_line(out, TAG_INTEGER, digits.as_slice());
            },
            RObject::BulkString(s) => {
                let bytes = s.as_str().as_bytes();
                push_header(out, TAG_BULK_STRING, bytes.len());
                push_bytes(out, bytes);
                push_crlf(out);
                assert(final(out)@ =~= old(out)@ + self@.encoding());
            },
            RObject::NullBulkString => {
                push_null_header(out, TAG_BULK_STRING);
            },
            RObject::Array(items) => {
                push_header(out, TAG_ARRAY, items.len());
                Self::encode_all(items, out);
                proof {
                    lemma_views(items@);
                    assert(final(out)@ =~= old(out)@ + self@.encoding());
                }
            },
            RObject::NullArray => {
                push_null_header(out, TAG_ARRAY);
            },
            RObject::Null => {
                out.push(TAG_NULL);
                push_crlf(out);
                assert(final(out)@ =~= old(out)@ + self@.encoding());
            },
            RObject::Boolean(b) => {
                out.push(TAG_BOOLEAN);
                if *b {
                    out.push(FLAG_TRUE);
                } else {
                    out.push(FLAG_FALSE);
                }
                push_crlf(out);
                assert(final(out)@ =~= old(out)@ + self@.encoding());
            },
            RObject::Double(s) => {
                push_line(out, TAG_DOUBLE, s.as_str().as_bytes());
            },
            RObject::BigNumber(s) => {
                push_line(out, TAG_BIG_NUMBER, s.as_str().as_bytes());
            },
            RObject::BulkError(s) => {
                let bytes = s.as_str().as_bytes();
                push_header(out, TAG_BULK_ERROR, bytes.len());
                push_bytes(out, bytes);
                push_crlf(out);
                assert(final(out)@ =~= old(out)@ + self@.encoding());
            },
            RObject::VerbatimString(text, tag) => {
                let bytes = text.as_str().as_bytes();
                push_header(out, TAG_VERBATIM_STRING, bytes.len());
                push_bytes(out, tag.as_str().as_bytes());
                push_crlf(out);
                push_bytes(out, bytes);
                push_crlf(out);
                assert(final(out)@ =~= old(out)@ + self@.encoding());
            },
            RObject::RMap(entries) => {
                push_header(out, TAG_MAP, entries.len());
                Self::encode_entries(entries, out);
                proof {
                    lemma_pair_views(entries@);
                    assert(final(out)@ =~= old(out)@ + self@.encoding());
                }
            },
            RObject::RSet(items) => {
                push_header(out, TAG_SET, items.len());
                Self::encode_all(items, out);
                proof {
                    lemma_views(items@);
                    assert(final(out)@ =~= old(out)@ + self@.encoding());
                }
            },
            RObject::Push(items) => {
                push_header(out, TAG_PUSH, items.len());
                Self::encode_all(items, out);
                proof {
                    lemma_views(items@);
                    assert(final(out)@ =~= old(out)@ + self@.encoding());
                }
            },
        }
    }

    /// Appends the entries as they go on the wire, each key in front of its
    /// value.
    fn encode_entries(entries: &Vec<(RObject, RObject)>, out: &mut Vec<u8>)
        ensures
            final(out)@ == old(out)@ + encoding_entries(pair_views(entries@)),
        decreases entries,
    {
        let n = entries.len();
        let mut i: usize = 0;
        while i < n
            invariant
                i <= n,
                n == entries@.len(),
                out@ == old(out)@ + encoding_entries(pair_views(entries@.subrange(0, i as int))),
            decreases n - i,
        {
            let entry = &entries[i];
            proof {
                assert(decreases_to!(entries => entries[i as int]));
            }
            entry.0.encode_into(out);
            entry.1.encode_into(out);
            proof {
                let prefix = entries@.subrange(0, i as int);
                let longer = entries@.subrange(0, i + 1);
                assert(longer.drop_last() =~= prefix);
                assert(longer.last() == entries@[i as int]);
                let pv = pair_views(longer);
                assert(pv.drop_last() =~= pair_views(prefix));
                assert(out@ =~= old(out)@ + encoding_entries(pv));
            }
            i = i + 1;
        }
        proof {
            assert(entries@.subrange(0, n as int) =~= entries@);
        }
    }

    /// Appends the items as they go on the wire, one behind the other.
    fn encode_all(items: &Vec<RObject>, out: &mut Vec<u8>)
        ensures
            final(out)@ == old(out)@ + encoding_all(views(items@)),
        decreases items,
    {
        let n = items.len();
        let mut i: usize = 0;
        while i < n
            invariant
                i <= n,
                n == items@.len(),
                out@ == old(out)@ + encoding_all(views(items@.subrange(0, i as int))),
            decreases n - i,
        {
            items[i].encode_into(out);
            proof {
                let prefix = items@.subrange(0, i as int);
                let longer = items@.subrange(0, i + 1);
                assert(longer.drop_last() =~= prefix);
                assert(longer.last() == items@[i as int]);
                let v = views(longer);
                assert(v.drop_last() =~= views(prefix));
                assert(out@ =~= old(out)@ + encoding_all(v));
            }
            i = i + 1;
        }
        proof {
            assert(items@.subrange(0, n as int) =~= items@);
        }
    }
}

/// Sequences of objects stand for the same values exactly when they are as long
/// as each other and agree item by item.
pub proof fn lemma_views_equal(a: Seq<RObject>, b: Seq<RObject>)
    ensures
        views(a) == views(b) <==> a.len() == b.len() && forall|i: int|
            0 <= i < a.len() ==> (#[trigger] a[i])@ == b[i]@,
{
    lemma_views(a);
    lemma_views(b);
    if a.len() == b.len() && (forall|i: int| 0 <= i < a.len() ==> (#[trigger] a[i])@ == b[i]@) {
        assert(views(a) =~= views(b));
    }
    if views(a) == views(b) {
        assert forall|i: int| 0 <= i < a.len() implies (#[trigger] a[i])@ == b[i]@ by {
            assert(views(a)[i] == views(b)[i]);
        }
    }
}

/// Sequences of pairs stand for the same entries exactly when they are as long
/// as each other and agree entry by entry, in key and in value.
pub proof fn lemma_pair_views_equal(a: Seq<(RObject, RObject)>, b: Seq<(RObject, RObject)>)
    ensures
        pair_views(a) == pair_views(b) <==> a.len() == b.len() && forall|i: int|
            0 <= i < a.len() ==> (#[trigger] a[i]).0@ == b[i].0@ && a[i].1@ == b[i].1@,
{
    lemma_pair_views(a);
    lemma_pair_views(b);
    if a.len() == b.len() && (forall|i: int|
        0 <= i < a.len() ==> (#[trigger] a[i]).0@ == b[i].0@ && a[i].1@ == b[i].1@) {
        assert(pair_views(a) =~= pair_views(b));
    }
    if pair_views(a) == pair_views(b) {
        assert forall|i: int| 0 <= i < a.len() implies (#[trigger] a[i]).0@ == b[i].0@
            && a[i].1@ == b[i].1@ by {
            assert(pair_views(a)[i] == pair_views(b)[i]);
        }
    }
}

impl RObject {
    /// Structural equality: the same variant, holding the same.
    pub fn same(&self, other: &RObject) -> (b: bool)
        ensures
            b == (self@ == other@),
        decreases self,
    {
        match (self, other) {
            (RObject::SimpleString(a), RObject::SimpleString(b)) => *a == *b,
            (RObject::SimpleError(a), RObject::SimpleError(b)) => *a == *b,
            (RObject::Integer(a), RObject::Integer(b)) => *a == *b,
            (RObject::BulkString(a), RObject::BulkString(b)) => *a == *b,
            (RObject::NullBulkString, RObject::NullBulkString) => true,
            (RObject::Array(a), RObject::Array(b)) => Self::same_all(a, b),
            (RObject::NullArray, RObject::NullArray) => true,
            (RObject::Null, RObject::Null) => true,
            (RObject::Boolean(a), RObject::Boolean(b)) => *a == *b,
            (RObject::Double(a), RObject::Double(b)) => *a == *b,
            (RObject::BigNumber(a), RObject::BigNumber(b)) => *a == *b,
            (RObject::BulkError(a), RObject::BulkError(b)) => *a == *b,
            (RObject::VerbatimString(a, s), RObject::VerbatimString(b, t)) => *a == *b && *s == *t,
            (RObject::RMap(a), RObject::RMap(b)) => Self::same_entries(a, b),
            (RObject::RSet(a), RObject::RSet(b)) => Self::same_all(a, b),
            (RObject::Push(a), RObject::Push(b)) => Self::same_all(a, b),
            _ => false,
        }
    }

    /// Item by item equality of two sequences.
    fn same_all(a: &Vec<RObject>, b: &Vec<RObject>) -> (r: bool)
        ensures
            r == (views(a@) == views(b@)),
        decreases a,
    {
        proof {
            lemma_views_equal(a@, b@);
        }
        if a.len() != b.len() {
            return false;
        }
        let n = a.len();
        let mut i: usize = 0;
        while i < n
            invariant
                i <= n,
                n == a@.len(),
                n == b@.len(),
                forall|j: int| 0 <= j < i ==> (#[trigger] a@[j])@ == b@[j]@,
            decreases n - i,
        {
            if !a[i].same(&b[i]) {
                proof {
                    lemma_views_equal(a@, b@);
                }
                return false;
            }
            i = i + 1;
        }
        proof {
            lemma_views_equal(a@, b@);
        }
        true
    }

    /// Entry by entry equality of two sequences of entries.
    fn same_entries(a: &Vec<(RObject, RObject)>, b: &Vec<(RObject, RObject)>) -> (r: bool)
        ensures
            r == (pair_views(a@) == pair_views(b@)),
        decreases a,
    {
        proof {
            lemma_pair_views_equal(a@, b@);
        }
        if a.len() != b.len() {
            return false;
        }
        let n = a.len();
        let mut i: usize = 0;
        while i < n
            invariant
                i <= n,
                n == a@.len(),
                n == b@.len(),
                forall|j: int|
                    0 <= j < i ==> (#[trigger] a@[j]).0@ == b@[j].0@ && a@[j].1@ == b@[j].1@,
            decreases n - i,
        {
            let left = &a[i];
            let right = &b[i];
            proof {
                assert(decreases_to!(a => a[i as int]));
            }
            if !left.0.same(&right.0) || !left.1.same(&right.1) {
                proof {
                    lemma_pair_views_equal(a@, b@);
                }
                return false;
            }
            i = i + 1;
        }
        proof {
            lemma_pair_views_equal(a@, b@);
        }
        true
    }

    /// A copy of the value.
    pub fn duplicate(&self) -> (r: RObject)
        ensures
            r@ == self@,
        decreases self,
    {
        match self {
            RObject::SimpleString(s) => RObject::SimpleString(s.clone()),
            RObject::SimpleError(s) => RObject::SimpleError(s.clone()),
            RObject::Integer(i) => RObject::Integer(*i),
            RObject::BulkString(s) => RObject::BulkString(s.clone()),
            RObject::NullBulkString => RObject::NullBulkString,
            RObject::Array(items) => RObject::Array(Self::duplicate_all(items)),
            RObject::NullArray => RObject::NullArray,
            RObject::Null => RObject::Null,
            RObject::Boolean(b) => RObject::Boolean(*b),
            RObject::Double(s) => RObject::Double(s.clone()),
            RObject::BigNumber(s) => RObject::BigNumber(s.clone()),
            RObject::BulkError(s) => RObject::BulkError(s.clone()),
            RObject::VerbatimString(text, tag) => RObject::VerbatimString(
                text.clone(),
                tag.clone(),
            ),
            RObject::RMap(entries) => RObject::RMap(Self::duplicate_entries(entries)),
            RObject::RSet(items) => RObject::RSet(Self::duplicate_all(items)),
            RObject::Push(items) => RObject::Push(Self::duplicate_all(items)),
        }
    }

    /// Copies of the entries, in their order.
    fn duplicate_entries(entries: &Vec<(RObject, RObject)>) -> (r: Vec<(RObject, RObject)>)
        ensures
            pair_views(r@) == pair_views(entries@),
        decreases entries,
    {
        let n = entries.len();
        let mut copy: Vec<(RObject, RObject)> = Vec::new();
        let mut i: usize = 0;
        while i < n
            invariant
                i <= n,
                n == entries@.len(),
                copy@.len() == i,
                forall|j: int|
                    0 <= j < i ==> (#[trigger] copy@[j]).0@ == entries@[j].0@ && copy@[j].1@
                        == entries@[j].1@,
            decreases n - i,
        {
            let entry = &entries[i];
            proof {
                assert(decreases_to!(entries => entries[i as int]));
            }
            let key = entry.0.duplicate();
            let value = entry.1.duplicate();
            copy.push((key, value));
            i = i + 1;
        }
        proof {
            lemma_pair_views_equal(copy@, entries@);
        }
        copy
    }

    /// Copies of the items, in their order.
    fn duplicate_all(items: &Vec<RObject>) -> (r: Vec<RObject>)
        ensures
            views(r@) == views(items@),
        decreases items,
    {
        let n = items.len();
        let mut copy: Vec<RObject> = Vec::new();
        let mut i: usize = 0;
        while i < n
            invariant
                i <= n,
                n == items@.len(),
                copy@.len() == i,
                forall|j: int| 0 <= j < i ==> (#[trigger] copy@[j])@ == items@[j]@,
            decreases n - i,
        {
            let item = items[i].duplicate();
            copy.push(item);
            i = i + 1;
        }
        proof {
            lemma_views_equal(copy@, items@);
        }
        copy
    }
}

/// Tells whether a text holds no CRLF.
fn is_line(text: &str) -> (b: bool)
    ensures
        b == !has_crlf(encode_utf8(text@)),
{
    let bytes = text.as_bytes();
    proof {
        lemma_first_crlf(bytes@, 0);
    }
    find_crlf(bytes, 0).is_none()
}

/// Tells whether a header can announce the length of a text.
fn is_short(text: &str) -> (b: bool)
    ensures
        b == (encode_utf8(text@).len() <= i64::MAX),
{
    (text.as_bytes().len() as u64) <= 9223372036854775807u64
}

impl RObject {
    /// Tells whether the value is fit for the wire and back.
    pub fn is_well_formed(&self) -> (b: bool)
        ensures
            b == self@.wf(),
        decreases self,
    {
        match self {
            RObject::SimpleString(s) => is_line(s.as_str()),
            RObject::SimpleError(s) => is_line(s.as_str()),
            RObject::Integer(_) => true,
            RObject::BulkString(s) => is_short(s.as_str()),
            RObject::NullBulkString => true,
            RObject::Array(items) => Self::are_well_formed(items),
            RObject::NullArray => true,
            RObject::Null => true,
            RObject::Boolean(_) => true,
            RObject::Double(s) => is_float_text(s.as_str().as_bytes()),
            RObject::BigNumber(s) => is_line(s.as_str()),
            RObject::BulkError(s) => is_short(s.as_str()),
            RObject::VerbatimString(text, tag) => is_short(text.as_str()) && is_line(tag.as_str()),
            RObject::RMap(entries) => Self::have_sorted_keys(entries)
                && Self::are_well_formed_entries(entries),
            RObject::RSet(items) => Self::are_well_formed(items),
            RObject::Push(items) => Self::are_well_formed(items),
        }
    }

    /// Tells whether a header can announce the items and each is fit for the
    /// wire.
    fn are_well_formed(items: &Vec<RObject>) -> (b: bool)
        ensures
            b == all_wf(views(items@)),
        decreases items,
    {
        proof {
            lemma_views(items@);
        }
        let n = items.len();
        if (n as u64) > 9223372036854775807u64 {
            return false;
        }
        let mut i: usize = 0;
        while i < n
            invariant
                i <= n,
                n == items@.len(),
                views(items@).len() == n,
                forall|j: int| 0 <= j < n ==> (#[trigger] views(items@)[j]) == items@[j]@,
                forall|j: int| 0 <= j < i ==> (#[trigger] views(items@)[j]).wf(),
            decreases n - i,
        {
            if !items[i].is_well_formed() {
                assert(!views(items@)[i as int].wf());
                return false;
            }
            i = i + 1;
        }
        true
    }

    /// Tells whether a header can announce the entries and each key and each
    /// value is fit for the wire.
    fn are_well_formed_entries(entries: &Vec<(RObject, RObject)>) -> (b: bool)
        ensures
            b == all_wf_entries(pair_views(entries@)),
        decreases entries,
    {
        proof {
            lemma_pair_views(entries@);
        }
        let n = entries.len();
        if (n as u64) > 9223372036854775807u64 {
            return false;
        }
        let mut i: usize = 0;
        while i < n
            invariant
                i <= n,
                n == entries@.len(),
                pair_views(entries@).len() == n,
                forall|j: int|
                    0 <= j < n ==> (#[trigger] pair_views(entries@)[j]) == (
                        entries@[j].0@,
                        entries@[j].1@,
                    ),
                forall|j: int|
                    0 <= j < i ==> (#[trigger] pair_views(entries@)[j]).0.wf() && pair_views(
                        entries@,
                    )[j].1.wf(),
            decreases n - i,
        {
            let entry = &entries[i];
            proof {
                assert(decreases_to!(entries => entries[i as int]));
            }
            if !entry.0.is_well_formed() || !entry.1.is_well_formed() {
                assert(!(pair_views(entries@)[i as int].0.wf() && pair_views(
                    entries@,
                )[i as int].1.wf()));
                return false;
            }
            i = i + 1;
        }
        true
    }

    /// Tells whether the entries stand in the order of their keys.
    fn have_sorted_keys(entries: &Vec<(RObject, RObject)>) -> (b: bool)
        ensures
            b == sorted_keys(pair_views(entries@)),
    {
        proof {
            lemma_pair_views(entries@);
        }
        let ghost keys = pair_views(entries@);
        let n = entries.len();
        if n < 2 {
            return true;
        }
        let mut last = entries[0].0.encode();
        let mut j: usize = 1;
        while j < n
            invariant
                1 <= j <= n,
                n == entries@.len(),
                keys == pair_views(entries@),
                keys.len() == n,
                forall|k: int| 0 <= k < n ==> (#[trigger] keys[k]) == (entries@[k].0@, entries@[k].1@),
                last@ == keys[j - 1].0.encoding(),
                forall|a: int, b: int|
                    0 <= a < b < j ==> less(
                        (#[trigger] keys[a]).0.encoding(),
                        (#[trigger] keys[b]).0.encoding(),
                    ),
            decreases n - j,
        {
            let next = entries[j].0.encode();
            if !bytes_less(last.as_slice(), next.as_slice()) {
                assert(!less(keys[j - 1].0.encoding(), keys[j as int].0.encoding()));
                return false;
            }
            proof {
                assert forall|a: int, b: int| 0 <= a < b < j + 1 implies less(
                    (#[trigger] keys[a]).0.encoding(),
                    (#[trigger] keys[b]).0.encoding(),
                ) by {
                    if b == j && a < j - 1 {
                        assert(less(keys[a].0.encoding(), keys[j - 1].0.encoding()));
                        lemma_less_transitive(
                            keys[a].0.encoding(),
                            keys[j - 1].0.encoding(),
                            keys[j as int].0.encoding(),
                            0,
                        );
                    }
                }
            }
            last = next;
            j = j + 1;
        }
        true
    }
}

/// A command as it goes on the wire: an array of bulk strings, the name first.
pub open spec fn command_of(words: Seq<Seq<char>>) -> Value {
    Value::Array(Seq::new(words.len(), |i: int| Value::BulkString(words[i])))
}

impl RObject {
    /// A bulk string that holds `text`.
    pub fn bulk(text: &str) -> (r: RObject)
        ensures
            r@ == Value::BulkString(text@),
    {
        RObject::BulkString(text.to_owned())
    }

    /// A simple string that holds `text`.
    pub fn simple(text: &str) -> (r: RObject)
        ensures
            r@ == Value::SimpleString(text@),
    {
        RObject::SimpleString(text.to_owned())
    }

    /// The command made of `words`, each as a bulk string.
    pub fn command(words: Vec<String>) -> (r: RObject)
        ensures
            r@ == command_of(Seq::new(words@.len(), |i: int| words@[i]@)),
    {
        let ghost texts = Seq::new(words@.len(), |i: int| words@[i]@);
        let n = words.len();
        let mut items: Vec<RObject> = Vec::new();
        let mut i: usize = 0;
        while i < n
            invariant
                i <= n,
                n == words@.len(),
                items@.len() == i,
                forall|j: int| 0 <= j < i ==> (#[trigger] items@[j])@ == Value::BulkString(words@[j]@),
            decreases n - i,
        {
            items.push(RObject::BulkString(words[i].clone()));
            i = i + 1;
        }
        proof {
            lemma_views(items@);
            assert(views(items@) =~= Seq::new(texts.len(), |i: int| Value::BulkString(texts[i])));
        }
        RObject::Array(items)
    }

    /// The text of a bulk string; nothing for any other value.
    pub fn as_bulk(&self) -> (r: Option<&String>)
        ensures
            match r {
                Some(s) => self@ == Value::BulkString(s@),
                None => !(self@ is BulkString),
            },
    {
        match self {
            RObject::BulkString(s) => Some(s),
            _ => None,
        }
    }
}

impl Clone for RObject {
    fn clone(&self) -> (r: Self)
        ensures
            r@ == self@,
    {
        self.duplicate()
    }
}

impl PartialEq for RObject {
    fn eq(&self, other: &Self) -> (r: bool) {
        self.same(other)
    }
}

impl vstd::std_specs::cmp::PartialEqSpecImpl for RObject {
    open spec fn obeys_eq_spec() -> bool {
        true
    }

    open spec fn eq_spec(&self, other: &Self) -> bool {
        self@ == other@
    }
}

impl Eq for RObject {

}

} // verus!
