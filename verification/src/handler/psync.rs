//! `PSYNC ? -1`: the full resync that turns a connection into a subscriber.

use vstd::prelude::*;
use vstd::string::StringExecFns;
use vstd::utf8::*;
use crate::broadcast::Broadcaster;
use crate::protocol::framing::{push_bytes, push_crlf};
use crate::protocol::number::format_u64;
use crate::protocol::r_object::{header, RObject, Value, TAG_BULK_STRING};
use crate::protocol::text::{decimal_chars, decimal_string};
use crate::state::State;

verus! {

/// The snapshot of an empty store, in hexadecimal.
pub const EMPTY_RDB_HEX: &'static str =
    "524544495330303131fa0972656469732d76657205372e322e30fa0a72656469732d62697473c040fa056374696d65c26d08bc65fa08757365642d6d656dc2b0c41000fa08616f662d62617365c000fff06e3bfec0ff5aa2";

/// The error of `hex::decode`.
#[verifier::external_type_specification]
#[verifier::external_body]
pub struct ExFromHexError(hex::FromHexError);

/// The number that a hexadecimal digit stands for, small letter or capital.
pub open spec fn hex_value(digit: u8) -> Option<int> {
    if 48 <= digit <= 57 {
        Some(digit - 48)
    } else if 97 <= digit <= 102 {
        Some(digit - 97 + 10)
    } else if 65 <= digit <= 70 {
        Some(digit - 65 + 10)
    } else {
        None
    }
}

/// Every byte of the text is a hexadecimal digit.
pub open spec fn all_hex(text: Seq<u8>) -> bool {
    forall|i: int| 0 <= i < text.len() ==> hex_value(#[trigger] text[i]) is Some
}

/// The bytes that a hexadecimal text stands for, two digits to the byte, the
/// high one first; nothing for a text of odd length or with another byte in it.
pub open spec fn hex_decoded(text: Seq<u8>) -> Option<Seq<u8>> {
    if text.len() % 2 == 0 && all_hex(text) {
        Some(
            Seq::new(
                text.len() / 2,
                |i: int| (hex_value(text[2 * i])->0 * 16 + hex_value(text[2 * i + 1])->0) as u8,
            ),
        )
    } else {
        None
    }
}

/// Decodes a hexadecimal text. Wraps `hex::decode`, which fails on a text of
/// odd length and on a byte that is no hexadecimal digit, and else returns one
/// byte for every two digits, the first of the two being the high half.
#[verifier::external_body]
fn hex_decode(text: &[u8]) -> (r: Result<Vec<u8>, hex::FromHexError>)
    ensures
        match r {
            Ok(bytes) => hex_decoded(text@) == Some(bytes@),
            Err(_) => hex_decoded(text@) is None,
        },
{
    hex::decode(text)
}

/// The snapshot that a full resync carries: that of an empty store, as its
/// hexadecimal text decodes. (The text is well-formed, by [`lemma_snapshot`].)
pub open spec fn snapshot() -> Seq<u8> {
    match hex_decoded(encode_utf8(EMPTY_RDB_HEX@)) {
        Some(bytes) => bytes,
        None => Seq::empty(),
    }
}

/// The snapshot that a full resync carries.
pub fn empty_snapshot() -> (bytes: Vec<u8>)
    ensures
        bytes@ == snapshot(),
        bytes@.len() == 88,
{
    proof {
        lemma_snapshot();
    }
    match hex_decode(EMPTY_RDB_HEX.as_bytes()) {
        Ok(bytes) => bytes,
        Err(_) => Vec::new(),
    }
}

/// The line that announces a full resync.
pub open spec fn fullresync_line(replid: Seq<char>, offset: u64) -> Value {
    Value::SimpleString("FULLRESYNC "@ + replid + " "@ + decimal_chars(offset as int))
}

/// What `PSYNC` replies: the line that announces the full resync with the id
/// and the offset of the node, then the length of the snapshot on a line of
/// its own, then the bytes of the snapshot with nothing behind them.
pub open spec fn psync_reply(state: State) -> Seq<u8> {
    fullresync_line(state.master_replid@, state.master_repl_offset).encoding() + header(
        TAG_BULK_STRING,
        snapshot().len() as int,
    ) + snapshot()
}

/// What a `PSYNC` hands back.
pub struct FullResync {
    /// The bytes to write to the replica.
    pub reply: Vec<u8>,
    /// The number under which the replica is a subscriber from now on.
    pub subscriber: usize,
}

/// `PSYNC ? -1`: replies with the full resync and takes the requester in as a
/// subscriber.
pub fn handle_psync(state: &State, broadcaster: &mut Broadcaster) -> (r: FullResync)
    requires
        old(broadcaster).wf(),
        old(broadcaster).subscribers < i64::MAX,
        old(broadcaster).subscribers < usize::MAX,
    ensures
        final(broadcaster).wf(),
        r.reply@ == psync_reply(*state),
        r.subscriber == old(broadcaster).subscribers,
        final(broadcaster).subscribers == old(broadcaster).subscribers + 1,
        final(broadcaster).broadcasted == old(broadcaster).broadcasted,
        final(broadcaster).probed == old(broadcaster).probed,
{
    let text = String::from_str("FULLRESYNC ").concat(state.master_replid.as_str()).concat(
        " ",
    ).concat(decimal_string(state.master_repl_offset).as_str());
    let mut reply = RObject::SimpleString(text).encode();
    let rdb = empty_snapshot();
    let digits = format_u64(rdb.len() as u64);
    reply.push(TAG_BULK_STRING);
    push_bytes(&mut reply, digits.as_slice());
    push_crlf(&mut reply);
    push_bytes(&mut reply, rdb.as_slice());
    proof {
        assert(reply@ =~= psync_reply(*state));
    }
    let subscriber = broadcaster.subscribe();
    FullResync { reply, subscriber }
}

/// The hexadecimal text of the snapshot is well-formed: the snapshot is what it
/// decodes to, 88 bytes.
pub proof fn lemma_snapshot()
    ensures
        hex_decoded(encode_utf8(EMPTY_RDB_HEX@)) == Some(snapshot()),
        snapshot().len() == 88,
{
    reveal_strlit(
        "524544495330303131fa0972656469732d76657205372e322e30fa0a72656469732d62697473c040fa056374696d65c26d08bc65fa08757365642d6d656dc2b0c41000fa08616f662d62617365c000fff06e3bfec0ff5aa2",
    );
    let text = EMPTY_RDB_HEX@;
    assert(text.len() == 176);
    assert(is_ascii_chars(text));
    is_ascii_chars_encode_utf8(text);
    let bytes = encode_utf8(text);
    assert forall|i: int| 0 <= i < bytes.len() implies hex_value(#[trigger] bytes[i]) is Some by {
        assert(bytes[i] == text[i] as u8);
    }
}

} // verus!
