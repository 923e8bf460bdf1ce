//! The fan-out to replicas.
//!
//! The broadcaster counts the subscribers, the bytes of commands propagated to
//! them, and, apart from those, the bytes of probes sent to them. A round of
//! probes leaves the subscribers and the bytes propagated as they are. Each
//! subscriber is known by the number it got when it subscribed; subscribers
//! are never removed, so the numbers of those present are `0` up to the count.
//! The caller owns the connections: it writes what a [`Delivery`] holds to each
//! of them, one write at a time per subscriber and each write under a timeout.
//! A write that fails is the caller's to log. It does not stop the writes to
//! the other subscribers and does not fail the command that caused it.

use vstd::prelude::*;
use vstd::string::StringExecFns;
use vstd::utf8::*;
use crate::protocol::decode::decoded;
use crate::protocol::number::{decimal_u64, parse_u64};
use crate::protocol::r_object::{command_of, RObject, Value};

verus! {

/// Who gets the stream of writes, and how much of it has gone out.
pub struct Broadcaster {
    /// How many replicas have subscribed.
    pub subscribers: usize,
    /// How many bytes of commands have been propagated to the subscribers so
    /// far. Probes are not among them.
    pub broadcasted: u64,
    /// How many bytes of probes have been sent to the subscribers so far. A
    /// replica takes a probe in as it takes in any frame, so the offset of a
    /// replica that has kept up is the bytes propagated and the bytes probed
    /// together.
    pub probed: u64,
}

/// Bytes to write, unchanged, to every subscriber with a number below
/// `subscribers`.
pub struct Delivery {
    pub bytes: Vec<u8>,
    pub subscribers: usize,
}

/// A round of probes: the probe to deliver, and the offset that a subscriber
/// reports when it has taken in everything sent before the probe.
pub struct Probe {
    pub delivery: Delivery,
    pub offset: u64,
}

/// The probe that asks a replica for its offset.
pub open spec fn getack_command() -> Value {
    command_of(seq!["REPLCONF"@, "GETACK"@, "*"@])
}

/// The offset that a reply to a probe reports: the reply is an array whose
/// third item is a bulk string that holds an unsigned numeral. Any other reply
/// reports nothing.
pub open spec fn ack_of(reply: Seq<u8>) -> Option<u64> {
    match decoded(reply, 0) {
        Ok((Value::Array(items), _)) => if items.len() > 2 {
            match items[2] {
                Value::BulkString(s) => decimal_u64(encode_utf8(s)),
                _ => None,
            }
        } else {
            None
        },
        _ => None,
    }
}

/// How many bytes the probe takes on the wire.
pub const PROBE_LENGTH: usize = 37;

/// A bulk string of ASCII text takes its header, the text and two line ends.
pub proof fn lemma_bulk_length(text: Seq<char>)
    requires
        is_ascii_chars(text),
        text.len() < 10,
    ensures
        Value::BulkString(text).encoding().len() == text.len() + 6,
{
    is_ascii_chars_encode_utf8(text);
    let n = encode_utf8(text).len() as int;
    assert(crate::protocol::number::decimal_text(n).len() == 1);
}

/// The probe is 37 bytes long.
pub proof fn lemma_probe_length()
    ensures
        getack_command().encoding().len() == PROBE_LENGTH,
{
    reveal_strlit("REPLCONF");
    reveal_strlit("GETACK");
    reveal_strlit("*");
    let words = seq!["REPLCONF"@, "GETACK"@, "*"@];
    let items = Seq::new(words.len(), |i: int| Value::BulkString(words[i]));
    lemma_bulk_length("REPLCONF"@);
    lemma_bulk_length("GETACK"@);
    lemma_bulk_length("*"@);
    assert(items.len() == 3);
    assert(items[0] == Value::BulkString("REPLCONF"@));
    assert(items[1] == Value::BulkString("GETACK"@));
    assert(items[2] == Value::BulkString("*"@));
    let two = items.drop_last();
    let one = two.drop_last();
    assert(one.drop_last() =~= Seq::<Value>::empty());
    assert(crate::protocol::r_object::encoding_all(one.drop_last()).len() == 0);
    assert(one.last() == items[0]);
    assert(crate::protocol::r_object::encoding_all(one).len() == 14);
    assert(two.last() == items[1]);
    assert(crate::protocol::r_object::encoding_all(two).len() == 14 + 12);
    assert(items.last() == items[2]);
    assert(crate::protocol::r_object::encoding_all(items).len() == 14 + 12 + 7);
    assert(crate::protocol::number::decimal_text(3).len() == 1);
}

impl Broadcaster {
    /// No more subscribers than a reply can count.
    pub open spec fn wf(&self) -> bool {
        self.subscribers <= i64::MAX
    }

    /// A broadcaster without subscribers that has sent nothing.
    pub fn new() -> (b: Broadcaster)
        ensures
            b.wf(),
            b.subscribers == 0,
            b.broadcasted == 0,
            b.probed == 0,
    {
        Broadcaster { subscribers: 0, broadcasted: 0, probed: 0 }
    }

    /// Takes in a replica that has completed its full resync and returns its
    /// number. The caller keeps the connection under that number.
    pub fn subscribe(&mut self) -> (id: usize)
        requires
            old(self).wf(),
            old(self).subscribers < i64::MAX,
            old(self).subscribers < usize::MAX,
        ensures
            final(self).wf(),
            id == old(self).subscribers,
            final(self).subscribers == old(self).subscribers + 1,
            final(self).broadcasted == old(self).broadcasted,
            final(self).probed == old(self).probed,
    {
        let id = self.subscribers;
        self.subscribers = id + 1;
        id
    }

    /// Sends `message` to every subscriber: the delivery holds the bytes of the
    /// message as they are, for all subscribers present, and the count of bytes
    /// sent grows by the length of the message.
    pub fn broadcast(&mut self, message: &[u8]) -> (delivery: Delivery)
        requires
            old(self).broadcasted + message@.len() <= u64::MAX,
        ensures
            delivery.bytes@ == message@,
            delivery.subscribers == old(self).subscribers,
            final(self).subscribers == old(self).subscribers,
            final(self).broadcasted == old(self).broadcasted + message@.len(),
            final(self).probed == old(self).probed,
    {
        let bytes = vstd::slice::slice_to_vec(message);
        self.broadcasted = self.broadcasted + (message.len() as u64);
        Delivery { bytes, subscribers: self.subscribers }
    }

    /// Starts a round of probes: every subscriber is asked for its offset. The
    /// subscribers and the count of bytes propagated stay as they are; the
    /// bytes of the probe go to the count of bytes probed. The offset to
    /// compare the answers with is what a replica has taken in when it has kept
    /// up: the bytes propagated and the bytes probed before this round.
    pub fn ask_ack(&mut self) -> (probe: Probe)
        requires
            old(self).broadcasted + old(self).probed + PROBE_LENGTH <= u64::MAX,
        ensures
            probe.delivery.bytes@ == getack_command().encoding(),
            probe.delivery.subscribers == old(self).subscribers,
            probe.offset == old(self).broadcasted + old(self).probed,
            final(self).subscribers == old(self).subscribers,
            final(self).broadcasted == old(self).broadcasted,
            final(self).probed == old(self).probed + PROBE_LENGTH,
    {
        proof {
            lemma_probe_length();
        }
        let mut words: Vec<String> = Vec::new();
        words.push(String::from_str("REPLCONF"));
        words.push(String::from_str("GETACK"));
        words.push(String::from_str("*"));
        proof {
            assert(Seq::new(words@.len(), |i: int| words@[i]@) =~= seq![
                "REPLCONF"@,
                "GETACK"@,
                "*"@,
            ]);
        }
        let bytes = RObject::command(words).encode();
        let offset = self.broadcasted + self.probed;
        self.probed = self.probed + (bytes.len() as u64);
        Probe { delivery: Delivery { bytes, subscribers: self.subscribers }, offset }
    }
}

/// Reads the offset that a subscriber's reply to a probe reports.
pub fn ack_offset(reply: &[u8]) -> (r: Option<u64>)
    ensures
        r == ack_of(reply@),
{
    match RObject::decode(reply, 0) {
        Ok((RObject::Array(items), _)) => {
            proof {
                crate::protocol::r_object::lemma_views(items@);
            }
            if items.len() > 2 {
                match &items[2] {
                    RObject::BulkString(s) => parse_u64(s.as_str().as_bytes()),
                    _ => None,
                }
            } else {
                None
            }
        },
        _ => None,
    }
}

} // verus!
