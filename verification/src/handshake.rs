//! The handshake by which a node joins its master.
//!
//! The node sends four commands, one after the other, and reads what comes
//! back: `PING`; `REPLCONF listening-port` with its port; `REPLCONF capa
//! psync2`; `PSYNC ? -1`. To each of the first three any reply will do. To the
//! last the master answers with the line that announces the full resync and
//! with the snapshot, behind the line that gives its length. What follows the
//! snapshot on the connection is the stream of commands to take in.
//!
//! The handshake touches no connection: it tells the caller what to send and
//! takes what was received. A lost connection, a timeout and a malformed answer
//! each end it for good. The node does not go on as a master then: whoever
//! started it as a replica finds it out by the failure.

use vstd::prelude::*;
use vstd::slice::{slice_subrange, slice_to_vec};
use vstd::string::StringExecFns;
use vstd::utf8::*;
use crate::config::Config;
use crate::handler::psync::{lemma_snapshot, psync_reply, snapshot};
use crate::protocol::framing::{
    crlf, find_byte, find_crlf, first_byte, first_crlf, has_crlf, has_prefix, is_crlf_at,
    lemma_first_byte, lemma_first_byte_is, lemma_first_crlf, lemma_first_crlf_after_text,
    push_bytes, starts_with, text_of,
};
use crate::protocol::number::{
    decimal_text, decimal_u64, is_digit, lemma_decimal_round_trip, lemma_decimal_text_bytes,
    lemma_digits_text, parse_u64,
};
use crate::protocol::r_object::{command_of, RObject, Value, TAG_BULK_STRING, TAG_SIMPLE_STRING};
use crate::protocol::text::{
    decimal_chars, decimal_string, lemma_decimal_chars, lemma_encode_utf8_concat,
};
use crate::state::State;

verus! {

/// How far the handshake has come.
#[derive(Debug, Clone, Copy, PartialEq, Eq, Structural)]
pub enum Phase {
    /// `PING` is out.
    Greeting,
    /// `REPLCONF listening-port` is out.
    Port,
    /// `REPLCONF capa psync2` is out.
    Capabilities,
    /// `PSYNC ? -1` is out; the announcement and the snapshot are due.
    Resync,
    /// The master has sent its snapshot; the connection carries commands now.
    Established,
    /// The handshake has failed.
    Failed,
}

/// Why a handshake failed.
#[derive(Debug, Clone, Copy, PartialEq, Eq, Structural)]
pub enum HandshakeError {
    /// The connection could not be made or was lost.
    ConnectionLost,
    /// An answer did not come in time.
    TimedOut,
    /// The master's answer to `PSYNC` is not what the protocol asks for.
    Malformed,
    /// The handshake had ended before.
    Finished,
}

/// A handshake under way.
pub struct Handshake {
    pub phase: Phase,
    /// The port that the node announces.
    pub port: u64,
    /// What has come in since `PSYNC` went out.
    pub received: Vec<u8>,
}

/// What happened on the connection to the master.
pub enum HandshakeEvent {
    /// Bytes have come in.
    Received(Vec<u8>),
    /// The connection could not be made or was lost.
    ConnectionLost,
    /// Nothing has come in for too long.
    TimedOut,
}

/// What a completed handshake yields.
pub struct Established {
    /// The id of the master's stream of writes.
    pub replid: String,
    /// The offset that the master announced.
    pub offset: u64,
    /// The snapshot.
    pub snapshot: Vec<u8>,
    /// What came in behind the snapshot: the first bytes of the stream of
    /// commands.
    pub rest: Vec<u8>,
}

/// What the caller is to do next.
pub enum HandshakeStep {
    /// Send these bytes, then hand over what comes in.
    Send(Vec<u8>),
    /// Hand over more of what comes in.
    Read,
    /// The handshake is complete.
    Done(Established),
    /// The handshake has failed; give the connection up.
    Abort(HandshakeError),
}

/// `PING`.
pub open spec fn ping_command() -> Value {
    command_of(seq!["PING"@])
}

/// `REPLCONF listening-port` with the port.
pub open spec fn port_command(port: u64) -> Value {
    command_of(seq!["REPLCONF"@, "listening-port"@, decimal_chars(port as int)])
}

/// `REPLCONF capa psync2`.
pub open spec fn capa_command() -> Value {
    command_of(seq!["REPLCONF"@, "capa"@, "psync2"@])
}

/// `PSYNC ? -1`.
pub open spec fn psync_command() -> Value {
    command_of(seq!["PSYNC"@, "?"@, "-1"@])
}

/// What a line announces if it is `+FULLRESYNC`, a space, an id that is not
/// empty, a space, an unsigned numeral: the id and the offset.
pub open spec fn fullresync_of(line: Seq<u8>) -> Option<(Seq<char>, u64)> {
    let prefix = encode_utf8("+FULLRESYNC "@);
    if !starts_with(line, prefix) {
        None
    } else {
        match first_byte(line, 32, prefix.len() as int) {
            None => None,
            Some(space) => {
                let id = line.subrange(prefix.len() as int, space);
                if id.len() == 0 || !valid_utf8(id) {
                    None
                } else {
                    match decimal_u64(line.subrange(space + 1, line.len() as int)) {
                        Some(offset) => Some((decode_utf8(id), offset)),
                        None => None,
                    }
                }
            },
        }
    }
}

/// The length that a line gives if it is `$` and an unsigned numeral.
pub open spec fn snapshot_length(line: Seq<u8>) -> Option<u64> {
    if line.len() > 0 && line[0] == TAG_BULK_STRING {
        decimal_u64(line.subrange(1, line.len() as int))
    } else {
        None
    }
}

/// What the bytes received after `PSYNC` amount to.
pub enum ResyncView {
    /// More is due.
    Incomplete,
    /// They are not what the protocol asks for.
    Malformed,
    /// The announcement and the whole snapshot are there: the id, the offset,
    /// the snapshot, and what came in behind it.
    Complete(Seq<char>, u64, Seq<u8>, Seq<u8>),
}

/// What the bytes received after `PSYNC` amount to: a line that announces the
/// full resync, a line that gives the length of the snapshot, then as many raw
/// bytes, with no CRLF of their own.
pub open spec fn resync(buf: Seq<u8>) -> ResyncView {
    match first_crlf(buf, 0) {
        None => ResyncView::Incomplete,
        Some(p) => match fullresync_of(buf.subrange(0, p)) {
            None => ResyncView::Malformed,
            Some((id, offset)) => match first_crlf(buf, p + 2) {
                None => ResyncView::Incomplete,
                Some(q) => match snapshot_length(buf.subrange(p + 2, q)) {
                    None => ResyncView::Malformed,
                    Some(n) => if q + 2 + n <= buf.len() {
                        ResyncView::Complete(
                            id,
                            offset,
                            buf.subrange(q + 2, q + 2 + n),
                            buf.subrange(q + 2 + n, buf.len() as int),
                        )
                    } else {
                        ResyncView::Incomplete
                    },
                },
            },
        },
    }
}

/// What was read of a resync.
pub enum Resync {
    Incomplete,
    Malformed,
    Complete(Established),
}

impl View for Resync {
    type V = ResyncView;

    open spec fn view(&self) -> ResyncView {
        match self {
            Resync::Incomplete => ResyncView::Incomplete,
            Resync::Malformed => ResyncView::Malformed,
            Resync::Complete(e) => ResyncView::Complete(e.replid@, e.offset, e.snapshot@, e.rest@),
        }
    }
}

/// Reads the line that announces a full resync.
fn parse_fullresync(data: &[u8], to: usize) -> (r: Option<(String, u64)>)
    requires
        to <= data@.len(),
    ensures
        match fullresync_of(data@.subrange(0, to as int)) {
            Some((id, offset)) => r matches Some((s, o)) && s@ == id && o == offset,
            None => r is None,
        },
{
    let ghost line = data@.subrange(0, to as int);
    let prefix = "+FULLRESYNC ".as_bytes();
    if !has_prefix(data, 0, to, prefix) {
        return None;
    }
    let from = prefix.len();
    let head = slice_subrange(data, 0, to);
    proof {
        lemma_first_byte(line, 32, from as int);
    }
    match find_byte(head, 32, from) {
        None => None,
        Some(space) => {
            proof {
                assert(line.subrange(from as int, space as int) =~= data@.subrange(
                    from as int,
                    space as int,
                ));
                assert(line.subrange(space + 1, line.len() as int) =~= data@.subrange(
                    space + 1,
                    to as int,
                ));
            }
            if space == from {
                return None;
            }
            match text_of(data, from, space) {
                None => None,
                Some(id) => match parse_u64(slice_subrange(data, space + 1, to)) {
                    Some(offset) => Some((id, offset)),
                    None => None,
                },
            }
        },
    }
}

/// Reads the line that gives the length of the snapshot.
fn parse_snapshot_length(data: &[u8], from: usize, to: usize) -> (r: Option<u64>)
    requires
        from <= to <= data@.len(),
    ensures
        r == snapshot_length(data@.subrange(from as int, to as int)),
{
    let ghost line = data@.subrange(from as int, to as int);
    if to > from && data[from] == TAG_BULK_STRING {
        proof {
            assert(line[0] == data@[from as int]);
            assert(line.subrange(1, line.len() as int) =~= data@.subrange(from + 1, to as int));
        }
        parse_u64(slice_subrange(data, from + 1, to))
    } else {
        proof {
            if to > from {
                assert(line[0] == data@[from as int]);
            }
        }
        None
    }
}

/// Reads what has come in after `PSYNC`.
pub fn parse_resync(buf: &[u8]) -> (r: Resync)
    ensures
        r@ == resync(buf@),
{
    let len = buf.len();
    proof {
        lemma_first_crlf(buf@, 0);
    }
    let p = match find_crlf(buf, 0) {
        None => {
            return Resync::Incomplete;
        },
        Some(p) => p,
    };
    let (replid, offset) = match parse_fullresync(buf, p) {
        None => {
            return Resync::Malformed;
        },
        Some(found) => found,
    };
    proof {
        lemma_first_crlf(buf@, p + 2);
    }
    let q = match find_crlf(buf, p + 2) {
        None => {
            return Resync::Incomplete;
        },
        Some(q) => q,
    };
    let n = match parse_snapshot_length(buf, p + 2, q) {
        None => {
            return Resync::Malformed;
        },
        Some(n) => n,
    };
    let start = q + 2;
    if n > (len - start) as u64 {
        return Resync::Incomplete;
    }
    let end = start + (n as usize);
    let snapshot = slice_to_vec(slice_subrange(buf, start, end));
    let rest = slice_to_vec(slice_subrange(buf, end, len));
    Resync::Complete(Established { replid, offset, snapshot, rest })
}

/// The command made of three words.
fn command3(a: &str, b: &str, c: &str) -> (r: Vec<u8>)
    ensures
        r@ == command_of(seq![a@, b@, c@]).encoding(),
{
    let mut words: Vec<String> = Vec::new();
    words.push(String::from_str(a));
    words.push(String::from_str(b));
    words.push(String::from_str(c));
    proof {
        assert(Seq::new(words@.len(), |i: int| words@[i]@) =~= seq![a@, b@, c@]);
    }
    RObject::command(words).encode()
}

/// The mathematical model of a step.
pub enum StepView {
    Send(Seq<u8>),
    Read,
    Done(Seq<char>, u64, Seq<u8>, Seq<u8>),
    Abort(HandshakeError),
}

impl View for HandshakeStep {
    type V = StepView;

    open spec fn view(&self) -> StepView {
        match self {
            HandshakeStep::Send(bytes) => StepView::Send(bytes@),
            HandshakeStep::Read => StepView::Read,
            HandshakeStep::Done(e) => StepView::Done(e.replid@, e.offset, e.snapshot@, e.rest@),
            HandshakeStep::Abort(e) => StepView::Abort(*e),
        }
    }
}

/// The mathematical model of a handshake under way.
pub struct HandshakeView {
    pub phase: Phase,
    pub port: u64,
    pub received: Seq<u8>,
}

impl View for Handshake {
    type V = HandshakeView;

    open spec fn view(&self) -> HandshakeView {
        HandshakeView { phase: self.phase, port: self.port, received: self.received@ }
    }
}

impl HandshakeView {
    /// The handshake in another phase.
    pub open spec fn at(self, phase: Phase) -> HandshakeView {
        HandshakeView { phase, ..self }
    }

    /// The handshake and the step that follow when bytes have come in.
    ///
    /// Before `PSYNC` is out, whatever came in is the reply to the command that
    /// is out, and the next command goes out. After that, what comes in is
    /// gathered until the announcement and the snapshot are whole.
    pub open spec fn received(self, bytes: Seq<u8>) -> (HandshakeView, StepView) {
        match self.phase {
            Phase::Greeting => (
                self.at(Phase::Port),
                StepView::Send(port_command(self.port).encoding()),
            ),
            Phase::Port => (self.at(Phase::Capabilities), StepView::Send(capa_command().encoding())),
            Phase::Capabilities => (
                self.at(Phase::Resync),
                StepView::Send(psync_command().encoding()),
            ),
            Phase::Resync => {
                let all = self.received + bytes;
                let gathered = HandshakeView { received: all, ..self };
                match resync(all) {
                    ResyncView::Incomplete => (gathered, StepView::Read),
                    ResyncView::Malformed => (
                        gathered.at(Phase::Failed),
                        StepView::Abort(HandshakeError::Malformed),
                    ),
                    ResyncView::Complete(id, offset, snapshot, rest) => (
                        gathered.at(Phase::Established),
                        StepView::Done(id, offset, snapshot, rest),
                    ),
                }
            },
            Phase::Established => (self, StepView::Abort(HandshakeError::Finished)),
            Phase::Failed => (self, StepView::Abort(HandshakeError::Finished)),
        }
    }

    /// The handshake and the step that follow an event. A handshake that has
    /// ended stays as it is; one under way fails when the connection is lost
    /// or nothing comes in.
    pub open spec fn after(self, event: HandshakeEvent) -> (HandshakeView, StepView) {
        if self.phase == Phase::Established || self.phase == Phase::Failed {
            (self, StepView::Abort(HandshakeError::Finished))
        } else {
            match event {
                HandshakeEvent::Received(bytes) => self.received(bytes@),
                HandshakeEvent::ConnectionLost => (
                    self.at(Phase::Failed),
                    StepView::Abort(HandshakeError::ConnectionLost),
                ),
                HandshakeEvent::TimedOut => (
                    self.at(Phase::Failed),
                    StepView::Abort(HandshakeError::TimedOut),
                ),
            }
        }
    }
}

/// Begins the handshake of a node with these settings: nothing for a node that
/// follows no master; else the handshake and the first bytes to send to the
/// master, a `PING`.
pub fn handshake(config: &Config) -> (r: Option<(Handshake, Vec<u8>)>)
    ensures
        config.replica_of@.len() == 0 ==> r is None,
        config.replica_of@.len() > 0 ==> (r matches Some((h, first)) && h@ == (HandshakeView {
            phase: Phase::Greeting,
            port: config.working_port,
            received: Seq::empty(),
        }) && first@ == ping_command().encoding()),
{
    if config.replica_of.as_str().is_empty() {
        return None;
    }
    let mut words: Vec<String> = Vec::new();
    words.push(String::from_str("PING"));
    proof {
        assert(Seq::new(words@.len(), |i: int| words@[i]@) =~= seq!["PING"@]);
    }
    let first = RObject::command(words).encode();
    Some((Handshake { phase: Phase::Greeting, port: config.working_port, received: Vec::new() }, first))
}

impl Handshake {
    /// Takes in what happened on the connection and tells what to do next.
    pub fn on_event(&mut self, event: HandshakeEvent) -> (step: HandshakeStep)
        ensures
            (final(self)@, step@) == old(self)@.after(event),
    {
        match self.phase {
            Phase::Established => {
                return HandshakeStep::Abort(HandshakeError::Finished);
            },
            Phase::Failed => {
                return HandshakeStep::Abort(HandshakeError::Finished);
            },
            _ => {},
        }
        let bytes = match event {
            HandshakeEvent::Received(bytes) => bytes,
            HandshakeEvent::ConnectionLost => {
                self.phase = Phase::Failed;
                return HandshakeStep::Abort(HandshakeError::ConnectionLost);
            },
            HandshakeEvent::TimedOut => {
                self.phase = Phase::Failed;
                return HandshakeStep::Abort(HandshakeError::TimedOut);
            },
        };
        match self.phase {
            Phase::Greeting => {
                self.phase = Phase::Port;
                let port = decimal_string(self.port);
                HandshakeStep::Send(command3("REPLCONF", "listening-port", port.as_str()))
            },
            Phase::Port => {
                self.phase = Phase::Capabilities;
                HandshakeStep::Send(command3("REPLCONF", "capa", "psync2"))
            },
            Phase::Capabilities => {
                self.phase = Phase::Resync;
                HandshakeStep::Send(command3("PSYNC", "?", "-1"))
            },
            Phase::Resync => {
                push_bytes(&mut self.received, bytes.as_slice());
                match parse_resync(self.received.as_slice()) {
                    Resync::Incomplete => HandshakeStep::Read,
                    Resync::Malformed => {
                        self.phase = Phase::Failed;
                        HandshakeStep::Abort(HandshakeError::Malformed)
                    },
                    Resync::Complete(established) => {
                        self.phase = Phase::Established;
                        HandshakeStep::Done(established)
                    },
                }
            },
            _ => HandshakeStep::Abort(HandshakeError::Finished),
        }
    }
}

/// An id that a line can carry between spaces: it is not empty and holds
/// neither a space nor a carriage return.
pub open spec fn is_token(id: Seq<char>) -> bool {
    &&& id.len() > 0
    &&& forall|i: int|
        0 <= i < encode_utf8(id).len() ==> (#[trigger] encode_utf8(id)[i]) != 32 && encode_utf8(
            id,
        )[i] != 13
}

/// The line that announces a full resync, without its line end.
pub open spec fn announcement(id: Seq<char>, offset: u64) -> Seq<u8> {
    seq![TAG_SIMPLE_STRING] + encode_utf8(
        "FULLRESYNC "@ + id + " "@ + decimal_chars(offset as int),
    )
}

/// The announcement of a full resync holds no CRLF and is read back as the id
/// and the offset it was made of.
proof fn lemma_announcement(id: Seq<char>, offset: u64)
    requires
        is_token(id),
    ensures
        !has_crlf(announcement(id, offset)),
        fullresync_of(announcement(id, offset)) == Some((id, offset)),
{
    reveal_strlit("FULLRESYNC ");
    reveal_strlit("+FULLRESYNC ");
    reveal_strlit(" ");
    let digits = decimal_text(offset as int);
    let word = encode_utf8("FULLRESYNC "@);
    let name = encode_utf8(id);
    let space = encode_utf8(" "@);
    let text = "FULLRESYNC "@ + id + " "@ + decimal_chars(offset as int);
    lemma_decimal_chars(offset as int);
    lemma_decimal_text_bytes(offset as int);
    lemma_decimal_round_trip(offset as int);
    lemma_digits_text(offset as nat);
    assert(encode_utf8(text) == word + name + space + digits) by {
        lemma_encode_utf8_concat("FULLRESYNC "@ + id + " "@, decimal_chars(offset as int));
        lemma_encode_utf8_concat("FULLRESYNC "@ + id, " "@);
        lemma_encode_utf8_concat("FULLRESYNC "@, id);
    }
    is_ascii_chars_encode_utf8("FULLRESYNC "@);
    is_ascii_chars_encode_utf8("+FULLRESYNC "@);
    is_ascii_chars_encode_utf8(" "@);
    assert(space =~= seq![32u8]);
    let prefix = encode_utf8("+FULLRESYNC "@);
    assert(prefix =~= seq![TAG_SIMPLE_STRING] + word);
    assert(name.len() > 0) by {
        assert(encode_utf8(id) == encode_scalar(id[0] as u32) + encode_utf8(id.drop_first()));
    }
    let ln = announcement(id, offset);
    let blank: int = 12 + name.len() as int;
    assert(ln =~= prefix + name + space + digits);
    assert forall|i: int| 0 <= i < ln.len() implies (#[trigger] ln[i]) != 13 by {
        if i < 12 {
            assert(ln[i] == prefix[i]);
        } else if i < blank {
            assert(ln[i] == name[i - 12]);
        } else if i == blank {
        } else {
            assert(ln[i] == digits[i - blank - 1]);
            assert(is_digit(digits[i - blank - 1]) || digits[i - blank - 1] == 45);
        }
    }
    assert forall|i: int| !is_crlf_at(ln, i) by {
        if is_crlf_at(ln, i) {
            assert(ln[i] != 13);
        }
    }
    assert(ln.subrange(0, 12) =~= prefix);
    assert(ln[blank] == 32);
    assert forall|q: int| 12 <= q < blank implies ln[q] != 32 by {
        assert(ln[q] == name[q - 12]);
    }
    lemma_first_byte_is(ln, 32, 12, blank);
    assert(ln.subrange(12, blank) =~= name);
    assert(ln.subrange(blank + 1, ln.len() as int) =~= digits);
    encode_utf8_valid_utf8(id);
    encode_utf8_decode_utf8(id);
    assert(is_digit(digits[0]));
}

/// The line that gives the length of the snapshot, without its line end, holds
/// no CRLF and is read back as that length.
proof fn lemma_length_line(n: u64)
    ensures
        !has_crlf(seq![TAG_BULK_STRING] + decimal_text(n as int)),
        snapshot_length(seq![TAG_BULK_STRING] + decimal_text(n as int)) == Some(n),
{
    let digits = decimal_text(n as int);
    let count = seq![TAG_BULK_STRING] + digits;
    lemma_decimal_text_bytes(n as int);
    lemma_decimal_round_trip(n as int);
    lemma_digits_text(n as nat);
    assert forall|i: int| !is_crlf_at(count, i) by {
        if is_crlf_at(count, i) {
            if i > 0 {
                assert(count[i] == digits[i - 1]);
                assert(is_digit(digits[i - 1]) || digits[i - 1] == 45);
            }
        }
    }
    assert(count.subrange(1, count.len() as int) =~= digits);
    assert(is_digit(digits[0]));
}

/// What a master replies to `PSYNC`, a replica reads as a whole resync: the id
/// and the offset of the master, the snapshot, and behind it whatever the
/// master sent on.
pub proof fn law_resync_reads_psync_reply(state: State, rest: Seq<u8>)
    requires
        is_token(state.master_replid@),
    ensures
        resync(psync_reply(state) + rest) == ResyncView::Complete(
            state.master_replid@,
            state.master_repl_offset,
            snapshot(),
            rest,
        ),
{
    lemma_snapshot();
    let id = state.master_replid@;
    let ln = announcement(id, state.master_repl_offset);
    let count = seq![TAG_BULK_STRING] + decimal_text(88);
    let buf = psync_reply(state) + rest;
    lemma_announcement(id, state.master_repl_offset);
    lemma_length_line(88);
    assert(buf =~= (ln + crlf()) + (count + crlf()) + snapshot() + rest);

    // The first line ends where the announcement ends.
    let p = ln.len() as int;
    assert(buf.subrange(0, p + 2) =~= ln + crlf());
    lemma_first_crlf_after_text(buf, 0, ln);
    assert(buf.subrange(0, p) =~= ln);

    // The second line ends where the length ends.
    let q = p + 2 + count.len();
    assert(buf.subrange(p + 2, q + 2) =~= count + crlf());
    lemma_first_crlf_after_text(buf, p + 2, count);
    assert(buf.subrange(p + 2, q) =~= count);

    // The snapshot and what follows it.
    assert(buf.subrange(q + 2, q + 2 + 88) =~= snapshot());
    assert(buf.subrange(q + 2 + 88, buf.len() as int) =~= rest);
}

} // verus!
