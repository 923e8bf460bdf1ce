//! `WAIT numreplicas timeout`: the wait for a quorum of acknowledgments.
//!
//! The command starts a round of probes and then counts, event by event, the
//! subscribers that report the offset captured when the round began. The
//! caller runs the clock and the connections: it delivers the probe, and hands
//! over the answer of each subscriber as it comes in, or the firing of the
//! timer. The wait ends with the first of: the timer fires, the count reaches
//! what was asked for, every subscriber has answered. Probes still out at that
//! moment are the caller's to drop.

use vstd::prelude::*;
use vstd::utf8::*;
use crate::broadcast::{getack_command, Broadcaster, Delivery, PROBE_LENGTH};
use crate::handler::error::{argument, argument_at, CommandError};
use crate::protocol::number::decimal_u64;
use crate::protocol::r_object::{views, RObject, Value};
use crate::protocol::text::parse_u64_text;

verus! {

/// A wait that is under way.
#[derive(Debug, Clone, Copy, PartialEq, Eq, Structural)]
pub struct Wait {
    /// How many acknowledgments were asked for.
    pub required: u64,
    /// The offset that counts as an acknowledgment.
    pub target: u64,
    /// How many subscribers have not answered yet.
    pub pending: usize,
    /// How many subscribers have reported the target so far.
    pub acked: i64,
    /// After how many milliseconds the timer fires.
    pub timeout_ms: u64,
}

/// What can happen while a wait is under way.
#[derive(Debug, Clone, Copy, PartialEq, Eq, Structural)]
pub enum WaitEvent {
    /// A subscriber has answered its probe with an offset, or has given no
    /// answer that could be read.
    Answer(Option<u64>),
    /// The timer has fired.
    Timeout,
}

/// Where a wait stands after an event.
#[derive(Debug, Clone, Copy, PartialEq, Eq, Structural)]
pub enum WaitStep {
    /// It goes on.
    Pending(Wait),
    /// It has ended with this count.
    Done(i64),
}

/// How a `WAIT` begins.
pub enum WaitStart {
    /// It ends at once with this reply; no probe goes out.
    Reply(RObject),
    /// It goes on: the probe is to be delivered and the events handed over.
    Probe { wait: Wait, probe: Delivery },
}

impl Wait {
    /// A wait that is under way lacks acknowledgments and answers, and its
    /// count can be put in a reply.
    pub open spec fn wf(self) -> bool {
        &&& 0 <= self.acked < self.required
        &&& self.pending > 0
        &&& self.acked + self.pending <= i64::MAX
    }

    /// The count after an answer: one more where the answer reports the
    /// target. (A count at the end of its range stays there; a wait under way
    /// is never so far.)
    pub open spec fn counted(self, answer: Option<u64>) -> i64 {
        if answer == Some(self.target) && self.acked < i64::MAX {
            (self.acked + 1) as i64
        } else {
            self.acked
        }
    }

    /// Where the wait stands after an event.
    pub open spec fn step(self, event: WaitEvent) -> WaitStep {
        match event {
            WaitEvent::Timeout => WaitStep::Done(self.acked),
            WaitEvent::Answer(answer) => if self.counted(answer) >= self.required || self.pending
                <= 1 {
                WaitStep::Done(self.counted(answer))
            } else {
                WaitStep::Pending(
                    Wait {
                        acked: self.counted(answer),
                        pending: (self.pending - 1) as usize,
                        ..self
                    },
                )
            },
        }
    }

    /// Where the wait stands after a sequence of events; what comes after its
    /// end is not looked at.
    pub open spec fn run(self, events: Seq<WaitEvent>) -> WaitStep
        decreases events.len(),
    {
        if events.len() == 0 {
            WaitStep::Pending(self)
        } else {
            match self.step(events.first()) {
                WaitStep::Done(count) => WaitStep::Done(count),
                WaitStep::Pending(next) => next.run(events.drop_first()),
            }
        }
    }

    /// Takes in an event: an answer counts if it reports the target; the wait
    /// ends when the timer fires, when the count reaches what was asked for,
    /// or when the last subscriber has answered.
    pub fn on_event(self, event: WaitEvent) -> (next: WaitStep)
        ensures
            next == self.step(event),
            self.wf() ==> (next matches WaitStep::Pending(w) ==> w.wf()),
            self.wf() ==> (next matches WaitStep::Done(count) ==> 0 <= count <= self.required),
    {
        match event {
            WaitEvent::Timeout => WaitStep::Done(self.acked),
            WaitEvent::Answer(answer) => {
                let counts = match answer {
                    Some(offset) => offset == self.target,
                    None => false,
                };
                let acked = if counts && self.acked < i64::MAX {
                    self.acked + 1
                } else {
                    self.acked
                };
                if (acked >= 0 && (acked as u64) >= self.required) || self.pending <= 1 {
                    WaitStep::Done(acked)
                } else {
                    WaitStep::Pending(
                        Wait {
                            required: self.required,
                            target: self.target,
                            pending: self.pending - 1,
                            acked,
                            timeout_ms: self.timeout_ms,
                        },
                    )
                }
            },
        }
    }
}

/// What `WAIT` replies with: the count, as an integer.
pub open spec fn wait_reply(count: int) -> Value {
    Value::Integer(count)
}

/// The reply that ends a wait.
pub fn count_reply(count: i64) -> (r: RObject)
    ensures
        r@ == wait_reply(count as int),
{
    RObject::Integer(count)
}

/// How a `WAIT` begins, and what it does to the broadcaster.
pub enum WaitPlan {
    /// It ends at once with this count.
    Reply(int),
    /// It goes on with this wait, after a probe has gone out to every
    /// subscriber.
    Probe(Wait),
}

/// How a `WAIT` begins. Asked for no acknowledgment, it ends at once with 0.
/// While nothing has ever been propagated to the subscribers, it ends at once
/// with their number. Without subscribers it ends at once with 0. In all three
/// cases no probe goes out. Else it captures the offset of a replica that has
/// kept up, the bytes propagated and the bytes probed so far, and a probe goes
/// out.
pub open spec fn wait_plan(args: Seq<Value>, b: Broadcaster) -> Result<WaitPlan, CommandError> {
    match argument(args, 2) {
        Ok(timeout) => match decimal_u64(encode_utf8(timeout)) {
            Some(timeout_ms) => match argument(args, 1) {
                Ok(wanted) => match decimal_u64(encode_utf8(wanted)) {
                    Some(required) => if required == 0 {
                        Ok(WaitPlan::Reply(0))
                    } else if b.broadcasted == 0 {
                        Ok(WaitPlan::Reply(b.subscribers as int))
                    } else if b.subscribers == 0 {
                        Ok(WaitPlan::Reply(0))
                    } else {
                        Ok(
                            WaitPlan::Probe(
                                Wait {
                                    required,
                                    target: (b.broadcasted + b.probed) as u64,
                                    pending: b.subscribers,
                                    acked: 0,
                                    timeout_ms,
                                },
                            ),
                        )
                    },
                    None => Err(CommandError::InvalidArgument),
                },
                Err(e) => Err(e),
            },
            None => Err(CommandError::InvalidArgument),
        },
        Err(e) => Err(e),
    }
}

/// An exec start agrees with the plan, and the broadcaster has changed as the
/// plan says: not at all, or by the probe that went out.
pub open spec fn wait_agrees(
    r: Result<WaitStart, CommandError>,
    after: Broadcaster,
    plan: Result<WaitPlan, CommandError>,
    before: Broadcaster,
) -> bool {
    match plan {
        Ok(WaitPlan::Reply(count)) => r matches Ok(WaitStart::Reply(reply)) && reply@
            == wait_reply(count) && after == before,
        Ok(WaitPlan::Probe(w)) => {
            &&& r matches Ok(WaitStart::Probe { wait, probe })
            &&& wait == w
            &&& wait.wf()
            &&& probe.bytes@ == getack_command().encoding()
            &&& probe.subscribers == before.subscribers
            &&& after.subscribers == before.subscribers
            &&& after.broadcasted == before.broadcasted
            &&& after.probed == before.probed + PROBE_LENGTH
        },
        Err(k) => r matches Err(e) && e == k && after == before,
    }
}

/// The counts of the broadcaster leave room for what the command asks of them:
/// a reply can hold the number of subscribers where that is the reply, and the
/// bytes of a probe can be counted where a probe goes out. A `WAIT` for no
/// acknowledgment and a `WAIT` with wrong arguments ask for nothing.
pub open spec fn wait_has_room(args: Seq<Value>, b: Broadcaster) -> bool {
    match wait_plan(args, b) {
        Ok(WaitPlan::Reply(count)) => count <= i64::MAX,
        Ok(WaitPlan::Probe(_)) => b.subscribers <= i64::MAX && b.broadcasted + b.probed
            + PROBE_LENGTH <= u64::MAX,
        Err(_) => true,
    }
}

/// `WAIT numreplicas timeout`: begins the wait for acknowledgments.
pub fn handle_wait(args: &Vec<RObject>, broadcaster: &mut Broadcaster) -> (r: Result<
    WaitStart,
    CommandError,
>)
    requires
        wait_has_room(views(args@), *old(broadcaster)),
    ensures
        wait_agrees(
            r,
            *final(broadcaster),
            wait_plan(views(args@), *old(broadcaster)),
            *old(broadcaster),
        ),
{
    let timeout_ms = match argument_at(args, 2) {
        Ok(text) => match parse_u64_text(text.as_str()) {
            Some(v) => v,
            None => {
                return Err(CommandError::InvalidArgument);
            },
        },
        Err(e) => {
            return Err(e);
        },
    };
    let required = match argument_at(args, 1) {
        Ok(text) => match parse_u64_text(text.as_str()) {
            Some(v) => v,
            None => {
                return Err(CommandError::InvalidArgument);
            },
        },
        Err(e) => {
            return Err(e);
        },
    };
    if required == 0 {
        return Ok(WaitStart::Reply(count_reply(0)));
    }
    if broadcaster.broadcasted == 0 {
        return Ok(WaitStart::Reply(count_reply(broadcaster.subscribers as i64)));
    }
    if broadcaster.subscribers == 0 {
        return Ok(WaitStart::Reply(count_reply(0)));
    }
    let probe = broadcaster.ask_ack();
    let wait = Wait {
        required,
        target: probe.offset,
        pending: probe.delivery.subscribers,
        acked: 0,
        timeout_ms,
    };
    Ok(WaitStart::Probe { wait, probe: probe.delivery })
}

/// How many of the events are answers that report `target`.
pub open spec fn matching(events: Seq<WaitEvent>, target: u64) -> nat
    decreases events.len(),
{
    if events.len() == 0 {
        0
    } else {
        matching(events.drop_first(), target) + if events.first() == WaitEvent::Answer(
            Some(target),
        ) {
            1nat
        } else {
            0nat
        }
    }
}

/// All the events are answers.
pub open spec fn all_answers(events: Seq<WaitEvent>) -> bool {
    forall|i: int| 0 <= i < events.len() ==> (#[trigger] events[i]) is Answer
}

/// The smaller of two numbers.
pub open spec fn least(a: int, b: int) -> int {
    if a <= b {
        a
    } else {
        b
    }
}

/// A wait counts the acknowledgments that come in before the timer fires, up
/// to the number asked for, and nothing that comes after: given answers from
/// subscribers, then the firing of the timer, then anything, it ends with the
/// number of those answers that report the target, or with the number asked for
/// if that is smaller.
pub proof fn law_wait_counts_until_deadline(
    w: Wait,
    before: Seq<WaitEvent>,
    after: Seq<WaitEvent>,
)
    requires
        w.wf(),
        all_answers(before),
        before.len() <= w.pending,
    ensures
        w.run(before + seq![WaitEvent::Timeout] + after) == WaitStep::Done(
            least(w.required as int, w.acked + matching(before, w.target)) as i64,
        ),
    decreases before.len(),
{
    let events = before + seq![WaitEvent::Timeout] + after;
    if before.len() == 0 {
        assert(events.first() == WaitEvent::Timeout);
    } else {
        let first = before.first();
        assert(events.first() == first);
        assert(first is Answer);
        assert(events.drop_first() =~= before.drop_first() + seq![WaitEvent::Timeout] + after);
        lemma_matching_bound(before.drop_first(), w.target);
        match w.step(first) {
            WaitStep::Done(count) => {
                if w.counted(first->Answer_0) < w.required {
                    assert(w.pending == 1);
                    assert(before.drop_first().len() == 0);
                }
            },
            WaitStep::Pending(next) => {
                assert forall|i: int| 0 <= i < before.drop_first().len() implies (
                #[trigger] before.drop_first()[i]) is Answer by {
                    assert(before.drop_first()[i] == before[i + 1]);
                }
                law_wait_counts_until_deadline(next, before.drop_first(), after);
            },
        }
    }
}

/// A wait does not outlast its subscribers: when every subscriber that was
/// asked has answered, it has ended, with the number of answers that report the
/// target, or with the number asked for if that is smaller.
pub proof fn law_wait_ends_with_the_last_answer(w: Wait, answers: Seq<WaitEvent>)
    requires
        w.wf(),
        all_answers(answers),
        answers.len() == w.pending,
    ensures
        w.run(answers) == WaitStep::Done(
            least(w.required as int, w.acked + matching(answers, w.target)) as i64,
        ),
    decreases answers.len(),
{
    let first = answers.first();
    assert(first is Answer);
    lemma_matching_bound(answers.drop_first(), w.target);
    match w.step(first) {
        WaitStep::Done(count) => {
            if w.counted(first->Answer_0) < w.required {
                assert(answers.drop_first().len() == 0);
            }
        },
        WaitStep::Pending(next) => {
            assert forall|i: int| 0 <= i < answers.drop_first().len() implies (
            #[trigger] answers.drop_first()[i]) is Answer by {
                assert(answers.drop_first()[i] == answers[i + 1]);
            }
            law_wait_ends_with_the_last_answer(next, answers.drop_first());
        },
    }
}

/// No more events report the target than there are events.
pub proof fn lemma_matching_bound(events: Seq<WaitEvent>, target: u64)
    ensures
        matching(events, target) <= events.len(),
    decreases events.len(),
{
    if events.len() > 0 {
        lemma_matching_bound(events.drop_first(), target);
    }
}

} // verus!
