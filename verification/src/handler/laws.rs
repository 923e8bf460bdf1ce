//! What holds of the dispatcher as a whole: the offset counts the bytes of
//! every frame, a write goes to the subscribers once and as it came, a wait
//! leaves what was propagated as it is and sends no probe where it asks for no
//! acknowledgment, and a read replies the last write that no removal has
//! taken away.

use vstd::prelude::*;
use vstd::utf8::*;
use crate::broadcast::{ack_of, getack_command, Broadcaster};
use crate::handler::handler::{
    advanced, command_words, dispatched, handled, is_quiet, replied, reply_step, set_step,
    text_in, wait_step, ActionView, Outcome, Peer, ResultView,
};
use crate::handler::get::get_reply;
use crate::handler::replconf::ack_command;
use crate::handler::set::{set_effect, set_reply};
use crate::handler::wait::{wait_has_room, wait_plan, wait_reply, WaitPlan};
use crate::handler::error::CommandError;
use crate::protocol::decode::{advances, decoded, remaining, ProtocolError};
use crate::protocol::laws::law_decode_encode;
use crate::protocol::number::{decimal_u64, lemma_decimal_round_trip, lemma_decimal_text_len};
use crate::protocol::r_object::Value;
use crate::protocol::text::{decimal_chars, lemma_decimal_chars};
use crate::state::State;
use crate::store::StoreView;

verus! {

/// The stretch of the request from `from` up to `to` is made of whole frames,
/// one behind the other.
pub open spec fn frames(request: Seq<u8>, from: int, to: int) -> bool
    decreases remaining(request, from),
{
    if from == to {
        true
    } else {
        match decoded(request, from) {
            Ok((_, next)) => advances(request, from, next) && next <= to && frames(
                request,
                next,
                to,
            ),
            Err(_) => false,
        }
    }
}

/// The bytes are a frame of the request, as it stands there: they are what
/// lies between the start of a frame and its end.
pub open spec fn is_frame_of(request: Seq<u8>, bytes: Seq<u8>) -> bool {
    exists|from: int, to: int|
        0 <= from < to <= request.len() && #[trigger] frame_at(request, from, to) && bytes
            == request.subrange(from, to)
}

/// A frame starts at `from` and ends at `to`.
pub open spec fn frame_at(request: Seq<u8>, from: int, to: int) -> bool {
    decoded(request, from) matches Ok((_, next)) && next == to
}

/// The offset counts the bytes of every frame: the handling stops behind whole
/// frames, and the offset of the node has grown by exactly their length,
/// whatever their commands came to. Nothing else of the state changes. (The
/// offset is a 64-bit count; the law speaks of requests that leave it in its
/// range.)
///
/// The handling that ends normally has used up the request; the one that
/// fails stands in front of bytes that are no frame.
pub proof fn law_offset_counts_every_frame(
    request: Seq<u8>,
    at: int,
    peer: Peer,
    store: StoreView,
    state: State,
    b: Broadcaster,
)
    requires
        0 <= at <= request.len(),
        state.consumed + (request.len() - at) <= u64::MAX,
    ensures
        ({
            let run = handled(request, at, peer, store, state, b);
            &&& at <= run.consumed <= request.len()
            &&& frames(request, at, run.consumed)
            &&& run.state == advanced(state, run.consumed - at)
            &&& run.result is Normal ==> run.consumed == request.len()
            &&& run.result matches ResultView::Failed(e) ==> decoded(request, run.consumed)
                == Err::<(Value, int), ProtocolError>(e)
        }),
    decreases remaining(request, at),
{
    let run = handled(request, at, peer, store, state, b);
    if at >= request.len() {
        assert(state == advanced(state, 0));
    } else {
        crate::protocol::laws::lemma_decoded_sound(request, at);
        match decoded(request, at) {
            Err(e) => {
                assert(state == advanced(state, 0));
            },
            Ok((frame, next)) => {
                let step = dispatched(frame, request.subrange(at, next), peer, store, state, b);
                let moved = advanced(state, next - at);
                match step.outcome {
                    Outcome::Continue => {
                        law_offset_counts_every_frame(
                            request,
                            next,
                            peer,
                            step.store,
                            moved,
                            step.broadcaster,
                        );
                        let rest = handled(request, next, peer, step.store, moved, step.broadcaster);
                        assert(advanced(moved, rest.consumed - next) == advanced(
                            state,
                            rest.consumed - at,
                        )) by {
                            lemma_advanced_twice(state, next - at, rest.consumed - next);
                        }
                    },
                    _ => {
                        assert(frames(request, next, next));
                    },
                }
            },
        }
    }
}

/// Moving the offset on twice is moving it on by the sum, as long as the offset
/// stays in its range.
pub proof fn lemma_advanced_twice(state: State, n: int, m: int)
    requires
        0 <= n,
        0 <= m,
        state.consumed + n + m <= u64::MAX,
    ensures
        advanced(advanced(state, n), m) == advanced(state, n + m),
{
}

/// What goes to the subscribers is the frame as it came: every propagation
/// that a handling asks for carries bytes that stand in the request between
/// the start and the end of one of its frames, with nothing changed.
pub proof fn law_propagation_is_verbatim(
    request: Seq<u8>,
    at: int,
    peer: Peer,
    store: StoreView,
    state: State,
    b: Broadcaster,
)
    requires
        0 <= at <= request.len(),
    ensures
        forall|i: int|
            0 <= i < handled(request, at, peer, store, state, b).actions.len() ==> (#[trigger] handled(
                request,
                at,
                peer,
                store,
                state,
                b,
            ).actions[i] matches ActionView::Propagate(bytes, _) ==> is_frame_of(request, bytes)),
    decreases remaining(request, at),
{
    let run = handled(request, at, peer, store, state, b);
    if at < request.len() {
        crate::protocol::laws::lemma_decoded_sound(request, at);
        match decoded(request, at) {
            Err(e) => {},
            Ok((frame, next)) => {
                let raw = request.subrange(at, next);
                let step = dispatched(frame, raw, peer, store, state, b);
                let moved = advanced(state, next - at);
                assert forall|i: int| 0 <= i < step.actions.len() implies (
                #[trigger] step.actions[i] matches ActionView::Propagate(bytes, _) ==> bytes
                    == raw) by {
                    reveal(dispatched);
                }
                assert(frame_at(request, at, next));
                assert(is_frame_of(request, raw));
                match step.outcome {
                    Outcome::Continue => {
                        law_propagation_is_verbatim(
                            request,
                            next,
                            peer,
                            step.store,
                            moved,
                            step.broadcaster,
                        );
                        let rest = handled(request, next, peer, step.store, moved, step.broadcaster);
                        assert forall|i: int| 0 <= i < run.actions.len() implies (
                        #[trigger] run.actions[i] matches ActionView::Propagate(bytes, _)
                            ==> is_frame_of(request, bytes)) by {
                            if i < step.actions.len() {
                                assert(run.actions[i] == step.actions[i]);
                            } else {
                                assert(run.actions[i] == rest.actions[i - step.actions.len()]);
                            }
                        }
                    },
                    _ => {},
                }
            },
        }
    }
}

/// A wait for no acknowledgment ends at once with the count 0 and sends no
/// probe: the broadcaster stays as it is, and nothing is asked of the caller
/// but to write the reply.
pub proof fn law_wait_for_none_sends_no_probe(
    args: Seq<Value>,
    quiet: bool,
    store: StoreView,
    b: Broadcaster,
)
    requires
        args.len() >= 3,
        args[1] matches Value::BulkString(wanted) && decimal_u64(encode_utf8(wanted)) == Some(
            0u64,
        ),
        args[2] matches Value::BulkString(timeout) && decimal_u64(encode_utf8(timeout)) is Some,
    ensures
        wait_has_room(args, b),
        wait_plan(args, b) == Ok::<WaitPlan, CommandError>(WaitPlan::Reply(0)),
        wait_step(args, quiet, store, b) == reply_step(
            store,
            b,
            replied(quiet, Ok(wait_reply(0))),
        ),
{
}

/// A round of probes leaves the subscribers and the count of bytes propagated
/// as they are: a `WAIT` that has to wait changes nothing of the broadcaster
/// but the count of bytes probed, and asks of the caller one wait and nothing
/// else.
pub proof fn law_wait_leaves_what_was_propagated(
    args: Seq<Value>,
    quiet: bool,
    store: StoreView,
    b: Broadcaster,
)
    ensures
        wait_step(args, quiet, store, b).broadcaster.subscribers == b.subscribers,
        wait_step(args, quiet, store, b).broadcaster.broadcasted == b.broadcasted,
        wait_step(args, quiet, store, b).store == store,
        wait_plan(args, b) matches Ok(WaitPlan::Probe(wait)) ==> wait_step(
            args,
            quiet,
            store,
            b,
        ).actions == seq![
            ActionView::Wait(wait, getack_command().encoding(), b.subscribers as nat, !quiet),
        ],
{
}

/// The frame asks for a full resync.
pub open spec fn asks_resync(frame: Value) -> bool {
    command_words(frame) matches Ok(args) && text_in(args[0]) == "PSYNC"@
}

/// The stretch of the request from `from` up to `to` is made of whole frames,
/// one behind the other, of which none asks for a full resync.
pub open spec fn commands(request: Seq<u8>, from: int, to: int) -> bool
    decreases remaining(request, from),
{
    if from == to {
        true
    } else {
        match decoded(request, from) {
            Ok((frame, next)) => advances(request, from, next) && next <= to && !asks_resync(
                frame,
            ) && commands(request, next, to),
            Err(_) => false,
        }
    }
}

/// A request made of whole frames, none of which asks for a full resync, is
/// handled to its end, and the offset of the node has grown by the length of
/// the request, whatever the commands came to: carried out, in error, or with
/// their replies held back.
pub proof fn law_offset_of_a_whole_request(
    request: Seq<u8>,
    at: int,
    peer: Peer,
    store: StoreView,
    state: State,
    b: Broadcaster,
)
    requires
        0 <= at <= request.len(),
        commands(request, at, request.len() as int),
        state.consumed + (request.len() - at) <= u64::MAX,
    ensures
        ({
            let run = handled(request, at, peer, store, state, b);
            &&& run.result is Normal
            &&& run.consumed == request.len()
            &&& run.state.consumed == state.consumed + (request.len() - at)
            &&& run.state == advanced(state, request.len() - at)
        }),
    decreases remaining(request, at),
{
    if at >= request.len() {
        assert(state == advanced(state, 0));
    } else {
        crate::protocol::laws::lemma_decoded_sound(request, at);
        let (frame, next) = decoded(request, at)->Ok_0;
        let step = dispatched(frame, request.subrange(at, next), peer, store, state, b);
        let moved = advanced(state, next - at);
        assert(step.outcome is Continue) by {
            reveal(dispatched);
        }
        law_offset_of_a_whole_request(request, next, peer, step.store, moved, step.broadcaster);
        lemma_advanced_twice(state, next - at, request.len() - next);
    }
}

/// The frame is a `SET` that is carried out on the store.
pub open spec fn writes(frame: Value, store: StoreView) -> bool {
    command_words(frame) matches Ok(args) && text_in(args[0]) == "SET"@ && set_effect(
        args,
        store,
    ) is Ok
}

/// A `SET` that is carried out goes to the subscribers once, first of all that
/// it asks of the caller, as the frame came and to all the subscribers present.
/// No other frame goes to the subscribers.
pub proof fn law_set_is_propagated_once(
    frame: Value,
    raw: Seq<u8>,
    peer: Peer,
    store: StoreView,
    state: State,
    b: Broadcaster,
)
    ensures
        ({
            let actions = dispatched(frame, raw, peer, store, state, b).actions;
            &&& writes(frame, store) ==> actions.len() > 0 && actions[0] == ActionView::Propagate(
                raw,
                b.subscribers as nat,
            )
            &&& forall|i: int|
                0 <= i < actions.len() && (#[trigger] actions[i]) is Propagate ==> i == 0 && writes(
                    frame,
                    store,
                )
        }),
{
    reveal(dispatched);
    reveal_strlit("PING");
    reveal_strlit("ECHO");
    reveal_strlit("SET");
    let actions = dispatched(frame, raw, peer, store, state, b).actions;
    if writes(frame, store) {
        let args = command_words(frame)->Ok_0;
        let effect = set_effect(args, store)->Ok_0;
        let tail = (match effect.expiry {
            Some((key, version, millis)) => seq![ActionView::Expire(key, version, millis)],
            None => Seq::empty(),
        }) + replied(is_quiet(state.role, peer), Ok(set_reply()));
        assert("SET"@.len() == 3 && "PING"@.len() == 4 && "ECHO"@.len() == 4);
        assert(dispatched(frame, raw, peer, store, state, b) == set_step(
            args,
            raw,
            is_quiet(state.role, peer),
            store,
            b,
        ));
        assert(actions =~= seq![ActionView::Propagate(raw, b.subscribers as nat)] + tail);
        assert forall|i: int| 0 <= i < actions.len() && (#[trigger] actions[i]) is Propagate implies i
            == 0 by {
            if i > 0 {
                assert(actions[i] == tail[i - 1]);
            }
        }
    }
}

/// What a replica answers to a probe, the master reads back as the offset that
/// the replica has reached.
pub proof fn law_acknowledgment_is_read_back(offset: u64)
    ensures
        ack_of(ack_command(offset).encoding()) == Some(offset),
{
    reveal_strlit("REPLCONF");
    reveal_strlit("ACK");
    let number = decimal_chars(offset as int);
    let words = seq!["REPLCONF"@, "ACK"@, number];
    let command = ack_command(offset);
    let items = command->Array_0;
    assert(items.len() == 3);
    assert(items[0] == Value::BulkString("REPLCONF"@));
    assert(items[1] == Value::BulkString("ACK"@));
    assert(items[2] == Value::BulkString(number));
    lemma_decimal_chars(offset as int);
    lemma_decimal_text_len(offset as int);
    lemma_decimal_round_trip(offset as int);
    is_ascii_chars_encode_utf8("REPLCONF"@);
    is_ascii_chars_encode_utf8("ACK"@);
    assert forall|i: int| 0 <= i < items.len() implies (#[trigger] items[i]).wf() by {
        assert(i == 0 || i == 1 || i == 2);
    }
    law_decode_encode(command);
}

/// The arguments of a `GET` for a key.
pub open spec fn get_of(key: Seq<char>) -> Seq<Value> {
    seq![Value::BulkString("GET"@), Value::BulkString(key)]
}

/// A `GET` replies what was last written under the key: after one `SET` its
/// value, after a second `SET` the second value, never anything else. The `GET`
/// itself changes nothing.
pub proof fn law_get_replies_the_last_write(
    store: StoreView,
    key: Seq<char>,
    first: Value,
    second: Value,
)
    ensures
        get_reply(get_of(key), store.set(key, first)) == Ok::<Value, CommandError>(first),
        get_reply(get_of(key), store.set(key, first).set(key, second)) == Ok::<
            Value,
            CommandError,
        >(second),
{
}

/// After a `SET` with a delay, and after the removal that it asked for has been
/// carried out, a `GET` for the key replies null and the store holds nothing
/// under the key. Where the key was written again in between, the removal
/// changes nothing and the `GET` replies the later value.
pub proof fn law_get_after_the_removal(args: Seq<Value>, store: StoreView, later: Value)
    requires
        set_effect(args, store) matches Ok(effect) && effect.expiry is Some,
    ensures
        ({
            let effect = set_effect(args, store)->Ok_0;
            let (key, version, millis) = effect.expiry->Some_0;
            &&& effect.store.get(key) == Some(args[2])
            &&& effect.store.expire(key, version).get(key) is None
            &&& get_reply(get_of(key), effect.store.expire(key, version)) == Ok::<
                Value,
                CommandError,
            >(Value::Null)
            &&& effect.store.set(key, later).expire(key, version) == effect.store.set(key, later)
            &&& get_reply(get_of(key), effect.store.set(key, later).expire(key, version)) == Ok::<
                Value,
                CommandError,
            >(later)
        }),
{
}

/// The bytes that the actions send on to the subscribers, in their order.
pub open spec fn propagated(actions: Seq<ActionView>) -> Seq<Seq<u8>>
    decreases actions.len(),
{
    if actions.len() == 0 {
        Seq::empty()
    } else {
        match actions.last() {
            ActionView::Propagate(bytes, _) => propagated(actions.drop_last()).push(bytes),
            _ => propagated(actions.drop_last()),
        }
    }
}

/// The frames of the request from `from` up to `to` that are a `SET` carried
/// out, as they stand in the request and in their order. Whether a `SET` is
/// carried out does not hang on what the store holds.
pub open spec fn written(request: Seq<u8>, from: int, to: int) -> Seq<Seq<u8>>
    decreases remaining(request, from),
{
    if from >= to {
        Seq::empty()
    } else {
        match decoded(request, from) {
            Ok((frame, next)) => if !advances(request, from, next) || next > to {
                Seq::empty()
            } else if writes(frame, StoreView { entries: Map::empty(), next_version: 0 }) {
                seq![request.subrange(from, next)] + written(request, next, to)
            } else {
                written(request, next, to)
            },
            Err(_) => Seq::empty(),
        }
    }
}

/// What two runs of actions send on is what the first sends on and then what
/// the second sends on.
pub proof fn lemma_propagated_concat(a: Seq<ActionView>, b: Seq<ActionView>)
    ensures
        propagated(a + b) == propagated(a) + propagated(b),
    decreases b.len(),
{
    if b.len() == 0 {
        assert(a + b =~= a);
        assert(propagated(a) + propagated(b) =~= propagated(a));
    } else {
        lemma_propagated_concat(a, b.drop_last());
        assert((a + b).drop_last() =~= a + b.drop_last());
        assert((a + b).last() == b.last());
        assert(propagated(a + b) =~= propagated(a) + propagated(b));
    }
}

/// Actions of which none sends on send nothing on.
pub proof fn lemma_propagated_none(actions: Seq<ActionView>)
    requires
        forall|i: int| 0 <= i < actions.len() ==> !((#[trigger] actions[i]) is Propagate),
    ensures
        propagated(actions) == Seq::<Seq<u8>>::empty(),
    decreases actions.len(),
{
    if actions.len() > 0 {
        assert forall|i: int| 0 <= i < actions.drop_last().len() implies !((
        #[trigger] actions.drop_last()[i]) is Propagate) by {
            assert(actions.drop_last()[i] == actions[i]);
        }
        lemma_propagated_none(actions.drop_last());
        assert(!(actions[actions.len() - 1] is Propagate));
    }
}

/// Every write goes to the subscribers once: what a handling sends on is the
/// frames of the request that are a `SET` carried out, each as it stands in
/// the request, each once, in their order, and nothing else.
pub proof fn law_every_write_is_propagated_once(
    request: Seq<u8>,
    at: int,
    peer: Peer,
    store: StoreView,
    state: State,
    b: Broadcaster,
)
    requires
        0 <= at <= request.len(),
    ensures
        propagated(handled(request, at, peer, store, state, b).actions) == written(
            request,
            at,
            handled(request, at, peer, store, state, b).consumed,
        ),
    decreases remaining(request, at),
{
    let run = handled(request, at, peer, store, state, b);
    if at >= request.len() {
        assert(propagated(run.actions) == written(request, at, run.consumed));
    } else {
        crate::protocol::laws::lemma_decoded_sound(request, at);
        match decoded(request, at) {
            Err(e) => {
                lemma_propagated_none(run.actions);
                assert(propagated(run.actions) == written(request, at, run.consumed));
            },
            Ok((frame, next)) => {
                let raw = request.subrange(at, next);
                let step = dispatched(frame, raw, peer, store, state, b);
                let moved = advanced(state, next - at);
                let blank = StoreView { entries: Map::empty(), next_version: 0 };
                law_set_is_propagated_once(frame, raw, peer, store, state, b);
                assert(writes(frame, store) == writes(frame, blank));
                // What the frame itself sends on.
                if writes(frame, store) {
                    let tail = step.actions.drop_first();
                    assert forall|i: int| 0 <= i < tail.len() implies !((#[trigger] tail[i])
                        is Propagate) by {
                        assert(tail[i] == step.actions[i + 1]);
                    }
                    lemma_propagated_none(tail);
                    let head = seq![step.actions[0]];
                    assert(head.drop_last() =~= Seq::<ActionView>::empty());
                    assert(propagated(head.drop_last()) =~= Seq::<Seq<u8>>::empty());
                    assert(head.last() == ActionView::Propagate(raw, b.subscribers as nat));
                    assert(propagated(head) =~= seq![raw]);
                    assert(step.actions =~= head + tail);
                    lemma_propagated_concat(head, tail);
                    assert(propagated(step.actions) =~= seq![raw]);
                } else {
                    lemma_propagated_none(step.actions);
                }
                match step.outcome {
                    Outcome::Continue => {
                        let rest = handled(request, next, peer, step.store, moved, step.broadcaster);
                        law_every_write_is_propagated_once(
                            request,
                            next,
                            peer,
                            step.store,
                            moved,
                            step.broadcaster,
                        );
                        law_offset_bounds(request, next, peer, step.store, moved, step.broadcaster);
                        lemma_propagated_concat(step.actions, rest.actions);
                        assert(run.actions == step.actions + rest.actions);
                        assert(run.consumed == rest.consumed);
                        assert(propagated(run.actions) == written(request, at, run.consumed));
                    },
                    _ => {
                        assert(propagated(step.actions) + Seq::<Seq<u8>>::empty() =~= propagated(
                            step.actions,
                        ));
                        assert(run.actions == step.actions);
                        assert(run.consumed == next);
                        assert(written(request, next, next) =~= Seq::<Seq<u8>>::empty());
                        assert(propagated(run.actions) == written(request, at, run.consumed));
                    },
                }
            },
        }
    }
}

/// A handling stops inside the request, at or behind where it began.
pub proof fn law_offset_bounds(
    request: Seq<u8>,
    at: int,
    peer: Peer,
    store: StoreView,
    state: State,
    b: Broadcaster,
)
    requires
        0 <= at <= request.len(),
    ensures
        at <= handled(request, at, peer, store, state, b).consumed <= request.len(),
    decreases remaining(request, at),
{
    if at < request.len() {
        crate::protocol::laws::lemma_decoded_sound(request, at);
        if let Ok((frame, next)) = decoded(request, at) {
            let step = dispatched(frame, request.subrange(at, next), peer, store, state, b);
            if step.outcome is Continue {
                law_offset_bounds(
                    request,
                    next,
                    peer,
                    step.store,
                    advanced(state, next - at),
                    step.broadcaster,
                );
            }
        }
    }
}

} // verus!
