//! The dispatcher: it decodes the frames of a request one after the other,
//! routes each to its command, and keeps the replication offset.
//!
//! The dispatcher touches no connection. What is to go out it hands back as
//! actions, in the order in which they are due: for a write, the frame goes to
//! the subscribers first, then the reply goes to the requester.
//!
//! Every frame that decodes adds its exact length to the offset, whatever
//! becomes of its command. A frame that does not decode ends the handling: the
//! connection it came from is to be closed after the error reply.
//!
//! A `WAIT` that has to wait for its acknowledgments is handed back as an
//! action among the others. The frames behind it are handled at once; what
//! they reply is written after the count of the wait, in the order of the
//! actions.
//!
//! A node that follows a master takes in what arrives from the master without
//! replying; only a probe for its offset is answered. To its own clients the
//! same node replies as any node does.

use vstd::prelude::*;
use vstd::string::StringExecFns;
use crate::broadcast::{getack_command, Broadcaster, Delivery, PROBE_LENGTH};
use crate::handler::config::{config_reply, handle_config};
use crate::handler::echo::{echo_reply, handle_echo};
use crate::handler::error::{argument, CommandError};
use crate::handler::get::{get_reply, handle_get};
use crate::handler::info::{handle_info, info_reply};
use crate::handler::ping::{handle_ping, ping_reply};
use crate::handler::psync::{handle_psync, psync_reply};
use crate::handler::replconf::{handle_replconf, replconf_reply};
use crate::handler::set::{handle_set, set_effect, set_reply};
use crate::handler::wait::{handle_wait, wait_plan, wait_reply, Wait, WaitPlan, WaitStart};
use crate::protocol::decode::{advances, decoded, remaining, ProtocolError};
use crate::protocol::r_object::{lemma_views, views, RObject, Value};
use crate::protocol::text::same_text;
use crate::state::{ServerRole, State};
use crate::store::{Expiry, Store, StoreView};

verus! {

/// Where a request comes from.
#[derive(Debug, Clone, Copy, PartialEq, Eq, Structural)]
pub enum Peer {
    /// A client of this node.
    Client,
    /// The master that this node follows, over the connection that the
    /// handshake set up.
    Master,
}

/// Something for the caller to do.
pub enum Action {
    /// Write the bytes to the connection that the request came from.
    Reply(Vec<u8>),
    /// Write the bytes of the delivery to the subscribers it names.
    Propagate(Delivery),
    /// Carry out the removal when its delay has passed.
    Expire(Expiry),
    /// Run a wait for acknowledgments: deliver the probe, hand the answers of
    /// the subscribers and the firing of the timer to the wait until it has
    /// ended, and drop the probes still out. Where `answers` holds, write the
    /// count as the reply to the requester; where it does not, replies are
    /// held back and nothing is written.
    Wait { wait: Wait, probe: Delivery, answers: bool },
}

/// The mathematical model of an action.
pub enum ActionView {
    Reply(Seq<u8>),
    /// The bytes, and how many subscribers get them.
    Propagate(Seq<u8>, nat),
    /// The key, the number of the write, the delay in milliseconds.
    Expire(Seq<char>, nat, u64),
    /// The wait, the bytes of the probe, how many subscribers get it, and
    /// whether the count is written as a reply.
    Wait(Wait, Seq<u8>, nat, bool),
}

impl View for Action {
    type V = ActionView;

    open spec fn view(&self) -> ActionView {
        match self {
            Action::Reply(bytes) => ActionView::Reply(bytes@),
            Action::Propagate(delivery) => ActionView::Propagate(
                delivery.bytes@,
                delivery.subscribers as nat,
            ),
            Action::Expire(expiry) => ActionView::Expire(
                expiry.key@,
                expiry.version as nat,
                expiry.millis,
            ),
            Action::Wait { wait, probe, answers } => ActionView::Wait(
                *wait,
                probe.bytes@,
                probe.subscribers as nat,
                *answers,
            ),
        }
    }
}

/// The models of a sequence of actions, one for one.
pub open spec fn action_views(actions: Seq<Action>) -> Seq<ActionView> {
    Seq::new(actions.len(), |i: int| actions[i]@)
}

/// How the handling of a request ended.
pub enum HandleResult {
    /// Every frame of the request was handled; the connection goes on.
    Normal,
    /// The requester asked for a full resync and is a subscriber now, under the
    /// number given. Its connection belongs to the fan-out from here on; what
    /// the request held behind the `PSYNC` is dropped.
    Subscribed(usize),
    /// The bytes at the offset reached are no frame; the connection is to be
    /// closed.
    Failed(ProtocolError),
}

/// The mathematical model of how a handling ended.
pub enum ResultView {
    Normal,
    Subscribed(nat),
    Failed(ProtocolError),
}

impl View for HandleResult {
    type V = ResultView;

    open spec fn view(&self) -> ResultView {
        match self {
            HandleResult::Normal => ResultView::Normal,
            HandleResult::Subscribed(id) => ResultView::Subscribed(*id as nat),
            HandleResult::Failed(e) => ResultView::Failed(*e),
        }
    }
}

/// What the handling of a request hands back.
pub struct Handled {
    /// What the caller is to do, in this order.
    pub actions: Vec<Action>,
    /// The offset in the request up to which its frames were handled.
    pub consumed: usize,
    pub result: HandleResult,
}

/// A value that holds text: a simple string or a bulk string.
pub open spec fn is_text(v: Value) -> bool {
    v is SimpleString || v is BulkString
}

/// The text that a simple string or a bulk string holds.
pub open spec fn text_in(v: Value) -> Seq<char> {
    match v {
        Value::SimpleString(s) => s,
        Value::BulkString(s) => s,
        _ => Seq::empty(),
    }
}

/// The words of a command: the frame is an array that is not empty and holds
/// text only.
pub open spec fn command_words(frame: Value) -> Result<Seq<Value>, CommandError> {
    match frame {
        Value::Array(items) => if items.len() > 0 && forall|i: int|
            0 <= i < items.len() ==> is_text(#[trigger] items[i]) {
            Ok(items)
        } else {
            Err(CommandError::NotACommand)
        },
        _ => Err(CommandError::NotACommand),
    }
}

/// Replies are held back: the node follows a master and the request comes from
/// that master.
pub open spec fn is_quiet(role: ServerRole, peer: Peer) -> bool {
    role == ServerRole::Slave && peer == Peer::Master
}

/// The reply to a probe for the offset goes out even where replies are held
/// back.
pub open spec fn is_probe(name: Seq<char>, args: Seq<Value>) -> bool {
    name == "REPLCONF"@ && argument(args, 1) == Ok::<Seq<char>, CommandError>("GETACK"@)
}

/// The reply as the requester gets it: the value, or the error as a simple
/// error.
pub open spec fn reply_bytes(reply: Result<Value, CommandError>) -> Seq<u8> {
    match reply {
        Ok(v) => v.encoding(),
        Err(e) => e.reply().encoding(),
    }
}

/// The actions that a reply makes: none where replies are held back, else the
/// one that writes it.
pub open spec fn replied(quiet: bool, reply: Result<Value, CommandError>) -> Seq<ActionView> {
    if quiet {
        Seq::empty()
    } else {
        seq![ActionView::Reply(reply_bytes(reply))]
    }
}

/// What goes on after a frame.
pub enum Outcome {
    /// The next frame is handled.
    Continue,
    /// The requester has become the subscriber with this number.
    Subscribed(nat),
}

/// What the command of one frame does.
pub struct Step {
    pub store: StoreView,
    pub broadcaster: Broadcaster,
    pub actions: Seq<ActionView>,
    pub outcome: Outcome,
}

/// A step that changes nothing and makes the given actions.
pub open spec fn reply_step(store: StoreView, b: Broadcaster, actions: Seq<ActionView>) -> Step {
    Step { store, broadcaster: b, actions, outcome: Outcome::Continue }
}

/// What `SET` does within the dispatcher: the frame goes to the subscribers as
/// it came, the write is made, the removal is asked for where the command gave
/// a delay, and the reply is `OK`. Where the arguments are wrong, the reply is
/// the error and nothing else happens.
pub open spec fn set_step(
    args: Seq<Value>,
    raw: Seq<u8>,
    quiet: bool,
    store: StoreView,
    b: Broadcaster,
) -> Step {
    match set_effect(args, store) {
        Ok(effect) => Step {
            store: effect.store,
            broadcaster: Broadcaster { broadcasted: (b.broadcasted + raw.len()) as u64, ..b },
            actions: seq![ActionView::Propagate(raw, b.subscribers as nat)] + (match effect.expiry {
                Some((key, version, millis)) => seq![ActionView::Expire(key, version, millis)],
                None => Seq::empty(),
            }) + replied(quiet, Ok(set_reply())),
            outcome: Outcome::Continue,
        },
        Err(e) => reply_step(store, b, replied(quiet, Err(e))),
    }
}

/// What `WAIT` does within the dispatcher: it replies at once, or it asks the
/// caller to run the wait, whose count is the reply.
pub open spec fn wait_step(args: Seq<Value>, quiet: bool, store: StoreView, b: Broadcaster) -> Step {
    match wait_plan(args, b) {
        Ok(WaitPlan::Reply(count)) => reply_step(store, b, replied(quiet, Ok(wait_reply(count)))),
        Ok(WaitPlan::Probe(wait)) => Step {
            store,
            broadcaster: Broadcaster { probed: (b.probed + PROBE_LENGTH) as u64, ..b },
            actions: seq![
                ActionView::Wait(
                    wait,
                    getack_command().encoding(),
                    b.subscribers as nat,
                    !quiet,
                ),
            ],
            outcome: Outcome::Continue,
        },
        Err(e) => reply_step(store, b, replied(quiet, Err(e))),
    }
}

/// What the command of one frame does. `raw` is the frame as it came.
///
/// The name of a command is its first word, letter for letter.
#[verifier::opaque]
pub open spec fn dispatched(
    frame: Value,
    raw: Seq<u8>,
    peer: Peer,
    store: StoreView,
    state: State,
    b: Broadcaster,
) -> Step {
    let quiet = is_quiet(state.role, peer);
    match command_words(frame) {
        Err(e) => reply_step(store, b, replied(quiet, Err(e))),
        Ok(args) => {
            let name = text_in(args[0]);
            if name == "PING"@ {
                reply_step(store, b, replied(quiet, Ok(ping_reply())))
            } else if name == "ECHO"@ {
                reply_step(store, b, replied(quiet, echo_reply(args)))
            } else if name == "SET"@ {
                set_step(args, raw, quiet, store, b)
            } else if name == "GET"@ {
                reply_step(store, b, replied(quiet, get_reply(args, store)))
            } else if name == "INFO"@ {
                reply_step(store, b, replied(quiet, info_reply(args, state.role)))
            } else if name == "REPLCONF"@ {
                reply_step(
                    store,
                    b,
                    match replconf_reply(args, state.consumed) {
                        Ok(Some(v)) => replied(quiet && !is_probe(name, args), Ok(v)),
                        Ok(None) => Seq::empty(),
                        Err(e) => replied(quiet, Err(e)),
                    },
                )
            } else if name == "PSYNC"@ {
                Step {
                    store,
                    broadcaster: Broadcaster { subscribers: (b.subscribers + 1) as usize, ..b },
                    actions: seq![ActionView::Reply(psync_reply(state))],
                    outcome: Outcome::Subscribed(b.subscribers as nat),
                }
            } else if name == "WAIT"@ {
                wait_step(args, quiet, store, b)
            } else if name == "CONFIG"@ {
                reply_step(store, b, replied(quiet, config_reply(args, state)))
            } else {
                reply_step(store, b, replied(quiet, Err(CommandError::UnknownCommand)))
            }
        },
    }
}

/// The text of the reply to bytes that are no frame.
pub open spec fn protocol_error_reply() -> Value {
    Value::SimpleError("ERR protocol error"@)
}

/// The node with its offset moved on by `n` bytes.
pub open spec fn advanced(state: State, n: int) -> State {
    State { consumed: (state.consumed + n) as u64, ..state }
}

/// What the handling of a request comes to.
pub struct Run {
    pub store: StoreView,
    pub state: State,
    pub broadcaster: Broadcaster,
    pub actions: Seq<ActionView>,
    /// The offset in the request up to which its frames were handled.
    pub consumed: int,
    pub result: ResultView,
}

/// What the handling of a request from offset `at` on comes to.
///
/// While bytes remain, one frame is decoded and its command carried out, and
/// the offset of the node moves on by the length of the frame. The handling
/// ends at the end of the request, behind a `PSYNC`, or in front of bytes that
/// are no frame. (A frame that decodes ends
/// behind where it starts; the clause that asks for it is there for the
/// definition to be well-founded on its face.)
pub open spec fn handled(
    request: Seq<u8>,
    at: int,
    peer: Peer,
    store: StoreView,
    state: State,
    b: Broadcaster,
) -> Run
    decreases remaining(request, at),
{
    if at < 0 || at >= request.len() {
        Run {
            store,
            state,
            broadcaster: b,
            actions: Seq::empty(),
            consumed: at,
            result: ResultView::Normal,
        }
    } else {
        match decoded(request, at) {
            Err(e) => Run {
                store,
                state,
                broadcaster: b,
                actions: replied(is_quiet(state.role, peer), Ok(protocol_error_reply())),
                consumed: at,
                result: ResultView::Failed(e),
            },
            Ok((frame, next)) => if !advances(request, at, next) {
                Run {
                    store,
                    state,
                    broadcaster: b,
                    actions: Seq::empty(),
                    consumed: at,
                    result: ResultView::Failed(ProtocolError::UnterminatedFrame),
                }
            } else {
                let step = dispatched(frame, request.subrange(at, next), peer, store, state, b);
                let moved = advanced(state, next - at);
                match step.outcome {
                    Outcome::Continue => {
                        let rest = handled(
                            request,
                            next,
                            peer,
                            step.store,
                            moved,
                            step.broadcaster,
                        );
                        Run { actions: step.actions + rest.actions, ..rest }
                    },
                    Outcome::Subscribed(id) => Run {
                        store: step.store,
                        state: moved,
                        broadcaster: step.broadcaster,
                        actions: step.actions,
                        consumed: next,
                        result: ResultView::Subscribed(id),
                    },
                }
            },
        }
    }
}

/// Adds the action that writes a reply, unless replies are held back.
fn push_reply(actions: &mut Vec<Action>, quiet: bool, reply: Result<RObject, CommandError>)
    ensures
        action_views(final(actions)@) == action_views(old(actions)@) + replied(
            quiet,
            match reply {
                Ok(o) => Ok(o@),
                Err(e) => Err(e),
            },
        ),
{
    if !quiet {
        let bytes = match reply {
            Ok(o) => o.encode(),
            Err(e) => e.to_reply().encode(),
        };
        actions.push(Action::Reply(bytes));
    }
    assert(action_views(final(actions)@) =~= action_views(old(actions)@) + replied(
        quiet,
        match reply {
            Ok(o) => Ok(o@),
            Err(e) => Err(e),
        },
    ));
}

/// Reads the words of a command from a frame.
fn words_of(frame: &RObject) -> (r: Result<&Vec<RObject>, CommandError>)
    ensures
        match command_words(frame@) {
            Ok(args) => r matches Ok(items) && views(items@) == args && items@.len() > 0,
            Err(k) => r matches Err(e) && e == k,
        },
{
    match frame {
        RObject::Array(items) => {
            proof {
                lemma_views(items@);
            }
            let n = items.len();
            if n == 0 {
                return Err(CommandError::NotACommand);
            }
            let mut i: usize = 0;
            while i < n
                invariant
                    i <= n,
                    n == items@.len(),
                    n > 0,
                    frame@ == Value::Array(views(items@)),
                    views(items@).len() == n,
                    forall|j: int| 0 <= j < n ==> (#[trigger] views(items@)[j]) == items@[j]@,
                    forall|j: int| 0 <= j < i ==> is_text(#[trigger] views(items@)[j]),
                decreases n - i,
            {
                match &items[i] {
                    RObject::SimpleString(_) => {},
                    RObject::BulkString(_) => {},
                    _ => {
                        assert(!is_text(views(items@)[i as int]));
                        return Err(CommandError::NotACommand);
                    },
                }
                i = i + 1;
            }
            Ok(items)
        },
        _ => Err(CommandError::NotACommand),
    }
}

/// The name of a command: the text of its first word.
fn name_of(args: &Vec<RObject>) -> (name: &str)
    requires
        args@.len() > 0,
        is_text(views(args@)[0]),
    ensures
        name@ == text_in(views(args@)[0]),
{
    proof {
        lemma_views(args@);
    }
    match &args[0] {
        RObject::SimpleString(s) => s.as_str(),
        RObject::BulkString(s) => s.as_str(),
        _ => "",
    }
}

/// Tells whether a `REPLCONF` is a probe for the offset.
fn is_getack(args: &Vec<RObject>) -> (b: bool)
    ensures
        b == (argument(views(args@), 1) == Ok::<Seq<char>, CommandError>("GETACK"@)),
{
    proof {
        lemma_views(args@);
    }
    if args.len() > 1 {
        match &args[1] {
            RObject::BulkString(s) => same_text(s.as_str(), "GETACK"),
            _ => false,
        }
    } else {
        false
    }
}

/// What went on after a frame.
pub enum Next {
    Continue,
    Subscribed(usize),
}

/// An exec outcome agrees with what the model says goes on.
pub open spec fn next_agrees(next: Next, outcome: Outcome) -> bool {
    match outcome {
        Outcome::Continue => next is Continue,
        Outcome::Subscribed(id) => next matches Next::Subscribed(n) && n == id,
    }
}

/// The node has room for what one frame of `n` bytes can ask of it: a write, a
/// subscriber, the frame sent on, a probe.
pub open spec fn has_room(store: Store, b: Broadcaster, n: int) -> bool {
    &&& store@.next_version < u64::MAX
    &&& b.wf()
    &&& b.subscribers < i64::MAX
    &&& b.subscribers < usize::MAX
    &&& b.broadcasted + b.probed + n + PROBE_LENGTH <= u64::MAX
}

/// Carries out the command of one frame. `raw` is the frame as it came; what is
/// to go out is added to `actions`.
pub fn dispatch(
    frame: &RObject,
    raw: &[u8],
    peer: Peer,
    storage: &mut Store,
    state: &State,
    broadcaster: &mut Broadcaster,
    actions: &mut Vec<Action>,
) -> (next: Next)
    requires
        has_room(*old(storage), *old(broadcaster), raw@.len() as int),
    ensures
        final(broadcaster).wf(),
        ({
            let step = dispatched(frame@, raw@, peer, old(storage)@, *state, *old(broadcaster));
            &&& final(storage)@ == step.store
            &&& *final(broadcaster) == step.broadcaster
            &&& action_views(final(actions)@) == action_views(old(actions)@) + step.actions
            &&& next_agrees(next, step.outcome)
        }),
        final(storage)@.next_version <= old(storage)@.next_version + 1,
        final(broadcaster).subscribers >= old(broadcaster).subscribers,
        final(broadcaster).broadcasted >= old(broadcaster).broadcasted,
        final(broadcaster).probed >= old(broadcaster).probed,
        next is Continue ==> final(broadcaster).subscribers == old(broadcaster).subscribers,
        final(broadcaster).broadcasted + final(broadcaster).probed <= old(
            broadcaster,
        ).broadcasted + old(broadcaster).probed + raw@.len() + PROBE_LENGTH,
{
    proof {
        reveal(dispatched);
    }
    let quiet = state.role == ServerRole::Slave && peer == Peer::Master;
    let args = match words_of(frame) {
        Ok(args) => args,
        Err(e) => {
            push_reply(actions, quiet, Err(e));
            return Next::Continue;
        },
    };
    let name = name_of(args);
    if same_text(name, "PING") {
        push_reply(actions, quiet, Ok(handle_ping()));
        Next::Continue
    } else if same_text(name, "ECHO") {
        push_reply(actions, quiet, handle_echo(args));
        Next::Continue
    } else if same_text(name, "SET") {
        dispatch_set(args, raw, quiet, storage, broadcaster, actions);
        Next::Continue
    } else if same_text(name, "GET") {
        push_reply(actions, quiet, handle_get(args, storage));
        Next::Continue
    } else if same_text(name, "INFO") {
        push_reply(actions, quiet, handle_info(args, state));
        Next::Continue
    } else if same_text(name, "REPLCONF") {
        let probe = is_getack(args);
        match handle_replconf(args, state) {
            Ok(Some(reply)) => {
                push_reply(actions, quiet && !probe, Ok(reply));
            },
            Ok(None) => {
                assert(action_views(final(actions)@) =~= action_views(old(actions)@)
                    + Seq::<ActionView>::empty());
            },
            Err(e) => {
                push_reply(actions, quiet, Err(e));
            },
        }
        Next::Continue
    } else if same_text(name, "PSYNC") {
        let resync = handle_psync(state, broadcaster);
        actions.push(Action::Reply(resync.reply));
        assert(action_views(final(actions)@) =~= action_views(old(actions)@) + seq![
            ActionView::Reply(psync_reply(*state)),
        ]);
        Next::Subscribed(resync.subscriber)
    } else if same_text(name, "WAIT") {
        match handle_wait(args, broadcaster) {
            Ok(WaitStart::Reply(reply)) => {
                push_reply(actions, quiet, Ok(reply));
                Next::Continue
            },
            Ok(WaitStart::Probe { wait, probe }) => {
                actions.push(Action::Wait { wait, probe, answers: !quiet });
                assert(action_views(final(actions)@) =~= action_views(old(actions)@) + seq![
                    ActionView::Wait(
                        wait,
                        getack_command().encoding(),
                        old(broadcaster).subscribers as nat,
                        !quiet,
                    ),
                ]);
                Next::Continue
            },
            Err(e) => {
                push_reply(actions, quiet, Err(e));
                Next::Continue
            },
        }
    } else if same_text(name, "CONFIG") {
        push_reply(actions, quiet, handle_config(args, state));
        Next::Continue
    } else {
        push_reply(actions, quiet, Err(CommandError::UnknownCommand));
        Next::Continue
    }
}

/// Carries out a `SET` within the dispatcher.
fn dispatch_set(
    args: &Vec<RObject>,
    raw: &[u8],
    quiet: bool,
    storage: &mut Store,
    broadcaster: &mut Broadcaster,
    actions: &mut Vec<Action>,
)
    requires
        has_room(*old(storage), *old(broadcaster), raw@.len() as int),
    ensures
        final(broadcaster).wf(),
        ({
            let step = set_step(views(args@), raw@, quiet, old(storage)@, *old(broadcaster));
            &&& final(storage)@ == step.store
            &&& *final(broadcaster) == step.broadcaster
            &&& action_views(final(actions)@) == action_views(old(actions)@) + step.actions
        }),
        final(storage)@.next_version <= old(storage)@.next_version + 1,
        final(broadcaster).subscribers == old(broadcaster).subscribers,
        final(broadcaster).broadcasted >= old(broadcaster).broadcasted,
        final(broadcaster).broadcasted <= old(broadcaster).broadcasted + raw@.len(),
        final(broadcaster).probed == old(broadcaster).probed,
{
    match handle_set(args, storage) {
        Ok(outcome) => {
            let ghost before = action_views(actions@);
            let delivery = broadcaster.broadcast(raw);
            actions.push(Action::Propagate(delivery));
            match outcome.expiry {
                Some(expiry) => {
                    actions.push(Action::Expire(expiry));
                },
                None => {},
            }
            let ghost middle = action_views(actions@);
            push_reply(actions, quiet, Ok(outcome.reply));
            proof {
                let step = set_step(views(args@), raw@, quiet, old(storage)@, *old(broadcaster));
                let effect = set_effect(views(args@), old(storage)@)->Ok_0;
                assert(middle =~= before + (seq![
                    ActionView::Propagate(raw@, old(broadcaster).subscribers as nat),
                ] + (match effect.expiry {
                    Some((key, version, millis)) => seq![ActionView::Expire(key, version, millis)],
                    None => Seq::empty(),
                })));
                assert(action_views(actions@) =~= before + step.actions);
            }
        },
        Err(e) => {
            push_reply(actions, quiet, Err(e));
        },
    }
}

/// An exec handling agrees with what the model says it comes to.
pub open spec fn run_agrees(
    out: Handled,
    store: StoreView,
    state: State,
    b: Broadcaster,
    run: Run,
) -> bool {
    &&& store == run.store
    &&& state == run.state
    &&& b == run.broadcaster
    &&& action_views(out.actions@) == run.actions
    &&& out.consumed == run.consumed
    &&& out.result@ == run.result
}

/// The node has room for what a request of `n` more bytes can ask of it: a
/// frame has a byte at least, and asks for a write, for itself to be sent on,
/// or for a probe.
pub open spec fn has_room_for(store: Store, state: State, b: Broadcaster, n: int) -> bool {
    &&& store@.next_version + n <= u64::MAX
    &&& state.consumed + n <= u64::MAX
    &&& b.wf()
    &&& b.subscribers < i64::MAX
    &&& b.subscribers < usize::MAX
    &&& b.broadcasted + b.probed + n * (PROBE_LENGTH + 1) <= u64::MAX
}

/// Handles the frames of `request` from offset `start` on: decodes them one
/// after the other, carries out their commands on the store, the state and the
/// broadcaster, and hands back what is to go out.
///
/// The offset of the node grows by the length of every frame that decodes,
/// whether its command succeeds or not.
pub fn handle(
    request: &[u8],
    start: usize,
    peer: Peer,
    storage: &mut Store,
    state: &mut State,
    broadcaster: &mut Broadcaster,
) -> (out: Handled)
    requires
        start <= request@.len(),
        has_room_for(
            *old(storage),
            *old(state),
            *old(broadcaster),
            request@.len() - start,
        ),
    ensures
        final(broadcaster).wf(),
        run_agrees(
            out,
            final(storage)@,
            *final(state),
            *final(broadcaster),
            handled(request@, start as int, peer, old(storage)@, *old(state), *old(broadcaster)),
        ),
{
    let ghost goal = handled(
        request@,
        start as int,
        peer,
        old(storage)@,
        *old(state),
        *old(broadcaster),
    );
    let mut actions: Vec<Action> = Vec::new();
    let mut at: usize = start;
    let n = request.len();
    assert(action_views(actions@) =~= Seq::<ActionView>::empty());
    while at < n
        invariant
            start <= at <= n,
            n == request@.len(),
            has_room_for(*storage, *state, *broadcaster, n - at),
            goal == handled(
                request@,
                start as int,
                peer,
                old(storage)@,
                *old(state),
                *old(broadcaster),
            ),
            ({
                let rest = handled(request@, at as int, peer, storage@, *state, *broadcaster);
                goal == Run { actions: action_views(actions@) + rest.actions, ..rest }
            }),
        decreases n - at,
    {
        let quiet = state.role == ServerRole::Slave && peer == Peer::Master;
        let ghost before = action_views(actions@);
        let ghost was = *state;
        let ghost here = handled(request@, at as int, peer, storage@, *state, *broadcaster);
        match RObject::decode(request, at) {
            Err(e) => {
                let reply = RObject::SimpleError(String::from_str("ERR protocol error"));
                push_reply(&mut actions, quiet, Ok(reply));
                proof {
                    assert(here.actions == replied(quiet, Ok(protocol_error_reply())));
                    assert(here.result == ResultView::Failed(e));
                    assert(here.consumed == at);
                }
                return Handled { actions, consumed: at, result: HandleResult::Failed(e) };
            },
            Ok((frame, next)) => {
                let raw = vstd::slice::slice_subrange(request, at, next);
                let ghost step = dispatched(
                    frame@,
                    request@.subrange(at as int, next as int),
                    peer,
                    storage@,
                    *state,
                    *broadcaster,
                );
                assert(advances(request@, at as int, next as int));
                let went = dispatch(&frame, raw, peer, storage, &*state, broadcaster, &mut actions);
                state.consumed = state.consumed + ((next - at) as u64);
                assert(*state == advanced(was, next - at));
                match went {
                    Next::Continue => {
                        proof {
                            let rest = handled(
                                request@,
                                next as int,
                                peer,
                                storage@,
                                *state,
                                *broadcaster,
                            );
                            assert(here == Run { actions: step.actions + rest.actions, ..rest });
                            assert(before + (step.actions + rest.actions) =~= (before
                                + step.actions) + rest.actions);
                        }
                        at = next;
                    },
                    Next::Subscribed(id) => {
                        proof {
                            assert(here.actions == step.actions);
                            assert(here.result == ResultView::Subscribed(id as nat));
                            assert(here.consumed == next);
                        }
                        return Handled {
                            actions,
                            consumed: next,
                            result: HandleResult::Subscribed(id),
                        };
                    },
                }
            },
        }
    }
    proof {
        assert(action_views(actions@) + Seq::<ActionView>::empty() =~= action_views(actions@));
    }
    Handled { actions, consumed: at, result: HandleResult::Normal }
}

/// Tells whether the node has room for what the request can ask of it from
/// offset `start` on.
pub fn can_handle(
    request: &[u8],
    start: usize,
    storage: &Store,
    state: &State,
    broadcaster: &Broadcaster,
) -> (ok: bool)
    ensures
        ok == (start <= request@.len() && has_room_for(
            *storage,
            *state,
            *broadcaster,
            request@.len() - start,
        )),
{
    if start > request.len() {
        return false;
    }
    let n = (request.len() - start) as u64;
    let sent = match n.checked_mul(PROBE_LENGTH as u64 + 1) {
        Some(sent) => sent,
        None => {
            return false;
        },
    };
    storage.version() <= u64::MAX - n && state.consumed <= u64::MAX - n && broadcaster.subscribers
        < usize::MAX && (broadcaster.subscribers as u64) < (i64::MAX as u64)
        && broadcaster.broadcasted <= u64::MAX - sent && broadcaster.probed <= u64::MAX - sent
        - broadcaster.broadcasted
}

/// Handles the frames of `request` from offset `start` on, as [`handle`] does,
/// where the node has room for it; where a count of the node would leave its
/// range, nothing is done and nothing comes back.
pub fn try_handle(
    request: &[u8],
    start: usize,
    peer: Peer,
    storage: &mut Store,
    state: &mut State,
    broadcaster: &mut Broadcaster,
) -> (r: Option<Handled>)
    ensures
        match r {
            Some(out) => {
                &&& start <= request@.len()
                &&& has_room_for(
                    *old(storage),
                    *old(state),
                    *old(broadcaster),
                    request@.len() - start,
                )
                &&& run_agrees(
                    out,
                    final(storage)@,
                    *final(state),
                    *final(broadcaster),
                    handled(
                        request@,
                        start as int,
                        peer,
                        old(storage)@,
                        *old(state),
                        *old(broadcaster),
                    ),
                )
            },
            None => {
                &&& !(start <= request@.len() && has_room_for(
                    *old(storage),
                    *old(state),
                    *old(broadcaster),
                    request@.len() - start,
                ))
                &&& final(storage)@ == old(storage)@
                &&& *final(state) == *old(state)
                &&& *final(broadcaster) == *old(broadcaster)
            },
        },
{
    if can_handle(request, start, storage, state, broadcaster) {
        Some(handle(request, start, peer, storage, state, broadcaster))
    } else {
        None
    }
}

} // verus!
