use resp_replica::broadcast::Broadcaster;
use resp_replica::handler::handler::{
    can_handle, handle, try_handle, Action, HandleResult, Handled, Peer,
};
use resp_replica::handler::psync::empty_snapshot;
use resp_replica::protocol::decode::ProtocolError;
use resp_replica::protocol::r_object::RObject;
use resp_replica::state::{ServerRole, State};
use resp_replica::store::Store;

struct Node {
    store: Store,
    state: State,
    broadcaster: Broadcaster,
}

fn node(role: ServerRole) -> Node {
    Node {
        store: Store::new(),
        state: State {
            role,
            master_replid: "abc".to_string(),
            master_repl_offset: 0,
            replica_of: None,
            working_port: 6379,
            consumed: 0,
            dir: Some("/tmp/data".to_string()),
            dbfilename: None,
        },
        broadcaster: Broadcaster::new(),
    }
}

fn run(node: &mut Node, peer: Peer, request: &[u8]) -> Handled {
    handle(request, 0, peer, &mut node.store, &mut node.state, &mut node.broadcaster)
}

fn replies(handled: &Handled) -> Vec<Vec<u8>> {
    let mut out = Vec::new();
    for action in &handled.actions {
        if let Action::Reply(bytes) = action {
            out.push(bytes.clone());
        }
    }
    out
}

fn propagated(handled: &Handled) -> Vec<(Vec<u8>, usize)> {
    let mut out = Vec::new();
    for action in &handled.actions {
        if let Action::Propagate(delivery) = action {
            out.push((delivery.bytes.clone(), delivery.subscribers));
        }
    }
    out
}

fn is_normal(handled: &Handled) -> bool {
    matches!(handled.result, HandleResult::Normal)
}

const SET_A_1: &[u8] = b"*3\r\n$3\r\nSET\r\n$1\r\na\r\n$1\r\n1\r\n";
const GET_A: &[u8] = b"*2\r\n$3\r\nGET\r\n$1\r\na\r\n";
const PING: &[u8] = b"*1\r\n$4\r\nPING\r\n";

#[test]
fn ping_yields_pong() {
    let mut n = node(ServerRole::Master);
    let handled = run(&mut n, Peer::Client, PING);
    assert_eq!(replies(&handled), vec![b"+PONG\r\n".to_vec()]);
    assert!(is_normal(&handled));
    assert_eq!(handled.consumed, PING.len());
}

#[test]
fn set_yields_ok_and_get_yields_the_value() {
    let mut n = node(ServerRole::Master);
    let handled = run(&mut n, Peer::Client, SET_A_1);
    assert_eq!(replies(&handled), vec![b"+OK\r\n".to_vec()]);
    let handled = run(&mut n, Peer::Client, GET_A);
    assert_eq!(replies(&handled), vec![b"$1\r\n1\r\n".to_vec()]);
}

#[test]
fn get_of_a_missing_key_yields_null() {
    let mut n = node(ServerRole::Master);
    let handled = run(&mut n, Peer::Client, GET_A);
    assert_eq!(replies(&handled), vec![b"_\r\n".to_vec()]);
}

#[test]
fn psync_yields_the_full_resync_and_subscribes() {
    let mut n = node(ServerRole::Master);
    let handled = run(&mut n, Peer::Client, b"*3\r\n$5\r\nPSYNC\r\n$1\r\n?\r\n$2\r\n-1\r\n");
    let snapshot = empty_snapshot();
    let mut expected = b"+FULLRESYNC abc 0\r\n".to_vec();
    expected.extend_from_slice(format!("${}\r\n", snapshot.len()).as_bytes());
    expected.extend_from_slice(&snapshot);
    assert_eq!(replies(&handled), vec![expected]);
    assert!(matches!(handled.result, HandleResult::Subscribed(0)));
    assert_eq!(n.broadcaster.subscribers, 1);
    assert_eq!(n.state.consumed, 30);
}

#[test]
fn the_snapshot_is_the_decoded_hexadecimal_text() {
    let snapshot = empty_snapshot();
    assert_eq!(snapshot.len(), 88);
    assert_eq!(&snapshot[..9], b"REDIS0011");
    assert_eq!(snapshot[9], 0xfa);
    assert_eq!(snapshot[87], 0xa2);
}

#[test]
fn psync_drops_what_follows_it_in_the_request() {
    let mut n = node(ServerRole::Master);
    let mut request = b"*3\r\n$5\r\nPSYNC\r\n$1\r\n?\r\n$2\r\n-1\r\n".to_vec();
    request.extend_from_slice(PING);
    let handled = run(&mut n, Peer::Client, &request);
    assert!(matches!(handled.result, HandleResult::Subscribed(0)));
    assert_eq!(handled.consumed, 30);
    assert_eq!(n.state.consumed, 30);
    assert_eq!(replies(&handled).len(), 1);
}

#[test]
fn second_subscriber_gets_the_next_number() {
    let mut n = node(ServerRole::Master);
    let psync = b"*3\r\n$5\r\nPSYNC\r\n$1\r\n?\r\n$2\r\n-1\r\n";
    run(&mut n, Peer::Client, psync);
    let handled = run(&mut n, Peer::Client, psync);
    assert!(matches!(handled.result, HandleResult::Subscribed(1)));
    assert_eq!(n.broadcaster.subscribers, 2);
}

#[test]
fn offset_grows_by_the_length_of_every_frame() {
    let mut n = node(ServerRole::Master);
    let mut request = Vec::new();
    request.extend_from_slice(PING);
    request.extend_from_slice(SET_A_1);
    request.extend_from_slice(GET_A);
    let handled = run(&mut n, Peer::Client, &request);
    assert!(is_normal(&handled));
    assert_eq!(handled.consumed, request.len());
    assert_eq!(n.state.consumed, request.len() as u64);
    assert_eq!(request.len(), 14 + 27 + 20);
    assert_eq!(replies(&handled), vec![b"+PONG\r\n".to_vec(), b"+OK\r\n".to_vec(), b"$1\r\n1\r\n".to_vec()]);
}

#[test]
fn offset_grows_for_commands_that_fail() {
    let mut n = node(ServerRole::Master);
    let unknown = b"*1\r\n$4\r\nNOPE\r\n";
    let missing = b"*1\r\n$3\r\nGET\r\n";
    let not_a_command = b":5\r\n";
    let mut request = Vec::new();
    request.extend_from_slice(unknown);
    request.extend_from_slice(missing);
    request.extend_from_slice(not_a_command);
    request.extend_from_slice(PING);
    let handled = run(&mut n, Peer::Client, &request);
    assert!(is_normal(&handled));
    assert_eq!(n.state.consumed, request.len() as u64);
    assert_eq!(
        replies(&handled),
        vec![
            b"-ERR unknown command\r\n".to_vec(),
            b"-ERR wrong number of arguments\r\n".to_vec(),
            b"-ERR expected an array of strings\r\n".to_vec(),
            b"+PONG\r\n".to_vec(),
        ]
    );
}

#[test]
fn offset_accumulates_over_requests() {
    let mut n = node(ServerRole::Master);
    n.state.consumed = 1000;
    run(&mut n, Peer::Client, PING);
    run(&mut n, Peer::Client, SET_A_1);
    assert_eq!(n.state.consumed, 1000 + 14 + 27);
}

#[test]
fn handling_from_an_offset_counts_from_there() {
    let mut n = node(ServerRole::Master);
    let mut request = Vec::new();
    request.extend_from_slice(PING);
    request.extend_from_slice(GET_A);
    let handled = handle(&request, 14, Peer::Client, &mut n.store, &mut n.state, &mut n.broadcaster);
    assert_eq!(replies(&handled), vec![b"_\r\n".to_vec()]);
    assert_eq!(handled.consumed, 34);
    assert_eq!(n.state.consumed, 20);
}

#[test]
fn bytes_that_are_no_frame_end_the_handling() {
    let mut n = node(ServerRole::Master);
    let mut request = Vec::new();
    request.extend_from_slice(PING);
    request.extend_from_slice(b"garbage\r\n");
    request.extend_from_slice(PING);
    let handled = run(&mut n, Peer::Client, &request);
    assert!(matches!(handled.result, HandleResult::Failed(ProtocolError::UnknownTypeByte)));
    assert_eq!(handled.consumed, 14);
    assert_eq!(n.state.consumed, 14);
    assert_eq!(replies(&handled), vec![b"+PONG\r\n".to_vec(), b"-ERR protocol error\r\n".to_vec()]);
}

#[test]
fn a_partial_frame_ends_the_handling() {
    let mut n = node(ServerRole::Master);
    let handled = run(&mut n, Peer::Client, &SET_A_1[..20]);
    assert!(matches!(handled.result, HandleResult::Failed(_)));
    assert_eq!(handled.consumed, 0);
    assert_eq!(n.state.consumed, 0);
    assert_eq!(n.store.get("a"), None);
}

#[test]
fn set_is_propagated_as_it_came_before_the_reply() {
    let mut n = node(ServerRole::Master);
    n.broadcaster.subscribe();
    n.broadcaster.subscribe();
    let mut request = Vec::new();
    request.extend_from_slice(PING);
    request.extend_from_slice(SET_A_1);
    let handled = run(&mut n, Peer::Client, &request);
    assert_eq!(propagated(&handled), vec![(SET_A_1.to_vec(), 2)]);
    assert_eq!(handled.actions.len(), 3);
    assert!(matches!(handled.actions[0], Action::Reply(_)));
    assert!(matches!(handled.actions[1], Action::Propagate(_)));
    assert!(matches!(handled.actions[2], Action::Reply(_)));
    assert_eq!(n.broadcaster.broadcasted, 27);
}

#[test]
fn propagation_keeps_the_bytes_of_a_frame_that_would_encode_otherwise() {
    let mut n = node(ServerRole::Master);
    n.broadcaster.subscribe();
    let request = b"*3\r\n+SET\r\n$1\r\na\r\n+1\r\n";
    let handled = run(&mut n, Peer::Client, request);
    assert_eq!(propagated(&handled), vec![(request.to_vec(), 1)]);
    assert_eq!(replies(&handled), vec![b"+OK\r\n".to_vec()]);
    assert_eq!(n.store.get("a"), Some(RObject::SimpleString("1".to_string())));
}

#[test]
fn only_writes_are_propagated() {
    let mut n = node(ServerRole::Master);
    n.broadcaster.subscribe();
    let mut request = Vec::new();
    request.extend_from_slice(PING);
    request.extend_from_slice(GET_A);
    request.extend_from_slice(b"*2\r\n$4\r\nECHO\r\n$2\r\nhi\r\n");
    let handled = run(&mut n, Peer::Client, &request);
    assert!(propagated(&handled).is_empty());
    assert_eq!(n.broadcaster.broadcasted, 0);
}

#[test]
fn a_set_with_wrong_arguments_writes_and_propagates_nothing() {
    let mut n = node(ServerRole::Master);
    n.broadcaster.subscribe();
    let handled = run(&mut n, Peer::Client, b"*2\r\n$3\r\nSET\r\n$1\r\na\r\n");
    assert!(propagated(&handled).is_empty());
    assert_eq!(replies(&handled), vec![b"-ERR wrong number of arguments\r\n".to_vec()]);
    let handled = run(
        &mut n,
        Peer::Client,
        b"*5\r\n$3\r\nSET\r\n$1\r\na\r\n$1\r\n1\r\n$2\r\nPX\r\n$3\r\nabc\r\n",
    );
    assert!(propagated(&handled).is_empty());
    assert_eq!(replies(&handled), vec![b"-ERR invalid argument\r\n".to_vec()]);
    assert_eq!(n.store.get("a"), None);
    assert_eq!(n.broadcaster.broadcasted, 0);
}

#[test]
fn set_with_px_asks_for_the_removal() {
    let mut n = node(ServerRole::Master);
    let request = b"*5\r\n$3\r\nSET\r\n$1\r\nk\r\n$1\r\nv\r\n$2\r\npx\r\n$3\r\n100\r\n";
    let mut handled = run(&mut n, Peer::Client, request);
    assert_eq!(handled.actions.len(), 3);
    let expiry = match handled.actions.remove(1) {
        Action::Expire(expiry) => expiry,
        _ => panic!("the removal comes between the propagation and the reply"),
    };
    assert_eq!(expiry.key, "k");
    assert_eq!(expiry.millis, 100);
    assert_eq!(n.store.get("k"), Some(RObject::BulkString("v".to_string())));
    assert!(n.store.expire(&expiry));
    let handled = run(&mut n, Peer::Client, b"*2\r\n$3\r\nGET\r\n$1\r\nk\r\n");
    assert_eq!(replies(&handled), vec![b"_\r\n".to_vec()]);
}

#[test]
fn a_key_written_again_outlives_the_removal() {
    let mut n = node(ServerRole::Master);
    let with_px = b"*5\r\n$3\r\nSET\r\n$1\r\nk\r\n$2\r\nv1\r\n$2\r\nPX\r\n$3\r\n100\r\n";
    let mut handled = run(&mut n, Peer::Client, with_px);
    let expiry = match handled.actions.remove(1) {
        Action::Expire(expiry) => expiry,
        _ => panic!("the removal comes between the propagation and the reply"),
    };
    run(&mut n, Peer::Client, b"*3\r\n$3\r\nSET\r\n$1\r\nk\r\n$2\r\nv2\r\n");
    assert!(!n.store.expire(&expiry));
    let handled = run(&mut n, Peer::Client, b"*2\r\n$3\r\nGET\r\n$1\r\nk\r\n");
    assert_eq!(replies(&handled), vec![b"$2\r\nv2\r\n".to_vec()]);
}

#[test]
fn set_without_px_asks_for_no_removal() {
    let mut n = node(ServerRole::Master);
    let request = b"*5\r\n$3\r\nSET\r\n$1\r\nk\r\n$1\r\nv\r\n$2\r\nEX\r\n$3\r\n100\r\n";
    let handled = run(&mut n, Peer::Client, request);
    assert_eq!(handled.actions.len(), 2);
    assert_eq!(replies(&handled), vec![b"+OK\r\n".to_vec()]);
}

#[test]
fn a_replica_takes_in_its_master_without_replying() {
    let mut n = node(ServerRole::Slave);
    let mut request = Vec::new();
    request.extend_from_slice(PING);
    request.extend_from_slice(SET_A_1);
    let handled = run(&mut n, Peer::Master, &request);
    assert!(replies(&handled).is_empty());
    assert_eq!(n.store.get("a"), Some(RObject::BulkString("1".to_string())));
    assert_eq!(n.state.consumed, 41);
}

#[test]
fn a_replica_replies_to_its_own_clients() {
    let mut n = node(ServerRole::Slave);
    run(&mut n, Peer::Master, SET_A_1);
    let mut request = Vec::new();
    request.extend_from_slice(PING);
    request.extend_from_slice(GET_A);
    let handled = run(&mut n, Peer::Client, &request);
    assert_eq!(replies(&handled), vec![b"+PONG\r\n".to_vec(), b"$1\r\n1\r\n".to_vec()]);
}

#[test]
fn a_replica_answers_the_probe_of_its_master() {
    let mut n = node(ServerRole::Slave);
    run(&mut n, Peer::Master, SET_A_1);
    let probe = b"*3\r\n$8\r\nREPLCONF\r\n$6\r\nGETACK\r\n$1\r\n*\r\n";
    let handled = run(&mut n, Peer::Master, probe);
    assert_eq!(replies(&handled), vec![b"*3\r\n$8\r\nREPLCONF\r\n$3\r\nACK\r\n$2\r\n27\r\n".to_vec()]);
    assert_eq!(n.state.consumed, 27 + 37);
    let handled = run(&mut n, Peer::Master, probe);
    assert_eq!(replies(&handled), vec![b"*3\r\n$8\r\nREPLCONF\r\n$3\r\nACK\r\n$2\r\n64\r\n".to_vec()]);
}

#[test]
fn a_replica_holds_back_errors_and_other_replconf_replies_to_its_master() {
    let mut n = node(ServerRole::Slave);
    let handled = run(&mut n, Peer::Master, b"*3\r\n$8\r\nREPLCONF\r\n$4\r\ncapa\r\n$6\r\npsync2\r\n");
    assert!(replies(&handled).is_empty());
    let handled = run(&mut n, Peer::Master, b"*1\r\n$4\r\nNOPE\r\n");
    assert!(replies(&handled).is_empty());
}

#[test]
fn a_master_replies_whoever_asks() {
    let mut n = node(ServerRole::Master);
    let handled = run(&mut n, Peer::Master, PING);
    assert_eq!(replies(&handled), vec![b"+PONG\r\n".to_vec()]);
}

#[test]
fn command_names_are_matched_letter_for_letter() {
    let mut n = node(ServerRole::Master);
    let handled = run(&mut n, Peer::Client, b"*1\r\n$4\r\nping\r\n");
    assert_eq!(replies(&handled), vec![b"-ERR unknown command\r\n".to_vec()]);
}

#[test]
fn the_name_may_come_as_a_simple_string() {
    let mut n = node(ServerRole::Master);
    let handled = run(&mut n, Peer::Client, b"*1\r\n+PING\r\n");
    assert_eq!(replies(&handled), vec![b"+PONG\r\n".to_vec()]);
}

#[test]
fn a_command_holds_text_only() {
    let mut n = node(ServerRole::Master);
    let handled = run(&mut n, Peer::Client, b"*2\r\n$4\r\nECHO\r\n:5\r\n");
    assert_eq!(replies(&handled), vec![b"-ERR expected an array of strings\r\n".to_vec()]);
    let handled = run(&mut n, Peer::Client, b"*0\r\n");
    assert_eq!(replies(&handled), vec![b"-ERR expected an array of strings\r\n".to_vec()]);
}

#[test]
fn an_argument_has_to_be_a_bulk_string() {
    let mut n = node(ServerRole::Master);
    let handled = run(&mut n, Peer::Client, b"*2\r\n$4\r\nECHO\r\n+hi\r\n");
    assert_eq!(replies(&handled), vec![b"-ERR expected a bulk string\r\n".to_vec()]);
    let handled = run(&mut n, Peer::Client, b"*2\r\n$3\r\nGET\r\n+a\r\n");
    assert_eq!(replies(&handled), vec![b"-ERR expected a bulk string\r\n".to_vec()]);
}

#[test]
fn try_handle_does_nothing_without_room() {
    let mut n = node(ServerRole::Master);
    n.state.consumed = u64::MAX - 5;
    assert!(!can_handle(PING, 0, &n.store, &n.state, &n.broadcaster));
    assert!(try_handle(PING, 0, Peer::Client, &mut n.store, &mut n.state, &mut n.broadcaster).is_none());
    assert_eq!(n.state.consumed, u64::MAX - 5);
    n.state.consumed = u64::MAX - 14;
    assert!(can_handle(PING, 0, &n.store, &n.state, &n.broadcaster));
    let handled =
        try_handle(PING, 0, Peer::Client, &mut n.store, &mut n.state, &mut n.broadcaster).unwrap();
    assert_eq!(replies(&handled), vec![b"+PONG\r\n".to_vec()]);
    assert_eq!(n.state.consumed, u64::MAX);
    assert!(!can_handle(PING, 15, &n.store, &n.state, &n.broadcaster));
    n.state.consumed = 0;
    n.broadcaster.broadcasted = u64::MAX - 531;
    assert!(!can_handle(PING, 0, &n.store, &n.state, &n.broadcaster));
    n.broadcaster.broadcasted = u64::MAX - 532;
    assert!(can_handle(PING, 0, &n.store, &n.state, &n.broadcaster));
    n.broadcaster.probed = 1;
    assert!(!can_handle(PING, 0, &n.store, &n.state, &n.broadcaster));
}

#[test]
fn echo_info_replconf_and_config() {
    let mut n = node(ServerRole::Master);
    let handled = run(&mut n, Peer::Client, b"*2\r\n$4\r\nECHO\r\n$2\r\nhi\r\n");
    assert_eq!(replies(&handled), vec![b"$2\r\nhi\r\n".to_vec()]);
    let handled = run(&mut n, Peer::Client, b"*2\r\n$4\r\nINFO\r\n$11\r\nreplication\r\n");
    assert_eq!(replies(&handled), vec![b"$12\r\nrole:master\n\r\n".to_vec()]);
    let handled = run(&mut n, Peer::Client, b"*2\r\n$4\r\nINFO\r\n$6\r\nserver\r\n");
    assert_eq!(replies(&handled), vec![b"-ERR invalid argument\r\n".to_vec()]);
    let handled = run(
        &mut n,
        Peer::Client,
        b"*3\r\n$8\r\nREPLCONF\r\n$14\r\nlistening-port\r\n$4\r\n6380\r\n",
    );
    assert_eq!(replies(&handled), vec![b"+OK\r\n".to_vec()]);
    let handled = run(&mut n, Peer::Client, b"*3\r\n$8\r\nREPLCONF\r\n$3\r\nACK\r\n$1\r\n0\r\n");
    assert!(handled.actions.is_empty());
    let handled = run(&mut n, Peer::Client, b"*2\r\n$8\r\nREPLCONF\r\n$5\r\nOTHER\r\n");
    assert_eq!(replies(&handled), vec![b"-ERR invalid argument\r\n".to_vec()]);
    let handled = run(&mut n, Peer::Client, b"*1\r\n$8\r\nREPLCONF\r\n");
    assert_eq!(replies(&handled), vec![b"-ERR wrong number of arguments\r\n".to_vec()]);
    let handled = run(&mut n, Peer::Client, b"*3\r\n$6\r\nCONFIG\r\n$3\r\nGET\r\n$3\r\ndir\r\n");
    assert_eq!(replies(&handled), vec![b"*2\r\n$3\r\ndir\r\n$9\r\n/tmp/data\r\n".to_vec()]);
    let handled = run(&mut n, Peer::Client, b"*3\r\n$6\r\nCONFIG\r\n$3\r\nGET\r\n$10\r\ndbfilename\r\n");
    assert_eq!(replies(&handled), vec![b"*2\r\n$10\r\ndbfilename\r\n$-1\r\n".to_vec()]);
    let handled = run(&mut n, Peer::Client, b"*3\r\n$6\r\nCONFIG\r\n$3\r\nSET\r\n$3\r\ndir\r\n");
    assert_eq!(replies(&handled), vec![b"-ERR invalid argument\r\n".to_vec()]);
    let handled = run(&mut n, Peer::Client, b"*2\r\n$6\r\nCONFIG\r\n$3\r\nGET\r\n");
    assert_eq!(replies(&handled), vec![b"-ERR wrong number of arguments\r\n".to_vec()]);
}

#[test]
fn info_of_a_replica_reports_slave() {
    let mut n = node(ServerRole::Slave);
    let handled = run(&mut n, Peer::Client, b"*2\r\n$4\r\nINFO\r\n$11\r\nreplication\r\n");
    assert_eq!(replies(&handled), vec![b"$11\r\nrole:slave\n\r\n".to_vec()]);
    assert_eq!(ServerRole::Slave.to_string(), "slave");
    assert_eq!(ServerRole::Master.to_string(), "master");
}

#[test]
fn wait_is_handed_back_as_an_action_and_the_handling_goes_on() {
    let mut n = node(ServerRole::Master);
    n.broadcaster.subscribe();
    run(&mut n, Peer::Client, SET_A_1);
    let wait = b"*3\r\n$4\r\nWAIT\r\n$1\r\n1\r\n$3\r\n500\r\n";
    let mut request = wait.to_vec();
    request.extend_from_slice(PING);
    let handled = run(&mut n, Peer::Client, &request);
    assert!(is_normal(&handled));
    assert_eq!(handled.consumed, request.len());
    assert_eq!(n.state.consumed, 27 + request.len() as u64);
    assert_eq!(handled.actions.len(), 2);
    match &handled.actions[0] {
        Action::Wait { wait, probe, answers } => {
            assert_eq!(wait.required, 1);
            assert_eq!(wait.target, 27);
            assert_eq!(wait.pending, 1);
            assert_eq!(wait.acked, 0);
            assert_eq!(wait.timeout_ms, 500);
            assert_eq!(probe.bytes, b"*3\r\n$8\r\nREPLCONF\r\n$6\r\nGETACK\r\n$1\r\n*\r\n");
            assert_eq!(probe.subscribers, 1);
            assert!(*answers);
        }
        _ => panic!("the wait comes first"),
    }
    assert_eq!(replies(&handled), vec![b"+PONG\r\n".to_vec()]);
    assert_eq!(n.broadcaster.subscribers, 1);
    assert_eq!(n.broadcaster.broadcasted, 27);
    assert_eq!(n.broadcaster.probed, 37);
}

#[test]
fn wait_that_ends_at_once_replies_at_once() {
    let mut n = node(ServerRole::Master);
    n.broadcaster.subscribe();
    n.broadcaster.subscribe();
    let handled = run(&mut n, Peer::Client, b"*3\r\n$4\r\nWAIT\r\n$1\r\n0\r\n$3\r\n500\r\n");
    assert_eq!(replies(&handled), vec![b":0\r\n".to_vec()]);
    assert_eq!(handled.actions.len(), 1);
    let handled = run(&mut n, Peer::Client, b"*3\r\n$4\r\nWAIT\r\n$1\r\n5\r\n$3\r\n500\r\n");
    assert_eq!(replies(&handled), vec![b":2\r\n".to_vec()]);
    assert_eq!(handled.actions.len(), 1);
    assert_eq!(n.broadcaster.probed, 0);
    assert_eq!(n.broadcaster.broadcasted, 0);
}

#[test]
fn a_wait_on_the_feed_of_the_master_holds_its_count_back() {
    let mut n = node(ServerRole::Slave);
    n.broadcaster.subscribe();
    run(&mut n, Peer::Master, SET_A_1);
    let handled = run(&mut n, Peer::Master, b"*3\r\n$4\r\nWAIT\r\n$1\r\n1\r\n$3\r\n500\r\n");
    assert_eq!(handled.actions.len(), 1);
    assert!(matches!(handled.actions[0], Action::Wait { answers: false, .. }));
}
