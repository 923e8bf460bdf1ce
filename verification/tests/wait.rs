use resp_replica::broadcast::{ack_offset, Broadcaster};
use resp_replica::handler::error::CommandError;
use resp_replica::handler::wait::{count_reply, handle_wait, Wait, WaitEvent, WaitStart, WaitStep};
use resp_replica::protocol::r_object::RObject;

fn wait_command(wanted: &str, timeout: &str) -> Vec<RObject> {
    vec![
        RObject::BulkString("WAIT".to_string()),
        RObject::BulkString(wanted.to_string()),
        RObject::BulkString(timeout.to_string()),
    ]
}

fn broadcaster(subscribers: usize, broadcasted: u64) -> Broadcaster {
    Broadcaster { subscribers, broadcasted, probed: 0 }
}

fn reply_of(start: Result<WaitStart, CommandError>) -> RObject {
    match start {
        Ok(WaitStart::Reply(reply)) => reply,
        _ => panic!("the wait has to end at once"),
    }
}

fn wait_of(start: Result<WaitStart, CommandError>) -> Wait {
    match start {
        Ok(WaitStart::Probe { wait, .. }) => wait,
        _ => panic!("the wait has to go on"),
    }
}

fn run(mut wait: Wait, events: &[WaitEvent]) -> WaitStep {
    for event in events {
        match wait.on_event(*event) {
            WaitStep::Pending(next) => wait = next,
            done => return done,
        }
    }
    WaitStep::Pending(wait)
}

#[test]
fn wait_for_none_replies_zero_and_sends_no_probe() {
    let mut b = broadcaster(3, 100);
    assert_eq!(reply_of(handle_wait(&wait_command("0", "500"), &mut b)), RObject::Integer(0));
    assert_eq!(b.broadcasted, 100);
    assert_eq!(b.subscribers, 3);
    let mut b = broadcaster(0, 0);
    assert_eq!(reply_of(handle_wait(&wait_command("0", "0"), &mut b)), RObject::Integer(0));
    assert_eq!(b.broadcasted, 0);
}

#[test]
fn wait_before_anything_was_sent_replies_the_number_of_subscribers() {
    let mut b = broadcaster(3, 0);
    assert_eq!(reply_of(handle_wait(&wait_command("5", "500"), &mut b)), RObject::Integer(3));
    assert_eq!(b.broadcasted, 0);
}

#[test]
fn wait_without_subscribers_replies_zero() {
    let mut b = broadcaster(0, 31);
    assert_eq!(reply_of(handle_wait(&wait_command("1", "500"), &mut b)), RObject::Integer(0));
    assert_eq!(b.broadcasted, 31);
}

#[test]
fn wait_captures_the_offset_and_probes() {
    let mut b = broadcaster(2, 31);
    match handle_wait(&wait_command("2", "500"), &mut b) {
        Ok(WaitStart::Probe { wait, probe }) => {
            assert_eq!(wait, Wait { required: 2, target: 31, pending: 2, acked: 0, timeout_ms: 500 });
            assert_eq!(probe.bytes, b"*3\r\n$8\r\nREPLCONF\r\n$6\r\nGETACK\r\n$1\r\n*\r\n");
            assert_eq!(probe.subscribers, 2);
        }
        _ => panic!("the wait has to go on"),
    }
    assert_eq!(b.broadcasted, 31);
    assert_eq!(b.probed, 37);
    assert_eq!(b.subscribers, 2);
}

#[test]
fn a_later_wait_captures_the_probes_that_went_before() {
    let mut b = broadcaster(1, 31);
    let first = wait_of(handle_wait(&wait_command("1", "500"), &mut b));
    assert_eq!(first.target, 31);
    let second = wait_of(handle_wait(&wait_command("1", "500"), &mut b));
    assert_eq!(second.target, 31 + 37);
    assert_eq!(b.broadcasted, 31);
    assert_eq!(b.probed, 74);
}

#[test]
fn wait_with_wrong_arguments() {
    let mut b = broadcaster(2, 31);
    let short = vec![RObject::BulkString("WAIT".to_string()), RObject::BulkString("1".to_string())];
    assert!(matches!(handle_wait(&short, &mut b), Err(CommandError::WrongArity)));
    assert!(matches!(
        handle_wait(&vec![RObject::BulkString("WAIT".to_string())], &mut b),
        Err(CommandError::WrongArity)
    ));
    assert!(matches!(handle_wait(&wait_command("x", "500"), &mut b), Err(CommandError::InvalidArgument)));
    assert!(matches!(handle_wait(&wait_command("1", "soon"), &mut b), Err(CommandError::InvalidArgument)));
    assert!(matches!(handle_wait(&wait_command("-1", "500"), &mut b), Err(CommandError::InvalidArgument)));
    let typed = vec![
        RObject::BulkString("WAIT".to_string()),
        RObject::Integer(1),
        RObject::BulkString("500".to_string()),
    ];
    assert!(matches!(handle_wait(&typed, &mut b), Err(CommandError::WrongType)));
    assert_eq!(b.broadcasted, 31);
}

#[test]
fn wait_ends_when_enough_have_acknowledged() {
    let mut b = broadcaster(3, 31);
    let wait = wait_of(handle_wait(&wait_command("2", "500"), &mut b));
    let step = run(wait, &[WaitEvent::Answer(Some(31)), WaitEvent::Answer(Some(31))]);
    assert_eq!(step, WaitStep::Done(2));
}

#[test]
fn wait_ends_with_what_it_has_when_the_timer_fires() {
    let mut b = broadcaster(3, 31);
    let wait = wait_of(handle_wait(&wait_command("3", "500"), &mut b));
    let step = run(wait, &[WaitEvent::Answer(Some(31)), WaitEvent::Timeout, WaitEvent::Answer(Some(31))]);
    assert_eq!(step, WaitStep::Done(1));
    assert_eq!(run(wait, &[WaitEvent::Timeout]), WaitStep::Done(0));
}

#[test]
fn wait_ends_when_every_subscriber_has_answered() {
    let mut b = broadcaster(2, 31);
    let wait = wait_of(handle_wait(&wait_command("5", "500"), &mut b));
    let step = run(wait, &[WaitEvent::Answer(Some(31)), WaitEvent::Answer(None)]);
    assert_eq!(step, WaitStep::Done(1));
}

#[test]
fn wait_counts_only_the_captured_offset() {
    let mut b = broadcaster(3, 31);
    let wait = wait_of(handle_wait(&wait_command("3", "500"), &mut b));
    let step = run(
        wait,
        &[WaitEvent::Answer(Some(30)), WaitEvent::Answer(Some(31)), WaitEvent::Answer(Some(68))],
    );
    assert_eq!(step, WaitStep::Done(1));
}

#[test]
fn wait_goes_on_while_answers_are_due() {
    let mut b = broadcaster(3, 31);
    let wait = wait_of(handle_wait(&wait_command("2", "500"), &mut b));
    assert_eq!(
        run(wait, &[WaitEvent::Answer(Some(31))]),
        WaitStep::Pending(Wait { required: 2, target: 31, pending: 2, acked: 1, timeout_ms: 500 })
    );
    assert_eq!(
        run(wait, &[WaitEvent::Answer(None)]),
        WaitStep::Pending(Wait { required: 2, target: 31, pending: 2, acked: 0, timeout_ms: 500 })
    );
}

#[test]
fn the_reply_of_a_wait_is_its_count() {
    assert_eq!(count_reply(2).encode(), b":2\r\n");
}

#[test]
fn acknowledgments_are_read_from_the_third_word() {
    assert_eq!(ack_offset(b"*3\r\n$8\r\nREPLCONF\r\n$3\r\nACK\r\n$2\r\n31\r\n"), Some(31));
    assert_eq!(ack_offset(b"*3\r\n$8\r\nreplconf\r\n$3\r\nack\r\n$1\r\n0\r\n"), Some(0));
    assert_eq!(ack_offset(b"*3\r\n$8\r\nREPLCONF\r\n$3\r\nACK\r\n:31\r\n"), None);
    assert_eq!(ack_offset(b"*3\r\n$8\r\nREPLCONF\r\n$3\r\nACK\r\n$2\r\n-1\r\n"), None);
    assert_eq!(ack_offset(b"*2\r\n$8\r\nREPLCONF\r\n$3\r\nACK\r\n"), None);
    assert_eq!(ack_offset(b"+OK\r\n"), None);
    assert_eq!(ack_offset(b""), None);
    assert_eq!(ack_offset(b"*3\r\n$8\r\nREPL"), None);
}

#[test]
fn broadcasting_counts_the_bytes_and_keeps_them() {
    let mut b = Broadcaster::new();
    assert_eq!(b.subscribe(), 0);
    assert_eq!(b.subscribe(), 1);
    let delivery = b.broadcast(b"*1\r\n$4\r\nPING\r\n");
    assert_eq!(delivery.bytes, b"*1\r\n$4\r\nPING\r\n");
    assert_eq!(delivery.subscribers, 2);
    assert_eq!(b.broadcasted, 14);
    let probe = b.ask_ack();
    assert_eq!(probe.offset, 14);
    assert_eq!(probe.delivery.subscribers, 2);
    assert_eq!(probe.delivery.bytes, b"*3\r\n$8\r\nREPLCONF\r\n$6\r\nGETACK\r\n$1\r\n*\r\n");
    assert_eq!(b.subscribers, 2);
    assert_eq!(b.broadcasted, 14);
    assert_eq!(b.probed, 37);
    assert_eq!(b.ask_ack().offset, 14 + 37);
    assert_eq!(ack_offset(&probe.delivery.bytes), None);
}
