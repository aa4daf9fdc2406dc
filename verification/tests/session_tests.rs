use als_relay::codec::encode;
use als_relay::record::{LogEntry, LogRecord};
use als_relay::server::{one_ack_settings, ShutdownFlag};
use als_relay::session::{
    AbortReason, AlsServer, EncodePolicy, PublishError, Session, SessionAction, SessionEvent,
    SessionState,
};

fn record(log_name: &[u8], node_id: &[u8], entries: Vec<LogEntry>) -> LogRecord {
    LogRecord { log_name: log_name.to_vec(), node_id: node_id.to_vec(), entries }
}

fn good(n: u8) -> LogRecord {
    record(b"als", &[b'n', b'0' + n], vec![LogEntry { path: b"/".to_vec(), status: 200 }])
}

fn bad() -> LogRecord {
    // A control byte the payload format cannot represent.
    record(b"als", b"\x01", vec![])
}

fn open_active(policy: EncodePolicy) -> Session {
    let server = AlsServer::new(policy, one_ack_settings());
    let mut s = server.open_session(b"10.0.0.7:41234".to_vec());
    assert_eq!(s.state, SessionState::Opening);
    let a = s.on_event(SessionEvent::Opened);
    assert_eq!(a, SessionAction::DoNothing);
    assert_eq!(s.state, SessionState::Active);
    s
}

#[test]
fn zero_records_closes_with_zero_failures() {
    let mut s = open_active(EncodePolicy::AbortSession);
    let a = s.on_event(SessionEvent::EndOfStream);
    assert_eq!(a, SessionAction::DoNothing);
    assert_eq!(s.state, SessionState::Draining);
    let ack = s.finalize();
    assert_eq!(s.state, SessionState::Closed);
    assert_eq!(ack.failed, 0);
    assert_eq!(ack.processed, 0);
}

#[test]
fn publishes_in_arrival_order() {
    let mut s = open_active(EncodePolicy::AbortSession);
    let records = vec![good(1), good(2), good(3)];
    let mut seen: Vec<Vec<u8>> = Vec::new();
    for r in records.iter() {
        match s.on_event(SessionEvent::Record(r.clone())) {
            SessionAction::Publish(p) => {
                seen.push(p);
                let a = s.on_event(SessionEvent::PublishDone(Ok(())));
                assert_eq!(a, SessionAction::DoNothing);
            }
            other => panic!("expected a publish, got {:?}", other),
        }
    }
    let expected: Vec<Vec<u8>> = records.iter().map(|r| encode(r).unwrap()).collect();
    assert_eq!(seen, expected);
    assert_eq!(s.processed, 3);
    assert_eq!(s.failed, 0);
}

#[test]
fn publish_failure_does_not_stop_the_stream() {
    let mut s = open_active(EncodePolicy::AbortSession);
    let a1 = s.on_event(SessionEvent::Record(good(1)));
    assert!(matches!(a1, SessionAction::Publish(_)));
    s.on_event(SessionEvent::PublishDone(Err(PublishError::Unreachable)));
    assert_eq!(s.state, SessionState::Active);
    // The next record still reaches the publisher.
    let a2 = s.on_event(SessionEvent::Record(good(2)));
    assert_eq!(a2, SessionAction::Publish(encode(&good(2)).unwrap()));
    s.on_event(SessionEvent::PublishDone(Ok(())));
    assert_eq!(s.failed, 1);
    assert_eq!(s.processed, 1);
}

#[test]
fn abort_policy_stops_at_the_bad_record() {
    let mut s = open_active(EncodePolicy::AbortSession);
    let a1 = s.on_event(SessionEvent::Record(good(1)));
    assert!(matches!(a1, SessionAction::Publish(_)));
    s.on_event(SessionEvent::PublishDone(Ok(())));
    let a2 = s.on_event(SessionEvent::Record(bad()));
    assert_eq!(a2, SessionAction::Abort(AbortReason::EncodeFailed));
    assert_eq!(s.state, SessionState::Aborted);
    // Nothing after the abort reaches the publisher.
    let a3 = s.on_event(SessionEvent::Record(good(3)));
    assert_eq!(a3, SessionAction::DoNothing);
    assert_eq!(s.state, SessionState::Aborted);
}

#[test]
fn three_records_with_one_bad_under_skip_policy() {
    // Records one and three are published; record two fails to encode and is
    // counted as the single failure in the summary.
    let mut s = open_active(EncodePolicy::SkipRecord);
    let mut publishes = 0;
    for r in [good(1), bad(), good(3)] {
        match s.on_event(SessionEvent::Record(r)) {
            SessionAction::Publish(_) => {
                publishes += 1;
                s.on_event(SessionEvent::PublishDone(Ok(())));
            }
            SessionAction::DoNothing => {}
            other => panic!("unexpected action {:?}", other),
        }
    }
    assert_eq!(publishes, 2);
    s.on_event(SessionEvent::EndOfStream);
    let ack = s.finalize();
    assert_eq!(s.state, SessionState::Closed);
    assert_eq!(ack.failed, 1);
    assert_eq!(ack.processed, 2);
}

#[test]
fn broker_unreachable_for_five_records() {
    let mut s = open_active(EncodePolicy::AbortSession);
    for n in 1..=5 {
        let a = s.on_event(SessionEvent::Record(good(n)));
        assert!(matches!(a, SessionAction::Publish(_)));
        s.on_event(SessionEvent::PublishDone(Err(PublishError::Unreachable)));
        assert_eq!(s.state, SessionState::Active);
    }
    s.on_event(SessionEvent::EndOfStream);
    let ack = s.finalize();
    assert_eq!(s.state, SessionState::Closed);
    assert_eq!(ack.failed, 5);
    assert_eq!(ack.processed, 0);
}

#[test]
fn termination_signal_drains_and_sets_exit_code() {
    let mut s = open_active(EncodePolicy::AbortSession);
    // A record's publish is in flight when the termination signal arrives.
    let a = s.on_event(SessionEvent::Record(good(1)));
    assert!(matches!(a, SessionAction::Publish(_)));
    let a2 = s.on_event(SessionEvent::CancelRequested);
    assert_eq!(a2, SessionAction::DoNothing);
    assert_eq!(s.state, SessionState::Draining);
    assert!(!s.wants_records());
    // The in-flight record finishes processing during the drain.
    s.on_event(SessionEvent::PublishDone(Ok(())));
    assert_eq!(s.state, SessionState::Draining);
    let ack = s.finalize();
    assert_eq!(s.state, SessionState::Closed);
    assert_eq!(ack.processed, 1);
    assert_eq!(ack.failed, 0);

    let mut flag = ShutdownFlag::new();
    assert!(!flag.is_requested());
    flag.request(2);
    assert!(flag.is_requested());
    assert_eq!(flag.exit_code(), 130);
    // The first signal decides the exit code.
    flag.request(15);
    assert_eq!(flag.exit_code(), 130);
}

#[test]
fn transport_failure_aborts_without_acknowledgment() {
    let mut s = open_active(EncodePolicy::AbortSession);
    let a = s.on_event(SessionEvent::TransportFailed);
    assert_eq!(a, SessionAction::Abort(AbortReason::TransportFailed));
    assert_eq!(s.state, SessionState::Aborted);
    assert!(s.is_terminal());
    // Terminal states absorb everything that still arrives.
    let a2 = s.on_event(SessionEvent::Record(good(1)));
    assert_eq!(a2, SessionAction::DoNothing);
    let a3 = s.on_event(SessionEvent::EndOfStream);
    assert_eq!(a3, SessionAction::DoNothing);
    assert_eq!(s.state, SessionState::Aborted);
}

#[test]
fn idle_timeout_aborts_the_session() {
    let mut s = open_active(EncodePolicy::AbortSession);
    let a = s.on_event(SessionEvent::IdleTimedOut);
    assert_eq!(a, SessionAction::Abort(AbortReason::IdleTimedOut));
    assert_eq!(s.state, SessionState::Aborted);
}

#[test]
fn records_are_ignored_while_draining() {
    let mut s = open_active(EncodePolicy::AbortSession);
    s.on_event(SessionEvent::EndOfStream);
    assert_eq!(s.state, SessionState::Draining);
    let a = s.on_event(SessionEvent::Record(good(1)));
    assert_eq!(a, SessionAction::DoNothing);
    assert_eq!(s.state, SessionState::Draining);
}
