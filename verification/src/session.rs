//! The per-session state machine.
//!
//! One `Session` exists per open ingestion stream.  The surrounding transport
//! loop owns the suspension points — waiting for the next inbound record and
//! waiting for a broker acknowledgment — and reports each outcome to the
//! session as a `SessionEvent`.  `on_event` is the whole decision logic: it
//! says what the loop must do next (`SessionAction`) and how the session's
//! state and summary counters move.  `spec_step` is the mathematical
//! transition function, and `spec_run` folds it over an event sequence; the
//! lemmas at the end state the session laws: records are published in
//! arrival order, a publish failure never stops the stream, terminal states
//! absorb every event, and the encode-failure policy is honoured
//! consistently.

use vstd::prelude::*;

use crate::codec::{encode, encode_record, record_ok};
use crate::record::LogRecord;
use crate::server::PublisherSettings;

verus! {

/// A publish attempt's typed failure: broker unreachable, acknowledgment
/// not received in time, or a broker-side rejection.  Local to one record.
#[derive(Debug, PartialEq, Eq, Structural, Clone, Copy)]
pub enum PublishError {
    Unreachable,
    AckTimeout,
    Rejected,
}

/// Why a session ended without a success acknowledgment.
#[derive(Debug, PartialEq, Eq, Structural, Clone, Copy)]
pub enum AbortReason {
    EncodeFailed,
    TransportFailed,
    IdleTimedOut,
}

/// What the session does with a record its encoder cannot represent:
/// abort the whole stream with an error, or count the record as failed and
/// keep reading.  The choice is configuration; both are honoured exactly.
#[derive(Debug, PartialEq, Eq, Structural, Clone, Copy)]
pub enum EncodePolicy {
    AbortSession,
    SkipRecord,
}

/// The lifecycle states of one ingestion session.
#[derive(Debug, PartialEq, Eq, Structural, Clone, Copy)]
pub enum SessionState {
    Opening,
    Active,
    Draining,
    Closed,
    Aborted,
}

/// What the transport loop observed and reports to the session.
pub enum SessionEvent {
    Opened,
    Record(LogRecord),
    PublishDone(Result<(), PublishError>),
    EndOfStream,
    TransportFailed,
    CancelRequested,
    IdleTimedOut,
}

/// What the session asks the surrounding loop to do next.
#[derive(Debug, PartialEq, Eq)]
pub enum SessionAction {
    DoNothing,
    Publish(Vec<u8>),
    Abort(AbortReason),
}

/// The mathematical form of a `SessionAction`.
pub ghost enum SpecAction {
    DoNothing,
    Publish(Seq<u8>),
    Abort(AbortReason),
}

impl View for SessionAction {
    type V = SpecAction;

    open spec fn view(&self) -> SpecAction {
        match self {
            SessionAction::DoNothing => SpecAction::DoNothing,
            SessionAction::Publish(p) => SpecAction::Publish(p@),
            SessionAction::Abort(r) => SpecAction::Abort(*r),
        }
    }
}

/// The terminal acknowledgment returned to the ingestion client when a
/// session closes: a summary, not a correctness decision.
#[derive(Debug, PartialEq, Eq, Structural, Clone, Copy)]
pub struct Acknowledgment {
    pub processed: u64,
    pub failed: u64,
}

/// One open ingestion session: its lifecycle state, the summary counters,
/// the encode-failure policy it was opened with, and the remote peer's
/// identity for logging.
pub struct Session {
    pub state: SessionState,
    pub processed: u64,
    pub failed: u64,
    pub policy: EncodePolicy,
    pub peer: Vec<u8>,
}

/// A summary counter moves up without ever wrapping.
pub open spec fn inc(x: u64) -> u64 {
    if x == u64::MAX {
        x
    } else {
        (x + 1) as u64
    }
}

/// The session transition function: from a session and one observed event
/// to the next session and the action the loop must take.
pub open spec fn spec_step(s: Session, e: SessionEvent) -> (Session, SpecAction) {
    match s.state {
        SessionState::Opening => match e {
            SessionEvent::Opened => (
                Session { state: SessionState::Active, ..s },
                SpecAction::DoNothing,
            ),
            SessionEvent::TransportFailed => (
                Session { state: SessionState::Aborted, ..s },
                SpecAction::Abort(AbortReason::TransportFailed),
            ),
            SessionEvent::CancelRequested => (
                Session { state: SessionState::Draining, ..s },
                SpecAction::DoNothing,
            ),
            SessionEvent::IdleTimedOut => (
                Session { state: SessionState::Aborted, ..s },
                SpecAction::Abort(AbortReason::IdleTimedOut),
            ),
            _ => (s, SpecAction::DoNothing),
        },
        SessionState::Active => match e {
            SessionEvent::Record(r) => if record_ok(r@) {
                (s, SpecAction::Publish(encode_record(r@)))
            } else if s.policy == EncodePolicy::AbortSession {
                (
                    Session { state: SessionState::Aborted, ..s },
                    SpecAction::Abort(AbortReason::EncodeFailed),
                )
            } else {
                (Session { failed: inc(s.failed), ..s }, SpecAction::DoNothing)
            },
            SessionEvent::PublishDone(res) => match res {
                Ok(_) => (Session { processed: inc(s.processed), ..s }, SpecAction::DoNothing),
                Err(_) => (Session { failed: inc(s.failed), ..s }, SpecAction::DoNothing),
            },
            SessionEvent::EndOfStream => (
                Session { state: SessionState::Draining, ..s },
                SpecAction::DoNothing,
            ),
            SessionEvent::TransportFailed => (
                Session { state: SessionState::Aborted, ..s },
                SpecAction::Abort(AbortReason::TransportFailed),
            ),
            SessionEvent::CancelRequested => (
                Session { state: SessionState::Draining, ..s },
                SpecAction::DoNothing,
            ),
            SessionEvent::IdleTimedOut => (
                Session { state: SessionState::Aborted, ..s },
                SpecAction::Abort(AbortReason::IdleTimedOut),
            ),
            SessionEvent::Opened => (s, SpecAction::DoNothing),
        },
        SessionState::Draining => match e {
            SessionEvent::PublishDone(res) => match res {
                Ok(_) => (Session { processed: inc(s.processed), ..s }, SpecAction::DoNothing),
                Err(_) => (Session { failed: inc(s.failed), ..s }, SpecAction::DoNothing),
            },
            _ => (s, SpecAction::DoNothing),
        },
        SessionState::Closed => (s, SpecAction::DoNothing),
        SessionState::Aborted => (s, SpecAction::DoNothing),
    }
}

impl Session {
    /// A session as the transport opens it: no record seen, no failure,
    /// the configured encode-failure policy, the peer recorded for logging.
    pub fn open(policy: EncodePolicy, peer: Vec<u8>) -> (s: Session)
        ensures
            s.state == SessionState::Opening,
            s.processed == 0,
            s.failed == 0,
            s.policy == policy,
            s.peer@ == peer@,
    {
        Session { state: SessionState::Opening, processed: 0, failed: 0, policy, peer }
    }

    /// Drive the session by one observed event.  The new session and the
    /// returned action are exactly `spec_step` of the old session and the
    /// event.
    pub fn on_event(&mut self, e: SessionEvent) -> (a: SessionAction)
        ensures
            *final(self) == spec_step(*old(self), e).0,
            a@ == spec_step(*old(self), e).1,
    {
        match e {
            SessionEvent::Opened => {
                if self.state == SessionState::Opening {
                    self.state = SessionState::Active;
                }
                SessionAction::DoNothing
            },
            SessionEvent::Record(r) => {
                if self.state == SessionState::Active {
                    match encode(&r) {
                        Ok(p) => SessionAction::Publish(p),
                        Err(_) => {
                            if self.policy == EncodePolicy::AbortSession {
                                self.state = SessionState::Aborted;
                                SessionAction::Abort(AbortReason::EncodeFailed)
                            } else {
                                if self.failed < u64::MAX {
                                    self.failed = self.failed + 1;
                                }
                                SessionAction::DoNothing
                            }
                        },
                    }
                } else {
                    SessionAction::DoNothing
                }
            },
            SessionEvent::PublishDone(res) => {
                if self.state == SessionState::Active || self.state == SessionState::Draining {
                    match res {
                        Ok(_) => {
                            if self.processed < u64::MAX {
                                self.processed = self.processed + 1;
                            }
                        },
                        Err(_) => {
                            if self.failed < u64::MAX {
                                self.failed = self.failed + 1;
                            }
                        },
                    }
                }
                SessionAction::DoNothing
            },
            SessionEvent::EndOfStream => {
                if self.state == SessionState::Active {
                    self.state = SessionState::Draining;
                }
                SessionAction::DoNothing
            },
            SessionEvent::TransportFailed => {
                if self.state == SessionState::Opening || self.state == SessionState::Active {
                    self.state = SessionState::Aborted;
                    SessionAction::Abort(AbortReason::TransportFailed)
                } else {
                    SessionAction::DoNothing
                }
            },
            SessionEvent::CancelRequested => {
                if self.state == SessionState::Opening || self.state == SessionState::Active {
                    self.state = SessionState::Draining;
                }
                SessionAction::DoNothing
            },
            SessionEvent::IdleTimedOut => {
                if self.state == SessionState::Opening || self.state == SessionState::Active {
                    self.state = SessionState::Aborted;
                    SessionAction::Abort(AbortReason::IdleTimedOut)
                } else {
                    SessionAction::DoNothing
                }
            },
        }
    }

    /// Whether the loop should keep pulling records from the transport.
    pub fn wants_records(&self) -> (r: bool)
        ensures
            r == (self.state == SessionState::Active || self.state == SessionState::Opening),
    {
        self.state == SessionState::Active || self.state == SessionState::Opening
    }

    /// Whether the session has reached a terminal state.
    pub fn is_terminal(&self) -> (r: bool)
        ensures
            r == (self.state == SessionState::Closed || self.state == SessionState::Aborted),
    {
        self.state == SessionState::Closed || self.state == SessionState::Aborted
    }

    /// Finalize the summary acknowledgment and close a draining session.
    pub fn finalize(&mut self) -> (ack: Acknowledgment)
        requires
            old(self).state == SessionState::Draining,
        ensures
            *final(self) == (Session { state: SessionState::Closed, ..*old(self) }),
            ack.processed == old(self).processed,
            ack.failed == old(self).failed,
    {
        self.state = SessionState::Closed;
        Acknowledgment { processed: self.processed, failed: self.failed }
    }
}

/// The access-log service implementation the transport registers: the
/// process-wide choices every session is opened with — the encode-failure
/// policy and the publisher tunables.  One instance serves all sessions;
/// each open stream gets its own `Session`, so sessions stay isolated.
pub struct AlsServer {
    pub policy: EncodePolicy,
    pub settings: PublisherSettings,
}

impl AlsServer {
    pub fn new(policy: EncodePolicy, settings: PublisherSettings) -> (s: AlsServer)
        ensures
            s.policy == policy,
            s.settings == settings,
    {
        AlsServer { policy, settings }
    }

    /// Open the session for one newly accepted ingestion stream.
    pub fn open_session(&self, peer: Vec<u8>) -> (s: Session)
        ensures
            s.state == SessionState::Opening,
            s.processed == 0,
            s.failed == 0,
            s.policy == self.policy,
            s.peer@ == peer@,
    {
        Session::open(self.policy, peer)
    }
}

/// Fold the transition function over a whole event sequence, collecting the
/// action taken at every step.
pub open spec fn spec_run(s: Session, events: Seq<SessionEvent>) -> (Session, Seq<SpecAction>)
    decreases events.len(),
{
    if events.len() == 0 {
        (s, Seq::empty())
    } else {
        let first = spec_step(s, events[0]);
        let rest = spec_run(first.0, events.skip(1));
        (rest.0, seq![first.1] + rest.1)
    }
}

/// The payloads handed to the publisher, in the order the actions occurred.
pub open spec fn publishes_of(acts: Seq<SpecAction>) -> Seq<Seq<u8>>
    decreases acts.len(),
{
    if acts.len() == 0 {
        Seq::empty()
    } else {
        (match acts[0] {
            SpecAction::Publish(p) => seq![p],
            _ => Seq::<Seq<u8>>::empty(),
        }) + publishes_of(acts.skip(1))
    }
}

pub proof fn lemma_run_append(s: Session, a: Seq<SessionEvent>, b: Seq<SessionEvent>)
    ensures
        spec_run(s, a + b).0 == spec_run(spec_run(s, a).0, b).0,
        spec_run(s, a + b).1 == spec_run(s, a).1 + spec_run(spec_run(s, a).0, b).1,
    decreases a.len(),
{
    if a.len() == 0 {
        assert(a + b =~= b);
        assert(spec_run(s, a).1 + spec_run(spec_run(s, a).0, b).1 =~= spec_run(s, b).1);
    } else {
        assert((a + b)[0] == a[0]);
        assert((a + b).skip(1) =~= a.skip(1) + b);
        let first = spec_step(s, a[0]);
        lemma_run_append(first.0, a.skip(1), b);
        assert(spec_run(s, a + b).1 =~= spec_run(s, a).1 + spec_run(spec_run(s, a).0, b).1);
    }
}

pub proof fn lemma_publishes_append(a: Seq<SpecAction>, b: Seq<SpecAction>)
    ensures
        publishes_of(a + b) == publishes_of(a) + publishes_of(b),
    decreases a.len(),
{
    if a.len() == 0 {
        assert(a + b =~= b);
        assert(publishes_of(a) + publishes_of(b) =~= publishes_of(b));
    } else {
        assert((a + b)[0] == a[0]);
        assert((a + b).skip(1) =~= a.skip(1) + b);
        lemma_publishes_append(a.skip(1), b);
        assert(publishes_of(a + b) =~= publishes_of(a) + publishes_of(b));
    }
}

/// A closed or aborted session reads nothing further: every later event
/// leaves it unchanged and publishes nothing.
pub proof fn lemma_terminal_absorbs(s: Session, events: Seq<SessionEvent>)
    requires
        s.state == SessionState::Closed || s.state == SessionState::Aborted,
    ensures
        spec_run(s, events).0 == s,
        publishes_of(spec_run(s, events).1) == Seq::<Seq<u8>>::empty(),
    decreases events.len(),
{
    if events.len() > 0 {
        let first = spec_step(s, events[0]);
        assert(first.0 == s && first.1 == SpecAction::DoNothing);
        lemma_terminal_absorbs(s, events.skip(1));
        let acts = spec_run(s, events).1;
        assert(acts =~= seq![first.1] + spec_run(s, events.skip(1)).1);
        assert(acts.skip(1) =~= spec_run(s, events.skip(1)).1);
        assert(publishes_of(acts) =~= Seq::<Seq<u8>>::empty());
    }
}

/// The event sequence of a steady stream: each record arrives, and the
/// publish attempt for it completes with the given outcome before the next
/// record is pulled.
pub open spec fn record_events(
    records: Seq<LogRecord>,
    outcomes: Seq<Result<(), PublishError>>,
) -> Seq<SessionEvent>
    decreases records.len(),
{
    if records.len() == 0 {
        Seq::empty()
    } else {
        seq![
            SessionEvent::Record(records[0]),
            SessionEvent::PublishDone(outcomes[0]),
        ] + record_events(records.skip(1), outcomes.skip(1))
    }
}

pub open spec fn count_ok(outcomes: Seq<Result<(), PublishError>>) -> nat
    decreases outcomes.len(),
{
    if outcomes.len() == 0 {
        0
    } else {
        (if outcomes[0] is Ok {
            1nat
        } else {
            0nat
        }) + count_ok(outcomes.skip(1))
    }
}

pub open spec fn count_err(outcomes: Seq<Result<(), PublishError>>) -> nat
    decreases outcomes.len(),
{
    if outcomes.len() == 0 {
        0
    } else {
        (if outcomes[0] is Err {
            1nat
        } else {
            0nat
        }) + count_err(outcomes.skip(1))
    }
}

/// Ordered delivery, and publish failures never stop the stream: an active
/// session that is fed representable records publishes exactly their
/// encodings, in arrival order, whatever each publish attempt's outcome was;
/// it stays active, and the summary counters tally the outcomes.
pub proof fn lemma_publish_order(
    s: Session,
    records: Seq<LogRecord>,
    outcomes: Seq<Result<(), PublishError>>,
)
    requires
        s.state == SessionState::Active,
        records.len() == outcomes.len(),
        forall|i: int| 0 <= i < records.len() ==> record_ok(#[trigger] records[i]@),
        s.processed + count_ok(outcomes) <= u64::MAX,
        s.failed + count_err(outcomes) <= u64::MAX,
    ensures
        spec_run(s, record_events(records, outcomes)).0 == (Session {
            processed: (s.processed + count_ok(outcomes)) as u64,
            failed: (s.failed + count_err(outcomes)) as u64,
            ..s
        }),
        publishes_of(spec_run(s, record_events(records, outcomes)).1) == (records.map_values(
            |r: LogRecord| encode_record(r@),
        )),
    decreases records.len(),
{
    let f = |r: LogRecord| encode_record(r@);
    let events = record_events(records, outcomes);
    if records.len() == 0 {
        assert(records.map_values(f) =~= Seq::<Seq<u8>>::empty());
        assert(spec_run(s, events).0 == Session {
            processed: (s.processed + count_ok(outcomes)) as u64,
            failed: (s.failed + count_err(outcomes)) as u64,
            ..s
        });
    } else {
        let r0 = records[0];
        let o0 = outcomes[0];
        let rest = record_events(records.skip(1), outcomes.skip(1));
        let skip1 = events.skip(1);
        let skip2 = skip1.skip(1);
        assert(events == seq![SessionEvent::Record(r0), SessionEvent::PublishDone(o0)] + rest);
        assert(events[0] == SessionEvent::Record(r0));
        assert(skip1 =~= seq![SessionEvent::PublishDone(o0)] + rest);
        assert(skip1[0] == SessionEvent::PublishDone(o0));
        assert(skip2 =~= rest);
        let step1 = spec_step(s, events[0]);
        assert(record_ok(r0@));
        assert(step1.0 == s && step1.1 == SpecAction::Publish(encode_record(r0@)));
        let step2 = spec_step(s, skip1[0]);
        let s2 = step2.0;
        assert(step2.1 == SpecAction::DoNothing);
        assert(count_ok(outcomes) == (if o0 is Ok { 1nat } else { 0nat }) + count_ok(
            outcomes.skip(1),
        ));
        assert(count_err(outcomes) == (if o0 is Err { 1nat } else { 0nat }) + count_err(
            outcomes.skip(1),
        ));
        lemma_publish_order(s2, records.skip(1), outcomes.skip(1));
        let tail_run = spec_run(s2, rest);
        assert(spec_run(s2, skip2) == tail_run);
        assert(spec_run(s, skip1) == (tail_run.0, seq![step2.1] + tail_run.1));
        assert(spec_run(s, events) == (tail_run.0, seq![step1.1] + (seq![step2.1] + tail_run.1)));
        assert(s2.processed + count_ok(outcomes.skip(1)) == s.processed + count_ok(outcomes));
        assert(s2.failed + count_err(outcomes.skip(1)) == s.failed + count_err(outcomes));
        let acts = spec_run(s, events).1;
        assert(acts.skip(1) =~= seq![step2.1] + tail_run.1);
        assert(acts.skip(1).skip(1) =~= tail_run.1);
        assert(acts[0] == step1.1);
        assert(acts.skip(1)[0] == step2.1);
        assert(publishes_of(acts.skip(1)) == Seq::<Seq<u8>>::empty() + publishes_of(
            acts.skip(1).skip(1),
        ));
        assert(publishes_of(acts.skip(1)) =~= publishes_of(tail_run.1));
        assert(publishes_of(acts) == seq![encode_record(r0@)] + publishes_of(acts.skip(1)));
        assert(publishes_of(acts) =~= seq![encode_record(r0@)] + publishes_of(tail_run.1));
        assert forall|t: int| 0 <= t < records.len() implies records.map_values(f)[t] == (seq![
            encode_record(r0@),
        ] + records.skip(1).map_values(f))[t] by {
            if t > 0 {
                assert(records[t] == records.skip(1)[t - 1]);
            }
        }
        assert(records.map_values(f) =~= seq![encode_record(r0@)] + records.skip(1).map_values(f));
    }
}

/// The abort policy is honoured: once a record that cannot be encoded
/// arrives, the session aborts, and no later record reaches the publisher,
/// whatever else the transport still reports.
pub proof fn lemma_abort_policy(
    s: Session,
    good: Seq<LogRecord>,
    outcomes: Seq<Result<(), PublishError>>,
    bad: LogRecord,
    tail: Seq<SessionEvent>,
)
    requires
        s.state == SessionState::Active,
        s.policy == EncodePolicy::AbortSession,
        good.len() == outcomes.len(),
        forall|i: int| 0 <= i < good.len() ==> record_ok(#[trigger] good[i]@),
        !record_ok(bad@),
        s.processed + count_ok(outcomes) <= u64::MAX,
        s.failed + count_err(outcomes) <= u64::MAX,
    ensures
        ({
            let events = record_events(good, outcomes) + seq![SessionEvent::Record(bad)] + tail;
            &&& spec_run(s, events).0.state == SessionState::Aborted
            &&& publishes_of(spec_run(s, events).1) == good.map_values(
                |r: LogRecord| encode_record(r@),
            )
        }),
{
    let prefix = record_events(good, outcomes);
    let events = prefix + seq![SessionEvent::Record(bad)] + tail;
    assert(events =~= prefix + (seq![SessionEvent::Record(bad)] + tail));
    lemma_run_append(s, prefix, seq![SessionEvent::Record(bad)] + tail);
    lemma_publish_order(s, good, outcomes);
    let s1 = spec_run(s, prefix).0;
    assert(s1.state == SessionState::Active && s1.policy == EncodePolicy::AbortSession);
    let mid = seq![SessionEvent::Record(bad)] + tail;
    assert(mid[0] == SessionEvent::Record(bad));
    assert(mid.skip(1) =~= tail);
    let step = spec_step(s1, SessionEvent::Record(bad));
    let s2 = step.0;
    assert(s2.state == SessionState::Aborted);
    lemma_terminal_absorbs(s2, tail);
    assert(spec_run(s, events).0.state == SessionState::Aborted);
    let mid_acts = spec_run(s1, mid).1;
    assert(mid_acts =~= seq![step.1] + spec_run(s2, tail).1);
    assert(mid_acts.skip(1) =~= spec_run(s2, tail).1);
    assert(publishes_of(mid_acts) =~= Seq::<Seq<u8>>::empty());
    lemma_publishes_append(spec_run(s, prefix).1, mid_acts);
    assert(spec_run(s, events).1 =~= spec_run(s, prefix).1 + mid_acts);
    assert(publishes_of(spec_run(s, events).1) =~= publishes_of(spec_run(s, prefix).1));
}

/// The skip policy is honoured: a record that cannot be encoded is counted
/// as one failure and publishes nothing, and every later record still
/// reaches the publisher in order.
pub proof fn lemma_skip_policy(
    s: Session,
    bad: LogRecord,
    good: Seq<LogRecord>,
    outcomes: Seq<Result<(), PublishError>>,
)
    requires
        s.state == SessionState::Active,
        s.policy == EncodePolicy::SkipRecord,
        good.len() == outcomes.len(),
        forall|i: int| 0 <= i < good.len() ==> record_ok(#[trigger] good[i]@),
        !record_ok(bad@),
        s.processed + count_ok(outcomes) <= u64::MAX,
        s.failed + 1 + count_err(outcomes) <= u64::MAX,
    ensures
        ({
            let events = seq![SessionEvent::Record(bad)] + record_events(good, outcomes);
            &&& spec_run(s, events).0 == Session {
                processed: (s.processed + count_ok(outcomes)) as u64,
                failed: (s.failed + 1 + count_err(outcomes)) as u64,
                ..s
            }
            &&& publishes_of(spec_run(s, events).1) == good.map_values(
                |r: LogRecord| encode_record(r@),
            )
        }),
{
    let rest = record_events(good, outcomes);
    let events = seq![SessionEvent::Record(bad)] + rest;
    assert(events[0] == SessionEvent::Record(bad));
    assert(events.skip(1) =~= rest);
    let step = spec_step(s, SessionEvent::Record(bad));
    let s1 = step.0;
    assert(s1.state == SessionState::Active && s1.failed == s.failed + 1);
    assert(step.1 == SpecAction::DoNothing);
    lemma_publish_order(s1, good, outcomes);
    let acts = spec_run(s, events).1;
    assert(acts =~= seq![step.1] + spec_run(s1, rest).1);
    assert(acts.skip(1) =~= spec_run(s1, rest).1);
    assert(publishes_of(acts) =~= publishes_of(spec_run(s1, rest).1));
}

} // verus!
