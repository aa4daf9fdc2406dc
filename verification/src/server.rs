//! Server-side rules: configuration validity, the publish request, the
//! pre-dispatch interceptor chain, and orderly shutdown.
//!
//! The process plumbing — binding the listener, installing middleware,
//! watching for the termination signal — is unverified boundary code; the
//! decisions it needs are taken here.  Configuration is validated before the
//! server starts, a publish request is built fresh per record under the
//! publisher's input constraints, an interceptor chain admits a session only
//! when every hook allows it, and the exit code on a termination signal
//! follows the convention of 128 plus the signal number.

use vstd::prelude::*;

use crate::codec::{parse_nat, parse_number_at};

verus! {

/// The process cannot start: the listen address is malformed, or the broker
/// configuration names no destination.
#[derive(Debug, PartialEq, Eq, Structural, Clone, Copy)]
pub enum StartupError {
    InvalidListenAddr,
    EmptyTopic,
    NoBrokers,
}

/// A publish request violates the publisher's input constraints.
#[derive(Debug, PartialEq, Eq, Structural, Clone, Copy)]
pub enum PublishRequestError {
    EmptyTopic,
    NoBrokers,
}

/// How many brokers must acknowledge a publish before it counts as done.
/// A configuration choice, exposed as a tunable.
#[derive(Debug, PartialEq, Eq, Structural, Clone, Copy)]
pub enum AckLevel {
    NoAck,
    OneAck,
    AllAcks,
}

/// The publisher's tunables: the acknowledgment level and how long to wait
/// for the acknowledgment.
#[derive(Debug, PartialEq, Eq, Structural, Clone, Copy)]
pub struct PublisherSettings {
    pub ack_level: AckLevel,
    pub ack_timeout_ms: u64,
}

/// The settings the relay runs with unless tuned otherwise: one broker must
/// acknowledge, within one second.
pub fn one_ack_settings() -> (s: PublisherSettings)
    ensures
        s.ack_level == AckLevel::OneAck,
        s.ack_timeout_ms == 1000,
{
    PublisherSettings { ack_level: AckLevel::OneAck, ack_timeout_ms: 1000 }
}

/// The index of the last colon, scanning from the end.
pub open spec fn rfind_colon(s: Seq<u8>) -> Option<int>
    decreases s.len(),
{
    if s.len() == 0 {
        None
    } else if s[s.len() - 1] == 58 {
        Some(s.len() - 1)
    } else {
        rfind_colon(s.take(s.len() - 1))
    }
}

/// A listen address splits at its last colon into a non-empty host and a
/// decimal port no larger than 65535.
pub open spec fn spec_parse_addr(s: Seq<u8>) -> Option<(Seq<u8>, u16)> {
    match rfind_colon(s) {
        Some(i) => {
            let host = s.take(i);
            let port = s.skip(i + 1);
            match parse_nat(port) {
                Some(p) => if host.len() > 0 && p.1.len() == 0 && p.0 <= 65535 {
                    Some((host, p.0 as u16))
                } else {
                    None
                },
                None => None,
            }
        },
        None => None,
    }
}

fn rfind_colon_exec(v: &Vec<u8>) -> (r: Option<usize>)
    ensures
        match r {
            Some(i) => i < v@.len() && rfind_colon(v@) == Some(i as int),
            None => rfind_colon(v@) is None,
        },
{
    let mut k = v.len();
    proof {
        assert(v@.take(k as int) =~= v@);
    }
    while k > 0
        invariant
            k <= v@.len(),
            rfind_colon(v@) == rfind_colon(v@.take(k as int)),
        decreases k,
    {
        if v[k - 1] == 58 {
            proof {
                assert(v@.take(k as int)[k - 1] == v@[k - 1]);
            }
            return Some(k - 1);
        }
        proof {
            assert(v@.take(k as int)[k - 1] == v@[k - 1]);
            assert(v@.take(k as int).take(k as int - 1) =~= v@.take(k as int - 1));
        }
        k = k - 1;
    }
    proof {
        assert(v@.take(0).len() == 0);
    }
    None
}

/// Split a configured listen address into host and port.
///
/// Succeeds exactly when the address has a colon, a non-empty host before
/// its last colon, and nothing but a decimal port of at most 65535 after it.
pub fn parse_listen_addr(addr: &Vec<u8>) -> (r: Result<(Vec<u8>, u16), StartupError>)
    ensures
        match r {
            Ok(hp) => spec_parse_addr(addr@) == Some((hp.0@, hp.1)),
            Err(e) => spec_parse_addr(addr@) is None && e == StartupError::InvalidListenAddr,
        },
{
    let i = match rfind_colon_exec(addr) {
        None => {
            return Err(StartupError::InvalidListenAddr);
        },
        Some(i) => i,
    };
    let len = addr.len();
    proof {
        assert(i < len);
    }
    let (n, j) = match parse_number_at(addr, i + 1) {
        None => {
            return Err(StartupError::InvalidListenAddr);
        },
        Some(p) => p,
    };
    if i == 0 || j != addr.len() || n > 65535 {
        proof {
            assert(addr@.skip(j as int).len() == 0 <==> j == addr@.len());
        }
        return Err(StartupError::InvalidListenAddr);
    }
    let mut host: Vec<u8> = Vec::new();
    let mut k: usize = 0;
    while k < i
        invariant
            k <= i,
            i < addr@.len(),
            host@ == addr@.take(i as int).take(k as int),
        decreases i - k,
    {
        host.push(addr[k]);
        proof {
            assert(addr@.take(i as int).take(k as int + 1) =~= addr@.take(i as int).take(
                k as int,
            ) + seq![addr@[k as int]]);
        }
        k = k + 1;
    }
    proof {
        assert(addr@.take(i as int).take(i as int) =~= addr@.take(i as int));
        assert(addr@.skip(j as int).len() == 0);
    }
    Ok((host, n as u16))
}

/// Process-wide, read-only configuration: where to listen, the per-request
/// idle timeout, and the broker destination.
pub struct ServerConfig {
    pub listen_addr: Vec<u8>,
    pub timeout_secs: u64,
    pub topic: Vec<u8>,
    pub brokers: Vec<Vec<u8>>,
}

/// A configuration the server may start with.
pub open spec fn config_ok(c: ServerConfig) -> bool {
    &&& spec_parse_addr(c.listen_addr@) is Some
    &&& c.topic@.len() > 0
    &&& c.brokers@.len() > 0
}

impl ServerConfig {
    /// Check the configuration before the server starts.  Each error names
    /// the first rule violated: a malformed listen address, then an empty
    /// topic, then an empty broker list.
    pub fn validate(&self) -> (r: Result<(), StartupError>)
        ensures
            r is Ok <==> config_ok(*self),
            r == Err::<(), StartupError>(StartupError::InvalidListenAddr) <==> spec_parse_addr(
                self.listen_addr@,
            ) is None,
            r == Err::<(), StartupError>(StartupError::EmptyTopic) <==> (spec_parse_addr(
                self.listen_addr@,
            ) is Some && self.topic@.len() == 0),
            r == Err::<(), StartupError>(StartupError::NoBrokers) <==> (spec_parse_addr(
                self.listen_addr@,
            ) is Some && self.topic@.len() > 0 && self.brokers@.len() == 0),
    {
        match parse_listen_addr(&self.listen_addr) {
            Err(_) => Err(StartupError::InvalidListenAddr),
            Ok(_) => {
                if self.topic.len() == 0 {
                    Err(StartupError::EmptyTopic)
                } else if self.brokers.len() == 0 {
                    Err(StartupError::NoBrokers)
                } else {
                    Ok(())
                }
            },
        }
    }
}

/// One publish hand-off: the topic, the broker addresses and the payload,
/// constructed fresh per record.
#[derive(Debug, Clone, PartialEq, Eq)]
pub struct PublishRequest {
    pub topic: Vec<u8>,
    pub brokers: Vec<Vec<u8>>,
    pub payload: Vec<u8>,
}

/// Build a publish request under the publisher's input constraints: the
/// topic and the broker list must be non-empty; an empty payload is
/// permitted.  The request carries the arguments through unchanged.
pub fn build_publish_request(topic: Vec<u8>, brokers: Vec<Vec<u8>>, payload: Vec<u8>) -> (r:
    Result<PublishRequest, PublishRequestError>)
    ensures
        match r {
            Ok(req) => {
                &&& topic@.len() > 0
                &&& brokers@.len() > 0
                &&& req.topic@ == topic@
                &&& req.brokers@ == brokers@
                &&& req.payload@ == payload@
            },
            Err(e) => match e {
                PublishRequestError::EmptyTopic => topic@.len() == 0,
                PublishRequestError::NoBrokers => topic@.len() > 0 && brokers@.len() == 0,
            },
        },
{
    if topic.len() == 0 {
        return Err(PublishRequestError::EmptyTopic);
    }
    if brokers.len() == 0 {
        return Err(PublishRequestError::NoBrokers);
    }
    Ok(PublishRequest { topic, brokers, payload })
}

/// One pre-dispatch hook's verdict on an incoming session request.
#[derive(Debug, PartialEq, Eq, Structural, Clone, Copy)]
pub enum Inspection {
    Allow,
    Deny,
}

/// Whether the ordered chain of pre-dispatch interceptors admits a session:
/// it opens exactly when every hook allows it; on any denial the session
/// never opens.
pub fn chain_allows(decisions: &Vec<Inspection>) -> (r: bool)
    ensures
        r == (forall|i: int| 0 <= i < decisions@.len() ==> decisions@[i] is Allow),
{
    let mut k: usize = 0;
    while k < decisions.len()
        invariant
            k <= decisions@.len(),
            forall|i: int| 0 <= i < k ==> decisions@[i] is Allow,
        decreases decisions.len() - k,
    {
        if decisions[k] == Inspection::Deny {
            proof {
                assert(!(decisions@[k as int] is Allow));
            }
            return false;
        }
        k = k + 1;
    }
    true
}

/// The cancellation token the signal watcher flips: once a termination
/// signal is observed, every active session sees the request at its next
/// suspension point, and the process exit code follows the POSIX convention
/// of 128 plus the signal number.
pub struct ShutdownFlag {
    pub signal: Option<i32>,
}

impl ShutdownFlag {
    /// No termination signal observed yet.
    pub fn new() -> (f: ShutdownFlag)
        ensures
            f.signal is None,
    {
        ShutdownFlag { signal: None }
    }

    /// Record the termination signal.  The first signal wins: a later one
    /// does not change the exit code.
    pub fn request(&mut self, sig: i32)
        requires
            0 <= sig <= i32::MAX - 128,
        ensures
            final(self).signal == if old(self).signal is Some {
                old(self).signal
            } else {
                Some(sig)
            },
    {
        if self.signal.is_none() {
            self.signal = Some(sig);
        }
    }

    /// Whether shutdown has been requested.
    pub fn is_requested(&self) -> (r: bool)
        ensures
            r == (self.signal is Some),
    {
        self.signal.is_some()
    }

    /// The process exit status once the drain completes: 128 plus the
    /// signal number.
    pub fn exit_code(&self) -> (r: i32)
        requires
            self.signal is Some,
            0 <= self.signal->0 <= i32::MAX - 128,
        ensures
            r == 128 + self.signal->0,
    {
        match self.signal {
            Some(sig) => 128 + sig,
            None => 0,
        }
    }
}

} // verus!
