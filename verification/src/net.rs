//! Sending a query to one server: the transport abstraction, and the
//! decisions that a UDP exchange makes about each reply.
use vstd::prelude::*;

use crate::message::{parse_message, DecodeError, Message, MessageView};

verus! {

#[verifier::external_type_specification]
#[verifier::external_body]
pub struct ExIoError(std::io::Error);

/// An IPv4 server address and port.
#[derive(Debug, Clone, Copy, PartialEq, Eq, Hash)]
pub struct ServerAddr {
    pub ip: [u8; 4],
    pub port: u16,
}

/// The resolver only ever talks to port 53.
pub fn dns_server(ip: [u8; 4]) -> (a: ServerAddr)
    ensures
        a == (ServerAddr { ip, port: 53 }),
{
    ServerAddr { ip, port: 53 }
}

#[derive(Debug)]
pub enum QueryError {
    Io(std::io::Error),
    Decode(DecodeError),
    IdMismatch,
    Timeout,
}

impl From<std::io::Error> for QueryError {
    fn from(e: std::io::Error) -> (r: Self) {
        QueryError::Io(e)
    }
}

impl vstd::std_specs::convert::FromSpecImpl<std::io::Error> for QueryError {
    open spec fn obeys_from_spec() -> bool {
        true
    }

    open spec fn from_spec(e: std::io::Error) -> QueryError {
        QueryError::Io(e)
    }
}

/// Abstraction over "send this query to this server, get a response back".
/// Lets the resolution logic be tested with a scripted mock, independent of
/// whatever the real network happens to do. Nothing is assumed of what an
/// implementation returns.
pub trait Transport {
    fn query(&self, server: ServerAddr, msg: &Message) -> Result<Message, QueryError>;
}

/// How a UDP transport behaves: how long to wait for each reply, and how
/// many sends to make before giving up.
pub struct UdpTransport {
    pub timeout_ms: u64,
    pub attempts: u32,
}

impl Default for UdpTransport {
    fn default() -> (t: UdpTransport)
        ensures
            t.timeout_ms == 3000 && t.attempts == 2,
    {
        UdpTransport { timeout_ms: 3000, attempts: 2 }
    }
}

/// What one UDP attempt ran into.
pub enum AttemptEvent {
    /// Binding, configuring or connecting the socket failed.
    Setup(std::io::Error),
    /// Sending the request failed.
    Send(std::io::Error),
    /// Waiting for a reply failed (a timeout shows up here).
    Recv(std::io::Error),
    /// A datagram arrived.
    Reply(Vec<u8>),
}

/// What to do after an attempt: stop with this result, or record this
/// error as the latest and try again (if attempts remain).
pub enum AttemptOutcome {
    Finish(Result<Message, QueryError>),
    Retry(QueryError),
}

/// Judges one attempt of a query with id `expected_id`: a socket that cannot
/// be set up ends the query with that error; a failed send or receive, a
/// reply that does not decode and a reply to a different id are retried;
/// a decoded reply with the expected id ends the query with it.
pub fn attempt_outcome(expected_id: u16, event: AttemptEvent) -> (o: AttemptOutcome)
    ensures
        match event {
            AttemptEvent::Setup(e) => o == AttemptOutcome::Finish(Err(QueryError::Io(e))),
            AttemptEvent::Send(e) => o == AttemptOutcome::Retry(QueryError::Io(e)),
            AttemptEvent::Recv(e) => o == AttemptOutcome::Retry(QueryError::Io(e)),
            AttemptEvent::Reply(bytes) => match parse_message(bytes@) {
                Err(e) => o == AttemptOutcome::Retry(QueryError::Decode(e)),
                Ok(m) => if m.header.id != expected_id {
                    o == AttemptOutcome::Retry(QueryError::IdMismatch)
                } else {
                    o matches AttemptOutcome::Finish(Ok(r)) && r@ == m
                },
            },
        },
{
    match event {
        AttemptEvent::Setup(e) => AttemptOutcome::Finish(Err(QueryError::Io(e))),
        AttemptEvent::Send(e) => AttemptOutcome::Retry(QueryError::Io(e)),
        AttemptEvent::Recv(e) => AttemptOutcome::Retry(QueryError::Io(e)),
        AttemptEvent::Reply(bytes) => match Message::decode(bytes.as_slice()) {
            Ok(response) => {
                if response.header.id != expected_id {
                    // Stale or spoofed reply for a different query; ignore and retry.
                    AttemptOutcome::Retry(QueryError::IdMismatch)
                } else {
                    AttemptOutcome::Finish(Ok(response))
                }
            },
            Err(e) => AttemptOutcome::Retry(QueryError::Decode(e)),
        },
    }
}

/// Where a UDP query stands: attempts are left, or it has its result.
pub enum UdpState {
    Trying(u32),
    Finished(Result<Message, QueryError>),
}

/// A query allowed `attempts` sends: with none allowed it ends at once with
/// `Timeout`.
pub fn udp_begin(attempts: u32) -> (s: UdpState)
    ensures
        attempts == 0 ==> s == UdpState::Finished(Err(QueryError::Timeout)),
        attempts > 0 ==> s == UdpState::Trying(attempts),
{
    if attempts == 0 {
        UdpState::Finished(Err(QueryError::Timeout))
    } else {
        UdpState::Trying(attempts)
    }
}

/// After one of `left` remaining attempts of a query with id `expected_id`:
/// an attempt that ends the query (see `attempt_outcome`) gives its result;
/// one to retry goes on while attempts are left, and otherwise ends the
/// query with that attempt's error.
pub fn udp_step(expected_id: u16, left: u32, event: AttemptEvent) -> (s: UdpState)
    requires
        left > 0,
    ensures
        match attempt_outcome_spec(expected_id, event) {
            AttemptOutcomeView::Finish => s matches UdpState::Finished(_),
            AttemptOutcomeView::Retry => if left == 1 {
                s matches UdpState::Finished(Err(_))
            } else {
                s == UdpState::Trying((left - 1) as u32)
            },
        },
        s matches UdpState::Finished(r) ==> match event {
            AttemptEvent::Setup(e) => r == Err::<Message, QueryError>(QueryError::Io(e)),
            AttemptEvent::Send(e) => r == Err::<Message, QueryError>(QueryError::Io(e)),
            AttemptEvent::Recv(e) => r == Err::<Message, QueryError>(QueryError::Io(e)),
            AttemptEvent::Reply(bytes) => match parse_message(bytes@) {
                Err(e) => r == Err::<Message, QueryError>(QueryError::Decode(e)),
                Ok(m) => if m.header.id != expected_id {
                    r == Err::<Message, QueryError>(QueryError::IdMismatch)
                } else {
                    r matches Ok(msg) && msg@ == m
                },
            },
        },
{
    match attempt_outcome(expected_id, event) {
        AttemptOutcome::Finish(r) => UdpState::Finished(r),
        AttemptOutcome::Retry(e) => {
            if left == 1 {
                UdpState::Finished(Err(e))
            } else {
                UdpState::Trying(left - 1)
            }
        },
    }
}

/// Whether an attempt ends the query or is retried.
pub enum AttemptOutcomeView {
    Finish,
    Retry,
}

pub open spec fn attempt_outcome_spec(expected_id: u16, event: AttemptEvent) -> AttemptOutcomeView {
    match event {
        AttemptEvent::Setup(_) => AttemptOutcomeView::Finish,
        AttemptEvent::Send(_) => AttemptOutcomeView::Retry,
        AttemptEvent::Recv(_) => AttemptOutcomeView::Retry,
        AttemptEvent::Reply(bytes) => match parse_message(bytes@) {
            Err(_) => AttemptOutcomeView::Retry,
            Ok(m) => if m.header.id != expected_id {
                AttemptOutcomeView::Retry
            } else {
                AttemptOutcomeView::Finish
            },
        },
    }
}

} // verus!
