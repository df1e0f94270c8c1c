//! Live probing: how connection and handshake failures are classified, what
//! each classification makes of the endpoint, and when a recorded probe may
//! be reused.

use vstd::prelude::*;

use crate::model::{failed_endpoint, DnsStatus, Endpoint, IpAddress, Negotiated, PortScan, ProbeStatus, ServedCert};

verus! {

/// Why a probe attempt failed.
#[derive(Debug)]
pub enum Failure {
    TcpRefused,
    TcpUnreachable,
    Timeout,
    Handshake(String),
    ClosedNoCert(String),
    Unknown(String),
}

/// The kinds of I/O error the probe tells apart.
#[derive(Debug, Clone, Copy, PartialEq, Eq, Structural)]
pub enum IoKind {
    ConnectionRefused,
    NetworkUnreachable,
    HostUnreachable,
    AddrNotAvailable,
    NotConnected,
    NetworkDown,
    TimedOut,
    WouldBlock,
    UnexpectedEof,
    Other,
}

/// An I/O error as the probe reads it: its kind and its message.
#[derive(Debug, Clone)]
pub struct IoError {
    pub kind: IoKind,
    pub text: String,
}

/// A connection failure by kind: refused, unreachable, timed out, or
/// something else described by `text`.
pub open spec fn connect_failure_spec(kind: IoKind, text: String) -> Failure {
    match kind {
        IoKind::ConnectionRefused => Failure::TcpRefused,
        IoKind::NetworkUnreachable | IoKind::HostUnreachable | IoKind::AddrNotAvailable
        | IoKind::NotConnected | IoKind::NetworkDown => Failure::TcpUnreachable,
        IoKind::TimedOut | IoKind::WouldBlock => Failure::Timeout,
        _ => Failure::Unknown(text),
    }
}

pub fn connect_failure(kind: IoKind, text: String) -> (r: Failure)
    ensures
        r == connect_failure_spec(kind, text),
{
    match kind {
        IoKind::ConnectionRefused => Failure::TcpRefused,
        IoKind::NetworkUnreachable | IoKind::HostUnreachable | IoKind::AddrNotAvailable
        | IoKind::NotConnected | IoKind::NetworkDown => Failure::TcpUnreachable,
        IoKind::TimedOut | IoKind::WouldBlock => Failure::Timeout,
        _ => Failure::Unknown(text),
    }
}

/// A failure while the handshake ran: a clean close before any certificate,
/// a timeout, or a broken handshake described by `text`.
pub open spec fn handshake_failure_spec(kind: IoKind, text: String) -> Failure {
    match kind {
        IoKind::UnexpectedEof => Failure::ClosedNoCert(text),
        IoKind::TimedOut | IoKind::WouldBlock => Failure::Timeout,
        _ => Failure::Handshake(text),
    }
}

pub fn handshake_failure(kind: IoKind, text: String) -> (r: Failure)
    ensures
        r == handshake_failure_spec(kind, text),
{
    match kind {
        IoKind::UnexpectedEof => Failure::ClosedNoCert(text),
        IoKind::TimedOut | IoKind::WouldBlock => Failure::Timeout,
        _ => Failure::Handshake(text),
    }
}

/// Classifies a failed TCP connection by the error's kind; the message is
/// kept for a failure of no known kind.
pub fn classify_io(e: &IoError) -> (r: Failure)
    ensures
        r == connect_failure_spec(e.kind, e.text),
{
    connect_failure(e.kind, e.text.clone())
}

/// Classifies an I/O failure during the handshake by the error's kind; the
/// message is kept for a close without certificate and for a broken
/// handshake.
pub fn classify_handshake(e: IoError) -> (r: Failure)
    ensures
        r == handshake_failure_spec(e.kind, e.text),
{
    handshake_failure(e.kind, e.text)
}

/// What a failed first attempt leads to.
#[derive(Debug)]
pub enum FailureAction {
    /// The endpoint is recorded with this status.
    Record(ProbeStatus),
    /// A handshake failure: the legacy TLS stack gets a try.
    Fallback,
}

pub fn failure_action(f: Failure, timeout_secs: u64) -> (r: FailureAction)
    ensures
        r == match f {
            Failure::TcpRefused => FailureAction::Record(ProbeStatus::TcpRefused),
            Failure::TcpUnreachable => FailureAction::Record(ProbeStatus::TcpUnreachable),
            Failure::Timeout => FailureAction::Record(ProbeStatus::Timeout { secs: timeout_secs }),
            Failure::ClosedNoCert(_) => FailureAction::Record(ProbeStatus::ConnectedNoCert),
            Failure::Unknown(reason) => FailureAction::Record(ProbeStatus::Unknown { reason }),
            Failure::Handshake(_) => FailureAction::Fallback,
        },
{
    match f {
        Failure::TcpRefused => FailureAction::Record(ProbeStatus::TcpRefused),
        Failure::TcpUnreachable => FailureAction::Record(ProbeStatus::TcpUnreachable),
        Failure::Timeout => FailureAction::Record(ProbeStatus::Timeout { secs: timeout_secs }),
        Failure::ClosedNoCert(_) => FailureAction::Record(ProbeStatus::ConnectedNoCert),
        Failure::Unknown(reason) => FailureAction::Record(ProbeStatus::Unknown { reason }),
        Failure::Handshake(_) => FailureAction::Fallback,
    }
}

/// An endpoint whose handshake completed.
pub fn connected(ip: Option<IpAddress>, served: ServedCert, negotiated: Negotiated) -> (r: Endpoint)
    ensures
        r.status == ProbeStatus::Success,
        r.ip == ip,
        r.served == Some(served),
        !r.served_not_in_ct,
        r.negotiated == Some(negotiated),
        r.observed_at is None,
{
    Endpoint {
        status: ProbeStatus::Success,
        ip,
        served: Some(served),
        served_not_in_ct: false,
        negotiated: Some(negotiated),
        observed_at: None,
    }
}

/// How the legacy TLS attempt ended.
#[derive(Debug)]
pub enum FallbackOutcome {
    TimedOut,
    TaskFailed(String),
    Connected(ServedCert, Negotiated),
    Refused(String),
}

/// The endpoint the legacy TLS attempt gives.
pub fn fallback_endpoint(ip: Option<IpAddress>, outcome: FallbackOutcome, timeout_secs: u64) -> (r: Endpoint)
    ensures
        match outcome {
            FallbackOutcome::TimedOut => r == failed_endpoint(ProbeStatus::Timeout { secs: timeout_secs }),
            FallbackOutcome::TaskFailed(reason) => r == failed_endpoint(ProbeStatus::Unknown { reason }),
            FallbackOutcome::Connected(s, n) => {
                &&& r.status == ProbeStatus::Success
                &&& r.ip == ip
                &&& r.served == Some(s)
                &&& !r.served_not_in_ct
                &&& r.negotiated == Some(n)
                &&& r.observed_at is None
            },
            FallbackOutcome::Refused(_) => r == failed_endpoint(ProbeStatus::TlsHandshakeFailed),
        },
{
    match outcome {
        FallbackOutcome::TimedOut => Endpoint::failed(ProbeStatus::Timeout { secs: timeout_secs }),
        FallbackOutcome::TaskFailed(reason) => Endpoint::failed(ProbeStatus::Unknown { reason }),
        FallbackOutcome::Connected(s, n) => connected(ip, s, n),
        FallbackOutcome::Refused(_) => Endpoint::failed(ProbeStatus::TlsHandshakeFailed),
    }
}

/// The endpoint as recorded: at the address probed, observed now unless it
/// carries its own time.
pub fn stamp(ep: Endpoint, ip: Option<IpAddress>, now: i64) -> (r: Endpoint)
    ensures
        r.status == ep.status,
        r.ip == ip,
        r.served == ep.served,
        r.served_not_in_ct == ep.served_not_in_ct,
        r.negotiated == ep.negotiated,
        r.observed_at == if ep.observed_at is Some {
            ep.observed_at
        } else {
            Some(now)
        },
{
    let mut e = ep;
    e.ip = ip;
    if e.observed_at.is_none() {
        e.observed_at = Some(now);
    }
    e
}

/// Observed at most `ttl` seconds before `now` (a time ahead of `now` counts
/// as no age).
pub open spec fn fresh_at(observed_at: Option<i64>, ttl: u64, now: i64) -> bool {
    match observed_at {
        Some(t) => (if now - t > 0 {
            now - t
        } else {
            0
        }) <= ttl,
        None => false,
    }
}

fn fresh(observed_at: Option<i64>, ttl: u64, now: i64) -> (r: bool)
    ensures
        r == fresh_at(observed_at, ttl, now),
{
    match observed_at {
        Some(t) => {
            let d: i128 = now as i128 - t as i128;
            let age: i128 = if d > 0 {
                d
            } else {
                0
            };
            age <= ttl as i128
        },
        None => false,
    }
}

/// A recorded probe may be reused while younger than `ttl`; one without an
/// observation time never is.
pub fn is_fresh(endpoint: &Endpoint, ttl: u64, now: i64) -> (r: bool)
    ensures
        r == fresh_at(endpoint.observed_at, ttl, now),
{
    fresh(endpoint.observed_at, ttl, now)
}

/// A recorded port scan may be reused while younger than `ttl`.
pub fn scan_fresh(scan: &PortScan, ttl: u64, now: i64) -> (r: bool)
    ensures
        r == fresh_at(scan.observed_at, ttl, now),
{
    fresh(scan.observed_at, ttl, now)
}

/// The status of a name without address records, by DNS response code.
pub fn no_records_status(rcode: u16) -> (r: DnsStatus)
    ensures
        r == if rcode == 3 {
            DnsStatus::NxDomain
        } else if rcode == 0 {
            DnsStatus::NoData
        } else if rcode == 2 {
            DnsStatus::ServFail
        } else if rcode == 5 {
            DnsStatus::Refused
        } else {
            DnsStatus::Other
        },
{
    if rcode == 3 {
        DnsStatus::NxDomain
    } else if rcode == 0 {
        DnsStatus::NoData
    } else if rcode == 2 {
        DnsStatus::ServFail
    } else if rcode == 5 {
        DnsStatus::Refused
    } else {
        DnsStatus::Other
    }
}

} // verus!
