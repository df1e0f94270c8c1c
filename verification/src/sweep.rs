//! The port sweep: which ports to try on a host, what to do once a port
//! answers, and the pacing between attempts.

use vstd::prelude::*;

use crate::model::{Negotiated, PortScan, ScanState, ServedCert};
use crate::strs::{chars_of, lower, lower_ascii, starts_with_str};

verus! {

#[derive(Debug, Clone, Copy, PartialEq, Eq, Structural)]
pub enum PortKind {
    /// TLS from the first byte.
    DirectTls,
    /// A plain-text greeting upgraded with STARTTLS.
    StartTls,
}

/// The most ports tried on one host.
pub const PORT_CAP: usize = 5;

/// The characters before the first '.', or the whole name without one.
pub open spec fn before_dot(name: Seq<char>) -> Seq<char> {
    if exists|i: int| 0 <= i < name.len() && name[i] == '.' {
        let i = choose|i: int|
            0 <= i < name.len() && name[i] == '.' && forall|j: int| 0 <= j < i ==> name[j] != '.';
        name.take(i)
    } else {
        name
    }
}

pub open spec fn starts_any(label: Seq<char>, prefixes: Seq<Seq<char>>) -> bool {
    exists|k: int| 0 <= k < prefixes.len() && prefixes[k].is_prefix_of(label)
}

pub open spec fn web_ports() -> Seq<(u16, PortKind)> {
    seq![
        (8443u16, PortKind::DirectTls),
        (9443u16, PortKind::DirectTls),
        (4443u16, PortKind::DirectTls),
        (8843u16, PortKind::DirectTls),
        (10000u16, PortKind::DirectTls),
    ]
}

/// The ports of the service family a host name announces, or `None` for a
/// name of no known family.
pub open spec fn family_ports(label: Seq<char>, is_mx: bool) -> Option<Seq<(u16, PortKind)>> {
    if is_mx || starts_any(label, seq!["smtp"@, "mx"@, "mailrelay"@, "mailout"@, "post"@]) {
        Some(seq![(465u16, PortKind::DirectTls), (587u16, PortKind::StartTls), (25u16, PortKind::StartTls)])
    } else if starts_any(label, seq!["imap"@, "webmail"@, "mail"@]) {
        Some(
            seq![
                (993u16, PortKind::DirectTls),
                (995u16, PortKind::DirectTls),
                (465u16, PortKind::DirectTls),
                (587u16, PortKind::StartTls),
            ],
        )
    } else if "pop"@.is_prefix_of(label) {
        Some(seq![(995u16, PortKind::DirectTls)])
    } else if starts_any(label, seq!["sip"@, "sips"@]) {
        Some(seq![(5061u16, PortKind::DirectTls)])
    } else if starts_any(label, seq!["ldap"@, "ldaps"@, "directory"@]) {
        Some(seq![(636u16, PortKind::DirectTls)])
    } else if starts_any(label, seq!["mqtt"@, "broker"@]) {
        Some(seq![(8883u16, PortKind::DirectTls)])
    } else if starts_any(label, seq!["xmpp"@, "jabber"@, "conference"@, "chat"@]) {
        Some(seq![(5222u16, PortKind::StartTls), (5223u16, PortKind::DirectTls)])
    } else {
        None
    }
}

pub open spec fn capped<T>(s: Seq<T>) -> Seq<T> {
    if s.len() > PORT_CAP {
        s.take(PORT_CAP as int)
    } else {
        s
    }
}

/// The ports to sweep on a host: those of the family its first label (or
/// being a mail exchanger) announces, else the configured generic ports,
/// else the common alternative HTTPS ports; never more than `PORT_CAP`.
pub open spec fn sweep_ports(name: Seq<char>, generic: Seq<u16>, is_mx: bool) -> Seq<(u16, PortKind)> {
    match family_ports(lower_ascii(before_dot(name)), is_mx) {
        Some(t) => capped(t),
        None => if generic.len() == 0 {
            capped(web_ports())
        } else {
            capped(generic.map_values(|p: u16| (p, PortKind::DirectTls)))
        },
    }
}

fn first_label_of(name: &str) -> (r: Vec<char>)
    ensures
        r@ == lower_ascii(before_dot(name@)),
{
    let c = chars_of(name);
    let mut i: usize = 0;
    while i < c.len() && c[i] != '.'
        invariant
            i <= c.len(),
            c@ == name@,
            forall|j: int| 0 <= j < i ==> c@[j] != '.',
        decreases c.len() - i,
    {
        i = i + 1;
    }
    let mut head: Vec<char> = Vec::new();
    let mut k: usize = 0;
    while k < i
        invariant
            k <= i,
            i <= c.len(),
            head@ == c@.take(k as int),
        decreases i - k,
    {
        head.push(c[k]);
        k = k + 1;
        assert(head@ =~= c@.take(k as int));
    }
    proof {
        if i < c.len() {
            assert(c@[i as int] == '.');
            let w = choose|w: int|
                0 <= w < name@.len() && name@[w] == '.' && forall|j: int| 0 <= j < w ==> name@[j] != '.';
            assert(w == i) by {
                if w < i {
                    assert(c@[w] != '.');
                } else if w > i {
                    assert(name@[i as int] == '.');
                }
            }
        } else {
            assert(c@.take(i as int) =~= c@);
            assert(!exists|j: int| 0 <= j < name@.len() && name@[j] == '.');
        }
    }
    lower(&head)
}

fn starts_with_any(label: &Vec<char>, prefixes: &Vec<&str>) -> (r: bool)
    ensures
        r == starts_any(label@, prefixes@.map_values(|p: &str| p@)),
{
    let ghost ps = prefixes@.map_values(|p: &str| p@);
    let mut k: usize = 0;
    while k < prefixes.len()
        invariant
            k <= prefixes.len(),
            ps == prefixes@.map_values(|p: &str| p@),
            forall|t: int| 0 <= t < k ==> !(#[trigger] ps[t]).is_prefix_of(label@),
        decreases prefixes.len() - k,
    {
        if starts_with_str(label, prefixes[k]) {
            assert(ps[k as int].is_prefix_of(label@));
            return true;
        }
        k = k + 1;
    }
    false
}

fn take_capped(table: Vec<(u16, PortKind)>) -> (r: Vec<(u16, PortKind)>)
    ensures
        r@ == capped(table@),
{
    let mut out: Vec<(u16, PortKind)> = Vec::new();
    let mut i: usize = 0;
    while i < table.len() && i < PORT_CAP
        invariant
            i <= table.len(),
            i <= PORT_CAP,
            out@ == table@.take(i as int),
        decreases table.len() - i,
    {
        out.push(table[i]);
        i = i + 1;
        assert(out@ =~= table@.take(i as int));
    }
    assert(out@ =~= capped(table@));
    out
}

/// The ports to sweep on `name`, each with how TLS starts on it.
pub fn ports_for_host(name: &str, generic_override: &[u16], is_mx: bool) -> (r: Vec<(u16, PortKind)>)
    ensures
        r@ == sweep_ports(name@, generic_override@, is_mx),
        r@.len() <= PORT_CAP,
{
    let label = first_label_of(name);
    let pa = vec!["smtp", "mx", "mailrelay", "mailout", "post"];
    let pb = vec!["imap", "webmail", "mail"];
    let pc = vec!["sip", "sips"];
    let pd = vec!["ldap", "ldaps", "directory"];
    let pe = vec!["mqtt", "broker"];
    let pf = vec!["xmpp", "jabber", "conference", "chat"];
    proof {
        assert(pa@.map_values(|p: &str| p@) =~= seq!["smtp"@, "mx"@, "mailrelay"@, "mailout"@, "post"@]);
        assert(pb@.map_values(|p: &str| p@) =~= seq!["imap"@, "webmail"@, "mail"@]);
        assert(pc@.map_values(|p: &str| p@) =~= seq!["sip"@, "sips"@]);
        assert(pd@.map_values(|p: &str| p@) =~= seq!["ldap"@, "ldaps"@, "directory"@]);
        assert(pe@.map_values(|p: &str| p@) =~= seq!["mqtt"@, "broker"@]);
        assert(pf@.map_values(|p: &str| p@) =~= seq!["xmpp"@, "jabber"@, "conference"@, "chat"@]);
    }
    let table: Vec<(u16, PortKind)> = if is_mx || starts_with_any(&label, &pa) {
        vec![(465, PortKind::DirectTls), (587, PortKind::StartTls), (25, PortKind::StartTls)]
    } else if starts_with_any(&label, &pb) {
        vec![
            (993, PortKind::DirectTls),
            (995, PortKind::DirectTls),
            (465, PortKind::DirectTls),
            (587, PortKind::StartTls),
        ]
    } else if starts_with_str(&label, "pop") {
        vec![(995, PortKind::DirectTls)]
    } else if starts_with_any(&label, &pc) {
        vec![(5061, PortKind::DirectTls)]
    } else if starts_with_any(&label, &pd) {
        vec![(636, PortKind::DirectTls)]
    } else if starts_with_any(&label, &pe) {
        vec![(8883, PortKind::DirectTls)]
    } else if starts_with_any(&label, &pf) {
        vec![(5222, PortKind::StartTls), (5223, PortKind::DirectTls)]
    } else if generic_override.len() == 0 {
        vec![
            (8443, PortKind::DirectTls),
            (9443, PortKind::DirectTls),
            (4443, PortKind::DirectTls),
            (8843, PortKind::DirectTls),
            (10000, PortKind::DirectTls),
        ]
    } else {
        let mut v: Vec<(u16, PortKind)> = Vec::new();
        let mut i: usize = 0;
        while i < generic_override.len()
            invariant
                i <= generic_override.len(),
                v@ == generic_override@.take(i as int).map_values(|p: u16| (p, PortKind::DirectTls)),
            decreases generic_override.len() - i,
        {
            v.push((generic_override[i], PortKind::DirectTls));
            i = i + 1;
            assert(v@ =~= generic_override@.take(i as int).map_values(|p: u16| (p, PortKind::DirectTls)));
        }
        assert(generic_override@.take(i as int) =~= generic_override@);
        v
    };
    let r = take_capped(table);
    r
}

/// What to do on a port once it answered the connection attempt.
#[derive(Debug, Clone, Copy, PartialEq, Eq, Structural)]
pub enum FollowUp {
    /// Nothing more: the port is not open.
    Nothing,
    /// A TLS handshake on the port.
    Handshake,
    /// An SMTP STARTTLS upgrade on the port.
    SmtpStartTls,
    /// Open, but no upgrade this sweep knows for it.
    OpenOnly,
}

pub open spec fn follow_up_of(state: ScanState, kind: PortKind, port: u16) -> FollowUp {
    if state != ScanState::Open {
        FollowUp::Nothing
    } else if kind == PortKind::DirectTls {
        FollowUp::Handshake
    } else if port == 25 || port == 587 {
        FollowUp::SmtpStartTls
    } else {
        FollowUp::OpenOnly
    }
}

/// The step after the connection attempt on a port.
pub fn follow_up(state: ScanState, kind: PortKind, port: u16) -> (r: FollowUp)
    ensures
        r == follow_up_of(state, kind, port),
{
    if !matches!(state, ScanState::Open) {
        FollowUp::Nothing
    } else if matches!(kind, PortKind::DirectTls) {
        FollowUp::Handshake
    } else if port == 25 || port == 587 {
        FollowUp::SmtpStartTls
    } else {
        FollowUp::OpenOnly
    }
}

/// Whether the step after the connection attempt is a handshake of some
/// kind, direct or after STARTTLS.
pub open spec fn upgrades(state: ScanState, kind: PortKind, port: u16) -> bool {
    follow_up_of(state, kind, port) == FollowUp::Handshake || follow_up_of(state, kind, port)
        == FollowUp::SmtpStartTls
}

/// The scan of one port: its state, the time of the attempt, and the
/// certificate and crypto of the handshake that followed it up, kept only
/// when a handshake was due and succeeded.
pub open spec fn scan_of(
    port: u16,
    kind: PortKind,
    state: ScanState,
    at: i64,
    upgrade: Option<(Option<ServedCert>, Option<Negotiated>)>,
) -> PortScan {
    match upgrade {
        Some(u) => if upgrades(state, kind, port) {
            PortScan { port, state, served: u.0, negotiated: u.1, observed_at: Some(at) }
        } else {
            PortScan { port, state, served: None, negotiated: None, observed_at: Some(at) }
        },
        None => PortScan { port, state, served: None, negotiated: None, observed_at: Some(at) },
    }
}

/// The scan of one port, from the connection attempt made at `at` and what
/// following it up gave (`None` when nothing succeeded).
pub fn port_scan(
    port: u16,
    kind: PortKind,
    state: ScanState,
    at: i64,
    upgrade: Option<(Option<ServedCert>, Option<Negotiated>)>,
) -> (r: PortScan)
    ensures
        r == scan_of(port, kind, state, at, upgrade),
{
    let due = match follow_up(state, kind, port) {
        FollowUp::Handshake | FollowUp::SmtpStartTls => true,
        FollowUp::Nothing | FollowUp::OpenOnly => false,
    };
    match upgrade {
        Some(u) => if due {
            PortScan { port, state, served: u.0, negotiated: u.1, observed_at: Some(at) }
        } else {
            PortScan { port, state, served: None, negotiated: None, observed_at: Some(at) }
        },
        None => PortScan { port, state, served: None, negotiated: None, observed_at: Some(at) },
    }
}

/// The scans of a host's sweep, one per port tried and in the order tried,
/// from what each attempt gave: its state, its time and the follow-up's
/// result.
pub fn sweep_scans(
    ports: &Vec<(u16, PortKind)>,
    results: Vec<(ScanState, i64, Option<(Option<ServedCert>, Option<Negotiated>)>)>,
) -> (r: Vec<PortScan>)
    requires
        results@.len() == ports@.len(),
    ensures
        r@.len() == ports@.len(),
        forall|i: int|
            0 <= i < r@.len() ==> #[trigger] r@[i] == scan_of(
                ports@[i].0,
                ports@[i].1,
                results@[i].0,
                results@[i].1,
                results@[i].2,
            ),
{
    let ghost all = results@;
    let mut rest = results;
    let mut out: Vec<PortScan> = Vec::new();
    let mut i: usize = 0;
    while i < ports.len()
        invariant
            i <= ports@.len(),
            all.len() == ports@.len(),
            rest@ == all.subrange(i as int, all.len() as int),
            out@.len() == i,
            forall|t: int|
                0 <= t < i ==> #[trigger] out@[t] == scan_of(ports@[t].0, ports@[t].1, all[t].0, all[t].1, all[t].2),
        decreases ports@.len() - i,
    {
        let (state, at, upgrade) = rest.remove(0);
        assert(all[i as int] == (state, at, upgrade));
        let (port, kind) = ports[i];
        out.push(port_scan(port, kind, state, at, upgrade));
        i = i + 1;
        assert(rest@ =~= all.subrange(i as int, all.len() as int));
    }
    out
}

/// The pause before the next attempt, in milliseconds: three quarters of
/// the base and a jitter below half of it, taken from the clock's
/// sub-second nanoseconds.
pub fn pacing(base_ms: u64, nanos: u64) -> (r: u64)
    requires
        base_ms <= u64::MAX / 3,
    ensures
        r == base_ms * 3 / 4 + nanos % (if base_ms / 2 > 1 {
            base_ms / 2
        } else {
            1
        }),
{
    let m = if base_ms / 2 > 1 {
        base_ms / 2
    } else {
        1
    };
    base_ms * 3 / 4 + nanos % m
}

} // verus!
