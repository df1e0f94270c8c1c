//! The decisions a run makes between its network steps: which probes to
//! reuse, which hosts to sweep and in what order, which ports to try, and
//! what to report of it.

use vstd::prelude::*;

use crate::model::{Endpoint, Host, PortScan, ProbeStatus};
use crate::probe::fresh_at;
use crate::sweep::{ports_for_host, sweep_ports, PortKind, PORT_CAP};

verus! {

// ---------------------------------------------------------------- probing

/// A recorded probe is reused only for a name that resolves, when it was
/// made at an address and is still fresh.
pub open spec fn reusable(resolves: bool, cached: Option<Endpoint>, ttl: u64, now: i64) -> bool {
    resolves && match cached {
        Some(ep) => ep.ip is Some && fresh_at(ep.observed_at, ttl, now),
        None => false,
    }
}

pub fn reuse_probe(resolves: bool, cached: &Option<Endpoint>, ttl: u64, now: i64) -> (r: bool)
    ensures
        r == reusable(resolves, *cached, ttl, now),
{
    if !resolves {
        return false;
    }
    match cached {
        Some(ep) => ep.ip.is_some() && crate::probe::is_fresh(ep, ttl, now),
        None => false,
    }
}

/// What becomes of a host's probe on the TLS port.
#[derive(Debug, Clone, Copy, PartialEq, Eq, Structural)]
pub enum ProbeStep {
    /// The recorded probe is taken as it is.
    Reuse,
    /// The host is probed anew at its address.
    Probe,
    /// The name does not resolve: the endpoint records a DNS failure.
    NoAddress,
}

/// A fresh recorded probe of a resolving name is reused; another resolving
/// name is probed; a name without an address is not.
pub fn probe_step(resolves: bool, cached: &Option<Endpoint>, ttl: u64, now: i64) -> (r: ProbeStep)
    ensures
        r == (if reusable(resolves, *cached, ttl, now) {
            ProbeStep::Reuse
        } else if resolves {
            ProbeStep::Probe
        } else {
            ProbeStep::NoAddress
        }),
{
    if reuse_probe(resolves, cached, ttl, now) {
        ProbeStep::Reuse
    } else if resolves {
        ProbeStep::Probe
    } else {
        ProbeStep::NoAddress
    }
}

/// How many probes were reused, how many made anew, and the age in seconds
/// of the oldest reused one.
pub open spec fn tally(results: Seq<(bool, Option<i64>)>, now: i64) -> (nat, nat, int)
    decreases results.len(),
{
    if results.len() == 0 {
        (0, 0, 0)
    } else {
        let (c, f, o) = tally(results.drop_last(), now);
        let (hit, at) = results.last();
        if hit {
            let age = match at {
                Some(t) => if now - t > 0 {
                    now - t
                } else {
                    0
                },
                None => 0,
            };
            (c + 1, f, if age > o {
                age
            } else {
                o
            })
        } else {
            (c, f + 1, o)
        }
    }
}

proof fn lemma_tally_bounds(results: Seq<(bool, Option<i64>)>, now: i64)
    ensures
        tally(results, now).0 + tally(results, now).1 == results.len(),
        0 <= tally(results, now).2 <= u64::MAX,
    decreases results.len(),
{
    if results.len() > 0 {
        lemma_tally_bounds(results.drop_last(), now);
    }
}

/// Counts the reused and the fresh probes and the oldest reused age.
pub fn probe_tally(results: &Vec<(bool, Option<i64>)>, now: i64) -> (r: (usize, usize, u64))
    ensures
        r.0 == tally(results@, now).0,
        r.1 == tally(results@, now).1,
        r.2 == tally(results@, now).2,
{
    let mut cached: usize = 0;
    let mut fresh: usize = 0;
    let mut oldest: u64 = 0;
    let mut i: usize = 0;
    while i < results.len()
        invariant
            i <= results.len(),
            (cached as nat, fresh as nat, oldest as int) == tally(results@.take(i as int), now),
        decreases results.len() - i,
    {
        assert(results@.take(i + 1).drop_last() =~= results@.take(i as int));
        proof {
            lemma_tally_bounds(results@.take(i as int), now);
        }
        let (hit, at) = results[i];
        if hit {
            let age: u64 = match at {
                Some(t) => {
                    let d: i128 = now as i128 - t as i128;
                    if d > 0 {
                        d as u64
                    } else {
                        0
                    }
                },
                None => 0,
            };
            cached = cached + 1;
            if age > oldest {
                oldest = age;
            }
        } else {
            fresh = fresh + 1;
        }
        i = i + 1;
    }
    assert(results@.take(results.len() as int) =~= results@);
    (cached, fresh, oldest)
}

// ---------------------------------------------------------------- sweeping

/// A host is swept when it resolves and its probe on 443 was refused, found
/// unreachable or timed out.
pub open spec fn sweepable(resolves: bool, h: Host) -> bool {
    resolves && match h.endpoint {
        Some(e) => e.status is TcpRefused || e.status is TcpUnreachable || e.status is Timeout,
        None => false,
    }
}

pub fn sweep_candidate(resolves: bool, host: &Host) -> (r: bool)
    ensures
        r == sweepable(resolves, *host),
{
    if !resolves {
        return false;
    }
    match &host.endpoint {
        Some(e) => matches!(
            e.status,
            ProbeStatus::TcpRefused | ProbeStatus::TcpUnreachable | ProbeStatus::Timeout { .. }
        ),
        None => false,
    }
}

/// The ports to sweep on a host: its family's, unless ports were named, in
/// which case the first of those, each as direct TLS.
pub open spec fn planned(explicit: Seq<u16>, name: Seq<char>, generic: Seq<u16>, is_mx: bool) -> Seq<(u16, PortKind)> {
    if explicit.len() == 0 {
        sweep_ports(name, generic, is_mx)
    } else {
        crate::sweep::capped(explicit.map_values(|p: u16| (p, PortKind::DirectTls)))
    }
}

pub fn planned_ports(explicit: &[u16], name: &str, generic: &[u16], is_mx: bool) -> (r: Vec<(u16, PortKind)>)
    ensures
        r@ == planned(explicit@, name@, generic@, is_mx),
        r@.len() <= PORT_CAP,
{
    if explicit.len() == 0 {
        return ports_for_host(name, generic, is_mx);
    }
    let mut v: Vec<(u16, PortKind)> = Vec::new();
    let mut i: usize = 0;
    while i < explicit.len() && i < PORT_CAP
        invariant
            i <= explicit.len(),
            i <= PORT_CAP,
            v@ == explicit@.take(i as int).map_values(|p: u16| (p, PortKind::DirectTls)),
        decreases explicit.len() - i,
    {
        v.push((explicit[i], PortKind::DirectTls));
        i = i + 1;
        assert(v@ =~= explicit@.take(i as int).map_values(|p: u16| (p, PortKind::DirectTls)));
    }
    assert(v@ =~= crate::sweep::capped(explicit@.map_values(|p: u16| (p, PortKind::DirectTls))));
    v
}

/// The multiplier and increment of the generator that orders the sweep.
pub open spec fn lcg(seed: u64) -> u64 {
    ((seed as int * 6364136223846793005int + 1) % 0x1_0000_0000_0000_0000int) as u64
}

pub open spec fn swapped(s: Seq<usize>, i: int, j: int) -> Seq<usize> {
    s.update(i, s[j]).update(j, s[i])
}

/// Fisher-Yates from position `i - 1` down to 1, each swap partner drawn
/// from the generator.
pub open spec fn shuffle_from(s: Seq<usize>, seed: u64, i: nat) -> Seq<usize>
    decreases i,
{
    if i <= 1 {
        s
    } else {
        let k = (i - 1) as nat;
        let sd = lcg(seed);
        let j = ((sd >> 33u64) as nat) % (k + 1);
        shuffle_from(swapped(s, k as int, j as int), sd, k)
    }
}

/// The order in which `n` hosts are swept, from a clock-derived seed, so
/// that repeated runs do not hit hosts in the same order.
pub open spec fn sweep_order(n: nat, seed: u64) -> Seq<usize> {
    shuffle_from(Seq::new(n, |k: int| k as usize), seed, n)
}

#[verifier::spinoff_prover]
pub fn shuffle_order(n: usize, seed: u64) -> (r: Vec<usize>)
    ensures
        r@ == sweep_order(n as nat, seed),
        r@.len() == n,
{
    let mut v: Vec<usize> = Vec::new();
    let mut k: usize = 0;
    while k < n
        invariant
            k <= n,
            v@ == Seq::new(k as nat, |q: int| q as usize),
        decreases n - k,
    {
        v.push(k);
        k = k + 1;
        assert(v@ =~= Seq::new(k as nat, |q: int| q as usize));
    }
    let mut s = seed;
    let mut i = n;
    while i > 1
        invariant
            i <= n,
            v@.len() == n,
            sweep_order(n as nat, seed) == shuffle_from(v@, s, i as nat),
        decreases i,
    {
        i = i - 1;
        let ghost prev = s;
        let ghost before = v@;
        s = s.wrapping_mul(6364136223846793005).wrapping_add(1);
        assert(s == lcg(prev));
        assert(s >> 33u64 <= 0xffff_ffffu64) by (bit_vector);
        let j = ((s >> 33) as usize) % (i + 1);
        assert(j as nat == ((s >> 33u64) as nat) % (i as nat + 1));
        let a = v[i];
        let b = v[j];
        v.set(i, b);
        v.set(j, a);
        assert(v@ =~= swapped(before, i as int, j as int));
        assert(shuffle_from(before, prev, (i + 1) as nat) == shuffle_from(v@, s, i as nat));
    }
    v
}

/// Scans that were not taken from the record: those of a port the record
/// lacks or holds with another observation time.
pub open spec fn fresh_count(scans: Seq<PortScan>, cached: Seq<PortScan>) -> nat
    decreases scans.len(),
{
    if scans.len() == 0 {
        0
    } else {
        let s = scans.last();
        fresh_count(scans.drop_last(), cached) + match first_scan(cached, s.port) {
            Some(c) => if c.observed_at != s.observed_at {
                1nat
            } else {
                0nat
            },
            None => 1nat,
        }
    }
}

/// The first recorded scan of a port.
pub open spec fn first_scan(cached: Seq<PortScan>, port: u16) -> Option<PortScan>
    decreases cached.len(),
{
    if cached.len() == 0 {
        None
    } else if cached[0].port == port {
        Some(cached[0])
    } else {
        first_scan(cached.drop_first(), port)
    }
}

/// The position of the first recorded scan of `port`: a sweep reuses it
/// rather than scanning the port again.
pub fn find_scan(cached: &Vec<PortScan>, port: u16) -> (r: Option<usize>)
    ensures
        match r {
            Some(i) => i < cached.len() && first_scan(cached@, port) == Some(cached@[i as int]),
            None => first_scan(cached@, port) is None,
        },
{
    let mut i: usize = 0;
    assert(cached@.skip(0) =~= cached@);
    while i < cached.len()
        invariant
            i <= cached.len(),
            first_scan(cached@, port) == first_scan(cached@.skip(i as int), port),
        decreases cached.len() - i,
    {
        assert(cached@.skip(i as int)[0] == cached@[i as int]);
        if cached[i].port == port {
            return Some(i);
        }
        assert(cached@.skip(i as int).drop_first() =~= cached@.skip(i + 1));
        i = i + 1;
    }
    None
}

proof fn lemma_fresh_bounded(scans: Seq<PortScan>, cached: Seq<PortScan>)
    ensures
        fresh_count(scans, cached) <= scans.len(),
    decreases scans.len(),
{
    if scans.len() > 0 {
        lemma_fresh_bounded(scans.drop_last(), cached);
    }
}

/// The number of scans made anew rather than reused.
pub fn fresh_scans(scans: &Vec<PortScan>, cached: &Vec<PortScan>) -> (r: usize)
    ensures
        r == fresh_count(scans@, cached@),
        r <= scans@.len(),
{
    let mut n: usize = 0;
    let mut i: usize = 0;
    while i < scans.len()
        invariant
            i <= scans.len(),
            n == fresh_count(scans@.take(i as int), cached@),
        decreases scans.len() - i,
    {
        assert(scans@.take(i + 1).drop_last() =~= scans@.take(i as int));
        proof {
            lemma_fresh_bounded(scans@.take(i as int), cached@);
        }
        let s = &scans[i];
        match find_scan(cached, s.port) {
            Some(k) => {
                if cached[k].observed_at != s.observed_at {
                    n = n + 1;
                }
            },
            None => {
                n = n + 1;
            },
        }
        i = i + 1;
    }
    assert(scans@.take(scans.len() as int) =~= scans@);
    proof {
        lemma_fresh_bounded(scans@, cached@);
    }
    n
}

} // verus!
