//! Assembling a domain state: the CT counts, the host set with how each name
//! was found, and the correlation of live certificates with CT.

use vstd::prelude::*;

use crate::ct::{cert_refs, is_wildcard, is_wildcard_name, ref_views, refs_for};
use crate::dns::{in_domain, within};
use crate::model::{
    cert_keys, future_at, future_valid, host_keys, CertRef, Certificate, CtStats, DnsRef, DnsStatus, Endpoint, Host,
    IpAddress, MxRecord, Origins, PortScan, ServedCert, SrvRecord,
};
use crate::strs::{
    lemma_views_push, chars_of, lemma_lex_irrefl, lemma_lex_total, lemma_lex_trans, less, eq_chars, lex_lt,
    opt_string, sorted_strict, views,
};

verus! {

/// Why a domain state could not be assembled.
#[derive(Debug)]
pub enum Error {
    Ct(crate::fetch::Error),
    Resolver(String),
    Join,
}

impl Error {
    /// The message shown for the error.
    pub fn message(&self) -> (r: String)
        ensures
            r@ == match self {
                Error::Ct(e) => match e {
                    crate::fetch::Error::NoCtData => "unable to retrieve CT data and no usable cache exists"@,
                    crate::fetch::Error::CtParse(m) => "invalid CT data: "@ + m@,
                    crate::fetch::Error::Join => "task join failed"@,
                },
                Error::Resolver(m) => "DNS resolver unavailable: "@ + m@,
                Error::Join => "task join failed"@,
            },
    {
        match self {
            Error::Ct(e) => e.message(),
            Error::Resolver(m) => crate::strs::concat("DNS resolver unavailable: ", m.as_str()),
            Error::Join => crate::strs::own("task join failed"),
        }
    }
}

// ---------------------------------------------------------------- CT counts

pub open spec fn count_valid(cs: Seq<Certificate>) -> nat
    decreases cs.len(),
{
    if cs.len() == 0 {
        0
    } else {
        count_valid(cs.drop_last()) + if cs.last().currently_valid {
            1nat
        } else {
            0nat
        }
    }
}

pub open spec fn count_future(cs: Seq<Certificate>, now: i64) -> nat
    decreases cs.len(),
{
    if cs.len() == 0 {
        0
    } else {
        count_future(cs.drop_last(), now) + if !cs.last().currently_valid && future_at(
            cs.last().not_before,
            now,
        ) {
            1nat
        } else {
            0nat
        }
    }
}

proof fn lemma_counts_bounded(cs: Seq<Certificate>, now: i64)
    ensures
        count_valid(cs) <= cs.len(),
        count_future(cs, now) <= cs.len(),
    decreases cs.len(),
{
    if cs.len() > 0 {
        lemma_counts_bounded(cs.drop_last(), now);
    }
}

/// The number of records, of those valid now, and of those not valid yet.
pub fn ct_stats(certs: &Vec<Certificate>, now: i64) -> (r: CtStats)
    ensures
        r.rows == certs.len(),
        r.valid == count_valid(certs@),
        r.future == count_future(certs@, now),
{
    let mut stats = CtStats { rows: certs.len(), valid: 0, future: 0 };
    let mut i: usize = 0;
    while i < certs.len()
        invariant
            i <= certs.len(),
            stats.rows == certs.len(),
            stats.valid == count_valid(certs@.subrange(0, i as int)),
            stats.future == count_future(certs@.subrange(0, i as int), now),
        decreases certs.len() - i,
    {
        assert(certs@.subrange(0, i + 1).drop_last() =~= certs@.subrange(0, i as int));
        proof {
            lemma_counts_bounded(certs@.subrange(0, i as int), now);
        }
        let c = &certs[i];
        if c.currently_valid {
            stats.valid = stats.valid + 1;
        } else if future_valid(c.not_before, now) {
            stats.future = stats.future + 1;
        }
        i = i + 1;
    }
    assert(certs@.subrange(0, certs.len() as int) =~= certs@);
    stats
}

// ---------------------------------------------------------------- the host set

/// A discovery of a name: the origin flags it brings and, for an SRV
/// target, the service that names it.
pub type Sighting = (Seq<char>, u8, Option<Seq<char>>);

/// The concrete names among identities, each seen by CT.
pub open spec fn ct_sightings(ids: Seq<Seq<char>>) -> Seq<Sighting>
    decreases ids.len(),
{
    if ids.len() == 0 {
        Seq::empty()
    } else if is_wildcard_name(ids.last()) {
        ct_sightings(ids.drop_last())
    } else {
        ct_sightings(ids.drop_last()).push((ids.last(), 1u8, None))
    }
}

/// The concrete identities of the currently valid certificates, in order.
pub open spec fn cert_sightings(cs: Seq<Certificate>) -> Seq<Sighting>
    decreases cs.len(),
{
    if cs.len() == 0 {
        Seq::empty()
    } else if cs.last().currently_valid {
        cert_sightings(cs.drop_last()) + ct_sightings(views(cs.last().identities@))
    } else {
        cert_sightings(cs.drop_last())
    }
}

/// The targets of SRV records inside the domain, seen by DNS.
pub open spec fn srv_sightings(srv: Seq<SrvRecord>, domain: Seq<char>) -> Seq<Sighting>
    decreases srv.len(),
{
    if srv.len() == 0 {
        Seq::empty()
    } else if within(srv.last().target@, domain) {
        srv_sightings(srv.drop_last(), domain).push((srv.last().target@, 2u8, Some(srv.last().service@)))
    } else {
        srv_sightings(srv.drop_last(), domain)
    }
}

/// The mail exchangers, seen by DNS.
pub open spec fn mx_sightings(mx: Seq<MxRecord>) -> Seq<Sighting>
    decreases mx.len(),
{
    if mx.len() == 0 {
        Seq::empty()
    } else {
        mx_sightings(mx.drop_last()).push((mx.last().target@, 2u8, None))
    }
}

/// Every sighting of a name, in discovery order: CT names, the apex, SRV
/// targets inside the domain, mail exchangers.
pub open spec fn sightings(
    domain: Seq<char>,
    certs: Seq<Certificate>,
    srv: Seq<SrvRecord>,
    mx: Seq<MxRecord>,
) -> Seq<Sighting> {
    cert_sightings(certs) + seq![(domain, 4u8, None)] + srv_sightings(srv, domain) + mx_sightings(mx)
}

pub open spec fn seen(ev: Seq<Sighting>, n: Seq<char>) -> bool {
    exists|i: int| 0 <= i < ev.len() && ev[i].0 == n
}

/// The origin flags that the sightings of `n` bring together.
pub open spec fn flags_for(ev: Seq<Sighting>, n: Seq<char>) -> u8
    decreases ev.len(),
{
    if ev.len() == 0 {
        0
    } else if ev.last().0 == n {
        flags_for(ev.drop_last(), n) | ev.last().1
    } else {
        flags_for(ev.drop_last(), n)
    }
}

/// The SRV services that name `n`, in order.
pub open spec fn services_for(ev: Seq<Sighting>, n: Seq<char>) -> Seq<Seq<char>>
    decreases ev.len(),
{
    if ev.len() == 0 {
        Seq::empty()
    } else if ev.last().0 == n && ev.last().2 is Some {
        services_for(ev.drop_last(), n).push(ev.last().2.unwrap())
    } else {
        services_for(ev.drop_last(), n)
    }
}

pub open spec fn srv_names(refs: Seq<DnsRef>) -> Seq<Seq<char>> {
    refs.map_values(
        |d: DnsRef|
            match d {
                DnsRef::Srv { service } => service@,
                DnsRef::Https => Seq::empty(),
            },
    )
}

/// A host as the sightings so far describe it, before resolution and
/// probing.
pub open spec fn sighted(h: Host, ev: Seq<Sighting>) -> bool {
    &&& h.origins.0 == flags_for(ev, h.name@)
    &&& srv_names(h.dns_refs@) == services_for(ev, h.name@)
    &&& forall|j: int| 0 <= j < h.dns_refs@.len() ==> (#[trigger] h.dns_refs@[j]) is Srv
    &&& h.resolves is None
    &&& h.dns_status is None
    &&& h.endpoint is None
    &&& h.ports@.len() == 0
}

/// One host per name sighted, ordered by name.
pub open spec fn hosts_of(hs: Seq<Host>, ev: Seq<Sighting>) -> bool {
    &&& sorted_strict(host_keys(hs))
    &&& forall|n: Seq<char>| #[trigger] host_keys(hs).contains(n) <==> seen(ev, n)
    &&& forall|i: int| 0 <= i < hs.len() ==> sighted(#[trigger] hs[i], ev) && hs[i].ct_refs@.len() == 0
}

fn find_host(hs: &Vec<Host>, name: &Vec<char>) -> (r: (bool, usize))
    requires
        sorted_strict(host_keys(hs@)),
    ensures
        r.1 <= hs.len(),
        r.0 ==> r.1 < hs.len() && hs@[r.1 as int].name@ == name@,
        !r.0 ==> !host_keys(hs@).contains(name@),
        !r.0 ==> forall|q: int| 0 <= q < r.1 ==> lex_lt(#[trigger] host_keys(hs@)[q], name@),
        !r.0 ==> forall|q: int| r.1 <= q < hs.len() ==> lex_lt(name@, #[trigger] host_keys(hs@)[q]),
{
    let ghost keys = host_keys(hs@);
    let mut p: usize = 0;
    while p < hs.len() && less(&chars_of(hs[p].name.as_str()), name)
        invariant
            p <= hs.len(),
            keys == host_keys(hs@),
            forall|q: int| 0 <= q < p ==> lex_lt(#[trigger] keys[q], name@),
        decreases hs.len() - p,
    {
        p = p + 1;
    }
    if p < hs.len() && eq_chars(&chars_of(hs[p].name.as_str()), name) {
        return (true, p);
    }
    proof {
        if p < hs.len() {
            lemma_lex_total(keys[p as int], name@);
        }
        assert forall|q: int| p <= q < hs.len() implies lex_lt(name@, #[trigger] keys[q]) by {
            if q > p {
                lemma_lex_trans(name@, keys[p as int], keys[q]);
            }
        }
        assert forall|q: int| 0 <= q < keys.len() implies #[trigger] keys[q] != name@ by {
            lemma_lex_irrefl(name@);
        }
    }
    (false, p)
}

proof fn lemma_sighting_push(ev: Seq<Sighting>, e: Sighting, n: Seq<char>)
    ensures
        flags_for(ev.push(e), n) == if e.0 == n {
            flags_for(ev, n) | e.1
        } else {
            flags_for(ev, n)
        },
        services_for(ev.push(e), n) == if e.0 == n && e.2 is Some {
            services_for(ev, n).push(e.2.unwrap())
        } else {
            services_for(ev, n)
        },
        seen(ev.push(e), n) == (seen(ev, n) || e.0 == n),
{
    assert(ev.push(e).drop_last() =~= ev);
    if seen(ev, n) {
        let i = choose|i: int| 0 <= i < ev.len() && ev[i].0 == n;
        assert(ev.push(e)[i] == ev[i]);
    }
    if e.0 == n {
        assert(ev.push(e)[ev.len() as int] == e);
    }
    if seen(ev.push(e), n) && e.0 != n {
        let i = choose|i: int| 0 <= i < ev.len() + 1 && ev.push(e)[i].0 == n;
        assert(i < ev.len());
        assert(ev[i] == ev.push(e)[i]);
    }
}

proof fn lemma_flags_absent(ev: Seq<Sighting>, n: Seq<char>)
    requires
        !seen(ev, n),
    ensures
        flags_for(ev, n) == 0,
        services_for(ev, n) == Seq::<Seq<char>>::empty(),
    decreases ev.len(),
{
    if ev.len() > 0 {
        assert(ev.drop_last().len() < ev.len());
        assert(!seen(ev.drop_last(), n)) by {
            if seen(ev.drop_last(), n) {
                let i = choose|i: int| 0 <= i < ev.drop_last().len() && ev.drop_last()[i].0 == n;
                assert(ev[i] == ev.drop_last()[i]);
            }
        }
        assert(ev.last().0 != n) by {
            if ev.last().0 == n {
                assert(ev[ev.len() - 1].0 == n);
            }
        }
        lemma_flags_absent(ev.drop_last(), n);
    }
}

proof fn lemma_host_keys_insert(hs: Seq<Host>, p: int, h: Host)
    requires
        0 <= p <= hs.len(),
    ensures
        host_keys(hs.insert(p, h)) == host_keys(hs).insert(p, h.name@),
{
    assert(host_keys(hs.insert(p, h)) =~= host_keys(hs).insert(p, h.name@));
}

proof fn lemma_host_keys_update(hs: Seq<Host>, p: int, h: Host)
    requires
        0 <= p < hs.len(),
        h.name@ == hs[p].name@,
    ensures
        host_keys(hs.update(p, h)) == host_keys(hs),
{
    assert(host_keys(hs.update(p, h)) =~= host_keys(hs));
}

fn srv_ref(service: &Option<String>) -> (r: Vec<DnsRef>)
    ensures
        srv_names(r@) == match opt_string(*service) {
            Some(s) => seq![s],
            None => Seq::<Seq<char>>::empty(),
        },
        forall|j: int| 0 <= j < r@.len() ==> (#[trigger] r@[j]) is Srv,
{
    let mut v: Vec<DnsRef> = Vec::new();
    match service {
        Some(s) => {
            v.push(DnsRef::Srv { service: s.clone() });
            assert(srv_names(v@) =~= seq![s@]);
        },
        None => {
            assert(srv_names(v@) =~= Seq::<Seq<char>>::empty());
        },
    }
    v
}

/// Records one sighting: a new host for a new name, else the flags and
/// the service added to the host already there.
fn sight(hs: &mut Vec<Host>, name: &String, flags: u8, service: &Option<String>, Ghost(ev): Ghost<Seq<Sighting>>)
    requires
        hosts_of(old(hs)@, ev),
    ensures
        hosts_of(final(hs)@, ev.push((name@, flags, opt_string(*service)))),
{
    let ghost e = (name@, flags, opt_string(*service));
    let ghost ev2 = ev.push(e);
    let ghost before = hs@;
    proof {
        assert forall|n: Seq<char>| #![auto] flags_for(ev2, n) == (if e.0 == n {
            flags_for(ev, n) | e.1
        } else {
            flags_for(ev, n)
        }) && services_for(ev2, n) == (if e.0 == n && e.2 is Some {
            services_for(ev, n).push(e.2.unwrap())
        } else {
            services_for(ev, n)
        }) && seen(ev2, n) == (seen(ev, n) || e.0 == n) by {
            lemma_sighting_push(ev, e, n);
        }
    }
    let nc = chars_of(name.as_str());
    let (found, p) = find_host(hs, &nc);
    if found {
        let mut h = hs.remove(p);
        let ghost old_h = h;
        h.origins.insert(Origins(flags));
        match service {
            Some(s) => {
                let ghost refs = h.dns_refs@;
                h.dns_refs.push(DnsRef::Srv { service: s.clone() });
                assert(srv_names(h.dns_refs@) =~= srv_names(refs).push(s@));
            },
            None => {},
        }
        hs.insert(p, h);
        proof {
            assert(hs@ =~= before.update(p as int, h));
            lemma_host_keys_update(before, p as int, h);
            assert forall|i: int| 0 <= i < hs@.len() implies sighted(#[trigger] hs@[i], ev2)
                && hs@[i].ct_refs@.len() == 0 by {
                if i != p {
                    assert(hs@[i] == before[i]);
                    assert(host_keys(before)[i] != host_keys(before)[p as int]) by {
                        lemma_lex_irrefl(host_keys(before)[i]);
                    }
                } else {
                    assert(sighted(old_h, ev));
                    assert forall|j: int| 0 <= j < h.dns_refs@.len() implies (#[trigger] h.dns_refs@[j]) is Srv by {
                        if j < old_h.dns_refs@.len() {
                            assert(h.dns_refs@[j] == old_h.dns_refs@[j]);
                        }
                    }
                }
            }
            assert(host_keys(hs@) == host_keys(before));
            assert(host_keys(before)[p as int] == name@);
            assert forall|n: Seq<char>| #[trigger] host_keys(hs@).contains(n) <==> seen(ev2, n) by {
                lemma_sighting_push(ev, e, n);
                assert(host_keys(before).contains(n) <==> seen(ev, n));
                if n == name@ {
                    assert(host_keys(before).contains(n));
                    assert(seen(ev2, n));
                    assert(host_keys(hs@).contains(n));
                } else {
                    assert(seen(ev2, n) == seen(ev, n));
                    assert(host_keys(hs@).contains(n) == host_keys(before).contains(n));
                }
            }
        }
    } else {
        let h = Host {
            name: name.clone(),
            origins: Origins(flags),
            resolves: None,
            dns_status: None,
            ct_refs: Vec::new(),
            dns_refs: srv_ref(service),
            endpoint: None,
            ports: Vec::new(),
        };
        proof {
            lemma_flags_absent(ev, name@);
            assert(0u8 | flags == flags) by (bit_vector);
        }
        hs.insert(p, h);
        proof {
            lemma_host_keys_insert(before, p as int, h);
            crate::strs::lemma_sorted_insert(host_keys(before), p as int, name@);
            assert forall|i: int| 0 <= i < hs@.len() implies sighted(#[trigger] hs@[i], ev2)
                && hs@[i].ct_refs@.len() == 0 by {
                if i < p {
                    assert(hs@[i] == before[i]);
                    assert(host_keys(before)[i] != name@) by {
                        lemma_lex_irrefl(name@);
                    }
                } else if i > p {
                    assert(hs@[i] == before[i - 1]);
                    assert(host_keys(before)[i - 1] != name@) by {
                        lemma_lex_irrefl(name@);
                    }
                } else {
                    assert(services_for(ev, name@).push(e.2.unwrap()) =~= seq![e.2.unwrap()]);
                }
            }
            assert forall|n: Seq<char>| #[trigger] host_keys(hs@).contains(n) <==> seen(ev2, n) by {
                lemma_sighting_push(ev, e, n);
                if n == name@ {
                    assert(host_keys(hs@)[p as int] == n);
                } else if host_keys(hs@).contains(n) {
                    let q = choose|q: int| 0 <= q < host_keys(hs@).len() && host_keys(hs@)[q] == n;
                    assert(q != p);
                    if q < p {
                        assert(host_keys(before)[q] == n);
                    } else {
                        assert(host_keys(before)[q - 1] == n);
                    }
                    assert(host_keys(before).contains(n));
                    assert(seen(ev, n));
                } else if seen(ev, n) {
                    assert(host_keys(before).contains(n));
                    let q = choose|q: int| 0 <= q < host_keys(before).len() && host_keys(before)[q] == n;
                    if q < p {
                        assert(host_keys(hs@)[q] == n);
                    } else {
                        assert(host_keys(hs@)[q + 1] == n);
                    }
                }
            }
        }
    }
}

fn sight_cert(hs: &mut Vec<Host>, c: &Certificate, Ghost(ev): Ghost<Seq<Sighting>>)
    requires
        hosts_of(old(hs)@, ev),
    ensures
        hosts_of(final(hs)@, ev + ct_sightings(views(c.identities@))),
{
    let mut j: usize = 0;
    assert(ev + ct_sightings(views(c.identities@.subrange(0, 0))) =~= ev);
    while j < c.identities.len()
        invariant
            j <= c.identities.len(),
            hosts_of(hs@, ev + ct_sightings(views(c.identities@.subrange(0, j as int)))),
        decreases c.identities.len() - j,
    {
        let ghost pre = views(c.identities@.subrange(0, j as int));
        let name = &c.identities[j];
        assert(c.identities@.subrange(0, j + 1) =~= c.identities@.subrange(0, j as int).push(*name));
        proof {
            lemma_views_push(c.identities@.subrange(0, j as int), *name);
        }
        assert(views(c.identities@.subrange(0, j + 1)).drop_last() =~= pre);
        if !is_wildcard(name.as_str()) {
            sight(hs, name, 1, &None, Ghost(ev + ct_sightings(pre)));
            assert((ev + ct_sightings(pre)).push((name@, 1u8, None)) =~= ev + ct_sightings(
                views(c.identities@.subrange(0, j + 1)),
            ));
        }
        j = j + 1;
    }
    assert(c.identities@.subrange(0, c.identities.len() as int) =~= c.identities@);
}

/// The hosts to map: every concrete name of a currently valid certificate,
/// the apex, every SRV target inside the domain and every mail exchanger;
/// one per name, ordered by name, with the flags of how it was found, the
/// SRV services naming it and the currently valid certificates covering it.
pub fn host_set(domain: &str, certs: &Vec<Certificate>, srv: &Vec<SrvRecord>, mx: &Vec<MxRecord>) -> (r: Vec<Host>)
    ensures
        sorted_strict(host_keys(r@)),
        forall|n: Seq<char>|
            #[trigger] host_keys(r@).contains(n) <==> seen(sightings(domain@, certs@, srv@, mx@), n),
        forall|i: int|
            0 <= i < r@.len() ==> sighted(#[trigger] r@[i], sightings(domain@, certs@, srv@, mx@))
                && ref_views(r@[i].ct_refs@) == refs_for(certs@, r@[i].name@),
{
    let mut hs: Vec<Host> = Vec::new();
    let mut i: usize = 0;
    while i < certs.len()
        invariant
            i <= certs.len(),
            hosts_of(hs@, cert_sightings(certs@.subrange(0, i as int))),
        decreases certs.len() - i,
    {
        assert(certs@.subrange(0, i + 1).drop_last() =~= certs@.subrange(0, i as int));
        if certs[i].currently_valid {
            sight_cert(&mut hs, &certs[i], Ghost(cert_sightings(certs@.subrange(0, i as int))));
        }
        i = i + 1;
    }
    assert(certs@.subrange(0, certs.len() as int) =~= certs@);
    let ghost ev1 = cert_sightings(certs@);
    let apex = crate::strs::own(domain);
    sight(&mut hs, &apex, 4, &None, Ghost(ev1));
    let ghost ev2 = ev1.push((domain@, 4u8, None));
    let mut k: usize = 0;
    assert(ev2 + srv_sightings(srv@.subrange(0, 0), domain@) =~= ev2);
    while k < srv.len()
        invariant
            k <= srv.len(),
            hosts_of(hs@, ev2 + srv_sightings(srv@.subrange(0, k as int), domain@)),
        decreases srv.len() - k,
    {
        let ghost pre = ev2 + srv_sightings(srv@.subrange(0, k as int), domain@);
        assert(srv@.subrange(0, k + 1).drop_last() =~= srv@.subrange(0, k as int));
        let rec = &srv[k];
        if in_domain(rec.target.as_str(), domain) {
            sight(&mut hs, &rec.target, 2, &Some(rec.service.clone()), Ghost(pre));
            assert(pre.push((rec.target@, 2u8, Some(rec.service@))) =~= ev2 + srv_sightings(
                srv@.subrange(0, k + 1),
                domain@,
            ));
        } else {
            assert(pre =~= ev2 + srv_sightings(srv@.subrange(0, k + 1), domain@));
        }
        k = k + 1;
    }
    assert(srv@.subrange(0, srv.len() as int) =~= srv@);
    let ghost ev3 = ev2 + srv_sightings(srv@, domain@);
    let mut m: usize = 0;
    assert(ev3 + mx_sightings(mx@.subrange(0, 0)) =~= ev3);
    while m < mx.len()
        invariant
            m <= mx.len(),
            hosts_of(hs@, ev3 + mx_sightings(mx@.subrange(0, m as int))),
        decreases mx.len() - m,
    {
        let ghost pre = ev3 + mx_sightings(mx@.subrange(0, m as int));
        assert(mx@.subrange(0, m + 1).drop_last() =~= mx@.subrange(0, m as int));
        sight(&mut hs, &mx[m].target, 2, &None, Ghost(pre));
        assert(pre.push((mx@[m as int].target@, 2u8, None)) =~= ev3 + mx_sightings(mx@.subrange(0, m + 1)));
        m = m + 1;
    }
    assert(mx@.subrange(0, mx.len() as int) =~= mx@);
    let ghost ev = sightings(domain@, certs@, srv@, mx@);
    assert(ev3 + mx_sightings(mx@) =~= ev);
    let ghost keys = host_keys(hs@);
    let mut q: usize = 0;
    while q < hs.len()
        invariant
            q <= hs.len(),
            host_keys(hs@) == keys,
            sorted_strict(keys),
            forall|n: Seq<char>| #[trigger] keys.contains(n) <==> seen(ev, n),
            forall|t: int| 0 <= t < hs@.len() ==> sighted(#[trigger] hs@[t], ev),
            forall|t: int| 0 <= t < q ==> ref_views(#[trigger] hs@[t].ct_refs@) == refs_for(certs@, hs@[t].name@),
        decreases hs.len() - q,
    {
        let ghost before = hs@;
        let mut h = hs.remove(q);
        h.ct_refs = cert_refs(certs, h.name.as_str());
        hs.insert(q, h);
        proof {
            assert(hs@ =~= before.update(q as int, h));
            lemma_host_keys_update(before, q as int, h);
            assert forall|t: int| 0 <= t < hs@.len() implies sighted(#[trigger] hs@[t], ev) by {
                if t != q {
                    assert(hs@[t] == before[t]);
                }
            }
            assert forall|t: int| 0 <= t < q + 1 implies ref_views(#[trigger] hs@[t].ct_refs@) == refs_for(
                certs@,
                hs@[t].name@,
            ) by {
                if t != q {
                    assert(hs@[t] == before[t]);
                }
            }
        }
        q = q + 1;
    }
    hs
}

// ---------------------------------------------------------------- correlation

/// The certificate a host served on 443, if any.
pub open spec fn served_443(h: Host) -> Seq<ServedCert> {
    match h.endpoint {
        Some(e) => match e.served {
            Some(s) => seq![s],
            None => Seq::empty(),
        },
        None => Seq::empty(),
    }
}

/// The certificates a host served live: on 443, then on each swept port.
pub open spec fn host_served(h: Host) -> Seq<ServedCert> {
    served_443(h) + ports_served(h.ports@)
}

pub open spec fn ports_served(ps: Seq<PortScan>) -> Seq<ServedCert>
    decreases ps.len(),
{
    if ps.len() == 0 {
        Seq::empty()
    } else {
        match ps.last().served {
            Some(s) => ports_served(ps.drop_last()).push(s),
            None => ports_served(ps.drop_last()),
        }
    }
}

/// Every certificate served live, host after host.
pub open spec fn all_served(hs: Seq<Host>) -> Seq<ServedCert>
    decreases hs.len(),
{
    if hs.len() == 0 {
        Seq::empty()
    } else {
        all_served(hs.drop_last()) + host_served(hs.last())
    }
}

/// The served certificates with the given serial, in order.
pub open spec fn matching(ss: Seq<ServedCert>, serial: Seq<char>) -> Seq<ServedCert>
    decreases ss.len(),
{
    if ss.len() == 0 {
        Seq::empty()
    } else if ss.last().serial@ == serial {
        matching(ss.drop_last(), serial).push(ss.last())
    } else {
        matching(ss.drop_last(), serial)
    }
}

/// A missing value filled by the first of later values that fills it.
pub open spec fn fill(v: Option<Seq<char>>, later: Seq<Option<Seq<char>>>) -> Option<Seq<char>>
    decreases later.len(),
{
    if later.len() == 0 {
        v
    } else {
        let prev = fill(v, later.drop_last());
        if prev is None {
            later.last()
        } else {
            prev
        }
    }
}

pub open spec fn sigs_of(ss: Seq<ServedCert>) -> Seq<Option<Seq<char>>> {
    ss.map_values(|s: ServedCert| opt_string(s.cert_signature))
}

pub open spec fn pubkeys_of(ss: Seq<ServedCert>) -> Seq<Option<Seq<char>>> {
    ss.map_values(|s: ServedCert| opt_string(s.pubkey_alg))
}

pub open spec fn sig_algs_of(ss: Seq<ServedCert>) -> Seq<Option<Seq<char>>> {
    ss.map_values(|s: ServedCert| opt_string(s.sig_alg))
}

/// `c` is `c0` after the live certificates `ss`: marked served when one
/// has its serial, and its missing signature and algorithm facts filled
/// from those, in order; nothing else changes.
pub open spec fn absorbed(c0: Certificate, c: Certificate, ss: Seq<ServedCert>) -> bool {
    let m = matching(ss, c0.serial@);
    &&& c.served_live == (c0.served_live || m.len() > 0)
    &&& opt_string(c.cert_signature) == fill(opt_string(c0.cert_signature), sigs_of(m))
    &&& opt_string(c.pubkey_alg) == fill(opt_string(c0.pubkey_alg), pubkeys_of(m))
    &&& opt_string(c.sig_alg) == fill(opt_string(c0.sig_alg), sig_algs_of(m))
    &&& c.serial == c0.serial
    &&& c.in_ct == c0.in_ct
    &&& c.currently_valid == c0.currently_valid
    &&& c.ct_ids == c0.ct_ids
    &&& c.common_name == c0.common_name
    &&& c.identities == c0.identities
    &&& c.not_before == c0.not_before
    &&& c.not_after == c0.not_after
    &&& c.issuer == c0.issuer
    &&& c.key_algorithm == c0.key_algorithm
    &&& c.key_size == c0.key_size
    &&& c.sig_key_algorithm == c0.sig_key_algorithm
    &&& c.sig_hash_algorithm == c0.sig_hash_algorithm
    &&& c.chain == c0.chain
}

pub open spec fn all_absorbed(c0: Seq<Certificate>, c: Seq<Certificate>, ss: Seq<ServedCert>) -> bool {
    &&& c.len() == c0.len()
    &&& forall|k: int| 0 <= k < c.len() ==> absorbed(#[trigger] c0[k], c[k], ss)
}

proof fn lemma_absorb_step(c0: Certificate, c: Certificate, ss: Seq<ServedCert>, s: ServedCert)
    requires
        absorbed(c0, c, ss),
        c0.serial@ != s.serial@,
    ensures
        absorbed(c0, c, ss.push(s)),
{
    assert(ss.push(s).drop_last() =~= ss);
}

fn absorb_one(certs: &mut Vec<Certificate>, s: &ServedCert, Ghost(c0): Ghost<Seq<Certificate>>, Ghost(ss): Ghost<Seq<ServedCert>>)
    requires
        all_absorbed(c0, old(certs)@, ss),
    ensures
        all_absorbed(c0, final(certs)@, ss.push(*s)),
{
    let mut k: usize = 0;
    let ghost ss2 = ss.push(*s);
    while k < certs.len()
        invariant
            k <= certs.len(),
            certs@.len() == c0.len(),
            ss2 == ss.push(*s),
            forall|t: int| 0 <= t < k ==> absorbed(#[trigger] c0[t], certs@[t], ss2),
            forall|t: int| k <= t < certs@.len() ==> absorbed(#[trigger] c0[t], certs@[t], ss),
        decreases certs.len() - k,
    {
        let ghost before = certs@;
        if eq_chars(&chars_of(certs[k].serial.as_str()), &chars_of(s.serial.as_str())) {
            let mut c = certs.remove(k);
            let ghost cv = c;
            proof {
                let m = matching(ss, c0[k as int].serial@);
                assert(ss2.drop_last() =~= ss);
                assert(matching(ss2, c0[k as int].serial@) == m.push(*s));
                assert(sigs_of(m.push(*s)).drop_last() =~= sigs_of(m));
                assert(pubkeys_of(m.push(*s)).drop_last() =~= pubkeys_of(m));
                assert(sig_algs_of(m.push(*s)).drop_last() =~= sig_algs_of(m));
            }
            c.served_live = true;
            if c.cert_signature.is_none() {
                c.cert_signature = crate::strs::clone_opt(&s.cert_signature);
            }
            if c.pubkey_alg.is_none() {
                c.pubkey_alg = crate::strs::clone_opt(&s.pubkey_alg);
            }
            if c.sig_alg.is_none() {
                c.sig_alg = crate::strs::clone_opt(&s.sig_alg);
            }
            certs.insert(k, c);
            proof {
                assert(certs@ =~= before.update(k as int, c));
                assert(absorbed(c0[k as int], c, ss2));
            }
        } else {
            proof {
                lemma_absorb_step(c0[k as int], certs@[k as int], ss, *s);
            }
        }
        k = k + 1;
    }
}

fn absorb_host(certs: &mut Vec<Certificate>, h: &Host, Ghost(c0): Ghost<Seq<Certificate>>, Ghost(ss): Ghost<Seq<ServedCert>>)
    requires
        all_absorbed(c0, old(certs)@, ss),
    ensures
        all_absorbed(c0, final(certs)@, ss + host_served(*h)),
{
    let ghost first = served_443(*h);
    match &h.endpoint {
        Some(e) => match &e.served {
            Some(s) => {
                absorb_one(certs, s, Ghost(c0), Ghost(ss));
                assert(ss.push(*s) =~= ss + first);
            },
            None => {
                assert(ss =~= ss + first);
            },
        },
        None => {
            assert(ss =~= ss + first);
        },
    }
    let ghost base = ss + first;
    let mut j: usize = 0;
    assert(base + ports_served(h.ports@.subrange(0, 0)) =~= base);
    while j < h.ports.len()
        invariant
            j <= h.ports.len(),
            all_absorbed(c0, certs@, base + ports_served(h.ports@.subrange(0, j as int))),
        decreases h.ports.len() - j,
    {
        let ghost pre = base + ports_served(h.ports@.subrange(0, j as int));
        assert(h.ports@.subrange(0, j + 1).drop_last() =~= h.ports@.subrange(0, j as int));
        match &h.ports[j].served {
            Some(s) => {
                absorb_one(certs, s, Ghost(c0), Ghost(pre));
                assert(pre.push(*s) =~= base + ports_served(h.ports@.subrange(0, j + 1)));
            },
            None => {
                assert(pre =~= base + ports_served(h.ports@.subrange(0, j + 1)));
            },
        }
        j = j + 1;
    }
    assert(h.ports@.subrange(0, h.ports.len() as int) =~= h.ports@);
    assert(base + ports_served(h.ports@) =~= ss + host_served(*h));
}

pub open spec fn has_serial(certs: Seq<Certificate>, serial: Seq<char>) -> bool {
    exists|k: int| 0 <= k < certs.len() && certs[k].serial@ == serial
}

/// `h` is `h0` with its live certificate flagged when CT has no record of
/// it; nothing else changes.
pub open spec fn flagged(h0: Host, h: Host, certs: Seq<Certificate>) -> bool {
    &&& h.name == h0.name
    &&& h.origins == h0.origins
    &&& h.resolves == h0.resolves
    &&& h.dns_status == h0.dns_status
    &&& h.ct_refs == h0.ct_refs
    &&& h.dns_refs == h0.dns_refs
    &&& h.ports == h0.ports
    &&& match (h0.endpoint, h.endpoint) {
        (Some(a), Some(b)) => {
            &&& b.status == a.status
            &&& b.ip == a.ip
            &&& b.served == a.served
            &&& b.negotiated == a.negotiated
            &&& b.observed_at == a.observed_at
            &&& b.served_not_in_ct == match a.served {
                Some(s) => !has_serial(certs, s.serial@),
                None => a.served_not_in_ct,
            }
        },
        (None, None) => true,
        _ => false,
    }
}

fn serial_known(certs: &Vec<Certificate>, serial: &String) -> (r: bool)
    ensures
        r == has_serial(certs@, serial@),
{
    let mut k: usize = 0;
    while k < certs.len()
        invariant
            k <= certs.len(),
            forall|t: int| 0 <= t < k ==> certs@[t].serial@ != serial@,
        decreases certs.len() - k,
    {
        if eq_chars(&chars_of(certs[k].serial.as_str()), &chars_of(serial.as_str())) {
            return true;
        }
        k = k + 1;
    }
    false
}

/// Marks every CT record that a host served live, fills its missing
/// signature and algorithm facts from what was served, and flags each live
/// certificate that CT has no record of.
pub fn correlate(certs: &mut Vec<Certificate>, hosts: &mut Vec<Host>)
    ensures
        cert_keys(final(certs)@) == cert_keys(old(certs)@),
        host_keys(final(hosts)@) == host_keys(old(hosts)@),
        all_absorbed(old(certs)@, final(certs)@, all_served(old(hosts)@)),
        final(hosts)@.len() == old(hosts)@.len(),
        forall|i: int| 0 <= i < final(hosts)@.len() ==> flagged(#[trigger] old(hosts)@[i], final(hosts)@[i], final(certs)@),
{
    let ghost c0 = certs@;
    let ghost h0 = hosts@;
    let mut i: usize = 0;
    assert(all_served(hosts@.subrange(0, 0)) =~= Seq::<ServedCert>::empty());
    while i < hosts.len()
        invariant
            i <= hosts.len(),
            hosts@ == h0,
            all_absorbed(c0, certs@, all_served(hosts@.subrange(0, i as int))),
        decreases hosts.len() - i,
    {
        assert(hosts@.subrange(0, i + 1).drop_last() =~= hosts@.subrange(0, i as int));
        absorb_host(certs, &hosts[i], Ghost(c0), Ghost(all_served(hosts@.subrange(0, i as int))));
        i = i + 1;
    }
    assert(hosts@.subrange(0, hosts.len() as int) =~= hosts@);
    let mut j: usize = 0;
    while j < hosts.len()
        invariant
            j <= hosts.len(),
            hosts@.len() == h0.len(),
            forall|t: int| 0 <= t < j ==> flagged(#[trigger] h0[t], hosts@[t], certs@),
            forall|t: int| j <= t < hosts@.len() ==> #[trigger] hosts@[t] == h0[t],
        decreases hosts.len() - j,
    {
        let ghost before = hosts@;
        let mut h = hosts.remove(j);
        let ep = h.endpoint;
        h.endpoint = match ep {
            Some(mut e) => {
                let flag = match &e.served {
                    Some(s) => !serial_known(certs, &s.serial),
                    None => e.served_not_in_ct,
                };
                e.served_not_in_ct = flag;
                Some(e)
            },
            None => None,
        };
        hosts.insert(j, h);
        proof {
            assert(hosts@ =~= before.update(j as int, h));
        }
        j = j + 1;
    }
    assert(cert_keys(certs@) =~= cert_keys(c0));
    assert(host_keys(hosts@) =~= host_keys(h0));
}

// ---------------------------------------------------------------- what each host learned

/// What resolving one host name gave: the name, the first address found,
/// and the status of the answer.
#[derive(Debug)]
pub struct Resolution {
    pub name: String,
    pub ip: Option<IpAddress>,
    pub status: DnsStatus,
}

/// The last resolution given for `name`, if any.
pub open spec fn last_resolution(res: Seq<Resolution>, name: Seq<char>) -> Option<Resolution>
    decreases res.len(),
{
    if res.len() == 0 {
        None
    } else if res.last().name@ == name {
        Some(res.last())
    } else {
        last_resolution(res.drop_last(), name)
    }
}

/// The host with what resolving its name gave: whether it has an address
/// and the status of the answer; a host not resolved stays as it was.
pub open spec fn resolved_host(h: Host, res: Seq<Resolution>) -> Host {
    match last_resolution(res, h.name@) {
        Some(e) => Host { resolves: Some(e.ip is Some), dns_status: Some(e.status), ..h },
        None => h,
    }
}

fn find_resolution(res: &Vec<Resolution>, name: &String) -> (r: Option<usize>)
    ensures
        match r {
            Some(k) => k < res@.len() && last_resolution(res@, name@) == Some(res@[k as int]),
            None => last_resolution(res@, name@) is None,
        },
{
    let n = chars_of(name.as_str());
    let mut k = res.len();
    assert(res@.subrange(0, k as int) =~= res@);
    while k > 0
        invariant
            k <= res@.len(),
            n@ == name@,
            last_resolution(res@, name@) == last_resolution(res@.subrange(0, k as int), name@),
        decreases k,
    {
        let ghost sub = res@.subrange(0, k as int);
        assert(sub.last() == res@[k - 1]);
        assert(sub.drop_last() =~= res@.subrange(0, k - 1));
        if eq_chars(&chars_of(res[k - 1].name.as_str()), &n) {
            return Some(k - 1);
        }
        k = k - 1;
    }
    None
}

/// Records on every host what resolving its name gave: a host named in the
/// resolutions gets whether it has an address and its DNS status, from the
/// last resolution of its name; the hosts and every other field stay.
pub fn record_resolutions(hosts: &mut Vec<Host>, res: &Vec<Resolution>)
    ensures
        final(hosts)@.len() == old(hosts)@.len(),
        host_keys(final(hosts)@) == host_keys(old(hosts)@),
        forall|i: int| 0 <= i < final(hosts)@.len() ==> #[trigger] final(hosts)@[i] == resolved_host(old(hosts)@[i], res@),
        forall|i: int, k: int|
            0 <= i < final(hosts)@.len() && 0 <= k < res@.len() && #[trigger] res@[k].name@ == #[trigger] old(hosts)@[i].name@
                ==> final(hosts)@[i].dns_status is Some && final(hosts)@[i].resolves is Some,
{
    let ghost h0 = hosts@;
    let mut i: usize = 0;
    while i < hosts.len()
        invariant
            i <= hosts.len(),
            hosts@.len() == h0.len(),
            forall|t: int| 0 <= t < i ==> #[trigger] hosts@[t] == resolved_host(h0[t], res@),
            forall|t: int| i <= t < hosts@.len() ==> #[trigger] hosts@[t] == h0[t],
        decreases hosts.len() - i,
    {
        let ghost before = hosts@;
        match find_resolution(res, &hosts[i].name) {
            Some(k) => {
                let mut h = hosts.remove(i);
                h.resolves = Some(res[k].ip.is_some());
                h.dns_status = Some(res[k].status);
                hosts.insert(i, h);
                assert(hosts@ =~= before.update(i as int, h));
            },
            None => {},
        }
        i = i + 1;
    }
    assert forall|i: int, k: int|
        0 <= i < hosts@.len() && 0 <= k < res@.len() && #[trigger] res@[k].name@ == #[trigger] h0[i].name@ implies
        hosts@[i].dns_status is Some && hosts@[i].resolves is Some by {
        lemma_resolution_found(res@, h0[i].name@, k);
    }
    assert(host_keys(hosts@) =~= host_keys(h0));
}

proof fn lemma_resolution_found(res: Seq<Resolution>, name: Seq<char>, k: int)
    requires
        0 <= k < res.len(),
        res[k].name@ == name,
    ensures
        last_resolution(res, name) is Some,
    decreases res.len(),
{
    if k < res.len() - 1 && res.last().name@ != name {
        assert(res.drop_last()[k] == res[k]);
        lemma_resolution_found(res.drop_last(), name, k);
    }
}

/// The first host named `name`, if any.
pub open spec fn first_host(hs: Seq<Host>, name: Seq<char>) -> Option<int>
    decreases hs.len(),
{
    if hs.len() == 0 {
        None
    } else {
        match first_host(hs.drop_last(), name) {
            Some(j) => Some(j),
            None => if hs.last().name@ == name {
                Some(hs.len() - 1)
            } else {
                None
            },
        }
    }
}

proof fn lemma_first_host(hs: Seq<Host>, name: Seq<char>)
    ensures
        match first_host(hs, name) {
            Some(j) => 0 <= j < hs.len() && hs[j].name@ == name && forall|k: int| 0 <= k < j ==> #[trigger] hs[k].name@ != name,
            None => forall|k: int| 0 <= k < hs.len() ==> #[trigger] hs[k].name@ != name,
        },
    decreases hs.len(),
{
    if hs.len() > 0 {
        lemma_first_host(hs.drop_last(), name);
        assert forall|k: int| 0 <= k < hs.len() - 1 implies #[trigger] hs[k] == hs.drop_last()[k] by {}
    }
}

fn first_host_index(hosts: &Vec<Host>, name: &String) -> (r: Option<usize>)
    ensures
        match r {
            Some(j) => j < hosts@.len() && first_host(hosts@, name@) == Some(j as int),
            None => first_host(hosts@, name@) is None,
        },
{
    proof {
        lemma_first_host(hosts@, name@);
    }
    let n = chars_of(name.as_str());
    let mut j: usize = 0;
    while j < hosts.len()
        invariant
            j <= hosts.len(),
            n@ == name@,
            forall|k: int| 0 <= k < j ==> #[trigger] hosts@[k].name@ != name@,
            match first_host(hosts@, name@) {
                Some(q) => 0 <= q < hosts@.len() && hosts@[q].name@ == name@ && forall|k: int| 0 <= k < q ==> #[trigger] hosts@[k].name@ != name@,
                None => forall|k: int| 0 <= k < hosts@.len() ==> #[trigger] hosts@[k].name@ != name@,
            },
        decreases hosts.len() - j,
    {
        if eq_chars(&chars_of(hosts[j].name.as_str()), &n) {
            return Some(j);
        }
        j = j + 1;
    }
    None
}

/// The host with the endpoint its probe gave.
pub open spec fn with_endpoint(h: Host, e: Endpoint) -> Host {
    Host { endpoint: Some(e), ..h }
}

/// The hosts after each probe result in turn went to the first host of its
/// name.
pub open spec fn put_endpoints(hs: Seq<Host>, es: Seq<(String, Endpoint)>) -> Seq<Host>
    decreases es.len(),
{
    if es.len() == 0 {
        hs
    } else {
        let prev = put_endpoints(hs, es.drop_last());
        match first_host(prev, es.last().0@) {
            Some(j) => prev.update(j, with_endpoint(prev[j], es.last().1)),
            None => prev,
        }
    }
}

/// The last probe result for `name`, if any.
pub open spec fn last_endpoint(es: Seq<(String, Endpoint)>, name: Seq<char>) -> Option<Endpoint>
    decreases es.len(),
{
    if es.len() == 0 {
        None
    } else if es.last().0@ == name {
        Some(es.last().1)
    } else {
        last_endpoint(es.drop_last(), name)
    }
}

proof fn lemma_put_endpoints(hs: Seq<Host>, es: Seq<(String, Endpoint)>)
    ensures
        put_endpoints(hs, es).len() == hs.len(),
        host_keys(put_endpoints(hs, es)) == host_keys(hs),
        sorted_strict(host_keys(hs)) ==> forall|i: int| 0 <= i < hs.len() ==> #[trigger] put_endpoints(hs, es)[i] == match last_endpoint(es, hs[i].name@) {
            Some(e) => with_endpoint(hs[i], e),
            None => hs[i],
        },
    decreases es.len(),
{
    if es.len() > 0 {
        let prev = put_endpoints(hs, es.drop_last());
        lemma_put_endpoints(hs, es.drop_last());
        lemma_first_host(prev, es.last().0@);
        let r = put_endpoints(hs, es);
        assert(host_keys(r) =~= host_keys(prev)) by {
            assert forall|k: int| 0 <= k < r.len() implies r[k].name == prev[k].name by {}
        }
        if sorted_strict(host_keys(hs)) {
            assert forall|i: int| 0 <= i < hs.len() implies #[trigger] r[i] == match last_endpoint(es, hs[i].name@) {
                Some(e) => with_endpoint(hs[i], e),
                None => hs[i],
            } by {
                assert(host_keys(prev)[i] == prev[i].name@);
                assert(host_keys(hs)[i] == hs[i].name@);
                if let Some(j) = first_host(prev, es.last().0@) {
                    if i != j {
                        assert(host_keys(hs)[j] == hs[j].name@);
                        assert(host_keys(prev)[j] == prev[j].name@);
                        if hs[i].name@ == es.last().0@ {
                            lemma_lex_irrefl(hs[i].name@);
                        }
                    }
                }
            }
        }
    }
}

/// Gives each host the endpoint its probe gave: each probe result in turn
/// goes to the first host of its name. With one host per name, as the host
/// set has them, every host gets the last result for its name and keeps its
/// endpoint when there is none; names and every other field stay.
pub fn record_endpoints(hosts: &mut Vec<Host>, endpoints: Vec<(String, Endpoint)>)
    ensures
        final(hosts)@ == put_endpoints(old(hosts)@, endpoints@),
        final(hosts)@.len() == old(hosts)@.len(),
        host_keys(final(hosts)@) == host_keys(old(hosts)@),
        sorted_strict(host_keys(old(hosts)@)) ==> forall|i: int|
            0 <= i < final(hosts)@.len() ==> #[trigger] final(hosts)@[i] == match last_endpoint(endpoints@, old(hosts)@[i].name@) {
                Some(e) => with_endpoint(old(hosts)@[i], e),
                None => old(hosts)@[i],
            },
{
    let ghost h0 = hosts@;
    let ghost all = endpoints@;
    let total: usize = endpoints.len();
    let mut rest = endpoints;
    let mut k: usize = 0;
    assert(all.subrange(0, 0) =~= Seq::<(String, Endpoint)>::empty());
    while rest.len() > 0
        invariant
            k + rest@.len() == all.len(),
            all.len() == total,
            rest@ == all.subrange(k as int, all.len() as int),
            hosts@ == put_endpoints(h0, all.subrange(0, k as int)),
        decreases rest@.len(),
    {
        let (name, ep) = rest.remove(0);
        assert(all.subrange(0, k + 1).drop_last() =~= all.subrange(0, k as int));
        assert(all.subrange(0, k + 1).last() == all[k as int]);
        proof {
            lemma_put_endpoints(h0, all.subrange(0, k as int));
        }
        match first_host_index(hosts, &name) {
            Some(j) => {
                let ghost before = hosts@;
                let mut h = hosts.remove(j);
                h.endpoint = Some(ep);
                hosts.insert(j, h);
                assert(hosts@ =~= before.update(j as int, h));
            },
            None => {},
        }
        k = k + 1;
        assert(rest@ =~= all.subrange(k as int, all.len() as int));
    }
    assert(all.subrange(0, k as int) =~= all);
    proof {
        lemma_put_endpoints(h0, all);
    }
}

/// The host with the scans its port sweep gave.
pub open spec fn with_ports(h: Host, ps: Vec<PortScan>) -> Host {
    Host { ports: ps, ..h }
}

/// The hosts after each sweep result in turn went to the first host of its
/// name.
pub open spec fn put_ports(hs: Seq<Host>, es: Seq<(String, Vec<PortScan>)>) -> Seq<Host>
    decreases es.len(),
{
    if es.len() == 0 {
        hs
    } else {
        let prev = put_ports(hs, es.drop_last());
        match first_host(prev, es.last().0@) {
            Some(j) => prev.update(j, with_ports(prev[j], es.last().1)),
            None => prev,
        }
    }
}

/// The last sweep result for `name`, if any.
pub open spec fn last_ports(es: Seq<(String, Vec<PortScan>)>, name: Seq<char>) -> Option<Vec<PortScan>>
    decreases es.len(),
{
    if es.len() == 0 {
        None
    } else if es.last().0@ == name {
        Some(es.last().1)
    } else {
        last_ports(es.drop_last(), name)
    }
}

proof fn lemma_put_ports(hs: Seq<Host>, es: Seq<(String, Vec<PortScan>)>)
    ensures
        put_ports(hs, es).len() == hs.len(),
        host_keys(put_ports(hs, es)) == host_keys(hs),
        sorted_strict(host_keys(hs)) ==> forall|i: int| 0 <= i < hs.len() ==> #[trigger] put_ports(hs, es)[i] == match last_ports(es, hs[i].name@) {
            Some(e) => with_ports(hs[i], e),
            None => hs[i],
        },
    decreases es.len(),
{
    if es.len() > 0 {
        let prev = put_ports(hs, es.drop_last());
        lemma_put_ports(hs, es.drop_last());
        lemma_first_host(prev, es.last().0@);
        let r = put_ports(hs, es);
        assert(host_keys(r) =~= host_keys(prev)) by {
            assert forall|k: int| 0 <= k < r.len() implies r[k].name == prev[k].name by {}
        }
        if sorted_strict(host_keys(hs)) {
            assert forall|i: int| 0 <= i < hs.len() implies #[trigger] r[i] == match last_ports(es, hs[i].name@) {
                Some(e) => with_ports(hs[i], e),
                None => hs[i],
            } by {
                assert(host_keys(prev)[i] == prev[i].name@);
                assert(host_keys(hs)[i] == hs[i].name@);
                if let Some(j) = first_host(prev, es.last().0@) {
                    if i != j {
                        assert(host_keys(hs)[j] == hs[j].name@);
                        assert(host_keys(prev)[j] == prev[j].name@);
                        if hs[i].name@ == es.last().0@ {
                            lemma_lex_irrefl(hs[i].name@);
                        }
                    }
                }
            }
        }
    }
}

/// Gives each host the scans its port sweep gave: each sweep result in turn
/// goes to the first host of its name. With one host per name, as the host
/// set has them, every host gets the last result for its name and keeps its
/// scans when there is none; names and every other field stay.
pub fn record_ports(hosts: &mut Vec<Host>, sweeps: Vec<(String, Vec<PortScan>)>)
    ensures
        final(hosts)@ == put_ports(old(hosts)@, sweeps@),
        final(hosts)@.len() == old(hosts)@.len(),
        host_keys(final(hosts)@) == host_keys(old(hosts)@),
        sorted_strict(host_keys(old(hosts)@)) ==> forall|i: int|
            0 <= i < final(hosts)@.len() ==> #[trigger] final(hosts)@[i] == match last_ports(sweeps@, old(hosts)@[i].name@) {
                Some(e) => with_ports(old(hosts)@[i], e),
                None => old(hosts)@[i],
            },
{
    let ghost h0 = hosts@;
    let ghost all = sweeps@;
    let total: usize = sweeps.len();
    let mut rest = sweeps;
    let mut k: usize = 0;
    assert(all.subrange(0, 0) =~= Seq::<(String, Vec<PortScan>)>::empty());
    while rest.len() > 0
        invariant
            k + rest@.len() == all.len(),
            all.len() == total,
            rest@ == all.subrange(k as int, all.len() as int),
            hosts@ == put_ports(h0, all.subrange(0, k as int)),
        decreases rest@.len(),
    {
        let (name, scans) = rest.remove(0);
        assert(all.subrange(0, k + 1).drop_last() =~= all.subrange(0, k as int));
        assert(all.subrange(0, k + 1).last() == all[k as int]);
        proof {
            lemma_put_ports(h0, all.subrange(0, k as int));
        }
        match first_host_index(hosts, &name) {
            Some(j) => {
                let ghost before = hosts@;
                let mut h = hosts.remove(j);
                h.ports = scans;
                hosts.insert(j, h);
                assert(hosts@ =~= before.update(j as int, h));
            },
            None => {},
        }
        k = k + 1;
        assert(rest@ =~= all.subrange(k as int, all.len() as int));
    }
    assert(all.subrange(0, k as int) =~= all);
    proof {
        lemma_put_ports(h0, all);
    }
}

} // verus!
