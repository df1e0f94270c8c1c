//! Properties that hold across the library's functions and states.

use vstd::prelude::*;

use crate::collect::{count_future, count_valid, flags_for, seen, sightings, Sighting};
use crate::ct::{count_char, coverage_of, is_wildcard_name, refs_for, hex_digits, is_hex, serial_norm_spec, skip_zeros, wildcard_covers};
use crate::fetch::{capped_delay, twice};
use crate::graph::{dn_cn, first_node, graph_of, group_v, links_v, node_ids, slug, FactV, Graph};
use crate::graph_build::{
    candidates, ct_facts, has_exact, latest, lookup, served_of,
    ca_node_id, cert_facts, cert_id, chain_run, entry_meta, entry_step, exposed, first_ca, host_cert, host_facts,
    issuer_facts, leaf_facts, named_facts, negotiated_facts, port_facts, port_id, state_facts, CertFactsV,
};
use crate::model::{alg_class, cert_keys, future_at, DnsStatus, DomainState, ProbeStatus, valid_at, CertRef, Certificate, MatchKind, MxRecord, SrvRecord};
use crate::model::{
    db_sig_name, key_name, port_service_name, symmetric, ChainEntry, Host, Negotiated, PortScan, ScanState, ServedCert,
};
use crate::sweep::{scan_of, PortKind};
use crate::plan::{lcg, shuffle_from, swapped, sweep_order};
use crate::dns::{ascii_target_name, trim_end_char};
use crate::strs::{dec_int, has_sub, trim, sorted_strict, views, ascii_only, lower_ascii, dec, opt_string, lemma_lex_asym, lemma_lex_irrefl, lemma_lex_total, lemma_lex_trans, lex_lt, lower_char};
use crate::text::{
    category, concrete_ids, in_category, insert_ordered, order_lt, ordered, stat_row, summary_text, valid_ids,
    wildcard_ids, www_key, Category,
};

verus! {

// ---------------------------------------------------------------- validity

/// A certificate valid at a moment is not a future one at that moment.
pub proof fn law_valid_is_not_future(nb: Option<i64>, na: Option<i64>, now: i64)
    ensures
        valid_at(nb, na, now) ==> !future_at(nb, now),
{
}

/// The valid and the not-yet-valid records together never outnumber the
/// records.
pub proof fn law_stats_within_rows(certs: Seq<Certificate>, now: i64)
    ensures
        count_valid(certs) + count_future(certs, now) <= certs.len(),
    decreases certs.len(),
{
    if certs.len() > 0 {
        law_stats_within_rows(certs.drop_last(), now);
    }
}

// ---------------------------------------------------------------- coverage

/// A name listed among a certificate's identities is covered exactly, even
/// when a wildcard would cover it too.
pub proof fn law_exact_outranks_wildcard(identities: Seq<Seq<char>>, host: Seq<char>)
    requires
        identities.contains(host),
    ensures
        coverage_of(identities, host) == Some(MatchKind::Exact),
{
}

proof fn lemma_count_char_concat(a: Seq<char>, b: Seq<char>, c: char)
    ensures
        count_char(a + b, c) == count_char(a, c) + count_char(b, c),
    decreases b.len(),
{
    if b.len() == 0 {
        assert(a + b =~= a);
    } else {
        lemma_count_char_concat(a, b.drop_last(), c);
        assert((a + b).drop_last() =~= a + b.drop_last());
    }
}

proof fn lemma_count_char_zero(x: Seq<char>, c: char)
    ensures
        count_char(x, c) == 0 <==> !x.contains(c),
    decreases x.len(),
{
    if x.len() > 0 {
        lemma_count_char_zero(x.drop_last(), c);
        if x.drop_last().contains(c) {
            let k = choose|k: int| 0 <= k < x.drop_last().len() && x.drop_last()[k] == c;
            assert(x[k] == c);
        }
        if x.contains(c) && x.last() != c {
            let k = choose|k: int| 0 <= k < x.len() && x[k] == c;
            assert(x.drop_last()[k] == c);
        }
    }
}

proof fn lemma_count_dot()
    ensures
        count_char("."@, '.') == 1,
{
    reveal_strlit(".");
    assert("."@.drop_last() =~= Seq::<char>::empty());
    assert(count_char(Seq::<char>::empty(), '.') == 0);
}

proof fn lemma_dots_split(x: Seq<char>, base: Seq<char>)
    ensures
        count_char(x + "."@ + base, '.') == count_char(x, '.') + 1 + count_char(base, '.'),
{
    lemma_count_char_concat(x + "."@, base, '.');
    lemma_count_char_concat(x, "."@, '.');
    lemma_count_dot();
}

/// A wildcard `*.base` covers exactly the names one label deeper than
/// `base`: a name `x.base` whose first label `x` is not empty and holds no
/// dot; neither `base` itself, nor `.base`, nor a name two or more labels
/// deeper.
pub proof fn law_wildcard_single_label(base: Seq<char>, host: Seq<char>)
    ensures
        wildcard_covers("*."@ + base, host) <==> exists|x: Seq<char>|
            x.len() > 0 && !x.contains('.') && host == x + "."@ + base,
{
    reveal_strlit("*.");
    reveal_strlit(".");
    let ident = "*."@ + base;
    assert("*."@.is_prefix_of(ident));
    assert(ident.skip(2) =~= base);
    assert(seq!['.'] =~= "."@);
    if wildcard_covers(ident, host) {
        let k = host.len() - base.len() - 1;
        let x = host.take(k);
        let tail = host.subrange(k, host.len() as int);
        assert(tail =~= seq!['.'] + base);
        assert forall|i: int| 0 <= i < host.len() implies host[i] == (x + "."@ + base)[i] by {
            if i >= k {
                assert(host[i] == tail[i - k]);
            }
        }
        assert(host =~= x + "."@ + base);
        lemma_dots_split(x, base);
        lemma_count_char_zero(x, '.');
    }
    assert forall|x: Seq<char>| x.len() > 0 && !x.contains('.') && host == x + "."@ + base implies wildcard_covers(ident, host) by {
        lemma_dots_split(x, base);
        lemma_count_char_zero(x, '.');
        assert(host.subrange(host.len() - (base.len() + 1), host.len() as int) =~= seq!['.'] + base);
    }
}

/// A record without an expiry date counts as not valid: a missing date
/// stands for the epoch itself.
pub proof fn law_missing_expiry_is_invalid(nb: Option<i64>, now: i64)
    requires
        now > 0,
    ensures
        !valid_at(nb, None, now),
{
}

// ---------------------------------------------------------------- serials

pub open spec fn lower_hex(c: char) -> bool {
    ('0' <= c && c <= '9') || ('a' <= c && c <= 'f')
}

pub open spec fn all_lower_hex(s: Seq<char>) -> bool {
    forall|i: int| 0 <= i < s.len() ==> lower_hex(#[trigger] s[i])
}

proof fn lemma_hex_digits_lower(s: Seq<char>)
    ensures
        all_lower_hex(hex_digits(s)),
    decreases s.len(),
{
    if s.len() > 0 {
        lemma_hex_digits_lower(s.drop_last());
        if is_hex(s.last()) {
            let c = s.last();
            assert(lower_hex(lower_char(c))) by {
                if 'A' <= c && c <= 'Z' {
                    assert((c as u32) + 32 <= 'f' as u32);
                }
            }
            let h = hex_digits(s.drop_last());
            assert forall|i: int| 0 <= i < h.push(lower_char(c)).len() implies lower_hex(
                #[trigger] h.push(lower_char(c))[i],
            ) by {
                if i < h.len() {
                    assert(h.push(lower_char(c))[i] == h[i]);
                }
            }
        }
    }
}

proof fn lemma_hex_digits_fixed(s: Seq<char>)
    requires
        all_lower_hex(s),
    ensures
        hex_digits(s) == s,
    decreases s.len(),
{
    if s.len() > 0 {
        let t = s.drop_last();
        assert forall|i: int| 0 <= i < t.len() implies lower_hex(#[trigger] t[i]) by {
            assert(t[i] == s[i]);
        }
        lemma_hex_digits_fixed(t);
        assert(lower_hex(s[s.len() - 1]));
        assert(s =~= t.push(s.last()));
    }
}

proof fn lemma_skip_zeros_shape(s: Seq<char>)
    requires
        all_lower_hex(s),
    ensures
        all_lower_hex(skip_zeros(s)),
        skip_zeros(s).len() == 0 || skip_zeros(s)[0] != '0',
    decreases s.len(),
{
    if s.len() > 0 && s[0] == '0' {
        let t = s.drop_first();
        assert forall|i: int| 0 <= i < t.len() implies lower_hex(#[trigger] t[i]) by {
            assert(t[i] == s[i + 1]);
        }
        lemma_skip_zeros_shape(t);
    }
}

/// Normalising a serial number twice gives what normalising once gives:
/// the canonical form is a fixed point.
pub proof fn law_serial_norm_idempotent(raw: Seq<char>)
    ensures
        serial_norm_spec(serial_norm_spec(raw)) == serial_norm_spec(raw),
{
    let h = hex_digits(raw);
    lemma_hex_digits_lower(raw);
    lemma_skip_zeros_shape(h);
    let t = skip_zeros(h);
    if t.len() == 0 {
        reveal_strlit("0");
        assert(all_lower_hex("0"@));
        lemma_hex_digits_fixed("0"@);
        assert(skip_zeros("0"@) == skip_zeros("0"@.drop_first()));
        assert("0"@.drop_first().len() == 0);
    } else {
        lemma_hex_digits_fixed(t);
    }
}

// ---------------------------------------------------------------- backoff

proof fn lemma_twice_grows(k: nat)
    ensures
        twice(k) >= 1,
        twice(k + 1) == 2 * twice(k),
    decreases k,
{
    if k > 0 {
        lemma_twice_grows((k - 1) as nat);
    }
}

/// A later attempt never waits less than an earlier one, and no wait
/// exceeds a minute.
pub proof fn law_backoff_grows_and_caps(delay: u64, k: nat)
    ensures
        capped_delay(delay, k) <= capped_delay(delay, k + 1),
        capped_delay(delay, k + 1) <= 60,
{
    lemma_twice_grows(k);
    let a = twice(k);
    assert(delay * a <= delay * (2 * a)) by (nonlinear_arith)
        requires
            a >= 1,
    ;
}

// ---------------------------------------------------------------- the host set

proof fn lemma_flags_grow(ev: Seq<Sighting>, rest: Seq<Sighting>, n: Seq<char>, bit: u8)
    requires
        flags_for(ev, n) & bit != 0,
    ensures
        flags_for(ev + rest, n) & bit != 0,
    decreases rest.len(),
{
    if rest.len() > 0 {
        lemma_flags_grow(ev, rest.drop_last(), n, bit);
        assert((ev + rest).drop_last() =~= ev + rest.drop_last());
        let f = flags_for(ev + rest.drop_last(), n);
        let b = rest.last().1;
        assert(f & bit != 0 ==> (f | b) & bit != 0) by (bit_vector);
    }
}

/// The apex of the domain is always a host, flagged as the apex.
pub proof fn law_apex_is_a_host(domain: Seq<char>, certs: Seq<Certificate>, srv: Seq<SrvRecord>, mx: Seq<MxRecord>)
    ensures
        seen(sightings(domain, certs, srv, mx), domain),
        flags_for(sightings(domain, certs, srv, mx), domain) & 4 != 0,
{
    let pre = crate::collect::cert_sightings(certs);
    let ev1 = pre + seq![(domain, 4u8, None::<Seq<char>>)];
    let rest = crate::collect::srv_sightings(srv, domain) + crate::collect::mx_sightings(mx);
    assert(ev1.drop_last() =~= pre);
    let f = flags_for(pre, domain);
    assert((f | 4u8) & 4 != 0) by (bit_vector);
    lemma_flags_grow(ev1, rest, domain, 4);
    assert(sightings(domain, certs, srv, mx) =~= ev1 + rest);
    assert(sightings(domain, certs, srv, mx)[pre.len() as int].0 == domain);
}

/// Every sighting brings at least one origin flag.
pub open spec fn flags_set(ev: Seq<Sighting>) -> bool {
    forall|i: int| 0 <= i < ev.len() ==> (#[trigger] ev[i]).1 != 0
}

/// Every name that was sighted has at least one origin flag: no host
/// appears without a reason.
pub proof fn law_sighted_names_have_origins(ev: Seq<Sighting>, n: Seq<char>)
    requires
        flags_set(ev),
    ensures
        seen(ev, n) ==> flags_for(ev, n) != 0,
    decreases ev.len(),
{
    if ev.len() > 0 {
        let t = ev.drop_last();
        assert forall|i: int| 0 <= i < t.len() implies (#[trigger] t[i]).1 != 0 by {
            assert(t[i] == ev[i]);
        }
        law_sighted_names_have_origins(t, n);
        let f = flags_for(t, n);
        let b = ev.last().1;
        assert(ev[ev.len() - 1].1 != 0);
        assert(b != 0 ==> (f | b) != 0) by (bit_vector);
        assert(f != 0 ==> (f | b) != 0) by (bit_vector);
        if seen(ev, n) && ev.last().0 != n {
            let i = choose|i: int| 0 <= i < ev.len() && ev[i].0 == n;
            assert(i < t.len());
            assert(t[i] == ev[i]);
        }
    }
}

/// The sightings of a domain all carry a flag.
pub proof fn law_sightings_flagged(domain: Seq<char>, certs: Seq<Certificate>, srv: Seq<SrvRecord>, mx: Seq<MxRecord>)
    ensures
        flags_set(sightings(domain, certs, srv, mx)),
{
    lemma_cert_flags(certs);
    lemma_srv_flags(srv, domain);
    lemma_mx_flags(mx);
    let a = crate::collect::cert_sightings(certs);
    let b = seq![(domain, 4u8, None::<Seq<char>>)];
    let c = crate::collect::srv_sightings(srv, domain);
    let d = crate::collect::mx_sightings(mx);
    let ev = sightings(domain, certs, srv, mx);
    assert(ev =~= a + b + c + d);
    assert forall|i: int| 0 <= i < ev.len() implies (#[trigger] ev[i]).1 != 0 by {
        if i < a.len() {
            assert(ev[i] == a[i]);
        } else if i < a.len() + 1 {
            assert(ev[i] == b[i - a.len()]);
        } else if i < a.len() + 1 + c.len() {
            assert(ev[i] == c[i - a.len() - 1]);
        } else {
            assert(ev[i] == d[i - a.len() - 1 - c.len()]);
        }
    }
}

proof fn lemma_ct_flags(ids: Seq<Seq<char>>)
    ensures
        flags_set(crate::collect::ct_sightings(ids)),
    decreases ids.len(),
{
    if ids.len() > 0 {
        lemma_ct_flags(ids.drop_last());
    }
}

proof fn lemma_cert_flags(cs: Seq<Certificate>)
    ensures
        flags_set(crate::collect::cert_sightings(cs)),
    decreases cs.len(),
{
    if cs.len() > 0 {
        lemma_cert_flags(cs.drop_last());
        let a = crate::collect::cert_sightings(cs.drop_last());
        let b = crate::collect::ct_sightings(crate::strs::views(cs.last().identities@));
        lemma_ct_flags(crate::strs::views(cs.last().identities@));
        assert forall|i: int| 0 <= i < (a + b).len() implies (#[trigger] (a + b)[i]).1 != 0 by {
            if i < a.len() {
                assert((a + b)[i] == a[i]);
            } else {
                assert((a + b)[i] == b[i - a.len()]);
            }
        }
    }
}

proof fn lemma_srv_flags(srv: Seq<SrvRecord>, domain: Seq<char>)
    ensures
        flags_set(crate::collect::srv_sightings(srv, domain)),
    decreases srv.len(),
{
    if srv.len() > 0 {
        lemma_srv_flags(srv.drop_last(), domain);
    }
}

proof fn lemma_mx_flags(mx: Seq<MxRecord>)
    ensures
        flags_set(crate::collect::mx_sightings(mx)),
    decreases mx.len(),
{
    if mx.len() > 0 {
        lemma_mx_flags(mx.drop_last());
    }
}

// ---------------------------------------------------------------- the graph

/// In a merged graph no two nodes share an id and no relation is listed
/// twice.
pub proof fn law_graph_without_repeats(g: Graph, fs: Seq<FactV>)
    requires
        graph_of(g, fs),
    ensures
        forall|i: int, j: int|
            0 <= i < j < g.nodes@.len() ==> #[trigger] node_ids(g.nodes@)[i] != #[trigger] node_ids(
                g.nodes@,
            )[j],
        forall|i: int, j: int|
            0 <= i < j < g.links@.len() ==> #[trigger] links_v(g.links@)[i] != #[trigger] links_v(
                g.links@,
            )[j],
{
    assert forall|i: int, j: int| 0 <= i < j < g.nodes@.len() implies #[trigger] node_ids(g.nodes@)[i]
        != #[trigger] node_ids(g.nodes@)[j] by {
        lemma_lex_irrefl(node_ids(g.nodes@)[i]);
    }
    assert forall|i: int, j: int| 0 <= i < j < g.links@.len() implies #[trigger] links_v(g.links@)[i]
        != #[trigger] links_v(g.links@)[j] by {
        crate::graph::lemma_triple_irrefl(links_v(g.links@)[i]);
    }
}

// ---------------------------------------------------------------- the host table

proof fn lemma_order_irrefl(a: Host)
    ensures
        !order_lt(a, a),
{
    lemma_lex_irrefl(www_key(a.name@).0);
    lemma_lex_irrefl(a.name@);
}

proof fn lemma_order_trans(a: Host, b: Host, c: Host)
    requires
        order_lt(a, b),
        order_lt(b, c),
    ensures
        order_lt(a, c),
{
    let (ba, wa) = www_key(a.name@);
    let (bb, wb) = www_key(b.name@);
    let (bc, wc) = www_key(c.name@);
    if lex_lt(ba, bb) && lex_lt(bb, bc) {
        lemma_lex_trans(ba, bb, bc);
    } else if ba == bb && bb == bc && wa == wb && wb == wc {
        lemma_lex_trans(a.name@, b.name@, c.name@);
    }
}

proof fn lemma_order_total(a: Host, b: Host)
    ensures
        order_lt(a, b) || order_lt(b, a) || a.name@ == b.name@,
{
    let (ba, wa) = www_key(a.name@);
    let (bb, wb) = www_key(b.name@);
    lemma_lex_total(ba, bb);
    lemma_lex_total(a.name@, b.name@);
}

/// No element is listed after one that it ranks below.
pub open spec fn in_table_order(s: Seq<Host>) -> bool {
    forall|i: int, j: int| 0 <= i < j < s.len() ==> !order_lt(#[trigger] s[j], #[trigger] s[i])
}

proof fn lemma_insert_ordered(s: Seq<Host>, x: Host)
    requires
        in_table_order(s),
    ensures
        in_table_order(insert_ordered(s, x)),
        insert_ordered(s, x).to_multiset() == s.to_multiset().insert(x),
    decreases s.len(),
{
    broadcast use vstd::seq_lib::group_to_multiset_ensures;
    broadcast use vstd::multiset::group_multiset_axioms;

    if s.len() == 0 {
        assert(seq![x] =~= Seq::<Host>::empty().push(x));
    } else {
        let t = s.drop_last();
        let l = s.last();
        assert(t.push(l) =~= s);
        if order_lt(x, l) {
            assert(in_table_order(t)) by {
                assert forall|i: int, j: int| 0 <= i < j < t.len() implies !order_lt(#[trigger] t[j], #[trigger] t[i]) by {
                    assert(t[i] == s[i] && t[j] == s[j]);
                }
            }
            lemma_insert_ordered(t, x);
            let u = insert_ordered(t, x);
            assert forall|k: int| 0 <= k < u.len() implies !order_lt(l, #[trigger] u[k]) by {
                assert(u.to_multiset().count(u[k]) > 0);
                if u[k] == x {
                    if order_lt(l, x) {
                        lemma_order_trans(x, l, x);
                        lemma_order_irrefl(x);
                    }
                } else {
                    assert(t.to_multiset().count(u[k]) > 0);
                    assert(t.contains(u[k]));
                    let q = choose|q: int| 0 <= q < t.len() && t[q] == u[k];
                    assert(s[q] == t[q] && s[s.len() - 1] == l);
                }
            }
            let r = u.push(l);
            assert forall|i: int, j: int| 0 <= i < j < r.len() implies !order_lt(#[trigger] r[j], #[trigger] r[i]) by {
                if j < u.len() {
                    assert(r[i] == u[i] && r[j] == u[j]);
                } else {
                    assert(r[i] == u[i] && r[j] == l);
                }
            }
            assert(u.push(l).to_multiset() == t.to_multiset().insert(x).insert(l));
            assert(t.to_multiset().insert(x).insert(l) =~= t.to_multiset().insert(l).insert(x));
        } else {
            let r = s.push(x);
            assert forall|i: int, j: int| 0 <= i < j < r.len() implies !order_lt(#[trigger] r[j], #[trigger] r[i]) by {
                if j < s.len() {
                    assert(r[i] == s[i] && r[j] == s[j]);
                } else {
                    assert(r[i] == s[i] && r[j] == x);
                    if order_lt(x, s[i]) {
                        lemma_order_total(x, l);
                        if order_lt(l, x) {
                            lemma_order_trans(l, x, s[i]);
                        }
                        if i < s.len() - 1 {
                            assert(!order_lt(l, s[i]));
                        } else {
                            lemma_order_irrefl(l);
                        }
                    }
                }
            }
        }
    }
}

/// The host table lists hosts alphabetically by their name without "www.",
/// a bare host before its www variant: no host comes after one it ranks
/// below, and every host of the input is listed as often as it occurs.
pub proof fn law_host_table_sorted(hs: Seq<Host>)
    ensures
        in_table_order(ordered(hs)),
        ordered(hs).to_multiset() == hs.to_multiset(),
    decreases hs.len(),
{
    broadcast use vstd::seq_lib::group_to_multiset_ensures;

    if hs.len() == 0 {
        assert(hs =~= Seq::<Host>::empty());
    } else {
        law_host_table_sorted(hs.drop_last());
        lemma_insert_ordered(ordered(hs.drop_last()), hs.last());
        assert(hs.drop_last().push(hs.last()) =~= hs);
    }
}

/// A www variant ranks right after its bare host: the bare host ranks below
/// it, and no host ranks between them.
pub proof fn law_www_next_to_bare(bare: Host, www: Host, other: Host)
    requires
        !"www."@.is_prefix_of(bare.name@),
        www.name@ == "www."@ + bare.name@,
    ensures
        order_lt(bare, www),
        !(order_lt(bare, other) && order_lt(other, www)),
{
    reveal_strlit("www.");
    assert("www."@.is_prefix_of(www.name@));
    assert(www.name@.skip(4) =~= bare.name@);
    let (bo, wo) = www_key(other.name@);
    if order_lt(bare, other) && order_lt(other, www) {
        lemma_lex_irrefl(bare.name@);
        lemma_lex_asym(bare.name@, bo);
        if wo {
            assert(other.name@ =~= "www."@ + other.name@.skip(4));
            lemma_lex_irrefl(www.name@);
        }
    }
}

// ---------------------------------------------------------------- the sweep order

proof fn lemma_swapped_keeps(s: Seq<usize>, i: int, j: int)
    requires
        0 <= i < s.len(),
        0 <= j < s.len(),
    ensures
        swapped(s, i, j).len() == s.len(),
        swapped(s, i, j).to_multiset() == s.to_multiset(),
{
    broadcast use vstd::seq_lib::to_multiset_update;
    broadcast use vstd::seq_lib::to_multiset_contains;
    broadcast use vstd::multiset::group_multiset_axioms;

    let s1 = s.update(i, s[j]);
    assert(s1[j] == s[j]);
    assert(s.contains(s[i]));
    assert(s1.update(j, s[i]).to_multiset() =~= s.to_multiset());
}

proof fn lemma_shuffle_keeps(s: Seq<usize>, seed: u64, i: nat)
    requires
        i <= s.len(),
    ensures
        shuffle_from(s, seed, i).len() == s.len(),
        shuffle_from(s, seed, i).to_multiset() == s.to_multiset(),
    decreases i,
{
    if i > 1 {
        let k = (i - 1) as nat;
        let sd = lcg(seed);
        let j = ((sd >> 33u64) as nat) % (k + 1);
        lemma_swapped_keeps(s, k as int, j as int);
        lemma_shuffle_keeps(swapped(s, k as int, j as int), sd, k);
    }
}

/// The sweep visits every host exactly once, whatever the seed: its order
/// holds each of the indices below `n` once and nothing else.
pub proof fn law_sweep_visits_each_host_once(n: nat, seed: u64)
    ensures
        sweep_order(n, seed).len() == n,
        sweep_order(n, seed).to_multiset() == Seq::new(n, |k: int| k as usize).to_multiset(),
{
    lemma_shuffle_keeps(Seq::new(n, |k: int| k as usize), seed, n);
}

// ---------------------------------------------------------------- one node per host

/// An id that no host node has: it does not begin with the `h` of "host:".
pub open spec fn not_host_id(i: Seq<char>) -> bool {
    i.len() > 0 && i[0] != 'h'
}

/// A node fact either has an id no host node has, or is the node of the
/// host its id names.
pub open spec fn fact_ok(f: FactV) -> bool {
    match f {
        FactV::Node(i, l, t, g) => not_host_id(i) || (i == "host:"@ + l && t == "host"@ && g is None),
        _ => true,
    }
}

pub open spec fn facts_ok(fs: Seq<FactV>) -> bool {
    forall|k: int| 0 <= k < fs.len() ==> fact_ok(#[trigger] fs[k])
}

proof fn lemma_ok_concat(a: Seq<FactV>, b: Seq<FactV>)
    requires
        facts_ok(a),
        facts_ok(b),
    ensures
        facts_ok(a + b),
{
    assert forall|k: int| 0 <= k < (a + b).len() implies fact_ok(#[trigger] (a + b)[k]) by {
        if k < a.len() {
            assert((a + b)[k] == a[k]);
        } else {
            assert((a + b)[k] == b[k - a.len()]);
        }
    }
}

proof fn lemma_prefixed(p: Seq<char>, n: Seq<char>)
    requires
        p.len() > 0,
        p[0] != 'h',
    ensures
        not_host_id(p + n),
{
    assert((p + n)[0] == p[0]);
}

proof fn lemma_named_ok(owner: Seq<char>, name: Option<Seq<char>>, prefix: Seq<char>, group: Seq<char>, rel: Seq<char>)
    requires
        prefix.len() > 0,
        prefix[0] != 'h',
    ensures
        facts_ok(named_facts(owner, name, prefix, group, rel)),
{
    if let Some(n) = name {
        lemma_prefixed(prefix, n);
        let fs = named_facts(owner, name, prefix, group, rel);
        assert forall|k: int| 0 <= k < fs.len() implies fact_ok(#[trigger] fs[k]) by {
            assert(fs[0] == FactV::Node(prefix + n, n, "crypto"@, Some(group)));
        }
    }
}

proof fn lemma_literals()
    ensures
        "kx:"@.len() > 0 && "kx:"@[0] != 'h',
        "cipher:"@.len() > 0 && "cipher:"@[0] != 'h',
        "certsig:"@.len() > 0 && "certsig:"@[0] != 'h',
        "certkey:"@.len() > 0 && "certkey:"@[0] != 'h',
        "cert:"@.len() > 0 && "cert:"@[0] != 'h',
        "ca:"@.len() > 0 && "ca:"@[0] != 'h',
        "service:tcp/"@.len() > 0 && "service:tcp/"@[0] != 'h',
        not_host_id("service:tcp/443"@),
{
    reveal_strlit("kx:");
    reveal_strlit("cipher:");
    reveal_strlit("certsig:");
    reveal_strlit("certkey:");
    reveal_strlit("cert:");
    reveal_strlit("ca:");
    reveal_strlit("service:tcp/");
    reveal_strlit("service:tcp/443");
}

proof fn lemma_port_ok(host: Seq<char>, ps: Seq<PortScan>)
    ensures
        facts_ok(port_facts(host, ps)),
    decreases ps.len(),
{
    if ps.len() > 0 {
        lemma_port_ok(host, ps.drop_last());
        let p = ps.last();
        if p.state == ScanState::Open {
            lemma_literals();
            lemma_prefixed("service:tcp/"@, dec(p.port as nat));
            let tail = seq![
                FactV::Node(
                    port_id(p.port),
                    port_service_name(p.port) + ":"@ + dec(p.port as nat),
                    "service"@,
                    Some("tcp_service"@),
                ),
                FactV::Link(host, port_id(p.port), "exposes"@),
            ];
            assert forall|k: int| 0 <= k < tail.len() implies fact_ok(#[trigger] tail[k]) by {}
            lemma_ok_concat(port_facts(host, ps.drop_last()), tail);
        }
    }
}

proof fn lemma_negotiated_ok(host: Seq<char>, h: Host)
    ensures
        facts_ok(negotiated_facts(host, h)),
{
    lemma_literals();
    if let Some(e) = h.endpoint {
        if let Some(n) = e.negotiated {
            let c = match n.cipher {
                Some(c) => symmetric(c@),
                None => None,
            };
            lemma_named_ok(host, opt_string(n.kx_group), "kx:"@, "key_exchange"@, "negotiated_kx"@);
            lemma_named_ok(host, c, "cipher:"@, "symmetric"@, "symmetric_cipher"@);
            lemma_ok_concat(
                named_facts(host, opt_string(n.kx_group), "kx:"@, "key_exchange"@, "negotiated_kx"@),
                named_facts(host, c, "cipher:"@, "symmetric"@, "symmetric_cipher"@),
            );
        }
    }
}

proof fn lemma_entry_ok(e: ChainEntry, prev: Option<Seq<char>>)
    ensures
        facts_ok(entry_step(e, prev).0),
{
    if !(e.depth < 1 || e.common_name is None || e.common_name.unwrap()@.len() == 0) {
        lemma_literals();
        let cn = e.common_name.unwrap()@;
        let ca = ca_node_id(cn);
        lemma_prefixed("ca:"@, slug(cn));
        let sig = db_sig_name(
            opt_string(e.key_algorithm),
            e.key_size,
            opt_string(e.signature_key_algorithm),
            opt_string(e.signature_hash_algorithm),
        );
        let key = key_name(opt_string(e.key_algorithm), e.key_size, None);
        let up: Seq<FactV> = match prev {
            Some(p) => if p != ca {
                seq![FactV::Link(p, ca, "issued_by"@)]
            } else {
                Seq::empty()
            },
            None => Seq::empty(),
        };
        let head = seq![FactV::Node(ca, cn, "pki"@, Some("issuer"@)), FactV::Meta(ca, entry_meta(e))];
        assert forall|k: int| 0 <= k < head.len() implies fact_ok(#[trigger] head[k]) by {}
        assert forall|k: int| 0 <= k < up.len() implies fact_ok(#[trigger] up[k]) by {
            assert(up[k] is Link);
        }
        lemma_named_ok(ca, sig, "certsig:"@, "certificate_signature"@, "cert_signature"@);
        lemma_named_ok(ca, key, "certkey:"@, "certificate_key"@, "cert_key"@);
        let a = named_facts(ca, sig, "certsig:"@, "certificate_signature"@, "cert_signature"@);
        let b = named_facts(ca, key, "certkey:"@, "certificate_key"@, "cert_key"@);
        lemma_ok_concat(head, a);
        lemma_ok_concat(head + a, b);
        lemma_ok_concat(head + a + b, up);
        assert(entry_step(e, prev).0 == head + a + b + up);
    }
}

proof fn lemma_chain_ok(es: Seq<ChainEntry>, prev: Option<Seq<char>>)
    ensures
        facts_ok(chain_run(es, prev).0),
    decreases es.len(),
{
    if es.len() > 0 {
        lemma_chain_ok(es.drop_last(), prev);
        let p = chain_run(es.drop_last(), prev).1;
        lemma_entry_ok(es.last(), p);
        lemma_ok_concat(chain_run(es.drop_last(), prev).0, entry_step(es.last(), p).0);
    }
}

proof fn lemma_cert_ok(host: Seq<char>, f: CertFactsV, edge: Seq<char>)
    ensures
        facts_ok(cert_facts(host, f, edge)),
{
    lemma_literals();
    let id = cert_id(f);
    match f.ct_id {
        Some(i) => {
            lemma_prefixed("cert:"@, f.cn + ":"@ + dec(i as nat));
            assert("cert:"@ + f.cn + ":"@ + dec(i as nat) =~= "cert:"@ + (f.cn + ":"@ + dec(i as nat)));
        },
        None => {
            lemma_prefixed("cert:"@, f.cn);
        },
    }
    let leaf = leaf_facts(host, f, edge);
    assert forall|k: int| 0 <= k < leaf.len() implies fact_ok(#[trigger] leaf[k]) by {}
    lemma_named_ok(id, f.sig, "certsig:"@, "certificate_signature"@, "cert_signature"@);
    let key = key_name(f.key_alg, f.key_size, f.curve);
    lemma_named_ok(id, key, "certkey:"@, "certificate_key"@, "cert_key"@);
    let a = named_facts(id, f.sig, "certsig:"@, "certificate_signature"@, "cert_signature"@);
    let b = named_facts(id, key, "certkey:"@, "certificate_key"@, "cert_key"@);
    let c = issuer_facts(id, f.issuer);
    if let Some(dn) = f.issuer {
        lemma_prefixed("ca:"@, slug(dn_cn(dn)));
    }
    assert forall|k: int| 0 <= k < c.len() implies fact_ok(#[trigger] c[k]) by {}
    lemma_chain_ok(f.chain, first_ca(f.issuer));
    let d = chain_run(f.chain, first_ca(f.issuer)).0;
    lemma_ok_concat(leaf, a);
    lemma_ok_concat(leaf + a, b);
    lemma_ok_concat(leaf + a + b, c);
    lemma_ok_concat(leaf + a + b + c, d);
}

proof fn lemma_host_ok(certs: Seq<Certificate>, h: Host)
    ensures
        facts_ok(host_facts(certs, h)),
{
    lemma_literals();
    let hid = "host:"@ + h.name@;
    let head = seq![FactV::Node(hid, h.name@, "host"@, None)];
    assert forall|k: int| 0 <= k < head.len() implies fact_ok(#[trigger] head[k]) by {}
    let ex: Seq<FactV> = if exposed(h) {
        seq![
            FactV::Node("service:tcp/443"@, "TCP/443"@, "service"@, Some("tcp_service"@)),
            FactV::Link(hid, "service:tcp/443"@, "exposes"@),
        ]
    } else {
        Seq::empty()
    };
    assert forall|k: int| 0 <= k < ex.len() implies fact_ok(#[trigger] ex[k]) by {}
    lemma_port_ok(hid, h.ports@);
    lemma_negotiated_ok(hid, h);
    let cf = match host_cert(certs, h) {
        Some((f, edge)) => cert_facts(hid, f, edge),
        None => Seq::empty(),
    };
    if let Some((f, edge)) = host_cert(certs, h) {
        lemma_cert_ok(hid, f, edge);
    }
    assert forall|k: int| 0 <= k < cf.len() implies fact_ok(#[trigger] cf[k]) by {}
    lemma_ok_concat(head, ex);
    lemma_ok_concat(head + ex, port_facts(hid, h.ports@));
    lemma_ok_concat(head + ex + port_facts(hid, h.ports@), negotiated_facts(hid, h));
    lemma_ok_concat(head + ex + port_facts(hid, h.ports@) + negotiated_facts(hid, h), cf);
    assert(host_facts(certs, h) == head + ex + port_facts(hid, h.ports@) + negotiated_facts(hid, h) + cf);
}

proof fn lemma_state_ok(certs: Seq<Certificate>, hosts: Seq<Host>)
    ensures
        facts_ok(state_facts(certs, hosts)),
    decreases hosts.len(),
{
    if hosts.len() > 0 {
        lemma_state_ok(certs, hosts.drop_last());
        lemma_host_ok(certs, hosts.last());
        lemma_ok_concat(state_facts(certs, hosts.drop_last()), host_facts(certs, hosts.last()));
    }
}

proof fn lemma_host_node_in(certs: Seq<Certificate>, hosts: Seq<Host>, h: Host) -> (k: int)
    requires
        hosts.contains(h),
    ensures
        0 <= k < state_facts(certs, hosts).len(),
        state_facts(certs, hosts)[k] == FactV::Node("host:"@ + h.name@, h.name@, "host"@, None),
    decreases hosts.len(),
{
    let a = state_facts(certs, hosts.drop_last());
    let b = host_facts(certs, hosts.last());
    if hosts.last() == h {
        assert(b[0] == FactV::Node("host:"@ + h.name@, h.name@, "host"@, None));
        assert((a + b)[a.len() as int] == b[0]);
        a.len() as int
    } else {
        let j = choose|j: int| 0 <= j < hosts.len() && hosts[j] == h;
        assert(hosts.drop_last()[j] == h);
        let k = lemma_host_node_in(certs, hosts.drop_last(), h);
        assert((a + b)[k] == a[k]);
        k
    }
}

proof fn lemma_first_node_found(fs: Seq<FactV>, id: Seq<char>, k: int)
    requires
        0 <= k < fs.len(),
        fs[k] matches FactV::Node(i, _, _, _) && i == id,
    ensures
        first_node(fs, id) is Some,
    decreases fs.len(),
{
    if k < fs.len() - 1 {
        assert(fs.drop_last()[k] == fs[k]);
        lemma_first_node_found(fs.drop_last(), id, k);
    }
}

proof fn lemma_first_node_is_a_fact(fs: Seq<FactV>, id: Seq<char>)
    requires
        first_node(fs, id) is Some,
    ensures
        exists|k: int| 0 <= k < fs.len() && fs[k] == FactV::Node(
            id,
            first_node(fs, id).unwrap().0,
            first_node(fs, id).unwrap().1,
            first_node(fs, id).unwrap().2,
        ),
    decreases fs.len(),
{
    if first_node(fs.drop_last(), id) is Some {
        lemma_first_node_is_a_fact(fs.drop_last(), id);
        let k = choose|k: int| 0 <= k < fs.drop_last().len() && fs.drop_last()[k] == FactV::Node(
            id,
            first_node(fs.drop_last(), id).unwrap().0,
            first_node(fs.drop_last(), id).unwrap().1,
            first_node(fs.drop_last(), id).unwrap().2,
        );
        assert(fs[k] == fs.drop_last()[k]);
    } else {
        assert(fs[fs.len() - 1] == fs.last());
    }
}

/// Every host of the state is one node of its graph: exactly one node has
/// the id `host:` and the host's name, and that node is a host node labelled
/// with the name and in no group.
pub proof fn law_one_node_per_host(g: Graph, certs: Seq<Certificate>, hosts: Seq<Host>, h: Host)
    requires
        graph_of(g, state_facts(certs, hosts)),
        hosts.contains(h),
    ensures
        exists|i: int| 0 <= i < g.nodes@.len() && #[trigger] g.nodes@[i].id@ == "host:"@ + h.name@,
        forall|i: int|
            0 <= i < g.nodes@.len() && #[trigger] g.nodes@[i].id@ == "host:"@ + h.name@ ==> {
                &&& g.nodes@[i].label@ == h.name@
                &&& g.nodes@[i].node_type@ == "host"@
                &&& g.nodes@[i].group is None
            },
        forall|i: int, j: int|
            0 <= i < g.nodes@.len() && 0 <= j < g.nodes@.len() && #[trigger] g.nodes@[i].id@ == "host:"@
                + h.name@ && #[trigger] g.nodes@[j].id@ == "host:"@ + h.name@ ==> i == j,
{
    let fs = state_facts(certs, hosts);
    let hid = "host:"@ + h.name@;
    reveal_strlit("host:");
    let k = lemma_host_node_in(certs, hosts, h);
    lemma_first_node_found(fs, hid, k);
    assert(node_ids(g.nodes@).contains(hid));
    let q = choose|q: int| 0 <= q < node_ids(g.nodes@).len() && node_ids(g.nodes@)[q] == hid;
    assert(g.nodes@[q].id@ == hid);
    lemma_state_ok(certs, hosts);
    lemma_first_node_is_a_fact(fs, hid);
    let x = first_node(fs, hid).unwrap();
    let m = choose|m: int| 0 <= m < fs.len() && fs[m] == FactV::Node(hid, x.0, x.1, x.2);
    assert(fact_ok(fs[m]));
    assert(hid[0] == 'h');
    assert((hid).skip(5) =~= h.name@);
    assert(("host:"@ + x.0).skip(5) =~= x.0);
    assert(x.0 == h.name@);
    assert forall|i: int|
        0 <= i < g.nodes@.len() && #[trigger] g.nodes@[i].id@ == hid implies {
            &&& g.nodes@[i].label@ == h.name@
            &&& g.nodes@[i].node_type@ == "host"@
            &&& g.nodes@[i].group is None
        } by {
        assert(first_node(fs, g.nodes@[i].id@) == Some(
            (g.nodes@[i].label@, g.nodes@[i].node_type@, group_v(g.nodes@[i].group)),
        ));
    }
    assert forall|i: int, j: int|
        0 <= i < g.nodes@.len() && 0 <= j < g.nodes@.len() && #[trigger] g.nodes@[i].id@ == hid
            && #[trigger] g.nodes@[j].id@ == hid implies i == j by {
        assert(node_ids(g.nodes@)[i] == hid && node_ids(g.nodes@)[j] == hid);
        if i < j {
            lemma_lex_irrefl(hid);
        } else if j < i {
            lemma_lex_irrefl(hid);
        }
    }
}

// ---------------------------------------------------------------- record names

proof fn lemma_trim_end(s: Seq<char>, c: char)
    ensures
        trim_end_char(s, c).len() <= s.len(),
        trim_end_char(s, c) =~= s.subrange(0, trim_end_char(s, c).len() as int),
        trim_end_char(s, c).len() == 0 || trim_end_char(s, c).last() != c,
    decreases s.len(),
{
    if s.len() > 0 && s.last() == c {
        lemma_trim_end(s.drop_last(), c);
    } else {
        assert(s =~= s.subrange(0, s.len() as int));
    }
}

/// Taking a record name from an ASCII target twice gives what taking it once
/// gives, and the name is ASCII again.
pub proof fn law_strip_dot_idempotent(t: Seq<char>)
    requires
        ascii_only(t),
    ensures
        ascii_only(ascii_target_name(t)),
        ascii_target_name(ascii_target_name(t)) == ascii_target_name(t),
{
    reveal_strlit(".");
    if t != "."@ {
        let b = trim_end_char(t, '.');
        lemma_trim_end(t, '.');
        let u = lower_ascii(b);
        assert forall|i: int| 0 <= i < u.len() implies (#[trigger] u[i] as u32) < 128 by {
            assert(b[i] == t[i]);
            assert((t[i] as u32) < 128);
        }
        if u.len() > 0 {
            assert(u.last() == lower_char(b.last()));
            assert(u.last() != '.');
        }
        assert(trim_end_char(u, '.') == u);
        assert forall|i: int| 0 <= i < u.len() implies #[trigger] lower_ascii(u)[i] == u[i] by {
            assert(u[i] == lower_char(b[i]));
        }
        assert(lower_ascii(u) =~= u);
        if u == "."@ {
            assert(u.last() == '.');
        }
    }
}

// ---------------------------------------------------------------- port scans

/// A port's scan records the port and the time of the attempt, and shows a
/// certificate or negotiated crypto only for an open port that was followed
/// up by a handshake: a direct TLS port, or SMTP's STARTTLS ports 25 and 587.
pub proof fn law_scan_shows_tls_only_when_followed(
    port: u16,
    kind: PortKind,
    state: ScanState,
    at: i64,
    upgrade: Option<(Option<ServedCert>, Option<Negotiated>)>,
)
    ensures
        scan_of(port, kind, state, at, upgrade).port == port,
        scan_of(port, kind, state, at, upgrade).observed_at == Some(at),
        scan_of(port, kind, state, at, upgrade).state == state,
        scan_of(port, kind, state, at, upgrade).served is Some || scan_of(port, kind, state, at, upgrade).negotiated is Some
            ==> state == ScanState::Open && (kind == PortKind::StartTls ==> port == 25 || port == 587),
{
}

// ---------------------------------------------------------------- references to certificates

/// The reference `r` names a currently valid record among `certs` that
/// covers `host`: as an exact match when `host` is one of its names, else by
/// one of its wildcards.
pub open spec fn backed_by_valid_cert(certs: Seq<Certificate>, host: Seq<char>, r: (Seq<char>, MatchKind)) -> bool {
    exists|j: int|
        0 <= j < certs.len() && #[trigger] certs[j].serial@ == r.0 && certs[j].currently_valid && (r.1
            == MatchKind::Exact <==> views(certs[j].identities@).contains(host)) && (r.1 == MatchKind::Wildcard
            ==> exists|i: int|
            0 <= i < certs[j].identities@.len() && wildcard_covers(#[trigger] certs[j].identities@[i]@, host))
}

/// Every reference `cert_refs` gives names a currently valid certificate
/// that covers the host: exactly when the host is one of its names, else by
/// a wildcard of it. Every currently valid certificate that names the host
/// is referenced as an exact match.
pub proof fn law_refs_name_valid_covering_certs(certs: Seq<Certificate>, host: Seq<char>)
    ensures
        forall|k: int|
            0 <= k < refs_for(certs, host).len() ==> backed_by_valid_cert(
                certs,
                host,
                #[trigger] refs_for(certs, host)[k],
            ),
        forall|j: int|
            0 <= j < certs.len() && certs[j].currently_valid && views(certs[j].identities@).contains(host)
                ==> refs_for(certs, host).contains((#[trigger] certs[j].serial@, MatchKind::Exact)),
    decreases certs.len(),
{
    if certs.len() > 0 {
        let prev_c = certs.drop_last();
        law_refs_name_valid_covering_certs(prev_c, host);
        let prev = refs_for(prev_c, host);
        let r = refs_for(certs, host);
        let last = certs.last();
        assert forall|k: int| 0 <= k < r.len() implies backed_by_valid_cert(certs, host, #[trigger] r[k]) by {
            if k < prev.len() {
                assert(r[k] == prev[k]);
                assert(backed_by_valid_cert(prev_c, host, prev[k]));
                let j = choose|j: int|
                    0 <= j < prev_c.len() && #[trigger] prev_c[j].serial@ == prev[k].0 && prev_c[j].currently_valid && (
                    prev[k].1 == MatchKind::Exact <==> views(prev_c[j].identities@).contains(host)) && (prev[k].1
                        == MatchKind::Wildcard ==> exists|i: int|
                        0 <= i < prev_c[j].identities@.len() && wildcard_covers(
                            #[trigger] prev_c[j].identities@[i]@,
                            host,
                        ));
                assert(certs[j] == prev_c[j]);
            } else {
                let j = certs.len() - 1;
                assert(certs[j] == last);
                if r[k].1 == MatchKind::Wildcard {
                    let ids = views(last.identities@);
                    let i = choose|i: int| 0 <= i < ids.len() && wildcard_covers(ids[i], host);
                    assert(ids[i] == last.identities@[i]@);
                }
            }
        }
        assert forall|j: int|
            0 <= j < certs.len() && certs[j].currently_valid && views(certs[j].identities@).contains(host) implies r.contains(
            (#[trigger] certs[j].serial@, MatchKind::Exact),
        ) by {
            if j < certs.len() - 1 {
                assert(certs[j] == prev_c[j]);
                let q = choose|q: int| 0 <= q < prev.len() && prev[q] == (prev_c[j].serial@, MatchKind::Exact);
                assert(r[q] == prev[q]);
            } else {
                assert(r[r.len() - 1] == (last.serial@, MatchKind::Exact));
            }
        }
    }
}

// ---------------------------------------------------------------- the certificate of a host

/// Expiry `a` is no later than expiry `b`; a missing expiry is the earliest.
pub open spec fn expires_no_later(a: Option<i64>, b: Option<i64>) -> bool {
    match b {
        None => a is None,
        Some(y) => match a {
            None => true,
            Some(x) => x <= y,
        },
    }
}

/// Some reference of the host covers it exactly.
pub open spec fn any_exact_ref(refs: Seq<CertRef>) -> bool {
    exists|k: int| 0 <= k < refs.len() && #[trigger] refs[k].kind == MatchKind::Exact
}

/// `c` is a record that one of the host's references names, an exact one
/// when the host has any.
pub open spec fn covering_candidate(refs: Seq<CertRef>, certs: Seq<Certificate>, c: Certificate) -> bool {
    &&& certs.contains(c)
    &&& exists|k: int|
        0 <= k < refs.len() && #[trigger] refs[k].serial@ == c.serial@ && (any_exact_ref(refs) ==> refs[k].kind
            == MatchKind::Exact)
}

proof fn lemma_latest(cs: Seq<Certificate>)
    ensures
        latest(cs) is None <==> cs.len() == 0,
        latest(cs) matches Some(c) ==> cs.contains(c) && forall|d: Certificate|
            #[trigger] cs.contains(d) ==> expires_no_later(d.not_after, c.not_after),
    decreases cs.len(),
{
    if cs.len() > 0 {
        let p = cs.drop_last();
        lemma_latest(p);
        let l = cs.last();
        assert(cs[cs.len() - 1] == l);
        assert forall|d: Certificate| #[trigger] cs.contains(d) implies d == l || p.contains(d) by {
            let i = choose|i: int| 0 <= i < cs.len() && cs[i] == d;
            if i < cs.len() - 1 {
                assert(p[i] == d);
            }
        }
        assert forall|d: Certificate| #[trigger] p.contains(d) implies cs.contains(d) by {
            let i = choose|i: int| 0 <= i < p.len() && p[i] == d;
            assert(cs[i] == d);
        }
    }
}

proof fn lemma_lookup(certs: Seq<Certificate>, s: Seq<char>)
    ensures
        lookup(certs, s) matches Some(c) ==> certs.contains(c) && c.serial@ == s,
        lookup(certs, s) is None ==> forall|j: int| 0 <= j < certs.len() ==> #[trigger] certs[j].serial@ != s,
        sorted_strict(cert_keys(certs)) ==> forall|j: int|
            0 <= j < certs.len() && #[trigger] certs[j].serial@ == s ==> lookup(certs, s) == Some(certs[j]),
    decreases certs.len(),
{
    if certs.len() > 0 {
        let t = certs.drop_first();
        lemma_lookup(t, s);
        assert forall|j: int| 0 <= j < t.len() implies #[trigger] t[j] == certs[j + 1] by {}
        if lookup(certs, s) is None {
            assert forall|j: int| 0 <= j < certs.len() implies #[trigger] certs[j].serial@ != s by {
                if j > 0 {
                    assert(certs[j] == t[j - 1]);
                }
            }
        }
        if let Some(c) = lookup(t, s) {
            if certs[0].serial@ != s {
                let i = choose|i: int| 0 <= i < t.len() && t[i] == c;
                assert(certs[i + 1] == c);
            }
        }
        if sorted_strict(cert_keys(certs)) {
            assert(sorted_strict(cert_keys(t))) by {
                assert forall|a: int, b: int| 0 <= a < b < cert_keys(t).len() implies lex_lt(
                    #[trigger] cert_keys(t)[a],
                    #[trigger] cert_keys(t)[b],
                ) by {
                    assert(cert_keys(t)[a] == cert_keys(certs)[a + 1]);
                    assert(cert_keys(t)[b] == cert_keys(certs)[b + 1]);
                }
            }
            assert forall|j: int| 0 <= j < certs.len() && #[trigger] certs[j].serial@ == s implies lookup(certs, s)
                == Some(certs[j]) by {
                if j > 0 {
                    if certs[0].serial@ == s {
                        assert(cert_keys(certs)[0] == s && cert_keys(certs)[j] == s);
                        lemma_lex_irrefl(s);
                    } else {
                        assert(t[j - 1].serial@ == s);
                    }
                }
            }
        }
    }
}

proof fn lemma_candidates(refs: Seq<CertRef>, only: bool, certs: Seq<Certificate>)
    requires
        sorted_strict(cert_keys(certs)),
    ensures
        forall|c: Certificate|
            #[trigger] candidates(refs, only, certs).contains(c) <==> certs.contains(c) && exists|k: int|
                0 <= k < refs.len() && #[trigger] refs[k].serial@ == c.serial@ && (only ==> refs[k].kind
                    == MatchKind::Exact),
    decreases refs.len(),
{
    if refs.len() > 0 {
        let rp = refs.drop_last();
        lemma_candidates(rp, only, certs);
        let prev = candidates(rp, only, certs);
        let cs = candidates(refs, only, certs);
        let r = refs.last();
        lemma_lookup(certs, r.serial@);
        assert forall|c: Certificate| #[trigger] cs.contains(c) <==> certs.contains(c) && exists|k: int|
            0 <= k < refs.len() && #[trigger] refs[k].serial@ == c.serial@ && (only ==> refs[k].kind == MatchKind::Exact) by {
            if cs.contains(c) {
                let i = choose|i: int| 0 <= i < cs.len() && cs[i] == c;
                if i < prev.len() && cs.len() > prev.len() {
                    assert(cs[i] == prev[i]);
                    assert(prev.contains(c));
                } else if cs.len() == prev.len() {
                    assert(prev.contains(c));
                }
                if prev.contains(c) {
                    let k = choose|k: int| 0 <= k < rp.len() && #[trigger] rp[k].serial@ == c.serial@ && (only ==> rp[k].kind
                        == MatchKind::Exact);
                    assert(refs[k] == rp[k]);
                } else {
                    assert(refs[refs.len() - 1] == r);
                }
            }
            if certs.contains(c) && exists|k: int|
                0 <= k < refs.len() && #[trigger] refs[k].serial@ == c.serial@ && (only ==> refs[k].kind
                    == MatchKind::Exact) {
                let k = choose|k: int|
                    0 <= k < refs.len() && #[trigger] refs[k].serial@ == c.serial@ && (only ==> refs[k].kind
                        == MatchKind::Exact);
                if k < refs.len() - 1 {
                    assert(rp[k] == refs[k]);
                    assert(prev.contains(c));
                    let i = choose|i: int| 0 <= i < prev.len() && prev[i] == c;
                    if cs.len() > prev.len() {
                        assert(cs[i] == prev[i]);
                    }
                } else {
                    let j = choose|j: int| 0 <= j < certs.len() && certs[j] == c;
                    assert(lookup(certs, r.serial@) == Some(c));
                    assert(cs[cs.len() - 1] == c);
                }
            }
        }
    }
}

/// A host that served no certificate is attributed one of the records its
/// references name, exact matches only when it has any, and no other such
/// record expires later; it is attributed none when no reference names a
/// record.
pub proof fn law_unserved_host_gets_latest_covering(certs: Seq<Certificate>, h: Host)
    requires
        served_of(h) is None,
        sorted_strict(cert_keys(certs)),
    ensures
        host_cert(certs, h) is None <==> !exists|c: Certificate| #[trigger] covering_candidate(h.ct_refs@, certs, c),
        host_cert(certs, h) matches Some(p) ==> p.1 == "certificate_for"@ && exists|c: Certificate|
            #[trigger] covering_candidate(h.ct_refs@, certs, c) && p.0 == ct_facts(c) && forall|d: Certificate|
                #[trigger] covering_candidate(h.ct_refs@, certs, d) ==> expires_no_later(d.not_after, c.not_after),
{
    let refs = h.ct_refs@;
    let only = has_exact(refs);
    assert(only == any_exact_ref(refs));
    lemma_candidates(refs, only, certs);
    let cs = candidates(refs, only, certs);
    lemma_latest(cs);
    assert forall|c: Certificate| #[trigger] covering_candidate(refs, certs, c) <==> cs.contains(c) by {
        if cs.contains(c) {
            let k = choose|k: int|
                0 <= k < refs.len() && #[trigger] refs[k].serial@ == c.serial@ && (only ==> refs[k].kind
                    == MatchKind::Exact);
            assert(covering_candidate(refs, certs, c));
        }
        if covering_candidate(refs, certs, c) {
            let k = choose|k: int|
                0 <= k < refs.len() && #[trigger] refs[k].serial@ == c.serial@ && (any_exact_ref(refs) ==> refs[k].kind
                    == MatchKind::Exact);
            assert(cs.contains(c));
        }
    }
    if cs.len() > 0 {
        assert(cs.contains(cs[0]));
        assert(covering_candidate(refs, certs, cs[0]));
    }
    match latest(cs) {
        Some(c) => {
            assert(host_cert(certs, h) == Some((ct_facts(c), "certificate_for"@)));
            assert(covering_candidate(refs, certs, c));
            assert forall|d: Certificate| #[trigger] covering_candidate(refs, certs, d) implies expires_no_later(
                d.not_after,
                c.not_after,
            ) by {
                assert(cs.contains(d));
            }
        },
        None => {
            assert(host_cert(certs, h) is None);
            assert forall|c: Certificate| !#[trigger] covering_candidate(refs, certs, c) by {
                if covering_candidate(refs, certs, c) {
                    assert(cs.contains(c));
                }
            }
        },
    }
}

// ---------------------------------------------------------------- host categories

/// The probe decides first: a host whose probe succeeded is EXPOSED.
/// Otherwise a name that resolves, or exists without addresses, is
/// RESOLVING; otherwise a host that certificates cover is PKI-ONLY, and any
/// other host is UNRESOLVED.
pub proof fn law_host_categories(h: Host)
    ensures
        (h.endpoint matches Some(e) && e.status == ProbeStatus::Success) ==> category(h) == Category::Exposed,
        !(h.endpoint matches Some(e) && e.status == ProbeStatus::Success) && (h.dns_status == Some(DnsStatus::Resolved)
            || h.dns_status == Some(DnsStatus::NoData)) ==> category(h) == Category::Resolving,
        !(h.endpoint matches Some(e) && e.status == ProbeStatus::Success) && h.dns_status != Some(DnsStatus::Resolved)
            && h.dns_status != Some(DnsStatus::NoData) && h.ct_refs@.len() > 0 ==> category(h) == Category::PkiOnly,
        !(h.endpoint matches Some(e) && e.status == ProbeStatus::Success) && h.dns_status != Some(DnsStatus::Resolved)
            && h.dns_status != Some(DnsStatus::NoData) && h.ct_refs@.len() == 0 ==> category(h) == Category::Unresolved,
{
}

/// A section of the host table lists exactly the hosts of its category,
/// each as often as the state holds it.
pub proof fn law_sections_hold_their_category(hs: Seq<Host>, c: Category, h: Host)
    ensures
        in_category(hs, c).contains(h) <==> hs.contains(h) && category(h) == c,
    decreases hs.len(),
{
    if hs.len() > 0 {
        law_sections_hold_their_category(hs.drop_last(), c, h);
        let p = hs.drop_last();
        let q = in_category(p, c);
        if hs.contains(h) && category(h) == c {
            let i = choose|i: int| 0 <= i < hs.len() && hs[i] == h;
            if i < hs.len() - 1 {
                assert(p[i] == h);
                let k = choose|k: int| 0 <= k < q.len() && q[k] == h;
                if category(hs.last()) == c {
                    assert(in_category(hs, c)[k] == h);
                }
            } else {
                assert(in_category(hs, c)[q.len() as int] == h);
            }
        }
        if in_category(hs, c).contains(h) {
            let k = choose|k: int| 0 <= k < in_category(hs, c).len() && in_category(hs, c)[k] == h;
            if k < q.len() {
                if category(hs.last()) == c {
                    assert(in_category(hs, c)[k] == q[k]);
                }
                assert(q.contains(h));
                let i = choose|i: int| 0 <= i < p.len() && p[i] == h;
                assert(hs[i] == h);
            } else {
                assert(hs[hs.len() - 1] == h);
            }
        }
    }
}

// ---------------------------------------------------------------- key names

/// A key whose algorithm is not of the ECDSA class is named by that class,
/// followed by `-` and the key size when one is given.
pub proof fn law_key_name_by_class(a: Seq<char>, ks: Option<i64>, curve: Option<Seq<char>>)
    ensures
        alg_class(a) != "ECDSA"@ ==> key_name(Some(a), ks, curve) == Some(
            alg_class(a) + match ks {
                Some(b) => "-"@ + dec_int(b as int),
                None => Seq::<char>::empty(),
            },
        ),
{
    if alg_class(a) != "ECDSA"@ && ks is None {
        assert(alg_class(a) + Seq::<char>::empty() =~= alg_class(a));
    }
}

/// An algorithm named as RSA (`rsaEncryption`, `RSA`, `sha256WithRSA`...)
/// gives keys named `RSA-<bits>`; one named as ECDSA or an EC public key
/// gives keys named `EC-<bits>`.
pub proof fn law_rsa_and_ec_key_names(a: Seq<char>, b: i64, curve: Option<Seq<char>>)
    ensures
        ({
            let l = lower_ascii(trim(a));
            &&& !has_sub(l, "ed25519"@)
            &&& !has_sub(l, "ed448"@)
            &&& !"ml-dsa"@.is_prefix_of(l)
            &&& !has_sub(l, "mldsa"@)
            &&& !has_sub(l, "ecdsa"@)
            &&& !has_sub(l, "ecpublickey"@)
            &&& l != "ec"@
            &&& has_sub(l, "rsa"@)
        }) ==> key_name(Some(a), Some(b), curve) == Some("RSA"@ + "-"@ + dec_int(b as int)),
        ({
            let l = lower_ascii(trim(a));
            &&& !has_sub(l, "ed25519"@)
            &&& !has_sub(l, "ed448"@)
            &&& !"ml-dsa"@.is_prefix_of(l)
            &&& !has_sub(l, "mldsa"@)
            &&& (has_sub(l, "ecdsa"@) || has_sub(l, "ecpublickey"@) || l == "ec"@)
        }) ==> key_name(Some(a), Some(b), curve) == Some("EC-"@ + dec_int(b as int)),
{
    reveal_strlit("RSA");
    reveal_strlit("ECDSA");
}

// ---------------------------------------------------------------- the summary

/// `n` is a name of a currently valid certificate.
pub open spec fn valid_identity(certs: Seq<Certificate>, n: Seq<char>) -> bool {
    exists|j: int, k: int|
        0 <= j < certs.len() && certs[j].currently_valid && 0 <= k < certs[j].identities@.len()
            && #[trigger] certs[j].identities@[k]@ == n
}

/// The name begins with `*.`.
pub open spec fn starts_with_star_dot(n: Seq<char>) -> bool {
    n.len() >= 2 && n[0] == '*' && n[1] == '.'
}

proof fn lemma_valid_ids(certs: Seq<Certificate>)
    ensures
        valid_ids(certs) == Set::new(|n: Seq<char>| valid_identity(certs, n)),
    decreases certs.len(),
{
    if certs.len() > 0 {
        let p = certs.drop_last();
        lemma_valid_ids(p);
        let l = certs.last();
        assert forall|n: Seq<char>| valid_ids(certs).contains(n) <==> valid_identity(certs, n) by {
            if valid_identity(certs, n) {
                let (j, k) = choose|j: int, k: int|
                    0 <= j < certs.len() && certs[j].currently_valid && 0 <= k < certs[j].identities@.len()
                        && #[trigger] certs[j].identities@[k]@ == n;
                if j < certs.len() - 1 {
                    assert(p[j] == certs[j]);
                    assert(valid_identity(p, n));
                } else {
                    assert(views(l.identities@)[k] == n);
                }
            }
            if valid_ids(certs).contains(n) {
                if l.currently_valid && views(l.identities@).to_set().contains(n) {
                    let k = choose|k: int| 0 <= k < views(l.identities@).len() && views(l.identities@)[k] == n;
                    assert(certs[certs.len() - 1].identities@[k]@ == n);
                } else {
                    assert(valid_identity(p, n));
                    let (j, k) = choose|j: int, k: int|
                        0 <= j < p.len() && p[j].currently_valid && 0 <= k < p[j].identities@.len()
                            && #[trigger] p[j].identities@[k]@ == n;
                    assert(certs[j] == p[j]);
                }
            }
        }
        assert(valid_ids(certs) =~= Set::new(|n: Seq<char>| valid_identity(certs, n)));
    } else {
        assert(valid_ids(certs) =~= Set::new(|n: Seq<char>| valid_identity(certs, n)));
    }
}

/// The summary ends with three rows: the number of distinct names of the
/// currently valid certificates, of those that are concrete host names
/// (not beginning with `*.`), and of the wildcards among them.
pub proof fn law_summary_counts_identities(s: DomainState)
    ensures
        (stat_row("Unique identities:"@, Set::new(|n: Seq<char>| valid_identity(s.certs@, n)).len())
            + stat_row(
            "Concrete hostnames:"@,
            Set::new(|n: Seq<char>| valid_identity(s.certs@, n) && !starts_with_star_dot(n)).len(),
        ) + stat_row(
            "Wildcard identities:"@,
            Set::new(|n: Seq<char>| valid_identity(s.certs@, n) && starts_with_star_dot(n)).len(),
        )).is_suffix_of(summary_text(s)),
{
    reveal_strlit("*.");
    let certs = s.certs@;
    lemma_valid_ids(certs);
    assert forall|n: Seq<char>| is_wildcard_name(n) <==> starts_with_star_dot(n) by {
        if starts_with_star_dot(n) {
            assert("*."@ =~= n.subrange(0, 2));
        }
        if is_wildcard_name(n) {
            assert(n.subrange(0, 2) =~= "*."@);
            assert(n[0] == n.subrange(0, 2)[0]);
            assert(n[1] == n.subrange(0, 2)[1]);
        }
    }
    assert(concrete_ids(certs) =~= Set::new(|n: Seq<char>| valid_identity(certs, n) && !starts_with_star_dot(n)));
    assert(wildcard_ids(certs) =~= Set::new(|n: Seq<char>| valid_identity(certs, n) && starts_with_star_dot(n)));
    let tail = stat_row("Unique identities:"@, valid_ids(certs).len()) + stat_row(
        "Concrete hostnames:"@,
        concrete_ids(certs).len(),
    ) + stat_row("Wildcard identities:"@, wildcard_ids(certs).len());
    let head = "Certificate estate: '"@ + s.domain@ + "'\n\n"@ + stat_row("CT certificates:"@, s.ct_stats.rows as nat)
        + stat_row("Currently valid:"@, s.ct_stats.valid as nat) + stat_row(
        "Future-valid:"@,
        s.ct_stats.future as nat,
    ) + "\n"@;
    assert(summary_text(s) =~= head + tail);
    assert((head + tail).subrange(head.len() as int, (head + tail).len() as int) =~= tail);
}

} // verus!
