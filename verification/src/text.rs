//! The text views of a domain state: the combined table of hosts and DNS
//! records, the certificate estate summary, the concrete host names and the
//! certificate table.

use vstd::prelude::*;

use crate::dns::{label_in, service_label, srv_table};
use crate::graph_build::exposed;
use crate::ct::{is_wildcard, is_wildcard_name};
use crate::model::{
    Certificate, DnsStatus, DomainState, Host, HttpsRecord, ProbeStatus, SrvRecord,
};
use crate::strs::{
    chars_of, dec, dec_u64, eq_chars, insert_sorted, lemma_lex_irrefl, lemma_views_push, less,
    lex_lt, opt_string, pad, push_all, push_padded, push_str, slice_chars, sorted_strict,
    starts_with_str, string_of, views,
};

verus! {

/// How far a host is known to be reachable.
#[derive(Debug, Clone, Copy, PartialEq, Eq, Structural)]
pub enum Category {
    /// A service answered the live probe.
    Exposed,
    /// Its name resolves, no service identified yet.
    Resolving,
    /// Only certificates name it.
    PkiOnly,
    /// No certificate and no current service signal.
    Unresolved,
}

pub open spec fn category(h: Host) -> Category {
    if exposed(h) {
        Category::Exposed
    } else if h.dns_status == Some(DnsStatus::Resolved) || h.dns_status == Some(DnsStatus::NoData) {
        Category::Resolving
    } else if h.ct_refs@.len() > 0 {
        Category::PkiOnly
    } else {
        Category::Unresolved
    }
}

pub open spec fn title_of(c: Category) -> Seq<char> {
    match c {
        Category::Exposed => "EXPOSED"@,
        Category::Resolving => "RESOLVING"@,
        Category::PkiOnly => "PKI-ONLY"@,
        Category::Unresolved => "UNRESOLVED"@,
    }
}

impl Category {
    pub fn title(&self) -> (r: &'static str)
        ensures
            r@ == title_of(*self),
    {
        match self {
            Category::Exposed => "EXPOSED",
            Category::Resolving => "RESOLVING",
            Category::PkiOnly => "PKI-ONLY",
            Category::Unresolved => "UNRESOLVED",
        }
    }

    pub fn of(host: &Host) -> (r: Category)
        ensures
            r == category(*host),
    {
        let up = match &host.endpoint {
            Some(e) => matches!(e.status, ProbeStatus::Success),
            None => false,
        };
        if up {
            return Category::Exposed;
        }
        if matches!(host.dns_status, Some(DnsStatus::Resolved) | Some(DnsStatus::NoData)) {
            return Category::Resolving;
        }
        if host.ct_refs.len() > 0 {
            Category::PkiOnly
        } else {
            Category::Unresolved
        }
    }
}

// ---------------------------------------------------------------- order

/// "www.x" sorts as ("x", true), "x" as ("x", false).
pub open spec fn www_key(name: Seq<char>) -> (Seq<char>, bool) {
    if "www."@.is_prefix_of(name) {
        (name.skip(4), true)
    } else {
        (name, false)
    }
}

/// Alphabetical by name without "www.", the bare host before its www
/// variant, then by the full name.
pub open spec fn order_lt(a: Host, b: Host) -> bool {
    let (ba, wa) = www_key(a.name@);
    let (bb, wb) = www_key(b.name@);
    lex_lt(ba, bb) || (ba == bb && ((!wa && wb) || (wa == wb && lex_lt(a.name@, b.name@))))
}

/// `x` placed into `s` after every element not above it.
pub open spec fn insert_ordered(s: Seq<Host>, x: Host) -> Seq<Host>
    decreases s.len(),
{
    if s.len() == 0 {
        seq![x]
    } else if order_lt(x, s.last()) {
        insert_ordered(s.drop_last(), x).push(s.last())
    } else {
        s.push(x)
    }
}

/// The hosts in table order; hosts of equal rank keep their order.
pub open spec fn ordered(hs: Seq<Host>) -> Seq<Host>
    decreases hs.len(),
{
    if hs.len() == 0 {
        Seq::empty()
    } else {
        insert_ordered(ordered(hs.drop_last()), hs.last())
    }
}

proof fn lemma_insert_at(s: Seq<Host>, x: Host, p: int)
    requires
        0 <= p <= s.len(),
        forall|j: int| p <= j < s.len() ==> order_lt(x, #[trigger] s[j]),
        p == 0 || !order_lt(x, s[p - 1]),
    ensures
        insert_ordered(s, x) == s.insert(p, x),
    decreases s.len(),
{
    if s.len() == 0 {
        assert(s.insert(p, x) =~= seq![x]);
    } else if p == s.len() {
        assert(s.insert(p, x) =~= s.push(x));
    } else {
        let t = s.drop_last();
        assert forall|j: int| p <= j < t.len() implies order_lt(x, #[trigger] t[j]) by {
            assert(t[j] == s[j]);
        }
        if p > 0 {
            assert(t[p - 1] == s[p - 1]);
        }
        lemma_insert_at(t, x, p);
        assert(t.insert(p, x).push(s.last()) =~= s.insert(p, x));
    }
}

fn www_key_of(name: &String) -> (r: (Vec<char>, bool))
    ensures
        (r.0@, r.1) == www_key(name@),
{
    let c = chars_of(name.as_str());
    if starts_with_str(&c, "www.") {
        proof {
            reveal_strlit("www.");
        }
        let b = slice_chars(&c, 4, c.len());
        assert(b@ =~= name@.skip(4));
        (b, true)
    } else {
        (c, false)
    }
}

fn order_less(a: &Host, b: &Host) -> (r: bool)
    ensures
        r == order_lt(*a, *b),
{
    let (ba, wa) = www_key_of(&a.name);
    let (bb, wb) = www_key_of(&b.name);
    if less(&ba, &bb) {
        return true;
    }
    if !eq_chars(&ba, &bb) {
        return false;
    }
    if !wa && wb {
        return true;
    }
    if wa != wb {
        return false;
    }
    less(&chars_of(a.name.as_str()), &chars_of(b.name.as_str()))
}

pub open spec fn picked(hosts: Seq<Host>, idx: Seq<usize>) -> Seq<Host> {
    idx.map_values(|k: usize| hosts[k as int])
}

/// The hosts of a category, in the order given.
pub open spec fn in_category(hs: Seq<Host>, c: Category) -> Seq<Host>
    decreases hs.len(),
{
    if hs.len() == 0 {
        Seq::empty()
    } else if category(hs.last()) == c {
        in_category(hs.drop_last(), c).push(hs.last())
    } else {
        in_category(hs.drop_last(), c)
    }
}

fn select(hosts: &Vec<Host>, c: Category) -> (r: Vec<usize>)
    ensures
        forall|j: int| 0 <= j < r@.len() ==> (#[trigger] r@[j]) < hosts@.len(),
        picked(hosts@, r@) == in_category(hosts@, c),
{
    let mut r: Vec<usize> = Vec::new();
    let mut i: usize = 0;
    assert(picked(hosts@, r@) =~= in_category(hosts@.subrange(0, 0), c));
    while i < hosts.len()
        invariant
            i <= hosts.len(),
            forall|j: int| 0 <= j < r@.len() ==> (#[trigger] r@[j]) < hosts@.len(),
            picked(hosts@, r@) == in_category(hosts@.subrange(0, i as int), c),
        decreases hosts.len() - i,
    {
        assert(hosts@.subrange(0, i + 1).drop_last() =~= hosts@.subrange(0, i as int));
        if Category::of(&hosts[i]) == c {
            let ghost before = picked(hosts@, r@);
            r.push(i);
            assert(picked(hosts@, r@) =~= before.push(hosts@[i as int]));
        }
        i = i + 1;
    }
    assert(hosts@.subrange(0, hosts.len() as int) =~= hosts@);
    r
}

/// Indices of the selected hosts in table order.
fn order(hosts: &Vec<Host>, sel: &Vec<usize>) -> (r: Vec<usize>)
    requires
        forall|j: int| 0 <= j < sel@.len() ==> (#[trigger] sel@[j]) < hosts@.len(),
    ensures
        forall|j: int| 0 <= j < r@.len() ==> (#[trigger] r@[j]) < hosts@.len(),
        picked(hosts@, r@) == ordered(picked(hosts@, sel@)),
{
    let ghost all = picked(hosts@, sel@);
    let mut r: Vec<usize> = Vec::new();
    let mut i: usize = 0;
    assert(picked(hosts@, r@) =~= ordered(all.subrange(0, 0)));
    while i < sel.len()
        invariant
            i <= sel.len(),
            all == picked(hosts@, sel@),
            forall|j: int| 0 <= j < sel@.len() ==> (#[trigger] sel@[j]) < hosts@.len(),
            forall|j: int| 0 <= j < r@.len() ==> (#[trigger] r@[j]) < hosts@.len(),
            picked(hosts@, r@) == ordered(all.subrange(0, i as int)),
        decreases sel.len() - i,
    {
        let k = sel[i];
        let ghost s = picked(hosts@, r@);
        assert(all.subrange(0, i + 1).drop_last() =~= all.subrange(0, i as int));
        assert(all.subrange(0, i + 1).last() == hosts@[k as int]);
        let mut p = r.len();
        while p > 0 && order_less(&hosts[k], &hosts[r[p - 1]])
            invariant
                p <= r.len(),
                k < hosts@.len(),
                s == picked(hosts@, r@),
                forall|j: int| 0 <= j < r@.len() ==> (#[trigger] r@[j]) < hosts@.len(),
                forall|j: int| p <= j < s.len() ==> order_lt(hosts@[k as int], #[trigger] s[j]),
            decreases p,
        {
            p = p - 1;
        }
        proof {
            lemma_insert_at(s, hosts@[k as int], p as int);
        }
        r.insert(p, k);
        assert(picked(hosts@, r@) =~= s.insert(p as int, hosts@[k as int]));
        i = i + 1;
    }
    assert(all.subrange(0, sel.len() as int) =~= all);
    r
}

// ---------------------------------------------------------------- the combined view

pub open spec fn joined(parts: Seq<Seq<char>>) -> Seq<char>
    decreases parts.len(),
{
    if parts.len() == 0 {
        Seq::empty()
    } else {
        joined(parts.drop_last()) + parts.last()
    }
}

proof fn lemma_joined_step(parts: Seq<Seq<char>>, i: int)
    requires
        0 <= i < parts.len(),
    ensures
        joined(parts.take(i + 1)) == joined(parts.take(i)) + parts[i],
{
    assert(parts.take(i + 1).drop_last() =~= parts.take(i));
}

/// The UTF-8 length of a text (`str::len`).
pub open spec fn byte_len(s: Seq<char>) -> nat {
    vstd::utf8::encode_utf8(s).len()
}

/// A text has at least one and at most four bytes per character.
pub proof fn lemma_byte_len_bounds(s: Seq<char>)
    ensures
        s.len() <= byte_len(s) <= 4 * s.len(),
    decreases s.len(),
{
    if s.len() > 0 {
        lemma_byte_len_bounds(s.drop_first());
        let e = vstd::utf8::encode_scalar(s[0] as u32);
        assert(1 <= e.len() <= 4);
        assert(vstd::utf8::encode_utf8(s) == e + vstd::utf8::encode_utf8(s.drop_first()));
    }
}

pub open spec fn longest_name(hs: Seq<Host>) -> nat
    decreases hs.len(),
{
    if hs.len() == 0 {
        0
    } else {
        let m = longest_name(hs.drop_last());
        let l = byte_len(hs.last().name@);
        if l > m {
            l
        } else {
            m
        }
    }
}

/// The width of the host column: the longest name and two spaces, at least
/// 39.
pub open spec fn host_width(hs: Seq<Host>) -> nat {
    let w = longest_name(hs) + 2;
    if w > 39 {
        w as nat
    } else {
        39
    }
}

pub open spec fn kx_of(h: Host) -> Seq<char> {
    match h.endpoint {
        Some(e) => match e.negotiated {
            Some(n) => match n.kx_group {
                Some(k) => k@,
                None => "-"@,
            },
            None => "-"@,
        },
        None => "-"@,
    }
}

pub open spec fn host_row(h: Host, w: nat) -> Seq<char> {
    pad(h.name@, w) + pad(
        if exposed(h) {
            "TLS:443"@
        } else {
            "-"@
        },
        11,
    ) + pad(kx_of(h), 16) + "\n"@
}

pub open spec fn section(hosts: Seq<Host>, c: Category, w: nat) -> Seq<char> {
    let hs = in_category(hosts, c);
    if hs.len() == 0 {
        Seq::empty()
    } else {
        "\n"@ + title_of(c) + " ("@ + dec(hs.len()) + ")\n"@ + pad("HOST / SERVICE"@, w) + pad("SERVICE"@, 11)
            + "OBSERVED KX\n"@ + joined(ordered(hs).map_values(|h: Host| host_row(h, w)))
    }
}

pub open spec fn srv_row(srv: Seq<SrvRecord>, i: int, w: nat) -> Seq<char> {
    let r = srv[i];
    let shown = if i > 0 && srv[i - 1].fqdn@ == r.fqdn@ {
        Seq::empty()
    } else {
        r.fqdn@
    };
    pad(shown, w) + pad(
        label_in(srv_table(), r.service@) + " → "@ + r.target@ + ":"@ + dec(r.port as nat),
        11,
    ) + "\n"@
}

pub open spec fn srv_text(srv: Seq<SrvRecord>, w: nat) -> Seq<char> {
    if srv.len() == 0 {
        Seq::empty()
    } else {
        "\n"@ + joined(Seq::new(srv.len(), |i: int| srv_row(srv, i, w)))
    }
}

pub open spec fn https_row(domain: Seq<char>, r: HttpsRecord, w: nat) -> Seq<char> {
    let params = if r.params@.len() == 0 {
        Seq::empty()
    } else {
        " "@ + r.params@
    };
    pad(domain, w) + pad(r.rr_type@ + " → "@ + r.target@ + params, 11) + "\n"@
}

/// The combined view: the hosts by category with their service and key
/// exchange, then the SRV and SVCB/HTTPS records.
pub open spec fn combined_text(s: DomainState) -> Seq<char> {
    let w = host_width(s.hosts@);
    "Discovered names: "@ + dec(s.hosts@.len()) + "\n"@ + section(s.hosts@, Category::Exposed, w)
        + section(s.hosts@, Category::Resolving, w) + section(s.hosts@, Category::PkiOnly, w)
        + section(s.hosts@, Category::Unresolved, w) + srv_text(s.srv@, w) + joined(
        s.https@.map_values(|r: HttpsRecord| https_row(s.domain@, r, w)),
    )
}

proof fn lemma_longest(hs: Seq<Host>, i: int)
    requires
        0 <= i < hs.len(),
    ensures
        byte_len(hs[i].name@) <= longest_name(hs),
    decreases hs.len(),
{
    if i < hs.len() - 1 {
        lemma_longest(hs.drop_last(), i);
    }
}

fn host_width_of(hosts: &Vec<Host>) -> (r: usize)
    requires
        longest_name(hosts@) + 2 <= usize::MAX,
    ensures
        r == host_width(hosts@),
{
    let mut m: usize = 0;
    let mut i: usize = 0;
    while i < hosts.len()
        invariant
            i <= hosts.len(),
            m == longest_name(hosts@.subrange(0, i as int)),
            longest_name(hosts@) + 2 <= usize::MAX,
        decreases hosts.len() - i,
    {
        assert(hosts@.subrange(0, i + 1).drop_last() =~= hosts@.subrange(0, i as int));
        proof {
            lemma_longest(hosts@, i as int);
        }
        let l = hosts[i].name.as_str().len();
        assert(l == byte_len(hosts@[i as int].name@));
        if l > m {
            m = l;
        }
        i = i + 1;
    }
    assert(hosts@.subrange(0, hosts.len() as int) =~= hosts@);
    if m + 2 > 39 {
        m + 2
    } else {
        39
    }
}

fn push_host_row(out: &mut Vec<char>, h: &Host, w: usize)
    ensures
        final(out)@ == old(out)@ + host_row(*h, w as nat),
{
    let name = chars_of(h.name.as_str());
    push_padded(out, &name, w);
    let up = match &h.endpoint {
        Some(e) => matches!(e.status, ProbeStatus::Success),
        None => false,
    };
    let service = if up {
        chars_of("TLS:443")
    } else {
        chars_of("-")
    };
    push_padded(out, &service, 11);
    let kx = match &h.endpoint {
        Some(e) => match &e.negotiated {
            Some(n) => match &n.kx_group {
                Some(k) => chars_of(k.as_str()),
                None => chars_of("-"),
            },
            None => chars_of("-"),
        },
        None => chars_of("-"),
    };
    push_padded(out, &kx, 16);
    push_str(out, "\n");
}

fn push_section(out: &mut Vec<char>, hosts: &Vec<Host>, c: Category, w: usize)
    ensures
        final(out)@ == old(out)@ + section(hosts@, c, w as nat),
{
    let sel = select(hosts, c);
    if sel.len() == 0 {
        assert(old(out)@ + section(hosts@, c, w as nat) =~= old(out)@);
        return;
    }
    let ghost hs = in_category(hosts@, c);
    let ghost rows = ordered(hs).map_values(|h: Host| host_row(h, w as nat));
    push_str(out, "\n");
    push_str(out, c.title());
    push_str(out, " (");
    let d = dec_u64(sel.len() as u64);
    push_all(out, &d);
    push_str(out, ")\n");
    push_padded(out, &chars_of("HOST / SERVICE"), w);
    push_padded(out, &chars_of("SERVICE"), 11);
    push_str(out, "OBSERVED KX\n");
    let ghost head = out@;
    let ord = order(hosts, &sel);
    let mut j: usize = 0;
    assert(rows.take(0) =~= Seq::<Seq<char>>::empty());
    while j < ord.len()
        invariant
            j <= ord.len(),
            forall|q: int| 0 <= q < ord@.len() ==> (#[trigger] ord@[q]) < hosts@.len(),
            picked(hosts@, ord@) == ordered(hs),
            rows == ordered(hs).map_values(|h: Host| host_row(h, w as nat)),
            out@ == head + joined(rows.take(j as int)),
        decreases ord.len() - j,
    {
        proof {
            lemma_joined_step(rows, j as int);
        }
        assert(rows[j as int] == host_row(hosts@[ord@[j as int] as int], w as nat));
        push_host_row(out, &hosts[ord[j]], w);
        j = j + 1;
    }
    assert(rows.take(ord.len() as int) =~= rows);
}

fn push_srv(out: &mut Vec<char>, srv: &Vec<SrvRecord>, w: usize)
    ensures
        final(out)@ == old(out)@ + srv_text(srv@, w as nat),
{
    if srv.len() == 0 {
        assert(old(out)@ + srv_text(srv@, w as nat) =~= old(out)@);
        return;
    }
    push_str(out, "\n");
    let ghost head = out@;
    let ghost rows = Seq::new(srv@.len(), |i: int| srv_row(srv@, i, w as nat));
    let mut i: usize = 0;
    assert(rows.take(0) =~= Seq::<Seq<char>>::empty());
    while i < srv.len()
        invariant
            i <= srv.len(),
            rows == Seq::new(srv@.len(), |i: int| srv_row(srv@, i, w as nat)),
            out@ == head + joined(rows.take(i as int)),
        decreases srv.len() - i,
    {
        proof {
            lemma_joined_step(rows, i as int);
        }
        let r = &srv[i];
        let fq = chars_of(r.fqdn.as_str());
        let same = i > 0 && eq_chars(&chars_of(srv[i - 1].fqdn.as_str()), &fq);
        let shown = if same {
            Vec::new()
        } else {
            fq
        };
        push_padded(out, &shown, w);
        let mut label = chars_of(service_label(r.service.as_str()));
        push_str(&mut label, " → ");
        push_str(&mut label, r.target.as_str());
        push_str(&mut label, ":");
        let d = dec_u64(r.port as u64);
        push_all(&mut label, &d);
        push_padded(out, &label, 11);
        push_str(out, "\n");
        assert(shown@ =~= if i > 0 && srv@[i - 1].fqdn@ == r.fqdn@ {
            Seq::empty()
        } else {
            r.fqdn@
        });
        i = i + 1;
    }
    assert(rows.take(srv.len() as int) =~= rows);
}

fn push_https_row(out: &mut Vec<char>, dc: &Vec<char>, r: &HttpsRecord, w: usize)
    ensures
        final(out)@ == old(out)@ + https_row(dc@, *r, w as nat),
{
    push_padded(out, dc, w);
    let mut label = chars_of(r.rr_type.as_str());
    push_str(&mut label, " → ");
    push_str(&mut label, r.target.as_str());
    let p = chars_of(r.params.as_str());
    if p.len() > 0 {
        push_str(&mut label, " ");
        push_all(&mut label, &p);
    }
    push_padded(out, &label, 11);
    push_str(out, "\n");
}

fn push_https(out: &mut Vec<char>, domain: &String, recs: &Vec<HttpsRecord>, w: usize)
    ensures
        final(out)@ == old(out)@ + joined(recs@.map_values(|r: HttpsRecord| https_row(domain@, r, w as nat))),
{
    let ghost head = out@;
    let ghost rows = recs@.map_values(|r: HttpsRecord| https_row(domain@, r, w as nat));
    let dc = chars_of(domain.as_str());
    let mut i: usize = 0;
    assert(rows.take(0) =~= Seq::<Seq<char>>::empty());
    while i < recs.len()
        invariant
            i <= recs.len(),
            dc@ == domain@,
            rows == recs@.map_values(|r: HttpsRecord| https_row(domain@, r, w as nat)),
            out@ == head + joined(rows.take(i as int)),
        decreases recs.len() - i,
    {
        proof {
            lemma_joined_step(rows, i as int);
        }
        push_https_row(out, &dc, &recs[i], w);
        i = i + 1;
    }
    assert(rows.take(recs.len() as int) =~= rows);
}

/// The combined view (the default output).
pub fn combined(state: &DomainState) -> (r: String)
    requires
        longest_name(state.hosts@) + 2 <= usize::MAX,
    ensures
        r@ == combined_text(*state),
{
    let w = host_width_of(&state.hosts);
    let mut out = chars_of("Discovered names: ");
    let d = dec_u64(state.hosts.len() as u64);
    push_all(&mut out, &d);
    push_str(&mut out, "\n");
    push_section(&mut out, &state.hosts, Category::Exposed, w);
    push_section(&mut out, &state.hosts, Category::Resolving, w);
    push_section(&mut out, &state.hosts, Category::PkiOnly, w);
    push_section(&mut out, &state.hosts, Category::Unresolved, w);
    push_srv(&mut out, &state.srv, w);
    push_https(&mut out, &state.domain, &state.https, w);
    string_of(&out)
}

// ---------------------------------------------------------------- identities

/// The identities of the currently valid certificates.
pub open spec fn valid_ids(certs: Seq<Certificate>) -> Set<Seq<char>>
    decreases certs.len(),
{
    if certs.len() == 0 {
        Set::empty()
    } else if certs.last().currently_valid {
        valid_ids(certs.drop_last()).union(views(certs.last().identities@).to_set())
    } else {
        valid_ids(certs.drop_last())
    }
}

pub open spec fn concrete_ids(certs: Seq<Certificate>) -> Set<Seq<char>> {
    valid_ids(certs).filter(|n: Seq<char>| !is_wildcard_name(n))
}

pub open spec fn wildcard_ids(certs: Seq<Certificate>) -> Set<Seq<char>> {
    valid_ids(certs).filter(|n: Seq<char>| is_wildcard_name(n))
}

proof fn lemma_sorted_no_dups(s: Seq<Seq<char>>)
    requires
        sorted_strict(s),
    ensures
        s.no_duplicates(),
        s.len() == s.to_set().len(),
{
    assert forall|i: int, j: int| 0 <= i < s.len() && 0 <= j < s.len() && i != j implies s[i]
        != s[j] by {
        lemma_lex_irrefl(s[i]);
        if i < j {
            assert(lex_lt(s[i], s[j]));
        } else {
            assert(lex_lt(s[j], s[i]));
        }
    }
    s.unique_seq_to_set();
}

/// The identities of the currently valid certificates, all of them, the
/// concrete ones and the wildcards, each as an ordered list without repeats.
fn identity_lists(certs: &Vec<Certificate>) -> (r: (Vec<String>, Vec<String>, Vec<String>))
    ensures
        sorted_strict(views(r.0@)),
        sorted_strict(views(r.1@)),
        sorted_strict(views(r.2@)),
        views(r.0@).to_set() == valid_ids(certs@),
        views(r.1@).to_set() == concrete_ids(certs@),
        views(r.2@).to_set() == wildcard_ids(certs@),
{
    let mut all: Vec<String> = Vec::new();
    let mut conc: Vec<String> = Vec::new();
    let mut wild: Vec<String> = Vec::new();
    let mut i: usize = 0;
    assert(views(all@).to_set() =~= Set::<Seq<char>>::empty());
    assert(views(conc@).to_set() =~= Set::<Seq<char>>::empty().filter(|n: Seq<char>| !is_wildcard_name(n)));
    assert(views(wild@).to_set() =~= Set::<Seq<char>>::empty().filter(|n: Seq<char>| is_wildcard_name(n)));
    while i < certs.len()
        invariant
            i <= certs.len(),
            sorted_strict(views(all@)),
            sorted_strict(views(conc@)),
            sorted_strict(views(wild@)),
            views(all@).to_set() == valid_ids(certs@.subrange(0, i as int)),
            views(conc@).to_set() == valid_ids(certs@.subrange(0, i as int)).filter(
                |n: Seq<char>| !is_wildcard_name(n),
            ),
            views(wild@).to_set() == valid_ids(certs@.subrange(0, i as int)).filter(
                |n: Seq<char>| is_wildcard_name(n),
            ),
        decreases certs.len() - i,
    {
        assert(certs@.subrange(0, i + 1).drop_last() =~= certs@.subrange(0, i as int));
        let c = &certs[i];
        let ghost base = valid_ids(certs@.subrange(0, i as int));
        if c.currently_valid {
            let mut j: usize = 0;
            assert(base.union(views(c.identities@.subrange(0, 0)).to_set()) =~= base);
            while j < c.identities.len()
                invariant
                    j <= c.identities.len(),
                    sorted_strict(views(all@)),
                    sorted_strict(views(conc@)),
                    sorted_strict(views(wild@)),
                    views(all@).to_set() == base.union(views(c.identities@.subrange(0, j as int)).to_set()),
                    views(conc@).to_set() == base.union(views(c.identities@.subrange(0, j as int)).to_set()).filter(
                        |n: Seq<char>| !is_wildcard_name(n),
                    ),
                    views(wild@).to_set() == base.union(views(c.identities@.subrange(0, j as int)).to_set()).filter(
                        |n: Seq<char>| is_wildcard_name(n),
                    ),
                decreases c.identities.len() - j,
            {
                let ghost prev = base.union(views(c.identities@.subrange(0, j as int)).to_set());
                let name = &c.identities[j];
                assert(c.identities@.subrange(0, j + 1) =~= c.identities@.subrange(0, j as int).push(*name));
                proof {
                    lemma_views_push(c.identities@.subrange(0, j as int), *name);
                }
                proof {
                    views(c.identities@.subrange(0, j as int)).lemma_push_to_set_commute(name@);
                }
                assert(views(c.identities@.subrange(0, j + 1)).to_set() =~= views(
                    c.identities@.subrange(0, j as int),
                ).to_set().insert(name@));
                let ghost next = prev.insert(name@);
                assert(base.union(views(c.identities@.subrange(0, j + 1)).to_set()) =~= next);
                insert_sorted(&mut all, name.clone());
                if is_wildcard(name.as_str()) {
                    insert_sorted(&mut wild, name.clone());
                    assert(next.filter(|n: Seq<char>| is_wildcard_name(n)) =~= prev.filter(
                        |n: Seq<char>| is_wildcard_name(n),
                    ).insert(name@));
                    assert(next.filter(|n: Seq<char>| !is_wildcard_name(n)) =~= prev.filter(
                        |n: Seq<char>| !is_wildcard_name(n),
                    ));
                } else {
                    insert_sorted(&mut conc, name.clone());
                    assert(next.filter(|n: Seq<char>| !is_wildcard_name(n)) =~= prev.filter(
                        |n: Seq<char>| !is_wildcard_name(n),
                    ).insert(name@));
                    assert(next.filter(|n: Seq<char>| is_wildcard_name(n)) =~= prev.filter(
                        |n: Seq<char>| is_wildcard_name(n),
                    ));
                }
                j = j + 1;
            }
            assert(c.identities@.subrange(0, c.identities.len() as int) =~= c.identities@);
        }
        i = i + 1;
    }
    assert(certs@.subrange(0, certs.len() as int) =~= certs@);
    (all, conc, wild)
}

// ---------------------------------------------------------------- summary

pub open spec fn stat_row(label: Seq<char>, v: nat) -> Seq<char> {
    "  "@ + pad(label, 31) + dec(v) + "\n"@
}

/// The certificate estate summary: CT counts, then the number of unique,
/// concrete and wildcard identities of the currently valid certificates.
pub open spec fn summary_text(s: DomainState) -> Seq<char> {
    "Certificate estate: '"@ + s.domain@ + "'\n\n"@ + stat_row("CT certificates:"@, s.ct_stats.rows as nat)
        + stat_row("Currently valid:"@, s.ct_stats.valid as nat) + stat_row(
        "Future-valid:"@,
        s.ct_stats.future as nat,
    ) + "\n"@ + stat_row("Unique identities:"@, valid_ids(s.certs@).len()) + stat_row(
        "Concrete hostnames:"@,
        concrete_ids(s.certs@).len(),
    ) + stat_row("Wildcard identities:"@, wildcard_ids(s.certs@).len())
}

fn push_stat(out: &mut Vec<char>, label: &str, v: usize)
    ensures
        final(out)@ == old(out)@ + stat_row(label@, v as nat),
{
    push_str(out, "  ");
    push_padded(out, &chars_of(label), 31);
    let d = dec_u64(v as u64);
    push_all(out, &d);
    push_str(out, "\n");
}

pub fn summary(state: &DomainState) -> (r: String)
    ensures
        r@ == summary_text(*state),
{
    let (all, conc, wild) = identity_lists(&state.certs);
    proof {
        lemma_sorted_no_dups(views(all@));
        lemma_sorted_no_dups(views(conc@));
        lemma_sorted_no_dups(views(wild@));
    }
    let mut out = chars_of("Certificate estate: '");
    push_str(&mut out, state.domain.as_str());
    push_str(&mut out, "'\n\n");
    push_stat(&mut out, "CT certificates:", state.ct_stats.rows);
    push_stat(&mut out, "Currently valid:", state.ct_stats.valid);
    push_stat(&mut out, "Future-valid:", state.ct_stats.future);
    push_str(&mut out, "\n");
    push_stat(&mut out, "Unique identities:", all.len());
    push_stat(&mut out, "Concrete hostnames:", conc.len());
    push_stat(&mut out, "Wildcard identities:", wild.len());
    string_of(&out)
}

// ---------------------------------------------------------------- hosts

pub open spec fn name_lines(ns: Seq<Seq<char>>) -> Seq<char> {
    if ns.len() == 0 {
        "\n"@
    } else {
        joined(ns.map_values(|n: Seq<char>| n + "\n"@))
    }
}

/// The concrete names of the currently valid certificates, one per line in
/// order, without repeats.
pub fn hosts(state: &DomainState) -> (r: String)
    ensures
        exists|ns: Seq<Seq<char>>|
            sorted_strict(ns) && ns.to_set() == concrete_ids(state.certs@) && r@ == name_lines(ns),
{
    let (_all, conc, _wild) = identity_lists(&state.certs);
    let ghost ns = views(conc@);
    let ghost rows = ns.map_values(|n: Seq<char>| n + "\n"@);
    let mut out: Vec<char> = Vec::new();
    let mut i: usize = 0;
    assert(rows.take(0) =~= Seq::<Seq<char>>::empty());
    while i < conc.len()
        invariant
            i <= conc.len(),
            ns == views(conc@),
            rows == ns.map_values(|n: Seq<char>| n + "\n"@),
            out@ == joined(rows.take(i as int)),
        decreases conc.len() - i,
    {
        proof {
            lemma_joined_step(rows, i as int);
        }
        push_str(&mut out, conc[i].as_str());
        push_str(&mut out, "\n");
        i = i + 1;
    }
    assert(rows.take(conc.len() as int) =~= rows);
    if conc.len() == 0 {
        push_str(&mut out, "\n");
        assert(out@ =~= "\n"@);
    }
    string_of(&out)
}

// ---------------------------------------------------------------- certificates

/// `"%Y-%m-%dT%H:%M:%S"` of a Unix time as chrono formats it in UTC; `None`
/// where chrono has no date for it.
pub uninterp spec fn iso_seconds(t: i64) -> Option<Seq<char>>;

/// `chrono::DateTime::from_timestamp` followed by `format`.
#[verifier::external_body]
fn format_seconds(t: i64) -> (r: Option<String>)
    ensures
        opt_string(r) == iso_seconds(t),
{
    chrono::DateTime::from_timestamp(t, 0).map(|d| d.format("%Y-%m-%dT%H:%M:%S").to_string())
}

pub open spec fn date_text(t: Option<i64>) -> Seq<char> {
    match t {
        Some(x) => match iso_seconds(x) {
            Some(s) => s,
            None => "-"@,
        },
        None => "-"@,
    }
}

fn fmt_date(t: Option<i64>) -> (r: Vec<char>)
    ensures
        r@ == date_text(t),
{
    match t {
        Some(x) => match format_seconds(x) {
            Some(s) => chars_of(s.as_str()),
            None => chars_of("-"),
        },
        None => chars_of("-"),
    }
}

/// The names joined by commas.
pub open spec fn comma_joined(ns: Seq<Seq<char>>) -> Seq<char>
    decreases ns.len(),
{
    if ns.len() == 0 {
        Seq::empty()
    } else if ns.len() == 1 {
        ns[0]
    } else {
        comma_joined(ns.drop_last()) + ","@ + ns.last()
    }
}

fn join_commas(v: &Vec<String>) -> (r: Vec<char>)
    ensures
        r@ == comma_joined(views(v@)),
{
    let mut out: Vec<char> = Vec::new();
    let mut i: usize = 0;
    while i < v.len()
        invariant
            i <= v.len(),
            out@ == comma_joined(views(v@.subrange(0, i as int))),
        decreases v.len() - i,
    {
        assert(views(v@.subrange(0, i + 1)).drop_last() =~= views(v@.subrange(0, i as int)));
        assert(views(v@.subrange(0, i + 1)).last() == v@[i as int]@);
        if i > 0 {
            push_str(&mut out, ",");
        } else {
            assert(views(v@.subrange(0, 1)) =~= seq![v@[0]@]);
        }
        push_str(&mut out, v[i].as_str());
        i = i + 1;
    }
    assert(v@.subrange(0, v.len() as int) =~= v@);
    out
}

pub open spec fn cert_cells(id: Seq<char>, nb: Seq<char>, na: Seq<char>, cn: Seq<char>, ids: Seq<char>) -> Seq<char> {
    pad(id, 12) + "  "@ + pad(nb, 30) + "  "@ + pad(na, 30) + "  "@ + pad(cn, 20) + "  "@ + ids + "\n"@
}

pub open spec fn cert_row(c: Certificate) -> Seq<char> {
    cert_cells(
        if c.ct_ids@.len() > 0 {
            dec(c.ct_ids@[0] as nat)
        } else {
            "-"@
        },
        date_text(c.not_before),
        date_text(c.not_after),
        match c.common_name {
            Some(n) => n@,
            None => "-"@,
        },
        comma_joined(views(c.identities@)),
    )
}

pub open spec fn valid_certs(cs: Seq<Certificate>) -> Seq<Certificate>
    decreases cs.len(),
{
    if cs.len() == 0 {
        Seq::empty()
    } else if cs.last().currently_valid {
        valid_certs(cs.drop_last()).push(cs.last())
    } else {
        valid_certs(cs.drop_last())
    }
}

/// The table of currently valid certificates: first CT id, validity, common
/// name and identities.
pub open spec fn certs_text(s: DomainState) -> Seq<char> {
    cert_cells("CT ID"@, "NOT BEFORE"@, "NOT AFTER"@, "COMMON NAME"@, "IDENTITIES"@) + cert_cells(
        "------------"@,
        "------------------------------"@,
        "------------------------------"@,
        "--------------------"@,
        "----------"@,
    ) + joined(valid_certs(s.certs@).map_values(|c: Certificate| cert_row(c)))
}

fn push_cells(out: &mut Vec<char>, id: &Vec<char>, nb: &Vec<char>, na: &Vec<char>, cn: &Vec<char>, ids: &Vec<char>)
    ensures
        final(out)@ == old(out)@ + cert_cells(id@, nb@, na@, cn@, ids@),
{
    push_padded(out, id, 12);
    push_str(out, "  ");
    push_padded(out, nb, 30);
    push_str(out, "  ");
    push_padded(out, na, 30);
    push_str(out, "  ");
    push_padded(out, cn, 20);
    push_str(out, "  ");
    push_all(out, ids);
    push_str(out, "\n");
}

fn push_cert_row(out: &mut Vec<char>, c: &Certificate)
    ensures
        final(out)@ == old(out)@ + cert_row(*c),
{
    let id = if c.ct_ids.len() > 0 {
        dec_u64(c.ct_ids[0])
    } else {
        chars_of("-")
    };
    let nb = fmt_date(c.not_before);
    let na = fmt_date(c.not_after);
    let cn = match &c.common_name {
        Some(n) => chars_of(n.as_str()),
        None => chars_of("-"),
    };
    let ids = join_commas(&c.identities);
    push_cells(out, &id, &nb, &na, &cn, &ids);
}

pub fn certs(state: &DomainState) -> (r: String)
    ensures
        r@ == certs_text(*state),
{
    let mut out: Vec<char> = Vec::new();
    push_cells(
        &mut out,
        &chars_of("CT ID"),
        &chars_of("NOT BEFORE"),
        &chars_of("NOT AFTER"),
        &chars_of("COMMON NAME"),
        &chars_of("IDENTITIES"),
    );
    push_cells(
        &mut out,
        &chars_of("------------"),
        &chars_of("------------------------------"),
        &chars_of("------------------------------"),
        &chars_of("--------------------"),
        &chars_of("----------"),
    );
    let ghost head = out@;
    let ghost rows = valid_certs(state.certs@).map_values(|c: Certificate| cert_row(c));
    let mut i: usize = 0;
    assert(rows.take(0) =~= Seq::<Seq<char>>::empty());
    while i < state.certs.len()
        invariant
            i <= state.certs.len(),
            rows == valid_certs(state.certs@).map_values(|c: Certificate| cert_row(c)),
            out@ == head + joined(valid_certs(state.certs@.subrange(0, i as int)).map_values(
                |c: Certificate| cert_row(c),
            )),
        decreases state.certs.len() - i,
    {
        let ghost vs = valid_certs(state.certs@.subrange(0, i as int));
        assert(state.certs@.subrange(0, i + 1).drop_last() =~= state.certs@.subrange(0, i as int));
        let c = &state.certs[i];
        if c.currently_valid {
            let ghost vs2 = vs.push(*c);
            assert(vs2.map_values(|c: Certificate| cert_row(c)).drop_last() =~= vs.map_values(
                |c: Certificate| cert_row(c),
            ));
            push_cert_row(&mut out, c);
        }
        i = i + 1;
    }
    assert(state.certs@.subrange(0, state.certs.len() as int) =~= state.certs@);
    string_of(&out)
}

} // verus!
