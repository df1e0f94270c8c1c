//! DNS discovery: the SRV services swept, the names of records, and the
//! records built from what the resolver answered.

use vstd::prelude::*;

use crate::model::{HttpsRecord, MxRecord, SrvRecord};
use crate::strs::{
    eq_chars, less, lex_lt, chars_of, concat, ends_with, eq_str, is_ws, own, slice_chars, starts_with_str, string_of,
    to_lowercase, unicode_lower, ws, ascii_only, lower_ascii,
};

verus! {

/// The SRV services swept, each with its display label.
pub open spec fn srv_table() -> Seq<(Seq<char>, Seq<char>)> {
    seq![
        ("_ldap._tcp"@, "LDAP"@),
        ("_ldaps._tcp"@, "LDAPS"@),
        ("_kerberos._tcp"@, "Kerberos/TCP"@),
        ("_kerberos._udp"@, "Kerberos/UDP"@),
        ("_sip._tcp"@, "SIP/TCP"@),
        ("_sip._udp"@, "SIP/UDP"@),
        ("_sip._tls"@, "SIP/TLS"@),
        ("_xmpp-client._tcp"@, "XMPP client"@),
        ("_xmpp-server._tcp"@, "XMPP server"@),
        ("_matrix-fed._tcp"@, "Matrix federation"@),
    ]
}

/// The SRV services swept, each with its display label, in sweep order.
pub fn srv_services() -> (r: Vec<(&'static str, &'static str)>)
    ensures
        r@.len() == srv_table().len(),
        forall|i: int| 0 <= i < r@.len() ==> (#[trigger] r@[i]).0@ == srv_table()[i].0 && r@[i].1@
            == srv_table()[i].1,
{
    let r = vec![
        ("_ldap._tcp", "LDAP"),
        ("_ldaps._tcp", "LDAPS"),
        ("_kerberos._tcp", "Kerberos/TCP"),
        ("_kerberos._udp", "Kerberos/UDP"),
        ("_sip._tcp", "SIP/TCP"),
        ("_sip._udp", "SIP/UDP"),
        ("_sip._tls", "SIP/TLS"),
        ("_xmpp-client._tcp", "XMPP client"),
        ("_xmpp-server._tcp", "XMPP server"),
        ("_matrix-fed._tcp", "Matrix federation"),
    ];
    r
}

/// The label of the first table entry for `service`, else `service` itself.
pub open spec fn label_in(table: Seq<(Seq<char>, Seq<char>)>, service: Seq<char>) -> Seq<char>
    decreases table.len(),
{
    if table.len() == 0 {
        service
    } else if table[0].0 == service {
        table[0].1
    } else {
        label_in(table.drop_first(), service)
    }
}

/// "SIP/TLS" for "_sip._tls"; an unknown service keeps its own name.
pub fn service_label(service: &str) -> (r: &str)
    ensures
        r@ == label_in(srv_table(), service@),
{
    let table = srv_services();
    let sc = chars_of(service);
    let mut i: usize = 0;
    assert(table@.len() == srv_table().len());
    assert(srv_table().skip(0) =~= srv_table());
    while i < table.len()
        invariant
            i <= table.len(),
            table@.len() == srv_table().len(),
            sc@ == service@,
            forall|k: int| 0 <= k < table@.len() ==> (#[trigger] table@[k]).0@ == srv_table()[k].0
                && table@[k].1@ == srv_table()[k].1,
            label_in(srv_table(), service@) == label_in(srv_table().skip(i as int), service@),
        decreases table.len() - i,
    {
        let (s, l) = table[i];
        assert(srv_table().skip(i as int)[0] == srv_table()[i as int]);
        if eq_str(&sc, s) {
            return l;
        }
        assert(srv_table().skip(i as int).drop_first() =~= srv_table().skip(i + 1));
        i = i + 1;
    }
    service
}

/// The text without trailing `c` characters (`str::trim_end_matches`).
pub open spec fn trim_end_char(s: Seq<char>, c: char) -> Seq<char>
    decreases s.len(),
{
    if s.len() > 0 && s.last() == c {
        trim_end_char(s.drop_last(), c)
    } else {
        s
    }
}

/// The text without leading and trailing `c` characters
/// (`str::trim_matches`).
pub open spec fn trim_char(s: Seq<char>, c: char) -> Seq<char>
    decreases s.len(),
{
    if s.len() == 0 {
        s
    } else if s[0] == c {
        trim_char(s.drop_first(), c)
    } else if s.last() == c {
        trim_char(s.drop_last(), c)
    } else {
        s
    }
}

proof fn lemma_trim_char_bounds(s: Seq<char>, c: char, a: int, b: int)
    requires
        0 <= a <= b <= s.len(),
        forall|i: int| 0 <= i < a ==> #[trigger] s[i] == c,
        forall|i: int| b <= i < s.len() ==> #[trigger] s[i] == c,
        a < b ==> s[a] != c && s[b - 1] != c,
        a == b ==> a == s.len(),
    ensures
        trim_char(s, c) == s.subrange(a, b),
    decreases s.len(),
{
    if s.len() == 0 {
        assert(s.subrange(a, b) =~= s);
    } else if s[0] == c {
        let t = s.drop_first();
        assert forall|i: int| 0 <= i < a - 1 implies #[trigger] t[i] == c by {
            assert(t[i] == s[i + 1]);
        }
        assert forall|i: int| b - 1 <= i < t.len() implies #[trigger] t[i] == c by {
            assert(t[i] == s[i + 1]);
        }
        lemma_trim_char_bounds(t, c, a - 1, b - 1);
        assert(t.subrange(a - 1, b - 1) =~= s.subrange(a, b));
    } else if s.last() == c {
        let t = s.drop_last();
        assert forall|i: int| 0 <= i < a implies #[trigger] t[i] == c by {
            assert(t[i] == s[i]);
        }
        assert forall|i: int| b <= i < t.len() implies #[trigger] t[i] == c by {
            assert(t[i] == s[i]);
        }
        lemma_trim_char_bounds(t, c, a, b);
        assert(t.subrange(a, b) =~= s.subrange(a, b));
    } else {
        assert(s.subrange(a, b) =~= s);
    }
}

fn trim_char_of(s: &Vec<char>, c: char) -> (r: Vec<char>)
    ensures
        r@ == trim_char(s@, c),
{
    let n = s.len();
    let mut a: usize = 0;
    while a < n && s[a] == c
        invariant
            a <= n,
            n == s.len(),
            forall|i: int| 0 <= i < a ==> #[trigger] s@[i] == c,
        decreases n - a,
    {
        a = a + 1;
    }
    let mut b: usize = n;
    if a < n {
        while b > a && s[b - 1] == c
            invariant
                a < n,
                s@[a as int] != c,
                a <= b <= n,
                n == s.len(),
                forall|i: int| b <= i < n ==> #[trigger] s@[i] == c,
            decreases b,
        {
            b = b - 1;
        }
    }
    proof {
        lemma_trim_char_bounds(s@, c, a as int, b as int);
    }
    slice_chars(s, a, b)
}

/// A record target as a host name: "." stays, otherwise trailing dots go
/// and the name is lower-cased.
pub open spec fn target_name(t: Seq<char>) -> Seq<char> {
    if t == "."@ {
        "."@
    } else {
        unicode_lower(trim_end_char(t, '.'))
    }
}

/// The record name of an ASCII target: `target_name` with ASCII
/// lower-casing, which is what Unicode lower-casing does to ASCII text.
pub open spec fn ascii_target_name(t: Seq<char>) -> Seq<char> {
    if t == "."@ {
        "."@
    } else {
        lower_ascii(trim_end_char(t, '.'))
    }
}

pub fn strip_dot(target: &str) -> (r: String)
    ensures
        r@ == target_name(target@),
        ascii_only(target@) ==> r@ == ascii_target_name(target@),
        ascii_only(target@) ==> ascii_only(r@) && ascii_target_name(r@) == r@,
{
    proof {
        if ascii_only(target@) {
            crate::laws::law_strip_dot_idempotent(target@);
        }
    }
    let t = chars_of(target);
    if eq_str(&t, ".") {
        return own(".");
    }
    let mut n = t.len();
    assert(t@.subrange(0, n as int) =~= t@);
    while n > 0 && t[n - 1] == '.'
        invariant
            n <= t.len(),
            trim_end_char(t@, '.') == trim_end_char(t@.subrange(0, n as int), '.'),
        decreases n,
    {
        assert(t@.subrange(0, n as int).drop_last() =~= t@.subrange(0, n - 1));
        n = n - 1;
    }
    let body = string_of(&slice_chars(&t, 0, n));
    assert(ascii_only(target@) ==> ascii_only(body@)) by {
        if ascii_only(target@) {
            assert forall|i: int| 0 <= i < body@.len() implies (#[trigger] body@[i] as u32) < 128 by {
                assert(body@[i] == t@[i]);
            }
        }
    }
    to_lowercase(body.as_str())
}

/// `host` is the domain itself or a name under it.
pub open spec fn within(host: Seq<char>, domain: Seq<char>) -> bool {
    host == domain || ("."@ + domain).is_suffix_of(host)
}

pub fn in_domain(host: &str, domain: &str) -> (r: bool)
    ensures
        r == within(host@, domain@),
{
    let h = chars_of(host);
    if eq_str(&h, domain) {
        return true;
    }
    let suffix = chars_of(concat(".", domain).as_str());
    ends_with(&h, &suffix)
}

/// The white-space separated words of a text (`str::split_whitespace`).
pub open spec fn words(s: Seq<char>) -> Seq<Seq<char>>
    decreases s.len(),
{
    if s.len() == 0 {
        Seq::empty()
    } else {
        let t = words(s.drop_last());
        let c = s.last();
        if is_ws(c) {
            t
        } else if s.len() >= 2 && !is_ws(s[s.len() - 2]) && t.len() > 0 {
            t.update(t.len() - 1, t.last().push(c))
        } else {
            t.push(seq![c])
        }
    }
}

/// The value of the first `alpn=` word, without surrounding quotes.
pub open spec fn first_alpn(ws: Seq<Seq<char>>) -> Option<Seq<char>>
    decreases ws.len(),
{
    if ws.len() == 0 {
        None
    } else if "alpn="@.is_prefix_of(ws[0]) {
        Some(trim_char(ws[0].skip(5), '"'))
    } else {
        first_alpn(ws.drop_first())
    }
}

fn split_words(s: &Vec<char>) -> (r: Vec<Vec<char>>)
    ensures
        r@.map_values(|w: Vec<char>| w@) == words(s@),
{
    let mut out: Vec<Vec<char>> = Vec::new();
    let mut i: usize = 0;
    assert(out@.map_values(|w: Vec<char>| w@) =~= words(s@.subrange(0, 0)));
    while i < s.len()
        invariant
            i <= s.len(),
            out@.map_values(|w: Vec<char>| w@) == words(s@.subrange(0, i as int)),
            i > 0 && !is_ws(s@[i - 1]) ==> out@.len() > 0,
        decreases s.len() - i,
    {
        let ghost pre = s@.subrange(0, i as int);
        let ghost nxt = s@.subrange(0, i + 1);
        let ghost before = out@.map_values(|w: Vec<char>| w@);
        assert(nxt.drop_last() =~= pre);
        assert(nxt.last() == s@[i as int]);
        let c = s[i];
        if ws(c) {
        } else if i >= 1 && !ws(s[i - 1]) && out.len() > 0 {
            assert(nxt[nxt.len() - 2] == s@[i - 1]);
            let k = out.len() - 1;
            let mut w = out.remove(k);
            let ghost wv = w@;
            w.push(c);
            out.push(w);
            assert(out@.map_values(|w: Vec<char>| w@) =~= before.update(
                before.len() - 1,
                wv.push(c),
            ));
        } else {
            proof {
                if i >= 1 {
                    assert(nxt[nxt.len() - 2] == s@[i - 1]);
                }
            }
            let mut w: Vec<char> = Vec::new();
            w.push(c);
            out.push(w);
            assert(out@.map_values(|w: Vec<char>| w@) =~= before.push(seq![c]));
        }
        i = i + 1;
    }
    assert(s@.subrange(0, s.len() as int) =~= s@);
    out
}

/// The ALPN protocols of an SVCB/HTTPS parameter string: "h2,h3" for
/// `alpn=h2,h3`.
pub fn alpn_param(params: &str) -> (r: Option<String>)
    ensures
        match r {
            Some(v) => first_alpn(words(params@)) == Some(v@),
            None => first_alpn(words(params@)) is None,
        },
{
    let s = chars_of(params);
    let ws = split_words(&s);
    let ghost wv = ws@.map_values(|w: Vec<char>| w@);
    let mut i: usize = 0;
    assert(wv.skip(0) =~= wv);
    while i < ws.len()
        invariant
            i <= ws.len(),
            wv == ws@.map_values(|w: Vec<char>| w@),
            wv == words(params@),
            first_alpn(wv) == first_alpn(wv.skip(i as int)),
        decreases ws.len() - i,
    {
        assert(wv.skip(i as int)[0] == ws@[i as int]@);
        if starts_with_str(&ws[i], "alpn=") {
            proof {
                reveal_strlit("alpn=");
            }
            let rest = slice_chars(&ws[i], 5, ws[i].len());
            assert(rest@ =~= ws@[i as int]@.skip(5));
            let v = trim_char_of(&rest, '"');
            return Some(string_of(&v));
        }
        assert(wv.skip(i as int).drop_first() =~= wv.skip(i + 1));
        i = i + 1;
    }
    None
}

/// What DNS discovery found: SRV records ordered by name then priority,
/// SVCB/HTTPS records of the apex, MX records ordered by priority then
/// target.
#[derive(Debug, Default)]
pub struct DnsDiscovery {
    pub srv: Vec<SrvRecord>,
    pub https: Vec<HttpsRecord>,
    pub mx: Vec<MxRecord>,
}

/// An SRV record as swept: `service` under `fqdn`, with the target taken as
/// a host name.
pub fn srv_from_record(service: &str, fqdn: &str, priority: u16, weight: u16, port: u16, target: &str) -> (r: SrvRecord)
    ensures
        r.service@ == service@,
        r.fqdn@ == fqdn@,
        r.priority == priority,
        r.weight == weight,
        r.port == port,
        r.target@ == target_name(target@),
{
    SrvRecord {
        service: own(service),
        fqdn: own(fqdn),
        priority: priority as u32,
        weight: weight as u32,
        port,
        target: strip_dot(target),
    }
}

pub fn mx_from_record(preference: u16, exchange: &str) -> (r: MxRecord)
    ensures
        r.priority == preference,
        r.target@ == target_name(exchange@),
{
    MxRecord { priority: preference as u32, target: strip_dot(exchange) }
}

pub fn rr_from_record(rr_type: &str, priority: u16, target: &str, params: &str) -> (r: HttpsRecord)
    ensures
        r.rr_type@ == rr_type@,
        r.priority == priority,
        r.target@ == target_name(target@),
        r.params@ == params@,
{
    HttpsRecord { rr_type: own(rr_type), priority, target: strip_dot(target), params: own(params) }
}

// ---------------------------------------------------------------- record order

/// `x` placed into `s` after every element not above it in `lt`.
pub open spec fn insert_by<T>(s: Seq<T>, x: T, lt: spec_fn(T, T) -> bool) -> Seq<T>
    decreases s.len(),
{
    if s.len() == 0 {
        seq![x]
    } else if lt(x, s.last()) {
        insert_by(s.drop_last(), x, lt).push(s.last())
    } else {
        s.push(x)
    }
}

/// `s` in `lt` order, equal elements keeping their order (a stable sort).
pub open spec fn sorted_by<T>(s: Seq<T>, lt: spec_fn(T, T) -> bool) -> Seq<T>
    decreases s.len(),
{
    if s.len() == 0 {
        Seq::empty()
    } else {
        insert_by(sorted_by(s.drop_last(), lt), s.last(), lt)
    }
}

proof fn lemma_insert_by_at<T>(s: Seq<T>, x: T, lt: spec_fn(T, T) -> bool, p: int)
    requires
        0 <= p <= s.len(),
        forall|j: int| p <= j < s.len() ==> lt(x, #[trigger] s[j]),
        p == 0 || !lt(x, s[p - 1]),
    ensures
        insert_by(s, x, lt) == s.insert(p, x),
    decreases s.len(),
{
    if s.len() == 0 {
        assert(s.insert(p, x) =~= seq![x]);
    } else if p == s.len() {
        assert(s.insert(p, x) =~= s.push(x));
    } else {
        let t = s.drop_last();
        assert forall|j: int| p <= j < t.len() implies lt(x, #[trigger] t[j]) by {
            assert(t[j] == s[j]);
        }
        if p > 0 {
            assert(t[p - 1] == s[p - 1]);
        }
        lemma_insert_by_at(t, x, lt, p);
        assert(t.insert(p, x).push(s.last()) =~= s.insert(p, x));
    }
}

/// SRV records by owner name, then priority.
pub open spec fn srv_lt(a: SrvRecord, b: SrvRecord) -> bool {
    lex_lt(a.fqdn@, b.fqdn@) || (a.fqdn@ == b.fqdn@ && a.priority < b.priority)
}

/// MX records by priority, then target.
pub open spec fn mx_lt(a: MxRecord, b: MxRecord) -> bool {
    a.priority < b.priority || (a.priority == b.priority && lex_lt(a.target@, b.target@))
}

fn srv_less(a: &SrvRecord, b: &SrvRecord) -> (r: bool)
    ensures
        r == srv_lt(*a, *b),
{
    let fa = chars_of(a.fqdn.as_str());
    let fb = chars_of(b.fqdn.as_str());
    less(&fa, &fb) || (eq_chars(&fa, &fb) && a.priority < b.priority)
}

fn mx_less(a: &MxRecord, b: &MxRecord) -> (r: bool)
    ensures
        r == mx_lt(*a, *b),
{
    a.priority < b.priority || (a.priority == b.priority && less(
        &chars_of(a.target.as_str()),
        &chars_of(b.target.as_str()),
    ))
}

/// SRV records ordered by owner name, then priority; records that tie keep
/// their order.
pub fn sort_srv(v: Vec<SrvRecord>) -> (r: Vec<SrvRecord>)
    ensures
        r@ == sorted_by(v@, |a: SrvRecord, b: SrvRecord| srv_lt(a, b)),
{
    let ghost lt = |a: SrvRecord, b: SrvRecord| srv_lt(a, b);
    let ghost orig = v@;
    let mut rest = v;
    let n0 = rest.len();
    assert(orig.len() == n0);
    let mut out: Vec<SrvRecord> = Vec::new();
    let mut i: usize = 0;
    assert(orig.take(0) =~= Seq::<SrvRecord>::empty());
    while rest.len() > 0
        invariant
            i + rest@.len() == orig.len(),
            orig.len() <= usize::MAX,
            rest@ == orig.skip(i as int),
            out@ == sorted_by(orig.take(i as int), lt),
            lt == (|a: SrvRecord, b: SrvRecord| srv_lt(a, b)),
        decreases rest@.len(),
    {
        let x = rest.remove(0);
        assert(orig.take(i + 1).drop_last() =~= orig.take(i as int));
        assert(orig.take(i + 1).last() == x);
        let mut p = out.len();
        while p > 0 && srv_less(&x, &out[p - 1])
            invariant
                p <= out.len(),
                forall|j: int| p <= j < out@.len() ==> lt(x, #[trigger] out@[j]),
                lt == (|a: SrvRecord, b: SrvRecord| srv_lt(a, b)),
            decreases p,
        {
            p = p - 1;
        }
        proof {
            lemma_insert_by_at(out@, x, lt, p as int);
        }
        out.insert(p, x);
        i = i + 1;
        assert(rest@ =~= orig.skip(i as int));
    }
    assert(orig.take(i as int) =~= orig);
    out
}

/// MX records ordered by priority, then target; records that tie keep their
/// order.
pub fn sort_mx(v: Vec<MxRecord>) -> (r: Vec<MxRecord>)
    ensures
        r@ == sorted_by(v@, |a: MxRecord, b: MxRecord| mx_lt(a, b)),
{
    let ghost lt = |a: MxRecord, b: MxRecord| mx_lt(a, b);
    let ghost orig = v@;
    let mut rest = v;
    let n0 = rest.len();
    assert(orig.len() == n0);
    let mut out: Vec<MxRecord> = Vec::new();
    let mut i: usize = 0;
    assert(orig.take(0) =~= Seq::<MxRecord>::empty());
    while rest.len() > 0
        invariant
            i + rest@.len() == orig.len(),
            orig.len() <= usize::MAX,
            rest@ == orig.skip(i as int),
            out@ == sorted_by(orig.take(i as int), lt),
            lt == (|a: MxRecord, b: MxRecord| mx_lt(a, b)),
        decreases rest@.len(),
    {
        let x = rest.remove(0);
        assert(orig.take(i + 1).drop_last() =~= orig.take(i as int));
        assert(orig.take(i + 1).last() == x);
        let mut p = out.len();
        while p > 0 && mx_less(&x, &out[p - 1])
            invariant
                p <= out.len(),
                forall|j: int| p <= j < out@.len() ==> lt(x, #[trigger] out@[j]),
                lt == (|a: MxRecord, b: MxRecord| mx_lt(a, b)),
            decreases p,
        {
            p = p - 1;
        }
        proof {
            lemma_insert_by_at(out@, x, lt, p as int);
        }
        out.insert(p, x);
        i = i + 1;
        assert(rest@ =~= orig.skip(i as int));
    }
    assert(orig.take(i as int) =~= orig);
    out
}

} // verus!
