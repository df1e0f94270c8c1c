//! The facts a domain's state contributes to its semantic graph, host by
//! host, and the graph they merge into.

use vstd::prelude::*;

use crate::ct::opt_as_str;
use crate::graph::{
    apply_fact, ca_id, ca_slug, dn_cn, fact_v, graph_of, is_self_issued, meta_v, self_issued, slug,
    CertMetadata, Fact, FactV, Graph, MetaV,
};
use crate::model::{
    cert_key_name, cert_signature_from_db, db_sig_name, key_name, port_service,
    port_service_name, symmetric, symmetric_name, Certificate, CertRef, ChainEntry, Host,
    DomainState, MatchKind, ProbeStatus, ScanState, ServedCert,
};
use crate::strs::{
    chars_of, clone_opt, concat, dec, dec_u64, eq_chars, lemma_views_push, opt_str, opt_string,
    own, push_all, push_str, string_of, views,
};

verus! {

// ---------------------------------------------------------------- certificates

/// What the graph shows of a certificate, taken from CT or from the live
/// handshake.
pub struct CertFactsV {
    pub cn: Seq<char>,
    pub ct_id: Option<u64>,
    pub sig: Option<Seq<char>>,
    pub key_alg: Option<Seq<char>>,
    pub key_size: Option<i64>,
    pub curve: Option<Seq<char>>,
    pub issuer: Option<Seq<char>>,
    pub identities: Seq<Seq<char>>,
    pub not_before: Option<i64>,
    pub not_after: Option<i64>,
    pub chain: Seq<ChainEntry>,
}

/// A CT certificate: named by its common name, else its serial, and by its
/// first CT id.
pub open spec fn ct_facts(ct: Certificate) -> CertFactsV {
    CertFactsV {
        cn: match ct.common_name {
            Some(c) => c@,
            None => ct.serial@,
        },
        ct_id: if ct.ct_ids@.len() > 0 {
            Some(ct.ct_ids@[0])
        } else {
            None
        },
        sig: opt_string(ct.cert_signature),
        key_alg: opt_string(ct.key_algorithm),
        key_size: ct.key_size,
        curve: None,
        issuer: opt_string(ct.issuer),
        identities: views(ct.identities@),
        not_before: ct.not_before,
        not_after: ct.not_after,
        chain: ct.chain@,
    }
}

/// A certificate seen only in the handshake: no CT id, no recorded chain.
pub open spec fn served_facts(s: ServedCert) -> CertFactsV {
    CertFactsV {
        cn: match s.common_name {
            Some(c) => c@,
            None => s.serial@,
        },
        ct_id: None,
        sig: opt_string(s.cert_signature),
        key_alg: opt_string(s.pubkey_alg),
        key_size: None,
        curve: opt_string(s.pubkey_curve),
        issuer: opt_string(s.issuer),
        identities: views(s.identities@),
        not_before: s.not_before,
        not_after: s.not_after,
        chain: Seq::empty(),
    }
}

/// The identities other than `cn`, in order.
pub open spec fn others(ids: Seq<Seq<char>>, cn: Seq<char>) -> Seq<Seq<char>>
    decreases ids.len(),
{
    if ids.len() == 0 {
        ids
    } else if ids.last() == cn {
        others(ids.drop_last(), cn)
    } else {
        others(ids.drop_last(), cn).push(ids.last())
    }
}

/// "cert:{cn}:{first CT id}", or "cert:{cn}" without one.
pub open spec fn cert_id(f: CertFactsV) -> Seq<char> {
    match f.ct_id {
        Some(i) => "cert:"@ + f.cn + ":"@ + dec(i as nat),
        None => "cert:"@ + f.cn,
    }
}

/// "cn", "cn +1 SAN" or "cn +N SANs" for N other names.
pub open spec fn cert_label(cn: Seq<char>, n: nat) -> Seq<char> {
    if n == 0 {
        cn
    } else if n == 1 {
        cn + " +1 SAN"@
    } else {
        cn + " +"@ + dec(n) + " SANs"@
    }
}

pub open spec fn leaf_meta(f: CertFactsV) -> MetaV {
    let sans = others(f.identities, f.cn);
    MetaV {
        ca_role: "leaf"@,
        sans: if sans.len() > 0 {
            Some(sans)
        } else {
            None
        },
        not_before: f.not_before,
        not_after: f.not_after,
    }
}

/// A crypto node `prefix + name` with label `name`, and the link `rel` to
/// it from `owner`; nothing without a name.
pub open spec fn named_facts(
    owner: Seq<char>,
    name: Option<Seq<char>>,
    prefix: Seq<char>,
    group: Seq<char>,
    rel: Seq<char>,
) -> Seq<FactV> {
    match name {
        Some(n) => seq![
            FactV::Node(prefix + n, n, "crypto"@, Some(group)),
            FactV::Link(owner, prefix + n, rel),
        ],
        None => Seq::empty(),
    }
}

pub open spec fn ca_node_id(cn: Seq<char>) -> Seq<char> {
    "ca:"@ + slug(cn)
}

/// The issuer node named by a distinguished name, and the link to it.
pub open spec fn issuer_facts(cert: Seq<char>, issuer: Option<Seq<char>>) -> Seq<FactV> {
    match issuer {
        Some(dn) => seq![
            FactV::Node(ca_node_id(dn_cn(dn)), dn_cn(dn), "pki"@, Some("issuer"@)),
            FactV::Link(cert, ca_node_id(dn_cn(dn)), "issued_by"@),
        ],
        None => Seq::empty(),
    }
}

pub open spec fn entry_meta(e: ChainEntry) -> MetaV {
    MetaV {
        ca_role: if self_issued(e) {
            "root"@
        } else {
            "intermediate"@
        },
        sans: None,
        not_before: e.not_before,
        not_after: e.not_after,
    }
}

/// The facts of one CA of a recorded chain, given the CA met before it, and
/// the CA to link the next one from. The leaf (depth 0) and CAs without a
/// common name give nothing.
pub open spec fn entry_step(e: ChainEntry, prev: Option<Seq<char>>) -> (Seq<FactV>, Option<Seq<char>>) {
    if e.depth < 1 || e.common_name is None || e.common_name.unwrap()@.len() == 0 {
        (Seq::empty(), prev)
    } else {
        let cn = e.common_name.unwrap()@;
        let ca = ca_node_id(cn);
        let sig = db_sig_name(
            opt_string(e.key_algorithm),
            e.key_size,
            opt_string(e.signature_key_algorithm),
            opt_string(e.signature_hash_algorithm),
        );
        let key = key_name(opt_string(e.key_algorithm), e.key_size, None);
        let up = match prev {
            Some(p) => if p != ca {
                seq![FactV::Link(p, ca, "issued_by"@)]
            } else {
                Seq::empty()
            },
            None => Seq::empty(),
        };
        (
            seq![FactV::Node(ca, cn, "pki"@, Some("issuer"@)), FactV::Meta(ca, entry_meta(e))]
                + named_facts(ca, sig, "certsig:"@, "certificate_signature"@, "cert_signature"@)
                + named_facts(ca, key, "certkey:"@, "certificate_key"@, "cert_key"@) + up,
            Some(ca),
        )
    }
}

/// The facts of a recorded chain, in order, and the last CA linked.
pub open spec fn chain_run(es: Seq<ChainEntry>, prev: Option<Seq<char>>) -> (Seq<FactV>, Option<Seq<char>>)
    decreases es.len(),
{
    if es.len() == 0 {
        (Seq::empty(), prev)
    } else {
        let (fs, p) = chain_run(es.drop_last(), prev);
        let (ef, np) = entry_step(es.last(), p);
        (fs + ef, np)
    }
}

/// The certificate's own node, its metadata and the link `edge` to it from
/// the host.
pub open spec fn leaf_facts(host: Seq<char>, f: CertFactsV, edge: Seq<char>) -> Seq<FactV> {
    let id = cert_id(f);
    seq![
        FactV::Node(id, cert_label(f.cn, others(f.identities, f.cn).len()), "pki"@, Some("certificate"@)),
        FactV::Meta(id, leaf_meta(f)),
        FactV::Link(host, id, edge),
    ]
}

/// The issuer node that the certificate's own issuer name gives.
pub open spec fn first_ca(issuer: Option<Seq<char>>) -> Option<Seq<char>> {
    match issuer {
        Some(dn) => Some(ca_node_id(dn_cn(dn))),
        None => None,
    }
}

/// The facts of a host's certificate reached by the link `edge`.
pub open spec fn cert_facts(host: Seq<char>, f: CertFactsV, edge: Seq<char>) -> Seq<FactV> {
    let id = cert_id(f);
    leaf_facts(host, f, edge)
        + named_facts(id, f.sig, "certsig:"@, "certificate_signature"@, "cert_signature"@)
        + named_facts(id, key_name(f.key_alg, f.key_size, f.curve), "certkey:"@, "certificate_key"@, "cert_key"@)
        + issuer_facts(id, f.issuer) + chain_run(f.chain, first_ca(f.issuer)).0
}

// ---------------------------------------------------------------- a host's certificate

/// The first certificate with the given serial.
pub open spec fn lookup(certs: Seq<Certificate>, serial: Seq<char>) -> Option<Certificate>
    decreases certs.len(),
{
    if certs.len() == 0 {
        None
    } else if certs[0].serial@ == serial {
        Some(certs[0])
    } else {
        lookup(certs.drop_first(), serial)
    }
}

pub open spec fn has_exact(refs: Seq<CertRef>) -> bool {
    exists|k: int| 0 <= k < refs.len() && refs[k].kind == MatchKind::Exact
}

/// The certificates that the references name, in order, exact matches only
/// when `only_exact`.
pub open spec fn candidates(refs: Seq<CertRef>, only_exact: bool, certs: Seq<Certificate>) -> Seq<Certificate>
    decreases refs.len(),
{
    if refs.len() == 0 {
        Seq::empty()
    } else {
        let rest = candidates(refs.drop_last(), only_exact, certs);
        let r = refs.last();
        if only_exact && r.kind != MatchKind::Exact {
            rest
        } else {
            match lookup(certs, r.serial@) {
                Some(c) => rest.push(c),
                None => rest,
            }
        }
    }
}

/// Expiry order: a missing expiry comes first.
pub open spec fn not_after_le(a: Option<i64>, b: Option<i64>) -> bool {
    match (a, b) {
        (None, _) => true,
        (Some(_), None) => false,
        (Some(x), Some(y)) => x <= y,
    }
}

/// The certificate with the latest expiry, the last of equals.
pub open spec fn latest(cs: Seq<Certificate>) -> Option<Certificate>
    decreases cs.len(),
{
    if cs.len() == 0 {
        None
    } else {
        match latest(cs.drop_last()) {
            None => Some(cs.last()),
            Some(b) => if not_after_le(b.not_after, cs.last().not_after) {
                Some(cs.last())
            } else {
                Some(b)
            },
        }
    }
}

pub open spec fn served_of(h: Host) -> Option<ServedCert> {
    match h.endpoint {
        Some(e) => e.served,
        None => None,
    }
}

/// The certificate attributed to a host, with the link that reaches it: the
/// leaf it served live (as CT knows it when CT has its serial), else the
/// certificate with the latest expiry among those that cover it, exact
/// matches outranking wildcards.
pub open spec fn host_cert(certs: Seq<Certificate>, h: Host) -> Option<(CertFactsV, Seq<char>)> {
    match served_of(h) {
        Some(s) => match lookup(certs, s.serial@) {
            Some(ct) => Some((ct_facts(ct), "presents_certificate"@)),
            None => Some((served_facts(s), "presents_certificate"@)),
        },
        None => match latest(candidates(h.ct_refs@, has_exact(h.ct_refs@), certs)) {
            Some(c) => Some((ct_facts(c), "certificate_for"@)),
            None => None,
        },
    }
}

// ---------------------------------------------------------------- hosts

pub open spec fn exposed(h: Host) -> bool {
    match h.endpoint {
        Some(e) => e.status == ProbeStatus::Success,
        None => false,
    }
}

pub open spec fn port_id(port: u16) -> Seq<char> {
    "service:tcp/"@ + dec(port as nat)
}

/// A service node and an `exposes` link for each open port, in order.
pub open spec fn port_facts(host: Seq<char>, ps: Seq<crate::model::PortScan>) -> Seq<FactV>
    decreases ps.len(),
{
    if ps.len() == 0 {
        Seq::empty()
    } else {
        let rest = port_facts(host, ps.drop_last());
        let p = ps.last();
        if p.state == ScanState::Open {
            rest + seq![
                FactV::Node(
                    port_id(p.port),
                    port_service_name(p.port) + ":"@ + dec(p.port as nat),
                    "service"@,
                    Some("tcp_service"@),
                ),
                FactV::Link(host, port_id(p.port), "exposes"@),
            ]
        } else {
            rest
        }
    }
}

/// The negotiated key exchange group and symmetric cipher of a host.
pub open spec fn negotiated_facts(host: Seq<char>, h: Host) -> Seq<FactV> {
    match h.endpoint {
        Some(e) => match e.negotiated {
            Some(n) => named_facts(host, opt_string(n.kx_group), "kx:"@, "key_exchange"@, "negotiated_kx"@)
                + named_facts(
                host,
                match n.cipher {
                    Some(c) => symmetric(c@),
                    None => None,
                },
                "cipher:"@,
                "symmetric"@,
                "symmetric_cipher"@,
            ),
            None => Seq::empty(),
        },
        None => Seq::empty(),
    }
}

/// Everything one host contributes to the graph, in order.
pub open spec fn host_facts(certs: Seq<Certificate>, h: Host) -> Seq<FactV> {
    let hid = "host:"@ + h.name@;
    seq![FactV::Node(hid, h.name@, "host"@, None)] + (if exposed(h) {
        seq![
            FactV::Node("service:tcp/443"@, "TCP/443"@, "service"@, Some("tcp_service"@)),
            FactV::Link(hid, "service:tcp/443"@, "exposes"@),
        ]
    } else {
        Seq::empty()
    }) + port_facts(hid, h.ports@) + negotiated_facts(hid, h) + match host_cert(certs, h) {
        Some((f, edge)) => cert_facts(hid, f, edge),
        None => Seq::empty(),
    }
}

/// The facts of all hosts, host after host.
pub open spec fn state_facts(certs: Seq<Certificate>, hosts: Seq<Host>) -> Seq<FactV>
    decreases hosts.len(),
{
    if hosts.len() == 0 {
        Seq::empty()
    } else {
        state_facts(certs, hosts.drop_last()) + host_facts(certs, hosts.last())
    }
}

// ---------------------------------------------------------------- emitting facts

fn emit_node(
    g: &mut Graph,
    id: String,
    label: String,
    ty: &str,
    group: Option<&str>,
    Ghost(fs): Ghost<Seq<FactV>>,
)
    requires
        graph_of(*old(g), fs),
    ensures
        graph_of(*final(g), fs.push(FactV::Node(id@, label@, ty@, opt_str(group)))),
{
    let grp = match group {
        Some(x) => Some(own(x)),
        None => None,
    };
    apply_fact(g, Fact::Node { id, label, node_type: own(ty), group: grp }, Ghost(fs));
}

fn emit_link(g: &mut Graph, source: String, target: String, label: &str, Ghost(fs): Ghost<Seq<FactV>>)
    requires
        graph_of(*old(g), fs),
    ensures
        graph_of(*final(g), fs.push(FactV::Link(source@, target@, label@))),
{
    apply_fact(g, Fact::Link { source, target, label: own(label) }, Ghost(fs));
}

fn emit_meta(g: &mut Graph, id: String, meta: CertMetadata, Ghost(fs): Ghost<Seq<FactV>>)
    requires
        graph_of(*old(g), fs),
    ensures
        graph_of(*final(g), fs.push(FactV::Meta(id@, meta_v(meta)))),
{
    apply_fact(g, Fact::Meta { id, meta }, Ghost(fs));
}

fn emit_named(
    g: &mut Graph,
    owner: &String,
    name: Option<String>,
    prefix: &str,
    group: &str,
    rel: &str,
    Ghost(fs): Ghost<Seq<FactV>>,
)
    requires
        graph_of(*old(g), fs),
    ensures
        graph_of(*final(g), fs + named_facts(owner@, opt_string(name), prefix@, group@, rel@)),
{
    match name {
        Some(n) => {
            let id = concat(prefix, n.as_str());
            let id2 = id.clone();
            let ghost f1 = FactV::Node(id@, n@, "crypto"@, Some(group@));
            emit_node(g, id, n, "crypto", Some(group), Ghost(fs));
            emit_link(g, owner.clone(), id2, rel, Ghost(fs.push(f1)));
            assert(fs.push(f1).push(FactV::Link(owner@, id2@, rel@)) =~= fs + named_facts(
                owner@,
                opt_string(name),
                prefix@,
                group@,
                rel@,
            ));
        },
        None => {
            assert(fs + named_facts(owner@, opt_string(name), prefix@, group@, rel@) =~= fs);
        },
    }
}

fn same_text(a: &String, b: &String) -> (r: bool)
    ensures
        r == (a@ == b@),
{
    eq_chars(&chars_of(a.as_str()), &chars_of(b.as_str()))
}

fn emit_entry(g: &mut Graph, e: &ChainEntry, prev: Option<String>, Ghost(fs): Ghost<Seq<FactV>>) -> (np: Option<String>)
    requires
        graph_of(*old(g), fs),
    ensures
        graph_of(*final(g), fs + entry_step(*e, opt_string(prev)).0),
        opt_string(np) == entry_step(*e, opt_string(prev)).1,
{
    let cn = match &e.common_name {
        Some(c) => c,
        None => {
            assert(fs + Seq::<FactV>::empty() =~= fs);
            return prev;
        },
    };
    if e.depth < 1 || chars_of(cn.as_str()).len() == 0 {
        assert(fs + Seq::<FactV>::empty() =~= fs);
        return prev;
    }
    let sl = ca_slug(cn.as_str());
    let ca = concat("ca:", sl.as_str());
    let role = if is_self_issued(e) {
        own("root")
    } else {
        own("intermediate")
    };
    let meta = CertMetadata { ca_role: role, sans: None, not_before: e.not_before, not_after: e.not_after };
    let ghost f1 = FactV::Node(ca@, cn@, "pki"@, Some("issuer"@));
    let ghost f2 = FactV::Meta(ca@, entry_meta(*e));
    emit_node(g, ca.clone(), cn.clone(), "pki", Some("issuer"), Ghost(fs));
    emit_meta(g, ca.clone(), meta, Ghost(fs.push(f1)));
    let ghost fs2 = fs.push(f1).push(f2);
    let sig = cert_signature_from_db(
        opt_as_str(&e.key_algorithm),
        e.key_size,
        opt_as_str(&e.signature_key_algorithm),
        opt_as_str(&e.signature_hash_algorithm),
    );
    let ghost ns = named_facts(ca@, opt_string(sig), "certsig:"@, "certificate_signature"@, "cert_signature"@);
    emit_named(g, &ca, sig, "certsig:", "certificate_signature", "cert_signature", Ghost(fs2));
    let key = cert_key_name(opt_as_str(&e.key_algorithm), e.key_size, None);
    let ghost nk = named_facts(ca@, opt_string(key), "certkey:"@, "certificate_key"@, "cert_key"@);
    emit_named(g, &ca, key, "certkey:", "certificate_key", "cert_key", Ghost(fs2 + ns));
    let ghost fs4 = fs2 + ns + nk;
    let ghost step = entry_step(*e, opt_string(prev));
    assert(step.0 == seq![f1, f2] + ns + nk + match opt_string(prev) {
        Some(p) => if p != ca@ {
            seq![FactV::Link(p, ca@, "issued_by"@)]
        } else {
            Seq::empty()
        },
        None => Seq::empty(),
    });
    match prev {
        Some(p) => {
            if !same_text(&p, &ca) {
                let ghost pv = p@;
                emit_link(g, p, ca.clone(), "issued_by", Ghost(fs4));
                assert(fs4.push(FactV::Link(pv, ca@, "issued_by"@)) =~= fs + step.0);
            } else {
                assert(fs4 + Seq::<FactV>::empty() =~= fs + step.0);
            }
        },
        None => {
            assert(fs4 + Seq::<FactV>::empty() =~= fs + step.0);
        },
    }
    Some(ca)
}

fn emit_chain(g: &mut Graph, es: &Vec<ChainEntry>, prev0: Option<String>, Ghost(fs): Ghost<Seq<FactV>>)
    requires
        graph_of(*old(g), fs),
    ensures
        graph_of(*final(g), fs + chain_run(es@, opt_string(prev0)).0),
{
    let ghost p0 = opt_string(prev0);
    let mut prev = prev0;
    let mut i: usize = 0;
    assert(fs + chain_run(es@.subrange(0, 0), p0).0 =~= fs);
    while i < es.len()
        invariant
            i <= es.len(),
            graph_of(*g, fs + chain_run(es@.subrange(0, i as int), p0).0),
            opt_string(prev) == chain_run(es@.subrange(0, i as int), p0).1,
        decreases es.len() - i,
    {
        let ghost before = chain_run(es@.subrange(0, i as int), p0);
        assert(es@.subrange(0, i + 1).drop_last() =~= es@.subrange(0, i as int));
        let ghost step = entry_step(es@[i as int], before.1);
        prev = emit_entry(g, &es[i], prev, Ghost(fs + before.0));
        i = i + 1;
        assert(fs + before.0 + step.0 =~= fs + chain_run(es@.subrange(0, i as int), p0).0);
    }
    assert(es@.subrange(0, es.len() as int) =~= es@);
}


/// The identities other than `cn`.
fn others_of(ids: &Vec<String>, cn: &String) -> (r: Vec<String>)
    ensures
        views(r@) == others(views(ids@), cn@),
{
    let mut out: Vec<String> = Vec::new();
    let mut i: usize = 0;
    assert(views(ids@.subrange(0, 0)) =~= Seq::<Seq<char>>::empty());
    while i < ids.len()
        invariant
            i <= ids.len(),
            views(out@) == others(views(ids@.subrange(0, i as int)), cn@),
        decreases ids.len() - i,
    {
        assert(ids@.subrange(0, i + 1) =~= ids@.subrange(0, i as int).push(ids@[i as int]));
        proof {
            lemma_views_push(ids@.subrange(0, i as int), ids@[i as int]);
        }
        assert(views(ids@.subrange(0, i + 1)).drop_last() =~= views(ids@.subrange(0, i as int)));
        if !same_text(&ids[i], cn) {
            let x = ids[i].clone();
            proof {
                lemma_views_push(out@, x);
            }
            out.push(x);
        }
        i = i + 1;
    }
    assert(ids@.subrange(0, ids.len() as int) =~= ids@);
    out
}

fn cert_label_of(cn: &String, n: usize) -> (r: String)
    ensures
        r@ == cert_label(cn@, n as nat),
{
    if n == 0 {
        return cn.clone();
    }
    let mut v = chars_of(cn.as_str());
    if n == 1 {
        push_str(&mut v, " +1 SAN");
    } else {
        push_str(&mut v, " +");
        let d = dec_u64(n as u64);
        push_all(&mut v, &d);
        push_str(&mut v, " SANs");
    }
    string_of(&v)
}

fn cert_id_of(cn: &String, ct_id: Option<u64>) -> (r: String)
    ensures
        r@ == match ct_id {
            Some(i) => "cert:"@ + cn@ + ":"@ + dec(i as nat),
            None => "cert:"@ + cn@,
        },
{
    let mut v = chars_of("cert:");
    push_str(&mut v, cn.as_str());
    match ct_id {
        Some(i) => {
            push_str(&mut v, ":");
            let d = dec_u64(i);
            push_all(&mut v, &d);
        },
        None => {},
    }
    string_of(&v)
}

/// The certificate's node, metadata and incoming link; returns its id.
fn emit_leaf(
    g: &mut Graph,
    hid: &String,
    cn: &String,
    ct_id: Option<u64>,
    identities: &Vec<String>,
    nb: Option<i64>,
    na: Option<i64>,
    edge: &str,
    Ghost(f): Ghost<CertFactsV>,
    Ghost(fs): Ghost<Seq<FactV>>,
) -> (id: String)
    requires
        graph_of(*old(g), fs),
        f.cn == cn@,
        f.ct_id == ct_id,
        f.identities == views(identities@),
        f.not_before == nb,
        f.not_after == na,
    ensures
        graph_of(*final(g), fs + leaf_facts(hid@, f, edge@)),
        id@ == cert_id(f),
{
    let sans = others_of(identities, cn);
    let id = cert_id_of(cn, ct_id);
    let label = cert_label_of(cn, sans.len());
    let meta = CertMetadata {
        ca_role: own("leaf"),
        sans: if sans.len() > 0 {
            Some(sans)
        } else {
            None
        },
        not_before: nb,
        not_after: na,
    };
    let ghost f1 = FactV::Node(id@, label@, "pki"@, Some("certificate"@));
    let ghost f2 = FactV::Meta(id@, meta_v(meta));
    assert(meta_v(meta) == leaf_meta(f));
    emit_node(g, id.clone(), label, "pki", Some("certificate"), Ghost(fs));
    emit_meta(g, id.clone(), meta, Ghost(fs.push(f1)));
    emit_link(g, hid.clone(), id.clone(), edge, Ghost(fs.push(f1).push(f2)));
    assert(fs.push(f1).push(f2).push(FactV::Link(hid@, id@, edge@)) =~= fs + leaf_facts(hid@, f, edge@));
    id
}

/// The issuer named by the certificate and the recorded chain above it.
fn emit_issuers(
    g: &mut Graph,
    id: &String,
    issuer: &Option<String>,
    chain: &Vec<ChainEntry>,
    Ghost(fs): Ghost<Seq<FactV>>,
)
    requires
        graph_of(*old(g), fs),
    ensures
        graph_of(
            *final(g),
            fs + issuer_facts(id@, opt_string(*issuer)) + chain_run(chain@, first_ca(opt_string(*issuer))).0,
        ),
{
    let first = match issuer {
        Some(dn) => {
            let (ca, ca_label) = ca_id(dn.as_str());
            let ghost n1 = FactV::Node(ca@, ca_label@, "pki"@, Some("issuer"@));
            emit_node(g, ca.clone(), ca_label, "pki", Some("issuer"), Ghost(fs));
            emit_link(g, id.clone(), ca.clone(), "issued_by", Ghost(fs.push(n1)));
            assert(fs.push(n1).push(FactV::Link(id@, ca@, "issued_by"@)) =~= fs + issuer_facts(
                id@,
                opt_string(*issuer),
            ));
            Some(ca)
        },
        None => {
            assert(fs + issuer_facts(id@, opt_string(*issuer)) =~= fs);
            None
        },
    };
    emit_chain(g, chain, first, Ghost(fs + issuer_facts(id@, opt_string(*issuer))));
}

/// The facts of a certificate: its node, its metadata, the link from the
/// host, its signature and key, its issuer and the recorded chain above it.
fn emit_cert(
    g: &mut Graph,
    hid: &String,
    cn: String,
    ct_id: Option<u64>,
    sig: Option<String>,
    key_alg: Option<&str>,
    key_size: Option<i64>,
    curve: Option<&str>,
    issuer: &Option<String>,
    identities: &Vec<String>,
    nb: Option<i64>,
    na: Option<i64>,
    chain: &Vec<ChainEntry>,
    edge: &str,
    Ghost(fs): Ghost<Seq<FactV>>,
)
    requires
        graph_of(*old(g), fs),
    ensures
        graph_of(
            *final(g),
            fs + cert_facts(
                hid@,
                CertFactsV {
                    cn: cn@,
                    ct_id,
                    sig: opt_string(sig),
                    key_alg: opt_str(key_alg),
                    key_size,
                    curve: opt_str(curve),
                    issuer: opt_string(*issuer),
                    identities: views(identities@),
                    not_before: nb,
                    not_after: na,
                    chain: chain@,
                },
                edge@,
            ),
        ),
{
    let ghost f = CertFactsV {
        cn: cn@,
        ct_id,
        sig: opt_string(sig),
        key_alg: opt_str(key_alg),
        key_size,
        curve: opt_str(curve),
        issuer: opt_string(*issuer),
        identities: views(identities@),
        not_before: nb,
        not_after: na,
        chain: chain@,
    };
    let id = emit_leaf(g, hid, &cn, ct_id, identities, nb, na, edge, Ghost(f), Ghost(fs));
    let ghost fs3 = fs + leaf_facts(hid@, f, edge@);
    let ghost ns = named_facts(id@, f.sig, "certsig:"@, "certificate_signature"@, "cert_signature"@);
    emit_named(g, &id, sig, "certsig:", "certificate_signature", "cert_signature", Ghost(fs3));
    let key = cert_key_name(key_alg, key_size, curve);
    let ghost nk = named_facts(id@, opt_string(key), "certkey:"@, "certificate_key"@, "cert_key"@);
    emit_named(g, &id, key, "certkey:", "certificate_key", "cert_key", Ghost(fs3 + ns));
    emit_issuers(g, &id, issuer, chain, Ghost(fs3 + ns + nk));
    assert(fs3 + ns + nk + issuer_facts(id@, f.issuer) + chain_run(chain@, first_ca(f.issuer)).0 =~= fs
        + cert_facts(hid@, f, edge@));
}

/// The index of the first certificate with the given serial.
fn find_cert(certs: &Vec<Certificate>, serial: &String) -> (r: Option<usize>)
    ensures
        match r {
            Some(i) => i < certs.len() && lookup(certs@, serial@) == Some(certs@[i as int]),
            None => lookup(certs@, serial@) is None,
        },
{
    let mut i: usize = 0;
    assert(certs@.skip(0) =~= certs@);
    while i < certs.len()
        invariant
            i <= certs.len(),
            lookup(certs@, serial@) == lookup(certs@.skip(i as int), serial@),
        decreases certs.len() - i,
    {
        assert(certs@.skip(i as int)[0] == certs@[i as int]);
        if same_text(&certs[i].serial, serial) {
            return Some(i);
        }
        assert(certs@.skip(i as int).drop_first() =~= certs@.skip(i + 1));
        i = i + 1;
    }
    None
}

fn any_exact(refs: &Vec<CertRef>) -> (r: bool)
    ensures
        r == has_exact(refs@),
{
    let mut i: usize = 0;
    while i < refs.len()
        invariant
            i <= refs.len(),
            forall|k: int| 0 <= k < i ==> refs@[k].kind != MatchKind::Exact,
        decreases refs.len() - i,
    {
        if matches!(refs[i].kind, MatchKind::Exact) {
            return true;
        }
        i = i + 1;
    }
    false
}

/// The covering certificate with the latest expiry, exact matches first.
fn best_covering(certs: &Vec<Certificate>, refs: &Vec<CertRef>) -> (r: Option<usize>)
    ensures
        match r {
            Some(i) => i < certs.len() && latest(candidates(refs@, has_exact(refs@), certs@)) == Some(
                certs@[i as int],
            ),
            None => latest(candidates(refs@, has_exact(refs@), certs@)) is None,
        },
{
    let only = any_exact(refs);
    let mut best: Option<usize> = None;
    let mut i: usize = 0;
    while i < refs.len()
        invariant
            i <= refs.len(),
            only == has_exact(refs@),
            match best {
                Some(k) => k < certs.len() && latest(candidates(refs@.subrange(0, i as int), only, certs@))
                    == Some(certs@[k as int]),
                None => latest(candidates(refs@.subrange(0, i as int), only, certs@)) is None,
            },
        decreases refs.len() - i,
    {
        let ghost prev = candidates(refs@.subrange(0, i as int), only, certs@);
        assert(refs@.subrange(0, i + 1).drop_last() =~= refs@.subrange(0, i as int));
        let r = &refs[i];
        if !only || matches!(r.kind, MatchKind::Exact) {
            match find_cert(certs, &r.serial) {
                Some(c) => {
                    assert(prev.push(certs@[c as int]).drop_last() =~= prev);
                    match best {
                        Some(k) => {
                            let later = match (certs[k].not_after, certs[c].not_after) {
                                (None, _) => true,
                                (Some(_), None) => false,
                                (Some(x), Some(y)) => x <= y,
                            };
                            if later {
                                best = Some(c);
                            }
                        },
                        None => {
                            best = Some(c);
                        },
                    }
                },
                None => {},
            }
        }
        i = i + 1;
    }
    assert(refs@.subrange(0, refs.len() as int) =~= refs@);
    best
}

/// The facts of the certificate attributed to a host.
fn emit_host_cert(g: &mut Graph, certs: &Vec<Certificate>, h: &Host, hid: &String, Ghost(fs): Ghost<Seq<FactV>>)
    requires
        graph_of(*old(g), fs),
    ensures
        graph_of(
            *final(g),
            fs + match host_cert(certs@, *h) {
                Some((f, edge)) => cert_facts(hid@, f, edge),
                None => Seq::empty(),
            },
        ),
{
    let served = match &h.endpoint {
        Some(e) => match &e.served {
            Some(s) => Some(s),
            None => None,
        },
        None => None,
    };
    let ct = match served {
        Some(s) => match find_cert(certs, &s.serial) {
            Some(i) => Some(i),
            None => {
                let empty: Vec<ChainEntry> = Vec::new();
                let cn = match &s.common_name {
                    Some(c) => c.clone(),
                    None => s.serial.clone(),
                };
                emit_cert(
                    g,
                    hid,
                    cn,
                    None,
                    clone_opt(&s.cert_signature),
                    opt_as_str(&s.pubkey_alg),
                    None,
                    opt_as_str(&s.pubkey_curve),
                    &s.issuer,
                    &s.identities,
                    s.not_before,
                    s.not_after,
                    &empty,
                    "presents_certificate",
                    Ghost(fs),
                );
                assert(empty@ =~= Seq::<ChainEntry>::empty());
                return;
            },
        },
        None => best_covering(certs, &h.ct_refs),
    };
    let i = match ct {
        Some(i) => i,
        None => {
            assert(fs + Seq::<FactV>::empty() =~= fs);
            return;
        },
    };
    let c = &certs[i];
    let cn = match &c.common_name {
        Some(x) => x.clone(),
        None => c.serial.clone(),
    };
    let ct_id = if c.ct_ids.len() > 0 {
        Some(c.ct_ids[0])
    } else {
        None
    };
    let edge = if served.is_some() {
        "presents_certificate"
    } else {
        "certificate_for"
    };
    emit_cert(
        g,
        hid,
        cn,
        ct_id,
        clone_opt(&c.cert_signature),
        opt_as_str(&c.key_algorithm),
        c.key_size,
        None,
        &c.issuer,
        &c.identities,
        c.not_before,
        c.not_after,
        &c.chain,
        edge,
        Ghost(fs),
    );
}

fn port_id_of(port: u16) -> (r: String)
    ensures
        r@ == port_id(port),
{
    let mut v = chars_of("service:tcp/");
    let d = dec_u64(port as u64);
    push_all(&mut v, &d);
    string_of(&v)
}

fn emit_ports(g: &mut Graph, hid: &String, ports: &Vec<crate::model::PortScan>, Ghost(fs): Ghost<Seq<FactV>>)
    requires
        graph_of(*old(g), fs),
    ensures
        graph_of(*final(g), fs + port_facts(hid@, ports@)),
{
    let mut i: usize = 0;
    assert(fs + port_facts(hid@, ports@.subrange(0, 0)) =~= fs);
    while i < ports.len()
        invariant
            i <= ports.len(),
            graph_of(*g, fs + port_facts(hid@, ports@.subrange(0, i as int))),
        decreases ports.len() - i,
    {
        let ghost cur = fs + port_facts(hid@, ports@.subrange(0, i as int));
        assert(ports@.subrange(0, i + 1).drop_last() =~= ports@.subrange(0, i as int));
        let p = &ports[i];
        if matches!(p.state, ScanState::Open) {
            let id = port_id_of(p.port);
            let mut lv = chars_of(port_service(p.port));
            push_str(&mut lv, ":");
            let d = dec_u64(p.port as u64);
            push_all(&mut lv, &d);
            let label = string_of(&lv);
            let ghost n1 = FactV::Node(id@, label@, "service"@, Some("tcp_service"@));
            emit_node(g, id.clone(), label, "service", Some("tcp_service"), Ghost(cur));
            emit_link(g, hid.clone(), id, "exposes", Ghost(cur.push(n1)));
            assert(cur.push(n1).push(FactV::Link(hid@, port_id(p.port), "exposes"@)) =~= fs
                + port_facts(hid@, ports@.subrange(0, i + 1)));
        } else {
            assert(cur =~= fs + port_facts(hid@, ports@.subrange(0, i + 1)));
        }
        i = i + 1;
    }
    assert(ports@.subrange(0, ports.len() as int) =~= ports@);
}

fn emit_negotiated(g: &mut Graph, hid: &String, h: &Host, Ghost(fs): Ghost<Seq<FactV>>)
    requires
        graph_of(*old(g), fs),
    ensures
        graph_of(*final(g), fs + negotiated_facts(hid@, *h)),
{
    let n = match &h.endpoint {
        Some(e) => match &e.negotiated {
            Some(n) => n,
            None => {
                assert(fs + Seq::<FactV>::empty() =~= fs);
                return;
            },
        },
        None => {
            assert(fs + Seq::<FactV>::empty() =~= fs);
            return;
        },
    };
    let kx = clone_opt(&n.kx_group);
    let ghost nk = named_facts(hid@, opt_string(kx), "kx:"@, "key_exchange"@, "negotiated_kx"@);
    emit_named(g, hid, kx, "kx:", "key_exchange", "negotiated_kx", Ghost(fs));
    let sym = match &n.cipher {
        Some(c) => symmetric_name(c.as_str()),
        None => None,
    };
    emit_named(g, hid, sym, "cipher:", "symmetric", "symmetric_cipher", Ghost(fs + nk));
    assert(fs + nk + named_facts(hid@, opt_string(sym), "cipher:"@, "symmetric"@, "symmetric_cipher"@)
        =~= fs + negotiated_facts(hid@, *h));
}

/// Everything one host contributes to the graph.
fn emit_host(g: &mut Graph, certs: &Vec<Certificate>, h: &Host, Ghost(fs): Ghost<Seq<FactV>>)
    requires
        graph_of(*old(g), fs),
    ensures
        graph_of(*final(g), fs + host_facts(certs@, *h)),
{
    let hid = concat("host:", h.name.as_str());
    let ghost n0 = FactV::Node(hid@, h.name@, "host"@, None);
    emit_node(g, hid.clone(), h.name.clone(), "host", None, Ghost(fs));
    let ghost fs1 = fs.push(n0);
    let is_exposed = match &h.endpoint {
        Some(e) => matches!(e.status, ProbeStatus::Success),
        None => false,
    };
    let ghost ex = if exposed(*h) {
        seq![
            FactV::Node("service:tcp/443"@, "TCP/443"@, "service"@, Some("tcp_service"@)),
            FactV::Link(hid@, "service:tcp/443"@, "exposes"@),
        ]
    } else {
        Seq::<FactV>::empty()
    };
    if is_exposed {
        let ghost n1 = FactV::Node("service:tcp/443"@, "TCP/443"@, "service"@, Some("tcp_service"@));
        emit_node(g, own("service:tcp/443"), own("TCP/443"), "service", Some("tcp_service"), Ghost(fs1));
        emit_link(g, hid.clone(), own("service:tcp/443"), "exposes", Ghost(fs1.push(n1)));
        assert(fs1.push(n1).push(FactV::Link(hid@, "service:tcp/443"@, "exposes"@)) =~= fs1 + ex);
    } else {
        assert(fs1 + ex =~= fs1);
    }
    emit_ports(g, &hid, &h.ports, Ghost(fs1 + ex));
    let ghost fs3 = fs1 + ex + port_facts(hid@, h.ports@);
    emit_negotiated(g, &hid, h, Ghost(fs3));
    let ghost fs4 = fs3 + negotiated_facts(hid@, *h);
    emit_host_cert(g, certs, h, &hid, Ghost(fs4));
    assert(fs4 + match host_cert(certs@, *h) {
        Some((f, edge)) => cert_facts(hid@, f, edge),
        None => Seq::empty(),
    } =~= fs + host_facts(certs@, *h));
}

/// The semantic graph of a domain: every host with its exposed services,
/// negotiated crypto and certificate, each certificate with its signature,
/// key, issuer and recorded chain; one node per id, one link per relation.
pub fn graph(state: &DomainState) -> (r: Graph)
    ensures
        graph_of(r, state_facts(state.certs@, state.hosts@)),
{
    let mut g = Graph { nodes: Vec::new(), links: Vec::new() };
    let mut i: usize = 0;
    assert(state.hosts@.subrange(0, 0) =~= Seq::<Host>::empty());
    while i < state.hosts.len()
        invariant
            i <= state.hosts.len(),
            graph_of(g, state_facts(state.certs@, state.hosts@.subrange(0, i as int))),
        decreases state.hosts.len() - i,
    {
        assert(state.hosts@.subrange(0, i + 1).drop_last() =~= state.hosts@.subrange(0, i as int));
        emit_host(&mut g, &state.certs, &state.hosts[i], Ghost(state_facts(state.certs@, state.hosts@.subrange(0, i as int))));
        i = i + 1;
    }
    assert(state.hosts@.subrange(0, state.hosts.len() as int) =~= state.hosts@);
    g
}

} // verus!
