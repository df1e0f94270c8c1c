use pq_map::graph::Graph;
use pq_map::graph_build::graph;
use pq_map::model::{
    CertRef, Certificate, ChainEntry, CtStats, DnsStatus, DomainState, Endpoint, Host, HttpsRecord,
    IpAddress, MatchKind, MxRecord, Negotiated, Origins, PortScan, ProbeStatus, Provenance,
    ScanState, ServedCert, SrvRecord,
};
use pq_map::text::{combined, summary};

const DAY: i64 = 86_400;
/// 2026-09-21T12:00:00Z
const OBSERVED: i64 = 1_790_000_000 - 1_790_000_000 % DAY + 12 * 3600;

fn served(serial: &str, cn: &str, ids: &[&str], issuer: &str, nb: i64, na: i64) -> ServedCert {
    ServedCert {
        serial: serial.to_string(),
        common_name: Some(cn.to_string()),
        identities: ids.iter().map(|s| s.to_string()).collect(),
        pubkey_alg: Some("RSA".to_string()),
        sig_alg: Some("SHA256/RSA".to_string()),
        issuer: Some(issuer.to_string()),
        not_before: Some(nb),
        not_after: Some(na),
        chain_sigs: vec!["SHA256/RSA".to_string()],
        pubkey_curve: None,
        cert_signature: Some("RSA-SHA256".to_string()),
    }
}

fn negotiated(kx: &str, cipher: &str) -> Negotiated {
    Negotiated {
        tls_version: Some("TLS1.3".to_string()),
        kx_group: Some(kx.to_string()),
        cipher: Some(cipher.to_string()),
    }
}

fn ct_cert(
    serial: &str,
    served_live: bool,
    ct_ids: Vec<u64>,
    cn: &str,
    ids: &[&str],
    nb: i64,
    na: i64,
    issuer: Option<&str>,
    key: (&str, i64, &str),
    signature: &str,
) -> Certificate {
    let rsa = serial == "aa11";
    Certificate {
        serial: serial.to_string(),
        in_ct: true,
        served_live,
        currently_valid: true,
        ct_ids,
        common_name: Some(cn.to_string()),
        identities: ids.iter().map(|s| s.to_string()).collect(),
        not_before: Some(nb),
        not_after: Some(na),
        pubkey_alg: if rsa { Some("RSA".to_string()) } else { None },
        sig_alg: if rsa { Some("SHA256/RSA".to_string()) } else { None },
        issuer: issuer.map(|s| s.to_string()),
        key_algorithm: Some(key.0.to_string()),
        key_size: Some(key.1),
        sig_key_algorithm: Some(key.2.to_string()),
        sig_hash_algorithm: Some("SHA-256".to_string()),
        cert_signature: Some(signature.to_string()),
        chain: Vec::new(),
    }
}

fn host(name: &str, origins: Origins, dns: DnsStatus, refs: Vec<(&str, MatchKind)>, endpoint: Endpoint) -> Host {
    Host {
        name: name.to_string(),
        origins,
        resolves: Some(dns == DnsStatus::Resolved),
        dns_status: Some(dns),
        ct_refs: refs
            .into_iter()
            .map(|(s, k)| CertRef { serial: s.to_string(), kind: k })
            .collect(),
        dns_refs: Vec::new(),
        endpoint: Some(endpoint),
        ports: Vec::new(),
    }
}

fn live(ip: [u8; 4], nb: i64, na: i64) -> Endpoint {
    Endpoint {
        status: ProbeStatus::Success,
        ip: Some(IpAddress(ip.to_vec())),
        served: Some(served(
            "aa11",
            "www.nbp.pl",
            &["nbp.pl", "www.nbp.pl"],
            "CN=DigiCert TLS RSA SHA256 2020 CA-1",
            nb,
            na,
        )),
        served_not_in_ct: false,
        negotiated: Some(negotiated("X25519MLKEM768", "TLS13_AES_256_GCM_SHA384")),
        observed_at: Some(OBSERVED),
    }
}

fn chain_entry(depth: u32, cn: &str, ski: &str, aki: &str, issuer: &str, nb: i64, na: i64) -> ChainEntry {
    ChainEntry {
        depth,
        certificate_id: 9612296601 * 10 + depth as u64,
        common_name: Some(cn.to_string()),
        ski: Some(ski.to_string()),
        aki: Some(aki.to_string()),
        not_before: Some(nb),
        not_after: Some(na),
        key_algorithm: Some("RSA".to_string()),
        key_size: Some(2048),
        signature_key_algorithm: Some("RSA".to_string()),
        signature_hash_algorithm: Some("SHA-256".to_string()),
        issuer_ca_name: Some(issuer.to_string()),
    }
}

/// A small domain: two live hosts sharing a certificate, a host whose 443
/// is refused but whose SMTP ports answer, a wildcard-only host, and one
/// that no longer resolves.
fn fixture() -> DomainState {
    let now = OBSERVED;
    let nb = now - 30 * DAY;
    let na = now + 30 * DAY;
    let root = "C=US, O=DigiCert Inc, OU=www.digicert.com, CN=DigiCert Global Root CA";
    let mut certs = vec![
        ct_cert("aa11", true, vec![9612296601], "www.nbp.pl", &["nbp.pl", "www.nbp.pl"], nb, na,
            Some("CN=DigiCert TLS RSA SHA256 2020 CA-1"), ("RSA", 2048, "RSA"), "RSA-SHA256"),
        ct_cert("bb22", false, vec![9612297416, 9612300000], "*.nbp.pl", &["*.nbp.pl"], nb, na,
            None, ("EC", 256, "ECDSA"), "ECDSA-P256"),
        ct_cert("cc33", false, vec![9612300001], "eas.nbp.pl", &["eas.nbp.pl"], nb, na - 10 * DAY,
            Some("CN=Certum OV TLS G2 R39 CA"), ("RSA", 2048, "RSA"), "RSA-SHA256"),
    ];
    certs[0].chain = vec![
        chain_entry(0, "www.nbp.pl", "leaf", "b7", "C=US, O=DigiCert Inc, CN=DigiCert TLS RSA SHA256 2020 CA-1", nb, na),
        chain_entry(1, "DigiCert TLS RSA SHA256 2020 CA-1", "b7", "03de", root, nb - 1000 * DAY, na + 1000 * DAY),
        chain_entry(2, "DigiCert Global Root CA", "03de", "03de", root, nb - 5000 * DAY, na + 5000 * DAY),
    ];
    let port = |p: u16| PortScan {
        port: p,
        state: ScanState::Open,
        served: Some(served("cc33", "eas.nbp.pl", &["eas.nbp.pl"], "CN=Certum OV TLS G2 R39 CA", nb, na - 10 * DAY)),
        negotiated: Some(negotiated("X25519", "TLS_AES_256_GCM_SHA384")),
        observed_at: Some(OBSERVED),
    };
    let mut eas = host(
        "eas.nbp.pl",
        Origins::ct(),
        DnsStatus::Resolved,
        vec![("bb22", MatchKind::Wildcard), ("cc33", MatchKind::Exact)],
        Endpoint::failed(ProbeStatus::TcpRefused),
    );
    eas.ports = vec![port(465), port(25)];
    let mut apex_origins = Origins::apex();
    apex_origins.insert(Origins::ct());
    let mut www_origins = Origins::ct();
    www_origins.insert(Origins::dns());
    let hosts = vec![
        eas,
        host("nbp.pl", apex_origins, DnsStatus::Resolved, vec![("aa11", MatchKind::Exact)], live([104, 94, 222, 1], nb, na)),
        host("old.nbp.pl", Origins::ct(), DnsStatus::NxDomain, vec![("bb22", MatchKind::Wildcard)],
            Endpoint::failed(ProbeStatus::DnsFailure)),
        host("vpn.nbp.pl", Origins::ct(), DnsStatus::Resolved, vec![("bb22", MatchKind::Wildcard)],
            Endpoint::failed(ProbeStatus::TcpRefused)),
        host("www.nbp.pl", www_origins, DnsStatus::Resolved, vec![("aa11", MatchKind::Exact)], live([104, 94, 222, 171], nb, na)),
    ];
    DomainState {
        domain: "nbp.pl".to_string(),
        checked_at: OBSERVED,
        provenance: Provenance::Cached { age_secs: 2520 },
        ct_stats: CtStats { rows: 2, valid: 1, future: 1 },
        certs,
        hosts,
        srv: vec![SrvRecord {
            service: "_sip._tls".to_string(),
            fqdn: "_sip._tls.nbp.pl".to_string(),
            priority: 1,
            weight: 100,
            port: 443,
            target: "sipdir.online.lync.com".to_string(),
        }],
        https: vec![HttpsRecord {
            rr_type: "HTTPS".to_string(),
            priority: 1,
            target: ".".to_string(),
            params: "alpn=h2,h3".to_string(),
        }],
        mx: vec![MxRecord { priority: 10, target: "eas.nbp.pl".to_string() }],
    }
}

type Edge = (String, String, String);

fn edges(g: &Graph) -> Vec<Edge> {
    g.links
        .iter()
        .map(|l| (l.source.clone(), l.label.clone(), l.target.clone()))
        .collect()
}

fn e(s: &str, l: &str, t: &str) -> Edge {
    (s.to_string(), l.to_string(), t.to_string())
}

#[test]
fn exposed_host_has_full_edge_set() {
    let state = fixture();
    let g = graph(&state);
    let e_ = edges(&g);
    assert!(e_.contains(&e("host:www.nbp.pl", "negotiated_kx", "kx:X25519MLKEM768")));
    assert!(e_.contains(&e("host:www.nbp.pl", "symmetric_cipher", "cipher:AES256-GCM")));
    assert!(e_.contains(&e("host:www.nbp.pl", "exposes", "service:tcp/443")));
    assert!(e_.contains(&e("host:www.nbp.pl", "presents_certificate", "cert:www.nbp.pl:9612296601")));
    assert!(e_.contains(&e("cert:www.nbp.pl:9612296601", "cert_signature", "certsig:RSA-SHA256")));
    assert!(e_.contains(&e("cert:www.nbp.pl:9612296601", "cert_key", "certkey:RSA-2048")));
    assert!(e_.contains(&e(
        "cert:www.nbp.pl:9612296601",
        "issued_by",
        "ca:digicert-tls-rsa-sha256-2020-ca-1"
    )));
    assert!(e_.contains(&e(
        "ca:digicert-tls-rsa-sha256-2020-ca-1",
        "issued_by",
        "ca:digicert-global-root-ca"
    )));
    assert!(e_.contains(&e("ca:digicert-tls-rsa-sha256-2020-ca-1", "cert_signature", "certsig:RSA-SHA256")));
    assert!(e_.contains(&e("ca:digicert-tls-rsa-sha256-2020-ca-1", "cert_key", "certkey:RSA-2048")));
    assert!(e_.contains(&e("ca:digicert-global-root-ca", "cert_signature", "certsig:RSA-SHA256")));
    assert!(!e_.iter().any(|(_, l, _)| l == "uses"));
}

#[test]
fn unprobed_hosts_route_through_their_cert() {
    let state = fixture();
    let e_ = edges(&graph(&state));
    assert!(e_.contains(&e("host:vpn.nbp.pl", "certificate_for", "cert:*.nbp.pl:9612297416")));
    assert!(e_.contains(&e("cert:*.nbp.pl:9612297416", "cert_signature", "certsig:ECDSA-P256")));
    assert!(e_.contains(&e("cert:*.nbp.pl:9612297416", "cert_key", "certkey:EC-256")));
    assert!(e_.contains(&e("host:old.nbp.pl", "certificate_for", "cert:*.nbp.pl:9612297416")));
    assert!(!e_.iter().any(|(s, l, _)| s == "host:vpn.nbp.pl" && *l != "certificate_for"));
}

#[test]
fn exact_cert_match_outranks_the_wildcard() {
    let state = fixture();
    let e_ = edges(&graph(&state));
    assert!(e_.contains(&e("host:eas.nbp.pl", "certificate_for", "cert:eas.nbp.pl:9612300001")));
    assert!(!e_.contains(&e("host:eas.nbp.pl", "certificate_for", "cert:*.nbp.pl:9612297416")));
}

#[test]
fn fact_nodes_are_deduplicated() {
    let state = fixture();
    let g = graph(&state);
    let ids: Vec<&str> = g.nodes.iter().map(|n| n.id.as_str()).collect();
    let mut sorted = ids.clone();
    sorted.sort_unstable();
    sorted.dedup();
    assert_eq!(ids.len(), sorted.len(), "duplicate node ids in {ids:?}");
    assert_eq!(ids.iter().filter(|i| **i == "service:tcp/443").count(), 1);
    assert_eq!(ids.iter().filter(|i| **i == "cert:www.nbp.pl:9612296601").count(), 1);
    assert_eq!(ids.iter().filter(|i| **i == "ca:digicert-tls-rsa-sha256-2020-ca-1").count(), 1);
}

#[test]
fn nodes_carry_semantic_metadata() {
    let state = fixture();
    let g = graph(&state);
    let find = |id: &str| g.nodes.iter().find(|n| n.id == id).unwrap();
    let host = find("host:www.nbp.pl");
    assert_eq!(host.node_type, "host");
    assert!(host.group.is_none());
    assert_eq!(host.label, "www.nbp.pl");
    let kx = find("kx:X25519MLKEM768");
    assert_eq!(kx.node_type, "crypto");
    assert_eq!(kx.group.as_deref(), Some("key_exchange"));
    let cipher = find("cipher:AES256-GCM");
    assert_eq!(cipher.node_type, "crypto");
    assert_eq!(cipher.group.as_deref(), Some("symmetric"));
    let svc = find("service:tcp/465");
    assert_eq!(svc.node_type, "service");
    assert_eq!(svc.group.as_deref(), Some("tcp_service"));
    assert_eq!(svc.label, "SMTPS:465");
    let cert = find("cert:www.nbp.pl:9612296601");
    assert_eq!(cert.node_type, "pki");
    assert_eq!(cert.group.as_deref(), Some("certificate"));
    assert_eq!(cert.label, "www.nbp.pl +1 SAN");
    let meta = cert.metadata.as_ref().unwrap();
    assert_eq!(meta.ca_role, "leaf");
    assert_eq!(meta.sans, Some(vec!["nbp.pl".to_string()]));
    assert!(meta.not_before.is_some());
    assert!(meta.not_after.is_some());
    let inter = find("ca:digicert-tls-rsa-sha256-2020-ca-1");
    assert_eq!(inter.metadata.as_ref().unwrap().ca_role, "intermediate");
    assert!(inter.metadata.as_ref().unwrap().not_before.is_some());
    let root = find("ca:digicert-global-root-ca");
    assert_eq!(root.metadata.as_ref().unwrap().ca_role, "root");
    let sig = find("certsig:RSA-SHA256");
    assert_eq!(sig.node_type, "crypto");
    assert_eq!(sig.group.as_deref(), Some("certificate_signature"));
    let key = find("certkey:RSA-2048");
    assert_eq!(key.node_type, "crypto");
    assert_eq!(key.group.as_deref(), Some("certificate_key"));
    assert_eq!(key.label, "RSA-2048");
    let ca = find("ca:digicert-tls-rsa-sha256-2020-ca-1");
    assert_eq!(ca.node_type, "pki");
    assert_eq!(ca.group.as_deref(), Some("issuer"));
    assert_eq!(ca.label, "DigiCert TLS RSA SHA256 2020 CA-1");
    let service = find("service:tcp/443");
    assert_eq!(service.node_type, "service");
    assert_eq!(service.group.as_deref(), Some("tcp_service"));
    assert_eq!(service.label, "TCP/443");
}

#[test]
fn unprobed_hosts_route_through_their_cert_semantics() {
    let state = fixture();
    let g = graph(&state);
    let vpn = g.nodes.iter().find(|n| n.id == "host:vpn.nbp.pl").unwrap();
    assert_eq!(vpn.node_type, "host");
    assert!(vpn.group.is_none());
}

/// Cells of the first table row whose host column starts with `name`.
fn row_cells(text: &str, name: &str) -> String {
    text.lines()
        .find(|l| l.starts_with(&format!("{name} ")))
        .map(|l| l.split_whitespace().collect::<Vec<_>>().join(" "))
        .unwrap_or_else(|| panic!("no row for {name}"))
}

/// Cells of the last table row for `name` (host row first, DNS record rows later).
fn last_row_cells(text: &str, name: &str) -> String {
    text.lines()
        .filter(|l| l.starts_with(&format!("{name} ")))
        .next_back()
        .map(|l| l.split_whitespace().collect::<Vec<_>>().join(" "))
        .unwrap_or_else(|| panic!("no row for {name}"))
}

#[test]
fn combined_matches_layout() {
    let state = fixture();
    let text = combined(&state);

    assert!(text.starts_with("Discovered names: 5\n"));
    for section in ["EXPOSED (2)", "RESOLVING (2)", "PKI-ONLY (1)"] {
        assert!(text.contains(section));
    }
    assert_eq!(row_cells(&text, "www.nbp.pl"), "www.nbp.pl TLS:443 X25519MLKEM768");
    assert_eq!(row_cells(&text, "vpn.nbp.pl"), "vpn.nbp.pl - -");
    assert_eq!(row_cells(&text, "old.nbp.pl"), "old.nbp.pl - -");
    assert!(text.contains("_sip._tls.nbp.pl"));
    assert!(text.contains("SIP/TLS → sipdir.online.lync.com:443"));
    assert_eq!(last_row_cells(&text, "nbp.pl"), "nbp.pl HTTPS → . alpn=h2,h3");
    assert!(!text.contains("=== "));
}

#[test]
fn www_variants_group_with_bare_host() {
    let state = fixture();
    let text = combined(&state);
    let lines: Vec<&str> = text.lines().collect();
    let apex = lines.iter().position(|l| l.starts_with("nbp.pl ")).unwrap();
    let www = lines.iter().position(|l| l.starts_with("www.nbp.pl ")).unwrap();
    assert_eq!(www, apex + 1, "www.nbp.pl directly after nbp.pl");
}

#[test]
fn summary_counts_fixture() {
    let state = fixture();
    let text = summary(&state);
    assert!(text.contains("Certificate estate: 'nbp.pl'"));
    let line = text.lines().find(|l| l.contains("CT certificates:")).expect("summary row");
    assert!(line.trim_end().ends_with('2'), "rows counted: {line}");
}

#[test]
fn wildcard_refs_rendered_by_probe_views() {
    let state = fixture();
    let old = state.hosts.iter().find(|h| h.name == "old.nbp.pl").unwrap();
    assert!(old.ct_refs.iter().any(|r| r.kind == MatchKind::Wildcard && r.serial == "bb22"));
}

#[test]
fn fixture_facts_are_consistent() {
    let state = fixture();
    let aa = state.certs.iter().find(|c| c.serial == "aa11").unwrap();
    assert_eq!(aa.cert_signature.as_deref(), Some("RSA-SHA256"));
    assert_eq!(aa.key_size, Some(2048));
    let bb = state.certs.iter().find(|c| c.serial == "bb22").unwrap();
    assert_eq!(bb.cert_signature.as_deref(), Some("ECDSA-P256"));
}
