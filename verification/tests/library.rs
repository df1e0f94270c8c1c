use openssl::asn1::Asn1Time;
use openssl::bn::BigNum;
use openssl::hash::MessageDigest;
use openssl::pkey::PKey;
use openssl::x509::extension::SubjectAlternativeName;
use openssl::x509::{X509Builder, X509NameBuilder};
use pq_map::cache::{age, cache_file, is_fresh, is_valid, is_valid_probes, PROBE_SNAPSHOT_VERSION, SNAPSHOT_VERSION};
use pq_map::cli::{parse_args, usage, Command, Mode};
use pq_map::collect::{correlate, host_set, record_endpoints, record_ports, record_resolutions, Error, Resolution};
use pq_map::config::Config;
use pq_map::ct::{certificates, coverage, serial_norm, CtRow};
use pq_map::ctdb::{ct_sql, db_retry};
use pq_map::dns::{rr_from_record, sort_mx, sort_srv, srv_from_record, strip_dot};
use pq_map::fetch::{
    backoff_secs, obtain_step, provenance_of, status_retry, transport_retry, ObtainEvent, ObtainStep,
};
use pq_map::graph::{ca_cn, ca_id, ca_slug, is_self_issued};
use pq_map::model::{
    currently_valid, future_valid, Certificate, ChainEntry, CtStats, DnsRef, DnsStatus, DomainState, Endpoint,
    Host, MatchKind, MxRecord, Origins, PortScan, ProbeStatus, Provenance, ScanState, ServedCert,
    SrvRecord,
};
use pq_map::plan::{
    find_scan, fresh_scans, planned_ports, probe_step, probe_tally, reuse_probe, shuffle_order, sweep_candidate,
    ProbeStep,
};
use pq_map::probe::{
    connect_failure, failure_action, handshake_failure, no_records_status, stamp, Failure,
    FailureAction, IoKind,
};
use pq_map::sweep::{follow_up, pacing, port_scan, sweep_scans, FollowUp, PortKind};
use pq_map::tls::{hash_from_sig, hex_lower, issuer_rfc2253, live_cert_signature, served_cert_from_der};

fn utc(s: &str) -> i64 {
    chrono::DateTime::parse_from_rfc3339(s).unwrap().timestamp()
}

fn strings(v: &[&str]) -> Vec<String> {
    v.iter().map(|s| s.to_string()).collect()
}

// ---------------------------------------------------------------- laws on values

#[test]
fn serial_norm_is_idempotent() {
    for raw in ["0A:0B:0C", "00ABC", "0000", "", "deadbeef", "zz:01"] {
        let once = serial_norm(raw);
        assert_eq!(serial_norm(&once), once, "{raw}");
    }
}

#[test]
fn valid_now_is_never_future() {
    let now = utc("2026-09-21T12:00:00Z");
    for (nb, na) in [
        (Some(utc("2026-01-01T00:00:00Z")), Some(utc("2027-01-01T00:00:00Z"))),
        (Some(now), Some(now)),
        (None, Some(now)),
    ] {
        if currently_valid(nb, na, now) {
            assert!(!future_valid(nb, now));
        }
    }
}

#[test]
fn backoff_never_shrinks_and_stays_under_a_minute() {
    for delay in [0, 1, 2, 7, 120, u64::MAX] {
        let mut last = 0;
        for attempt in 1..30 {
            let d = backoff_secs(attempt, delay);
            assert!(d >= last && d <= 60);
            last = d;
        }
    }
}

fn ct_row(id: u64, names: &str, serial: &str) -> CtRow {
    CtRow {
        id: Some(id),
        common_name: None,
        name_value: Some(names.into()),
        not_before: Some("2026-01-01T00:00:00".into()),
        not_after: Some("2027-01-01T00:00:00".into()),
        serial_number: Some(serial.into()),
    }
}

#[test]
fn host_set_holds_apex_ct_names_and_dns_targets() {
    let now = utc("2026-09-21T12:00:00Z");
    let certs = certificates(
        &[ct_row(1, "www.nbp.pl\n*.nbp.pl", "AA11"), ct_row(2, "mail.nbp.pl", "BB22")],
        now,
    );
    let srv = vec![
        srv_from_record("_sip._tls", "_sip._tls.nbp.pl", 1, 100, 5061, "SIP.nbp.pl."),
        srv_from_record("_sip._tcp", "_sip._tcp.nbp.pl", 1, 100, 5060, "sipdir.online.lync.com."),
    ];
    let mx = vec![MxRecord { priority: 10, target: "mail.nbp.pl".to_string() }];
    let hosts = host_set("nbp.pl", &certs, &srv, &mx);
    let names: Vec<&str> = hosts.iter().map(|h| h.name.as_str()).collect();
    assert_eq!(names, vec!["mail.nbp.pl", "nbp.pl", "sip.nbp.pl", "www.nbp.pl"]);
    let get = |n: &str| hosts.iter().find(|h| h.name == n).unwrap();
    assert!(get("nbp.pl").origins.contains(Origins::apex()));
    assert!(get("www.nbp.pl").origins.contains(Origins::ct()));
    assert!(!get("www.nbp.pl").origins.contains(Origins::dns()));
    assert!(get("mail.nbp.pl").origins.contains(Origins::ct()));
    assert!(get("mail.nbp.pl").origins.contains(Origins::dns()));
    let sip = get("sip.nbp.pl");
    assert_eq!(sip.origins.labels(), vec!["dns"]);
    assert!(matches!(&sip.dns_refs[..], [DnsRef::Srv { service }] if service == "_sip._tls"));
    assert_eq!(get("www.nbp.pl").ct_refs.len(), 1);
    assert_eq!(get("www.nbp.pl").ct_refs[0].kind, MatchKind::Exact);
    assert_eq!(get("sip.nbp.pl").ct_refs.len(), 1);
    assert_eq!(get("sip.nbp.pl").ct_refs[0].kind, MatchKind::Wildcard);
    for h in &hosts {
        assert!(!h.origins.labels().is_empty(), "{} has no origin", h.name);
    }
}

fn served(serial: &str, sig: Option<&str>) -> ServedCert {
    ServedCert {
        serial: serial.to_string(),
        common_name: None,
        identities: Vec::new(),
        pubkey_alg: Some("rsaEncryption".to_string()),
        sig_alg: Some("sha256WithRSAEncryption".to_string()),
        issuer: None,
        not_before: None,
        not_after: None,
        chain_sigs: Vec::new(),
        pubkey_curve: None,
        cert_signature: sig.map(|s| s.to_string()),
    }
}

fn bare_host(name: &str, endpoint: Option<Endpoint>, ports: Vec<PortScan>) -> Host {
    Host {
        name: name.to_string(),
        origins: Origins::ct(),
        resolves: Some(true),
        dns_status: None,
        ct_refs: Vec::new(),
        dns_refs: Vec::new(),
        endpoint,
        ports,
    }
}

#[test]
fn correlation_marks_served_records_and_flags_unknown_ones() {
    let now = utc("2026-09-21T12:00:00Z");
    let mut certs = certificates(&[ct_row(1, "www.nbp.pl", "AA11")], now);
    let mut live = Endpoint::failed(ProbeStatus::Success);
    live.served = Some(served("aa11", Some("RSA-SHA256")));
    let mut stranger = Endpoint::failed(ProbeStatus::Success);
    stranger.served = Some(served("ff99", None));
    let mut hosts = vec![
        bare_host("other.nbp.pl", Some(stranger), Vec::new()),
        bare_host("www.nbp.pl", Some(live), Vec::new()),
    ];
    assert!(!certs[0].served_live);
    correlate(&mut certs, &mut hosts);
    assert!(certs[0].served_live);
    assert_eq!(certs[0].cert_signature.as_deref(), Some("RSA-SHA256"));
    assert_eq!(certs[0].pubkey_alg.as_deref(), Some("rsaEncryption"));
    assert!(hosts[0].endpoint.as_ref().unwrap().served_not_in_ct);
    assert!(!hosts[1].endpoint.as_ref().unwrap().served_not_in_ct);
}

#[test]
fn correlation_reads_swept_ports_too() {
    let now = utc("2026-09-21T12:00:00Z");
    let mut certs = certificates(&[ct_row(1, "mail.nbp.pl", "CC33")], now);
    let scan = PortScan {
        port: 465,
        state: ScanState::Open,
        served: Some(served("cc33", Some("RSA-SHA256"))),
        negotiated: None,
        observed_at: Some(now),
    };
    let mut hosts = vec![bare_host("mail.nbp.pl", Some(Endpoint::failed(ProbeStatus::TcpRefused)), vec![scan])];
    correlate(&mut certs, &mut hosts);
    assert!(certs[0].served_live);
    assert!(!hosts[0].endpoint.as_ref().unwrap().served_not_in_ct);
}

// ---------------------------------------------------------------- errors and steps

#[test]
fn ct_sql_refuses_bad_domains() {
    let sql = ct_sql("NBP.pl").unwrap();
    assert!(sql.contains("plainto_tsquery('certwatch', 'nbp.pl')"));
    assert!(sql.contains("lower(n.name_value) = lower('nbp.pl')"));
    assert!(sql.ends_with("LIKE '%.nbp.pl'"));
    assert_eq!(ct_sql("").unwrap_err(), "invalid domain: ");
    assert_eq!(ct_sql(&"a".repeat(254)).unwrap_err(), format!("invalid domain: {}", "a".repeat(254)));
    assert_eq!(ct_sql("nbp.pl'; --").unwrap_err(), "invalid characters in domain: nbp.pl'; --");
}

#[test]
fn db_retry_stops_after_the_last_attempt() {
    assert_eq!(db_retry(1, 3, 2), Some(8));
    assert_eq!(db_retry(3, 3, 2), None);
}

#[test]
fn http_retry_plans() {
    let rate = status_retry(429, Some(500), 1, 5, 2);
    assert_eq!((rate.why, rate.delay, rate.retry), ("rate limited", 300, true));
    let rate = status_retry(429, None, 2, 5, 2);
    assert_eq!(rate.delay, 8);
    let server = status_retry(503, None, 5, 5, 2);
    assert_eq!((server.why, server.delay, server.retry), ("server error", 32, false));
    let other = status_retry(404, None, 1, 5, 2);
    assert_eq!((other.why, other.delay), ("HTTP error", 2));
    assert_eq!(transport_retry(1, 2, 2), Some(2));
    assert_eq!(transport_retry(2, 2, 2), None);
}

#[test]
fn obtain_steps_follow_the_fallback_order() {
    assert!(matches!(obtain_step(false, 100, ObtainEvent::Started), ObtainStep::CheckCache));
    assert!(matches!(obtain_step(true, 100, ObtainEvent::Started), ObtainStep::QueryDb));
    let cached = obtain_step(false, 100, ObtainEvent::CacheChecked { loaded: true, age: Some(40) });
    assert!(matches!(cached, ObtainStep::UseCached { age_secs: 40 }));
    assert!(matches!(provenance_of(&cached), Some(Provenance::Cached { age_secs: 40 })));
    assert!(matches!(
        obtain_step(false, 100, ObtainEvent::CacheChecked { loaded: true, age: Some(100) }),
        ObtainStep::QueryDb
    ));
    assert!(matches!(
        obtain_step(false, 100, ObtainEvent::DbAnswered { rows: 3, certs: 1 }),
        ObtainStep::UseFresh { source: "db" }
    ));
    assert!(matches!(
        obtain_step(false, 100, ObtainEvent::DbAnswered { rows: 3, certs: 0 }),
        ObtainStep::QueryHttp
    ));
    assert!(matches!(obtain_step(false, 100, ObtainEvent::DbFailed), ObtainStep::QueryHttp));
    assert!(matches!(
        obtain_step(false, 100, ObtainEvent::HttpAnswered { certs: Ok(2) }),
        ObtainStep::UseFresh { source: "http" }
    ));
    match obtain_step(false, 100, ObtainEvent::HttpAnswered { certs: Err("bad".to_string()) }) {
        ObtainStep::Fail(e) => assert_eq!(e.message(), "invalid CT data: bad"),
        other => panic!("{other:?}"),
    }
    assert!(matches!(obtain_step(false, 100, ObtainEvent::HttpFailed), ObtainStep::CheckStale));
    match obtain_step(false, 100, ObtainEvent::TaskFailed) {
        ObtainStep::Fail(e) => assert_eq!(e.message(), "task join failed"),
        other => panic!("{other:?}"),
    }
    assert!(matches!(
        obtain_step(false, 100, ObtainEvent::StaleChecked { loaded: true, age: None }),
        ObtainStep::UseStale { age_secs: None }
    ));
    match obtain_step(false, 100, ObtainEvent::StaleChecked { loaded: false, age: None }) {
        ObtainStep::Fail(e) => assert_eq!(
            Error::Ct(e).message(),
            "unable to retrieve CT data and no usable cache exists"
        ),
        other => panic!("{other:?}"),
    }
    assert_eq!(Error::Resolver("x".to_string()).message(), "DNS resolver unavailable: x");
}

#[test]
fn failures_lead_to_statuses() {
    assert!(matches!(connect_failure(IoKind::ConnectionRefused, String::new()), Failure::TcpRefused));
    assert!(matches!(connect_failure(IoKind::NetworkDown, String::new()), Failure::TcpUnreachable));
    assert!(matches!(connect_failure(IoKind::WouldBlock, String::new()), Failure::Timeout));
    assert!(matches!(connect_failure(IoKind::UnexpectedEof, "x".into()), Failure::Unknown(t) if t == "x"));
    assert!(matches!(handshake_failure(IoKind::TimedOut, String::new()), Failure::Timeout));
    assert!(matches!(
        failure_action(Failure::Timeout, 8),
        FailureAction::Record(ProbeStatus::Timeout { secs: 8 })
    ));
    assert!(matches!(
        failure_action(Failure::ClosedNoCert(String::new()), 8),
        FailureAction::Record(ProbeStatus::ConnectedNoCert)
    ));
    assert!(matches!(failure_action(Failure::Handshake(String::new()), 8), FailureAction::Fallback));
    let ep = stamp(Endpoint::failed(ProbeStatus::TcpRefused), None, 1234);
    assert_eq!(ep.observed_at, Some(1234));
    let mut seen = Endpoint::failed(ProbeStatus::TcpRefused);
    seen.observed_at = Some(7);
    assert_eq!(stamp(seen, None, 1234).observed_at, Some(7));
    assert_eq!(no_records_status(3), pq_map::model::DnsStatus::NxDomain);
    assert_eq!(no_records_status(0), pq_map::model::DnsStatus::NoData);
    assert_eq!(no_records_status(1), pq_map::model::DnsStatus::Other);
}

// ---------------------------------------------------------------- plans

#[test]
fn sweep_plans() {
    let refused = bare_host("vpn.nbp.pl", Some(Endpoint::failed(ProbeStatus::TcpRefused)), Vec::new());
    let live = bare_host("www.nbp.pl", Some(Endpoint::failed(ProbeStatus::Success)), Vec::new());
    assert!(sweep_candidate(true, &refused));
    assert!(!sweep_candidate(false, &refused));
    assert!(!sweep_candidate(true, &live));
    let named = planned_ports(&[1, 2, 3, 4, 5, 6, 7], "vpn.nbp.pl", &[], false);
    assert_eq!(named.iter().map(|p| p.0).collect::<Vec<_>>(), vec![1, 2, 3, 4, 5]);
    assert!(named.iter().all(|p| p.1 == PortKind::DirectTls));
    assert_eq!(planned_ports(&[], "imap.nbp.pl", &[], false)[0].0, 993);
    assert_eq!(follow_up(ScanState::Open, PortKind::StartTls, 587), FollowUp::SmtpStartTls);
    assert_eq!(follow_up(ScanState::Open, PortKind::StartTls, 5222), FollowUp::OpenOnly);
    assert_eq!(follow_up(ScanState::Closed, PortKind::DirectTls, 443), FollowUp::Nothing);
    assert_eq!(pacing(200, 1_000_123), 150 + 1_000_123 % 100);
    assert_eq!(pacing(1, 5), 0);
}

#[test]
fn sweep_order_is_a_permutation() {
    for n in [0usize, 1, 2, 5, 17] {
        for seed in [0u64, 1, 123_456_789] {
            let mut order = shuffle_order(n, seed);
            order.sort();
            assert_eq!(order, (0..n).collect::<Vec<_>>());
        }
    }
    assert_eq!(shuffle_order(5, 42), shuffle_order(5, 42));
}

#[test]
fn probe_reuse_and_tally() {
    let now = 10_000;
    let mut ep = Endpoint::failed(ProbeStatus::TcpRefused);
    ep.ip = Some(pq_map::model::IpAddress(vec![10, 0, 0, 1]));
    ep.observed_at = Some(now - 100);
    assert!(reuse_probe(true, &Some(ep.clone()), 200, now));
    assert!(!reuse_probe(false, &Some(ep.clone()), 200, now));
    assert!(!reuse_probe(true, &Some(ep.clone()), 50, now));
    ep.ip = None;
    assert!(!reuse_probe(true, &Some(ep), 200, now));
    assert!(!reuse_probe(true, &None, 200, now));
    let (cached, fresh, oldest) = probe_tally(&vec![(true, Some(now - 300)), (false, None), (true, Some(now + 5))], now);
    assert_eq!((cached, fresh, oldest), (2, 1, 300));
    let scan = |port: u16, at: i64| PortScan { port, state: ScanState::Closed, served: None, negotiated: None, observed_at: Some(at) };
    assert_eq!(fresh_scans(&vec![scan(25, 1), scan(465, 2), scan(993, 3)], &vec![scan(25, 1), scan(465, 9)]), 2);
    let recorded = vec![scan(25, 1), scan(465, 2), scan(25, 3)];
    assert_eq!(find_scan(&recorded, 25), Some(0));
    assert_eq!(find_scan(&recorded, 465), Some(1));
    assert_eq!(find_scan(&recorded, 993), None);
}

#[test]
fn probe_step_reuses_probes_or_marks_missing_addresses() {
    let now = 10_000;
    let mut ep = Endpoint::failed(ProbeStatus::Success);
    ep.ip = Some(pq_map::model::IpAddress(vec![10, 0, 0, 1]));
    ep.observed_at = Some(now - 100);
    assert_eq!(probe_step(true, &Some(ep.clone()), 200, now), ProbeStep::Reuse);
    assert_eq!(probe_step(true, &Some(ep.clone()), 50, now), ProbeStep::Probe);
    assert_eq!(probe_step(true, &None, 200, now), ProbeStep::Probe);
    assert_eq!(probe_step(false, &Some(ep), 200, now), ProbeStep::NoAddress);
    assert_eq!(probe_step(false, &None, 200, now), ProbeStep::NoAddress);
}

// ---------------------------------------------------------------- records and caches

#[test]
fn records_are_ordered_stably() {
    let srv = |fqdn: &str, priority: u32, target: &str| SrvRecord {
        service: "_sip._tls".to_string(),
        fqdn: fqdn.to_string(),
        priority,
        weight: 0,
        port: 443,
        target: target.to_string(),
    };
    let sorted = sort_srv(vec![srv("b", 1, "x"), srv("a", 2, "y"), srv("a", 1, "z"), srv("a", 2, "w")]);
    let keys: Vec<(String, u32, String)> = sorted.iter().map(|r| (r.fqdn.clone(), r.priority, r.target.clone())).collect();
    assert_eq!(
        keys,
        vec![
            ("a".to_string(), 1, "z".to_string()),
            ("a".to_string(), 2, "y".to_string()),
            ("a".to_string(), 2, "w".to_string()),
            ("b".to_string(), 1, "x".to_string()),
        ]
    );
    let mx = |p: u32, t: &str| MxRecord { priority: p, target: t.to_string() };
    let sorted = sort_mx(vec![mx(20, "a"), mx(10, "b"), mx(10, "a")]);
    assert_eq!(sorted.iter().map(|r| (r.priority, r.target.as_str())).collect::<Vec<_>>(), vec![(10, "a"), (10, "b"), (20, "a")]);
    let rr = rr_from_record("HTTPS", 1, ".", "alpn=h2");
    assert_eq!((rr.target.as_str(), rr.params.as_str()), (".", "alpn=h2"));
}

#[test]
fn cache_files_and_freshness() {
    assert_eq!(cache_file("/tmp/ct", "nbp.pl"), "/tmp/ct/nbp.pl.json");
    assert_eq!(cache_file("/tmp/ct/", "nbp.pl"), "/tmp/ct/nbp.pl.json");
    assert_eq!(cache_file("", "nbp.pl"), "nbp.pl.json");
    assert!(is_valid(Some(SNAPSHOT_VERSION)));
    assert!(!is_valid(Some(1)));
    assert!(!is_valid(None));
    assert!(is_fresh(Some(10), 60, true));
    assert!(!is_fresh(Some(60), 60, true));
    assert!(!is_fresh(Some(10), 60, false));
    assert!(!is_fresh(None, 60, true));
    assert_eq!(age(5_500_000_000, Some(1_000_000_000)), Some(4));
    assert_eq!(age(1_000_000_000, Some(5_500_000_000)), None);
}

fn now_ns() -> i128 {
    std::time::SystemTime::now().duration_since(std::time::UNIX_EPOCH).unwrap().as_nanos() as i128
}

#[test]
fn age_of_missing_file_is_none() {
    // A missing file has no modification time to read.
    assert!(age(now_ns(), None).is_none());
}

#[test]
fn age_rejects_future_mtime() {
    let future = now_ns() + 40 * 365 * 86_400 * 1_000_000_000;
    assert!(age(now_ns(), Some(future)).is_none());
}

// ---------------------------------------------------------------- the command line

#[test]
fn arguments_select_mode_and_options() {
    match parse_args(&strings(&["NBP.pl.", "--graph", "--no-probe", "--ports"])) {
        Command::Run { domain, mode, options } => {
            assert_eq!(domain, "nbp.pl");
            assert_eq!(mode, Mode::Graph);
            assert!(!options.refresh && !options.probe);
            assert_eq!(options.ports, Some(Vec::new()));
        }
        other => panic!("{other:?}"),
    }
    assert!(matches!(parse_args(&strings(&["nbp.pl", "-h", "--bogus"])), Command::Help));
    match parse_args(&strings(&["--bogus"])) {
        Command::Usage(Some(m)) => assert_eq!(m, "unknown option: --bogus"),
        other => panic!("{other:?}"),
    }
    match parse_args(&strings(&["a.pl", "b.pl"])) {
        Command::Usage(Some(m)) => assert_eq!(m, "unexpected argument: b.pl"),
        other => panic!("{other:?}"),
    }
    assert!(matches!(parse_args(&strings(&["--refresh"])), Command::Usage(None)));
    assert!(usage().starts_with("Usage:\n"));
}

#[test]
fn settings_default_and_parse() {
    let cfg = Config::from_vars(&Vec::new());
    assert_eq!((cfg.cache_ttl, cfg.retries, cfg.retry_delay), (604_800, 5, 2));
    assert_eq!((cfg.db_host.as_str(), cfg.db_port, cfg.db_user.as_str(), cfg.db_name.as_str()), ("crt.sh", 5432, "guest", "certwatch"));
    assert_eq!((cfg.probe_timeout, cfg.probe_concurrency, cfg.dns_attempts), (8, 32, 2));
    assert_eq!((cfg.db_connect_timeout, cfg.db_query_timeout, cfg.probe_cache_ttl), (30, 120, 86_400));
    assert_eq!((cfg.dns_timeout, cfg.dns_concurrency), (5, 32));
    assert!(cfg.probe_ports.is_empty());
    let vars = vec![
        ("CT_RETRIES".to_string(), "0".to_string()),
        ("CT_DB_HOST".to_string(), String::new()),
        ("PROBE_TIMEOUT".to_string(), "+12".to_string()),
        ("DNS_TIMEOUT".to_string(), "x".to_string()),
        ("PROBE_PORTS".to_string(), "25, 465,x,70000,,993".to_string()),
    ];
    let cfg = Config::from_vars(&vars);
    assert_eq!(cfg.retries, 1);
    assert_eq!(cfg.db_host, "crt.sh");
    assert_eq!(cfg.probe_timeout, 12);
    assert_eq!(cfg.dns_timeout, 5);
    assert_eq!(cfg.probe_ports, vec![25, 465, 993]);
}

#[test]
fn timeout_is_bounded() {
    // The settings as read from an environment that sets none of them.
    let cfg = Config::from_vars(&Vec::new());
    assert!(cfg.dns_timeout <= 30);
}

// ---------------------------------------------------------------- issuers and live certificates

#[test]
fn issuer_names_and_slugs() {
    assert_eq!(ca_cn("C=US, O=DigiCert Inc, CN=GeoTrust TLS RSA CA G1"), "GeoTrust TLS RSA CA G1");
    assert_eq!(ca_cn("O=Acme\\, Inc, OU=x"), "O=Acme\\, Inc, OU=x");
    assert_eq!(ca_slug("DigiCert TLS RSA SHA256 2020 CA-1"), "digicert-tls-rsa-sha256-2020-ca-1");
    assert_eq!(ca_slug("--Ünï Cörp--"), "n-c-rp");
    let (id, label) = ca_id("CN=Certum OV TLS G2 R39 CA, O=Asseco");
    assert_eq!((id.as_str(), label.as_str()), ("ca:certum-ov-tls-g2-r39-ca", "Certum OV TLS G2 R39 CA"));
    let entry = |ski: Option<&str>, aki: Option<&str>, cn: &str, issuer: &str| ChainEntry {
        depth: 1,
        certificate_id: 1,
        common_name: Some(cn.to_string()),
        ski: ski.map(|s| s.to_string()),
        aki: aki.map(|s| s.to_string()),
        not_before: None,
        not_after: None,
        key_algorithm: None,
        key_size: None,
        signature_key_algorithm: None,
        signature_hash_algorithm: None,
        issuer_ca_name: Some(issuer.to_string()),
    };
    assert!(is_self_issued(&entry(Some("ab"), Some("ab"), "X", "CN=Y")));
    assert!(!is_self_issued(&entry(Some(""), Some(""), "X", "CN=Y")));
    assert!(is_self_issued(&entry(None, None, "Root", "O=Z, CN=Root")));
}

#[test]
fn live_signature_names() {
    assert_eq!(hash_from_sig("sha384withrsaencryption"), Some("SHA384"));
    assert_eq!(hash_from_sig("ed25519"), None);
    assert_eq!(live_cert_signature(Some("rsaEncryption"), Some("sha256WithRSAEncryption"), None).as_deref(), Some("RSA-SHA256"));
    assert_eq!(live_cert_signature(Some("id-ecPublicKey"), Some("ecdsa-with-SHA384"), Some("P384".to_string())).as_deref(), Some("ECDSA-P384"));
    assert_eq!(live_cert_signature(None, Some("Ed25519"), None).as_deref(), Some("Ed25519"));
    assert_eq!(live_cert_signature(Some("ML-DSA-65"), Some("ML-DSA-65"), None).as_deref(), Some("ML-DSA-65"));
    assert_eq!(live_cert_signature(Some("rsaEncryption"), None, None), None);
    assert_eq!(hex_lower(&[0x0a, 0xff, 0x00]), "0aff00");
    let atvs = vec![
        ("2.5.4.6".to_string(), "US".to_string()),
        ("2.5.4.10".to_string(), "DigiCert Inc".to_string()),
        ("1.2.3".to_string(), "x".to_string()),
        ("2.5.4.3".to_string(), "DigiCert Global Root CA".to_string()),
    ];
    assert_eq!(issuer_rfc2253(&atvs), "CN=DigiCert Global Root CA,1.2.3=x,O=DigiCert Inc,C=US");
}

fn self_signed(ec: bool) -> Vec<u8> {
    let key = if ec {
        let group = openssl::ec::EcGroup::from_curve_name(openssl::nid::Nid::X9_62_PRIME256V1).unwrap();
        PKey::from_ec_key(openssl::ec::EcKey::generate(&group).unwrap()).unwrap()
    } else {
        PKey::from_rsa(openssl::rsa::Rsa::generate(2048).unwrap()).unwrap()
    };
    let mut name = X509NameBuilder::new().unwrap();
    name.append_entry_by_text("CN", "test.pq-map.invalid").unwrap();
    let name = name.build();
    let mut b = X509Builder::new().unwrap();
    b.set_version(2).unwrap();
    let serial = BigNum::from_u32(0x0a0b0c).unwrap().to_asn1_integer().unwrap();
    b.set_serial_number(&serial).unwrap();
    b.set_subject_name(&name).unwrap();
    b.set_issuer_name(&name).unwrap();
    b.set_pubkey(&key).unwrap();
    b.set_not_before(&Asn1Time::days_from_now(0).unwrap()).unwrap();
    b.set_not_after(&Asn1Time::days_from_now(30).unwrap()).unwrap();
    let san = SubjectAlternativeName::new()
        .dns("test.pq-map.invalid")
        .dns("alt.pq-map.invalid")
        .build(&b.x509v3_context(None, None))
        .unwrap();
    b.append_extension(san).unwrap();
    b.sign(&key, MessageDigest::sha256()).unwrap();
    b.build().to_der().unwrap()
}

#[test]
fn extracts_fields_from_der() {
    let der = self_signed(false);
    let served = served_cert_from_der(&der).expect("parse test certificate");
    assert!(!served.serial.is_empty());
    assert_eq!(served.serial, "a0b0c");
    assert_eq!(served.common_name.as_deref(), Some("test.pq-map.invalid"));
    assert!(served.identities.contains(&"test.pq-map.invalid".to_string()));
    assert_eq!(served.identities, vec!["alt.pq-map.invalid", "test.pq-map.invalid"]);
    assert_eq!(served.pubkey_alg.as_deref(), Some("rsaEncryption"));
    assert!(served.sig_alg.as_deref().is_some_and(|s| s.contains("sha256")));
    assert_eq!(served.cert_signature.as_deref(), Some("RSA-SHA256"));
    assert_eq!(served.issuer.as_deref(), Some("CN=test.pq-map.invalid"));
    assert!(served.not_before.is_some());
    assert!(served.not_after.is_some());
    assert!(served.pubkey_curve.is_none());
}

#[test]
fn extracts_ecdsa_curve_and_signature() {
    let der = self_signed(true);
    let served = served_cert_from_der(&der).expect("parse test EC certificate");
    assert_eq!(served.pubkey_alg.as_deref(), Some("id-ecPublicKey"));
    assert_eq!(served.pubkey_curve.as_deref(), Some("P256"));
    assert_eq!(served.cert_signature.as_deref(), Some("ECDSA-P256"));
}

#[test]
fn garbage_is_no_certificate() {
    assert!(served_cert_from_der(&[0x30, 0x03, 0x01, 0x02]).is_none());
    assert!(pq_map::tls::sig_alg_from_der(&[]).is_none());
}

#[test]
fn served_leaf_becomes_a_live_record() {
    let now = 1_790_000_000;
    let leaf = ServedCert {
        serial: "0a0b0c".to_string(),
        common_name: Some("vpn.nbp.pl".to_string()),
        identities: vec!["vpn.nbp.pl".to_string()],
        pubkey_alg: Some("EC".to_string()),
        sig_alg: Some("SHA256/ECDSA".to_string()),
        issuer: Some("CN=Internal CA".to_string()),
        not_before: Some(now - 10),
        not_after: Some(now + 10),
        chain_sigs: vec!["SHA256/RSA".to_string()],
        pubkey_curve: Some("P-256".to_string()),
        cert_signature: Some("ECDSA-P256-SHA256".to_string()),
    };
    let c = leaf.clone().into_certificate(now);
    assert_eq!(c.serial, "0a0b0c");
    assert!(!c.in_ct);
    assert!(c.served_live);
    assert!(c.currently_valid);
    assert!(c.ct_ids.is_empty());
    assert_eq!(c.identities, vec!["vpn.nbp.pl"]);
    assert_eq!(c.issuer.as_deref(), Some("CN=Internal CA"));
    assert_eq!(c.cert_signature.as_deref(), Some("ECDSA-P256-SHA256"));
    assert!(c.chain.is_empty());
    assert!(!leaf.into_certificate(now + 11).currently_valid);
}

#[test]
fn host_names_follow_the_host_list() {
    let state = DomainState {
        domain: "nbp.pl".to_string(),
        checked_at: 0,
        provenance: Provenance::Fresh,
        ct_stats: CtStats { rows: 0, valid: 0, future: 0 },
        certs: Vec::new(),
        hosts: vec![bare_host("mail.nbp.pl", None, Vec::new()), bare_host("nbp.pl", None, Vec::new())],
        srv: Vec::new(),
        https: Vec::new(),
        mx: Vec::new(),
    };
    assert_eq!(state.host_names(), vec!["mail.nbp.pl", "nbp.pl"]);
}

#[test]
fn wildcard_needs_a_non_empty_label() {
    let ids = vec!["*.pl".to_string()];
    assert_eq!(coverage(&ids, ".pl"), None);
    assert_eq!(coverage(&ids, "pl"), None);
    assert_eq!(coverage(&ids, "nbp.pl"), Some(MatchKind::Wildcard));
    assert_eq!(coverage(&ids, "a.nbp.pl"), None);
}

#[test]
fn record_names_are_stable() {
    for t in ["CDN.Example.COM..", "sip.nbp.pl.", ".", "..", "Mail.NBP.pl"] {
        let once = strip_dot(t);
        assert_eq!(strip_dot(&once), once);
    }
}

#[test]
fn probe_snapshots_of_other_versions_are_not_read() {
    assert!(is_valid_probes(Some(PROBE_SNAPSHOT_VERSION)));
    assert!(!is_valid_probes(Some(PROBE_SNAPSHOT_VERSION + 1)));
    assert!(!is_valid_probes(None));
}

#[test]
fn every_resolved_host_gets_its_dns_status() {
    let mut hosts = vec![
        bare_host("mail.nbp.pl", None, Vec::new()),
        bare_host("nbp.pl", None, Vec::new()),
        bare_host("www.nbp.pl", None, Vec::new()),
    ];
    let res = vec![
        Resolution { name: "www.nbp.pl".into(), ip: Some(pq_map::model::IpAddress(vec![10, 0, 0, 1])), status: DnsStatus::Resolved },
        Resolution { name: "mail.nbp.pl".into(), ip: None, status: DnsStatus::NxDomain },
        Resolution { name: "nbp.pl".into(), ip: None, status: DnsStatus::NoData },
    ];
    record_resolutions(&mut hosts, &res);
    assert_eq!(hosts.iter().map(|h| h.name.as_str()).collect::<Vec<_>>(), vec!["mail.nbp.pl", "nbp.pl", "www.nbp.pl"]);
    assert_eq!((hosts[0].resolves, hosts[0].dns_status), (Some(false), Some(DnsStatus::NxDomain)));
    assert_eq!((hosts[1].resolves, hosts[1].dns_status), (Some(false), Some(DnsStatus::NoData)));
    assert_eq!((hosts[2].resolves, hosts[2].dns_status), (Some(true), Some(DnsStatus::Resolved)));
}

#[test]
fn probe_and_sweep_results_go_to_their_hosts() {
    let mut hosts = vec![bare_host("mail.nbp.pl", None, Vec::new()), bare_host("nbp.pl", None, Vec::new())];
    record_endpoints(
        &mut hosts,
        vec![
            ("nbp.pl".to_string(), Endpoint::failed(ProbeStatus::TcpRefused)),
            ("other.pl".to_string(), Endpoint::failed(ProbeStatus::Success)),
            ("nbp.pl".to_string(), Endpoint::failed(ProbeStatus::TlsHandshakeFailed)),
        ],
    );
    assert!(hosts[0].endpoint.is_none());
    assert_eq!(hosts[1].endpoint.as_ref().map(|e| e.status.clone()), Some(ProbeStatus::TlsHandshakeFailed));
    let scan = PortScan { port: 25, state: ScanState::Open, served: None, negotiated: None, observed_at: Some(7) };
    record_ports(&mut hosts, vec![("mail.nbp.pl".to_string(), vec![scan])]);
    assert_eq!(hosts[0].ports.len(), 1);
    assert_eq!(hosts[0].ports[0].port, 25);
    assert!(hosts[1].ports.is_empty());
}

#[test]
fn sweep_scans_one_per_port_in_order() {
    let leaf = ServedCert {
        serial: "0a".to_string(),
        common_name: None,
        identities: Vec::new(),
        pubkey_alg: None,
        sig_alg: None,
        issuer: None,
        not_before: None,
        not_after: None,
        chain_sigs: Vec::new(),
        pubkey_curve: None,
        cert_signature: None,
    };
    let ports = vec![(443, PortKind::DirectTls), (143, PortKind::StartTls), (587, PortKind::StartTls), (993, PortKind::DirectTls)];
    let results = vec![
        (ScanState::Open, 10, Some((Some(leaf.clone()), None))),
        (ScanState::Open, 11, Some((Some(leaf.clone()), None))),
        (ScanState::Open, 12, Some((Some(leaf.clone()), None))),
        (ScanState::Closed, 13, Some((Some(leaf.clone()), None))),
    ];
    let scans = sweep_scans(&ports, results);
    assert_eq!(scans.iter().map(|s| s.port).collect::<Vec<_>>(), vec![443, 143, 587, 993]);
    assert_eq!(scans.iter().map(|s| s.observed_at).collect::<Vec<_>>(), vec![Some(10), Some(11), Some(12), Some(13)]);
    assert!(scans[0].served.is_some());
    assert!(scans[1].served.is_none());
    assert!(scans[2].served.is_some());
    assert!(scans[3].served.is_none());
    assert!(port_scan(443, PortKind::DirectTls, ScanState::Open, 5, None).served.is_none());
}
