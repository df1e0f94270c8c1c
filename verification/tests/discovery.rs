use std::io::ErrorKind;

use pq_map::collect::ct_stats;
use pq_map::ct::{cert_refs, certificates, certificates_from_db, ctdate, CtRow, DbRow};
use pq_map::ctdb::db_backoff_secs;
use pq_map::dns::{alpn_param, in_domain, service_label, strip_dot};
use pq_map::fetch::backoff_secs;
use pq_map::model::{
    currently_valid, future_valid, Certificate, Endpoint, MatchKind, ProbeStatus,
};
use pq_map::probe::{classify_handshake, classify_io, is_fresh, Failure, IoError, IoKind};
use pq_map::sweep::{ports_for_host, PortKind, PORT_CAP};

fn utc(s: &str) -> i64 {
    chrono::DateTime::parse_from_rfc3339(s).unwrap().timestamp()
}

#[test]
fn strip_dot_variants() {
    assert_eq!(strip_dot("sip.nbp.pl."), "sip.nbp.pl");
    assert_eq!(strip_dot("."), ".");
    assert_eq!(strip_dot("CDN.Example.COM."), "cdn.example.com");
}

#[test]
fn in_domain_boundaries() {
    assert!(in_domain("nbp.pl", "nbp.pl"));
    assert!(in_domain("www.nbp.pl", "nbp.pl"));
    assert!(in_domain("a.b.nbp.pl", "nbp.pl"));
    assert!(!in_domain("anbp.pl", "nbp.pl"));
    assert!(!in_domain("nbp.pl.evil.com", "nbp.pl"));
    assert!(!in_domain("other.pl", "nbp.pl"));
}

#[test]
fn alpn_param_extraction() {
    assert_eq!(alpn_param("alpn=h2,h3").as_deref(), Some("h2,h3"));
    assert_eq!(
        alpn_param("ipv4hint=1.2.3.4 alpn=\"h2,http/1.1\"").as_deref(),
        Some("h2,http/1.1")
    );
    assert_eq!(alpn_param("ipv4hint=1.2.3.4"), None);
    assert_eq!(alpn_param(""), None);
}

#[test]
fn service_labels_cover_table() {
    assert_eq!(service_label("_sip._tls"), "SIP/TLS");
    assert_eq!(service_label("_matrix-fed._tcp"), "Matrix federation");
    assert_eq!(service_label("_unknown._tcp"), "_unknown._tcp");
}

#[test]
fn backoff_is_exponential_and_capped() {
    assert_eq!(backoff_secs(1, 2), 2);
    assert_eq!(backoff_secs(2, 2), 4);
    assert_eq!(backoff_secs(3, 2), 8);
    assert_eq!(backoff_secs(4, 2), 16);
    assert_eq!(backoff_secs(6, 2), 60, "capped at 60s");
    assert_eq!(backoff_secs(20, 2), 60);
    assert_eq!(backoff_secs(1, 120), 60, "capped at 60s");
}

#[test]
fn db_backoff_starts_at_2_cubed_and_caps() {
    assert_eq!(db_backoff_secs(1, 2), 8);
    assert_eq!(db_backoff_secs(2, 2), 16);
    assert_eq!(db_backoff_secs(3, 2), 32);
    assert_eq!(db_backoff_secs(4, 2), 60, "capped at 60s");
    assert_eq!(db_backoff_secs(5, 2), 60);
    assert_eq!(db_backoff_secs(1, 120), 60);
}

#[test]
fn family_matching_is_ordered() {
    let smtp = ports_for_host("mx1c.nbp.pl", &[], false);
    assert_eq!(smtp.len(), 3);
    assert_eq!(smtp[0].0, 465);
    assert!(matches!(smtp[1].1, PortKind::StartTls));

    let mail = ports_for_host("webmail.example.pl", &[], false);
    assert_eq!(mail[0].0, 993);
    assert_eq!(mail.len(), 4);

    let xmpp = ports_for_host("conference.mbank.pl", &[], false);
    assert_eq!(xmpp.iter().map(|p| p.0).collect::<Vec<_>>(), vec![5222, 5223]);

    let web = ports_for_host("vpn.example.pl", &[], false);
    assert_eq!(
        web.iter().map(|p| p.0).collect::<Vec<_>>(),
        vec![8443, 9443, 4443, 8843, 10000]
    );
    assert_eq!(web.len(), PORT_CAP);
}

#[test]
fn generic_override_replaces_web_list() {
    let ports = ports_for_host("vpn.example.pl", &[7000, 7001, 7002], false);
    assert_eq!(ports.iter().map(|p| p.0).collect::<Vec<_>>(), vec![7000, 7001, 7002]);
    let smtp = ports_for_host("mx.example.pl", &[7000], false);
    assert_eq!(smtp[0].0, 465);
}

#[test]
fn port_cap_holds_for_every_family() {
    for name in [
        "mx.a.pl",
        "mail.a.pl",
        "pop.a.pl",
        "sip.a.pl",
        "ldap.a.pl",
        "mqtt.a.pl",
        "xmpp.a.pl",
        "web.a.pl",
    ] {
        assert!(ports_for_host(name, &[], false).len() <= PORT_CAP, "{name}");
    }
}

/// The error as the library reads it: its kind and its message.
fn io(e: std::io::Error) -> IoError {
    let kind = match e.kind() {
        ErrorKind::ConnectionRefused => IoKind::ConnectionRefused,
        ErrorKind::NetworkUnreachable => IoKind::NetworkUnreachable,
        ErrorKind::AddrNotAvailable => IoKind::AddrNotAvailable,
        ErrorKind::TimedOut => IoKind::TimedOut,
        ErrorKind::UnexpectedEof => IoKind::UnexpectedEof,
        _ => IoKind::Other,
    };
    IoError { kind, text: e.to_string() }
}

#[test]
fn io_classification() {
    assert!(matches!(
        classify_io(&io(std::io::Error::from(ErrorKind::ConnectionRefused))),
        Failure::TcpRefused
    ));
    assert!(matches!(
        classify_io(&io(std::io::Error::from(ErrorKind::NetworkUnreachable))),
        Failure::TcpUnreachable
    ));
    assert!(matches!(
        classify_io(&io(std::io::Error::from(ErrorKind::AddrNotAvailable))),
        Failure::TcpUnreachable
    ));
    assert!(matches!(
        classify_io(&io(std::io::Error::from(ErrorKind::TimedOut))),
        Failure::Timeout
    ));
    assert!(matches!(classify_io(&io(std::io::Error::other("boom"))), Failure::Unknown(_)));
    assert!(matches!(classify_io(&io(std::io::Error::other("boom"))), Failure::Unknown(t) if t == "boom"));
}

#[test]
fn handshake_eof_is_closed_no_cert() {
    assert!(matches!(
        classify_handshake(io(std::io::Error::new(ErrorKind::UnexpectedEof, "eof"))),
        Failure::ClosedNoCert(_)
    ));
    assert!(matches!(
        classify_handshake(io(std::io::Error::other("alert"))),
        Failure::Handshake(_)
    ));
}

fn timeout_endpoint(now: i64) -> Endpoint {
    let mut ep = Endpoint::failed(ProbeStatus::Timeout { secs: 8 });
    ep.observed_at = Some(now);
    ep
}

#[test]
fn is_fresh_respects_ttl_and_missing_time() {
    let now = utc("2026-09-21T12:00:00Z");
    let mut ep = timeout_endpoint(now);
    ep.observed_at = Some(now - 23 * 3600);
    assert!(is_fresh(&ep, 86_400, now));

    ep.observed_at = Some(now - 25 * 3600);
    assert!(!is_fresh(&ep, 86_400, now));

    ep.observed_at = None;
    assert!(!is_fresh(&ep, 86_400, now), "synthesized endpoints never reusable");
}

#[test]
fn ctdate_appends_zone_when_missing() {
    assert_eq!(ctdate("2014-04-23T12:16:09").unwrap(), utc("2014-04-23T12:16:09Z"));
    assert_eq!(ctdate("2014-04-23 12:16:09").unwrap(), utc("2014-04-23T12:16:09Z"));
    assert_eq!(ctdate("2026-05-27 00:00:00").unwrap(), utc("2026-05-27T00:00:00Z"));
    assert_eq!(ctdate("2014-04-23T12:16:09Z").unwrap(), utc("2014-04-23T12:16:09Z"));
    assert_eq!(ctdate("2014-04-23T12:16:09+02:00").unwrap(), utc("2014-04-23T10:16:09Z"));
    assert_eq!(ctdate("2014-04-23T12:16:09+0200").unwrap(), utc("2014-04-23T10:16:09Z"));
    assert!(ctdate("").is_none());
    assert!(ctdate("not a date").is_none());
}

#[test]
fn validity_semantics_match_jq_epoch_zero() {
    let now = utc("2026-09-21T12:00:00Z");
    let nb = utc("2026-01-01T00:00:00Z");
    let na = utc("2027-01-01T00:00:00Z");
    assert!(currently_valid(Some(nb), Some(na), now));
    assert!(!future_valid(Some(nb), now));

    let future_nb = utc("2027-06-01T00:00:00Z");
    assert!(!currently_valid(Some(future_nb), Some(na), now));
    assert!(future_valid(Some(future_nb), now));

    assert!(!currently_valid(Some(nb), None, now));
    assert!(!currently_valid(None, None, now));
}

fn row(id: u64, cn: &str, names: &str, nb: &str, na: &str, serial: &str) -> CtRow {
    CtRow {
        id: Some(id),
        common_name: Some(cn.into()),
        name_value: Some(names.into()),
        not_before: Some(nb.into()),
        not_after: Some(na.into()),
        serial_number: Some(serial.into()),
    }
}

fn by_serial<'a>(certs: &'a [Certificate], serial: &str) -> &'a Certificate {
    certs.iter().find(|c| c.serial == serial).unwrap()
}

#[test]
fn certificates_dedups_by_serial_and_collects_ids() {
    let rows = vec![
        row(2, "www.nbp.pl", "www.nbp.pl\nnbp.pl", "2026-01-01T00:00:00", "2027-01-01T00:00:00", "0AA11"),
        row(1, "www.nbp.pl", "www.nbp.pl", "2026-01-01T00:00:00", "2027-01-01T00:00:00", "AA11"),
        row(3, "future", "future.nbp.pl", "2027-06-01T00:00:00", "2028-01-01T00:00:00", "BB22"),
        row(4, "expired", "expired.nbp.pl", "2020-01-01T00:00:00", "2021-01-01T00:00:00", "CC33"),
    ];
    let now = utc("2026-09-21T12:00:00Z");
    let certs = certificates(&rows, now);
    assert_eq!(certs.len(), 2);
    let aa = by_serial(&certs, "aa11");
    assert_eq!(aa.ct_ids, vec![1, 2]);
    assert!(aa.currently_valid);
    assert_eq!(aa.identities, vec!["nbp.pl", "www.nbp.pl"]);
    let bb = by_serial(&certs, "bb22");
    assert!(!bb.currently_valid);
}

fn db_row(
    cert_id: i64,
    serial: &str,
    dns: &str,
    cn: Option<&str>,
    nb: &str,
    na: &str,
    key: Option<(&str, i64, &str, &str)>,
    issuer: Option<&str>,
) -> DbRow {
    DbRow {
        cert_id,
        serial: serial.into(),
        dns_name: Some(dns.into()),
        common_name: cn.map(|s| s.into()),
        not_before: Some(nb.into()),
        not_after: Some(na.into()),
        key_algorithm: key.map(|k| k.0.into()),
        key_size: key.map(|k| k.1),
        sig_key_algorithm: key.map(|k| k.2.into()),
        sig_hash_algorithm: key.map(|k| k.3.into()),
        issuer_ca_name: issuer.map(|s| s.into()),
    }
}

#[test]
fn certificates_from_db_group_by_serial_and_name_facts() {
    let geo = "C=US, O=DigiCert Inc, CN=GeoTrust TLS RSA CA G1";
    let rsa = Some(("RSA", 2048, "RSA", "SHA-256"));
    let rows = vec![
        db_row(27387939567, "069ee4d86e61f5bc610cd369ea2e8784", "3dsecure.bankmillennium.pl",
            Some("3dsecure.bankmillennium.pl"), "2026-05-27 00:00:00", "2026-12-11 23:59:59", rsa, Some(geo)),
        db_row(26679999700, "069ee4d86e61f5bc610cd369ea2e8784", "www.bankmillennium.pl",
            Some("3dsecure.bankmillennium.pl"), "2026-05-27 00:00:00", "2026-12-11 23:59:59", rsa, Some(geo)),
        db_row(28833473386, "0e0058034625f04166936598b0748415", "*.api.bankmillennium.pl",
            Some("*.api.bankmillennium.pl"), "2026-08-19 00:00:00", "2027-03-05 23:59:59",
            Some(("EC", 384, "ECDSA", "SHA-384")), Some("CN=Test EC CA")),
        db_row(1, "0deadbeef", "gone.bankmillennium.pl", None, "2020-01-01 00:00:00",
            "2021-01-01 00:00:00", None, None),
    ];
    let now = utc("2026-09-21T12:00:00Z");
    let certs = certificates_from_db(&rows, now);
    assert_eq!(certs.len(), 2, "expired row dropped, duplicates merged");

    let rsa = by_serial(&certs, "69ee4d86e61f5bc610cd369ea2e8784");
    assert_eq!(rsa.ct_ids, vec![26679999700, 27387939567]);
    assert_eq!(rsa.identities, vec!["3dsecure.bankmillennium.pl", "www.bankmillennium.pl"]);
    assert!(rsa.currently_valid);
    assert_eq!(rsa.cert_signature.as_deref(), Some("RSA-SHA256"));
    assert_eq!(rsa.key_size, Some(2048));
    assert_eq!(rsa.issuer.as_deref(), Some(geo));

    let ec = by_serial(&certs, "e0058034625f04166936598b0748415");
    assert_eq!(ec.cert_signature.as_deref(), Some("ECDSA-P384"));
}

#[test]
fn cert_refs_exact_and_wildcard() {
    let now = utc("2026-09-21T12:00:00Z");
    let rows = vec![
        row(1, "www.nbp.pl", "www.nbp.pl", "2026-01-01T00:00:00", "2027-01-01T00:00:00", "AA11"),
        row(2, "*.nbp.pl", "*.nbp.pl", "2026-01-01T00:00:00", "2027-01-01T00:00:00", "BB22"),
    ];
    let certs = certificates(&rows, now);
    let refs = cert_refs(&certs, "vpn.nbp.pl");
    assert_eq!(refs.len(), 1);
    assert_eq!(refs[0].serial, "bb22");
    assert_eq!(refs[0].kind, MatchKind::Wildcard);
    let refs = cert_refs(&certs, "www.nbp.pl");
    assert_eq!(refs.len(), 2);
}

fn cert(serial: &str, nb: &str, na: &str, now: i64) -> Certificate {
    let (nb, na) = (Some(utc(nb)), Some(utc(na)));
    Certificate {
        serial: serial.to_string(),
        in_ct: true,
        served_live: false,
        currently_valid: currently_valid(nb, na, now),
        ct_ids: vec![1],
        common_name: None,
        identities: vec![],
        not_before: nb,
        not_after: na,
        pubkey_alg: None,
        sig_alg: None,
        issuer: None,
        key_algorithm: None,
        key_size: None,
        sig_key_algorithm: None,
        sig_hash_algorithm: None,
        cert_signature: None,
        chain: Vec::new(),
    }
}

#[test]
fn ct_stats_counts_grouped_certs() {
    let now = utc("2026-09-21T12:00:00Z");
    let certs = vec![
        cert("aa11", "2026-01-01T00:00:00Z", "2027-01-01T00:00:00Z", now),
        cert("bb22", "2027-06-01T00:00:00Z", "2028-01-01T00:00:00Z", now),
        cert("cc33", "2020-01-01T00:00:00Z", "2021-01-01T00:00:00Z", now),
    ];
    let stats = ct_stats(&certs, now);
    assert_eq!(stats.rows, 3);
    assert_eq!(stats.valid, 1);
    assert_eq!(stats.future, 1);
}
