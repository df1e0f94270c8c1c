use pq_map::ct::{coverage, names, serial_norm};
use pq_map::model::{
    cert_key_name, cert_signature_from_db, cert_signature_name, curve_from_key_size,
    symmetric_name, MatchKind,
};

#[test]
fn cert_signature_names_are_canonical() {
    assert_eq!(
        cert_signature_from_db(Some("RSA"), Some(2048), Some("RSA"), Some("SHA-256")),
        Some("RSA-SHA256".to_string())
    );
    assert_eq!(
        cert_signature_from_db(Some("EC"), Some(256), Some("ECDSA"), Some("SHA-256")),
        Some("ECDSA-P256".to_string())
    );
    assert_eq!(
        cert_signature_from_db(Some("EC"), Some(384), Some("ECDSA"), Some("SHA-384")),
        Some("ECDSA-P384".to_string())
    );
    assert_eq!(
        cert_signature_name("rsaEncryption", Some("sha256"), None),
        Some("RSA-SHA256".to_string())
    );
    assert_eq!(
        cert_signature_name("id-ecPublicKey", Some("ecdsa-with-SHA384"), Some("P384")),
        Some("ECDSA-P384".to_string())
    );
    assert_eq!(cert_signature_name("Ed25519", None, None), Some("Ed25519".to_string()));
    assert_eq!(cert_signature_name("ML-DSA-65", None, None), Some("ML-DSA-65".to_string()));
    assert_eq!(cert_signature_name("1.2.3.4.5", None, None), Some("1.2.3.4.5".to_string()));
    assert_eq!(cert_signature_from_db(None, None, None, None), None);
}

#[test]
fn curve_from_key_size_maps_nist_curves() {
    assert_eq!(curve_from_key_size(256), Some("P256"));
    assert_eq!(curve_from_key_size(384), Some("P384"));
    assert_eq!(curve_from_key_size(521), Some("P521"));
    assert_eq!(curve_from_key_size(2048), None);
    assert_eq!(curve_from_key_size(512), None);
}

#[test]
fn cert_key_names_are_canonical() {
    assert_eq!(cert_key_name(Some("RSA"), Some(2048), None), Some("RSA-2048".to_string()));
    assert_eq!(cert_key_name(Some("EC"), Some(256), None), Some("EC-256".to_string()));
    assert_eq!(cert_key_name(Some("EC"), Some(384), None), Some("EC-384".to_string()));
    assert_eq!(cert_key_name(Some("ECDSA"), None, Some("P256")), Some("EC-256".to_string()));
    assert_eq!(
        cert_key_name(Some("id-ecPublicKey"), None, Some("P521")),
        Some("EC-521".to_string())
    );
    assert_eq!(cert_key_name(Some("RSA"), None, None), Some("RSA".to_string()));
    assert_eq!(cert_key_name(Some("Ed25519"), None, None), Some("Ed25519".to_string()));
    assert_eq!(cert_key_name(None, None, None), None);
}

#[test]
fn symmetric_names_from_suite_names() {
    assert_eq!(symmetric_name("TLS13_AES_256_GCM_SHA384"), Some("AES256-GCM".to_string()));
    assert_eq!(symmetric_name("TLS_AES_128_GCM_SHA256"), Some("AES128-GCM".to_string()));
    assert_eq!(
        symmetric_name("TLS_ECDHE_RSA_WITH_AES_128_GCM_SHA256"),
        Some("AES128-GCM".to_string())
    );
    assert_eq!(
        symmetric_name("TLS13_CHACHA20_POLY1305_SHA256"),
        Some("CHACHA20-POLY1305".to_string())
    );
    assert_eq!(
        symmetric_name("TLS_ECDHE_RSA_WITH_AES_256_CBC_SHA384"),
        Some("AES256-CBC".to_string())
    );
    assert_eq!(symmetric_name("TLS_UNKNOWN"), None);
}

#[test]
fn names_splits_lowers_and_dedups() {
    assert_eq!(
        names("WWW.NBP.pl\r\nmail.nbp.pl\n\nmail.nbp.pl"),
        vec!["mail.nbp.pl", "www.nbp.pl"]
    );
    assert_eq!(names(""), Vec::<String>::new());
}

#[test]
fn coverage_follows_rfc_6125_single_label() {
    let idents = vec!["nbp.pl".to_string(), "*.nbp.pl".to_string()];
    assert_eq!(coverage(&idents, "nbp.pl"), Some(MatchKind::Exact));
    assert_eq!(coverage(&idents, "www.nbp.pl"), Some(MatchKind::Wildcard));
    assert_eq!(coverage(&idents, "a.b.nbp.pl"), None);
    assert_eq!(coverage(&idents, "other.pl"), None);

    let deep = vec!["*.a.nbp.pl".to_string()];
    assert_eq!(coverage(&deep, "x.a.nbp.pl"), Some(MatchKind::Wildcard));
    assert_eq!(coverage(&deep, "a.nbp.pl"), None);
    assert_eq!(coverage(&deep, "x.y.a.nbp.pl"), None);
}

#[test]
fn serial_norm_strips_separators_and_zeros() {
    assert_eq!(serial_norm("0A:0B:0C"), "a0b0c");
    assert_eq!(serial_norm("00ABC"), "abc");
    assert_eq!(serial_norm("0abc"), "abc");
    assert_eq!(serial_norm("0000"), "0");
    assert_eq!(serial_norm(""), "0");
    assert_eq!(serial_norm("deadbeef"), "deadbeef");
}
