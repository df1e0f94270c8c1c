//! The facts a live handshake yields about the served leaf certificate,
//! read from its DER encoding.

use vstd::prelude::*;

use crate::ct::{serial_norm, serial_norm_spec};
use crate::dns::label_in;
use crate::model::{alg_class, alg_class_of, cert_signature_name, sig_name, ServedCert};
use crate::strs::{
    chars_of, concat, contains_str, has_sub, insert_sorted, lower, lower_ascii, opt_str,
    opt_string, own, push_all, push_str, sorted_strict, string_of, views,
};

verus! {

// ---------------------------------------------------------------- what the parser reads

/// The raw serial number bytes of a DER certificate as x509-parser reads
/// them; `None` where it does not parse.
pub uninterp spec fn der_serial(der: Seq<u8>) -> Option<Seq<u8>>;

/// The dotted OID of the public key algorithm.
pub uninterp spec fn der_pubkey_oid(der: Seq<u8>) -> Option<Seq<char>>;

/// The dotted OID of the signature algorithm.
pub uninterp spec fn der_sig_oid(der: Seq<u8>) -> Option<Seq<char>>;

/// The dotted OID in the public key parameters, when they hold one.
pub uninterp spec fn der_curve_oid(der: Seq<u8>) -> Option<Option<Seq<char>>>;

/// The attributes of the issuer name, in encoded order: dotted type and
/// text value.
pub uninterp spec fn der_issuer(der: Seq<u8>) -> Option<Seq<(Seq<char>, Seq<char>)>>;

/// The validity period, in seconds since the epoch.
pub uninterp spec fn der_validity(der: Seq<u8>) -> Option<(i64, i64)>;

/// The entries of the subject alternative name extension, in order: the
/// name of each DNS entry, `None` for an entry of another kind; `None` for
/// the whole where the extension is missing or unreadable.
pub uninterp spec fn der_san_entries(der: Seq<u8>) -> Option<Option<Seq<Option<Seq<char>>>>>;

/// The first common name of the subject, when it is a string.
pub uninterp spec fn der_common_name(der: Seq<u8>) -> Option<Option<Seq<char>>>;

/// `x509_parser::parse_x509_certificate`, then `raw_serial`.
#[verifier::external_body]
fn x509_serial(der: &[u8]) -> (r: Option<Vec<u8>>)
    ensures
        match r {
            Some(v) => der_serial(der@) == Some(v@),
            None => der_serial(der@) is None,
        },
{
    let (_, cert) = x509_parser::parse_x509_certificate(der).ok()?;
    Some(cert.raw_serial().to_vec())
}

/// `x509_parser::parse_x509_certificate`, then the dotted public key
/// algorithm OID.
#[verifier::external_body]
fn x509_pubkey_oid(der: &[u8]) -> (r: Option<String>)
    ensures
        opt_string(r) == der_pubkey_oid(der@),
{
    let (_, cert) = x509_parser::parse_x509_certificate(der).ok()?;
    Some(cert.subject_pki.algorithm.algorithm.to_id_string())
}

/// `x509_parser::parse_x509_certificate`, then the dotted signature
/// algorithm OID.
#[verifier::external_body]
fn x509_sig_oid(der: &[u8]) -> (r: Option<String>)
    ensures
        opt_string(r) == der_sig_oid(der@),
{
    let (_, cert) = x509_parser::parse_x509_certificate(der).ok()?;
    Some(cert.signature_algorithm.algorithm.to_id_string())
}

/// `x509_parser::parse_x509_certificate`, then the public key parameters
/// read as an OID.
#[verifier::external_body]
fn x509_curve_oid(der: &[u8]) -> (r: Option<Option<String>>)
    ensures
        match r {
            Some(c) => der_curve_oid(der@) == Some(opt_string(c)),
            None => der_curve_oid(der@) is None,
        },
{
    let (_, cert) = x509_parser::parse_x509_certificate(der).ok()?;
    let params = cert.subject_pki.algorithm.parameters.as_ref();
    Some(params.and_then(|p| p.as_oid().ok()).map(|o| o.to_id_string()))
}

pub open spec fn pair_views(v: Seq<(String, String)>) -> Seq<(Seq<char>, Seq<char>)> {
    v.map_values(|p: (String, String)| (p.0@, p.1@))
}

/// `x509_parser::parse_x509_certificate`, then the issuer's attributes;
/// a value that is not a string is taken as its bytes, lossily decoded.
#[verifier::external_body]
fn x509_issuer(der: &[u8]) -> (r: Option<Vec<(String, String)>>)
    ensures
        match r {
            Some(v) => der_issuer(der@) == Some(pair_views(v@)),
            None => der_issuer(der@) is None,
        },
{
    let (_, cert) = x509_parser::parse_x509_certificate(der).ok()?;
    Some(cert.issuer.iter_rdn().flat_map(|rdn| rdn.iter()).map(|atv| {
        let value = match atv.as_str() {
            Ok(s) => s.to_owned(),
            Err(_) => String::from_utf8_lossy(atv.as_slice()).into_owned(),
        };
        (atv.attr_type().to_id_string(), value)
    }).collect())
}

/// `x509_parser::parse_x509_certificate`, then the validity period's
/// timestamps.
#[verifier::external_body]
fn x509_validity(der: &[u8]) -> (r: Option<(i64, i64)>)
    ensures
        r == der_validity(der@),
{
    let (_, cert) = x509_parser::parse_x509_certificate(der).ok()?;
    let v = cert.validity();
    Some((v.not_before.timestamp(), v.not_after.timestamp()))
}

pub open spec fn entry_views(v: Seq<Option<String>>) -> Seq<Option<Seq<char>>> {
    v.map_values(|o: Option<String>| opt_string(o))
}

/// `x509_parser::parse_x509_certificate`, then the general names of the
/// subject alternative name extension, each a DNS name or another kind.
#[verifier::external_body]
fn x509_san_entries(der: &[u8]) -> (r: Option<Option<Vec<Option<String>>>>)
    ensures
        match r {
            Some(Some(v)) => der_san_entries(der@) == Some(Some(entry_views(v@))),
            Some(None) => der_san_entries(der@) == Some(None::<Seq<Option<Seq<char>>>>),
            None => der_san_entries(der@) is None,
        },
{
    let (_, cert) = x509_parser::parse_x509_certificate(der).ok()?;
    let san = cert.subject_alternative_name().ok().flatten();
    Some(san.map(|s| s.value.general_names.iter().map(|gn| match gn {
        x509_parser::extensions::GeneralName::DNSName(d) => Some(d.to_string()),
        _ => None,
    }).collect()))
}

/// The DNS names among the entries, in order.
pub open spec fn dns_entries(e: Seq<Option<Seq<char>>>) -> Seq<Seq<char>>
    decreases e.len(),
{
    if e.len() == 0 {
        Seq::empty()
    } else {
        match e.last() {
            Some(n) => dns_entries(e.drop_last()).push(n),
            None => dns_entries(e.drop_last()),
        }
    }
}

/// The DNS names of a certificate's alternative names; none without the
/// extension.
pub open spec fn san_names(e: Option<Seq<Option<Seq<char>>>>) -> Seq<Seq<char>> {
    match e {
        Some(s) => dns_entries(s),
        None => Seq::empty(),
    }
}

fn dns_names_of(entries: Option<Vec<Option<String>>>) -> (r: Vec<String>)
    ensures
        views(r@) == san_names(
            match entries {
                Some(v) => Some(entry_views(v@)),
                None => None,
            },
        ),
{
    let mut r: Vec<String> = Vec::new();
    match entries {
        None => {
            assert(views(r@) =~= Seq::<Seq<char>>::empty());
            r
        },
        Some(v) => {
            let ghost e = entry_views(v@);
            let mut i: usize = 0;
            assert(views(r@) =~= dns_entries(e.take(0)));
            while i < v.len()
                invariant
                    i <= v.len(),
                    e == entry_views(v@),
                    views(r@) == dns_entries(e.take(i as int)),
                decreases v.len() - i,
            {
                assert(e.take(i + 1).drop_last() =~= e.take(i as int));
                assert(e.take(i + 1).last() == opt_string(v@[i as int]));
                match &v[i] {
                    Some(n) => {
                        let c = n.clone();
                        let ghost before = r@;
                        let ghost g = c;
                        r.push(c);
                        proof {
                            crate::strs::lemma_views_push(before, g);
                        }
                    },
                    None => {},
                }
                i = i + 1;
            }
            assert(e.take(v.len() as int) =~= e);
            r
        },
    }
}

/// `x509_parser::parse_x509_certificate`, then the subject's first common
/// name when it reads as a string.
#[verifier::external_body]
fn x509_common_name(der: &[u8]) -> (r: Option<Option<String>>)
    ensures
        match r {
            Some(c) => der_common_name(der@) == Some(opt_string(c)),
            None => der_common_name(der@) is None,
        },
{
    let (_, cert) = x509_parser::parse_x509_certificate(der).ok()?;
    let cn = cert.subject.iter_common_name().next().and_then(|a| a.as_str().ok()).map(str::to_string);
    Some(cn)
}

// ---------------------------------------------------------------- names

pub open spec fn pubkey_oids() -> Seq<(Seq<char>, Seq<char>)> {
    seq![
        ("1.2.840.113549.1.1.1"@, "rsaEncryption"@),
        ("1.2.840.113549.1.1.10"@, "rsassaPss"@),
        ("1.2.840.10045.2.1"@, "id-ecPublicKey"@),
        ("1.3.101.112"@, "Ed25519"@),
        ("1.3.101.113"@, "Ed448"@),
    ]
}

pub open spec fn sig_oids() -> Seq<(Seq<char>, Seq<char>)> {
    seq![
        ("1.2.840.113549.1.1.4"@, "md5WithRSAEncryption"@),
        ("1.2.840.113549.1.1.5"@, "sha1WithRSAEncryption"@),
        ("1.2.840.113549.1.1.11"@, "sha256WithRSAEncryption"@),
        ("1.2.840.113549.1.1.12"@, "sha384WithRSAEncryption"@),
        ("1.2.840.113549.1.1.13"@, "sha512WithRSAEncryption"@),
        ("1.2.840.113549.1.1.10"@, "rsassaPss"@),
        ("1.2.840.10045.4.1"@, "ecdsa-with-SHA1"@),
        ("1.2.840.10045.4.3.2"@, "ecdsa-with-SHA256"@),
        ("1.2.840.10045.4.3.3"@, "ecdsa-with-SHA384"@),
        ("1.2.840.10045.4.3.4"@, "ecdsa-with-SHA512"@),
        ("1.3.101.112"@, "Ed25519"@),
        ("1.3.101.114"@, "Ed448"@),
        ("2.16.840.1.101.3.4.3.17"@, "ML-DSA-44"@),
        ("2.16.840.1.101.3.4.3.18"@, "ML-DSA-65"@),
        ("2.16.840.1.101.3.4.3.19"@, "ML-DSA-87"@),
    ]
}

pub open spec fn curve_oids() -> Seq<(Seq<char>, Seq<char>)> {
    seq![("1.2.840.10045.3.1.7"@, "P256"@), ("1.3.132.0.34"@, "P384"@), ("1.3.132.0.35"@, "P521"@)]
}

pub open spec fn rdn_names() -> Seq<(Seq<char>, Seq<char>)> {
    seq![
        ("2.5.4.3"@, "CN"@),
        ("2.5.4.6"@, "C"@),
        ("2.5.4.7"@, "L"@),
        ("2.5.4.8"@, "ST"@),
        ("2.5.4.10"@, "O"@),
        ("2.5.4.11"@, "OU"@),
        ("2.5.4.5"@, "serialNumber"@),
        ("0.9.2342.19200300.100.1.25"@, "DC"@),
        ("1.2.840.113549.1.9.1"@, "emailAddress"@),
    ]
}

fn table_vec(which: u8) -> (r: Vec<(&'static str, &'static str)>)
    ensures
        r@.map_values(|p: (&str, &str)| (p.0@, p.1@)) == if which == 0 {
            pubkey_oids()
        } else if which == 1 {
            sig_oids()
        } else if which == 2 {
            curve_oids()
        } else {
            rdn_names()
        },
{
    let r = if which == 0 {
        vec![
            ("1.2.840.113549.1.1.1", "rsaEncryption"),
            ("1.2.840.113549.1.1.10", "rsassaPss"),
            ("1.2.840.10045.2.1", "id-ecPublicKey"),
            ("1.3.101.112", "Ed25519"),
            ("1.3.101.113", "Ed448"),
        ]
    } else if which == 1 {
        vec![
            ("1.2.840.113549.1.1.4", "md5WithRSAEncryption"),
            ("1.2.840.113549.1.1.5", "sha1WithRSAEncryption"),
            ("1.2.840.113549.1.1.11", "sha256WithRSAEncryption"),
            ("1.2.840.113549.1.1.12", "sha384WithRSAEncryption"),
            ("1.2.840.113549.1.1.13", "sha512WithRSAEncryption"),
            ("1.2.840.113549.1.1.10", "rsassaPss"),
            ("1.2.840.10045.4.1", "ecdsa-with-SHA1"),
            ("1.2.840.10045.4.3.2", "ecdsa-with-SHA256"),
            ("1.2.840.10045.4.3.3", "ecdsa-with-SHA384"),
            ("1.2.840.10045.4.3.4", "ecdsa-with-SHA512"),
            ("1.3.101.112", "Ed25519"),
            ("1.3.101.114", "Ed448"),
            ("2.16.840.1.101.3.4.3.17", "ML-DSA-44"),
            ("2.16.840.1.101.3.4.3.18", "ML-DSA-65"),
            ("2.16.840.1.101.3.4.3.19", "ML-DSA-87"),
        ]
    } else if which == 2 {
        vec![("1.2.840.10045.3.1.7", "P256"), ("1.3.132.0.34", "P384"), ("1.3.132.0.35", "P521")]
    } else {
        vec![
            ("2.5.4.3", "CN"),
            ("2.5.4.6", "C"),
            ("2.5.4.7", "L"),
            ("2.5.4.8", "ST"),
            ("2.5.4.10", "O"),
            ("2.5.4.11", "OU"),
            ("2.5.4.5", "serialNumber"),
            ("0.9.2342.19200300.100.1.25", "DC"),
            ("1.2.840.113549.1.9.1", "emailAddress"),
        ]
    };
    assert(r@.map_values(|p: (&str, &str)| (p.0@, p.1@)) =~= if which == 0 {
        pubkey_oids()
    } else if which == 1 {
        sig_oids()
    } else if which == 2 {
        curve_oids()
    } else {
        rdn_names()
    });
    r
}

/// The value of the first entry for `key`.
pub open spec fn find_in(table: Seq<(Seq<char>, Seq<char>)>, key: Seq<char>) -> Option<Seq<char>>
    decreases table.len(),
{
    if table.len() == 0 {
        None
    } else if table[0].0 == key {
        Some(table[0].1)
    } else {
        find_in(table.drop_first(), key)
    }
}

proof fn lemma_label_find(table: Seq<(Seq<char>, Seq<char>)>, key: Seq<char>)
    ensures
        label_in(table, key) == match find_in(table, key) {
            Some(v) => v,
            None => key,
        },
    decreases table.len(),
{
    if table.len() > 0 && table[0].0 != key {
        lemma_label_find(table.drop_first(), key);
    }
}

fn find(which: u8, key: &str) -> (r: Option<&'static str>)
    ensures
        opt_str(r) == find_in(
            if which == 0 {
                pubkey_oids()
            } else if which == 1 {
                sig_oids()
            } else if which == 2 {
                curve_oids()
            } else {
                rdn_names()
            },
            key@,
        ),
{
    let t = table_vec(which);
    let ghost tv = t@.map_values(|p: (&str, &str)| (p.0@, p.1@));
    let kc = chars_of(key);
    let mut i: usize = 0;
    assert(tv.skip(0) =~= tv);
    while i < t.len()
        invariant
            i <= t.len(),
            tv == t@.map_values(|p: (&str, &str)| (p.0@, p.1@)),
            tv == (if which == 0 {
                pubkey_oids()
            } else if which == 1 {
                sig_oids()
            } else if which == 2 {
                curve_oids()
            } else {
                rdn_names()
            }),
            kc@ == key@,
            find_in(tv, key@) == find_in(tv.skip(i as int), key@),
        decreases t.len() - i,
    {
        assert(tv.skip(i as int)[0] == (t@[i as int].0@, t@[i as int].1@));
        if crate::strs::eq_str(&kc, t[i].0) {
            return Some(t[i].1);
        }
        assert(tv.skip(i as int).drop_first() =~= tv.skip(i + 1));
        i = i + 1;
    }
    None
}

/// The name a table gives an OID, or the dotted OID itself.
fn oid_name(which: u8, dotted: &String) -> (r: String)
    ensures
        r@ == label_in(
            if which == 0 {
                pubkey_oids()
            } else if which == 1 {
                sig_oids()
            } else if which == 2 {
                curve_oids()
            } else {
                rdn_names()
            },
            dotted@,
        ),
{
    proof {
        lemma_label_find(
            if which == 0 {
                pubkey_oids()
            } else if which == 1 {
                sig_oids()
            } else if which == 2 {
                curve_oids()
            } else {
                rdn_names()
            },
            dotted@,
        );
    }
    match find(which, dotted.as_str()) {
        Some(v) => own(v),
        None => dotted.clone(),
    }
}

// ---------------------------------------------------------------- the certificate signature

pub open spec fn hash_table() -> Seq<(Seq<char>, Seq<char>)> {
    seq![("sha512"@, "SHA512"@), ("sha384"@, "SHA384"@), ("sha256"@, "SHA256"@), ("sha1"@, "SHA1"@), ("md5"@, "MD5"@)]
}

/// The first hash whose name occurs in a lower-cased algorithm name.
pub open spec fn hash_in(table: Seq<(Seq<char>, Seq<char>)>, sig: Seq<char>) -> Option<Seq<char>>
    decreases table.len(),
{
    if table.len() == 0 {
        None
    } else if has_sub(sig, table[0].0) {
        Some(table[0].1)
    } else {
        hash_in(table.drop_first(), sig)
    }
}

/// "sha256withrsaencryption" → "SHA256".
pub fn hash_from_sig(sig_lower: &str) -> (r: Option<&'static str>)
    ensures
        opt_str(r) == hash_in(hash_table(), sig_lower@),
{
    let s = chars_of(sig_lower);
    proof {
        reveal_with_fuel(hash_in, 6);
    }
    if contains_str(&s, "sha512") {
        Some("SHA512")
    } else if contains_str(&s, "sha384") {
        Some("SHA384")
    } else if contains_str(&s, "sha256") {
        Some("SHA256")
    } else if contains_str(&s, "sha1") {
        Some("SHA1")
    } else if contains_str(&s, "md5") {
        Some("MD5")
    } else {
        None
    }
}

/// The class and hash of a live certificate's signature: from the
/// signature algorithm's name, else the public key's class.
pub open spec fn live_class(pubkey_alg: Option<Seq<char>>, sig: Seq<char>) -> (Seq<char>, Option<Seq<char>>) {
    let l = lower_ascii(sig);
    if has_sub(l, "ecdsa"@) {
        ("ECDSA"@, hash_in(hash_table(), l))
    } else if has_sub(l, "ed25519"@) {
        ("Ed25519"@, None)
    } else if has_sub(l, "ed448"@) {
        ("Ed448"@, None)
    } else if has_sub(l, "rsa"@) {
        ("RSA"@, hash_in(hash_table(), l))
    } else {
        match pubkey_alg {
            Some(p) => (alg_class(p), hash_in(hash_table(), l)),
            None => (sig, None),
        }
    }
}

pub open spec fn live_signature(
    pubkey_alg: Option<Seq<char>>,
    sig_alg: Option<Seq<char>>,
    curve: Option<Seq<char>>,
) -> Option<Seq<char>> {
    match sig_alg {
        Some(sig) => {
            let (class, hash) = live_class(pubkey_alg, sig);
            Some(sig_name(class, hash, curve))
        },
        None => None,
    }
}

/// The canonical signature name of a live certificate.
pub fn live_cert_signature(pubkey_alg: Option<&str>, sig_alg: Option<&str>, curve: Option<String>) -> (r: Option<String>)
    ensures
        opt_string(r) == live_signature(opt_str(pubkey_alg), opt_str(sig_alg), opt_string(curve)),
{
    let sig = match sig_alg {
        Some(s) => s,
        None => return None,
    };
    let l = lower(&chars_of(sig));
    let ls = string_of(&l);
    let (class, hash): (String, Option<&str>) = if contains_str(&l, "ecdsa") {
        (own("ECDSA"), hash_from_sig(ls.as_str()))
    } else if contains_str(&l, "ed25519") {
        (own("Ed25519"), None)
    } else if contains_str(&l, "ed448") {
        (own("Ed448"), None)
    } else if contains_str(&l, "rsa") {
        (own("RSA"), hash_from_sig(ls.as_str()))
    } else {
        match pubkey_alg {
            Some(p) => (alg_class_of(p), hash_from_sig(ls.as_str())),
            None => (own(sig), None),
        }
    };
    let cv = match &curve {
        Some(c) => Some(c.as_str()),
        None => None,
    };
    cert_signature_name(class.as_str(), hash, cv)
}

// ---------------------------------------------------------------- serials and issuers

pub open spec fn hex_digit(n: int) -> char {
    if n < 10 {
        (48 + n) as char
    } else {
        (87 + n) as char
    }
}

/// Two lower-case hex digits per byte.
pub open spec fn hex_of(bs: Seq<u8>) -> Seq<char>
    decreases bs.len(),
{
    if bs.len() == 0 {
        Seq::empty()
    } else {
        hex_of(bs.drop_last()) + seq![hex_digit((bs.last() / 16) as int), hex_digit((bs.last() % 16) as int)]
    }
}

fn hex_char(n: u8) -> (r: char)
    requires
        n < 16,
    ensures
        r == hex_digit(n as int),
{
    if n < 10 {
        (48 + n) as char
    } else {
        (87 + n) as char
    }
}

pub fn hex_lower(bytes: &[u8]) -> (r: String)
    ensures
        r@ == hex_of(bytes@),
{
    let mut out: Vec<char> = Vec::new();
    let mut i: usize = 0;
    while i < bytes.len()
        invariant
            i <= bytes.len(),
            out@ == hex_of(bytes@.take(i as int)),
        decreases bytes.len() - i,
    {
        assert(bytes@.take(i + 1).drop_last() =~= bytes@.take(i as int));
        let b = bytes[i];
        out.push(hex_char(b / 16));
        out.push(hex_char(b % 16));
        i = i + 1;
        assert(out@ =~= hex_of(bytes@.take(i as int)));
    }
    assert(bytes@.take(bytes.len() as int) =~= bytes@);
    string_of(&out)
}

/// The parts joined by commas, last first.
pub open spec fn reversed_join(ps: Seq<Seq<char>>) -> Seq<char>
    decreases ps.len(),
{
    if ps.len() == 0 {
        Seq::empty()
    } else if ps.len() == 1 {
        ps[0]
    } else {
        ps.last() + ","@ + reversed_join(ps.drop_last())
    }
}

pub open spec fn rdn_part(atv: (Seq<char>, Seq<char>)) -> Seq<char> {
    label_in(rdn_names(), atv.0) + "="@ + atv.1
}

/// A name in RFC 2253 order, most specific attribute first:
/// "CN=...,O=...,C=...".
pub open spec fn rfc2253(atvs: Seq<(Seq<char>, Seq<char>)>) -> Seq<char> {
    reversed_join(atvs.map_values(|a: (Seq<char>, Seq<char>)| rdn_part(a)))
}

pub fn issuer_rfc2253(atvs: &Vec<(String, String)>) -> (r: String)
    ensures
        r@ == rfc2253(pair_views(atvs@)),
{
    let ghost parts = pair_views(atvs@).map_values(|a: (Seq<char>, Seq<char>)| rdn_part(a));
    let mut out: Vec<char> = Vec::new();
    let mut i: usize = 0;
    assert(parts.take(0) =~= Seq::<Seq<char>>::empty());
    while i < atvs.len()
        invariant
            i <= atvs.len(),
            parts == pair_views(atvs@).map_values(|a: (Seq<char>, Seq<char>)| rdn_part(a)),
            out@ == reversed_join(parts.take(i as int)),
        decreases atvs.len() - i,
    {
        assert(parts.take(i + 1).drop_last() =~= parts.take(i as int));
        assert(parts.take(i + 1).last() == rdn_part((atvs@[i as int].0@, atvs@[i as int].1@)));
        let key = oid_name(3, &atvs[i].0);
        let mut part = chars_of(key.as_str());
        push_str(&mut part, "=");
        push_str(&mut part, atvs[i].1.as_str());
        if i > 0 {
            push_str(&mut part, ",");
        } else {
            assert(parts.take(1) =~= seq![parts[0]]);
        }
        push_all(&mut part, &out);
        out = part;
        i = i + 1;
    }
    assert(parts.take(atvs.len() as int) =~= parts);
    string_of(&out)
}

// ---------------------------------------------------------------- the served certificate

/// The certificate served live, as its parsed fields give it: serial in
/// canonical hex, algorithm names from the OID tables, the named curve,
/// the canonical signature, the issuer in RFC 2253 order, the DNS names
/// ordered without repeats.
pub open spec fn served_from(
    serial: Seq<u8>,
    pubkey_oid: Seq<char>,
    sig_oid: Seq<char>,
    curve_oid: Option<Seq<char>>,
    issuer: Seq<(Seq<char>, Seq<char>)>,
    validity: (i64, i64),
    sans: Seq<Seq<char>>,
    cn: Option<Seq<char>>,
    s: ServedCert,
) -> bool {
    let pubkey = label_in(pubkey_oids(), pubkey_oid);
    let sig = label_in(sig_oids(), sig_oid);
    let curve = match curve_oid {
        Some(d) => find_in(curve_oids(), d),
        None => None,
    };
    &&& s.serial@ == serial_norm_spec(hex_of(serial))
    &&& opt_string(s.common_name) == cn
    &&& sorted_strict(views(s.identities@))
    &&& views(s.identities@).to_set() == sans.to_set()
    &&& opt_string(s.pubkey_alg) == Some(pubkey)
    &&& opt_string(s.sig_alg) == Some(sig)
    &&& opt_string(s.issuer) == Some(rfc2253(issuer))
    &&& s.not_before == Some(validity.0)
    &&& s.not_after == Some(validity.1)
    &&& s.chain_sigs@.len() == 0
    &&& opt_string(s.pubkey_curve) == curve
    &&& opt_string(s.cert_signature) == live_signature(Some(pubkey), Some(sig), curve)
}

/// Builds the served certificate from the fields parsed out of its DER.
pub fn served_cert_from_fields(
    serial: &[u8],
    pubkey_oid: &String,
    sig_oid: &String,
    curve_oid: &Option<String>,
    issuer: &Vec<(String, String)>,
    validity: (i64, i64),
    sans: &Vec<String>,
    cn: Option<String>,
) -> (r: ServedCert)
    ensures
        served_from(
            serial@,
            pubkey_oid@,
            sig_oid@,
            opt_string(*curve_oid),
            pair_views(issuer@),
            validity,
            views(sans@),
            opt_string(cn),
            r,
        ),
{
    let serial_text = serial_norm(hex_lower(serial).as_str());
    let pubkey = oid_name(0, pubkey_oid);
    let sig = oid_name(1, sig_oid);
    let curve: Option<String> = match curve_oid {
        Some(d) => match find(2, d.as_str()) {
            Some(v) => Some(own(v)),
            None => None,
        },
        None => None,
    };
    let cert_signature = live_cert_signature(Some(pubkey.as_str()), Some(sig.as_str()), crate::strs::clone_opt(&curve));
    let mut ids: Vec<String> = Vec::new();
    let mut i: usize = 0;
    while i < sans.len()
        invariant
            i <= sans.len(),
            sorted_strict(views(ids@)),
            views(ids@).to_set() == views(sans@.take(i as int)).to_set(),
        decreases sans.len() - i,
    {
        assert(sans@.take(i + 1) =~= sans@.take(i as int).push(sans@[i as int]));
        proof {
            crate::strs::lemma_views_push(sans@.take(i as int), sans@[i as int]);
            views(sans@.take(i as int)).lemma_push_to_set_commute(sans@[i as int]@);
        }
        insert_sorted(&mut ids, sans[i].clone());
        i = i + 1;
    }
    assert(sans@.take(sans.len() as int) =~= sans@);
    ServedCert {
        serial: serial_text,
        common_name: cn,
        identities: ids,
        pubkey_alg: Some(pubkey),
        sig_alg: Some(sig),
        issuer: Some(issuer_rfc2253(issuer)),
        not_before: Some(validity.0),
        not_after: Some(validity.1),
        chain_sigs: Vec::new(),
        pubkey_curve: curve,
        cert_signature,
    }
}

/// The served leaf read from its DER encoding; `None` where it does not
/// parse.
pub fn served_cert_from_der(der: &[u8]) -> (r: Option<ServedCert>)
    ensures
        match r {
            Some(s) => {
                &&& der_serial(der@) is Some
                &&& der_pubkey_oid(der@) is Some
                &&& der_sig_oid(der@) is Some
                &&& der_curve_oid(der@) is Some
                &&& der_issuer(der@) is Some
                &&& der_validity(der@) is Some
                &&& der_san_entries(der@) is Some
                &&& der_common_name(der@) is Some
                &&& served_from(
                    der_serial(der@).unwrap(),
                    der_pubkey_oid(der@).unwrap(),
                    der_sig_oid(der@).unwrap(),
                    der_curve_oid(der@).unwrap(),
                    der_issuer(der@).unwrap(),
                    der_validity(der@).unwrap(),
                    san_names(der_san_entries(der@).unwrap()),
                    der_common_name(der@).unwrap(),
                    s,
                )
            },
            None => der_serial(der@) is None || der_pubkey_oid(der@) is None || der_sig_oid(der@) is None
                || der_curve_oid(der@) is None || der_issuer(der@) is None || der_validity(der@) is None
                || der_san_entries(der@) is None || der_common_name(der@) is None,
        },
{
    let serial = x509_serial(der)?;
    let pubkey_oid = x509_pubkey_oid(der)?;
    let sig_oid = x509_sig_oid(der)?;
    let curve_oid = x509_curve_oid(der)?;
    let issuer = x509_issuer(der)?;
    let validity = x509_validity(der)?;
    let sans = dns_names_of(x509_san_entries(der)?);
    let cn = x509_common_name(der)?;
    Some(served_cert_from_fields(serial.as_slice(), &pubkey_oid, &sig_oid, &curve_oid, &issuer, validity, &sans, cn))
}

/// The signature algorithm name of a DER certificate.
pub fn sig_alg_from_der(der: &[u8]) -> (r: Option<String>)
    ensures
        match r {
            Some(s) => der_sig_oid(der@) is Some && s@ == label_in(sig_oids(), der_sig_oid(der@).unwrap()),
            None => der_sig_oid(der@) is None,
        },
{
    let oid = x509_sig_oid(der)?;
    Some(oid_name(1, &oid))
}

/// The served certificate with the signature algorithms of its chain.
pub fn with_chain_sigs(served: ServedCert, chain_sigs: Vec<String>) -> (r: ServedCert)
    ensures
        r.chain_sigs == chain_sigs,
        r.serial == served.serial,
        r.common_name == served.common_name,
        r.identities == served.identities,
        r.pubkey_alg == served.pubkey_alg,
        r.sig_alg == served.sig_alg,
        r.issuer == served.issuer,
        r.not_before == served.not_before,
        r.not_after == served.not_after,
        r.pubkey_curve == served.pubkey_curve,
        r.cert_signature == served.cert_signature,
{
    let mut s = served;
    s.chain_sigs = chain_sigs;
    s
}

} // verus!
