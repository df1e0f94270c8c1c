//! The domain state and the canonical names of the crypto facts it holds.
//! Times are whole seconds since the Unix epoch.

use vstd::prelude::*;

use crate::strs::{
    opt_string,
    chars_of, contains_str, dec_i64, dec_int, eq_str, has_sub, lower, lower_ascii, opt_str,
    own, parse_i64, parse_i64_chars, push_all, push_str, remove_char, skip_curve_prefix,
    skip_curve_prefix_chars, sorted_strict, string_of, trim, trim_chars, upper, upper_ascii, views, without,
};

verus! {

/// How a host name was discovered: a set of flags.
#[derive(Debug, Clone, Copy, PartialEq, Eq, Default)]
pub struct Origins(pub u8);

impl Origins {
    pub fn none() -> (r: Origins)
        ensures
            r.0 == 0,
    {
        Origins(0)
    }

    pub fn ct() -> (r: Origins)
        ensures
            r.0 == 1,
    {
        Origins(1)
    }

    pub fn dns() -> (r: Origins)
        ensures
            r.0 == 2,
    {
        Origins(2)
    }

    pub fn apex() -> (r: Origins)
        ensures
            r.0 == 4,
    {
        Origins(4)
    }

    pub open spec fn has(self, other: Origins) -> bool {
        self.0 & other.0 != 0
    }

    pub fn insert(&mut self, other: Self)
        ensures
            final(self).0 == old(self).0 | other.0,
    {
        self.0 = self.0 | other.0;
    }

    pub fn contains(self, other: Self) -> (r: bool)
        ensures
            r == self.has(other),
    {
        self.0 & other.0 != 0
    }

    /// Names of the set flags, in the order ct, dns, apex.
    pub fn labels(self) -> (r: Vec<&'static str>)
        ensures
            r@.map_values(|s: &str| s@) == origin_labels(self.0),
    {
        let mut out: Vec<&'static str> = Vec::new();
        if self.contains(Self::ct()) {
            out.push("ct");
        }
        if self.contains(Self::dns()) {
            out.push("dns");
        }
        if self.contains(Self::apex()) {
            out.push("apex");
        }
        assert(out@.map_values(|s: &str| s@) =~= origin_labels(self.0));
        out
    }
}

pub open spec fn origin_labels(bits: u8) -> Seq<Seq<char>> {
    (if bits & 1 != 0 {
        seq!["ct"@]
    } else {
        Seq::empty()
    }) + (if bits & 2 != 0 {
        seq!["dns"@]
    } else {
        Seq::empty()
    }) + (if bits & 4 != 0 {
        seq!["apex"@]
    } else {
        Seq::empty()
    })
}

/// Inserting flags never drops one already present, and a flag inserted is
/// present afterwards: the origins of a name only accumulate.
pub proof fn law_origins_accumulate(a: u8, b: u8, c: u8)
    ensures
        (Origins(a | b)).has(Origins(c)) == (Origins(a).has(Origins(c)) || Origins(b).has(
            Origins(c),
        )),
{
    assert((a | b) & c != 0 <==> (a & c != 0 || b & c != 0)) by (bit_vector);
}

#[derive(Debug, Clone, Copy, PartialEq, Eq)]
pub enum MatchKind {
    Exact,
    Wildcard,
}

#[derive(Debug, Clone, PartialEq, Eq)]
pub enum ProbeStatus {
    /// The handshake completed and a certificate was served.
    Success,
    DnsFailure,
    TcpRefused,
    TcpUnreachable,
    Timeout { secs: u64 },
    TlsHandshakeFailed,
    ConnectedNoCert,
    Unknown { reason: String },
}

/// One CA certificate of the chain recorded for a leaf, by depth (the leaf
/// itself has depth 0).
#[derive(Debug, Clone)]
pub struct ChainEntry {
    pub depth: u32,
    pub certificate_id: u64,
    pub common_name: Option<String>,
    pub ski: Option<String>,
    pub aki: Option<String>,
    pub not_before: Option<i64>,
    pub not_after: Option<i64>,
    pub key_algorithm: Option<String>,
    pub key_size: Option<i64>,
    pub signature_key_algorithm: Option<String>,
    pub signature_hash_algorithm: Option<String>,
    pub issuer_ca_name: Option<String>,
}

#[derive(Debug, Clone)]
pub struct Certificate {
    pub serial: String,
    pub in_ct: bool,
    pub served_live: bool,
    pub currently_valid: bool,
    pub ct_ids: Vec<u64>,
    pub common_name: Option<String>,
    pub identities: Vec<String>,
    pub not_before: Option<i64>,
    pub not_after: Option<i64>,
    pub pubkey_alg: Option<String>,
    pub sig_alg: Option<String>,
    pub issuer: Option<String>,
    pub key_algorithm: Option<String>,
    pub key_size: Option<i64>,
    pub sig_key_algorithm: Option<String>,
    pub sig_hash_algorithm: Option<String>,
    pub cert_signature: Option<String>,
    pub chain: Vec<ChainEntry>,
}

#[derive(Debug, Clone)]
pub struct CertRef {
    pub serial: String,
    pub kind: MatchKind,
}

#[derive(Debug, Clone)]
pub enum DnsRef {
    Srv { service: String },
    Https,
}

/// DNS response status for the A/AAAA lookup of a host (RFC 1035 rcodes).
#[derive(Debug, Clone, Copy, PartialEq, Eq)]
pub enum DnsStatus {
    /// NOERROR with address records.
    Resolved,
    /// NOERROR, name exists, but no A/AAAA records (NODATA).
    NoData,
    /// NXDOMAIN: the name does not exist.
    NxDomain,
    ServFail,
    Refused,
    /// Resolver gave up within its timeout budget.
    Timeout,
    /// Any other response code or transport failure.
    Other,
}

pub open spec fn dns_status_label(s: DnsStatus) -> Seq<char> {
    match s {
        DnsStatus::Resolved => "resolves"@,
        DnsStatus::NoData => "no data"@,
        DnsStatus::NxDomain => "nxdomain"@,
        DnsStatus::ServFail => "servfail"@,
        DnsStatus::Refused => "refused"@,
        DnsStatus::Timeout => "timeout"@,
        DnsStatus::Other => "unknown"@,
    }
}

impl DnsStatus {
    pub fn label(&self) -> (r: &'static str)
        ensures
            r@ == dns_status_label(*self),
    {
        match self {
            DnsStatus::Resolved => "resolves",
            DnsStatus::NoData => "no data",
            DnsStatus::NxDomain => "nxdomain",
            DnsStatus::ServFail => "servfail",
            DnsStatus::Refused => "refused",
            DnsStatus::Timeout => "timeout",
            DnsStatus::Other => "unknown",
        }
    }
}

#[derive(Debug, Clone)]
pub struct ServedCert {
    pub serial: String,
    pub common_name: Option<String>,
    pub identities: Vec<String>,
    pub pubkey_alg: Option<String>,
    pub sig_alg: Option<String>,
    pub issuer: Option<String>,
    pub not_before: Option<i64>,
    pub not_after: Option<i64>,
    /// Signature algorithms of the served chain, leaf first.
    pub chain_sigs: Vec<String>,
    pub pubkey_curve: Option<String>,
    pub cert_signature: Option<String>,
}

/// Crypto negotiated during the live handshake.
#[derive(Debug, Clone)]
pub struct Negotiated {
    pub tls_version: Option<String>,
    pub kx_group: Option<String>,
    pub cipher: Option<String>,
}

/// Seconds of an optional time, a missing one counting as the epoch.
pub open spec fn epoch_of(t: Option<i64>) -> int {
    match t {
        Some(v) => v as int,
        None => 0,
    }
}

/// Valid at `now`: `not_before <= now <= not_after`, a missing date
/// counting as the epoch (so no `not_after` means not valid).
pub open spec fn valid_at(nb: Option<i64>, na: Option<i64>, now: i64) -> bool {
    epoch_of(nb) <= now && epoch_of(na) >= now
}

/// Not valid yet at `now`.
pub open spec fn future_at(nb: Option<i64>, now: i64) -> bool {
    epoch_of(nb) > now
}

pub fn currently_valid(nb: Option<i64>, na: Option<i64>, now: i64) -> (r: bool)
    ensures
        r == valid_at(nb, na, now),
{
    let b = match nb {
        Some(v) => v,
        None => 0,
    };
    let a = match na {
        Some(v) => v,
        None => 0,
    };
    b <= now && a >= now
}

pub fn future_valid(nb: Option<i64>, now: i64) -> (r: bool)
    ensures
        r == future_at(nb, now),
{
    let b = match nb {
        Some(v) => v,
        None => 0,
    };
    b > now
}

impl ServedCert {
    /// The certificate record of a live-served leaf that CT does not know.
    pub fn into_certificate(self, now: i64) -> (r: Certificate)
        ensures
            r.serial == self.serial,
            !r.in_ct,
            r.served_live,
            r.currently_valid == valid_at(self.not_before, self.not_after, now),
            r.ct_ids@.len() == 0,
            r.common_name == self.common_name,
            r.identities == self.identities,
            r.not_before == self.not_before,
            r.not_after == self.not_after,
            r.pubkey_alg == self.pubkey_alg,
            r.sig_alg == self.sig_alg,
            r.issuer == self.issuer,
            r.key_algorithm is None,
            r.key_size is None,
            r.sig_key_algorithm is None,
            r.sig_hash_algorithm is None,
            r.cert_signature == self.cert_signature,
            r.chain@.len() == 0,
    {
        let currently_valid = currently_valid(self.not_before, self.not_after, now);
        Certificate {
            serial: self.serial,
            in_ct: false,
            served_live: true,
            currently_valid,
            ct_ids: Vec::new(),
            common_name: self.common_name,
            identities: self.identities,
            not_before: self.not_before,
            not_after: self.not_after,
            pubkey_alg: self.pubkey_alg,
            sig_alg: self.sig_alg,
            issuer: self.issuer,
            key_algorithm: None,
            key_size: None,
            sig_key_algorithm: None,
            sig_hash_algorithm: None,
            cert_signature: self.cert_signature,
            chain: Vec::new(),
        }
    }
}

/// An IP address as its octets: four for IPv4, sixteen for IPv6.
#[derive(Debug, Clone, PartialEq, Eq)]
pub struct IpAddress(pub Vec<u8>);

#[derive(Debug, Clone)]
pub struct Endpoint {
    pub status: ProbeStatus,
    pub ip: Option<IpAddress>,
    pub served: Option<ServedCert>,
    pub served_not_in_ct: bool,
    pub negotiated: Option<Negotiated>,
    pub observed_at: Option<i64>,
}

/// An endpoint that yielded nothing but its failure status.
pub open spec fn failed_endpoint(status: ProbeStatus) -> Endpoint {
    Endpoint {
        status,
        ip: None,
        served: None,
        served_not_in_ct: false,
        negotiated: None,
        observed_at: None,
    }
}

impl Endpoint {
    /// An endpoint that yielded nothing but its failure status.
    pub fn failed(status: ProbeStatus) -> (r: Self)
        ensures
            r == failed_endpoint(status),
    {
        Endpoint {
            status,
            ip: None,
            served: None,
            served_not_in_ct: false,
            negotiated: None,
            observed_at: None,
        }
    }
}

#[derive(Debug, Clone)]
pub struct Host {
    pub name: String,
    pub origins: Origins,
    pub resolves: Option<bool>,
    pub dns_status: Option<DnsStatus>,
    pub ct_refs: Vec<CertRef>,
    pub dns_refs: Vec<DnsRef>,
    pub endpoint: Option<Endpoint>,
    pub ports: Vec<PortScan>,
}

#[derive(Debug, Clone, Copy, PartialEq, Eq)]
pub enum ScanState {
    Open,
    Closed,
    Filtered,
}

#[derive(Debug, Clone)]
pub struct PortScan {
    pub port: u16,
    pub state: ScanState,
    pub served: Option<ServedCert>,
    pub negotiated: Option<Negotiated>,
    pub observed_at: Option<i64>,
}

#[derive(Debug, Clone)]
pub struct SrvRecord {
    pub service: String,
    pub fqdn: String,
    pub priority: u32,
    pub weight: u32,
    pub port: u16,
    pub target: String,
}

#[derive(Debug, Clone)]
pub struct MxRecord {
    pub priority: u32,
    pub target: String,
}

#[derive(Debug, Clone)]
pub struct HttpsRecord {
    pub rr_type: String,
    pub priority: u16,
    pub target: String,
    pub params: String,
}

#[derive(Debug, Clone, Copy)]
pub enum Provenance {
    Fresh,
    Cached { age_secs: u64 },
    Stale { age_secs: Option<u64> },
}

#[derive(Debug, Clone, Copy, Default)]
pub struct CtStats {
    /// Number of certificate records in the snapshot.
    pub rows: usize,
    /// Records currently valid (not_before <= now <= not_after).
    pub valid: usize,
    /// Records that are not valid yet.
    pub future: usize,
}

/// Everything known about a domain. `certs` is ordered by serial and
/// `hosts` by name, each without repeats.
#[derive(Debug)]
pub struct DomainState {
    pub domain: String,
    pub checked_at: i64,
    pub provenance: Provenance,
    pub ct_stats: CtStats,
    pub certs: Vec<Certificate>,
    pub hosts: Vec<Host>,
    pub srv: Vec<SrvRecord>,
    pub https: Vec<HttpsRecord>,
    pub mx: Vec<MxRecord>,
}

pub open spec fn cert_keys(certs: Seq<Certificate>) -> Seq<Seq<char>> {
    certs.map_values(|c: Certificate| c.serial@)
}

pub open spec fn host_keys(hosts: Seq<Host>) -> Seq<Seq<char>> {
    hosts.map_values(|h: Host| h.name@)
}

impl DomainState {
    /// One record per serial and one host per name, each in key order: what
    /// keyed maps of certificates and hosts hold.
    pub open spec fn keyed(self) -> bool {
        &&& sorted_strict(cert_keys(self.certs@))
        &&& sorted_strict(host_keys(self.hosts@))
    }
}

impl DomainState {
    pub fn host_names(&self) -> (r: Vec<String>)
        ensures
            views(r@) == host_keys(self.hosts@),
    {
        let mut r: Vec<String> = Vec::new();
        let mut i: usize = 0;
        while i < self.hosts.len()
            invariant
                i <= self.hosts.len(),
                r@.len() == i,
                views(r@) == host_keys(self.hosts@.subrange(0, i as int)),
            decreases self.hosts.len() - i,
        {
            let name = self.hosts[i].name.clone();
            assert(name@ == self.hosts@[i as int].name@);
            let ghost prev = r@;
            r.push(name);
            i = i + 1;
            assert forall|k: int| 0 <= k < i implies views(r@)[k] == host_keys(
                self.hosts@.subrange(0, i as int),
            )[k] by {
                assert(views(r@)[k] == r@[k]@);
                if k < i - 1 {
                    assert(r@[k] == prev[k]);
                    assert(views(prev)[k] == prev[k]@);
                    assert(host_keys(self.hosts@.subrange(0, i - 1))[k] == self.hosts@[k].name@);
                }
                assert(host_keys(self.hosts@.subrange(0, i as int))[k] == self.hosts@[k].name@);
            }
            assert(views(r@) =~= host_keys(self.hosts@.subrange(0, i as int)));
        }
        assert(self.hosts@.subrange(0, i as int) =~= self.hosts@);
        r
    }
}

// ---------------------------------------------------------------- canonical names

/// A hash name without its dashes, upper-cased: "sha-256" → "SHA256".
pub open spec fn hash_norm_spec(raw: Seq<char>) -> Seq<char> {
    without(upper_ascii(trim(raw)), '-')
}

fn hash_norm(raw: &str) -> (r: Vec<char>)
    ensures
        r@ == hash_norm_spec(raw@),
{
    let c = chars_of(raw);
    let t = trim_chars(&c);
    let u = upper(&t);
    remove_char(&u, '-')
}

/// The algorithm family of a key or signature algorithm name.
pub open spec fn alg_class(raw: Seq<char>) -> Seq<char> {
    let t = trim(raw);
    let l = lower_ascii(t);
    if has_sub(l, "ed25519"@) {
        "Ed25519"@
    } else if has_sub(l, "ed448"@) {
        "Ed448"@
    } else if "ml-dsa"@.is_prefix_of(l) || has_sub(l, "mldsa"@) {
        t
    } else if has_sub(l, "ecdsa"@) || has_sub(l, "ecpublickey"@) || l == "ec"@ {
        "ECDSA"@
    } else if has_sub(l, "rsa"@) {
        "RSA"@
    } else {
        t
    }
}

fn alg_class_chars(raw: &str) -> (r: Vec<char>)
    ensures
        r@ == alg_class(raw@),
{
    let c = chars_of(raw);
    let t = trim_chars(&c);
    let l = lower(&t);
    if contains_str(&l, "ed25519") {
        chars_of("Ed25519")
    } else if contains_str(&l, "ed448") {
        chars_of("Ed448")
    } else if crate::strs::starts_with_str(&l, "ml-dsa") || contains_str(&l, "mldsa") {
        t
    } else if contains_str(&l, "ecdsa") || contains_str(&l, "ecpublickey") || eq_str(&l, "ec") {
        chars_of("ECDSA")
    } else if contains_str(&l, "rsa") {
        chars_of("RSA")
    } else {
        t
    }
}

pub fn alg_class_of(raw: &str) -> (r: String)
    ensures
        r@ == alg_class(raw@),
{
    string_of(&alg_class_chars(raw))
}

pub open spec fn curve_name(size: i64) -> Option<Seq<char>> {
    if size == 256 {
        Some("P256"@)
    } else if size == 384 {
        Some("P384"@)
    } else if size == 521 {
        Some("P521"@)
    } else {
        None
    }
}

pub fn curve_from_key_size(size: i64) -> (r: Option<&'static str>)
    ensures
        opt_str(r) == curve_name(size),
{
    match size {
        256 => Some("P256"),
        384 => Some("P384"),
        521 => Some("P521"),
        _ => None,
    }
}

/// Bits read from a curve name such as "P256" or "p-384".
pub open spec fn curve_bits(curve: Option<Seq<char>>) -> Option<i64> {
    match curve {
        Some(c) => parse_i64(skip_curve_prefix(trim(c))),
        None => None,
    }
}

/// The canonical key name: "RSA-2048", "EC-256", "Ed25519", ...
pub open spec fn key_name(alg: Option<Seq<char>>, key_size: Option<i64>, curve: Option<Seq<char>>) -> Option<Seq<char>> {
    match alg {
        None => None,
        Some(a) => {
            let class = alg_class(a);
            if class == "ECDSA"@ {
                let bits = if key_size is Some {
                    key_size
                } else {
                    curve_bits(curve)
                };
                match bits {
                    Some(b) => Some("EC-"@ + dec_int(b as int)),
                    None => Some("EC"@),
                }
            } else {
                match key_size {
                    Some(b) => Some(class + "-"@ + dec_int(b as int)),
                    None => Some(class),
                }
            }
        },
    }
}

pub fn cert_key_name(alg: Option<&str>, key_size: Option<i64>, curve: Option<&str>) -> (r: Option<String>)
    ensures
        opt_string(r) == key_name(opt_str(alg), key_size, opt_str(curve)),
{
    let a = match alg {
        Some(a) => a,
        None => return None,
    };
    let class = alg_class_chars(a);
    let mut out: Vec<char> = Vec::new();
    if eq_str(&class, "ECDSA") {
        let bits = match key_size {
            Some(k) => Some(k),
            None => match curve {
                Some(c) => {
                    let cc = chars_of(c);
                    let t = trim_chars(&cc);
                    let body = skip_curve_prefix_chars(&t);
                    parse_i64_chars(&body)
                },
                None => None,
            },
        };
        match bits {
            Some(b) => {
                push_str(&mut out, "EC-");
                let d = dec_i64(b);
                push_all(&mut out, &d);
            },
            None => push_str(&mut out, "EC"),
        }
    } else {
        push_all(&mut out, &class);
        match key_size {
            Some(b) => {
                push_str(&mut out, "-");
                let d = dec_i64(b);
                push_all(&mut out, &d);
            },
            None => {},
        }
    }
    Some(string_of(&out))
}

/// The canonical certificate signature name: "RSA-SHA256", "ECDSA-P256", ...
pub open spec fn sig_name(class: Seq<char>, hash: Option<Seq<char>>, curve: Option<Seq<char>>) -> Seq<char> {
    let c = alg_class(class);
    if c == "RSA"@ {
        match hash {
            Some(h) => "RSA-"@ + hash_norm_spec(h),
            None => "RSA"@,
        }
    } else if c == "ECDSA"@ {
        match curve {
            Some(cv) => "ECDSA-"@ + cv,
            None => "ECDSA"@,
        }
    } else {
        c
    }
}

pub fn cert_signature_name(class: &str, hash: Option<&str>, curve: Option<&str>) -> (r: Option<String>)
    ensures
        opt_string(r) == Some(sig_name(class@, opt_str(hash), opt_str(curve))),
{
    let c = alg_class_chars(class);
    let mut out: Vec<char> = Vec::new();
    if eq_str(&c, "RSA") {
        match hash {
            Some(h) => {
                push_str(&mut out, "RSA-");
                let n = hash_norm(h);
                push_all(&mut out, &n);
            },
            None => push_str(&mut out, "RSA"),
        }
    } else if eq_str(&c, "ECDSA") {
        match curve {
            Some(cv) => {
                push_str(&mut out, "ECDSA-");
                push_str(&mut out, cv);
            },
            None => push_str(&mut out, "ECDSA"),
        }
    } else {
        push_all(&mut out, &c);
    }
    Some(string_of(&out))
}

pub open spec fn db_sig_name(
    key_algorithm: Option<Seq<char>>,
    key_size: Option<i64>,
    sig_key_algorithm: Option<Seq<char>>,
    sig_hash_algorithm: Option<Seq<char>>,
) -> Option<Seq<char>> {
    let class = if sig_key_algorithm is Some {
        sig_key_algorithm
    } else {
        key_algorithm
    };
    match class {
        None => None,
        Some(c) => {
            let curve = if alg_class(c) == "ECDSA"@ {
                match key_size {
                    Some(k) => curve_name(k),
                    None => None,
                }
            } else {
                None
            };
            Some(sig_name(c, sig_hash_algorithm, curve))
        },
    }
}

pub fn cert_signature_from_db(
    key_algorithm: Option<&str>,
    key_size: Option<i64>,
    sig_key_algorithm: Option<&str>,
    sig_hash_algorithm: Option<&str>,
) -> (r: Option<String>)
    ensures
        opt_string(r) == db_sig_name(
            opt_str(key_algorithm),
            key_size,
            opt_str(sig_key_algorithm),
            opt_str(sig_hash_algorithm),
        ),
{
    let class = match sig_key_algorithm {
        Some(c) => c,
        None => match key_algorithm {
            Some(c) => c,
            None => return None,
        },
    };
    let ac = alg_class_chars(class);
    let curve = if eq_str(&ac, "ECDSA") {
        match key_size {
            Some(k) => curve_from_key_size(k),
            None => None,
        }
    } else {
        None
    };
    cert_signature_name(class, sig_hash_algorithm, curve)
}

pub open spec fn port_service_name(port: u16) -> Seq<char> {
    if port == 25 || port == 587 {
        "SMTP"@
    } else if port == 465 {
        "SMTPS"@
    } else if port == 993 {
        "IMAPS"@
    } else if port == 995 {
        "POP3S"@
    } else if port == 636 {
        "LDAPS"@
    } else if port == 5061 {
        "SIPS"@
    } else if port == 8883 {
        "MQTTS"@
    } else if port == 5222 {
        "XMPP"@
    } else if port == 5223 {
        "XMPPS"@
    } else {
        "TLS"@
    }
}

pub fn port_service(port: u16) -> (r: &'static str)
    ensures
        r@ == port_service_name(port),
{
    match port {
        25 | 587 => "SMTP",
        465 => "SMTPS",
        993 => "IMAPS",
        995 => "POP3S",
        636 => "LDAPS",
        5061 => "SIPS",
        8883 => "MQTTS",
        5222 => "XMPP",
        5223 => "XMPPS",
        _ => "TLS",
    }
}

/// The symmetric cipher of a cipher suite name: "AES256-GCM", ...
pub open spec fn symmetric(cipher: Seq<char>) -> Option<Seq<char>> {
    let u = upper_ascii(cipher);
    if has_sub(u, "CHACHA20"@) {
        Some("CHACHA20-POLY1305"@)
    } else {
        let bits = if has_sub(u, "AES_128"@) {
            Some("AES128"@)
        } else if has_sub(u, "AES_256"@) {
            Some("AES256"@)
        } else {
            None
        };
        let mode = if has_sub(u, "GCM"@) {
            Some("GCM"@)
        } else if has_sub(u, "CBC"@) {
            Some("CBC"@)
        } else {
            None
        };
        match (bits, mode) {
            (Some(b), Some(m)) => Some(b + "-"@ + m),
            _ => None,
        }
    }
}

pub fn symmetric_name(cipher: &str) -> (r: Option<String>)
    ensures
        opt_string(r) == symmetric(cipher@),
{
    let c = chars_of(cipher);
    let u = upper(&c);
    if contains_str(&u, "CHACHA20") {
        return Some(own("CHACHA20-POLY1305"));
    }
    let bits = if contains_str(&u, "AES_128") {
        "AES128"
    } else if contains_str(&u, "AES_256") {
        "AES256"
    } else {
        return None;
    };
    let mode = if contains_str(&u, "GCM") {
        "GCM"
    } else if contains_str(&u, "CBC") {
        "CBC"
    } else {
        return None;
    };
    let mut out: Vec<char> = Vec::new();
    push_str(&mut out, bits);
    push_str(&mut out, "-");
    push_str(&mut out, mode);
    Some(string_of(&out))
}

} // verus!
