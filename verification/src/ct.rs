//! Certificate transparency records: crt.sh rows and certwatch database rows
//! grouped into one certificate record per serial number.

use vstd::prelude::*;

use crate::model::{
    cert_signature_from_db, db_sig_name,
    cert_keys, currently_valid, future_at, future_valid, valid_at, CertRef, Certificate,
    MatchKind,
};
use crate::strs::{
    clone_opt, opt_str, opt_string,
    insert_id, lemma_sorted_insert, sorted_ids,
    chars_of, eq_str, has_sub, insert_sorted, is_digit, lex_lt, lower_char, lower_of,
    lemma_lex_irrefl, lemma_lex_total, lemma_lex_trans, less, eq_chars, push_all, slice_chars,
    sorted_strict, starts_with, string_of, to_lowercase, trim, trim_chars, unicode_lower, views,
    ends_with,
};

verus! {

/// One row of the crt.sh JSON answer.
#[derive(Debug, Clone)]
pub struct CtRow {
    pub id: Option<u64>,
    pub common_name: Option<String>,
    pub name_value: Option<String>,
    pub not_before: Option<String>,
    pub not_after: Option<String>,
    pub serial_number: Option<String>,
}

/// One row of the certwatch database answer: one DNS name of a certificate.
#[derive(Debug, Clone)]
pub struct DbRow {
    pub cert_id: i64,
    pub serial: String,
    pub dns_name: Option<String>,
    pub common_name: Option<String>,
    pub not_before: Option<String>,
    pub not_after: Option<String>,
    pub key_algorithm: Option<String>,
    pub key_size: Option<i64>,
    pub sig_key_algorithm: Option<String>,
    pub sig_hash_algorithm: Option<String>,
    pub issuer_ca_name: Option<String>,
}

// ---------------------------------------------------------------- dates

/// Seconds since the epoch of an RFC 3339 timestamp, as chrono's
/// `DateTime::parse_from_rfc3339` reads it; `None` where it refuses the text.
pub uninterp spec fn rfc3339_seconds(s: Seq<char>) -> Option<i64>;

/// `chrono::DateTime::parse_from_rfc3339`, taken to its Unix timestamp.
#[verifier::external_body]
fn parse_rfc3339(s: &str) -> (r: Option<i64>)
    ensures
        r == rfc3339_seconds(s@),
{
    chrono::DateTime::parse_from_rfc3339(s).ok().map(|d| d.timestamp())
}

pub open spec fn sign_char(c: char) -> bool {
    c == '+' || c == '-'
}

/// Ends in an offset written `+HH:MM`.
pub open spec fn zone_colon(s: Seq<char>) -> bool {
    s.len() >= 6 && {
        let t = s.skip(s.len() - 6);
        sign_char(t[0]) && is_digit(t[1]) && is_digit(t[2]) && t[3] == ':' && is_digit(t[4])
            && is_digit(t[5])
    }
}

/// Ends in an offset written `+HHMM`.
pub open spec fn zone_compact(s: Seq<char>) -> bool {
    s.len() >= 5 && {
        let t = s.skip(s.len() - 5);
        sign_char(t[0]) && is_digit(t[1]) && is_digit(t[2]) && is_digit(t[3]) && is_digit(t[4])
    }
}

/// The timestamp text names its zone: `Z`, `z`, `+HH:MM` or `+HHMM`.
pub open spec fn has_zone(s: Seq<char>) -> bool {
    (s.len() > 0 && (s.last() == 'Z' || s.last() == 'z')) || zone_colon(s) || zone_compact(s)
}

/// `+HHMM` rewritten as `+HH:MM`; other text unchanged.
pub open spec fn normalize_zone_spec(s: Seq<char>) -> Seq<char> {
    if zone_compact(s) {
        s.take(s.len() - 5) + s.subrange(s.len() - 5, s.len() - 2) + seq![':'] + s.skip(
            s.len() - 2,
        )
    } else {
        s
    }
}

pub open spec fn space_to_t(s: Seq<char>) -> Seq<char> {
    s.map_values(|c: char| if c == ' ' { 'T' } else { c })
}

/// The RFC 3339 text handed to the parser for a crt.sh or database time:
/// trimmed, a space between date and time becomes `T`, and a missing zone
/// is UTC.
pub open spec fn ct_time_text(raw: Seq<char>) -> Option<Seq<char>> {
    let t = trim(raw);
    if t.len() == 0 {
        None
    } else {
        let w = space_to_t(t);
        Some(
            if has_zone(w) {
                normalize_zone_spec(w)
            } else {
                w.push('Z')
            },
        )
    }
}

pub open spec fn ctdate_spec(raw: Seq<char>) -> Option<i64> {
    match ct_time_text(raw) {
        Some(t) => rfc3339_seconds(t),
        None => None,
    }
}

fn digit_at(s: &Vec<char>, i: usize) -> (r: bool)
    requires
        i < s.len(),
    ensures
        r == is_digit(s@[i as int]),
{
    '0' <= s[i] && s[i] <= '9'
}

fn zone_compact_chars(s: &Vec<char>) -> (r: bool)
    ensures
        r == zone_compact(s@),
{
    let n = s.len();
    if n < 5 {
        return false;
    }
    let o = n - 5;
    (s[o] == '+' || s[o] == '-') && digit_at(s, o + 1) && digit_at(s, o + 2) && digit_at(s, o + 3)
        && digit_at(s, o + 4)
}

fn has_explicit_zone(s: &Vec<char>) -> (r: bool)
    ensures
        r == has_zone(s@),
{
    let n = s.len();
    if n > 0 && (s[n - 1] == 'Z' || s[n - 1] == 'z') {
        return true;
    }
    let colon = n >= 6 && {
        let o = n - 6;
        (s[o] == '+' || s[o] == '-') && digit_at(s, o + 1) && digit_at(s, o + 2) && s[o + 3]
            == ':' && digit_at(s, o + 4) && digit_at(s, o + 5)
    };
    colon || zone_compact_chars(s)
}

fn normalize_zone(s: Vec<char>) -> (r: Vec<char>)
    ensures
        r@ == normalize_zone_spec(s@),
{
    if zone_compact_chars(&s) {
        let n = s.len();
        let mut r = slice_chars(&s, 0, n - 2);
        r.push(':');
        let tail = slice_chars(&s, n - 2, n);
        push_all(&mut r, &tail);
        assert(r@ =~= normalize_zone_spec(s@));
        r
    } else {
        s
    }
}

/// The time of a crt.sh or certwatch timestamp. crt.sh writes no zone
/// ("2014-04-23T12:16:09"), the database a space ("2026-05-27 00:00:00");
/// both are UTC. Compact offsets (+0200) are accepted too.
pub fn ctdate(raw: &str) -> (r: Option<i64>)
    ensures
        r == ctdate_spec(raw@),
{
    let c = chars_of(raw);
    let t = trim_chars(&c);
    if t.len() == 0 {
        return None;
    }
    let mut w: Vec<char> = Vec::new();
    let mut i: usize = 0;
    while i < t.len()
        invariant
            i <= t.len(),
            w@ == space_to_t(t@.subrange(0, i as int)),
        decreases t.len() - i,
    {
        w.push(if t[i] == ' ' { 'T' } else { t[i] });
        i = i + 1;
        assert(w@ =~= space_to_t(t@.subrange(0, i as int)));
    }
    assert(t@.subrange(0, t.len() as int) =~= t@);
    let text = if has_explicit_zone(&w) {
        normalize_zone(w)
    } else {
        w.push('Z');
        w
    };
    let s = string_of(&text);
    parse_rfc3339(s.as_str())
}

// ---------------------------------------------------------------- names

/// `s[a..b]` is one of the pieces that splitting `s` at every newline gives.
pub open spec fn is_line(s: Seq<char>, a: int, b: int) -> bool {
    &&& 0 <= a <= b <= s.len()
    &&& (a == 0 || s[a - 1] == '\n')
    &&& (b == s.len() || s[b] == '\n')
    &&& forall|k: int| a <= k < b ==> s[k] != '\n'
}

pub open spec fn line_name(s: Seq<char>, a: int, b: int) -> Seq<char> {
    unicode_lower(trim(s.subrange(a, b)))
}

/// The names of a crt.sh `name_value`: every line, trimmed and lower-cased,
/// empty ones dropped.
pub open spec fn name_set(s: Seq<char>) -> Set<Seq<char>> {
    Set::new(
        |n: Seq<char>|
            n.len() > 0 && exists|a: int, b: int| is_line(s, a, b) && line_name(s, a, b) == n,
    )
}

proof fn lemma_line_unique(s: Seq<char>, a: int, b: int, a2: int, b2: int)
    requires
        is_line(s, a, b),
        is_line(s, a2, b2),
        a <= b2 <= b,
    ensures
        a2 == a,
        b2 == b,
{
    if b2 < b {
        assert(s[b2] == '\n');
    }
    if a2 < a {
        assert(s[a - 1] == '\n');
    }
    if a2 > a {
        assert(s[a2 - 1] == '\n');
    }
}

/// The names of the lines of `s` that end before `upto`.
pub open spec fn names_before(s: Seq<char>, upto: int) -> Set<Seq<char>> {
    Set::new(
        |n: Seq<char>|
            n.len() > 0 && exists|a: int, b: int|
                is_line(s, a, b) && b < upto && line_name(s, a, b) == n,
    )
}

fn add_line(out: &mut Vec<String>, s: &Vec<char>, a: usize, b: usize)
    requires
        is_line(s@, a as int, b as int),
        sorted_strict(views(old(out)@)),
        views(old(out)@).to_set() == names_before(s@, a as int),
    ensures
        sorted_strict(views(final(out)@)),
        views(final(out)@).to_set() == names_before(s@, b + 1),
{
    let piece = slice_chars(s, a, b);
    let t = trim_chars(&piece);
    let ts = string_of(&t);
    let name = to_lowercase(ts.as_str());
    assert(name@ == line_name(s@, a as int, b as int));
    let ghost old_set = views(out@).to_set();
    if !name.as_str().is_empty() {
        insert_sorted(out, name);
    }
    assert(views(out@).to_set() =~= names_before(s@, b + 1)) by {
        assert forall|n: Seq<char>| names_before(s@, b + 1).contains(n) implies views(
            out@,
        ).to_set().contains(n) by {
            let (a2, b2) = choose|a2: int, b2: int|
                is_line(s@, a2, b2) && b2 < b + 1 && line_name(s@, a2, b2) == n;
            if b2 >= a {
                lemma_line_unique(s@, a as int, b as int, a2, b2);
            } else {
                assert(old_set.contains(n));
            }
        }
        assert forall|n: Seq<char>| views(out@).to_set().contains(n) implies names_before(
            s@,
            b + 1,
        ).contains(n) by {
            if !old_set.contains(n) {
                assert(n == line_name(s@, a as int, b as int));
                assert(is_line(s@, a as int, b as int));
            } else {
                let (a2, b2) = choose|a2: int, b2: int|
                    is_line(s@, a2, b2) && b2 < a && line_name(s@, a2, b2) == n;
                assert(is_line(s@, a2, b2) && b2 < b + 1);
            }
        }
    }
}

/// The names of a line-separated name list, lower-cased, sorted and without
/// repeats.
pub fn names(name_value: &str) -> (r: Vec<String>)
    ensures
        sorted_strict(views(r@)),
        views(r@).to_set() == name_set(name_value@),
{
    let s = chars_of(name_value);
    let mut out: Vec<String> = Vec::new();
    let mut a: usize = 0;
    let mut i: usize = 0;
    assert(views(out@).to_set() =~= names_before(s@, 0)) by {
        assert forall|n: Seq<char>| !names_before(s@, 0).contains(n) by {
            if names_before(s@, 0).contains(n) {
                let (a2, b2) = choose|a2: int, b2: int|
                    is_line(s@, a2, b2) && b2 < 0 && line_name(s@, a2, b2) == n;
            }
        }
    }
    while i < s.len()
        invariant
            a <= i <= s.len(),
            a == 0 || s@[a - 1] == '\n',
            forall|k: int| a <= k < i ==> s@[k] != '\n',
            sorted_strict(views(out@)),
            views(out@).to_set() == names_before(s@, a as int),
        decreases s.len() - i,
    {
        if s[i] == '\n' {
            add_line(&mut out, &s, a, i);
            a = i + 1;
        }
        i = i + 1;
    }
    add_line(&mut out, &s, a, s.len());
    assert(views(out@).to_set() =~= name_set(name_value@)) by {
        assert forall|n: Seq<char>| name_set(name_value@).contains(n) implies names_before(
            s@,
            s.len() + 1,
        ).contains(n) by {
            let (a2, b2) = choose|a2: int, b2: int|
                is_line(s@, a2, b2) && line_name(s@, a2, b2) == n;
        }
    }
    out
}

// ---------------------------------------------------------------- coverage

pub open spec fn is_wildcard_name(name: Seq<char>) -> bool {
    "*."@.is_prefix_of(name)
}

pub fn is_wildcard(name: &str) -> (r: bool)
    ensures
        r == is_wildcard_name(name@),
{
    let c = chars_of(name);
    crate::strs::starts_with_str(&c, "*.")
}

/// Number of `c` in `s`.
pub open spec fn count_char(s: Seq<char>, c: char) -> nat
    decreases s.len(),
{
    if s.len() == 0 {
        0
    } else {
        count_char(s.drop_last(), c) + if s.last() == c {
            1nat
        } else {
            0nat
        }
    }
}

/// Number of dot-separated labels (`split('.').count()`).
pub open spec fn label_count(s: Seq<char>) -> nat {
    count_char(s, '.') + 1
}

fn count_dots(s: &Vec<char>) -> (r: usize)
    ensures
        r == count_char(s@, '.'),
{
    let mut n: usize = 0;
    let mut i: usize = 0;
    while i < s.len()
        invariant
            i <= s.len(),
            n == count_char(s@.subrange(0, i as int), '.'),
            n <= i,
        decreases s.len() - i,
    {
        assert(s@.subrange(0, i + 1).drop_last() =~= s@.subrange(0, i as int));
        if s[i] == '.' {
            n = n + 1;
        }
        i = i + 1;
    }
    assert(s@.subrange(0, s.len() as int) =~= s@);
    n
}

/// RFC 6125 single-label wildcard: `*.base` covers `x.base` for one
/// non-empty label `x` only, not `a.b.base`, not `.base` and not `base`.
pub open spec fn wildcard_covers(ident: Seq<char>, host: Seq<char>) -> bool {
    is_wildcard_name(ident) && {
        let base = ident.skip(2);
        &&& label_count(host) == label_count(base) + 1
        &&& (seq!['.'] + base).is_suffix_of(host)
        &&& host.len() > base.len() + 1
    }
}

pub open spec fn coverage_of(identities: Seq<Seq<char>>, host: Seq<char>) -> Option<MatchKind> {
    if identities.contains(host) {
        Some(MatchKind::Exact)
    } else if exists|i: int| 0 <= i < identities.len() && wildcard_covers(identities[i], host) {
        Some(MatchKind::Wildcard)
    } else {
        None
    }
}

fn covers(ident: &Vec<char>, host: &Vec<char>) -> (r: bool)
    ensures
        r == wildcard_covers(ident@, host@),
{
    if !crate::strs::starts_with_str(ident, "*.") {
        return false;
    }
    proof {
        reveal_strlit("*.");
    }
    let base = slice_chars(ident, 2, ident.len());
    assert(base@ =~= ident@.skip(2));
    let hl = count_dots(host);
    let bl = count_dots(&base);
    if hl == 0 || hl - 1 != bl || host.len() <= base.len() + 1 {
        return false;
    }
    let mut dotted: Vec<char> = Vec::new();
    dotted.push('.');
    push_all(&mut dotted, &base);
    assert(dotted@ =~= seq!['.'] + base@);
    ends_with(host, &dotted)
}

/// How a certificate with these identities covers `host`: an exact name
/// first, else a single-label wildcard.
pub fn coverage(identities: &[String], host: &str) -> (r: Option<MatchKind>)
    ensures
        r == coverage_of(views(identities@), host@),
{
    let h = chars_of(host);
    let mut i: usize = 0;
    while i < identities.len()
        invariant
            i <= identities.len(),
            h@ == host@,
            forall|k: int| 0 <= k < i ==> views(identities@)[k] != host@,
        decreases identities.len() - i,
    {
        let c = chars_of(identities[i].as_str());
        if eq_chars(&c, &h) {
            assert(views(identities@)[i as int] == host@);
            return Some(MatchKind::Exact);
        }
        i = i + 1;
    }
    assert(!views(identities@).contains(host@));
    let mut j: usize = 0;
    while j < identities.len()
        invariant
            j <= identities.len(),
            h@ == host@,
            !views(identities@).contains(host@),
            forall|k: int| 0 <= k < j ==> !wildcard_covers(#[trigger] views(identities@)[k], host@),
        decreases identities.len() - j,
    {
        let c = chars_of(identities[j].as_str());
        if covers(&c, &h) {
            assert(wildcard_covers(views(identities@)[j as int], host@));
            return Some(MatchKind::Wildcard);
        }
        j = j + 1;
    }
    None
}

// ---------------------------------------------------------------- serials

pub open spec fn is_hex(c: char) -> bool {
    ('0' <= c && c <= '9') || ('a' <= c && c <= 'f') || ('A' <= c && c <= 'F')
}

/// The hexadecimal digits of the text, lower-cased.
pub open spec fn hex_digits(s: Seq<char>) -> Seq<char>
    decreases s.len(),
{
    if s.len() == 0 {
        s
    } else if is_hex(s.last()) {
        hex_digits(s.drop_last()).push(lower_char(s.last()))
    } else {
        hex_digits(s.drop_last())
    }
}

pub open spec fn skip_zeros(s: Seq<char>) -> Seq<char>
    decreases s.len(),
{
    if s.len() > 0 && s[0] == '0' {
        skip_zeros(s.drop_first())
    } else {
        s
    }
}

/// A serial number in one canonical form: lower-case hex digits only,
/// without leading zeros, "0" for zero.
pub open spec fn serial_norm_spec(raw: Seq<char>) -> Seq<char> {
    let t = skip_zeros(hex_digits(raw));
    if t.len() == 0 {
        "0"@
    } else {
        t
    }
}

pub fn serial_norm_chars(raw: &Vec<char>) -> (r: Vec<char>)
    ensures
        r@ == serial_norm_spec(raw@),
{
    let mut hex: Vec<char> = Vec::new();
    let mut i: usize = 0;
    while i < raw.len()
        invariant
            i <= raw.len(),
            hex@ == hex_digits(raw@.subrange(0, i as int)),
        decreases raw.len() - i,
    {
        assert(raw@.subrange(0, i + 1).drop_last() =~= raw@.subrange(0, i as int));
        let c = raw[i];
        if ('0' <= c && c <= '9') || ('a' <= c && c <= 'f') || ('A' <= c && c <= 'F') {
            hex.push(lower_of(c));
        }
        i = i + 1;
    }
    assert(raw@.subrange(0, raw.len() as int) =~= raw@);
    let mut z: usize = 0;
    assert(hex@.skip(0) =~= hex@);
    while z < hex.len() && hex[z] == '0'
        invariant
            z <= hex.len(),
            skip_zeros(hex@) == skip_zeros(hex@.skip(z as int)),
        decreases hex.len() - z,
    {
        assert(hex@.skip(z as int).drop_first() =~= hex@.skip(z + 1));
        z = z + 1;
    }
    let t = slice_chars(&hex, z, hex.len());
    assert(t@ =~= hex@.skip(z as int));
    if t.len() == 0 {
        chars_of("0")
    } else {
        t
    }
}

pub fn serial_norm(raw: &str) -> (r: String)
    ensures
        r@ == serial_norm_spec(raw@),
{
    let c = chars_of(raw);
    string_of(&serial_norm_chars(&c))
}

// ---------------------------------------------------------------- records

pub open spec fn time_of(t: Option<String>) -> Option<i64> {
    match t {
        Some(s) => ctdate_spec(s@),
        None => None,
    }
}

pub open spec fn row_key(r: CtRow) -> Option<Seq<char>> {
    match r.serial_number {
        Some(s) => Some(serial_norm_spec(s@)),
        None => None,
    }
}

pub open spec fn row_valid(r: CtRow, now: i64) -> bool {
    valid_at(time_of(r.not_before), time_of(r.not_after), now)
}

/// A crt.sh row is kept when its certificate is valid or not valid yet at
/// `now`, and it has a serial number other than zero.
pub open spec fn row_kept(r: CtRow, now: i64) -> bool {
    &&& row_valid(r, now) || future_at(time_of(r.not_before), now)
    &&& row_key(r) is Some
    &&& row_key(r)->0 != "0"@
}

pub open spec fn in_group(r: CtRow, now: i64, k: Seq<char>) -> bool {
    row_kept(r, now) && row_key(r) == Some(k)
}

/// The kept rows of serial `k`, in their order.
pub open spec fn group(rows: Seq<CtRow>, now: i64, k: Seq<char>) -> Seq<CtRow> {
    rows.filter(|r: CtRow| in_group(r, now, k))
}

/// The first common name that any of the rows gives.
pub open spec fn first_cn(g: Seq<CtRow>) -> Option<String> {
    let named = g.filter(|r: CtRow| r.common_name is Some);
    if named.len() > 0 {
        named[0].common_name
    } else {
        None
    }
}

pub open spec fn ids_of(g: Seq<CtRow>) -> Set<u64> {
    Set::new(|id: u64| exists|j: int| 0 <= j < g.len() && g[j].id == Some(id))
}

pub open spec fn any_valid(g: Seq<CtRow>, now: i64) -> bool {
    exists|j: int| 0 <= j < g.len() && row_valid(g[j], now)
}

pub open spec fn row_names(r: CtRow) -> Set<Seq<char>> {
    match r.name_value {
        Some(nv) => name_set(nv@),
        None => Set::empty(),
    }
}

/// `c` is the record the crt.sh rows give for its serial: dates and names
/// of the first kept row, the first common name any of them gives, all
/// their log ids, and valid when any of them is valid at `now`.
pub open spec fn ct_record(rows: Seq<CtRow>, now: i64, c: Certificate) -> bool {
    let g = group(rows, now, c.serial@);
    &&& g.len() > 0
    &&& c.in_ct
    &&& !c.served_live
    &&& c.currently_valid == any_valid(g, now)
    &&& c.common_name == first_cn(g)
    &&& sorted_strict(views(c.identities@))
    &&& views(c.identities@).to_set() == row_names(g[0])
    &&& c.not_before == time_of(g[0].not_before)
    &&& c.not_after == time_of(g[0].not_after)
    &&& sorted_ids(c.ct_ids@)
    &&& c.ct_ids@.to_set() == ids_of(g)
    &&& c.pubkey_alg is None
    &&& c.sig_alg is None
    &&& c.issuer is None
    &&& c.key_algorithm is None
    &&& c.key_size is None
    &&& c.sig_key_algorithm is None
    &&& c.sig_hash_algorithm is None
    &&& c.cert_signature is None
    &&& c.chain@.len() == 0
}

proof fn lemma_group_push(rows: Seq<CtRow>, r: CtRow, now: i64, k: Seq<char>)
    ensures
        group(rows.push(r), now, k) == if in_group(r, now, k) {
            group(rows, now, k).push(r)
        } else {
            group(rows, now, k)
        },
{
    rows.lemma_filter_push(r, |x: CtRow| in_group(x, now, k));
}

proof fn lemma_first_cn_push(g: Seq<CtRow>, r: CtRow)
    ensures
        first_cn(g.push(r)) == if first_cn(g) is Some {
            first_cn(g)
        } else {
            r.common_name
        },
{
    g.lemma_filter_push(r, |x: CtRow| x.common_name is Some);
    let named = g.filter(|x: CtRow| x.common_name is Some);
    if named.len() > 0 {
        g.lemma_filter_pred(|x: CtRow| x.common_name is Some, 0);
    }
}

/// Position of serial `key` in a list ordered by serial: `(true, p)` where
/// it stands, else `(false, p)` where it would go.
pub fn find_serial(certs: &Vec<Certificate>, key: &Vec<char>) -> (r: (bool, usize))
    requires
        sorted_strict(cert_keys(certs@)),
    ensures
        r.1 <= certs.len(),
        r.0 ==> r.1 < certs.len() && certs@[r.1 as int].serial@ == key@,
        !r.0 ==> !cert_keys(certs@).contains(key@),
        !r.0 ==> forall|q: int| 0 <= q < r.1 ==> lex_lt(#[trigger] cert_keys(certs@)[q], key@),
        !r.0 ==> forall|q: int|
            r.1 <= q < certs.len() ==> lex_lt(key@, #[trigger] cert_keys(certs@)[q]),
{
    let ghost keys = cert_keys(certs@);
    let mut p: usize = 0;
    while p < certs.len() && less(&chars_of(certs[p].serial.as_str()), key)
        invariant
            p <= certs.len(),
            keys == cert_keys(certs@),
            forall|q: int| 0 <= q < p ==> lex_lt(#[trigger] keys[q], key@),
        decreases certs.len() - p,
    {
        p = p + 1;
    }
    if p < certs.len() && eq_chars(&chars_of(certs[p].serial.as_str()), key) {
        return (true, p);
    }
    proof {
        if p < certs.len() {
            lemma_lex_total(keys[p as int], key@);
            assert(lex_lt(key@, keys[p as int]));
        }
        assert forall|q: int| p <= q < certs.len() implies lex_lt(key@, #[trigger] keys[q]) by {
            if q > p {
                lemma_lex_trans(key@, keys[p as int], keys[q]);
            }
        }
        assert forall|q: int| 0 <= q < keys.len() implies #[trigger] keys[q] != key@ by {
            if q < p {
                lemma_lex_irrefl(key@);
            } else {
                lemma_lex_irrefl(key@);
            }
        }
    }
    (false, p)
}

proof fn lemma_cert_keys_update(certs: Seq<Certificate>, p: int, c: Certificate)
    requires
        0 <= p < certs.len(),
        c.serial@ == certs[p].serial@,
    ensures
        cert_keys(certs.update(p, c)) == cert_keys(certs),
{
    assert(cert_keys(certs.update(p, c)) =~= cert_keys(certs));
}

proof fn lemma_cert_keys_insert(certs: Seq<Certificate>, p: int, c: Certificate)
    requires
        0 <= p <= certs.len(),
    ensures
        cert_keys(certs.insert(p, c)) == cert_keys(certs).insert(p, c.serial@),
{
    assert(cert_keys(certs.insert(p, c)) =~= cert_keys(certs).insert(p, c.serial@));
}

fn time_of_field(t: &Option<String>) -> (r: Option<i64>)
    ensures
        r == time_of(*t),
{
    match t {
        Some(s) => ctdate(s.as_str()),
        None => None,
    }
}

/// One record per serial number from crt.sh rows, ordered by serial. Rows
/// of certificates expired at `now` and rows without a usable serial are
/// left out.
pub fn certificates(rows: &[CtRow], now: i64) -> (r: Vec<Certificate>)
    ensures
        sorted_strict(cert_keys(r@)),
        forall|i: int| 0 <= i < r@.len() ==> ct_record(rows@, now, #[trigger] r@[i]),
        forall|j: int|
            0 <= j < rows@.len() && row_kept(#[trigger] rows@[j], now) ==> cert_keys(
                r@,
            ).contains(row_key(rows@[j])->0),
{
    let mut certs: Vec<Certificate> = Vec::new();
    let mut i: usize = 0;
    assert(cert_keys(certs@) =~= Seq::<Seq<char>>::empty());
    while i < rows.len()
        invariant
            i <= rows.len(),
            sorted_strict(cert_keys(certs@)),
            forall|q: int|
                0 <= q < certs@.len() ==> ct_record(
                    rows@.subrange(0, i as int),
                    now,
                    #[trigger] certs@[q],
                ),
            forall|k: Seq<char>|
                group(rows@.subrange(0, i as int), now, k).len() > 0 <==> #[trigger] cert_keys(
                    certs@,
                ).contains(k),
        decreases rows.len() - i,
    {
        let row = &rows[i];
        let ghost done = rows@.subrange(0, i as int);
        let ghost next = rows@.subrange(0, i + 1);
        assert(next =~= done.push(*row));
        let nb = time_of_field(&row.not_before);
        let na = time_of_field(&row.not_after);
        let valid = currently_valid(nb, na, now);
        let future = future_valid(nb, now);
        let mut kept = valid || future;
        let mut key: Vec<char> = Vec::new();
        if kept {
            match &row.serial_number {
                Some(raw) => {
                    let rc = chars_of(raw.as_str());
                    key = serial_norm_chars(&rc);
                    if eq_str(&key, "0") {
                        kept = false;
                    }
                },
                None => {
                    kept = false;
                },
            }
        }
        assert(kept == row_kept(*row, now));
        if !kept {
            proof {
                assert forall|k: Seq<char>| group(next, now, k) == group(done, now, k) by {
                    lemma_group_push(done, *row, now, k);
                }
                assert forall|q: int| 0 <= q < certs@.len() implies ct_record(
                    next,
                    now,
                    #[trigger] certs@[q],
                ) by {
                    assert(group(next, now, certs@[q].serial@) == group(
                        done,
                        now,
                        certs@[q].serial@,
                    ));
                }
            }
            i = i + 1;
            continue;
        }
        assert(key@ == row_key(*row)->0);
        let ghost k = key@;
        proof {
            assert forall|k2: Seq<char>| k2 != k implies group(next, now, k2) == group(
                done,
                now,
                k2,
            ) by {
                lemma_group_push(done, *row, now, k2);
            }
            lemma_group_push(done, *row, now, k);
            assert(group(next, now, k) == group(done, now, k).push(*row));
        }
        let (found, p) = find_serial(&certs, &key);
        if found {
            let ghost before = certs@;
            let mut c = certs.remove(p);
            assert(c == before[p as int]);
            let ghost g = group(done, now, k);
            assert(ct_record(done, now, c));
            match row.id {
                Some(id) => insert_id(&mut c.ct_ids, id),
                None => {},
            }
            if valid {
                c.currently_valid = true;
            }
            if c.common_name.is_none() {
                c.common_name = clone_opt(&row.common_name);
            }
            certs.insert(p, c);
            proof {
                assert(certs@ =~= before.update(p as int, c));
                lemma_cert_keys_update(before, p as int, c);
                let g2 = g.push(*row);
                assert(group(next, now, k) == g2);
                assert(g2[0] == g[0]);
                lemma_first_cn_push(g, *row);
                assert(ids_of(g2) =~= (match row.id {
                    Some(id) => ids_of(g).insert(id),
                    None => ids_of(g),
                })) by {
                    assert forall|id: u64| ids_of(g2).contains(id) implies (match row.id {
                        Some(x) => ids_of(g).insert(x),
                        None => ids_of(g),
                    }).contains(id) by {
                        let j = choose|j: int| 0 <= j < g2.len() && g2[j].id == Some(id);
                        if j < g.len() {
                            assert(g2[j] == g[j]);
                        }
                    }
                    assert forall|id: u64| (match row.id {
                        Some(x) => ids_of(g).insert(x),
                        None => ids_of(g),
                    }).contains(id) implies ids_of(g2).contains(id) by {
                        if row.id == Some(id) {
                            assert(g2[g.len() as int] == *row);
                        } else {
                            let j = choose|j: int| 0 <= j < g.len() && g[j].id == Some(id);
                            assert(g2[j] == g[j]);
                        }
                    }
                }
                assert(any_valid(g2, now) == (any_valid(g, now) || valid)) by {
                    if any_valid(g, now) {
                        let j = choose|j: int| 0 <= j < g.len() && row_valid(g[j], now);
                        assert(g2[j] == g[j]);
                    }
                    if valid {
                        assert(g2[g.len() as int] == *row);
                    }
                    if any_valid(g2, now) {
                        let j = choose|j: int| 0 <= j < g2.len() && row_valid(g2[j], now);
                        if j < g.len() {
                            assert(g2[j] == g[j]);
                        }
                    }
                }
                assert(ct_record(next, now, c));
                assert forall|q: int| 0 <= q < certs@.len() implies ct_record(
                    next,
                    now,
                    #[trigger] certs@[q],
                ) by {
                    if q != p {
                        assert(certs@[q] == before[q]);
                        assert(cert_keys(before)[q] != cert_keys(before)[p as int]) by {
                            lemma_lex_irrefl(cert_keys(before)[q]);
                        }
                        assert(group(next, now, certs@[q].serial@) == group(
                            done,
                            now,
                            certs@[q].serial@,
                        ));
                    }
                }
                assert forall|k2: Seq<char>|
                    group(next, now, k2).len() > 0 <==> #[trigger] cert_keys(certs@).contains(
                        k2,
                    ) by {
                    if k2 == k {
                        assert(cert_keys(before)[p as int] == k);
                    }
                }
            }
        } else {
            let identities = match &row.name_value {
                Some(nv) => names(nv.as_str()),
                None => Vec::new(),
            };
            let mut ids: Vec<u64> = Vec::new();
            match row.id {
                Some(id) => ids.push(id),
                None => {},
            }
            let c = Certificate {
                serial: string_of(&key),
                in_ct: true,
                served_live: false,
                currently_valid: valid,
                ct_ids: ids,
                common_name: clone_opt(&row.common_name),
                identities,
                not_before: nb,
                not_after: na,
                pubkey_alg: None,
                sig_alg: None,
                issuer: None,
                key_algorithm: None,
                key_size: None,
                sig_key_algorithm: None,
                sig_hash_algorithm: None,
                cert_signature: None,
                chain: Vec::new(),
            };
            let ghost before = certs@;
            proof {
                assert(group(done, now, k).len() == 0);
                let g2 = group(next, now, k);
                assert(g2 =~= seq![*row]);
                assert(ids_of(g2) =~= c.ct_ids@.to_set()) by {
                    assert forall|id: u64| ids_of(g2).contains(id) implies c.ct_ids@.to_set().contains(id) by {
                        assert(g2[0] == *row);
                        assert(c.ct_ids@[0] == id);
                    }
                    assert forall|id: u64| c.ct_ids@.to_set().contains(id) implies ids_of(g2).contains(id) by {
                        assert(g2[0] == *row);
                    }
                }
                g2.lemma_filter_push(*row, |x: CtRow| x.common_name is Some);
                assert(g2 =~= Seq::<CtRow>::empty().push(*row));
                Seq::<CtRow>::empty().lemma_filter_push(*row, |x: CtRow| x.common_name is Some);
                reveal(Seq::filter);
                assert(Seq::<CtRow>::empty().filter(|x: CtRow| x.common_name is Some).len() == 0);
                assert(first_cn(g2) == row.common_name);
                assert(any_valid(g2, now) == valid) by {
                    if valid {
                        assert(g2[0] == *row);
                    }
                }
                assert(g2[0] == *row);
                assert(c.serial@ == k);
                assert(views(c.identities@).to_set() =~= row_names(g2[0]));
                assert(sorted_strict(views(c.identities@)));
                assert(sorted_ids(c.ct_ids@));
                assert(c.not_before == time_of(g2[0].not_before));
                assert(ct_record(next, now, c));
            }
            certs.insert(p, c);
            proof {
                lemma_cert_keys_insert(before, p as int, c);
                lemma_sorted_insert(cert_keys(before), p as int, k);
                assert forall|q: int| 0 <= q < certs@.len() implies ct_record(
                    next,
                    now,
                    #[trigger] certs@[q],
                ) by {
                    if q < p {
                        assert(certs@[q] == before[q]);
                        assert(cert_keys(before)[q] != k) by {
                            lemma_lex_irrefl(k);
                        }
                        assert(group(next, now, certs@[q].serial@) == group(
                            done,
                            now,
                            certs@[q].serial@,
                        ));
                    } else if q > p {
                        assert(certs@[q] == before[q - 1]);
                        assert(cert_keys(before)[q - 1] != k) by {
                            lemma_lex_irrefl(k);
                        }
                        assert(group(next, now, certs@[q].serial@) == group(
                            done,
                            now,
                            certs@[q].serial@,
                        ));
                    }
                }
                assert forall|k2: Seq<char>|
                    group(next, now, k2).len() > 0 <==> #[trigger] cert_keys(certs@).contains(
                        k2,
                    ) by {
                    if k2 == k {
                        assert(cert_keys(certs@)[p as int] == k);
                    } else {
                        if cert_keys(certs@).contains(k2) {
                            let q = choose|q: int|
                                0 <= q < cert_keys(certs@).len() && cert_keys(certs@)[q] == k2;
                            if q < p {
                                assert(cert_keys(before)[q] == k2);
                            } else {
                                assert(cert_keys(before)[q - 1] == k2);
                            }
                        }
                        if cert_keys(before).contains(k2) {
                            let q = choose|q: int|
                                0 <= q < cert_keys(before).len() && cert_keys(before)[q] == k2;
                            if q < p {
                                assert(cert_keys(certs@)[q] == k2);
                            } else {
                                assert(cert_keys(certs@)[q + 1] == k2);
                            }
                        }
                    }
                }
            }
        }
        i = i + 1;
    }
    proof {
        assert(rows@.subrange(0, i as int) =~= rows@);
        assert forall|j: int|
            0 <= j < rows@.len() && row_kept(#[trigger] rows@[j], now) implies cert_keys(
            certs@,
        ).contains(row_key(rows@[j])->0) by {
            let k = row_key(rows@[j])->0;
            rows@.lemma_filter_contains(|r: CtRow| in_group(r, now, k), j);
        }
    }
    certs
}

// ---------------------------------------------------------------- database records

/// The name a database row contributes: its DNS name trimmed and
/// lower-cased, when that is not empty.
pub open spec fn db_name(r: DbRow) -> Option<Seq<char>> {
    match r.dns_name {
        Some(n) => if trim(n@).len() > 0 {
            Some(unicode_lower(trim(n@)))
        } else {
            None
        },
        None => None,
    }
}

pub open spec fn db_key(r: DbRow) -> Seq<char> {
    serial_norm_spec(r.serial@)
}

pub open spec fn db_valid(r: DbRow, now: i64) -> bool {
    valid_at(time_of(r.not_before), time_of(r.not_after), now)
}

/// A database row is kept when its certificate is valid or not valid yet
/// at `now`, its serial is not zero and it names a host.
pub open spec fn db_kept(r: DbRow, now: i64) -> bool {
    &&& db_valid(r, now) || future_at(time_of(r.not_before), now)
    &&& db_key(r) != "0"@
    &&& db_name(r) is Some
}

pub open spec fn in_db_group(r: DbRow, now: i64, k: Seq<char>) -> bool {
    db_kept(r, now) && db_key(r) == k
}

pub open spec fn db_group(rows: Seq<DbRow>, now: i64, k: Seq<char>) -> Seq<DbRow> {
    rows.filter(|r: DbRow| in_db_group(r, now, k))
}

pub open spec fn db_first_cn(g: Seq<DbRow>) -> Option<String> {
    let named = g.filter(|r: DbRow| r.common_name is Some);
    if named.len() > 0 {
        named[0].common_name
    } else {
        None
    }
}

pub open spec fn db_ids(g: Seq<DbRow>) -> Set<u64> {
    Set::new(|id: u64| exists|j: int| 0 <= j < g.len() && g[j].cert_id as u64 == id)
}

pub open spec fn db_names(g: Seq<DbRow>) -> Set<Seq<char>> {
    Set::new(|n: Seq<char>| exists|j: int| 0 <= j < g.len() && db_name(g[j]) == Some(n))
}

pub open spec fn db_any_valid(g: Seq<DbRow>, now: i64) -> bool {
    exists|j: int| 0 <= j < g.len() && db_valid(g[j], now)
}

/// `c` is the record the database rows give for its serial: one name per
/// row, dates and key facts of the first kept row, the first common name any
/// of them gives, all their certificate ids, and valid when any of them is.
pub open spec fn db_record(rows: Seq<DbRow>, now: i64, c: Certificate) -> bool {
    let g = db_group(rows, now, c.serial@);
    &&& g.len() > 0
    &&& c.in_ct
    &&& !c.served_live
    &&& c.currently_valid == db_any_valid(g, now)
    &&& c.common_name == db_first_cn(g)
    &&& sorted_strict(views(c.identities@))
    &&& views(c.identities@).to_set() == db_names(g)
    &&& c.not_before == time_of(g[0].not_before)
    &&& c.not_after == time_of(g[0].not_after)
    &&& sorted_ids(c.ct_ids@)
    &&& c.ct_ids@.to_set() == db_ids(g)
    &&& c.issuer == g[0].issuer_ca_name
    &&& c.key_algorithm == g[0].key_algorithm
    &&& c.key_size == g[0].key_size
    &&& c.sig_key_algorithm == g[0].sig_key_algorithm
    &&& c.sig_hash_algorithm == g[0].sig_hash_algorithm
    &&& opt_string(c.cert_signature) == db_sig_name(
        opt_string(g[0].key_algorithm),
        g[0].key_size,
        opt_string(g[0].sig_key_algorithm),
        opt_string(g[0].sig_hash_algorithm),
    )
    &&& c.pubkey_alg is None
    &&& c.sig_alg is None
    &&& c.chain@.len() == 0
}

proof fn lemma_db_group_push(rows: Seq<DbRow>, r: DbRow, now: i64, k: Seq<char>)
    ensures
        db_group(rows.push(r), now, k) == if in_db_group(r, now, k) {
            db_group(rows, now, k).push(r)
        } else {
            db_group(rows, now, k)
        },
{
    rows.lemma_filter_push(r, |x: DbRow| in_db_group(x, now, k));
}

proof fn lemma_db_first_cn_push(g: Seq<DbRow>, r: DbRow)
    ensures
        db_first_cn(g.push(r)) == if db_first_cn(g) is Some {
            db_first_cn(g)
        } else {
            r.common_name
        },
{
    g.lemma_filter_push(r, |x: DbRow| x.common_name is Some);
    let named = g.filter(|x: DbRow| x.common_name is Some);
    if named.len() > 0 {
        g.lemma_filter_pred(|x: DbRow| x.common_name is Some, 0);
    }
}

pub fn opt_as_str(o: &Option<String>) -> (r: Option<&str>)
    ensures
        opt_str(r) == opt_string(*o),
{
    match o {
        Some(s) => Some(s.as_str()),
        None => None,
    }
}

/// The name of a database row, when it has one.
fn db_name_of(r: &DbRow) -> (n: Option<String>)
    ensures
        opt_string(n) == db_name(*r),
{
    match &r.dns_name {
        Some(d) => {
            let c = chars_of(d.as_str());
            let t = trim_chars(&c);
            if t.len() == 0 {
                None
            } else {
                let ts = string_of(&t);
                Some(to_lowercase(ts.as_str()))
            }
        },
        None => None,
    }
}

/// One record per serial number from certwatch rows (one row per name of a
/// certificate), ordered by serial. Expired certificates, zero serials and
/// rows without a name are left out.
pub fn certificates_from_db(rows: &[DbRow], now: i64) -> (r: Vec<Certificate>)
    ensures
        sorted_strict(cert_keys(r@)),
        forall|i: int| 0 <= i < r@.len() ==> db_record(rows@, now, #[trigger] r@[i]),
        forall|j: int|
            0 <= j < rows@.len() && db_kept(#[trigger] rows@[j], now) ==> cert_keys(
                r@,
            ).contains(db_key(rows@[j])),
{
    let mut certs: Vec<Certificate> = Vec::new();
    let mut i: usize = 0;
    assert(cert_keys(certs@) =~= Seq::<Seq<char>>::empty());
    while i < rows.len()
        invariant
            i <= rows.len(),
            sorted_strict(cert_keys(certs@)),
            forall|q: int|
                0 <= q < certs@.len() ==> db_record(
                    rows@.subrange(0, i as int),
                    now,
                    #[trigger] certs@[q],
                ),
            forall|k: Seq<char>|
                db_group(rows@.subrange(0, i as int), now, k).len() > 0
                    <==> #[trigger] cert_keys(certs@).contains(k),
        decreases rows.len() - i,
    {
        let row = &rows[i];
        let ghost done = rows@.subrange(0, i as int);
        let ghost next = rows@.subrange(0, i + 1);
        assert(next =~= done.push(*row));
        let nb = time_of_field(&row.not_before);
        let na = time_of_field(&row.not_after);
        let valid = currently_valid(nb, na, now);
        let future = future_valid(nb, now);
        let rc = chars_of(row.serial.as_str());
        let key = serial_norm_chars(&rc);
        let name = db_name_of(row);
        let kept = (valid || future) && !eq_str(&key, "0") && name.is_some();
        assert(kept == db_kept(*row, now));
        if !kept {
            proof {
                assert forall|k: Seq<char>| db_group(next, now, k) == db_group(done, now, k) by {
                    lemma_db_group_push(done, *row, now, k);
                }
                assert forall|q: int| 0 <= q < certs@.len() implies db_record(
                    next,
                    now,
                    #[trigger] certs@[q],
                ) by {
                    assert(db_group(next, now, certs@[q].serial@) == db_group(
                        done,
                        now,
                        certs@[q].serial@,
                    ));
                }
            }
            i = i + 1;
            continue;
        }
        let name = match name {
            Some(n) => n,
            None => {
                i = i + 1;
                continue;
            },
        };
        let ghost k = key@;
        proof {
            assert forall|k2: Seq<char>| k2 != k implies db_group(next, now, k2) == db_group(
                done,
                now,
                k2,
            ) by {
                lemma_db_group_push(done, *row, now, k2);
            }
            lemma_db_group_push(done, *row, now, k);
        }
        let (found, p) = find_serial(&certs, &key);
        if found {
            let ghost before = certs@;
            let mut c = certs.remove(p);
            assert(c == before[p as int]);
            let ghost g = db_group(done, now, k);
            assert(db_record(done, now, c));
            insert_id(&mut c.ct_ids, row.cert_id as u64);
            insert_sorted(&mut c.identities, name);
            if valid {
                c.currently_valid = true;
            }
            if c.common_name.is_none() {
                c.common_name = clone_opt(&row.common_name);
            }
            certs.insert(p, c);
            proof {
                assert(certs@ =~= before.update(p as int, c));
                lemma_cert_keys_update(before, p as int, c);
                let g2 = g.push(*row);
                assert(db_group(next, now, k) == g2);
                assert(g2[0] == g[0]);
                lemma_db_first_cn_push(g, *row);
                assert(db_ids(g2) =~= db_ids(g).insert(row.cert_id as u64)) by {
                    assert forall|id: u64| db_ids(g2).contains(id) implies db_ids(g).insert(
                        row.cert_id as u64,
                    ).contains(id) by {
                        let j = choose|j: int| 0 <= j < g2.len() && g2[j].cert_id as u64 == id;
                        if j < g.len() {
                            assert(g2[j] == g[j]);
                        }
                    }
                    assert forall|id: u64| db_ids(g).insert(row.cert_id as u64).contains(
                        id,
                    ) implies db_ids(g2).contains(id) by {
                        if row.cert_id as u64 == id {
                            assert(g2[g.len() as int] == *row);
                        } else {
                            let j = choose|j: int| 0 <= j < g.len() && g[j].cert_id as u64 == id;
                            assert(g2[j] == g[j]);
                        }
                    }
                }
                assert(db_names(g2) =~= db_names(g).insert(db_name(*row)->0)) by {
                    assert forall|n: Seq<char>| db_names(g2).contains(n) implies db_names(g).insert(
                        db_name(*row)->0,
                    ).contains(n) by {
                        let j = choose|j: int| 0 <= j < g2.len() && db_name(g2[j]) == Some(n);
                        if j < g.len() {
                            assert(g2[j] == g[j]);
                        }
                    }
                    assert forall|n: Seq<char>| db_names(g).insert(db_name(*row)->0).contains(
                        n,
                    ) implies db_names(g2).contains(n) by {
                        if db_name(*row) == Some(n) {
                            assert(g2[g.len() as int] == *row);
                        } else {
                            let j = choose|j: int| 0 <= j < g.len() && db_name(g[j]) == Some(n);
                            assert(g2[j] == g[j]);
                        }
                    }
                }
                assert(db_any_valid(g2, now) == (db_any_valid(g, now) || valid)) by {
                    if db_any_valid(g, now) {
                        let j = choose|j: int| 0 <= j < g.len() && db_valid(g[j], now);
                        assert(g2[j] == g[j]);
                    }
                    if valid {
                        assert(g2[g.len() as int] == *row);
                    }
                    if db_any_valid(g2, now) {
                        let j = choose|j: int| 0 <= j < g2.len() && db_valid(g2[j], now);
                        if j < g.len() {
                            assert(g2[j] == g[j]);
                        }
                    }
                }
                assert(db_record(next, now, c));
                assert forall|q: int| 0 <= q < certs@.len() implies db_record(
                    next,
                    now,
                    #[trigger] certs@[q],
                ) by {
                    if q != p {
                        assert(certs@[q] == before[q]);
                        assert(cert_keys(before)[q] != cert_keys(before)[p as int]) by {
                            lemma_lex_irrefl(cert_keys(before)[q]);
                        }
                        assert(db_group(next, now, certs@[q].serial@) == db_group(
                            done,
                            now,
                            certs@[q].serial@,
                        ));
                    }
                }
                assert forall|k2: Seq<char>|
                    db_group(next, now, k2).len() > 0 <==> #[trigger] cert_keys(
                        certs@,
                    ).contains(k2) by {
                    if k2 == k {
                        assert(cert_keys(before)[p as int] == k);
                    }
                }
            }
        } else {
            let mut identities: Vec<String> = Vec::new();
            let ghost nm = name@;
            identities.push(name);
            let mut ids: Vec<u64> = Vec::new();
            ids.push(row.cert_id as u64);
            let cert_signature = cert_signature_from_db(
                opt_as_str(&row.key_algorithm),
                row.key_size,
                opt_as_str(&row.sig_key_algorithm),
                opt_as_str(&row.sig_hash_algorithm),
            );
            let c = Certificate {
                serial: string_of(&key),
                in_ct: true,
                served_live: false,
                currently_valid: valid,
                ct_ids: ids,
                common_name: clone_opt(&row.common_name),
                identities,
                not_before: nb,
                not_after: na,
                pubkey_alg: None,
                sig_alg: None,
                issuer: clone_opt(&row.issuer_ca_name),
                key_algorithm: clone_opt(&row.key_algorithm),
                key_size: row.key_size,
                sig_key_algorithm: clone_opt(&row.sig_key_algorithm),
                sig_hash_algorithm: clone_opt(&row.sig_hash_algorithm),
                cert_signature,
                chain: Vec::new(),
            };
            let ghost before = certs@;
            proof {
                assert(db_group(done, now, k).len() == 0);
                let g2 = db_group(next, now, k);
                assert(g2 =~= seq![*row]);
                assert(g2[0] == *row);
                assert(db_ids(g2) =~= c.ct_ids@.to_set()) by {
                    assert forall|id: u64| db_ids(g2).contains(id) implies c.ct_ids@.to_set().contains(id) by {
                        assert(c.ct_ids@[0] == id);
                    }
                    assert forall|id: u64| c.ct_ids@.to_set().contains(id) implies db_ids(g2).contains(id) by {
                    }
                }
                assert(views(c.identities@) =~= seq![nm]);
                assert(db_names(g2) =~= views(c.identities@).to_set()) by {
                    assert forall|n: Seq<char>| db_names(g2).contains(n) implies views(c.identities@).to_set().contains(n) by {
                        assert(views(c.identities@)[0] == n);
                    }
                    assert forall|n: Seq<char>| views(c.identities@).to_set().contains(n) implies db_names(g2).contains(n) by {
                        assert(db_name(g2[0]) == Some(n));
                    }
                }
                assert(g2 =~= Seq::<DbRow>::empty().push(*row));
                Seq::<DbRow>::empty().lemma_filter_push(*row, |x: DbRow| x.common_name is Some);
                reveal(Seq::filter);
                assert(Seq::<DbRow>::empty().filter(|x: DbRow| x.common_name is Some).len() == 0);
                assert(db_first_cn(g2) == row.common_name);
                assert(db_any_valid(g2, now) == valid) by {
                    if valid {
                        assert(g2[0] == *row);
                    }
                }
                assert(c.serial@ == k);
                assert(sorted_strict(views(c.identities@)));
                assert(sorted_ids(c.ct_ids@));
                assert(db_record(next, now, c));
            }
            certs.insert(p, c);
            proof {
                lemma_cert_keys_insert(before, p as int, c);
                lemma_sorted_insert(cert_keys(before), p as int, k);
                assert forall|q: int| 0 <= q < certs@.len() implies db_record(
                    next,
                    now,
                    #[trigger] certs@[q],
                ) by {
                    if q < p {
                        assert(certs@[q] == before[q]);
                        assert(cert_keys(before)[q] != k) by {
                            lemma_lex_irrefl(k);
                        }
                        assert(db_group(next, now, certs@[q].serial@) == db_group(
                            done,
                            now,
                            certs@[q].serial@,
                        ));
                    } else if q > p {
                        assert(certs@[q] == before[q - 1]);
                        assert(cert_keys(before)[q - 1] != k) by {
                            lemma_lex_irrefl(k);
                        }
                        assert(db_group(next, now, certs@[q].serial@) == db_group(
                            done,
                            now,
                            certs@[q].serial@,
                        ));
                    }
                }
                assert forall|k2: Seq<char>|
                    db_group(next, now, k2).len() > 0 <==> #[trigger] cert_keys(
                        certs@,
                    ).contains(k2) by {
                    if k2 == k {
                        assert(cert_keys(certs@)[p as int] == k);
                    } else {
                        if cert_keys(certs@).contains(k2) {
                            let q = choose|q: int|
                                0 <= q < cert_keys(certs@).len() && cert_keys(certs@)[q] == k2;
                            if q < p {
                                assert(cert_keys(before)[q] == k2);
                            } else {
                                assert(cert_keys(before)[q - 1] == k2);
                            }
                        }
                        if cert_keys(before).contains(k2) {
                            let q = choose|q: int|
                                0 <= q < cert_keys(before).len() && cert_keys(before)[q] == k2;
                            if q < p {
                                assert(cert_keys(certs@)[q] == k2);
                            } else {
                                assert(cert_keys(certs@)[q + 1] == k2);
                            }
                        }
                    }
                }
            }
        }
        i = i + 1;
    }
    proof {
        assert(rows@.subrange(0, i as int) =~= rows@);
        assert forall|j: int|
            0 <= j < rows@.len() && db_kept(#[trigger] rows@[j], now) implies cert_keys(
            certs@,
        ).contains(db_key(rows@[j])) by {
            let k = db_key(rows@[j]);
            rows@.lemma_filter_contains(|r: DbRow| in_db_group(r, now, k), j);
        }
    }
    certs
}

// ---------------------------------------------------------------- cached records

/// `c` is the last record of `input` with its serial, its validity taken
/// anew at `now`.
pub open spec fn revived(input: Seq<Certificate>, now: i64, c: Certificate) -> bool {
    exists|j: int|
        0 <= j < input.len() && input[j].serial@ == c.serial@ && (forall|j2: int|
            j < j2 < input.len() ==> #[trigger] input[j2].serial@ != c.serial@) && c == (Certificate {
            currently_valid: valid_at(input[j].not_before, input[j].not_after, now),
            ..input[j]
        })
}

/// Records read back from a cache, keyed by serial again (the last one of
/// a serial wins), with their validity taken anew at `now`.
pub fn revive_certs(certs: Vec<Certificate>, now: i64) -> (r: Vec<Certificate>)
    ensures
        sorted_strict(cert_keys(r@)),
        forall|i: int| 0 <= i < r@.len() ==> revived(certs@, now, #[trigger] r@[i]),
        cert_keys(r@).to_set() == cert_keys(certs@).to_set(),
{
    let ghost input = certs@;
    let mut rest = certs;
    let mut out: Vec<Certificate> = Vec::new();
    assert(cert_keys(out@) =~= Seq::<Seq<char>>::empty());
    while rest.len() > 0
        invariant
            rest@ == input.subrange(0, rest@.len() as int),
            rest@.len() <= input.len(),
            sorted_strict(cert_keys(out@)),
            forall|i: int| 0 <= i < out@.len() ==> revived(input, now, #[trigger] out@[i]),
            cert_keys(out@).to_set() == cert_keys(input.subrange(rest@.len() as int, input.len() as int)).to_set(),
        decreases rest@.len(),
    {
        let ghost n = rest@.len() as int;
        let mut c = match rest.pop() {
            Some(c) => c,
            None => {
                return out;
            },
        };
        assert(c == input[n - 1]);
        assert(rest@ =~= input.subrange(0, n - 1));
        let key = chars_of(c.serial.as_str());
        let (found, p) = find_serial(&out, &key);
        let ghost done = cert_keys(input.subrange(n, input.len() as int));
        let ghost done2 = cert_keys(input.subrange(n - 1, input.len() as int));
        assert(done2.to_set() =~= done.to_set().insert(c.serial@)) by {
            assert forall|e: Seq<char>| done2.to_set().contains(e) implies done.to_set().insert(c.serial@).contains(e) by {
                let q = choose|q: int| 0 <= q < done2.len() && done2[q] == e;
                if q > 0 {
                    assert(done[q - 1] == e);
                }
            }
            assert forall|e: Seq<char>| done.to_set().insert(c.serial@).contains(e) implies done2.to_set().contains(e) by {
                if e == c.serial@ {
                    assert(done2[0] == e);
                } else {
                    let q = choose|q: int| 0 <= q < done.len() && done[q] == e;
                    assert(done2[q + 1] == e);
                }
            }
        }
        if found {
            assert(cert_keys(out@)[p as int] == c.serial@);
            assert(done2.to_set() =~= done.to_set());
            continue;
        }
        proof {
            assert(!done.to_set().contains(c.serial@));
            assert forall|j2: int| n - 1 < j2 < input.len() implies #[trigger] input[j2].serial@ != c.serial@ by {
                assert(done[j2 - n] == input[j2].serial@);
            }
        }
        c.currently_valid = currently_valid(c.not_before, c.not_after, now);
        let ghost before = out@;
        out.insert(p, c);
        proof {
            assert(revived(input, now, c));
            lemma_cert_keys_insert(before, p as int, c);
            lemma_sorted_insert(cert_keys(before), p as int, key@);
            assert forall|i: int| 0 <= i < out@.len() implies revived(input, now, #[trigger] out@[i]) by {
                if i < p {
                    assert(out@[i] == before[i]);
                } else if i > p {
                    assert(out@[i] == before[i - 1]);
                }
            }
            assert(cert_keys(out@).to_set() =~= done2.to_set()) by {
                assert forall|e: Seq<char>| cert_keys(out@).to_set().contains(e) implies done2.to_set().contains(e) by {
                    let q = choose|q: int| 0 <= q < cert_keys(out@).len() && cert_keys(out@)[q] == e;
                    if q < p {
                        assert(cert_keys(before)[q] == e);
                    } else if q > p {
                        assert(cert_keys(before)[q - 1] == e);
                    }
                }
                assert forall|e: Seq<char>| done2.to_set().contains(e) implies cert_keys(out@).to_set().contains(e) by {
                    if e == c.serial@ {
                        assert(cert_keys(out@)[p as int] == e);
                    } else {
                        assert(cert_keys(before).to_set().contains(e));
                        let q = choose|q: int| 0 <= q < cert_keys(before).len() && cert_keys(before)[q] == e;
                        if q < p {
                            assert(cert_keys(out@)[q] == e);
                        } else {
                            assert(cert_keys(out@)[q + 1] == e);
                        }
                    }
                }
            }
        }
    }
    assert(input.subrange(0, input.len() as int) =~= input);
    out
}

// ---------------------------------------------------------------- references

/// The reference a record gives to `host`: its serial and how it covers
/// the host, when it is valid and covers it.
pub open spec fn ref_of(c: Certificate, host: Seq<char>) -> Option<(Seq<char>, MatchKind)> {
    if c.currently_valid {
        match coverage_of(views(c.identities@), host) {
            Some(k) => Some((c.serial@, k)),
            None => None,
        }
    } else {
        None
    }
}

/// The references of the records, in their order.
pub open spec fn refs_for(certs: Seq<Certificate>, host: Seq<char>) -> Seq<(Seq<char>, MatchKind)>
    decreases certs.len(),
{
    if certs.len() == 0 {
        Seq::empty()
    } else {
        let prev = refs_for(certs.drop_last(), host);
        match ref_of(certs.last(), host) {
            Some(x) => prev.push(x),
            None => prev,
        }
    }
}

pub open spec fn ref_views(refs: Seq<CertRef>) -> Seq<(Seq<char>, MatchKind)> {
    refs.map_values(|r: CertRef| (r.serial@, r.kind))
}

/// The currently valid records that cover `host`, exactly or by wildcard.
pub fn cert_refs(certs: &Vec<Certificate>, host: &str) -> (r: Vec<CertRef>)
    ensures
        ref_views(r@) == refs_for(certs@, host@),
{
    let mut refs: Vec<CertRef> = Vec::new();
    let mut i: usize = 0;
    while i < certs.len()
        invariant
            i <= certs.len(),
            ref_views(refs@) == refs_for(certs@.subrange(0, i as int), host@),
        decreases certs.len() - i,
    {
        let c = &certs[i];
        assert(certs@.subrange(0, i + 1).drop_last() =~= certs@.subrange(0, i as int));
        if c.currently_valid {
            match coverage(c.identities.as_slice(), host) {
                Some(kind) => {
                    let ghost prev = refs@;
                    refs.push(CertRef { serial: c.serial.clone(), kind });
                    assert(ref_views(refs@) =~= ref_views(prev).push((c.serial@, kind)));
                },
                None => {},
            }
        }
        i = i + 1;
    }
    assert(certs@.subrange(0, certs.len() as int) =~= certs@);
    refs
}

} // verus!
