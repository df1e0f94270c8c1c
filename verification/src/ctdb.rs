//! The certwatch database query: the SQL for a domain and the backoff
//! between attempts.

use vstd::prelude::*;

use crate::fetch::{capped_delay, twice};
use crate::strs::{chars_of, concat, lower, lower_ascii, push_all, push_str, string_of};

verus! {

pub open spec fn sql_head() -> Seq<char> {
    "
WITH matching AS (
    SELECT c.id, c.issuer_ca_id, c.certificate
    FROM certificate c
    WHERE identities(c.certificate) @@ plainto_tsquery('certwatch', '"@
}

pub open spec fn sql_middle() -> Seq<char> {
    "')
      AND x509_notAfter(c.certificate) >= now()
)
SELECT
    m.id,
    encode(x509_serialnumber(m.certificate), 'hex'),
    n.name_value,
    x509_commonName(m.certificate),
    x509_notBefore(m.certificate)::text,
    x509_notAfter(m.certificate)::text,
    x509_keyAlgorithm(m.certificate),
    x509_keySize(m.certificate),
    x509_signatureKeyAlgorithm(m.certificate),
    x509_signatureHashAlgorithm(m.certificate),
    ca.name
FROM matching m
LEFT JOIN ca ON ca.id = m.issuer_ca_id
CROSS JOIN LATERAL (
    SELECT encode(raw_value, 'escape') AS name_value, 2 AS src
    FROM x509_altNames_raw(m.certificate)
    WHERE type_num = 2
    UNION ALL
    SELECT x509_commonName(m.certificate), 1
) n
WHERE lower(n.name_value) = lower('"@
}

pub open spec fn sql_like() -> Seq<char> {
    "')
   OR lower(n.name_value) LIKE '%."@
}

pub open spec fn sql_tail() -> Seq<char> {
    "'"@
}

/// The certwatch query for a domain: certificates not expired whose
/// identities match it, one row per matching name.
pub open spec fn sql_for(d: Seq<char>) -> Seq<char> {
    sql_head() + d + sql_middle() + d + sql_like() + d + sql_tail()
}

pub open spec fn domain_char(c: char) -> bool {
    ('0' <= c && c <= '9') || ('a' <= c && c <= 'z') || ('A' <= c && c <= 'Z') || c == '.' || c == '-'
}

pub open spec fn sql_result(domain: Seq<char>) -> Result<Seq<char>, Seq<char>> {
    let d = lower_ascii(domain);
    if d.len() == 0 || crate::text::byte_len(d) > 253 {
        Err("invalid domain: "@ + d)
    } else if exists|i: int| 0 <= i < d.len() && !domain_char(d[i]) {
        Err("invalid characters in domain: "@ + d)
    } else {
        Ok(sql_for(d))
    }
}

/// The certwatch query for `domain` (lower-cased): refused when the name is
/// empty, longer than 253 bytes, or holds anything but ASCII letters,
/// digits, dots and hyphens.
pub fn ct_sql(domain: &str) -> (r: Result<String, String>)
    ensures
        match r {
            Ok(s) => sql_result(domain@) == Ok::<Seq<char>, Seq<char>>(s@),
            Err(e) => sql_result(domain@) == Err::<Seq<char>, Seq<char>>(e@),
        },
{
    let d = lower(&chars_of(domain));
    let ds = string_of(&d);
    proof {
        crate::text::lemma_byte_len_bounds(d@);
    }
    if d.len() == 0 || d.len() > 253 || ds.as_str().len() > 253 {
        return Err(concat("invalid domain: ", ds.as_str()));
    }
    let mut i: usize = 0;
    while i < d.len()
        invariant
            i <= d.len(),
            ds@ == d@,
            d@ == lower_ascii(domain@),
            !(d@.len() == 0 || crate::text::byte_len(d@) > 253),
            forall|j: int| 0 <= j < i ==> domain_char(#[trigger] d@[j]),
        decreases d.len() - i,
    {
        let c = d[i];
        if !(('0' <= c && c <= '9') || ('a' <= c && c <= 'z') || ('A' <= c && c <= 'Z') || c == '.'
            || c == '-') {
            assert(!domain_char(d@[i as int]));
            return Err(concat("invalid characters in domain: ", ds.as_str()));
        }
        i = i + 1;
    }
    let mut out = chars_of(
        "
WITH matching AS (
    SELECT c.id, c.issuer_ca_id, c.certificate
    FROM certificate c
    WHERE identities(c.certificate) @@ plainto_tsquery('certwatch', '",
    );
    push_all(&mut out, &d);
    push_str(
        &mut out,
        "')
      AND x509_notAfter(c.certificate) >= now()
)
SELECT
    m.id,
    encode(x509_serialnumber(m.certificate), 'hex'),
    n.name_value,
    x509_commonName(m.certificate),
    x509_notBefore(m.certificate)::text,
    x509_notAfter(m.certificate)::text,
    x509_keyAlgorithm(m.certificate),
    x509_keySize(m.certificate),
    x509_signatureKeyAlgorithm(m.certificate),
    x509_signatureHashAlgorithm(m.certificate),
    ca.name
FROM matching m
LEFT JOIN ca ON ca.id = m.issuer_ca_id
CROSS JOIN LATERAL (
    SELECT encode(raw_value, 'escape') AS name_value, 2 AS src
    FROM x509_altNames_raw(m.certificate)
    WHERE type_num = 2
    UNION ALL
    SELECT x509_commonName(m.certificate), 1
) n
WHERE lower(n.name_value) = lower('",
    );
    push_all(&mut out, &d);
    push_str(&mut out, "')
   OR lower(n.name_value) LIKE '%.");
    push_all(&mut out, &d);
    push_str(&mut out, "'");
    Ok(string_of(&out))
}

/// Backoff for the certwatch database: `retry_delay * 2^(attempt+1)`, the
/// exponent capped at 6, the delay at 60 seconds.
pub fn db_backoff_secs(attempt: u32, retry_delay: u64) -> (r: u64)
    requires
        attempt < u32::MAX,
    ensures
        r == capped_delay(retry_delay, if attempt + 1 < 6 { (attempt + 1) as nat } else { 6 }),
        r <= 60,
{
    let k = if attempt + 1 < 6 {
        attempt + 1
    } else {
        6
    };
    let mut f: u64 = 1;
    let mut i: u32 = 0;
    while i < k
        invariant
            i <= k,
            k <= 6,
            f == twice(i as nat),
            f <= 64,
        decreases k - i,
    {
        assert(twice((i + 1) as nat) == 2 * twice(i as nat));
        f = f * 2;
        i = i + 1;
        proof {
            assert(twice(i as nat) <= 64) by {
                reveal_with_fuel(twice, 7);
            }
        }
    }
    let d = match retry_delay.checked_mul(f) {
        Some(v) => v,
        None => u64::MAX,
    };
    if d > 60 {
        60
    } else {
        d
    }
}

/// The delay before the next database attempt, none after the last.
pub fn db_retry(attempt: u32, retries: u32, retry_delay: u64) -> (r: Option<u64>)
    requires
        attempt < u32::MAX,
    ensures
        r == if attempt < retries {
            Some(capped_delay(retry_delay, if attempt + 1 < 6 { (attempt + 1) as nat } else { 6 }))
        } else {
            None
        },
{
    if attempt < retries {
        Some(db_backoff_secs(attempt, retry_delay))
    } else {
        None
    }
}

} // verus!
