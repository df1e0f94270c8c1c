//! Obtaining the CT snapshot: a fresh cache first, then the certwatch
//! database, then crt.sh over HTTP with retries, then a stale cache.

use vstd::prelude::*;

use crate::model::{Certificate, Provenance};
use crate::strs::{concat, own};

verus! {

#[derive(Debug)]
pub enum Error {
    NoCtData,
    CtParse(String),
    Join,
}

impl Error {
    /// The message shown for the error.
    pub fn message(&self) -> (r: String)
        ensures
            r@ == match self {
                Error::NoCtData => "unable to retrieve CT data and no usable cache exists"@,
                Error::CtParse(m) => "invalid CT data: "@ + m@,
                Error::Join => "task join failed"@,
            },
    {
        match self {
            Error::NoCtData => own("unable to retrieve CT data and no usable cache exists"),
            Error::CtParse(m) => concat("invalid CT data: ", m.as_str()),
            Error::Join => own("task join failed"),
        }
    }
}

pub struct FetchOutcome {
    pub certs: Vec<Certificate>,
    pub provenance: Provenance,
    /// "db" or "http" for a fresh snapshot; `None` when served from cache.
    pub source: Option<&'static str>,
}

/// 2 to the power `k`.
pub open spec fn twice(k: nat) -> nat
    decreases k,
{
    if k == 0 {
        1
    } else {
        2 * twice((k - 1) as nat)
    }
}

/// `delay * 2^k`, saturating at `u64::MAX`, capped at 60 seconds.
pub open spec fn capped_delay(delay: u64, k: nat) -> u64 {
    let d = delay * twice(k);
    if d > 60 {
        60
    } else {
        d as u64
    }
}

/// Doubles `delay` `k` times, saturating, then caps it at 60.
fn scaled(delay: u64, k: u32) -> (r: u64)
    requires
        k <= 6,
    ensures
        r == capped_delay(delay, k as nat),
{
    let mut f: u64 = 1;
    let mut i: u32 = 0;
    while i < k
        invariant
            i <= k,
            k <= 6,
            f == twice(i as nat),
            f <= 64,
        decreases k - i,
    {
        assert(twice((i + 1) as nat) == 2 * twice(i as nat));
        f = f * 2;
        i = i + 1;
        proof {
            if i <= 6 {
                assert(twice(i as nat) <= 64) by {
                    reveal_with_fuel(twice, 7);
                }
            }
        }
    }
    let d = match delay.checked_mul(f) {
        Some(v) => v,
        None => u64::MAX,
    };
    if d > 60 {
        60
    } else {
        d
    }
}

/// Exponential backoff for crt.sh: `retry_delay * 2^(attempt-1)`, the
/// exponent capped at 6, the delay at 60 seconds.
pub fn backoff_secs(attempt: u32, retry_delay: u64) -> (r: u64)
    requires
        attempt >= 1,
    ensures
        r == capped_delay(retry_delay, if attempt - 1 < 6 { (attempt - 1) as nat } else { 6 }),
        r <= 60,
{
    let k = if attempt - 1 < 6 {
        attempt - 1
    } else {
        6
    };
    scaled(retry_delay, k)
}

/// What one failed crt.sh request leads to.
pub struct RetryPlan {
    pub why: &'static str,
    pub delay: u64,
    pub retry: bool,
}

pub open spec fn status_why(code: u16) -> Seq<char> {
    if code == 429 {
        "rate limited"@
    } else if code == 502 || code == 503 {
        "server error"@
    } else {
        "HTTP error"@
    }
}

pub open spec fn status_delay(code: u16, retry_after: Option<u64>, base: u64) -> u64 {
    if code == 429 {
        let d = match retry_after {
            Some(v) => v,
            None => (base * 2) as u64,
        };
        if d > 300 {
            300
        } else {
            d
        }
    } else {
        base
    }
}

/// After an HTTP error status: rate limiting honours Retry-After (at most
/// 300 s) or backs off twice as long; other errors back off normally; the
/// last attempt gives up.
pub fn status_retry(code: u16, retry_after: Option<u64>, attempt: u32, retries: u32, retry_delay: u64) -> (r: RetryPlan)
    requires
        attempt >= 1,
    ensures
        r.why@ == status_why(code),
        r.delay == status_delay(code, retry_after, backoff_secs_spec(attempt, retry_delay)),
        r.retry == (attempt < retries),
{
    let base = backoff_secs(attempt, retry_delay);
    let (why, delay) = if code == 429 {
        let d = match retry_after {
            Some(v) => v,
            None => base * 2,
        };
        ("rate limited", if d > 300 {
            300
        } else {
            d
        })
    } else if code == 502 || code == 503 {
        ("server error", base)
    } else {
        ("HTTP error", base)
    };
    RetryPlan { why, delay, retry: attempt < retries }
}

pub open spec fn backoff_secs_spec(attempt: u32, retry_delay: u64) -> u64 {
    capped_delay(retry_delay, if attempt - 1 < 6 { (attempt - 1) as nat } else { 6 })
}

/// After a transport failure: the delay before the next attempt, none
/// after the last.
pub fn transport_retry(attempt: u32, retries: u32, retry_delay: u64) -> (r: Option<u64>)
    requires
        attempt >= 1,
    ensures
        r == if attempt < retries {
            Some(backoff_secs_spec(attempt, retry_delay))
        } else {
            None
        },
{
    if attempt < retries {
        Some(backoff_secs(attempt, retry_delay))
    } else {
        None
    }
}

/// What became known while obtaining the snapshot.
#[derive(Debug)]
pub enum ObtainEvent {
    /// Nothing tried yet.
    Started,
    /// The cache was read: whether a snapshot loaded, and the file's age.
    CacheChecked { loaded: bool, age: Option<u64> },
    /// The database answered with rows, grouped into certificates.
    DbAnswered { rows: usize, certs: usize },
    /// The database could not be queried.
    DbFailed,
    /// crt.sh answered a body: the number of certificates it gives, or why
    /// it could not be read.
    HttpAnswered { certs: Result<usize, String> },
    /// crt.sh could not be reached.
    HttpFailed,
    /// The HTTP task did not complete.
    TaskFailed,
    /// The cache was read again as a last resort.
    StaleChecked { loaded: bool, age: Option<u64> },
}

/// The next step of obtaining the snapshot.
#[derive(Debug)]
pub enum ObtainStep {
    CheckCache,
    UseCached { age_secs: u64 },
    QueryDb,
    UseFresh { source: &'static str },
    QueryHttp,
    CheckStale,
    UseStale { age_secs: Option<u64> },
    Fail(Error),
}

pub open spec fn step_of(refresh: bool, ttl: u64, event: ObtainEvent) -> ObtainStep {
    match event {
        ObtainEvent::Started => if refresh {
            ObtainStep::QueryDb
        } else {
            ObtainStep::CheckCache
        },
        ObtainEvent::CacheChecked { loaded, age } => match age {
            Some(a) => if loaded && a < ttl {
                ObtainStep::UseCached { age_secs: a }
            } else {
                ObtainStep::QueryDb
            },
            None => ObtainStep::QueryDb,
        },
        ObtainEvent::DbAnswered { rows, certs } => if rows > 0 && certs > 0 {
            ObtainStep::UseFresh { source: "db" }
        } else {
            ObtainStep::QueryHttp
        },
        ObtainEvent::DbFailed => ObtainStep::QueryHttp,
        ObtainEvent::HttpAnswered { certs } => match certs {
            Ok(n) => if n > 0 {
                ObtainStep::UseFresh { source: "http" }
            } else {
                ObtainStep::CheckStale
            },
            Err(m) => ObtainStep::Fail(Error::CtParse(m)),
        },
        ObtainEvent::HttpFailed => ObtainStep::CheckStale,
        ObtainEvent::TaskFailed => ObtainStep::Fail(Error::Join),
        ObtainEvent::StaleChecked { loaded, age } => if loaded {
            ObtainStep::UseStale { age_secs: age }
        } else {
            ObtainStep::Fail(Error::NoCtData)
        },
    }
}

/// Decides the next step from what became known: a cache younger than the
/// TTL is used unless a refresh is forced; a database answer with
/// certificates is used fresh, else crt.sh is tried; a crt.sh body that does
/// not parse is an error; with nothing fresh, a stale cache is used, else
/// there is no CT data.
pub fn obtain_step(refresh: bool, ttl: u64, event: ObtainEvent) -> (r: ObtainStep)
    ensures
        r == step_of(refresh, ttl, event),
{
    match event {
        ObtainEvent::Started => if refresh {
            ObtainStep::QueryDb
        } else {
            ObtainStep::CheckCache
        },
        ObtainEvent::CacheChecked { loaded, age } => match age {
            Some(a) => if loaded && a < ttl {
                ObtainStep::UseCached { age_secs: a }
            } else {
                ObtainStep::QueryDb
            },
            None => ObtainStep::QueryDb,
        },
        ObtainEvent::DbAnswered { rows, certs } => if rows > 0 && certs > 0 {
            ObtainStep::UseFresh { source: "db" }
        } else {
            ObtainStep::QueryHttp
        },
        ObtainEvent::DbFailed => ObtainStep::QueryHttp,
        ObtainEvent::HttpAnswered { certs } => match certs {
            Ok(n) => if n > 0 {
                ObtainStep::UseFresh { source: "http" }
            } else {
                ObtainStep::CheckStale
            },
            Err(m) => ObtainStep::Fail(Error::CtParse(m)),
        },
        ObtainEvent::HttpFailed => ObtainStep::CheckStale,
        ObtainEvent::TaskFailed => ObtainStep::Fail(Error::Join),
        ObtainEvent::StaleChecked { loaded, age } => if loaded {
            ObtainStep::UseStale { age_secs: age }
        } else {
            ObtainStep::Fail(Error::NoCtData)
        },
    }
}

/// The provenance of a snapshot used: fresh, cached at an age, or stale.
pub fn provenance_of(step: &ObtainStep) -> (r: Option<Provenance>)
    ensures
        r == match step {
            ObtainStep::UseCached { age_secs } => Some(Provenance::Cached { age_secs: *age_secs }),
            ObtainStep::UseFresh { .. } => Some(Provenance::Fresh),
            ObtainStep::UseStale { age_secs } => Some(Provenance::Stale { age_secs: *age_secs }),
            _ => None,
        },
{
    match step {
        ObtainStep::UseCached { age_secs } => Some(Provenance::Cached { age_secs: *age_secs }),
        ObtainStep::UseFresh { .. } => Some(Provenance::Fresh),
        ObtainStep::UseStale { age_secs } => Some(Provenance::Stale { age_secs: *age_secs }),
        _ => None,
    }
}

} // verus!
