//! The snapshot caches: where a domain's file lives, when a snapshot may be
//! used, and how old a file is.

use vstd::prelude::*;

use crate::strs::{chars_of, push_all, push_str, string_of};

verus! {

/// The version of the CT snapshot format; other versions are not read.
pub const SNAPSHOT_VERSION: u32 = 2;

/// `dir` joined with `file` as `PathBuf::push` joins them on Unix: an
/// absolute `file` replaces `dir`; a separator goes between them unless
/// `dir` is empty or already ends in one.
pub open spec fn joined_path(dir: Seq<char>, file: Seq<char>) -> Seq<char> {
    if file.len() > 0 && file[0] == '/' {
        file
    } else if dir.len() == 0 || dir.last() == '/' {
        dir + file
    } else {
        dir + "/"@ + file
    }
}

/// The snapshot file of a domain in the cache directory `dir`.
pub fn cache_file(dir: &str, domain: &str) -> (r: String)
    ensures
        r@ == joined_path(dir@, domain@ + ".json"@),
{
    let d = chars_of(dir);
    let mut file = chars_of(domain);
    push_str(&mut file, ".json");
    if file.len() > 0 && file[0] == '/' {
        return string_of(&file);
    }
    let mut out = d;
    if out.len() > 0 && out[out.len() - 1] != '/' {
        push_str(&mut out, "/");
    }
    push_all(&mut out, &file);
    string_of(&out)
}

/// A snapshot is usable when it parsed and carries the current version.
pub fn is_valid(version: Option<u32>) -> (r: bool)
    ensures
        r == (version == Some(SNAPSHOT_VERSION)),
{
    match version {
        Some(v) => v == SNAPSHOT_VERSION,
        None => false,
    }
}

/// The version of the probe snapshot format; other versions are not read.
pub const PROBE_SNAPSHOT_VERSION: u32 = 1;

/// A probe snapshot is usable when it parsed and carries the current
/// version.
pub fn is_valid_probes(version: Option<u32>) -> (r: bool)
    ensures
        r == (version == Some(PROBE_SNAPSHOT_VERSION)),
{
    match version {
        Some(v) => v == PROBE_SNAPSHOT_VERSION,
        None => false,
    }
}

/// A cache file is fresh when younger than `ttl` and valid.
pub fn is_fresh(age: Option<u64>, ttl: u64, valid: bool) -> (r: bool)
    ensures
        r == match age {
            Some(a) => a < ttl && valid,
            None => false,
        },
{
    match age {
        Some(a) => a < ttl && valid,
        None => false,
    }
}

/// Whole seconds from a file's modification time to now, both in
/// nanoseconds since the epoch; none for a file whose modification time
/// could not be read (a missing file) and for a time in the future.
pub fn age(now_ns: i128, mtime_ns: Option<i128>) -> (r: Option<u64>)
    requires
        mtime_ns matches Some(m) ==> (now_ns - m) / 1_000_000_000 <= u64::MAX,
    ensures
        r == match mtime_ns {
            Some(m) => if now_ns >= m {
                Some(((now_ns - m) / 1_000_000_000) as u64)
            } else {
                None
            },
            None => None,
        },
{
    match mtime_ns {
        Some(m) => if now_ns >= m {
            let d: i128 = now_ns - m;
            Some((d / 1_000_000_000) as u64)
        } else {
            None
        },
        None => None,
    }
}

} // verus!
