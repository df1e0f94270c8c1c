//! Settings, read from environment variables with documented defaults.
//! Durations are in whole seconds unless a name says otherwise.

use vstd::prelude::*;

use crate::strs::{chars_of, eq_str, own, parse_u64, parse_u64_chars, trim, trim_chars};

verus! {

#[derive(Debug, Clone)]
pub struct Config {
    pub cache_ttl: u64,
    pub retries: u32,
    pub retry_delay: u64,
    pub connect_timeout: u64,
    pub max_time: u64,
    pub db_host: String,
    pub db_port: u16,
    pub db_user: String,
    pub db_name: String,
    pub db_connect_timeout: u64,
    pub db_query_timeout: u64,
    pub probe_cache_ttl: u64,
    pub probe_timeout: u64,
    pub probe_concurrency: usize,
    pub sweep_connect_timeout: u64,
    pub sweep_concurrency: usize,
    pub sweep_delay_ms: u64,
    pub sweep_ttl: u64,
    pub probe_ports: Vec<u16>,
    pub dns_timeout: u64,
    pub dns_attempts: usize,
    pub dns_concurrency: usize,
}

/// The value of the first variable named `name`.
pub open spec fn env_value(vars: Seq<(String, String)>, name: Seq<char>) -> Option<Seq<char>>
    decreases vars.len(),
{
    if vars.len() == 0 {
        None
    } else if vars[0].0@ == name {
        Some(vars[0].1@)
    } else {
        env_value(vars.drop_first(), name)
    }
}

/// A numeric setting: the variable's value when it parses, else the default.
pub open spec fn num_var(vars: Seq<(String, String)>, name: Seq<char>, default: u64) -> u64 {
    match env_value(vars, name) {
        Some(v) => match parse_u64(v) {
            Some(n) => n,
            None => default,
        },
        None => default,
    }
}

/// A text setting: the variable's value when not empty, else the default.
pub open spec fn text_var(vars: Seq<(String, String)>, name: Seq<char>, default: Seq<char>) -> Seq<char> {
    match env_value(vars, name) {
        Some(v) => if v.len() > 0 {
            v
        } else {
            default
        },
        None => default,
    }
}

pub open spec fn at_least_one(v: u64) -> u64 {
    if v < 1 {
        1
    } else {
        v
    }
}

/// The pieces of a text between commas.
pub open spec fn comma_pieces(s: Seq<char>) -> Seq<Seq<char>>
    decreases s.len(),
{
    if s.len() == 0 {
        seq![Seq::empty()]
    } else {
        let p = comma_pieces(s.drop_last());
        if s.last() == ',' {
            p.push(Seq::empty())
        } else {
            p.update(p.len() - 1, p.last().push(s.last()))
        }
    }
}

/// What `s.parse::<u16>()` gives.
pub open spec fn parse_u16(s: Seq<char>) -> Option<u16> {
    match parse_u64(s) {
        Some(n) => if n <= 65535 {
            Some(n as u16)
        } else {
            None
        },
        None => None,
    }
}

/// The ports of a comma-separated list that parse, in order.
pub open spec fn port_list(pieces: Seq<Seq<char>>) -> Seq<u16>
    decreases pieces.len(),
{
    if pieces.len() == 0 {
        Seq::empty()
    } else {
        match parse_u16(trim(pieces.last())) {
            Some(p) => port_list(pieces.drop_last()).push(p),
            None => port_list(pieces.drop_last()),
        }
    }
}

fn lookup(vars: &Vec<(String, String)>, name: &str) -> (r: Option<String>)
    ensures
        match r {
            Some(v) => env_value(vars@, name@) == Some(v@),
            None => env_value(vars@, name@) is None,
        },
{
    let mut i: usize = 0;
    assert(vars@.skip(0) =~= vars@);
    while i < vars.len()
        invariant
            i <= vars.len(),
            env_value(vars@, name@) == env_value(vars@.skip(i as int), name@),
        decreases vars.len() - i,
    {
        assert(vars@.skip(i as int)[0] == vars@[i as int]);
        if eq_str(&chars_of(vars[i].0.as_str()), name) {
            return Some(vars[i].1.clone());
        }
        assert(vars@.skip(i as int).drop_first() =~= vars@.skip(i + 1));
        i = i + 1;
    }
    None
}

fn num(vars: &Vec<(String, String)>, name: &str, default: u64) -> (r: u64)
    ensures
        r == num_var(vars@, name@, default),
{
    match lookup(vars, name) {
        Some(v) => match parse_u64_chars(&chars_of(v.as_str())) {
            Some(n) => n,
            None => default,
        },
        None => default,
    }
}

fn text(vars: &Vec<(String, String)>, name: &str, default: &str) -> (r: String)
    ensures
        r@ == text_var(vars@, name@, default@),
{
    match lookup(vars, name) {
        Some(v) => if chars_of(v.as_str()).len() > 0 {
            v
        } else {
            own(default)
        },
        None => own(default),
    }
}

fn split_commas(s: &Vec<char>) -> (r: Vec<Vec<char>>)
    ensures
        r@.map_values(|p: Vec<char>| p@) == comma_pieces(s@),
{
    let mut out: Vec<Vec<char>> = Vec::new();
    let mut cur: Vec<char> = Vec::new();
    let mut i: usize = 0;
    assert(out@.map_values(|p: Vec<char>| p@).push(cur@) =~= comma_pieces(s@.subrange(0, 0)));
    while i < s.len()
        invariant
            i <= s.len(),
            out@.map_values(|p: Vec<char>| p@).push(cur@) == comma_pieces(s@.subrange(0, i as int)),
        decreases s.len() - i,
    {
        let ghost nxt = s@.subrange(0, i + 1);
        assert(nxt.drop_last() =~= s@.subrange(0, i as int));
        let ghost old_out = out@.map_values(|p: Vec<char>| p@);
        if s[i] == ',' {
            let done = cur;
            out.push(done);
            cur = Vec::new();
            assert(out@.map_values(|p: Vec<char>| p@) =~= old_out.push(done@));
            assert(out@.map_values(|p: Vec<char>| p@).push(cur@) =~= comma_pieces(nxt));
        } else {
            let ghost old_cur = cur@;
            cur.push(s[i]);
            assert(out@.map_values(|p: Vec<char>| p@).push(cur@) =~= old_out.push(old_cur).update(
                old_out.len() as int,
                old_cur.push(s@[i as int]),
            ));
        }
        i = i + 1;
    }
    assert(s@.subrange(0, s.len() as int) =~= s@);
    let ghost old_out = out@.map_values(|p: Vec<char>| p@);
    let last = cur;
    out.push(last);
    assert(out@.map_values(|p: Vec<char>| p@) =~= old_out.push(last@));
    out
}

fn ports_of(s: &Vec<char>) -> (r: Vec<u16>)
    ensures
        r@ == port_list(comma_pieces(s@)),
{
    let pieces = split_commas(s);
    let ghost ps = pieces@.map_values(|p: Vec<char>| p@);
    let mut out: Vec<u16> = Vec::new();
    let mut i: usize = 0;
    assert(ps.subrange(0, 0) =~= Seq::<Seq<char>>::empty());
    while i < pieces.len()
        invariant
            i <= pieces.len(),
            ps == pieces@.map_values(|p: Vec<char>| p@),
            out@ == port_list(ps.subrange(0, i as int)),
        decreases pieces.len() - i,
    {
        assert(ps.subrange(0, i + 1).drop_last() =~= ps.subrange(0, i as int));
        assert(ps.subrange(0, i + 1).last() == pieces@[i as int]@);
        let t = trim_chars(&pieces[i]);
        match parse_u64_chars(&t) {
            Some(n) => {
                if n <= 65535 {
                    out.push(n as u16);
                }
            },
            None => {},
        }
        i = i + 1;
    }
    assert(ps.subrange(0, pieces.len() as int) =~= ps);
    out
}

/// The settings that `vars` (name and value pairs, as the environment
/// holds them) give.
pub open spec fn config_of(c: Config, vars: Seq<(String, String)>) -> bool {
    &&& c.cache_ttl == num_var(vars, "CT_CACHE_TTL"@, 604800)
    &&& c.retries == at_least_one(num_var(vars, "CT_RETRIES"@, 5)) as u32
    &&& c.retry_delay == num_var(vars, "CT_RETRY_DELAY"@, 2)
    &&& c.connect_timeout == num_var(vars, "CT_CONNECT_TIMEOUT"@, 10)
    &&& c.max_time == num_var(vars, "CT_MAX_TIME"@, 60)
    &&& c.db_host@ == text_var(vars, "CT_DB_HOST"@, "crt.sh"@)
    &&& c.db_port == num_var(vars, "CT_DB_PORT"@, 5432) as u16
    &&& c.db_user@ == text_var(vars, "CT_DB_USER"@, "guest"@)
    &&& c.db_name@ == text_var(vars, "CT_DB_DB"@, "certwatch"@)
    &&& c.db_connect_timeout == num_var(vars, "CT_DB_CONNECT_TIMEOUT"@, 30)
    &&& c.db_query_timeout == num_var(vars, "CT_DB_QUERY_TIMEOUT"@, 120)
    &&& c.probe_cache_ttl == num_var(vars, "PROBE_CACHE_TTL"@, 86400)
    &&& c.probe_timeout == num_var(vars, "PROBE_TIMEOUT"@, 8)
    &&& c.probe_concurrency == at_least_one(num_var(vars, "PROBE_CONCURRENCY"@, 32)) as usize
    &&& c.sweep_connect_timeout == num_var(vars, "SWEEP_CONNECT_TIMEOUT"@, 1)
    &&& c.sweep_concurrency == at_least_one(num_var(vars, "SWEEP_CONCURRENCY"@, 4)) as usize
    &&& c.sweep_delay_ms == num_var(vars, "SWEEP_DELAY_MS"@, 200)
    &&& c.sweep_ttl == num_var(vars, "PROBE_SWEEP_TTL"@, 604800)
    &&& c.probe_ports@ == match env_value(vars, "PROBE_PORTS"@) {
        Some(v) => port_list(comma_pieces(v)),
        None => Seq::empty(),
    }
    &&& c.dns_timeout == num_var(vars, "DNS_TIMEOUT"@, 5)
    &&& c.dns_attempts == at_least_one(num_var(vars, "DNS_ATTEMPTS"@, 2)) as usize
    &&& c.dns_concurrency == at_least_one(num_var(vars, "DNS_CONCURRENCY"@, 32)) as usize
}

fn at_least_1(v: u64) -> (r: u64)
    ensures
        r == at_least_one(v),
{
    if v < 1 {
        1
    } else {
        v
    }
}

impl Config {
    /// The settings from the variables given, each defaulted as documented.
    pub fn from_vars(vars: &Vec<(String, String)>) -> (r: Config)
        ensures
            config_of(r, vars@),
    {
        let probe_ports = match lookup(vars, "PROBE_PORTS") {
            Some(v) => ports_of(&chars_of(v.as_str())),
            None => Vec::new(),
        };
        Config {
            cache_ttl: num(vars, "CT_CACHE_TTL", 604800),
            retries: at_least_1(num(vars, "CT_RETRIES", 5)) as u32,
            retry_delay: num(vars, "CT_RETRY_DELAY", 2),
            connect_timeout: num(vars, "CT_CONNECT_TIMEOUT", 10),
            max_time: num(vars, "CT_MAX_TIME", 60),
            db_host: text(vars, "CT_DB_HOST", "crt.sh"),
            db_port: num(vars, "CT_DB_PORT", 5432) as u16,
            db_user: text(vars, "CT_DB_USER", "guest"),
            db_name: text(vars, "CT_DB_DB", "certwatch"),
            db_connect_timeout: num(vars, "CT_DB_CONNECT_TIMEOUT", 30),
            db_query_timeout: num(vars, "CT_DB_QUERY_TIMEOUT", 120),
            probe_cache_ttl: num(vars, "PROBE_CACHE_TTL", 86400),
            probe_timeout: num(vars, "PROBE_TIMEOUT", 8),
            probe_concurrency: at_least_1(num(vars, "PROBE_CONCURRENCY", 32)) as usize,
            sweep_connect_timeout: num(vars, "SWEEP_CONNECT_TIMEOUT", 1),
            sweep_concurrency: at_least_1(num(vars, "SWEEP_CONCURRENCY", 4)) as usize,
            sweep_delay_ms: num(vars, "SWEEP_DELAY_MS", 200),
            sweep_ttl: num(vars, "PROBE_SWEEP_TTL", 604800),
            probe_ports,
            dns_timeout: num(vars, "DNS_TIMEOUT", 5),
            dns_attempts: at_least_1(num(vars, "DNS_ATTEMPTS", 2)) as usize,
            dns_concurrency: at_least_1(num(vars, "DNS_CONCURRENCY", 32)) as usize,
        }
    }
}

} // verus!
