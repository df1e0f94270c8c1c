//! The command line: modes, options and the domain argument.

use vstd::prelude::*;

use crate::strs::{chars_of, concat, own, slice_chars, string_of, to_lowercase, unicode_lower};

verus! {

#[derive(Debug, Clone, Copy, PartialEq, Eq, Structural)]
pub enum Mode {
    Combined,
    Summary,
    Hosts,
    Certs,
    Graph,
    Json,
}

/// What a run does, as the options of `collect` say it.
#[derive(Debug, Clone, Default)]
pub struct Options {
    pub refresh: bool,
    pub probe: bool,
    /// Ports to sweep where 443 failed; an empty list means each host's
    /// own family of ports.
    pub ports: Option<Vec<u16>>,
}

/// The command line read: a run, a request for help, or a usage error with
/// its message (none when the domain is missing).
#[derive(Debug)]
pub enum Command {
    Run { domain: String, mode: Mode, options: Options },
    Help,
    Usage(Option<String>),
}

pub fn usage() -> (r: &'static str)
    ensures
        r@ == usage_text(),
{
    "Usage:
  pq-map DOMAIN [--refresh] [--no-probe] [--ports] [--summary|--hosts|--certs|--graph|--json]

Modes:
  (default)   combined text view: names, hosts, services, DNS records
  --summary   certificate estate summary
  --hosts     concrete hostnames of currently valid certificates
  --certs     CT certificate records table
  --graph     host/crypto edges as JSON for 3d-force-graph
  --json      full state as JSON

Options:
  --refresh   force a fresh CT snapshot (bypasses the 7-day cache)
  --no-probe  skip live TLS probing
  --ports     discover other services (smtp/imap/...) on hosts where 443 failed
  -h, --help  this help
"
}

pub open spec fn usage_text() -> Seq<char> {
    "Usage:
  pq-map DOMAIN [--refresh] [--no-probe] [--ports] [--summary|--hosts|--certs|--graph|--json]

Modes:
  (default)   combined text view: names, hosts, services, DNS records
  --summary   certificate estate summary
  --hosts     concrete hostnames of currently valid certificates
  --certs     CT certificate records table
  --graph     host/crypto edges as JSON for 3d-force-graph
  --json      full state as JSON

Options:
  --refresh   force a fresh CT snapshot (bypasses the 7-day cache)
  --no-probe  skip live TLS probing
  --ports     discover other services (smtp/imap/...) on hosts where 443 failed
  -h, --help  this help
"@
}

/// The parse state after some arguments: the domain seen, the mode, and
/// the flags.
pub struct ArgsV {
    pub domain: Option<Seq<char>>,
    pub mode: Mode,
    pub refresh: bool,
    pub probe: bool,
    pub ports: bool,
}

/// Reading the arguments in order: either a state to go on from, or the
/// command that ends the reading early.
pub enum Reading {
    Going(ArgsV),
    Done(CommandV),
}

pub enum CommandV {
    Help,
    Usage(Option<Seq<char>>),
}

pub open spec fn start() -> ArgsV {
    ArgsV { domain: None, mode: Mode::Combined, refresh: false, probe: true, ports: false }
}

pub open spec fn read_arg(st: ArgsV, a: Seq<char>) -> Reading {
    if a == "--refresh"@ {
        Reading::Going(ArgsV { refresh: true, ..st })
    } else if a == "--no-probe"@ {
        Reading::Going(ArgsV { probe: false, ..st })
    } else if a == "--ports"@ {
        Reading::Going(ArgsV { ports: true, ..st })
    } else if a == "--summary"@ {
        Reading::Going(ArgsV { mode: Mode::Summary, ..st })
    } else if a == "--hosts"@ {
        Reading::Going(ArgsV { mode: Mode::Hosts, ..st })
    } else if a == "--certs"@ {
        Reading::Going(ArgsV { mode: Mode::Certs, ..st })
    } else if a == "--graph"@ {
        Reading::Going(ArgsV { mode: Mode::Graph, ..st })
    } else if a == "--json"@ {
        Reading::Going(ArgsV { mode: Mode::Json, ..st })
    } else if a == "-h"@ || a == "--help"@ {
        Reading::Done(CommandV::Help)
    } else if "--"@.is_prefix_of(a) {
        Reading::Done(CommandV::Usage(Some("unknown option: "@ + a)))
    } else if st.domain is None {
        Reading::Going(ArgsV { domain: Some(a), ..st })
    } else {
        Reading::Done(CommandV::Usage(Some("unexpected argument: "@ + a)))
    }
}

/// The arguments read in order, stopping at the first that ends the
/// reading.
pub open spec fn read_args(args: Seq<Seq<char>>) -> Reading
    decreases args.len(),
{
    if args.len() == 0 {
        Reading::Going(start())
    } else {
        match read_args(args.drop_last()) {
            Reading::Going(st) => read_arg(st, args.last()),
            Reading::Done(c) => Reading::Done(c),
        }
    }
}

/// The domain as given: lower-cased, one trailing dot removed.
pub open spec fn domain_name(d: Seq<char>) -> Seq<char> {
    let l = unicode_lower(d);
    if l.len() > 0 && l.last() == '.' {
        l.drop_last()
    } else {
        l
    }
}

pub open spec fn command_of(args: Seq<Seq<char>>, c: Command) -> bool {
    match read_args(args) {
        Reading::Done(CommandV::Help) => c is Help,
        Reading::Done(CommandV::Usage(m)) => match c {
            Command::Usage(n) => match (m, n) {
                (Some(a), Some(b)) => a == b@,
                (None, None) => true,
                _ => false,
            },
            _ => false,
        },
        Reading::Going(st) => match st.domain {
            None => c matches Command::Usage(None),
            Some(d) => match c {
                Command::Run { domain, mode, options } => {
                    &&& domain@ == domain_name(d)
                    &&& mode == st.mode
                    &&& options.refresh == st.refresh
                    &&& options.probe == st.probe
                    &&& match options.ports {
                        Some(p) => st.ports && p@.len() == 0,
                        None => !st.ports,
                    }
                },
                _ => false,
            },
        },
    }
}

fn is_arg(a: &Vec<char>, s: &str) -> (r: bool)
    ensures
        r == (a@ == s@),
{
    crate::strs::eq_str(a, s)
}

/// Reads the arguments after the program name.
pub fn parse_args(args: &Vec<String>) -> (r: Command)
    ensures
        command_of(args@.map_values(|a: String| a@), r),
{
    let ghost av = args@.map_values(|a: String| a@);
    let mut domain: Option<String> = None;
    let mut mode = Mode::Combined;
    let mut refresh = false;
    let mut probe = true;
    let mut ports = false;
    let mut i: usize = 0;
    while i < args.len()
        invariant
            i <= args.len(),
            av == args@.map_values(|a: String| a@),
            read_args(av.take(i as int)) == Reading::Going(
                ArgsV {
                    domain: match domain {
                        Some(d) => Some(d@),
                        None => None,
                    },
                    mode,
                    refresh,
                    probe,
                    ports,
                },
            ),
        decreases args.len() - i,
    {
        assert(av.take(i + 1).drop_last() =~= av.take(i as int));
        assert(av.take(i + 1).last() == args@[i as int]@);
        let a = chars_of(args[i].as_str());
        if is_arg(&a, "--refresh") {
            refresh = true;
        } else if is_arg(&a, "--no-probe") {
            probe = false;
        } else if is_arg(&a, "--ports") {
            ports = true;
        } else if is_arg(&a, "--summary") {
            mode = Mode::Summary;
        } else if is_arg(&a, "--hosts") {
            mode = Mode::Hosts;
        } else if is_arg(&a, "--certs") {
            mode = Mode::Certs;
        } else if is_arg(&a, "--graph") {
            mode = Mode::Graph;
        } else if is_arg(&a, "--json") {
            mode = Mode::Json;
        } else if is_arg(&a, "-h") || is_arg(&a, "--help") {
            proof {
                lemma_done_stays(av, i as int + 1);
            }
            return Command::Help;
        } else if crate::strs::starts_with_str(&a, "--") {
            proof {
                lemma_done_stays(av, i as int + 1);
            }
            return Command::Usage(Some(concat("unknown option: ", args[i].as_str())));
        } else if domain.is_none() {
            domain = Some(args[i].clone());
        } else {
            proof {
                lemma_done_stays(av, i as int + 1);
            }
            return Command::Usage(Some(concat("unexpected argument: ", args[i].as_str())));
        }
        i = i + 1;
    }
    assert(av.take(args.len() as int) =~= av);
    match domain {
        None => Command::Usage(None),
        Some(d) => {
            let l = to_lowercase(d.as_str());
            let lc = chars_of(l.as_str());
            let name = if lc.len() > 0 && lc[lc.len() - 1] == '.' {
                let t = slice_chars(&lc, 0, lc.len() - 1);
                assert(t@ =~= lc@.drop_last());
                string_of(&t)
            } else {
                l
            };
            Command::Run {
                domain: name,
                mode,
                options: Options {
                    refresh,
                    probe,
                    ports: if ports {
                        Some(Vec::new())
                    } else {
                        None
                    },
                },
            }
        },
    }
}

/// Once the reading is done, further arguments change nothing.
proof fn lemma_done_stays(av: Seq<Seq<char>>, k: int)
    requires
        0 <= k <= av.len(),
        read_args(av.take(k)) is Done,
    ensures
        read_args(av) == read_args(av.take(k)),
    decreases av.len() - k,
{
    if k < av.len() {
        assert(av.take(k + 1).drop_last() =~= av.take(k));
        lemma_done_stays(av, k + 1);
    } else {
        assert(av.take(k) =~= av);
    }
}

} // verus!
