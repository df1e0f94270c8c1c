# pq_map

Maps the externally visible cryptography of a domain: the certificates that
certificate transparency logs know of, the services its DNS publishes, and
what a live TLS handshake with each host shows (key exchange group, leaf
certificate, signature algorithms). The result is one domain state, shown as
text tables, a summary, or a graph of hosts, endpoints, certificates, CAs and
algorithms.

## Layout

- `src/` is the library, written in Verus, and Verus verifies all of it.
  Every public function carries a contract stating what it returns or
  changes; a few private helpers carry none and are checked only for
  safety and termination. The few calls into other crates (chrono for
  dates, x509-parser for DER certificates, std's lower-casing) stand
  behind small trusted wrappers whose contracts say what the library
  relies on.
  - `model`: the domain state and the canonical names of algorithms.
  - `ct`, `ctdb`, `fetch`, `cache`: reading CT records, the retry and
    fallback decisions around fetching them, and cache freshness.
  - `dns`, `collect`, `sweep`, `probe`, `plan`, `tls`: DNS records, building
    the host set, recording on each host what resolution, probes and the
    sweep found, correlating it with the certificates, the port sweep,
    probe failure handling and the facts read from a served leaf.
  - `graph`, `graph_build`, `text`: the graph (each node and relation once)
    and the text views.
  - `config`, `cli`: settings from the environment and the command line.
  - `laws`: properties that span several functions, proved once.
- `app/` is the program around the library: network and file I/O, the async
  runtime, JSON, and the loops that carry out the steps the library decides.
- `tests/` exercise the library from outside.
