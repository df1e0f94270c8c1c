//! Discovery and mapping of externally visible cryptographic infrastructure:
//! certificate transparency records, DNS services and live TLS observations,
//! correlated into one domain state and rendered as text or a graph.

pub mod strs;
pub mod model;
pub mod ct;
pub mod graph;
pub mod graph_build;
pub mod dns;
pub mod text;
pub mod collect;
pub mod sweep;
pub mod probe;
pub mod fetch;
pub mod ctdb;
pub mod config;
pub mod cache;
pub mod cli;
pub mod tls;
pub mod laws;
pub mod plan;
