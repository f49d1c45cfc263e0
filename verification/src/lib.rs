//! Cache-aware request routing: which pod already holds the longest prefix of a prompt.

pub mod bench_part2;
pub mod bitmap;
pub mod cli;
pub mod hash;
pub mod indexer;
pub mod laws;
pub mod metrics;
pub mod routing;
pub mod search;
mod seq_lemmas;
pub mod shard;
pub mod text;
pub mod types;
pub mod workload;
