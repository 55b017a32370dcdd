//! A distributed in-memory cache: LRU storage with TTL expiry, consistent
//! hashing, a line-oriented wire protocol, replication and failure
//! detection bookkeeping, latency histograms and workload generation.

pub mod bench;
pub mod client;
pub mod config;
pub mod control;
pub mod entry;
pub mod experiment;
pub mod hashing;
pub mod heartbeat;
pub mod internal;
pub mod latency;
pub mod metrics;
pub mod ports;
pub mod protocol;
pub mod rebalance;
pub mod server;
pub mod storage;
pub mod text;
pub mod workload;
