//! Core logic of an ingester node in a distributed log-ingestion cluster.
//!
//! The ingester accepts document batches from routers, appends them durably
//! to a per-shard write-ahead log, and, when a follower is configured,
//! replicates them over an ordered per-follower stream before acknowledging.
//! Consumers tail committed records through fetch streams; retention is
//! driven by client-side truncation.
//!
//! This crate holds the verified core: the record codec, the write-ahead-log
//! model, the shard table, the replication bookkeeping, and the decision
//! logic of `persist`, `truncate`, `open_replication_stream`,
//! `open_fetch_stream`, `ping`, and startup sealing. Everything asynchronous
//! (the storage engine, channels, RPC) lives outside and drives this core
//! with plain values.

pub mod position;
pub mod mrecord;
pub mod types;
pub mod table;
pub mod wal;
pub mod shard;
pub mod messages;
pub mod replication;
pub mod ingester;
pub mod fetch;
