//! Download counting for a package registry.
//!
//! Downloads are absorbed by an in-memory [`counter::ShardedCounter`] and
//! folded, shard by shard, into a durable [`ledger::DownloadLedger`]. Queries
//! read the ledger alone, so a download becomes visible with the flush that
//! persists it.

pub mod day;
pub mod key;
pub mod tally;
pub mod shard;
pub mod ledger;
pub mod counter;
pub mod flush;
pub mod service;
pub mod catalog;
pub mod routes;
pub mod laws;
