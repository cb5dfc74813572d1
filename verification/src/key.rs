//! Version keys, download events, their order, and the shard a key lives in.

use vstd::prelude::*;
use crate::day::Day;

verus! {

/// One version of one package.
#[derive(Clone, Copy, Debug, PartialEq, Eq, Structural)]
pub struct VersionKey {
    pub package_id: u32,
    pub version_id: u32,
}

/// One download of a version on a day. Counters and the ledger are multisets
/// of these.
#[derive(Clone, Copy, Debug, PartialEq, Eq, Structural)]
pub struct DownloadEvent {
    pub key: VersionKey,
    pub day: Day,
}

/// The order in which events are stored and reported: by day, then by
/// package, then by version.
pub open spec fn event_before(a: DownloadEvent, b: DownloadEvent) -> bool {
    ||| a.day.ordinal < b.day.ordinal
    ||| (a.day.ordinal == b.day.ordinal && a.key.package_id < b.key.package_id)
    ||| (a.day.ordinal == b.day.ordinal && a.key.package_id == b.key.package_id
        && a.key.version_id < b.key.version_id)
}

/// The hash that spreads keys over shards.
pub open spec fn key_hash(key: VersionKey) -> nat {
    (key.package_id * 31 + key.version_id) as nat
}

/// The one shard, of `shard_count`, that holds the pending downloads of `key`.
pub open spec fn shard_index(key: VersionKey, shard_count: nat) -> nat
    recommends
        shard_count > 0,
{
    key_hash(key) % shard_count
}

/// Computes the shard of `key`.
pub fn shard_for(key: VersionKey, shard_count: usize) -> (index: usize)
    requires
        shard_count > 0,
    ensures
        index == shard_index(key, shard_count as nat),
        index < shard_count,
{
    let hash: u64 = (key.package_id as u64) * 31 + (key.version_id as u64);
    let index: u64 = hash % (shard_count as u64);
    index as usize
}

impl DownloadEvent {
    /// Whether this event is stored before `other`.
    pub fn before(&self, other: &DownloadEvent) -> (earlier: bool)
        ensures
            earlier == event_before(*self, *other),
    {
        if self.day.ordinal != other.day.ordinal {
            self.day.ordinal < other.day.ordinal
        } else if self.key.package_id != other.key.package_id {
            self.key.package_id < other.key.package_id
        } else {
            self.key.version_id < other.key.version_id
        }
    }
}

} // verus!
