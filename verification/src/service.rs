//! The download service: counts downloads in memory, persists them on
//! demand, and answers queries from the ledger alone.

use vstd::prelude::*;
use vstd::multiset::Multiset;
use crate::counter::{ShardedCounter, has_room, incremented};
use crate::day::{Day, DEFAULT_WINDOW_DAYS};
use crate::flush::{FlushOutcome, ShardFlush, flush_all, persist_all_shards};
use crate::key::{DownloadEvent, VersionKey};
use crate::ledger::{
    DailyDownloads, DownloadLedger, LedgerView, is_package_history, is_version_history,
};

verus! {

/// What the service holds: the pending downloads, by shard, and the ledger.
#[verifier::ext_equal]
pub struct ServiceView {
    pub shards: Seq<Multiset<DownloadEvent>>,
    pub ledger: LedgerView,
}

impl ServiceView {
    /// One more pending download of `key` on `day`.
    pub open spec fn record(self, key: VersionKey, day: Day) -> ServiceView {
        ServiceView { shards: incremented(self.shards, key, day), ledger: self.ledger }
    }

    /// `n` more pending downloads of `key` on `day`.
    pub open spec fn record_many(self, key: VersionKey, day: Day, n: nat) -> ServiceView
        decreases n,
    {
        if n == 0 {
            self
        } else {
            self.record_many(key, day, (n - 1) as nat).record(key, day)
        }
    }

    /// The state after one flush cycle.
    pub open spec fn flush(self) -> ServiceView {
        let end = flush_all(self.shards, self.ledger);
        ServiceView { shards: end.shards, ledger: end.ledger }
    }

    /// What one flush cycle reports of each shard.
    pub open spec fn flush_report(self) -> Seq<ShardFlush> {
        flush_all(self.shards, self.ledger).report
    }
}

/// The counter and the ledger behind the download and query endpoints.
pub struct DownloadService {
    pub counter: ShardedCounter,
    pub ledger: DownloadLedger,
}

impl View for DownloadService {
    type V = ServiceView;

    open spec fn view(&self) -> ServiceView {
        ServiceView { shards: self.counter@, ledger: self.ledger@ }
    }
}

impl DownloadService {
    /// Both parts are well-formed.
    pub open spec fn wf(&self) -> bool {
        self.counter.wf() && self.ledger.wf()
    }

    /// A service with `shard_count` empty shards and an empty ledger; none
    /// where `shard_count` is 0.
    pub fn new(shard_count: usize) -> (service: Option<DownloadService>)
        ensures
            shard_count == 0 <==> service is None,
            service matches Some(s) ==> s.wf() && s@ == (ServiceView {
                shards: crate::counter::idle_shards(shard_count as nat),
                ledger: LedgerView { events: Multiset::empty(), writable: true },
            }),
    {
        match ShardedCounter::new(shard_count) {
            Some(counter) => Some(DownloadService { counter, ledger: DownloadLedger::new() }),
            None => None,
        }
    }

    /// Counts one download of `key` on the day `today`. Nothing is written to
    /// the ledger and nothing is reported back: where the shard of `key`
    /// cannot count one download more, the download goes uncounted.
    pub fn record_download(&mut self, key: VersionKey, today: Day)
        requires
            old(self).wf(),
        ensures
            final(self).wf(),
            final(self)@ == if has_room(old(self)@.shards, key) {
                old(self)@.record(key, today)
            } else {
                old(self)@
            },
    {
        if self.counter.room_for(key) {
            self.counter.increment(key, today);
        }
    }

    /// The persisted downloads of `key` over the `window_days` days that end
    /// on `end`, one row per day with a record, in ascending order of day.
    /// Pending downloads are not read.
    pub fn query_version_downloads(&self, key: VersionKey, end: Day, window_days: u32) -> (rows:
        Vec<DailyDownloads>)
        requires
            self.wf(),
        ensures
            is_version_history(rows@, self@.ledger.events, key, end, window_days),
    {
        self.ledger.version_history(key, end, window_days)
    }

    /// The persisted downloads of all versions of a package, day by day, over
    /// the 90 days that end today. An end date that the caller supplies is
    /// ignored: a package's history is always the trailing window.
    pub fn query_package_downloads(
        &self,
        package_id: u32,
        end: Option<Day>,
        today: Day,
    ) -> (rows: Vec<DailyDownloads>)
        requires
            self.wf(),
        ensures
            is_package_history(rows@, self@.ledger.events, package_id, today, DEFAULT_WINDOW_DAYS),
    {
        self.ledger.package_history(package_id, today, DEFAULT_WINDOW_DAYS)
    }

    /// Runs one flush cycle over all shards.
    pub fn persist_all_shards(&mut self) -> (outcome: FlushOutcome)
        requires
            old(self).wf(),
        ensures
            final(self).wf(),
            outcome.wf(),
            final(self)@ == old(self)@.flush(),
            outcome.shards@ == old(self)@.flush_report(),
    {
        persist_all_shards(&mut self.counter, &mut self.ledger)
    }
}

} // verus!
