//! The durable download records: one count per version and day, changed only
//! by adding to it, and read by the history queries.

use vstd::prelude::*;
use vstd::multiset::Multiset;
use crate::day::{Day, in_window};
use crate::key::{DownloadEvent, VersionKey, event_before};
use crate::tally::{
    Tally, TallyEntry, copies, tally_of, strictly_ordered, lemma_copies_count,
    lemma_copies_len, lemma_tally_prefix,
};

verus! {

/// Why the ledger refused a write.
#[derive(Clone, Copy, Debug, PartialEq, Eq, Structural)]
pub enum StoreError {
    /// The ledger does not take writes at present.
    Unavailable,
    /// The ledger would hold more downloads than it can count.
    CountOverflow,
}

/// One line of a download history: the downloads of one day.
#[derive(Clone, Copy, Debug, PartialEq, Eq, Structural)]
pub struct DailyDownloads {
    pub day: Day,
    pub downloads: u64,
}

/// What a ledger holds: every persisted download, and whether writes are
/// taken.
#[verifier::ext_equal]
pub struct LedgerView {
    pub events: Multiset<DownloadEvent>,
    pub writable: bool,
}

impl LedgerView {
    /// One write transaction: the whole batch is added, or nothing changes.
    pub open spec fn apply(self, batch: Multiset<DownloadEvent>) -> Result<LedgerView, StoreError> {
        if !self.writable {
            Err(StoreError::Unavailable)
        } else if self.events.len() + batch.len() > u64::MAX {
            Err(StoreError::CountOverflow)
        } else {
            Ok(LedgerView { events: self.events.add(batch), writable: self.writable })
        }
    }

    /// The persisted downloads of `key` on `day`.
    pub open spec fn downloads(self, key: VersionKey, day: Day) -> nat {
        self.events.count(DownloadEvent { key, day })
    }
}

/// Selects the downloads of one package on one day.
pub open spec fn on_package_day(package_id: u32, day: Day) -> spec_fn(DownloadEvent) -> bool {
    |event: DownloadEvent| event.key.package_id == package_id && event.day == day
}

/// The downloads of all versions of a package on one day.
pub open spec fn package_downloads(
    events: Multiset<DownloadEvent>,
    package_id: u32,
    day: Day,
) -> nat {
    events.filter(on_package_day(package_id, day)).len()
}

/// Rows in strictly ascending order of day.
pub open spec fn ascending_days(rows: Seq<DailyDownloads>) -> bool {
    forall|i: int, j: int|
        #![trigger rows[i], rows[j]]
        0 <= i < j < rows.len() ==> rows[i].day.ordinal < rows[j].day.ordinal
}

/// Whether some row reports `day`.
pub open spec fn has_row(rows: Seq<DailyDownloads>, day: Day) -> bool {
    exists|i: int| 0 <= i < rows.len() && (#[trigger] rows[i]).day == day
}

/// The downloads that `rows` report for `day`: those of its row, or none
/// where no row reports the day.
pub open spec fn reported(rows: Seq<DailyDownloads>, day: Day) -> nat {
    if has_row(rows, day) {
        let i = choose|i: int| 0 <= i < rows.len() && (#[trigger] rows[i]).day == day;
        rows[i].downloads as nat
    } else {
        0
    }
}

/// `rows` is the history of `key` over the `window_days` days that end on
/// `end`: one row for each day of the window with a record, none for the
/// others, in ascending order of day, each with the recorded count.
pub open spec fn is_version_history(
    rows: Seq<DailyDownloads>,
    events: Multiset<DownloadEvent>,
    key: VersionKey,
    end: Day,
    window_days: u32,
) -> bool {
    &&& ascending_days(rows)
    &&& forall|i: int|
        0 <= i < rows.len() ==> {
            &&& in_window((#[trigger] rows[i]).day, end, window_days)
            &&& rows[i].downloads > 0
            &&& rows[i].downloads == events.count(DownloadEvent { key, day: rows[i].day })
        }
    &&& forall|day: Day|
        in_window(day, end, window_days) && #[trigger] events.count(DownloadEvent { key, day }) > 0
            ==> has_row(rows, day)
}

/// `rows` is the history of a package over the `window_days` days that end on
/// `end`: one row for each day of the window on which any of its versions has
/// a record, in ascending order of day, each with the sum over its versions.
pub open spec fn is_package_history(
    rows: Seq<DailyDownloads>,
    events: Multiset<DownloadEvent>,
    package_id: u32,
    end: Day,
    window_days: u32,
) -> bool {
    &&& ascending_days(rows)
    &&& forall|i: int|
        0 <= i < rows.len() ==> {
            &&& in_window((#[trigger] rows[i]).day, end, window_days)
            &&& rows[i].downloads > 0
            &&& rows[i].downloads == package_downloads(events, package_id, rows[i].day)
        }
    &&& forall|day: Day|
        in_window(day, end, window_days) && #[trigger] package_downloads(events, package_id, day)
            > 0 ==> has_row(rows, day)
}

/// A selection of a multiset has no more members than the multiset.
pub proof fn lemma_filter_len(events: Multiset<DownloadEvent>, select: spec_fn(DownloadEvent) -> bool)
    ensures
        events.filter(select).len() <= events.len(),
{
    let others = |event: DownloadEvent| !select(event);
    assert(events =~= events.filter(select).add(events.filter(others)));
}

/// The downloads of a package on a day add up over a sum of multisets.
pub proof fn lemma_package_downloads_sum(
    a: Multiset<DownloadEvent>,
    b: Multiset<DownloadEvent>,
    package_id: u32,
    day: Day,
)
    ensures
        package_downloads(a.add(b), package_id, day) == package_downloads(a, package_id, day)
            + package_downloads(b, package_id, day),
{
    let select = on_package_day(package_id, day);
    assert(a.add(b).filter(select) =~= a.filter(select).add(b.filter(select)));
}

/// Copies of one event count for its own package and day, and for no other.
pub proof fn lemma_package_downloads_copies(
    event: DownloadEvent,
    n: nat,
    package_id: u32,
    day: Day,
)
    ensures
        package_downloads(copies(event, n), package_id, day) == if event.key.package_id
            == package_id && event.day == day {
            n
        } else {
            0
        },
{
    let select = on_package_day(package_id, day);
    assert forall|x: DownloadEvent|
        copies(event, n).filter(select).count(x) == if select(event) {
            copies(event, n).count(x)
        } else {
            0
        } by {
        lemma_copies_count(event, n, x);
    }
    if select(event) {
        assert(copies(event, n).filter(select) =~= copies(event, n));
        lemma_copies_len(event, n);
    } else {
        assert(copies(event, n).filter(select) =~= Multiset::empty());
    }
}

/// The durable records, held in memory.
pub struct DownloadLedger {
    table: Tally,
    writable: bool,
}

impl View for DownloadLedger {
    type V = LedgerView;

    closed spec fn view(&self) -> LedgerView {
        LedgerView { events: self.table@, writable: self.writable }
    }
}

impl DownloadLedger {
    /// The representation invariant.
    pub closed spec fn wf(&self) -> bool {
        self.table.wf()
    }

    /// A well-formed ledger holds no more downloads than a `u64` counts.
    pub proof fn lemma_bounded(&self)
        requires
            self.wf(),
        ensures
            self@.events.len() <= u64::MAX,
    {
        self.table.lemma_listing();
    }

    /// An empty ledger that takes writes.
    pub fn new() -> (ledger: DownloadLedger)
        ensures
            ledger.wf(),
            ledger@ == (LedgerView { events: Multiset::empty(), writable: true }),
    {
        DownloadLedger { table: Tally::new(), writable: true }
    }

    /// Makes the ledger take writes, or refuse them.
    pub fn set_writable(&mut self, writable: bool)
        requires
            old(self).wf(),
        ensures
            final(self).wf(),
            final(self)@ == (LedgerView { events: old(self)@.events, writable }),
    {
        self.writable = writable;
    }

    /// Whether the ledger takes writes.
    pub fn is_writable(&self) -> (writable: bool)
        ensures
            writable == self@.writable,
    {
        self.writable
    }

    /// The number of persisted downloads.
    pub fn total(&self) -> (total: u64)
        requires
            self.wf(),
        ensures
            total == self@.events.len(),
    {
        self.table.total()
    }

    /// The persisted downloads of `key` on `day`.
    pub fn downloads_on(&self, key: VersionKey, day: Day) -> (downloads: u64)
        requires
            self.wf(),
        ensures
            downloads == self@.downloads(key, day),
    {
        self.table.count(DownloadEvent { key, day })
    }

    /// Writes a batch in one transaction: every event of it is added to the
    /// records, or, where the ledger refuses, none is.
    pub fn apply(&mut self, batch: &Tally) -> (result: Result<(), StoreError>)
        requires
            old(self).wf(),
            batch.wf(),
        ensures
            final(self).wf(),
            match old(self)@.apply(batch@) {
                Ok(after) => result is Ok && final(self)@ == after,
                Err(error) => result == Err::<(), StoreError>(error) && final(self)@ == old(self)@,
            },
    {
        if !self.writable {
            return Err(StoreError::Unavailable);
        }
        let room: u64 = u64::MAX - self.table.total();
        if batch.total() > room {
            return Err(StoreError::CountOverflow);
        }
        self.table.absorb(batch);
        Ok(())
    }

    /// Adds `delta` to the record of `key` on `day`, creating it if need be.
    pub fn upsert_add(&mut self, key: VersionKey, day: Day, delta: u64) -> (result: Result<
        (),
        StoreError,
    >)
        requires
            old(self).wf(),
        ensures
            final(self).wf(),
            match old(self)@.apply(copies(DownloadEvent { key, day }, delta as nat)) {
                Ok(after) => result is Ok && final(self)@ == after,
                Err(error) => result == Err::<(), StoreError>(error) && final(self)@ == old(self)@,
            },
    {
        proof {
            lemma_copies_len(DownloadEvent { key, day }, delta as nat);
        }
        if !self.writable {
            return Err(StoreError::Unavailable);
        }
        let room: u64 = u64::MAX - self.table.total();
        if delta > room {
            return Err(StoreError::CountOverflow);
        }
        self.table.record(DownloadEvent { key, day }, delta);
        Ok(())
    }

    /// The history of one version: its records over the `window_days` days
    /// that end on `end`, in ascending order of day.
    pub fn version_history(&self, key: VersionKey, end: Day, window_days: u32) -> (rows: Vec<
        DailyDownloads,
    >)
        requires
            self.wf(),
        ensures
            is_version_history(rows@, self@.events, key, end, window_days),
    {
        let ghost listing = self.table.listing();
        proof {
            self.table.lemma_listing();
        }
        let n: usize = self.table.entry_count();
        let mut rows: Vec<DailyDownloads> = Vec::new();
        let mut i: usize = 0;
        while i < n
            invariant
                i <= n,
                n == listing.len(),
                listing == self.table.listing(),
                strictly_ordered(listing),
                crate::tally::all_counted(listing),
                is_version_history(rows@, tally_of(listing.take(i as int)), key, end, window_days),
                forall|k: int, m: int|
                    #![trigger rows@[k], listing[m]]
                    0 <= k < rows@.len() && i <= m < n ==> event_before(
                        DownloadEvent { key, day: rows@[k].day },
                        listing[m].event,
                    ),
            decreases n - i,
        {
            let entry: TallyEntry = self.table.entry_at(i);
            let ghost seen = tally_of(listing.take(i as int));
            let ghost next = tally_of(listing.take(i as int + 1));
            let ghost old_rows = rows@;
            proof {
                assert(listing.take(i as int + 1).drop_last() =~= listing.take(i as int));
                assert forall|x: DownloadEvent| next.count(x) == seen.count(x) + if x
                    == entry.event {
                    entry.count as nat
                } else {
                    0
                } by {
                    lemma_copies_count(entry.event, entry.count as nat, x);
                }
            }
            if entry.event.key == key && entry.event.day.within(end, window_days) {
                rows.push(DailyDownloads { day: entry.event.day, downloads: entry.count });
                proof {
                    let last = old_rows.len() as int;
                    assert(rows@[last].day == entry.event.day);
                    assert forall|day: Day|
                        in_window(day, end, window_days) && #[trigger] next.count(
                            DownloadEvent { key, day },
                        ) > 0 implies has_row(rows@, day) by {
                        if (DownloadEvent { key, day }) != entry.event {
                            let w = choose|w: int|
                                0 <= w < old_rows.len() && (#[trigger] old_rows[w]).day == day;
                            assert(rows@[w] == old_rows[w]);
                        }
                    }
                }
            }
            i = i + 1;
        }
        proof {
            assert(listing.take(n as int) =~= listing);
        }
        rows
    }

    /// The history of one package: for each of the `window_days` days that end
    /// on `end`, the downloads of all its versions together, in ascending
    /// order of day.
    pub fn package_history(&self, package_id: u32, end: Day, window_days: u32) -> (rows: Vec<
        DailyDownloads,
    >)
        requires
            self.wf(),
        ensures
            is_package_history(rows@, self@.events, package_id, end, window_days),
    {
        let ghost listing = self.table.listing();
        proof {
            self.table.lemma_listing();
            assert forall|day: Day|
                #[trigger] package_downloads(Multiset::empty(), package_id, day) == 0 by {
                lemma_filter_len(Multiset::empty(), on_package_day(package_id, day));
            }
        }
        let n: usize = self.table.entry_count();
        let mut rows: Vec<DailyDownloads> = Vec::new();
        let mut i: usize = 0;
        while i < n
            invariant
                i <= n,
                n == listing.len(),
                listing == self.table.listing(),
                strictly_ordered(listing),
                crate::tally::all_counted(listing),
                tally_of(listing).len() <= u64::MAX,
                is_package_history(
                    rows@,
                    tally_of(listing.take(i as int)),
                    package_id,
                    end,
                    window_days,
                ),
                forall|k: int, m: int|
                    #![trigger rows@[k], listing[m]]
                    0 <= k < rows@.len() && i <= m < n ==> rows@[k].day.ordinal
                        <= listing[m].event.day.ordinal,
            decreases n - i,
        {
            let entry: TallyEntry = self.table.entry_at(i);
            let ghost seen = tally_of(listing.take(i as int));
            let ghost next = tally_of(listing.take(i as int + 1));
            let ghost old_rows = rows@;
            proof {
                assert(listing.take(i as int + 1).drop_last() =~= listing.take(i as int));
                assert forall|day: Day|
                    #[trigger] package_downloads(next, package_id, day) == package_downloads(
                        seen,
                        package_id,
                        day,
                    ) + if entry.event.key.package_id == package_id && entry.event.day == day {
                        entry.count as nat
                    } else {
                        0
                    } by {
                    lemma_package_downloads_sum(
                        seen,
                        copies(entry.event, entry.count as nat),
                        package_id,
                        day,
                    );
                    lemma_package_downloads_copies(
                        entry.event,
                        entry.count as nat,
                        package_id,
                        day,
                    );
                }
                lemma_filter_len(next, on_package_day(package_id, entry.event.day));
                lemma_tally_prefix(listing, i as int + 1);
            }
            if entry.event.key.package_id == package_id && entry.event.day.within(
                end,
                window_days,
            ) {
                let len: usize = rows.len();
                if len > 0 && rows[len - 1].day == entry.event.day {
                    let last: DailyDownloads = rows[len - 1];
                    assert(last.downloads + entry.count <= u64::MAX) by {
                        assert(package_downloads(next, package_id, entry.event.day)
                            == last.downloads + entry.count);
                    }
                    rows.set(
                        len - 1,
                        DailyDownloads { day: last.day, downloads: last.downloads + entry.count },
                    );
                    proof {
                        assert forall|day: Day|
                            in_window(day, end, window_days) && #[trigger] package_downloads(
                                next,
                                package_id,
                                day,
                            ) > 0 implies has_row(rows@, day) by {
                            if day == entry.event.day {
                                assert(rows@[len - 1].day == day);
                            } else {
                                let w = choose|w: int|
                                    0 <= w < old_rows.len() && (#[trigger] old_rows[w]).day == day;
                                assert(rows@[w].day == old_rows[w].day);
                            }
                        }
                    }
                } else {
                    rows.push(DailyDownloads { day: entry.event.day, downloads: entry.count });
                    proof {
                        let last = old_rows.len() as int;
                        assert(rows@[last].day == entry.event.day);
                        assert forall|day: Day|
                            in_window(day, end, window_days) && #[trigger] package_downloads(
                                next,
                                package_id,
                                day,
                            ) > 0 implies has_row(rows@, day) by {
                            if day != entry.event.day {
                                let w = choose|w: int|
                                    0 <= w < old_rows.len() && (#[trigger] old_rows[w]).day == day;
                                assert(rows@[w] == old_rows[w]);
                            }
                        }
                    }
                }
            }
            i = i + 1;
        }
        proof {
            assert(listing.take(n as int) =~= listing);
        }
        rows
    }
}

} // verus!
