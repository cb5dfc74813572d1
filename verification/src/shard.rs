//! One shard of the counter: the pending downloads of the keys that hash to
//! it, with an index that finds the count of an event in expected constant
//! time.

use std::collections::HashMap;
use vstd::prelude::*;
use vstd::multiset::Multiset;
use crate::key::DownloadEvent;
use crate::tally::{
    Tally, TallyEntry, all_counted, copies, lemma_copies_len, lemma_count_absent,
    lemma_count_present, lemma_tally_prefix, lemma_tally_push, lemma_tally_raise, tally_of,
};

verus! {

/// The number under which a shard indexes an event: package, version and
/// day, each in digits of its own.
pub open spec fn event_code(event: DownloadEvent) -> int {
    (event.key.package_id as int) * 0x1_0000_0000_0000_0000int + (event.key.version_id as int)
        * 0x1_0000_0000int + (event.day.ordinal as int + 0x8000_0000int)
}

/// Computes the code of an event.
fn code_of(event: &DownloadEvent) -> (code: u128)
    ensures
        code == event_code(*event),
{
    let package: u128 = event.key.package_id as u128;
    let version: u128 = event.key.version_id as u128;
    let day: u128 = (event.day.ordinal as i64 + 0x8000_0000i64) as u128;
    package * 0x1_0000_0000_0000_0000u128 + version * 0x1_0000_0000u128 + day
}

/// The index holds, for each entry, its place under the code of its event,
/// and nothing else.
pub open spec fn indexed(entries: Seq<TallyEntry>, index: Map<u128, usize>) -> bool {
    &&& forall|i: int|
        0 <= i < entries.len() ==> index.contains_key(
            event_code((#[trigger] entries[i]).event) as u128,
        ) && index[event_code(entries[i].event) as u128] == i
    &&& forall|code: u128| #[trigger]
        index.contains_key(code) ==> index[code] < entries.len() && event_code(
            entries[index[code] as int].event,
        ) == code
}

/// The pending downloads of one shard.
#[derive(Debug)]
pub struct Shard {
    entries: Vec<TallyEntry>,
    index: HashMap<u128, usize>,
    total: u64,
}

impl View for Shard {
    type V = Multiset<DownloadEvent>;

    closed spec fn view(&self) -> Multiset<DownloadEvent> {
        tally_of(self.entries@)
    }
}

impl Shard {
    /// The representation invariant: one counted entry for each pending
    /// event, each found through the index, and the number of pending
    /// downloads kept at hand.
    pub closed spec fn wf(&self) -> bool {
        &&& all_counted(self.entries@)
        &&& indexed(self.entries@, self.index@)
        &&& self.total == tally_of(self.entries@).len()
    }

    /// A well-formed shard holds no more downloads than a `u64` counts.
    pub proof fn lemma_bounded(&self)
        requires
            self.wf(),
        ensures
            self@.len() <= u64::MAX,
    {
    }

    /// An empty shard.
    pub fn new() -> (shard: Shard)
        ensures
            shard.wf(),
            shard@ == Multiset::<DownloadEvent>::empty(),
    {
        Shard { entries: Vec::new(), index: HashMap::new(), total: 0 }
    }

    /// The number of pending downloads.
    pub fn total(&self) -> (total: u64)
        requires
            self.wf(),
        ensures
            total == self@.len(),
    {
        self.total
    }

    /// The place of `event` among the entries, if it has one.
    fn find(&self, event: &DownloadEvent) -> (place: Option<usize>)
        requires
            self.wf(),
        ensures
            match place {
                Some(at) => at < self.entries@.len() && self.entries@[at as int].event == *event,
                None => forall|i: int|
                    0 <= i < self.entries@.len() ==> (#[trigger] self.entries@[i]).event != *event,
            },
    {
        let code: u128 = code_of(event);
        match self.index.get(&code) {
            Some(at) => {
                Some(*at)
            },
            None => None,
        }
    }

    /// The pending downloads of `event`.
    pub fn count(&self, event: DownloadEvent) -> (n: u64)
        requires
            self.wf(),
        ensures
            n == self@.count(event),
    {
        match self.find(&event) {
            Some(at) => {
                proof {
                    lemma_count_present(self.entries@, at as int);
                }
                self.entries[at].count
            },
            None => {
                proof {
                    lemma_count_absent(self.entries@, event);
                }
                0
            },
        }
    }

    /// Adds `n` pending downloads of `event`.
    pub fn record(&mut self, event: DownloadEvent, n: u64)
        requires
            old(self).wf(),
            old(self)@.len() + n <= u64::MAX,
        ensures
            final(self).wf(),
            final(self)@ == old(self)@.add(copies(event, n as nat)),
    {
        let ghost before = self.entries@;
        proof {
            lemma_copies_len(event, n as nat);
        }
        if n == 0 {
            return ;
        }
        match self.find(&event) {
            Some(at) => {
                let found: TallyEntry = self.entries[at];
                proof {
                    lemma_count_present(before, at as int);
                }
                let raised = TallyEntry { event, count: found.count + n };
                self.entries.set(at, raised);
                proof {
                    lemma_tally_raise(before, at as int, raised);
                }
            },
            None => {
                let at: usize = self.entries.len();
                let code: u128 = code_of(&event);
                let fresh = TallyEntry { event, count: n };
                self.entries.push(fresh);
                self.index.insert(code, at);
                proof {
                    lemma_tally_push(before, fresh);
                }
            },
        }
        self.total = self.total + n;
    }

    /// Adds one pending download of `event`.
    pub fn record_one(&mut self, event: DownloadEvent)
        requires
            old(self).wf(),
            old(self)@.len() < u64::MAX,
        ensures
            final(self).wf(),
            final(self)@ == old(self)@.insert(event),
    {
        self.record(event, 1);
        proof {
            assert(copies(event, 1) =~= Multiset::singleton(event)) by {
                assert(copies(event, 0) =~= Multiset::empty());
            }
        }
    }

    /// Merges a batch into the shard: every count of the batch is added to
    /// what the shard holds.
    pub fn absorb(&mut self, batch: &Tally)
        requires
            old(self).wf(),
            batch.wf(),
            old(self)@.len() + batch@.len() <= u64::MAX,
        ensures
            final(self).wf(),
            final(self)@ == old(self)@.add(batch@),
    {
        let ghost listing = batch.listing();
        proof {
            batch.lemma_listing();
        }
        let n: usize = batch.entry_count();
        let mut i: usize = 0;
        while i < n
            invariant
                i <= n,
                n == listing.len(),
                listing == batch.listing(),
                tally_of(listing) == batch@,
                self.wf(),
                old(self)@.len() + batch@.len() <= u64::MAX,
                self@ == old(self)@.add(tally_of(listing.take(i as int))),
            decreases n - i,
        {
            let entry: TallyEntry = batch.entry_at(i);
            proof {
                lemma_tally_prefix(listing, i as int + 1);
                assert(listing.take(i as int + 1).drop_last() =~= listing.take(i as int));
                lemma_copies_len(entry.event, entry.count as nat);
            }
            self.record(entry.event, entry.count);
            i = i + 1;
        }
        proof {
            assert(listing.take(n as int) =~= listing);
        }
    }

    /// Empties the shard and hands out all that it held, in one piece.
    pub fn drain(&mut self) -> (batch: Tally)
        requires
            old(self).wf(),
        ensures
            final(self).wf(),
            batch.wf(),
            batch@ == old(self)@,
            final(self)@ == Multiset::<DownloadEvent>::empty(),
    {
        let mut batch = Tally::new();
        let n: usize = self.entries.len();
        let mut i: usize = 0;
        while i < n
            invariant
                i <= n,
                n == self.entries@.len(),
                tally_of(self.entries@).len() <= u64::MAX,
                batch.wf(),
                batch@ == tally_of(self.entries@.take(i as int)),
            decreases n - i,
        {
            let entry: TallyEntry = self.entries[i];
            proof {
                lemma_tally_prefix(self.entries@, i as int + 1);
                assert(self.entries@.take(i as int + 1).drop_last() =~= self.entries@.take(
                    i as int,
                ));
                lemma_copies_len(entry.event, entry.count as nat);
            }
            batch.record(entry.event, entry.count);
            i = i + 1;
        }
        proof {
            assert(self.entries@.take(n as int) =~= self.entries@);
        }
        self.entries = Vec::new();
        self.index = HashMap::new();
        self.total = 0;
        batch
    }
}

} // verus!
