//! The in-memory counter: pending downloads, spread over shards by the hash
//! of their key.

use vstd::prelude::*;
use vstd::multiset::Multiset;
use crate::day::Day;
use crate::key::{DownloadEvent, VersionKey, shard_for, shard_index};
use crate::shard::Shard;
use crate::tally::{
    Tally, TallyEntry, all_counted, lemma_count_present, lemma_count_witness,
    strictly_ordered, tally_of,
};

verus! {

/// Shards that hold nothing.
pub open spec fn idle_shards(shard_count: nat) -> Seq<Multiset<DownloadEvent>> {
    Seq::new(shard_count, |i: int| Multiset::empty())
}

/// Every event of `batch` has a key that lives in shard `index`.
pub open spec fn belongs_to(batch: Multiset<DownloadEvent>, index: int, shard_count: nat) -> bool {
    forall|event: DownloadEvent| #[trigger]
        batch.count(event) > 0 ==> shard_index(event.key, shard_count) == index
}

/// Every pending event lies in the shard of its key, so no key has events in
/// two shards.
pub open spec fn placed(shards: Seq<Multiset<DownloadEvent>>) -> bool {
    forall|i: int| 0 <= i < shards.len() ==> belongs_to(#[trigger] shards[i], i, shards.len())
}

/// All pending events together: the complete unflushed state.
pub open spec fn pending(shards: Seq<Multiset<DownloadEvent>>) -> Multiset<DownloadEvent>
    decreases shards.len(),
{
    if shards.len() == 0 {
        Multiset::empty()
    } else {
        pending(shards.drop_last()).add(shards.last())
    }
}

/// Whether the shard of `key` can count one more download.
pub open spec fn has_room(shards: Seq<Multiset<DownloadEvent>>, key: VersionKey) -> bool {
    shards.len() > 0 && shards[shard_index(key, shards.len()) as int].len() < u64::MAX
}

/// The shards after one more download of `key` on `day`.
pub open spec fn incremented(shards: Seq<Multiset<DownloadEvent>>, key: VersionKey, day: Day) -> Seq<
    Multiset<DownloadEvent>,
> {
    let index = shard_index(key, shards.len()) as int;
    shards.update(index, shards[index].insert(DownloadEvent { key, day }))
}

/// The pending downloads of `key` on `day`.
pub open spec fn pending_downloads(
    shards: Seq<Multiset<DownloadEvent>>,
    key: VersionKey,
    day: Day,
) -> nat {
    shards[shard_index(key, shards.len()) as int].count(DownloadEvent { key, day })
}

/// Pending download counts, partitioned into a fixed number of shards.
pub struct ShardedCounter {
    shards: Vec<Shard>,
}

impl View for ShardedCounter {
    type V = Seq<Multiset<DownloadEvent>>;

    closed spec fn view(&self) -> Seq<Multiset<DownloadEvent>> {
        Seq::new(self.shards@.len(), |i: int| self.shards@[i]@)
    }
}

impl ShardedCounter {
    /// The representation invariant: at least one shard, each well-formed,
    /// each event in the shard of its key.
    pub closed spec fn wf(&self) -> bool {
        &&& self.shards@.len() > 0
        &&& forall|i: int| 0 <= i < self.shards@.len() ==> (#[trigger] self.shards@[i]).wf()
        &&& placed(self@)
    }

    /// What well-formedness says of the shards.
    pub proof fn lemma_wf(&self)
        requires
            self.wf(),
        ensures
            self@.len() > 0,
            placed(self@),
            forall|i: int| 0 <= i < self@.len() ==> (#[trigger] self@[i]).len() <= u64::MAX,
    {
        assert forall|i: int| 0 <= i < self@.len() implies (#[trigger] self@[i]).len()
            <= u64::MAX by {
            self.shards@[i].lemma_bounded();
        }
    }

    /// A counter of `shard_count` empty shards; none where `shard_count` is 0.
    pub fn new(shard_count: usize) -> (counter: Option<ShardedCounter>)
        ensures
            shard_count == 0 <==> counter is None,
            counter matches Some(c) ==> c.wf() && c@ == idle_shards(shard_count as nat),
    {
        if shard_count == 0 {
            return None;
        }
        let mut shards: Vec<Shard> = Vec::new();
        let mut i: usize = 0;
        while i < shard_count
            invariant
                i <= shard_count,
                shards@.len() == i,
                forall|j: int|
                    0 <= j < i ==> (#[trigger] shards@[j]).wf() && shards@[j]@ == Multiset::<
                        DownloadEvent,
                    >::empty(),
            decreases shard_count - i,
        {
            shards.push(Shard::new());
            i = i + 1;
        }
        let counter = ShardedCounter { shards };
        Some(counter)
    }

    /// The number of shards, fixed at construction.
    pub fn shard_count(&self) -> (n: usize)
        ensures
            n == self@.len(),
    {
        self.shards.len()
    }

    /// Whether the shard of `key` can count one more download.
    pub fn room_for(&self, key: VersionKey) -> (room: bool)
        requires
            self.wf(),
        ensures
            room == has_room(self@, key),
    {
        let index: usize = shard_for(key, self.shards.len());
        self.shards[index].total() < u64::MAX
    }

    /// The pending downloads of `key` on `day`.
    pub fn pending_on(&self, key: VersionKey, day: Day) -> (n: u64)
        requires
            self.wf(),
        ensures
            n == pending_downloads(self@, key, day),
    {
        let index: usize = shard_for(key, self.shards.len());
        self.shards[index].count(DownloadEvent { key, day })
    }

    /// Counts one download of `key` on `day`, in the shard of `key`.
    pub fn increment(&mut self, key: VersionKey, day: Day)
        requires
            old(self).wf(),
            has_room(old(self)@, key),
        ensures
            final(self).wf(),
            final(self)@ == incremented(old(self)@, key, day),
    {
        let index: usize = shard_for(key, self.shards.len());
        self.shards[index].record_one(DownloadEvent { key, day });
        proof {
            assert(self@ =~= incremented(old(self)@, key, day));
        }
    }

    /// Empties one shard and hands out all that it held.
    pub fn drain_shard(&mut self, index: usize) -> (batch: Tally)
        requires
            old(self).wf(),
            index < old(self)@.len(),
        ensures
            final(self).wf(),
            batch.wf(),
            batch@ == old(self)@[index as int],
            final(self)@ == old(self)@.update(index as int, Multiset::empty()),
    {
        let batch = self.shards[index].drain();
        proof {
            assert(self@ =~= old(self)@.update(index as int, Multiset::empty()));
        }
        batch
    }

    /// Whether `batch` can be merged back into shard `index`: the shard
    /// exists, the events of the batch belong to it, and their number fits.
    pub open spec fn takes_back(&self, index: int, batch: Multiset<DownloadEvent>) -> bool {
        &&& 0 <= index < self@.len()
        &&& belongs_to(batch, index, self@.len())
        &&& self@[index].len() + batch.len() <= u64::MAX
    }

    /// Tests whether `batch` can be merged back into shard `index`.
    pub fn can_restore(&self, index: usize, batch: &Tally) -> (ok: bool)
        requires
            self.wf(),
            batch.wf(),
        ensures
            ok == self.takes_back(index as int, batch@),
    {
        let shard_count: usize = self.shards.len();
        if index >= shard_count {
            return false;
        }
        let room: u64 = u64::MAX - self.shards[index].total();
        if batch.total() > room {
            return false;
        }
        let ghost listing = batch.listing();
        proof {
            batch.lemma_listing();
        }
        let n: usize = batch.entry_count();
        let mut i: usize = 0;
        while i < n
            invariant
                i <= n,
                n == listing.len(),
                listing == batch.listing(),
                strictly_ordered(listing),
                all_counted(listing),
                tally_of(listing) == batch@,
                shard_count == self@.len(),
                shard_count > 0,
                forall|j: int|
                    0 <= j < i ==> shard_index((#[trigger] listing[j]).event.key, shard_count as nat)
                        == index,
            decreases n - i,
        {
            let entry: TallyEntry = batch.entry_at(i);
            if shard_for(entry.event.key, shard_count) != index {
                proof {
                    lemma_count_present(listing, i as int);
                }
                return false;
            }
            i = i + 1;
        }
        proof {
            assert forall|event: DownloadEvent| #[trigger] batch@.count(event) > 0 implies shard_index(
                event.key,
                shard_count as nat,
            ) == index by {
                let at = lemma_count_witness(listing, event);
            }
        }
        true
    }

    /// Merges a drained batch back into its shard: the counts are added to
    /// what the shard has gathered since.
    pub fn restore_shard(&mut self, index: usize, batch: &Tally)
        requires
            old(self).wf(),
            batch.wf(),
            old(self).takes_back(index as int, batch@),
        ensures
            final(self).wf(),
            final(self)@ == old(self)@.update(index as int, old(self)@[index as int].add(batch@)),
    {
        self.shards[index].absorb(batch);
        proof {
            let target = old(self)@.update(index as int, old(self)@[index as int].add(batch@));
            assert(self@ =~= target);
        }
    }
}

} // verus!
