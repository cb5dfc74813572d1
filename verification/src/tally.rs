//! A tally: a finite multiset of download events, stored as one counted entry
//! per distinct event, in event order.

use vstd::prelude::*;
use vstd::multiset::Multiset;
use crate::key::{DownloadEvent, event_before};

verus! {

/// How often one event occurs in a tally.
#[derive(Clone, Copy, Debug, PartialEq, Eq, Structural)]
pub struct TallyEntry {
    pub event: DownloadEvent,
    pub count: u64,
}

/// The multiset that holds `event` exactly `n` times.
pub open spec fn copies(event: DownloadEvent, n: nat) -> Multiset<DownloadEvent>
    decreases n,
{
    if n == 0 {
        Multiset::empty()
    } else {
        copies(event, (n - 1) as nat).insert(event)
    }
}

/// The multiset that a list of entries stands for.
pub open spec fn tally_of(entries: Seq<TallyEntry>) -> Multiset<DownloadEvent>
    decreases entries.len(),
{
    if entries.len() == 0 {
        Multiset::empty()
    } else {
        tally_of(entries.drop_last()).add(copies(entries.last().event, entries.last().count as nat))
    }
}

/// Entries in strictly ascending event order: no event occurs twice.
pub open spec fn strictly_ordered(entries: Seq<TallyEntry>) -> bool {
    forall|i: int, j: int|
        #![trigger entries[i], entries[j]]
        0 <= i < j < entries.len() ==> event_before(entries[i].event, entries[j].event)
}

/// Every entry counts at least one event.
pub open spec fn all_counted(entries: Seq<TallyEntry>) -> bool {
    forall|i: int| 0 <= i < entries.len() ==> (#[trigger] entries[i]).count > 0
}

/// `copies(event, n)` holds `event` `n` times and nothing else.
pub proof fn lemma_copies_count(event: DownloadEvent, n: nat, other: DownloadEvent)
    ensures
        copies(event, n).count(other) == if other == event { n } else { 0 },
    decreases n,
{
    if n > 0 {
        lemma_copies_count(event, (n - 1) as nat, other);
    }
}

/// `copies(event, n)` has `n` members.
pub proof fn lemma_copies_len(event: DownloadEvent, n: nat)
    ensures
        copies(event, n).len() == n,
    decreases n,
{
    if n > 0 {
        lemma_copies_len(event, (n - 1) as nat);
    }
}

/// Copies of one event add up.
pub proof fn lemma_copies_sum(event: DownloadEvent, a: nat, b: nat)
    ensures
        copies(event, a + b) == copies(event, a).add(copies(event, b)),
{
    assert forall|x: DownloadEvent|
        copies(event, a + b).count(x) == copies(event, a).add(copies(event, b)).count(x) by {
        lemma_copies_count(event, a + b, x);
        lemma_copies_count(event, a, x);
        lemma_copies_count(event, b, x);
    }
}

/// Appending an entry adds its copies.
pub proof fn lemma_tally_push(entries: Seq<TallyEntry>, entry: TallyEntry)
    ensures
        tally_of(entries.push(entry)) == tally_of(entries).add(
            copies(entry.event, entry.count as nat),
        ),
{
    assert(entries.push(entry).drop_last() =~= entries);
}

/// Inserting an entry anywhere adds its copies.
pub proof fn lemma_tally_insert(entries: Seq<TallyEntry>, at: int, entry: TallyEntry)
    requires
        0 <= at <= entries.len(),
    ensures
        tally_of(entries.insert(at, entry)) == tally_of(entries).add(
            copies(entry.event, entry.count as nat),
        ),
    decreases entries.len(),
{
    let grown = entries.insert(at, entry);
    if at == entries.len() {
        assert(grown =~= entries.push(entry));
        lemma_tally_push(entries, entry);
    } else {
        assert(grown.drop_last() =~= entries.drop_last().insert(at, entry));
        lemma_tally_insert(entries.drop_last(), at, entry);
    }
}

/// Raising the count of one entry adds the difference in copies of its event.
pub proof fn lemma_tally_raise(entries: Seq<TallyEntry>, at: int, entry: TallyEntry)
    requires
        0 <= at < entries.len(),
        entry.event == entries[at].event,
        entry.count >= entries[at].count,
    ensures
        tally_of(entries.update(at, entry)) == tally_of(entries).add(
            copies(entry.event, (entry.count - entries[at].count) as nat),
        ),
    decreases entries.len(),
{
    let raised = entries.update(at, entry);
    let more = (entry.count - entries[at].count) as nat;
    if at == entries.len() - 1 {
        assert(raised.drop_last() =~= entries.drop_last());
        lemma_copies_sum(entry.event, entries[at].count as nat, more);
    } else {
        assert(raised.drop_last() =~= entries.drop_last().update(at, entry));
        lemma_tally_raise(entries.drop_last(), at, entry);
    }
}

/// An event that no entry names does not occur.
pub proof fn lemma_count_absent(entries: Seq<TallyEntry>, event: DownloadEvent)
    requires
        forall|i: int| 0 <= i < entries.len() ==> (#[trigger] entries[i]).event != event,
    ensures
        tally_of(entries).count(event) == 0,
    decreases entries.len(),
{
    if entries.len() > 0 {
        let rest = entries.drop_last();
        lemma_count_absent(rest, event);
        lemma_copies_count(entries.last().event, entries.last().count as nat, event);
    }
}

/// No event is named by two entries.
pub open spec fn distinct_events(entries: Seq<TallyEntry>) -> bool {
    forall|i: int, j: int|
        #![trigger entries[i], entries[j]]
        0 <= i < j < entries.len() ==> entries[i].event != entries[j].event
}

/// Where no event is named twice, an event occurs as often as its one entry
/// says.
pub proof fn lemma_count_present(entries: Seq<TallyEntry>, at: int)
    requires
        distinct_events(entries),
        0 <= at < entries.len(),
    ensures
        tally_of(entries).count(entries[at].event) == entries[at].count,
    decreases entries.len(),
{
    let event = entries[at].event;
    let rest = entries.drop_last();
    lemma_copies_count(entries.last().event, entries.last().count as nat, event);
    if at == entries.len() - 1 {
        lemma_count_absent(rest, event);
    } else {
        lemma_count_present(rest, at);
    }
}

/// An event that occurs is named by an entry.
pub proof fn lemma_count_witness(entries: Seq<TallyEntry>, event: DownloadEvent) -> (at: int)
    requires
        tally_of(entries).count(event) > 0,
    ensures
        0 <= at < entries.len(),
        entries[at].event == event,
{
    if forall|i: int| 0 <= i < entries.len() ==> (#[trigger] entries[i]).event != event {
        lemma_count_absent(entries, event);
        0
    } else {
        choose|i: int| 0 <= i < entries.len() && (#[trigger] entries[i]).event == event
    }
}

/// A tally has as many members as its entries count together, and a prefix of
/// the entries stands for no more than the whole.
pub proof fn lemma_tally_prefix(entries: Seq<TallyEntry>, upto: int)
    requires
        0 <= upto <= entries.len(),
    ensures
        tally_of(entries.take(upto)).subset_of(tally_of(entries)),
        tally_of(entries.take(upto)).len() <= tally_of(entries).len(),
    decreases entries.len() - upto,
{
    if upto == entries.len() {
        assert(entries.take(upto) =~= entries);
    } else {
        lemma_tally_prefix(entries, upto + 1);
        let longer = entries.take(upto + 1);
        assert(longer.drop_last() =~= entries.take(upto));
    }
}

/// A finite multiset of download events.
#[derive(Debug)]
pub struct Tally {
    entries: Vec<TallyEntry>,
    total: u64,
}

impl View for Tally {
    type V = Multiset<DownloadEvent>;

    closed spec fn view(&self) -> Multiset<DownloadEvent> {
        tally_of(self.entries@)
    }
}

impl Tally {
    /// The stored entries, in order.
    pub closed spec fn listing(&self) -> Seq<TallyEntry> {
        self.entries@
    }

    /// The representation invariant: distinct events in order, no entry
    /// without a count, and the number of members kept at hand.
    pub closed spec fn wf(&self) -> bool {
        &&& strictly_ordered(self.entries@)
        &&& all_counted(self.entries@)
        &&& self.total == tally_of(self.entries@).len()
    }

    /// What well-formedness says of the listing.
    pub proof fn lemma_listing(&self)
        requires
            self.wf(),
        ensures
            strictly_ordered(self.listing()),
            all_counted(self.listing()),
            tally_of(self.listing()) == self@,
            self@.len() <= u64::MAX,
    {
    }

    /// An empty tally.
    pub fn new() -> (tally: Tally)
        ensures
            tally.wf(),
            tally@ == Multiset::<DownloadEvent>::empty(),
            tally.listing().len() == 0,
    {
        Tally { entries: Vec::new(), total: 0 }
    }

    /// The number of events, each counted as often as it occurs.
    pub fn total(&self) -> (total: u64)
        requires
            self.wf(),
        ensures
            total == self@.len(),
    {
        self.total
    }

    /// Whether the tally holds no event.
    pub fn is_empty(&self) -> (empty: bool)
        requires
            self.wf(),
        ensures
            empty == (self@.len() == 0),
            empty == (self@ == Multiset::<DownloadEvent>::empty()),
    {
        self.total == 0
    }

    /// The number of distinct events.
    pub fn entry_count(&self) -> (n: usize)
        ensures
            n == self.listing().len(),
    {
        self.entries.len()
    }

    /// The entry at `index` of the listing.
    pub fn entry_at(&self, index: usize) -> (entry: TallyEntry)
        requires
            index < self.listing().len(),
        ensures
            entry == self.listing()[index as int],
    {
        self.entries[index]
    }

    /// Where `event` stands in the listing, or would stand.
    fn position(&self, event: &DownloadEvent) -> (at: usize)
        requires
            self.wf(),
        ensures
            at <= self.entries@.len(),
            forall|i: int| 0 <= i < at ==> event_before((#[trigger] self.entries@[i]).event, *event),
            forall|i: int|
                at <= i < self.entries@.len() ==> !event_before(
                    (#[trigger] self.entries@[i]).event,
                    *event,
                ),
    {
        let mut low: usize = 0;
        let mut high: usize = self.entries.len();
        while low < high
            invariant
                low <= high <= self.entries@.len(),
                strictly_ordered(self.entries@),
                forall|i: int|
                    0 <= i < low ==> event_before((#[trigger] self.entries@[i]).event, *event),
                forall|i: int|
                    high <= i < self.entries@.len() ==> !event_before(
                        (#[trigger] self.entries@[i]).event,
                        *event,
                    ),
            decreases high - low,
        {
            let middle: usize = low + (high - low) / 2;
            if self.entries[middle].event.before(event) {
                low = middle + 1;
            } else {
                high = middle;
            }
        }
        low
    }

    /// How often `event` occurs.
    pub fn count(&self, event: DownloadEvent) -> (n: u64)
        requires
            self.wf(),
        ensures
            n == self@.count(event),
    {
        let at: usize = self.position(&event);
        if at < self.entries.len() && self.entries[at].event == event {
            proof {
                lemma_count_present(self.entries@, at as int);
            }
            self.entries[at].count
        } else {
            proof {
                lemma_count_absent(self.entries@, event);
            }
            0
        }
    }

    /// Adds `n` occurrences of `event`.
    pub fn record(&mut self, event: DownloadEvent, n: u64)
        requires
            old(self).wf(),
            old(self)@.len() + n <= u64::MAX,
        ensures
            final(self).wf(),
            final(self)@ == old(self)@.add(copies(event, n as nat)),
    {
        let ghost before = self.entries@;
        proof {
            lemma_copies_len(event, n as nat);
        }
        if n == 0 {
            return ;
        }
        let at: usize = self.position(&event);
        if at < self.entries.len() && self.entries[at].event == event {
            let found: TallyEntry = self.entries[at];
            proof {
                lemma_count_present(before, at as int);
            }
            let raised = TallyEntry { event, count: found.count + n };
            self.entries.set(at, raised);
            proof {
                lemma_tally_raise(before, at as int, raised);
            }
        } else {
            let fresh = TallyEntry { event, count: n };
            self.entries.insert(at, fresh);
            proof {
                lemma_tally_insert(before, at as int, fresh);
            }
        }
        self.total = self.total + n;
    }

    /// Adds one occurrence of `event`.
    pub fn record_one(&mut self, event: DownloadEvent)
        requires
            old(self).wf(),
            old(self)@.len() < u64::MAX,
        ensures
            final(self).wf(),
            final(self)@ == old(self)@.insert(event),
    {
        self.record(event, 1);
        proof {
            assert(copies(event, 1) =~= Multiset::singleton(event)) by {
                assert(copies(event, 0) =~= Multiset::empty());
            }
        }
    }

    /// Adds every event of `other`, as often as it occurs there.
    pub fn absorb(&mut self, other: &Tally)
        requires
            old(self).wf(),
            other.wf(),
            old(self)@.len() + other@.len() <= u64::MAX,
        ensures
            final(self).wf(),
            final(self)@ == old(self)@.add(other@),
    {
        let n: usize = other.entries.len();
        let mut i: usize = 0;
        while i < n
            invariant
                i <= n,
                n == other.entries@.len(),
                self.wf(),
                other.wf(),
                old(self)@.len() + other@.len() <= u64::MAX,
                self@ == old(self)@.add(tally_of(other.entries@.take(i as int))),
            decreases n - i,
        {
            let entry: TallyEntry = other.entries[i];
            proof {
                lemma_tally_prefix(other.entries@, i as int + 1);
                assert(other.entries@.take(i as int + 1).drop_last() =~= other.entries@.take(
                    i as int,
                ));
                lemma_copies_len(entry.event, entry.count as nat);
            }
            self.record(entry.event, entry.count);
            i = i + 1;
        }
        proof {
            assert(other.entries@.take(n as int) =~= other.entries@);
        }
    }
}

} // verus!
