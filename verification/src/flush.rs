//! The flush: each shard in turn is drained and written to the ledger in one
//! transaction; what the ledger refuses goes back into its shard.

use vstd::prelude::*;
use vstd::multiset::Multiset;
use crate::counter::ShardedCounter;
use crate::key::DownloadEvent;
use crate::ledger::{DownloadLedger, LedgerView, StoreError};

verus! {

/// What a flush did with one shard.
#[derive(Clone, Copy, Debug, PartialEq, Eq, Structural)]
pub enum ShardFlush {
    /// The shard held nothing: no transaction was attempted.
    Idle,
    /// All downloads of the shard, this many, are now in the ledger.
    Persisted(u64),
    /// The ledger refused the transaction: the shard holds what it held.
    Failed(StoreError),
}

/// The downloads that a flush persisted, over all shards.
pub open spec fn persisted_total(report: Seq<ShardFlush>) -> nat
    decreases report.len(),
{
    if report.len() == 0 {
        0
    } else {
        persisted_total(report.drop_last()) + match report.last() {
            ShardFlush::Persisted(n) => n as nat,
            _ => 0,
        }
    }
}

/// No shard failed.
pub open spec fn all_settled(report: Seq<ShardFlush>) -> bool {
    forall|i: int| 0 <= i < report.len() ==> !((#[trigger] report[i]) is Failed)
}

/// The shards, the ledger and the report while a flush is under way.
#[verifier::ext_equal]
pub struct FlushState {
    pub shards: Seq<Multiset<DownloadEvent>>,
    pub ledger: LedgerView,
    pub report: Seq<ShardFlush>,
}

/// The flush of one shard: nothing for an empty shard; else one transaction,
/// after which the shard is empty, or, where the ledger refused, unchanged.
pub open spec fn flush_one(state: FlushState, index: int) -> FlushState {
    let batch = state.shards[index];
    if batch.len() == 0 {
        FlushState { report: state.report.push(ShardFlush::Idle), ..state }
    } else {
        match state.ledger.apply(batch) {
            Ok(ledger) => FlushState {
                shards: state.shards.update(index, Multiset::empty()),
                ledger,
                report: state.report.push(ShardFlush::Persisted(batch.len() as u64)),
            },
            Err(error) => FlushState {
                report: state.report.push(ShardFlush::Failed(error)),
                ..state
            },
        }
    }
}

/// The flush of the first `upto` shards, in order.
pub open spec fn flush_upto(
    shards: Seq<Multiset<DownloadEvent>>,
    ledger: LedgerView,
    upto: nat,
) -> FlushState
    decreases upto,
{
    if upto == 0 {
        FlushState { shards, ledger, report: Seq::empty() }
    } else {
        flush_one(flush_upto(shards, ledger, (upto - 1) as nat), upto - 1)
    }
}

/// One whole flush cycle.
pub open spec fn flush_all(shards: Seq<Multiset<DownloadEvent>>, ledger: LedgerView) -> FlushState {
    flush_upto(shards, ledger, shards.len())
}

/// The result of one flush cycle.
#[derive(Debug)]
pub struct FlushOutcome {
    /// The downloads persisted in this cycle.
    pub persisted: u64,
    /// What became of each shard, by shard index.
    pub shards: Vec<ShardFlush>,
}

impl FlushOutcome {
    /// The total agrees with the per-shard report.
    pub open spec fn wf(&self) -> bool {
        self.persisted == persisted_total(self.shards@)
    }

    /// Whether no shard failed.
    pub fn is_clean(&self) -> (clean: bool)
        ensures
            clean == all_settled(self.shards@),
    {
        let n: usize = self.shards.len();
        let mut i: usize = 0;
        while i < n
            invariant
                i <= n,
                n == self.shards@.len(),
                forall|j: int| 0 <= j < i ==> !((#[trigger] self.shards@[j]) is Failed),
            decreases n - i,
        {
            match self.shards[i] {
                ShardFlush::Failed(_) => {
                    return false;
                },
                _ => {},
            }
            i = i + 1;
        }
        true
    }

    /// The shards that failed, with the error of each, in shard order.
    pub fn errors(&self) -> (errors: Vec<(usize, StoreError)>)
        ensures
            forall|k: int|
                0 <= k < errors@.len() ==> (#[trigger] errors@[k]).0 < self.shards@.len()
                    && self.shards@[errors@[k].0 as int] == ShardFlush::Failed(errors@[k].1),
            forall|k: int, l: int|
                #![trigger errors@[k], errors@[l]]
                0 <= k < l < errors@.len() ==> errors@[k].0 < errors@[l].0,
            forall|i: int|
                0 <= i < self.shards@.len() && (#[trigger] self.shards@[i]) is Failed ==> exists|
                    k: int,
                | 0 <= k < errors@.len() && (#[trigger] errors@[k]).0 == i,
    {
        let n: usize = self.shards.len();
        let mut errors: Vec<(usize, StoreError)> = Vec::new();
        let mut i: usize = 0;
        while i < n
            invariant
                i <= n,
                n == self.shards@.len(),
                forall|k: int|
                    0 <= k < errors@.len() ==> (#[trigger] errors@[k]).0 < i
                        && self.shards@[errors@[k].0 as int] == ShardFlush::Failed(errors@[k].1),
                forall|k: int, l: int|
                    #![trigger errors@[k], errors@[l]]
                    0 <= k < l < errors@.len() ==> errors@[k].0 < errors@[l].0,
                forall|j: int|
                    0 <= j < i && (#[trigger] self.shards@[j]) is Failed ==> exists|k: int|
                        0 <= k < errors@.len() && (#[trigger] errors@[k]).0 == j,
            decreases n - i,
        {
            let ghost found = errors@;
            match self.shards[i] {
                ShardFlush::Failed(error) => {
                    errors.push((i, error));
                    proof {
                        let last = found.len() as int;
                        assert(errors@[last].0 == i);
                        assert forall|j: int|
                            0 <= j < i + 1 && (#[trigger] self.shards@[j]) is Failed implies exists|
                            k: int,
                        | 0 <= k < errors@.len() && (#[trigger] errors@[k]).0 == j by {
                            if j < i {
                                let k = choose|k: int|
                                    0 <= k < found.len() && (#[trigger] found[k]).0 == j;
                                assert(errors@[k] == found[k]);
                            }
                        }
                    }
                },
                _ => {},
            }
            i = i + 1;
        }
        errors
    }
}

/// Runs one flush cycle: for each shard in turn, drains it and, if it held
/// anything, writes what it held to the ledger in one transaction. A batch
/// that the ledger refuses is merged back into its shard, to be tried again
/// by the next cycle.
pub fn persist_all_shards(counter: &mut ShardedCounter, ledger: &mut DownloadLedger) -> (outcome:
    FlushOutcome)
    requires
        old(counter).wf(),
        old(ledger).wf(),
    ensures
        final(counter).wf(),
        final(ledger).wf(),
        outcome.wf(),
        (FlushState { shards: final(counter)@, ledger: final(ledger)@, report: outcome.shards@ })
            == flush_all(old(counter)@, old(ledger)@),
{
    let n: usize = counter.shard_count();
    let mut report: Vec<ShardFlush> = Vec::new();
    let mut persisted: u64 = 0;
    let mut i: usize = 0;
    let ghost shards0 = counter@;
    let ghost ledger0 = ledger@;
    proof {
        ledger.lemma_bounded();
    }
    while i < n
        invariant
            i <= n,
            n == shards0.len(),
            n == counter@.len(),
            counter.wf(),
            ledger.wf(),
            persisted == persisted_total(report@),
            ledger0.events.len() + persisted == ledger@.events.len(),
            ledger@.events.len() <= u64::MAX,
            (FlushState { shards: counter@, ledger: ledger@, report: report@ }) == flush_upto(
                shards0,
                ledger0,
                i as nat,
            ),
        decreases n - i,
    {
        let ghost state = FlushState { shards: counter@, ledger: ledger@, report: report@ };
        proof {
            counter.lemma_wf();
        }
        let batch = counter.drain_shard(i);
        proof {
            assert(Multiset::<DownloadEvent>::empty().add(batch@) =~= batch@);
        }
        if batch.is_empty() {
            report.push(ShardFlush::Idle);
            proof {
                assert(report@.drop_last() =~= state.report);
            }
        } else {
            match ledger.apply(&batch) {
                Ok(()) => {
                    let moved: u64 = batch.total();
                    report.push(ShardFlush::Persisted(moved));
                    persisted = persisted + moved;
                    proof {
                        assert(report@.drop_last() =~= state.report);
                    }
                },
                Err(error) => {
                    counter.restore_shard(i, &batch);
                    report.push(ShardFlush::Failed(error));
                    proof {
                        assert(report@.drop_last() =~= state.report);
                    }
                },
            }
        }
        i = i + 1;
    }
    FlushOutcome { persisted, shards: report }
}

} // verus!
