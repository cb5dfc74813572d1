//! What holds of the service as a whole: downloads are counted once, become
//! visible with the flush that persists them, and are never lost to a ledger
//! that refuses a write.

use vstd::prelude::*;
use vstd::multiset::Multiset;
use crate::catalog::{CatalogEntry, found_version, names_version};
use crate::counter::{belongs_to, incremented, pending, pending_downloads, placed};
use crate::day::{Day, in_window};
use crate::flush::{ShardFlush, all_settled, flush_upto, persisted_total};
use crate::key::{DownloadEvent, VersionKey, shard_index};
use crate::ledger::{
    DailyDownloads, LedgerView, ascending_days, has_row, is_package_history, is_version_history,
    reported,
};
use crate::service::ServiceView;
use crate::tally::copies;

verus! {

/// Putting another multiset in the place of one shard changes the pending
/// whole by the difference of the two.
pub proof fn lemma_pending_update(
    shards: Seq<Multiset<DownloadEvent>>,
    index: int,
    shard: Multiset<DownloadEvent>,
)
    requires
        0 <= index < shards.len(),
    ensures
        pending(shards.update(index, shard)).add(shards[index]) == pending(shards).add(shard),
    decreases shards.len(),
{
    let changed = shards.update(index, shard);
    if index == shards.len() - 1 {
        assert(changed.drop_last() =~= shards.drop_last());
    } else {
        assert(changed.drop_last() =~= shards.drop_last().update(index, shard));
        lemma_pending_update(shards.drop_last(), index, shard);
        assert forall|x: DownloadEvent|
            pending(changed.drop_last()).count(x) + shards[index].count(x) == pending(
                shards.drop_last(),
            ).count(x) + shard.count(x) by {
            assert(pending(changed.drop_last()).add(shards[index]).count(x) == pending(
                shards.drop_last(),
            ).add(shard).count(x));
        }
    }
}

/// Each shard is part of the pending whole.
pub proof fn lemma_pending_part(shards: Seq<Multiset<DownloadEvent>>, index: int)
    requires
        0 <= index < shards.len(),
    ensures
        shards[index].len() <= pending(shards).len(),
    decreases shards.len(),
{
    if index < shards.len() - 1 {
        lemma_pending_part(shards.drop_last(), index);
    }
}

/// Where every shard is empty, nothing is pending.
pub proof fn lemma_pending_none(shards: Seq<Multiset<DownloadEvent>>)
    requires
        forall|i: int| 0 <= i < shards.len() ==> (#[trigger] shards[i]).len() == 0,
    ensures
        pending(shards) == Multiset::<DownloadEvent>::empty(),
    decreases shards.len(),
{
    if shards.len() > 0 {
        let rest = shards.drop_last();
        lemma_pending_none(rest);
    }
}

/// One more download of a key is one more pending event.
pub proof fn lemma_pending_incremented(
    shards: Seq<Multiset<DownloadEvent>>,
    key: VersionKey,
    day: Day,
)
    requires
        shards.len() > 0,
    ensures
        pending(incremented(shards, key, day)) == pending(shards).insert(DownloadEvent { key, day }),
{
    let index = shard_index(key, shards.len()) as int;
    let event = DownloadEvent { key, day };
    lemma_pending_update(shards, index, shards[index].insert(event));
    let after = pending(incremented(shards, key, day));
    assert forall|x: DownloadEvent| after.count(x) == pending(shards).insert(event).count(x) by {
        assert(after.add(shards[index]).count(x) == pending(shards).add(
            shards[index].insert(event),
        ).count(x));
    }
}

/// Where at most one shard holds an event, the pending whole holds it as
/// often as that shard does.
pub proof fn lemma_pending_count(
    shards: Seq<Multiset<DownloadEvent>>,
    event: DownloadEvent,
    index: int,
)
    requires
        forall|i: int| 0 <= i < shards.len() && i != index ==> (#[trigger] shards[i]).count(event) == 0,
    ensures
        pending(shards).count(event) == if 0 <= index < shards.len() {
            shards[index].count(event)
        } else {
            0
        },
    decreases shards.len(),
{
    if shards.len() > 0 {
        let rest = shards.drop_last();
        assert forall|i: int| 0 <= i < rest.len() && i != index implies (#[trigger] rest[i]).count(
            event,
        ) == 0 by {
            assert(rest[i] == shards[i]);
        }
        lemma_pending_count(rest, event, index);
        if index != shards.len() - 1 {
            assert(shards[shards.len() - 1].count(event) == 0);
        }
    }
}

/// No key has pending downloads in two shards: the shard of a key holds
/// every pending download of it, and the shards together hold nothing else.
pub proof fn lemma_key_lives_in_one_shard(
    shards: Seq<Multiset<DownloadEvent>>,
    key: VersionKey,
    day: Day,
)
    requires
        shards.len() > 0,
        placed(shards),
    ensures
        pending(shards).count(DownloadEvent { key, day }) == pending_downloads(shards, key, day),
        forall|i: int|
            0 <= i < shards.len() && i != shard_index(key, shards.len()) ==> (#[trigger] shards[i]).count(
                DownloadEvent { key, day },
            ) == 0,
{
    let event = DownloadEvent { key, day };
    let index = shard_index(key, shards.len()) as int;
    assert forall|i: int| 0 <= i < shards.len() && i != index implies (#[trigger] shards[i]).count(
        event,
    ) == 0 by {
        assert(belongs_to(shards[i], i, shards.len()));
    }
    lemma_pending_count(shards, event, index);
}

/// Increments need no order: two downloads counted one way round leave the
/// counter as they do the other way round.
pub proof fn lemma_increments_commute(
    state: ServiceView,
    first_key: VersionKey,
    first_day: Day,
    second_key: VersionKey,
    second_day: Day,
)
    requires
        state.shards.len() > 0,
    ensures
        state.record(first_key, first_day).record(second_key, second_day) == state.record(
            second_key,
            second_day,
        ).record(first_key, first_day),
{
    let one = state.record(first_key, first_day).record(second_key, second_day);
    let other = state.record(second_key, second_day).record(first_key, first_day);
    assert forall|i: int| 0 <= i < one.shards.len() implies one.shards[i] =~= other.shards[i] by {}
    assert(one.shards =~= other.shards);
}

/// Downloads that arrive while a drained batch is on its way to the ledger
/// are neither lost nor counted twice. Say shard `index` was drained and `n`
/// downloads of one key and day were counted since. If the ledger refuses
/// the batch and it is merged back, all that was pending is pending again,
/// with the `n` new downloads; if the ledger takes the batch, ledger and
/// pending downloads together hold what they held, with the `n` new
/// downloads.
pub proof fn lemma_batch_in_flight_keeps_new_downloads(
    state: ServiceView,
    index: int,
    key: VersionKey,
    day: Day,
    n: nat,
)
    requires
        0 <= index < state.shards.len(),
    ensures
        ({
            let batch = state.shards[index];
            let drained = ServiceView {
                shards: state.shards.update(index, Multiset::empty()),
                ledger: state.ledger,
            };
            let busy = drained.record_many(key, day, n);
            let merged_back = busy.shards.update(index, busy.shards[index].add(batch));
            &&& pending(merged_back) == pending(state.shards).add(
                copies(DownloadEvent { key, day }, n),
            )
            &&& pending(busy.shards).add(state.ledger.events.add(batch)) == pending(
                state.shards,
            ).add(state.ledger.events).add(copies(DownloadEvent { key, day }, n))
        }),
{
    let batch = state.shards[index];
    let nothing = Multiset::<DownloadEvent>::empty();
    let drained = ServiceView { shards: state.shards.update(index, nothing), ledger: state.ledger };
    let busy = drained.record_many(key, day, n);
    let merged_back = busy.shards.update(index, busy.shards[index].add(batch));
    let new = copies(DownloadEvent { key, day }, n);
    lemma_pending_update(state.shards, index, nothing);
    lemma_increments_are_pending(drained, key, day, n);
    lemma_pending_update(busy.shards, index, busy.shards[index].add(batch));
    assert forall|x: DownloadEvent|
        pending(busy.shards).count(x) + batch.count(x) == pending(state.shards).count(x)
            + new.count(x) by {
        assert(pending(drained.shards).add(batch).count(x) == pending(state.shards).add(
            nothing,
        ).count(x));
    }
    assert forall|x: DownloadEvent|
        pending(merged_back).count(x) == pending(busy.shards).count(x) + batch.count(x) by {
        assert(pending(merged_back).add(busy.shards[index]).count(x) == pending(busy.shards).add(
            busy.shards[index].add(batch),
        ).count(x));
    }
    assert(pending(merged_back) =~= pending(state.shards).add(new));
    assert(pending(busy.shards).add(state.ledger.events.add(batch)) =~= pending(state.shards).add(
        state.ledger.events,
    ).add(new));
}

/// What a flush has done once it has dealt with the first `upto` shards: the
/// shards beyond are untouched; a shard that failed holds what it held; a
/// shard that was persisted is empty; the ledger has grown by what was
/// persisted; and ledger and pending downloads together are what they were.
pub proof fn lemma_flush_shard_by_shard(
    shards: Seq<Multiset<DownloadEvent>>,
    ledger: LedgerView,
    upto: nat,
)
    requires
        upto <= shards.len(),
    ensures
        ({
            let state = flush_upto(shards, ledger, upto);
            &&& state.shards.len() == shards.len()
            &&& state.report.len() == upto
            &&& state.ledger.writable == ledger.writable
            &&& forall|j: int| upto <= j < shards.len() ==> state.shards[j] == shards[j]
            &&& forall|j: int|
                0 <= j < upto ==> match #[trigger] state.report[j] {
                    ShardFlush::Idle => state.shards[j] == shards[j] && shards[j].len() == 0,
                    ShardFlush::Persisted(n) => state.shards[j] == Multiset::<
                        DownloadEvent,
                    >::empty() && n == shards[j].len() && n > 0,
                    ShardFlush::Failed(_) => state.shards[j] == shards[j] && shards[j].len() > 0,
                }
            &&& pending(state.shards).add(state.ledger.events) == pending(shards).add(ledger.events)
            &&& state.ledger.events.len() == ledger.events.len() + persisted_total(state.report)
        }),
    decreases upto,
{
    if upto > 0 {
        let index = upto - 1;
        lemma_flush_shard_by_shard(shards, ledger, index as nat);
        let before = flush_upto(shards, ledger, index as nat);
        let state = flush_upto(shards, ledger, upto);
        let batch = before.shards[index];
        assert(state.report.drop_last() =~= before.report);
        if batch.len() > 0 && before.ledger.apply(batch) is Ok {
            lemma_pending_update(before.shards, index, Multiset::empty());
            assert(pending(state.shards).add(state.ledger.events) =~= pending(before.shards).add(
                before.ledger.events,
            )) by {
                assert forall|x: DownloadEvent|
                    pending(state.shards).count(x) + batch.count(x) == pending(
                        before.shards,
                    ).count(x) by {
                    assert(pending(state.shards).add(batch).count(x) == pending(
                        before.shards,
                    ).add(Multiset::empty()).count(x));
                }
            }
        }
    }
}

/// No loss and no duplication: whatever the ledger takes or refuses, the
/// downloads in the ledger and the downloads still pending are, after a
/// flush, together exactly those from before it.
pub proof fn lemma_flush_conserves_downloads(state: ServiceView)
    ensures
        pending(state.flush().shards).add(state.flush().ledger.events) == pending(state.shards).add(
            state.ledger.events,
        ),
        state.flush().shards.len() == state.shards.len(),
{
    lemma_flush_shard_by_shard(state.shards, state.ledger, state.shards.len());
}

/// Downloads that were counted but not flushed are not reported: after any
/// number of increments and no flush, the ledger is what it was, a history
/// read then is a history of the ledger as it was, and where the ledger holds
/// nothing for the key, that history has no rows.
pub proof fn lemma_unflushed_downloads_are_invisible(
    state: ServiceView,
    key: VersionKey,
    day: Day,
    n: nat,
    rows: Seq<DailyDownloads>,
    end: Day,
    window_days: u32,
)
    requires
        is_version_history(
            rows,
            state.record_many(key, day, n).ledger.events,
            key,
            end,
            window_days,
        ),
    ensures
        state.record_many(key, day, n).ledger == state.ledger,
        is_version_history(rows, state.ledger.events, key, end, window_days),
        (forall|d: Day| state.ledger.downloads(key, d) == 0) ==> rows.len() == 0,
{
    lemma_ledger_untouched(state, key, day, n);
    if rows.len() > 0 {
        assert(state.ledger.downloads(key, rows[0].day) == rows[0].downloads);
    }
}

/// Increments leave the ledger alone.
pub proof fn lemma_ledger_untouched(state: ServiceView, key: VersionKey, day: Day, n: nat)
    ensures
        state.record_many(key, day, n).ledger == state.ledger,
    decreases n,
{
    if n > 0 {
        lemma_ledger_untouched(state, key, day, (n - 1) as nat);
    }
}

/// A history reports, for each day of its window, the downloads that the
/// ledger holds for the key on that day, and nothing for any other day. Where
/// the ledger holds none for the key, the history has no rows.
pub proof fn lemma_history_reports_ledger(
    rows: Seq<DailyDownloads>,
    events: Multiset<DownloadEvent>,
    key: VersionKey,
    end: Day,
    window_days: u32,
    day: Day,
)
    requires
        is_version_history(rows, events, key, end, window_days),
    ensures
        reported(rows, day) == if in_window(day, end, window_days) {
            events.count(DownloadEvent { key, day })
        } else {
            0
        },
        (forall|d: Day| events.count(DownloadEvent { key, day: d }) == 0) ==> rows.len() == 0,
{
    if rows.len() > 0 {
        assert(rows[0].downloads == events.count(DownloadEvent { key, day: rows[0].day }));
    }
}

/// `n` increments of one key and day are `n` more pending events of that key
/// and day, and nothing else.
pub proof fn lemma_increments_are_pending(state: ServiceView, key: VersionKey, day: Day, n: nat)
    requires
        state.shards.len() > 0,
    ensures
        state.record_many(key, day, n).shards.len() == state.shards.len(),
        pending(state.record_many(key, day, n).shards) == pending(state.shards).add(
            copies(DownloadEvent { key, day }, n),
        ),
    decreases n,
{
    if n > 0 {
        let before = state.record_many(key, day, (n - 1) as nat);
        lemma_increments_are_pending(state, key, day, (n - 1) as nat);
        lemma_pending_incremented(before.shards, key, day);
    }
}

/// A flush in which no shard fails leaves nothing pending and has every
/// download that was pending in the ledger.
pub proof fn lemma_settled_flush_persists_all(state: ServiceView)
    requires
        all_settled(state.flush_report()),
    ensures
        state.flush().ledger.events == state.ledger.events.add(pending(state.shards)),
        forall|i: int|
            0 <= i < state.shards.len() ==> (#[trigger] state.flush().shards[i])
                == Multiset::<DownloadEvent>::empty(),
        persisted_total(state.flush_report()) == pending(state.shards).len(),
{
    lemma_flush_shard_by_shard(state.shards, state.ledger, state.shards.len());
    let end = state.flush();
    let report = state.flush_report();
    assert forall|i: int| 0 <= i < state.shards.len() implies (#[trigger] end.shards[i])
        == Multiset::<DownloadEvent>::empty() by {
        assert(!(report[i] is Failed));
    }
    lemma_pending_none(end.shards);
    assert(end.ledger.events =~= state.ledger.events.add(pending(state.shards))) by {
        assert(pending(end.shards).add(end.ledger.events) =~= end.ledger.events);
    }
}

/// After `n` increments of a key on a day and one flush in which no shard
/// fails, the ledger holds `n` downloads more for that key and day, next to
/// whatever was pending before; and a history read then, whose window holds
/// the day, reports exactly that number for the day.
pub proof fn lemma_flush_publishes_increments(
    state: ServiceView,
    key: VersionKey,
    day: Day,
    n: nat,
    rows: Seq<DailyDownloads>,
    end: Day,
    window_days: u32,
)
    requires
        state.shards.len() > 0,
        all_settled(state.record_many(key, day, n).flush_report()),
        is_version_history(
            rows,
            state.record_many(key, day, n).flush().ledger.events,
            key,
            end,
            window_days,
        ),
        in_window(day, end, window_days),
    ensures
        state.record_many(key, day, n).flush().ledger.events == state.ledger.events.add(
            pending(state.shards),
        ).add(copies(DownloadEvent { key, day }, n)),
        state.record_many(key, day, n).flush().ledger.downloads(key, day) == state.ledger.downloads(
            key,
            day,
        ) + pending(state.shards).count(DownloadEvent { key, day }) + n,
        reported(rows, day) == state.ledger.downloads(key, day) + pending(state.shards).count(
            DownloadEvent { key, day },
        ) + n,
{
    let counted = state.record_many(key, day, n);
    lemma_ledger_untouched(state, key, day, n);
    lemma_increments_are_pending(state, key, day, n);
    lemma_settled_flush_persists_all(counted);
    crate::tally::lemma_copies_count(DownloadEvent { key, day }, n, DownloadEvent { key, day });
}

/// A flush that follows a flush in which no shard failed, with no increment
/// in between, persists nothing and changes nothing: every shard is idle.
pub proof fn lemma_second_flush_changes_nothing(state: ServiceView)
    requires
        all_settled(state.flush_report()),
    ensures
        state.flush().flush() == state.flush(),
        persisted_total(state.flush().flush_report()) == 0,
        forall|i: int|
            0 <= i < state.shards.len() ==> (#[trigger] state.flush().flush_report()[i])
                == ShardFlush::Idle,
{
    lemma_settled_flush_persists_all(state);
    let first = state.flush();
    lemma_flush_conserves_downloads(state);
    lemma_flush_shard_by_shard(first.shards, first.ledger, first.shards.len());
    let second = first.flush();
    let report = first.flush_report();
    assert forall|i: int| 0 <= i < first.shards.len() implies second.shards[i]
        == first.shards[i] by {
        assert(report[i] == ShardFlush::Idle);
    }
    lemma_pending_none(second.shards);
    assert(second.ledger.events =~= first.ledger.events) by {
        assert(pending(second.shards).add(second.ledger.events) =~= second.ledger.events);
    }
}

/// A flush against a ledger that takes no writes leaves every pending
/// download in its shard and the ledger as it was: each shard that holds
/// anything is reported as failed.
pub proof fn lemma_refused_flush_keeps_pending(state: ServiceView)
    requires
        !state.ledger.writable,
    ensures
        state.flush() == state,
        persisted_total(state.flush_report()) == 0,
        forall|i: int|
            0 <= i < state.shards.len() ==> (#[trigger] state.flush_report()[i]) == if state.shards[i].len()
                == 0 {
                ShardFlush::Idle
            } else {
                ShardFlush::Failed(crate::ledger::StoreError::Unavailable)
            },
{
    lemma_refused_upto(state.shards, state.ledger, state.shards.len());
}

proof fn lemma_refused_upto(shards: Seq<Multiset<DownloadEvent>>, ledger: LedgerView, upto: nat)
    requires
        !ledger.writable,
        upto <= shards.len(),
    ensures
        flush_upto(shards, ledger, upto).shards == shards,
        flush_upto(shards, ledger, upto).ledger == ledger,
        flush_upto(shards, ledger, upto).report.len() == upto,
        persisted_total(flush_upto(shards, ledger, upto).report) == 0,
        forall|i: int|
            0 <= i < upto ==> (#[trigger] flush_upto(shards, ledger, upto).report[i]) == if shards[i].len()
                == 0 {
                ShardFlush::Idle
            } else {
                ShardFlush::Failed(crate::ledger::StoreError::Unavailable)
            },
    decreases upto,
{
    if upto > 0 {
        lemma_refused_upto(shards, ledger, (upto - 1) as nat);
        let before = flush_upto(shards, ledger, (upto - 1) as nat);
        let state = flush_upto(shards, ledger, upto);
        assert(state.report.drop_last() =~= before.report);
    }
}

/// Where the ledger takes writes and can count every pending download, no
/// shard of a flush fails.
pub proof fn lemma_flush_with_room_settles(state: ServiceView)
    requires
        state.ledger.writable,
        state.ledger.events.len() + pending(state.shards).len() <= u64::MAX,
    ensures
        all_settled(state.flush_report()),
{
    lemma_room_upto(state.shards, state.ledger, state.shards.len());
}

proof fn lemma_room_upto(shards: Seq<Multiset<DownloadEvent>>, ledger: LedgerView, upto: nat)
    requires
        ledger.writable,
        ledger.events.len() + pending(shards).len() <= u64::MAX,
        upto <= shards.len(),
    ensures
        all_settled(flush_upto(shards, ledger, upto).report),
    decreases upto,
{
    if upto > 0 {
        let index = upto - 1;
        lemma_room_upto(shards, ledger, index as nat);
        lemma_flush_shard_by_shard(shards, ledger, index as nat);
        let before = flush_upto(shards, ledger, index as nat);
        let state = flush_upto(shards, ledger, upto);
        lemma_pending_part(before.shards, index);
        assert(pending(before.shards).add(before.ledger.events).len() == pending(shards).add(
            ledger.events,
        ).len());
    }
}

/// A flush that the ledger refuses loses nothing: once the ledger takes
/// writes again, the next flush persists every download that was pending, and
/// each of them once.
pub proof fn lemma_retry_persists_pending(state: ServiceView)
    requires
        !state.ledger.writable,
        state.ledger.events.len() + pending(state.shards).len() <= u64::MAX,
    ensures
        ({
            let failed = state.flush();
            let reopened = ServiceView {
                shards: failed.shards,
                ledger: LedgerView { events: failed.ledger.events, writable: true },
            };
            &&& all_settled(reopened.flush_report())
            &&& reopened.flush().ledger.events == state.ledger.events.add(pending(state.shards))
            &&& pending(reopened.flush().shards) == Multiset::<DownloadEvent>::empty()
        }),
{
    lemma_refused_flush_keeps_pending(state);
    let failed = state.flush();
    let reopened = ServiceView {
        shards: failed.shards,
        ledger: LedgerView { events: failed.ledger.events, writable: true },
    };
    lemma_flush_with_room_settles(reopened);
    lemma_settled_flush_persists_all(reopened);
    lemma_flush_conserves_downloads(reopened);
    lemma_pending_none(reopened.flush().shards);
}

/// Rows that report the same days, in ascending order, with the same
/// downloads for each, are the same rows.
pub proof fn lemma_same_reports_same_rows(a: Seq<DailyDownloads>, b: Seq<DailyDownloads>)
    requires
        ascending_days(a),
        ascending_days(b),
        forall|i: int| 0 <= i < a.len() ==> has_row(b, (#[trigger] a[i]).day),
        forall|i: int| 0 <= i < b.len() ==> has_row(a, (#[trigger] b[i]).day),
        forall|i: int, j: int|
            #![trigger a[i], b[j]]
            0 <= i < a.len() && 0 <= j < b.len() && a[i].day == b[j].day ==> a[i].downloads
                == b[j].downloads,
    ensures
        a == b,
    decreases a.len(),
{
    if a.len() == 0 {
        if b.len() > 0 {
            assert(has_row(a, b[0].day));
        }
        assert(a =~= b);
    } else {
        assert(has_row(b, a[0].day));
        let last_a = a.len() - 1;
        let last_b = b.len() - 1;
        assert(has_row(b, a[last_a].day));
        let j = choose|j: int| 0 <= j < b.len() && (#[trigger] b[j]).day == a[last_a].day;
        assert(has_row(a, b[last_b].day));
        let k = choose|k: int| 0 <= k < a.len() && (#[trigger] a[k]).day == b[last_b].day;
        assert(b[j].day.ordinal <= b[last_b].day.ordinal);
        assert(a[k].day.ordinal <= a[last_a].day.ordinal);
        assert(a[last_a].day == b[last_b].day);
        assert(a[last_a] == b[last_b]);
        let rest_a = a.drop_last();
        let rest_b = b.drop_last();
        assert forall|i: int| 0 <= i < rest_a.len() implies has_row(
            rest_b,
            (#[trigger] rest_a[i]).day,
        ) by {
            assert(rest_a[i] == a[i]);
            assert(has_row(b, a[i].day));
            let w = choose|w: int| 0 <= w < b.len() && (#[trigger] b[w]).day == a[i].day;
            assert(a[i].day.ordinal < a[last_a].day.ordinal);
            assert(rest_b[w] == b[w]);
        }
        assert forall|i: int| 0 <= i < rest_b.len() implies has_row(
            rest_a,
            (#[trigger] rest_b[i]).day,
        ) by {
            assert(rest_b[i] == b[i]);
            assert(has_row(a, b[i].day));
            let w = choose|w: int| 0 <= w < a.len() && (#[trigger] a[w]).day == b[i].day;
            assert(b[i].day.ordinal < b[last_b].day.ordinal);
            assert(rest_a[w] == a[w]);
        }
        assert forall|i: int, j: int|
            #![trigger rest_a[i], rest_b[j]]
            0 <= i < rest_a.len() && 0 <= j < rest_b.len() && rest_a[i].day
                == rest_b[j].day implies rest_a[i].downloads == rest_b[j].downloads by {
            assert(rest_a[i] == a[i] && rest_b[j] == b[j]);
        }
        assert(ascending_days(rest_a)) by {
            assert forall|i: int, j: int| 0 <= i < j < rest_a.len() implies (
            #[trigger] rest_a[i]).day.ordinal < (#[trigger] rest_a[j]).day.ordinal by {
                assert(rest_a[i] == a[i] && rest_a[j] == a[j]);
            }
        }
        assert(ascending_days(rest_b)) by {
            assert forall|i: int, j: int| 0 <= i < j < rest_b.len() implies (
            #[trigger] rest_b[i]).day.ordinal < (#[trigger] rest_b[j]).day.ordinal by {
                assert(rest_b[i] == b[i] && rest_b[j] == b[j]);
            }
        }
        lemma_same_reports_same_rows(rest_a, rest_b);
        assert(a =~= rest_a.push(a[last_a]));
        assert(b =~= rest_b.push(b[last_b]));
    }
}

/// A ledger has one history of a version over a window, and no other.
pub proof fn lemma_version_history_is_unique(
    first: Seq<DailyDownloads>,
    second: Seq<DailyDownloads>,
    events: Multiset<DownloadEvent>,
    key: VersionKey,
    end: Day,
    window_days: u32,
)
    requires
        is_version_history(first, events, key, end, window_days),
        is_version_history(second, events, key, end, window_days),
    ensures
        first == second,
{
    lemma_same_reports_same_rows(first, second);
}

/// A ledger has one history of a package over a window, and no other: the
/// history of a package is the same whichever end date a caller names beside
/// today.
pub proof fn lemma_package_history_is_unique(
    first: Seq<DailyDownloads>,
    second: Seq<DailyDownloads>,
    events: Multiset<DownloadEvent>,
    package_id: u32,
    today: Day,
    window_days: u32,
)
    requires
        is_package_history(first, events, package_id, today, window_days),
        is_package_history(second, events, package_id, today, window_days),
    ensures
        first == second,
{
    lemma_same_reports_same_rows(first, second);
}

/// A lookup finds a version only under exactly the names of an entry: the
/// key it returns is that of the first such entry.
pub proof fn lemma_lookup_is_exact(
    entries: Seq<CatalogEntry>,
    crate_name: Seq<char>,
    version: Seq<char>,
)
    ensures
        match found_version(entries, crate_name, version) {
            Some(key) => exists|i: int|
                0 <= i < entries.len() && names_version(#[trigger] entries[i], crate_name, version)
                    && entries[i].key == key,
            None => forall|i: int|
                0 <= i < entries.len() ==> !names_version(#[trigger] entries[i], crate_name, version),
        },
    decreases entries.len(),
{
    if entries.len() > 0 && !names_version(entries[0], crate_name, version) {
        let rest = entries.skip(1);
        lemma_lookup_is_exact(rest, crate_name, version);
        match found_version(rest, crate_name, version) {
            Some(key) => {
                let i = choose|i: int|
                    0 <= i < rest.len() && names_version(#[trigger] rest[i], crate_name, version)
                        && rest[i].key == key;
                assert(entries[i + 1] == rest[i]);
            },
            None => {
                assert forall|i: int| 0 <= i < entries.len() implies !names_version(
                    #[trigger] entries[i],
                    crate_name,
                    version,
                ) by {
                    if i > 0 {
                        assert(entries[i] == rest[i - 1]);
                    }
                }
            },
        }
    } else if entries.len() > 0 {
        assert(names_version(entries[0], crate_name, version));
    }
}

/// A name that no entry bears, character for character, finds nothing,
/// however close it comes to one that an entry bears: a name that differs
/// from an entry's only in case is such a name.
pub proof fn lemma_other_name_is_not_found(
    entries: Seq<CatalogEntry>,
    crate_name: Seq<char>,
    version: Seq<char>,
)
    requires
        forall|i: int| 0 <= i < entries.len() ==> (#[trigger] entries[i]).crate_name@ != crate_name,
    ensures
        found_version(entries, crate_name, version) is None,
{
    lemma_lookup_is_exact(entries, crate_name, version);
}

} // verus!
