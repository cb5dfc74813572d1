use download_counter::counter::ShardedCounter;
use download_counter::day::{Day, DEFAULT_WINDOW_DAYS};
use download_counter::flush::{persist_all_shards, ShardFlush};
use download_counter::key::{shard_for, DownloadEvent, VersionKey};
use download_counter::ledger::{DailyDownloads, DownloadLedger, StoreError};
use download_counter::service::DownloadService;
use download_counter::shard::Shard;
use download_counter::tally::{Tally, TallyEntry};

const FOO: VersionKey = VersionKey { package_id: 1, version_id: 10 };
const FOO_NEXT: VersionKey = VersionKey { package_id: 1, version_id: 11 };
const BAR: VersionKey = VersionKey { package_id: 2, version_id: 20 };
const DAY: Day = Day { ordinal: 738_900 };

fn total(rows: &[DailyDownloads]) -> u64 {
    rows.iter().map(|row| row.downloads).sum()
}

#[test]
fn increments_without_a_flush_are_not_reported() {
    for n in [0u64, 1, 2, 50] {
        let mut service = DownloadService::new(8).unwrap();
        for _ in 0..n {
            service.record_download(FOO, DAY);
        }
        assert_eq!(service.query_version_downloads(FOO, DAY, 90), vec![]);
        assert_eq!(service.query_package_downloads(1, None, DAY), vec![]);
        assert_eq!(service.counter.pending_on(FOO, DAY), n);
        assert_eq!(service.ledger.total(), 0);
    }
}

#[test]
fn one_flush_reports_every_increment() {
    for n in [1u64, 2, 50] {
        let mut service = DownloadService::new(8).unwrap();
        for _ in 0..n {
            service.record_download(FOO, DAY);
        }
        let outcome = service.persist_all_shards();
        assert!(outcome.is_clean());
        assert_eq!(outcome.persisted, n);
        assert_eq!(
            service.query_version_downloads(FOO, DAY, 90),
            vec![DailyDownloads { day: DAY, downloads: n }]
        );
        assert_eq!(service.ledger.downloads_on(FOO, DAY), n);
        assert_eq!(service.counter.pending_on(FOO, DAY), 0);
    }
}

#[test]
fn a_second_flush_persists_nothing() {
    let mut service = DownloadService::new(4).unwrap();
    for _ in 0..3 {
        service.record_download(FOO, DAY);
    }
    service.record_download(BAR, DAY);
    let first = service.persist_all_shards();
    assert_eq!(first.persisted, 4);
    let second = service.persist_all_shards();
    assert_eq!(second.persisted, 0);
    assert_eq!(second.shards, vec![ShardFlush::Idle; 4]);
    assert_eq!(service.ledger.total(), 4);
    assert_eq!(service.ledger.downloads_on(FOO, DAY), 3);
    assert_eq!(service.ledger.downloads_on(BAR, DAY), 1);
}

#[test]
fn the_report_names_each_shard() {
    let mut service = DownloadService::new(4).unwrap();
    // (1 * 31 + 10) % 4 == 1 and (2 * 31 + 20) % 4 == 2.
    for _ in 0..3 {
        service.record_download(FOO, DAY);
    }
    service.record_download(BAR, DAY);
    let outcome = service.persist_all_shards();
    assert_eq!(
        outcome.shards,
        vec![ShardFlush::Idle, ShardFlush::Persisted(3), ShardFlush::Persisted(1), ShardFlush::Idle]
    );
    assert_eq!(outcome.persisted, 4);
    assert_eq!(outcome.errors(), vec![]);
}

#[test]
fn a_refused_flush_keeps_the_pending_count() {
    let mut service = DownloadService::new(4).unwrap();
    for _ in 0..5 {
        service.record_download(FOO, DAY);
    }
    service.record_download(BAR, DAY);
    service.ledger.set_writable(false);
    let failed = service.persist_all_shards();
    assert!(!failed.is_clean());
    assert_eq!(failed.persisted, 0);
    assert_eq!(
        failed.shards,
        vec![
            ShardFlush::Idle,
            ShardFlush::Failed(StoreError::Unavailable),
            ShardFlush::Failed(StoreError::Unavailable),
            ShardFlush::Idle
        ]
    );
    assert_eq!(failed.errors(), vec![(1, StoreError::Unavailable), (2, StoreError::Unavailable)]);
    assert_eq!(service.counter.pending_on(FOO, DAY), 5);
    assert_eq!(service.counter.pending_on(BAR, DAY), 1);
    assert_eq!(service.query_version_downloads(FOO, DAY, 90), vec![]);

    // Downloads that arrive after the failure are added to what went back.
    service.record_download(FOO, DAY);
    service.ledger.set_writable(true);
    let retried = service.persist_all_shards();
    assert!(retried.is_clean());
    assert_eq!(retried.persisted, 7);
    assert_eq!(service.ledger.downloads_on(FOO, DAY), 6);
    assert_eq!(service.ledger.downloads_on(BAR, DAY), 1);
    assert_eq!(service.counter.pending_on(FOO, DAY), 0);

    // Nothing is persisted twice.
    assert_eq!(service.persist_all_shards().persisted, 0);
    assert_eq!(service.ledger.total(), 7);
}

#[test]
fn a_full_ledger_fails_one_shard_and_takes_another() {
    let mut service = DownloadService::new(4).unwrap();
    service.ledger.upsert_add(BAR, Day { ordinal: 1 }, u64::MAX - 2).unwrap();
    for _ in 0..3 {
        service.record_download(FOO, DAY);
    }
    service.record_download(BAR, DAY);
    let outcome = service.persist_all_shards();
    assert_eq!(
        outcome.shards,
        vec![
            ShardFlush::Idle,
            ShardFlush::Failed(StoreError::CountOverflow),
            ShardFlush::Persisted(1),
            ShardFlush::Idle
        ]
    );
    assert_eq!(outcome.persisted, 1);
    assert_eq!(outcome.errors(), vec![(1, StoreError::CountOverflow)]);
    assert_eq!(service.counter.pending_on(FOO, DAY), 3);
    assert_eq!(service.counter.pending_on(BAR, DAY), 0);
    assert_eq!(service.ledger.downloads_on(FOO, DAY), 0);
    assert_eq!(service.ledger.downloads_on(BAR, DAY), 1);
    assert_eq!(service.ledger.total(), u64::MAX - 1);
}

#[test]
fn the_package_history_sums_the_versions_of_each_day() {
    let mut service = DownloadService::new(3).unwrap();
    let day_before = Day { ordinal: 738_899 };
    for _ in 0..2 {
        service.record_download(FOO, DAY);
    }
    for _ in 0..3 {
        service.record_download(FOO_NEXT, DAY);
    }
    service.record_download(FOO_NEXT, day_before);
    service.record_download(BAR, DAY);
    assert!(service.persist_all_shards().is_clean());

    let rows = service.query_package_downloads(1, None, DAY);
    assert_eq!(
        rows,
        vec![
            DailyDownloads { day: day_before, downloads: 1 },
            DailyDownloads { day: DAY, downloads: 5 },
        ]
    );
    assert_eq!(total(&rows), 6);
    // Whatever end date the caller names, the window ends today.
    assert_eq!(service.query_package_downloads(1, Some(day_before), DAY), rows);
    assert_eq!(service.query_package_downloads(1, Some(Day { ordinal: 1 }), DAY), rows);
    assert_eq!(service.query_package_downloads(1, Some(Day { ordinal: i32::MAX }), DAY), rows);
    assert_eq!(
        service.query_package_downloads(2, None, DAY),
        vec![DailyDownloads { day: DAY, downloads: 1 }]
    );
    assert_eq!(service.query_package_downloads(3, None, DAY), vec![]);
    // Ninety days on, the window has left both days behind, one after the other.
    assert_eq!(service.query_package_downloads(1, None, Day { ordinal: 738_988 }), rows);
    assert_eq!(
        service.query_package_downloads(1, None, Day { ordinal: 738_989 }),
        vec![DailyDownloads { day: DAY, downloads: 5 }]
    );
    assert_eq!(service.query_package_downloads(1, None, Day { ordinal: 738_990 }), vec![]);
}

#[test]
fn the_window_has_exactly_its_days() {
    let mut ledger = DownloadLedger::new();
    for ordinal in [738_810, 738_811, 738_900, 738_901] {
        ledger.upsert_add(FOO, Day { ordinal }, ordinal as u64).unwrap();
    }
    let days = |rows: Vec<DailyDownloads>| rows.iter().map(|r| r.day.ordinal).collect::<Vec<i32>>();
    assert_eq!(DEFAULT_WINDOW_DAYS, 90);
    assert_eq!(days(ledger.version_history(FOO, DAY, 90)), vec![738_811, 738_900]);
    assert_eq!(days(ledger.version_history(FOO, DAY, 91)), vec![738_810, 738_811, 738_900]);
    assert_eq!(days(ledger.version_history(FOO, DAY, 1)), vec![738_900]);
    assert_eq!(days(ledger.version_history(FOO, DAY, 0)), vec![]);
    assert_eq!(days(ledger.version_history(FOO, Day { ordinal: 738_901 }, 2)), vec![738_900, 738_901]);
    assert_eq!(
        days(ledger.version_history(FOO, Day { ordinal: i32::MAX }, u32::MAX)),
        vec![738_810, 738_811, 738_900, 738_901]
    );
    assert_eq!(days(ledger.version_history(FOO, Day { ordinal: i32::MIN }, u32::MAX)), vec![]);
    assert_eq!(days(ledger.version_history(BAR, DAY, 90)), vec![]);
    assert!(Day { ordinal: 738_811 }.within(DAY, 90));
    assert!(!Day { ordinal: 738_810 }.within(DAY, 90));
    assert!(DAY.within(DAY, 1));
    assert!(!DAY.within(DAY, 0));
    assert!(!Day { ordinal: 738_901 }.within(DAY, 90));
}

#[test]
fn dates_are_read_as_day_numbers() {
    assert_eq!(Day::parse("2024-01-15"), Some(Day { ordinal: 738_900 }));
    assert_eq!(Day::parse("1970-01-01"), Some(Day { ordinal: 719_163 }));
    assert_eq!(Day::parse("0001-01-01"), Some(Day { ordinal: 1 }));
    assert_eq!(Day::parse("2024-02-29"), Some(Day { ordinal: 738_945 }));
    for text in ["", "2023-02-29", "2024-00-10", "2024-01-32", "January 15", "2024/01/15", "2024-01-15x"] {
        assert_eq!(Day::parse(text), None, "{text}");
    }
    let today = Day { ordinal: 5 };
    assert_eq!(Day::or_today(Some(Day { ordinal: 9 }), today), Day { ordinal: 9 });
    assert_eq!(Day::or_today(None, today), today);
}

#[test]
fn keys_are_spread_by_their_hash() {
    assert_eq!(shard_for(FOO, 4), 1);
    assert_eq!(shard_for(BAR, 4), 2);
    assert_eq!(shard_for(VersionKey { package_id: 0, version_id: 0 }, 7), 0);
    assert_eq!(shard_for(VersionKey { package_id: 1, version_id: 1 }, 1), 0);
    // 4294967295 * 31 + 4294967295 == 137438953440, which is 5 modulo 7.
    assert_eq!(shard_for(VersionKey { package_id: u32::MAX, version_id: u32::MAX }, 7), 5);
    // The day plays no part: a key has its pending downloads in one shard.
    let mut counter = ShardedCounter::new(4).unwrap();
    counter.increment(FOO, DAY);
    counter.increment(FOO, Day { ordinal: 738_901 });
    for index in [0, 2, 3] {
        assert!(counter.drain_shard(index).is_empty());
    }
    let batch = counter.drain_shard(1);
    assert_eq!(batch.total(), 2);
    assert!(counter.drain_shard(1).is_empty());
}

#[test]
fn a_counter_needs_a_shard() {
    assert!(ShardedCounter::new(0).is_none());
    assert!(DownloadService::new(0).is_none());
    assert_eq!(ShardedCounter::new(1).unwrap().shard_count(), 1);
    assert_eq!(ShardedCounter::new(64).unwrap().shard_count(), 64);
}

#[test]
fn a_drained_batch_goes_back_into_its_shard_only() {
    let mut counter = ShardedCounter::new(4).unwrap();
    counter.increment(FOO, DAY);
    counter.increment(FOO, DAY);
    let batch = counter.drain_shard(1);
    assert_eq!(counter.pending_on(FOO, DAY), 0);
    counter.increment(FOO, DAY);
    assert!(!counter.can_restore(0, &batch));
    assert!(!counter.can_restore(4, &batch));
    assert!(counter.can_restore(1, &batch));
    counter.restore_shard(1, &batch);
    assert_eq!(counter.pending_on(FOO, DAY), 3);

    // A shard that is full takes nothing back, and counts nothing more.
    let mut heavy = Tally::new();
    heavy.record(DownloadEvent { key: FOO, day: DAY }, u64::MAX - 3);
    assert!(counter.can_restore(1, &heavy));
    counter.restore_shard(1, &heavy);
    assert!(!counter.room_for(FOO));
    assert!(counter.room_for(BAR));
    assert!(!counter.can_restore(1, &batch));
    assert!(counter.can_restore(1, &Tally::new()));

    let mut service = DownloadService { counter, ledger: DownloadLedger::new() };
    service.record_download(FOO, DAY);
    assert_eq!(service.counter.pending_on(FOO, DAY), u64::MAX);
    let outcome = service.persist_all_shards();
    assert_eq!(outcome.persisted, u64::MAX);
    assert_eq!(service.ledger.downloads_on(FOO, DAY), u64::MAX);
}

#[test]
fn a_tally_keeps_one_entry_for_each_event_in_order() {
    let mut tally = Tally::new();
    assert!(tally.is_empty());
    let late = DownloadEvent { key: FOO, day: Day { ordinal: 10 } };
    let early_bar = DownloadEvent { key: BAR, day: Day { ordinal: 9 } };
    let early_foo = DownloadEvent { key: FOO, day: Day { ordinal: 9 } };
    let early_next = DownloadEvent { key: FOO_NEXT, day: Day { ordinal: 9 } };
    tally.record_one(late);
    tally.record(early_bar, 4);
    tally.record_one(late);
    tally.record(early_next, 2);
    tally.record(early_foo, 0);
    tally.record(early_foo, 6);
    assert_eq!(tally.total(), 14);
    assert_eq!(tally.entry_count(), 4);
    let entries: Vec<TallyEntry> = (0..tally.entry_count()).map(|i| tally.entry_at(i)).collect();
    assert_eq!(
        entries,
        vec![
            TallyEntry { event: early_foo, count: 6 },
            TallyEntry { event: early_next, count: 2 },
            TallyEntry { event: early_bar, count: 4 },
            TallyEntry { event: late, count: 2 },
        ]
    );
    assert_eq!(tally.count(late), 2);
    assert_eq!(tally.count(DownloadEvent { key: BAR, day: Day { ordinal: 10 } }), 0);
    assert!(early_foo.before(&early_next) && early_next.before(&early_bar) && early_bar.before(&late));
    assert!(!late.before(&late) && !late.before(&early_bar));

    let mut other = Tally::new();
    other.record(late, 5);
    other.record(DownloadEvent { key: BAR, day: Day { ordinal: -3 } }, 1);
    other.absorb(&tally);
    assert_eq!(other.total(), 20);
    assert_eq!(other.count(late), 7);
    assert_eq!(other.entry_at(0), TallyEntry { event: DownloadEvent { key: BAR, day: Day { ordinal: -3 } }, count: 1 });
}

#[test]
fn a_shard_counts_by_event_and_drains_in_event_order() {
    let mut shard = Shard::new();
    assert_eq!(shard.total(), 0);
    let late = DownloadEvent { key: FOO, day: Day { ordinal: 10 } };
    let early = DownloadEvent { key: FOO, day: Day { ordinal: -10 } };
    let other = DownloadEvent { key: BAR, day: Day { ordinal: 10 } };
    let extreme = DownloadEvent {
        key: VersionKey { package_id: u32::MAX, version_id: u32::MAX },
        day: Day { ordinal: i32::MIN },
    };
    shard.record_one(late);
    shard.record(other, 3);
    shard.record_one(early);
    shard.record_one(late);
    shard.record(extreme, 0);
    assert_eq!(shard.count(extreme), 0);
    shard.record(extreme, 2);
    assert_eq!(shard.total(), 8);
    assert_eq!(shard.count(late), 2);
    assert_eq!(shard.count(early), 1);
    assert_eq!(shard.count(other), 3);
    assert_eq!(shard.count(extreme), 2);
    assert_eq!(shard.count(DownloadEvent { key: BAR, day: Day { ordinal: -10 } }), 0);

    let batch = shard.drain();
    assert_eq!(shard.total(), 0);
    assert_eq!(shard.count(late), 0);
    let entries: Vec<TallyEntry> = (0..batch.entry_count()).map(|i| batch.entry_at(i)).collect();
    assert_eq!(
        entries,
        vec![
            TallyEntry { event: extreme, count: 2 },
            TallyEntry { event: early, count: 1 },
            TallyEntry { event: late, count: 2 },
            TallyEntry { event: other, count: 3 },
        ]
    );

    // What arrived since is added to what comes back.
    shard.record_one(late);
    shard.absorb(&batch);
    assert_eq!(shard.count(late), 3);
    assert_eq!(shard.total(), 9);
    assert!(shard.drain().count(other) == 3);
    assert!(shard.drain().is_empty());
}

#[test]
fn the_ledger_adds_a_whole_batch_or_nothing() {
    let mut ledger = DownloadLedger::new();
    assert!(ledger.is_writable());
    assert_eq!(ledger.upsert_add(FOO, DAY, 2), Ok(()));
    assert_eq!(ledger.upsert_add(FOO, DAY, 3), Ok(()));
    assert_eq!(ledger.downloads_on(FOO, DAY), 5);
    // Adding nothing creates no record.
    assert_eq!(ledger.upsert_add(BAR, DAY, 0), Ok(()));
    assert_eq!(ledger.version_history(BAR, DAY, 90), vec![]);

    let mut batch = Tally::new();
    batch.record(DownloadEvent { key: FOO, day: DAY }, 1);
    batch.record(DownloadEvent { key: BAR, day: DAY }, u64::MAX - 5);
    assert_eq!(ledger.apply(&batch), Err(StoreError::CountOverflow));
    assert_eq!(ledger.downloads_on(FOO, DAY), 5);
    assert_eq!(ledger.downloads_on(BAR, DAY), 0);
    assert_eq!(ledger.total(), 5);

    ledger.set_writable(false);
    assert!(!ledger.is_writable());
    assert_eq!(ledger.upsert_add(FOO, DAY, 1), Err(StoreError::Unavailable));
    assert_eq!(ledger.apply(&Tally::new()), Err(StoreError::Unavailable));
    // Reads go on.
    assert_eq!(ledger.downloads_on(FOO, DAY), 5);
    ledger.set_writable(true);

    let mut small = Tally::new();
    small.record(DownloadEvent { key: FOO, day: DAY }, 1);
    small.record(DownloadEvent { key: BAR, day: DAY }, u64::MAX - 6);
    assert_eq!(ledger.apply(&small), Ok(()));
    assert_eq!(ledger.total(), u64::MAX);
    assert_eq!(ledger.downloads_on(FOO, DAY), 6);
    assert_eq!(ledger.upsert_add(FOO, DAY, 1), Err(StoreError::CountOverflow));
    assert_eq!(
        ledger.package_history(2, DAY, 90),
        vec![DailyDownloads { day: DAY, downloads: u64::MAX - 6 }]
    );
}

#[test]
fn the_free_flush_works_on_any_counter_and_ledger() {
    let mut counter = ShardedCounter::new(2).unwrap();
    let mut ledger = DownloadLedger::new();
    counter.increment(FOO, DAY);
    counter.increment(BAR, DAY);
    counter.increment(BAR, DAY);
    // (1 * 31 + 10) % 2 == 1 and (2 * 31 + 20) % 2 == 0.
    let outcome = persist_all_shards(&mut counter, &mut ledger);
    assert_eq!(outcome.shards, vec![ShardFlush::Persisted(2), ShardFlush::Persisted(1)]);
    assert_eq!(outcome.persisted, 3);
    assert_eq!(ledger.downloads_on(BAR, DAY), 2);
    assert_eq!(ledger.downloads_on(FOO, DAY), 1);
}

#[test]
fn increments_need_no_order() {
    let later = Day { ordinal: 738_901 };
    let mut one = DownloadService::new(4).unwrap();
    one.record_download(FOO, DAY);
    one.record_download(BAR, later);
    one.record_download(FOO, later);
    let mut other = DownloadService::new(4).unwrap();
    other.record_download(FOO, later);
    other.record_download(BAR, later);
    other.record_download(FOO, DAY);
    for (key, day) in [(FOO, DAY), (FOO, later), (BAR, DAY), (BAR, later)] {
        assert_eq!(one.counter.pending_on(key, day), other.counter.pending_on(key, day));
    }
    assert_eq!(one.persist_all_shards().shards, other.persist_all_shards().shards);
    assert_eq!(one.query_version_downloads(FOO, later, 90), other.query_version_downloads(FOO, later, 90));
    assert_eq!(
        one.query_version_downloads(FOO, later, 90),
        vec![DailyDownloads { day: DAY, downloads: 1 }, DailyDownloads { day: later, downloads: 1 }]
    );
}
