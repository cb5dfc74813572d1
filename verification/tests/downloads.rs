use chrono::{Datelike, Duration, Utc};
use download_counter::catalog::Catalog;
use download_counter::day::Day;
use download_counter::key::VersionKey;
use download_counter::ledger::DailyDownloads;
use download_counter::routes::{crate_downloads, download, downloads, AppState, DownloadReply, NotFound};
use download_counter::service::DownloadService;

fn today() -> Day {
    Day { ordinal: Utc::now().date_naive().num_days_from_ce() }
}

fn new_app() -> AppState {
    AppState { catalog: Catalog::new(), downloads: DownloadService::new(16).unwrap() }
}

/// Splits `crate/version` into its two names.
fn name_and_version(text: &str) -> (&str, Option<&str>) {
    match text.split_once('/') {
        Some((name, version)) => (name, Some(version)),
        None => (text, None),
    }
}

/// Serves a `GET` on a download path: the crate name and version are the two
/// segments before `download`.
fn get_download(app: &mut AppState, path: &str) -> Result<DownloadReply, NotFound> {
    let rest = path.strip_prefix("/api/v1/crates/").unwrap();
    let rest = rest.strip_suffix("/download").unwrap();
    let (name, version) = name_and_version(rest);
    let url = format!("https://static.example/crates/{}/{}.crate", name, version.unwrap());
    download(app, name, version.unwrap(), false, url, today())
}

fn before_date(query: Option<&str>) -> Option<&str> {
    query.and_then(|q| q.strip_prefix("before_date="))
}

fn persist_downloads_count(app: &mut AppState) {
    let outcome = app.downloads.persist_all_shards();
    assert!(outcome.is_clean(), "failed to persist downloads count");
}

fn assert_dl_count(app: &AppState, name_and_version_text: &str, query: Option<&str>, count: u64) {
    let (name, version) = name_and_version(name_and_version_text);
    let rows: Vec<DailyDownloads> = match version {
        Some(version) => downloads(app, name, version, before_date(query), today()).unwrap(),
        None => crate_downloads(app, name, before_date(query), today()).unwrap(),
    };
    let total_downloads: u64 = rows.iter().map(|row| row.downloads).sum();
    assert_eq!(total_downloads, count);
}

fn download_ok(app: &mut AppState, name_and_version_text: &str) {
    let path = format!("/api/v1/crates/{name_and_version_text}/download");
    let response = get_download(app, &path);
    assert!(matches!(response, Ok(DownloadReply::Redirect { .. })));
}

#[test]
fn test_download() {
    let mut app = new_app();
    app.catalog.publish("foo_download", "1.0.0", VersionKey { package_id: 1, version_id: 1 });

    download_ok(&mut app, "foo_download/1.0.0");
    // No downloads are counted until the counters are persisted
    assert_dl_count(&app, "foo_download/1.0.0", None, 0);
    assert_dl_count(&app, "foo_download", None, 0);
    persist_downloads_count(&mut app);
    // Now that the counters are persisted the download counts show up.
    assert_dl_count(&app, "foo_download/1.0.0", None, 1);
    assert_dl_count(&app, "foo_download", None, 1);

    let response = get_download(&mut app, "/api/v1/crates/FOO_DOWNLOAD/1.0.0/download");
    assert_eq!(response, Err(NotFound));

    let yesterday = (Utc::now().date_naive() + Duration::days(-1)).format("%F");
    let query = format!("before_date={yesterday}");
    assert_dl_count(&app, "foo_download/1.0.0", Some(&query), 0);
    // the history of a whole crate always covers the last 90 days and ignores date params
    assert_dl_count(&app, "foo_download", Some(&query), 1);

    let tomorrow = (Utc::now().date_naive() + Duration::days(1)).format("%F");
    let query = format!("before_date={tomorrow}");
    assert_dl_count(&app, "foo_download/1.0.0", Some(&query), 1);
    assert_dl_count(&app, "foo_download", Some(&query), 1);
}

#[test]
fn download_hands_out_the_location_as_asked() {
    let mut app = new_app();
    app.catalog.publish("foo", "1.0.0", VersionKey { package_id: 1, version_id: 1 });
    let day = Day { ordinal: 738_900 };
    let url = String::from("https://static.example/foo-1.0.0.crate");
    assert_eq!(
        download(&mut app, "foo", "1.0.0", false, url.clone(), day),
        Ok(DownloadReply::Redirect { url: url.clone() })
    );
    assert_eq!(
        download(&mut app, "foo", "1.0.0", true, url.clone(), day),
        Ok(DownloadReply::Json { url: url.clone() })
    );
    assert_eq!(app.downloads.counter.pending_on(VersionKey { package_id: 1, version_id: 1 }, day), 2);
}

#[test]
fn download_of_an_unknown_version_counts_nothing() {
    let mut app = new_app();
    let key = VersionKey { package_id: 1, version_id: 1 };
    app.catalog.publish("foo", "1.0.0", key);
    let day = Day { ordinal: 738_900 };
    for (name, version) in [("Foo", "1.0.0"), ("FOO", "1.0.0"), ("foo", "1.0.1"), ("fo", "1.0.0"), ("", "")] {
        let reply = download(&mut app, name, version, false, String::from("u"), day);
        assert_eq!(reply, Err(NotFound));
    }
    assert_eq!(app.downloads.counter.pending_on(key, day), 0);
    let outcome = app.downloads.persist_all_shards();
    assert_eq!(outcome.persisted, 0);
    assert_eq!(app.downloads.ledger.total(), 0);
}

#[test]
fn downloads_treats_a_malformed_version_as_not_found() {
    let mut app = new_app();
    // The catalog lists these strings, yet none is a semantic version.
    for (i, version) in ["1.0", "1.0.01", "1.0.unknown", "1.0.0-", "", "v1.0.0"].iter().enumerate() {
        app.catalog.publish("foo", version, VersionKey { package_id: 1, version_id: i as u32 });
    }
    app.catalog.publish("foo", "1.0.0-alpha.1+build.5", VersionKey { package_id: 1, version_id: 100 });
    let day = Day { ordinal: 738_900 };
    for version in ["1.0", "1.0.01", "1.0.unknown", "1.0.0-", "", "v1.0.0"] {
        assert_eq!(downloads(&app, "foo", version, None, day), Err(NotFound));
    }
    assert_eq!(downloads(&app, "foo", "1.0.0-alpha.1+build.5", None, day), Ok(vec![]));
    // A well-formed version that is not listed is not found either.
    assert_eq!(downloads(&app, "foo", "2.0.0", None, day), Err(NotFound));
    assert_eq!(downloads(&app, "Foo", "1.0.0-alpha.1+build.5", None, day), Err(NotFound));
}

#[test]
fn downloads_reads_the_end_date_or_falls_back_to_today() {
    let mut app = new_app();
    let key = VersionKey { package_id: 7, version_id: 70 };
    app.catalog.publish("bar", "0.3.1", key);
    // 2024-01-15 is day 738900; 2023-10-18 is 89 days earlier, 2023-10-17 is 90.
    let today = Day { ordinal: 738_900 };
    app.downloads.ledger.upsert_add(key, Day { ordinal: 738_900 }, 5).unwrap();
    app.downloads.ledger.upsert_add(key, Day { ordinal: 738_811 }, 3).unwrap();
    app.downloads.ledger.upsert_add(key, Day { ordinal: 738_810 }, 2).unwrap();

    let both = vec![
        DailyDownloads { day: Day { ordinal: 738_811 }, downloads: 3 },
        DailyDownloads { day: Day { ordinal: 738_900 }, downloads: 5 },
    ];
    assert_eq!(downloads(&app, "bar", "0.3.1", None, today), Ok(both.clone()));
    assert_eq!(downloads(&app, "bar", "0.3.1", Some("2024-01-15"), Day { ordinal: 1 }), Ok(both.clone()));
    // Not a date: today is taken.
    for text in ["", "yesterday", "2024-13-01", "2024-02-30", "15/01/2024", "2024-01-15T00:00:00"] {
        assert_eq!(downloads(&app, "bar", "0.3.1", Some(text), today), Ok(both.clone()), "{text}");
    }
    // One day earlier the window reaches the oldest record and loses the newest.
    assert_eq!(
        downloads(&app, "bar", "0.3.1", Some("2024-01-14"), today),
        Ok(vec![
            DailyDownloads { day: Day { ordinal: 738_810 }, downloads: 2 },
            DailyDownloads { day: Day { ordinal: 738_811 }, downloads: 3 },
        ])
    );
    assert_eq!(downloads(&app, "bar", "0.3.1", Some("2023-10-16"), today), Ok(vec![]));
}

#[test]
fn crate_downloads_ignores_the_end_date() {
    let mut app = new_app();
    let v1 = VersionKey { package_id: 7, version_id: 70 };
    let v2 = VersionKey { package_id: 7, version_id: 71 };
    let other = VersionKey { package_id: 8, version_id: 80 };
    app.catalog.publish("bar", "0.3.1", v1);
    app.catalog.publish("bar", "0.4.0", v2);
    app.catalog.publish("baz", "1.0.0", other);
    let today = Day { ordinal: 738_900 };
    app.downloads.ledger.upsert_add(v1, Day { ordinal: 738_900 }, 5).unwrap();
    app.downloads.ledger.upsert_add(v2, Day { ordinal: 738_900 }, 7).unwrap();
    app.downloads.ledger.upsert_add(other, Day { ordinal: 738_900 }, 100).unwrap();
    app.downloads.ledger.upsert_add(v2, Day { ordinal: 738_899 }, 1).unwrap();
    app.downloads.ledger.upsert_add(v1, Day { ordinal: 738_810 }, 9).unwrap();

    let expected = vec![
        DailyDownloads { day: Day { ordinal: 738_899 }, downloads: 1 },
        DailyDownloads { day: Day { ordinal: 738_900 }, downloads: 12 },
    ];
    assert_eq!(crate_downloads(&app, "bar", None, today), Ok(expected.clone()));
    assert_eq!(crate_downloads(&app, "bar", Some("2023-01-01"), today), Ok(expected.clone()));
    assert_eq!(crate_downloads(&app, "bar", Some("2030-01-01"), today), Ok(expected.clone()));
    assert_eq!(crate_downloads(&app, "bar", Some("garbage"), today), Ok(expected));
    assert_eq!(crate_downloads(&app, "Bar", None, today), Err(NotFound));
    assert_eq!(crate_downloads(&app, "qux", None, today), Err(NotFound));
}
