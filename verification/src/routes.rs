//! What the download and history endpoints decide, on plain values: the
//! caller reads the request and the clock, and sends the answer.

use vstd::prelude::*;
use crate::catalog::{Catalog, found_package, found_version, parses_as_semver, semver_accepts};
use crate::counter::has_room;
use crate::day::{Day, DEFAULT_WINDOW_DAYS, day_or_today, parsed_day};
use crate::ledger::{DailyDownloads, is_package_history, is_version_history};
use crate::service::DownloadService;

verus! {

/// No version, or no package, goes by the name that was asked for.
#[derive(Clone, Copy, Debug, PartialEq, Eq, Structural)]
pub struct NotFound;

/// The answer to a download request: where the package file is.
#[derive(Debug, PartialEq, Eq)]
pub enum DownloadReply {
    /// Send the client on to the location.
    Redirect { url: String },
    /// Hand the location out as data.
    Json { url: String },
}

/// The catalog and the download service that the endpoints work on.
pub struct AppState {
    pub catalog: Catalog,
    pub downloads: DownloadService,
}

impl AppState {
    /// The download service is well-formed.
    pub open spec fn wf(&self) -> bool {
        self.downloads.wf()
    }
}

/// The reply that hands out `url` in the form that the client asked for.
pub open spec fn reply_with(wants_json: bool, url: String) -> DownloadReply {
    if wants_json {
        DownloadReply::Json { url }
    } else {
        DownloadReply::Redirect { url }
    }
}

/// The date text of a request, read: a date where the text spells one.
pub open spec fn requested_day(before_date: Option<&str>) -> Option<Day> {
    match before_date {
        Some(text) => parsed_day(text@),
        None => None,
    }
}

/// Answers a download request for `version` of `crate_name`. Where the
/// catalog has that version, under exactly that name, the download is counted
/// for today and the location is handed out, as a redirect or as data;
/// otherwise nothing is counted and the answer is `NotFound`.
pub fn download(
    app: &mut AppState,
    crate_name: &str,
    version: &str,
    wants_json: bool,
    redirect_url: String,
    today: Day,
) -> (reply: Result<DownloadReply, NotFound>)
    requires
        old(app).wf(),
    ensures
        final(app).wf(),
        final(app).catalog == old(app).catalog,
        match found_version(old(app).catalog.entries@, crate_name@, version@) {
            Some(key) => {
                &&& reply == Ok::<DownloadReply, NotFound>(reply_with(wants_json, redirect_url))
                &&& final(app).downloads@ == if has_room(old(app).downloads@.shards, key) {
                    old(app).downloads@.record(key, today)
                } else {
                    old(app).downloads@
                }
            },
            None => reply is Err && final(app).downloads@ == old(app).downloads@,
        },
{
    match app.catalog.find_version(crate_name, version) {
        Some(key) => {
            app.downloads.record_download(key, today);
            if wants_json {
                Ok(DownloadReply::Json { url: redirect_url })
            } else {
                Ok(DownloadReply::Redirect { url: redirect_url })
            }
        },
        None => Err(NotFound),
    }
}

/// Whether `rows` answers a history request for `version` of `crate_name`,
/// given whether the version string is well-formed and which end date, if
/// any, the request named.
pub open spec fn answers_downloads(
    app: &AppState,
    crate_name: Seq<char>,
    version: Seq<char>,
    well_formed: bool,
    before: Option<Day>,
    today: Day,
    answer: Result<Vec<DailyDownloads>, NotFound>,
) -> bool {
    match found_version(app.catalog.entries@, crate_name, version) {
        Some(key) if well_formed => answer matches Ok(rows) && is_version_history(
            rows@,
            app.downloads@.ledger.events,
            key,
            day_or_today(before, today),
            DEFAULT_WINDOW_DAYS,
        ),
        _ => answer is Err,
    }
}

/// Answers a history request once the version string has been judged and the
/// date read: `NotFound` for a malformed version string and for a version
/// that the catalog does not have under exactly that name; else the history
/// of the version over the 90 days that end on `before`, or today where
/// `before` is absent.
pub fn downloads_resolved(
    app: &AppState,
    crate_name: &str,
    version: &str,
    well_formed: bool,
    before: Option<Day>,
    today: Day,
) -> (answer: Result<Vec<DailyDownloads>, NotFound>)
    requires
        app.wf(),
    ensures
        answers_downloads(app, crate_name@, version@, well_formed, before, today, answer),
{
    if !well_formed {
        return Err(NotFound);
    }
    match app.catalog.find_version(crate_name, version) {
        Some(key) => {
            let end: Day = Day::or_today(before, today);
            Ok(app.downloads.query_version_downloads(key, end, DEFAULT_WINDOW_DAYS))
        },
        None => Err(NotFound),
    }
}

/// Answers a history request for `version` of `crate_name`. A version string
/// that is no semantic version is answered like an unknown version, with
/// `NotFound`. A `before_date` that is no date counts as absent: the history
/// then ends today.
pub fn downloads(
    app: &AppState,
    crate_name: &str,
    version: &str,
    before_date: Option<&str>,
    today: Day,
) -> (answer: Result<Vec<DailyDownloads>, NotFound>)
    requires
        app.wf(),
    ensures
        answers_downloads(
            app,
            crate_name@,
            version@,
            semver_accepts(version@),
            requested_day(before_date),
            today,
            answer,
        ),
{
    let well_formed: bool = parses_as_semver(version);
    let before: Option<Day> = match before_date {
        Some(text) => Day::parse(text),
        None => None,
    };
    downloads_resolved(app, crate_name, version, well_formed, before, today)
}

/// Answers a history request for a whole package: the downloads of all its
/// versions together, day by day, over the 90 days that end today. A
/// `before_date` in the request changes nothing.
pub fn crate_downloads(
    app: &AppState,
    crate_name: &str,
    before_date: Option<&str>,
    today: Day,
) -> (answer: Result<Vec<DailyDownloads>, NotFound>)
    requires
        app.wf(),
    ensures
        match found_package(app.catalog.entries@, crate_name@) {
            Some(package_id) => answer matches Ok(rows) && is_package_history(
                rows@,
                app.downloads@.ledger.events,
                package_id,
                today,
                DEFAULT_WINDOW_DAYS,
            ),
            None => answer is Err,
        },
{
    match app.catalog.find_package(crate_name) {
        Some(package_id) => Ok(app.downloads.query_package_downloads(package_id, None, today)),
        None => Err(NotFound),
    }
}

} // verus!
