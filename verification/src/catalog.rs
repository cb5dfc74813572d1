//! The catalog of published versions, looked up by exact name.

use vstd::prelude::*;
use crate::key::VersionKey;

verus! {

/// One published version: the names it goes by, and its key.
#[derive(Debug)]
pub struct CatalogEntry {
    pub crate_name: String,
    pub version: String,
    pub key: VersionKey,
}

/// The published versions, in the order in which they were listed.
#[derive(Debug)]
pub struct Catalog {
    pub entries: Vec<CatalogEntry>,
}

/// Whether the entry goes by exactly this crate name and version: character
/// for character, case included.
pub open spec fn names_version(entry: CatalogEntry, crate_name: Seq<char>, version: Seq<char>) -> bool {
    entry.crate_name@ == crate_name && entry.version@ == version
}

/// The key of the first entry that goes by exactly this crate name and
/// version.
pub open spec fn found_version(
    entries: Seq<CatalogEntry>,
    crate_name: Seq<char>,
    version: Seq<char>,
) -> Option<VersionKey>
    decreases entries.len(),
{
    if entries.len() == 0 {
        None
    } else if names_version(entries[0], crate_name, version) {
        Some(entries[0].key)
    } else {
        found_version(entries.skip(1), crate_name, version)
    }
}

/// The package of the first entry that goes by exactly this crate name.
pub open spec fn found_package(entries: Seq<CatalogEntry>, crate_name: Seq<char>) -> Option<u32>
    decreases entries.len(),
{
    if entries.len() == 0 {
        None
    } else if entries[0].crate_name@ == crate_name {
        Some(entries[0].key.package_id)
    } else {
        found_package(entries.skip(1), crate_name)
    }
}

/// Whether the semver crate reads `text` as a version.
pub uninterp spec fn semver_accepts(text: Seq<char>) -> bool;

/// Calls `semver::Version::parse` and tells whether it returned a version.
/// Nothing is proved of this: the answer is taken to be a function of the
/// text alone, named `semver_accepts`.
#[verifier::external_body]
pub(crate) fn parses_as_semver(text: &str) -> (accepted: bool)
    ensures
        accepted == semver_accepts(text@),
{
    match semver::Version::parse(text) {
        Ok(_) => true,
        Err(_) => false,
    }
}

impl Catalog {
    /// A catalog without entries.
    pub fn new() -> (catalog: Catalog)
        ensures
            catalog.entries@.len() == 0,
    {
        Catalog { entries: Vec::new() }
    }

    /// Lists a version under its crate name and version string.
    pub fn publish(&mut self, crate_name: &str, version: &str, key: VersionKey)
        ensures
            final(self).entries@.len() == old(self).entries@.len() + 1,
            final(self).entries@.drop_last() == old(self).entries@,
            names_version(final(self).entries@.last(), crate_name@, version@),
            final(self).entries@.last().key == key,
    {
        self.entries.push(
            CatalogEntry { crate_name: crate_name.to_owned(), version: version.to_owned(), key },
        );
    }

    /// Finds a version by crate name and version string. Both must match an
    /// entry exactly; no case is folded and nothing similar is accepted.
    pub fn find_version(&self, crate_name: &str, version: &str) -> (found: Option<VersionKey>)
        ensures
            found == found_version(self.entries@, crate_name@, version@),
    {
        let wanted_name: String = crate_name.to_owned();
        let wanted_version: String = version.to_owned();
        let n: usize = self.entries.len();
        let mut i: usize = 0;
        proof {
            assert(self.entries@.skip(0) =~= self.entries@);
        }
        while i < n
            invariant
                i <= n,
                n == self.entries@.len(),
                wanted_name@ == crate_name@,
                wanted_version@ == version@,
                found_version(self.entries@, crate_name@, version@) == found_version(
                    self.entries@.skip(i as int),
                    crate_name@,
                    version@,
                ),
            decreases n - i,
        {
            proof {
                assert(self.entries@.skip(i as int).skip(1) =~= self.entries@.skip(i as int + 1));
            }
            if self.entries[i].crate_name == wanted_name && self.entries[i].version
                == wanted_version {
                return Some(self.entries[i].key);
            }
            i = i + 1;
        }
        None
    }

    /// Finds a package by its exact crate name.
    pub fn find_package(&self, crate_name: &str) -> (found: Option<u32>)
        ensures
            found == found_package(self.entries@, crate_name@),
    {
        let wanted_name: String = crate_name.to_owned();
        let n: usize = self.entries.len();
        let mut i: usize = 0;
        proof {
            assert(self.entries@.skip(0) =~= self.entries@);
        }
        while i < n
            invariant
                i <= n,
                n == self.entries@.len(),
                wanted_name@ == crate_name@,
                found_package(self.entries@, crate_name@) == found_package(
                    self.entries@.skip(i as int),
                    crate_name@,
                ),
            decreases n - i,
        {
            proof {
                assert(self.entries@.skip(i as int).skip(1) =~= self.entries@.skip(i as int + 1));
            }
            if self.entries[i].crate_name == wanted_name {
                return Some(self.entries[i].key.package_id);
            }
            i = i + 1;
        }
        None
    }
}

} // verus!
