//! What the library reports: the status of a document and the outcome of a
//! synchronization.

use vstd::prelude::*;
use vstd::string::StringExecFns;
use crate::error::ContextError;
use crate::text::{concat, lemma_views_push, views};
use crate::text_map::TextMap;

verus! {

/// How a document stands to the files it refers to.
#[derive(Debug, Clone, Copy, PartialEq, Eq, Structural)]
pub enum Status {
    /// Every file is there, with the fingerprint that the document holds.
    Valid,
    /// A file's content has changed.
    Stale,
    /// A file is gone.
    Orphaned,
}

impl Status {
    /// How grave the status is: valid least, orphaned most.
    pub open spec fn severity(self) -> int {
        match self {
            Status::Valid => 0,
            Status::Stale => 1,
            Status::Orphaned => 2,
        }
    }

    /// The graver of two statuses.
    pub open spec fn merged(self, other: Status) -> Status {
        if other.severity() > self.severity() {
            other
        } else {
            self
        }
    }

    /// The status as a lowercase word.
    pub open spec fn label_spec(self) -> Seq<char> {
        match self {
            Status::Valid => "valid"@,
            Status::Stale => "stale"@,
            Status::Orphaned => "orphaned"@,
        }
    }

    /// The graver of two statuses: orphaned is never taken back, and stale
    /// only gives way to orphaned.
    pub fn merge(self, other: Status) -> (r: Status)
        ensures
            r == self.merged(other),
    {
        match (self, other) {
            (Status::Orphaned, _) => Status::Orphaned,
            (_, Status::Orphaned) => Status::Orphaned,
            (Status::Stale, _) => Status::Stale,
            (_, Status::Stale) => Status::Stale,
            _ => Status::Valid,
        }
    }

    /// The status as a lowercase word.
    pub fn label(&self) -> (word: String)
        ensures
            word@ == self.label_spec(),
    {
        match self {
            Status::Valid => "valid".to_owned(),
            Status::Stale => "stale".to_owned(),
            Status::Orphaned => "orphaned".to_owned(),
        }
    }
}

/// Merging statuses does not depend on order or grouping, a status merged
/// with itself stays, valid changes nothing and orphaned takes all.
pub proof fn lemma_merge_laws(a: Status, b: Status, c: Status)
    ensures
        a.merged(b) == b.merged(a),
        a.merged(b).merged(c) == a.merged(b.merged(c)),
        a.merged(a) == a,
        a.merged(Status::Valid) == a,
        a.merged(Status::Orphaned) == Status::Orphaned,
{
}

/// The status of one document.
#[derive(Debug, Clone, PartialEq, Eq)]
pub struct Validation {
    /// The document's location.
    pub path: String,
    /// How the document stands.
    pub status: Status,
    /// The references whose content has changed.
    pub changed: Vec<String>,
    /// The references whose file is gone.
    pub missing: Vec<String>,
}

impl Validation {
    /// A validation of the document at `path` that lists no reference yet.
    pub fn new(path: String, status: Status) -> (validation: Self)
        ensures
            validation.path == path,
            validation.status == status,
            validation.changed@ == Seq::<String>::empty(),
            validation.missing@ == Seq::<String>::empty(),
    {
        Validation { path, status, changed: Vec::new(), missing: Vec::new() }
    }

    /// Lists `file` among the changed references.
    pub fn add_changed(&mut self, file: String)
        ensures
            final(self).changed@ == old(self).changed@.push(file),
            final(self).path == old(self).path,
            final(self).status == old(self).status,
            final(self).missing == old(self).missing,
    {
        self.changed.push(file);
    }

    /// Lists `file` among the missing references.
    pub fn add_missing(&mut self, file: String)
        ensures
            final(self).missing@ == old(self).missing@.push(file),
            final(self).path == old(self).path,
            final(self).status == old(self).status,
            final(self).changed == old(self).changed,
    {
        self.missing.push(file);
    }
}

/// A document found by a search.
#[derive(Debug, Clone, PartialEq, Eq)]
pub struct SearchResult {
    /// The document's location.
    pub path: String,
    /// The document's description.
    pub description: String,
    /// The text that matched, where there is one.
    pub snippet: Option<String>,
}

impl SearchResult {
    /// A search result with the given fields.
    pub fn new(path: String, description: String, snippet: Option<String>) -> (result: Self)
        ensures
            result.path == path,
            result.description == description,
            result.snippet == snippet,
    {
        SearchResult { path, description, snippet }
    }
}

/// A document that refers to given source files.
#[derive(Debug, Clone, PartialEq, Eq)]
pub struct FindResult {
    /// The document's location.
    pub path: String,
    /// The document's description.
    pub description: String,
    /// The source files that the document refers to.
    pub references: Vec<String>,
}

impl FindResult {
    /// A find result with the given fields.
    pub fn new(path: String, description: String, references: Vec<String>) -> (result: Self)
        ensures
            result.path == path,
            result.description == description,
            result.references == references,
    {
        FindResult { path, description, references }
    }
}

/// The outcome of a synchronization.
#[derive(Debug, Clone, PartialEq, Eq)]
pub struct SyncResult {
    /// The number of documents that were synchronized.
    pub count: usize,
    /// The locations of the documents that were synchronized.
    pub updated: Vec<String>,
    /// One line for each document that failed: its location and the error.
    pub failed: Vec<String>,
}

impl SyncResult {
    /// The outcome in which nothing has happened yet.
    pub fn new() -> (result: Self)
        ensures
            result.count == 0,
            result.updated@ == Seq::<String>::empty(),
            result.failed@ == Seq::<String>::empty(),
    {
        SyncResult { count: 0, updated: Vec::new(), failed: Vec::new() }
    }
}

/// The first index at or after `from` at which `paths` holds `location`;
/// the length of `paths` where it holds it nowhere.
pub open spec fn index_of_path(paths: Seq<Seq<char>>, location: Seq<char>, from: int) -> int
    decreases paths.len() - from,
{
    if from < 0 || from >= paths.len() {
        paths.len() as int
    } else if paths[from] == location {
        from
    } else {
        index_of_path(paths, location, from + 1)
    }
}

/// `paths` without the first occurrence of `location`.
pub open spec fn without(paths: Seq<Seq<char>>, location: Seq<char>) -> Seq<Seq<char>> {
    let at = index_of_path(paths, location, 0);
    if at < paths.len() {
        paths.remove(at)
    } else {
        paths
    }
}

/// The first occurrence of `location` is the one before which it does not
/// occur.
pub proof fn lemma_index_of_path_is(paths: Seq<Seq<char>>, location: Seq<char>, from: int, at: int)
    requires
        0 <= from <= at <= paths.len(),
        forall|j: int| from <= j < at ==> paths[j] != location,
        at < paths.len() ==> paths[at] == location,
    ensures
        index_of_path(paths, location, from) == at,
    decreases at - from,
{
    if from < at {
        lemma_index_of_path_is(paths, location, from + 1, at);
    }
}

impl SyncResult {
    /// Records that the document at `location`, though synchronized, could
    /// not be stored for the reason `error`: it leaves the updated documents
    /// and is reported as failed. The other documents are not touched.
    pub fn record_failure(&mut self, location: &str, error: &ContextError)
        ensures
            views(final(self).updated@) == without(views(old(self).updated@), location@),
            final(self).count == final(self).updated@.len(),
            views(final(self).failed@) == views(old(self).failed@).push(
                location@ + ": "@ + error.message_spec(),
            ),
    {
        let wanted = location.to_owned();
        let ghost before = views(self.updated@);
        let mut at: usize = 0;
        while at < self.updated.len() && !(self.updated[at] == wanted)
            invariant
                at <= self.updated.len(),
                wanted@ == location@,
                before == views(self.updated@),
                forall|j: int| 0 <= j < at ==> before[j] != location@,
            decreases self.updated.len() - at,
        {
            assert(before[at as int] == self.updated@[at as int]@);
            at += 1;
        }
        proof {
            if at < self.updated.len() {
                assert(before[at as int] == self.updated@[at as int]@);
            }
            lemma_index_of_path_is(before, location@, 0, at as int);
        }
        if at < self.updated.len() {
            self.updated.remove(at);
            assert(views(self.updated@) =~= before.remove(at as int));
        }
        self.count = self.updated.len();
        let mut line = concat(location, ": ");
        line.append(error.message().as_str());
        let ghost earlier = self.failed@;
        self.failed.push(line);
        proof {
            lemma_views_push(earlier, line);
        }
    }
}

impl Default for SyncResult {
    fn default() -> (result: Self)
        ensures
            result.count == 0,
            result.updated@ == Seq::<String>::empty(),
            result.failed@ == Seq::<String>::empty(),
    {
        SyncResult::new()
    }
}

/// The metadata block of a document.
#[derive(Debug, Clone, PartialEq, Eq)]
pub struct Frontmatter {
    /// The document's short name.
    pub slug: String,
    /// The document's description.
    pub description: String,
    /// The fingerprint stored for each source file.
    pub references: TextMap<String>,
    /// The day of the last synchronization.
    pub updated: String,
}

} // verus!
