//! A snapshot of the files that the documents speak of: what was found at
//! each location that was looked at.

use vstd::prelude::*;
use crate::text_map::{bind, lookup, TextMap};

verus! {

/// What was found at a location.
#[derive(Debug, Clone, PartialEq, Eq)]
pub enum Entry {
    /// A file, with its content.
    File(Vec<u8>),
    /// A directory.
    Directory,
    /// A file whose content could not be read, with the reason.
    Unreadable(String),
}

/// What lies at the locations that were looked at. A location that the
/// snapshot does not hold counts as one at which nothing lies.
#[derive(Debug, Clone, PartialEq, Eq)]
pub struct FileTree {
    entries: TextMap<Entry>,
}

impl View for FileTree {
    type V = Seq<(Seq<char>, Entry)>;

    closed spec fn view(&self) -> Seq<(Seq<char>, Entry)> {
        self.entries@
    }
}

/// What `tree` holds at `location`.
pub open spec fn entry_at(tree: Seq<(Seq<char>, Entry)>, location: Seq<char>) -> Option<Entry> {
    lookup(tree, location)
}

impl FileTree {
    /// A snapshot that holds nothing.
    pub fn new() -> (tree: Self)
        ensures
            tree@ == Seq::<(Seq<char>, Entry)>::empty(),
    {
        FileTree { entries: TextMap::new() }
    }

    /// Records that `entry` lies at `location`, in place of what was recorded
    /// there before.
    pub fn insert(&mut self, location: String, entry: Entry)
        ensures
            final(self)@ == bind(old(self)@, location@, entry),
    {
        self.entries.insert(location, entry);
    }

    /// What lies at `location`.
    pub fn lookup(&self, location: &str) -> (found: Option<&Entry>)
        ensures
            match found {
                Some(entry) => entry_at(self@, location@) == Some(*entry),
                None => entry_at(self@, location@) is None,
            },
    {
        self.entries.get(location)
    }
}

} // verus!
