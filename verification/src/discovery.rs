//! Finding the cache that a directory belongs to: the marker directory in
//! the directory itself or in the nearest directory above it.

use vstd::prelude::*;
use crate::error::ContextError;
use crate::location::{
    find_parent_end, join, joined, lemma_last_slash_bounds, marker, parent_end, CONTEXT_DIR_NAME,
};
use crate::text::{lemma_views_push, to_chars, views};
use crate::tree::{entry_at, Entry, FileTree};

verus! {

/// The marker directory of the directory `s.take(end)` or of the nearest
/// directory above it that has one in `tree`.
pub open spec fn root_from(s: Seq<char>, end: int, tree: Seq<(Seq<char>, Entry)>) -> Option<Seq<char>>
    decreases end,
{
    if end < 0 || end > s.len() {
        None
    } else {
        let candidate = joined(s.take(end), marker());
        let up = parent_end(s, end);
        proof {
            lemma_last_slash_bounds(s, end);
        }
        if entry_at(tree, candidate) matches Some(Entry::Directory) {
            Some(candidate)
        } else if up < 0 {
            None
        } else {
            root_from(s, up, tree)
        }
    }
}

/// The cache root that the directory `from` belongs to, given what `tree`
/// holds.
pub open spec fn discovered(from: Seq<char>, tree: Seq<(Seq<char>, Entry)>) -> Option<Seq<char>> {
    root_from(from, from.len() as int, tree)
}

/// The places where the marker directory of `s.take(end)` may lie: in the
/// directory itself, then in each directory above it, nearest first.
pub open spec fn candidates_from(s: Seq<char>, end: int) -> Seq<Seq<char>>
    decreases end,
{
    if end < 0 || end > s.len() {
        Seq::empty()
    } else {
        let up = parent_end(s, end);
        proof {
            lemma_last_slash_bounds(s, end);
        }
        if up < 0 {
            seq![joined(s.take(end), marker())]
        } else {
            seq![joined(s.take(end), marker())] + candidates_from(s, up)
        }
    }
}

/// The places that `discover_root` looks at for the directory `from`.
pub fn root_candidates(from: &str) -> (places: Vec<String>)
    ensures
        views(places@) == candidates_from(from@, from@.len() as int),
{
    let text = to_chars(from);
    let mut places: Vec<String> = Vec::new();
    let mut end: usize = text.len();
    let ghost all = candidates_from(from@, from@.len() as int);
    assert(views(places@) + all =~= all);
    loop
        invariant
            end <= text.len(),
            text@ == from@,
            all == candidates_from(from@, from@.len() as int),
            all == views(places@) + candidates_from(text@, end as int),
        decreases end,
    {
        proof {
            reveal_strlit(".context");
            assert(".context"@ =~= marker());
        }
        let ghost earlier = places@;
        let candidate = join(from.substring_char(0, end), CONTEXT_DIR_NAME);
        assert(text@.take(end as int) =~= text@.subrange(0, end as int));
        places.push(candidate);
        proof {
            lemma_views_push(earlier, candidate);
        }
        assert(candidate@ == joined(text@.take(end as int), marker()));
        match find_parent_end(&text, end) {
            Some(up) => {
                proof {
                    let rest = candidates_from(text@, up as int);
                    assert(candidates_from(text@, end as int) == seq![candidate@] + rest);
                    assert(views(earlier) + (seq![candidate@] + rest) =~= views(earlier).push(candidate@) + rest);
                }
                end = up;
            },
            None => {
                proof {
                    assert(candidates_from(text@, end as int) == seq![candidate@]);
                    assert(views(earlier) + seq![candidate@] =~= views(earlier).push(candidate@));
                }
                return places;
            },
        }
    }
}

/// The cache root that the directory `from` belongs to: the marker
/// directory in `from` or in the nearest directory above it, given what
/// `tree` holds. `from` is taken as it is written.
pub fn discover_root(from: &str, tree: &FileTree) -> (result: Result<String, ContextError>)
    ensures
        match discovered(from@, tree@) {
            Some(root) => result matches Ok(found) && found@ == root,
            None => result matches Err(ContextError::NotARepository),
        },
{
    let text = to_chars(from);
    let mut end: usize = text.len();
    loop
        invariant
            end <= text.len(),
            text@ == from@,
            discovered(from@, tree@) == root_from(text@, end as int, tree@),
        decreases end,
    {
        proof {
            reveal_strlit(".context");
            assert(".context"@ =~= marker());
        }
        let candidate = join(from.substring_char(0, end), CONTEXT_DIR_NAME);
        assert(text@.take(end as int) =~= text@.subrange(0, end as int));
        match tree.lookup(candidate.as_str()) {
            Some(Entry::Directory) => {
                return Ok(candidate);
            },
            _ => {},
        }
        match find_parent_end(&text, end) {
            Some(up) => {
                end = up;
            },
            None => {
                return Err(ContextError::NotARepository);
            },
        }
    }
}

/// The cache root that the directory `from` belongs to, as `discover_root`
/// finds it.
pub fn find_context_root(from: &str, tree: &FileTree) -> (result: Result<String, ContextError>)
    ensures
        match discovered(from@, tree@) {
            Some(root) => result matches Ok(found) && found@ == root,
            None => result matches Err(ContextError::NotARepository),
        },
{
    discover_root(from, tree)
}

} // verus!
