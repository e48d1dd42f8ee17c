//! Locations as text: components separated by `/`, as the documents and
//! their references are named.

use vstd::prelude::*;
use vstd::string::StringExecFns;
use crate::text::to_chars;

verus! {

/// The name of the directory that marks a cache root.
pub const CONTEXT_DIR_NAME: &'static str = ".context";

/// The marker's name as a sequence of characters.
pub open spec fn marker() -> Seq<char> {
    seq!['.', 'c', 'o', 'n', 't', 'e', 'x', 't']
}

/// `rel` resolved against `base`: `rel` itself where it starts with `/`,
/// else `base`, a `/` unless `base` is empty or ends with one, and `rel`.
pub open spec fn joined(base: Seq<char>, rel: Seq<char>) -> Seq<char> {
    if rel.len() > 0 && rel[0] == '/' {
        rel
    } else if base.len() == 0 || base.last() == '/' {
        base + rel
    } else {
        base + seq!['/'] + rel
    }
}

/// The index of the last `/` of `s` before index `end`; -1 where there is
/// none.
pub open spec fn last_slash(s: Seq<char>, end: int) -> int
    decreases end,
{
    if end <= 0 || end > s.len() {
        -1
    } else if s[end - 1] == '/' {
        end - 1
    } else {
        last_slash(s, end - 1)
    }
}

/// Where the parent of the location `s.take(end)` ends, so that the parent
/// is `s.take(parent_end(s, end))`; -1 where it has none. The parent of `/x`
/// is `/`, that of a single name is the empty location, and `/` and the
/// empty location have none.
pub open spec fn parent_end(s: Seq<char>, end: int) -> int {
    let slash = last_slash(s, end);
    if slash > 0 {
        slash
    } else if slash == 0 {
        if end > 1 {
            1
        } else {
            -1
        }
    } else if end > 0 {
        0
    } else {
        -1
    }
}

/// The last component of the location `s.take(end)`.
pub open spec fn name_before(s: Seq<char>, end: int) -> Seq<char> {
    s.subrange(last_slash(s, end) + 1, end)
}

/// The last component of `location`.
pub open spec fn file_name(location: Seq<char>) -> Seq<char> {
    name_before(location, location.len() as int)
}

/// Where the project root above the directory `s.take(end)` ends: the parent
/// of the nearest directory, from `s.take(end)` upward, that is named like
/// the marker; -1 where there is none.
pub open spec fn root_end(s: Seq<char>, end: int) -> int
    decreases end,
{
    if end < 0 || end > s.len() {
        -1
    } else if name_before(s, end) == marker() {
        parent_end(s, end)
    } else {
        let up = parent_end(s, end);
        proof {
            lemma_last_slash_bounds(s, end);
        }
        if up < 0 {
            -1
        } else {
            root_end(s, up)
        }
    }
}

/// The project root of a document at `location`: the parent of the nearest
/// directory above the document that is named like the marker.
pub open spec fn project_root_of(location: Seq<char>) -> Option<Seq<char>> {
    let dir = parent_end(location, location.len() as int);
    if dir < 0 || root_end(location, dir) < 0 {
        None
    } else {
        Some(location.take(root_end(location, dir)))
    }
}

/// The file at `location` has the suffix of a document: its name ends with
/// `.md` and holds more than that.
pub open spec fn is_document_name(location: Seq<char>) -> bool {
    let name = file_name(location);
    name.len() >= 4 && name.subrange(name.len() - 3, name.len() as int) == seq!['.', 'm', 'd']
}

/// The last slash before `end` lies before `end`, no slash comes after it,
/// and the parent of a location is shorter than the location.
pub proof fn lemma_last_slash_bounds(s: Seq<char>, end: int)
    requires
        0 <= end <= s.len(),
    ensures
        -1 <= last_slash(s, end) < end || (end == 0 && last_slash(s, end) == -1),
        last_slash(s, end) >= 0 ==> s[last_slash(s, end)] == '/',
        forall|j: int| last_slash(s, end) < j < end ==> s[j] != '/',
        parent_end(s, end) < end,
        parent_end(s, end) >= -1,
    decreases end,
{
    if end > 0 && s[end - 1] != '/' {
        lemma_last_slash_bounds(s, end - 1);
    }
}

/// The last slash before `end` is the one after which no slash comes.
pub proof fn lemma_last_slash_is(s: Seq<char>, end: int, at: int)
    requires
        -1 <= at < end <= s.len(),
        at >= 0 ==> s[at] == '/',
        forall|j: int| at < j < end ==> s[j] != '/',
    ensures
        last_slash(s, end) == at,
    decreases end,
{
    if end - 1 > at {
        lemma_last_slash_is(s, end - 1, at);
    }
}

/// The index of the last `/` before `end`, if there is one.
pub(crate) fn find_last_slash(text: &Vec<char>, end: usize) -> (at: Option<usize>)
    requires
        end <= text.len(),
    ensures
        match at {
            Some(i) => last_slash(text@, end as int) == i && i < end,
            None => last_slash(text@, end as int) == -1,
        },
{
    let mut i: usize = end;
    while i > 0 && text[i - 1] != '/'
        invariant
            i <= end <= text.len(),
            forall|j: int| i <= j < end ==> text@[j] != '/',
        decreases i,
    {
        i -= 1;
    }
    proof {
        lemma_last_slash_is(text@, end as int, i - 1);
    }
    if i > 0 {
        Some(i - 1)
    } else {
        None
    }
}

/// Where the parent of the location in `0..end` ends, if it has one.
pub(crate) fn find_parent_end(text: &Vec<char>, end: usize) -> (up: Option<usize>)
    requires
        end <= text.len(),
    ensures
        match up {
            Some(i) => parent_end(text@, end as int) == i && i < end,
            None => parent_end(text@, end as int) == -1,
        },
{
    match find_last_slash(text, end) {
        Some(slash) => {
            proof {
                lemma_last_slash_bounds(text@, end as int);
            }
            if slash > 0 {
                Some(slash)
            } else if end > 1 {
                Some(1)
            } else {
                None
            }
        },
        None => {
            if end > 0 {
                Some(0)
            } else {
                None
            }
        },
    }
}

/// Whether the last component of the location in `0..end` is the marker's
/// name.
pub(crate) fn names_marker(text: &Vec<char>, end: usize) -> (r: bool)
    requires
        end <= text.len(),
    ensures
        r == (name_before(text@, end as int) == marker()),
{
    let start: usize = match find_last_slash(text, end) {
        Some(slash) => slash + 1,
        None => 0,
    };
    proof {
        lemma_last_slash_bounds(text@, end as int);
    }
    let ghost name = name_before(text@, end as int);
    if end - start != 8 {
        assert(name.len() != marker().len());
        return false;
    }
    let r = text[start] == '.' && text[start + 1] == 'c' && text[start + 2] == 'o' && text[start + 3]
        == 'n' && text[start + 4] == 't' && text[start + 5] == 'e' && text[start + 6] == 'x'
        && text[start + 7] == 't';
    proof {
        assert(name.len() == 8);
        assert(name[0] == text@[start + 0]);
        assert(name[1] == text@[start + 1]);
        assert(name[2] == text@[start + 2]);
        assert(name[3] == text@[start + 3]);
        assert(name[4] == text@[start + 4]);
        assert(name[5] == text@[start + 5]);
        assert(name[6] == text@[start + 6]);
        assert(name[7] == text@[start + 7]);
        if r {
            assert(name =~= marker());
        }
    }
    r
}

/// `rel` resolved against `base`.
pub fn join(base: &str, rel: &str) -> (full: String)
    ensures
        full@ == joined(base@, rel@),
{
    let rel_chars = to_chars(rel);
    if rel_chars.len() > 0 && rel_chars[0] == '/' {
        return rel.to_owned();
    }
    let base_chars = to_chars(base);
    let mut full = base.to_owned();
    if base_chars.len() > 0 && base_chars[base_chars.len() - 1] != '/' {
        proof {
            reveal_strlit("/");
        }
        full.append("/");
        assert("/"@ =~= seq!['/']);
    }
    full.append(rel);
    full
}

/// The project root of a document at `location`, if a directory above it is
/// named like the marker.
pub fn project_root_of_location(location: &str) -> (root: Option<String>)
    ensures
        match root {
            Some(r) => project_root_of(location@) == Some(r@),
            None => project_root_of(location@) is None,
        },
{
    let text = to_chars(location);
    let mut dir: usize = match find_parent_end(&text, text.len()) {
        Some(up) => up,
        None => { return None; },
    };
    loop
        invariant
            dir <= text.len(),
            text@ == location@,
            root_end(text@, parent_end(text@, text.len() as int)) == root_end(text@, dir as int),
            parent_end(text@, text.len() as int) >= 0,
        decreases dir,
    {
        if names_marker(&text, dir) {
            return match find_parent_end(&text, dir) {
                Some(up) => Some(location.substring_char(0, up).to_owned()),
                None => None,
            };
        }
        match find_parent_end(&text, dir) {
            Some(up) => {
                dir = up;
            },
            None => {
                return None;
            },
        }
    }
}

/// Whether the file at `location` has the suffix of a document.
pub fn has_document_suffix(location: &str) -> (r: bool)
    ensures
        r == is_document_name(location@),
{
    let text = to_chars(location);
    let n = text.len();
    let start: usize = match find_last_slash(&text, n) {
        Some(slash) => slash + 1,
        None => 0,
    };
    proof {
        lemma_last_slash_bounds(text@, n as int);
    }
    let ghost name = file_name(text@);
    if n - start < 4 {
        return false;
    }
    let r = text[n - 3] == '.' && text[n - 2] == 'm' && text[n - 1] == 'd';
    proof {
        let tail = name.subrange(name.len() - 3, name.len() as int);
        assert(tail[0] == text@[n - 3]);
        assert(tail[1] == text@[n - 2]);
        assert(tail[2] == text@[n - 1]);
        if r {
            assert(tail =~= seq!['.', 'm', 'd']);
        }
    }
    r
}

} // verus!
