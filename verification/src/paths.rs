//! Finding the paths that a document mentions, and judging each of them.
//!
//! A mention is a span between two single backticks on one line, outside
//! any fenced region, whose text holds a `/`. Lines are split at line feeds;
//! a carriage return before the line feed stays with its line, where it can
//! never stand inside a closed span.

use vstd::prelude::*;
use crate::location::{join, joined};
use crate::text::{
    contains_text, find_char, find_from, is_space, is_whitespace, lemma_find_char_bounds,
    lemma_find_char_is, lemma_precedes_total, lemma_precedes_transitive, lemma_skip_whitespace_is,
    lemma_sorted_unique, lemma_views_push, occurs_at, precedes, range_precedes, ranges_equal,
    same_members, starts_with, strictly_sorted, to_chars, trim_start, views,
};
use crate::tree::{entry_at, Entry, FileTree};

verus! {

/// Why a mentioned path is not accepted.
#[derive(Debug, Clone, Copy, PartialEq, Eq, Structural)]
pub enum PathError {
    /// The path starts with `/`.
    Absolute,
    /// The path holds `..`.
    ParentTraversal,
    /// Nothing lies at the path.
    NotFound,
    /// A directory lies at the path.
    IsDirectory,
}

impl PathError {
    /// The words that say why the path was refused.
    pub open spec fn message_spec(self) -> Seq<char> {
        match self {
            PathError::Absolute => "absolute path not allowed"@,
            PathError::ParentTraversal => "parent traversal (..) not allowed"@,
            PathError::NotFound => "file not found"@,
            PathError::IsDirectory => "path is a directory, not a file"@,
        }
    }

    /// The words that say why the path was refused.
    pub fn message(&self) -> (text: String)
        ensures
            text@ == self.message_spec(),
    {
        match self {
            PathError::Absolute => "absolute path not allowed".to_owned(),
            PathError::ParentTraversal => "parent traversal (..) not allowed".to_owned(),
            PathError::NotFound => "file not found".to_owned(),
            PathError::IsDirectory => "path is a directory, not a file".to_owned(),
        }
    }
}

/// The number of backticks that stand in a row from index `i` on.
pub open spec fn backtick_run(line: Seq<char>, i: int) -> int
    decreases line.len() - i,
{
    if 0 <= i < line.len() && line[i] == '`' {
        1 + backtick_run(line, i + 1)
    } else {
        0
    }
}

/// The index just past the first `k` backticks in a row that begin at or
/// after `from`; the length of the line where there are none.
pub open spec fn after_run(line: Seq<char>, from: int, k: int) -> int
    decreases line.len() - from,
{
    if from < 0 || from >= line.len() {
        line.len() as int
    } else if backtick_run(line, from) >= k {
        from + k
    } else {
        after_run(line, from + 1, k)
    }
}

/// A span's text counts as a path: it holds a `/` or starts with `./`.
pub open spec fn path_like(content: Seq<char>) -> bool {
    content.contains('/') || starts_with(content, seq!['.', '/'])
}

/// The text without one leading `./`.
pub open spec fn normalized(content: Seq<char>) -> Seq<char> {
    if starts_with(content, seq!['.', '/']) {
        content.skip(2)
    } else {
        content
    }
}

/// The normalized paths of the spans of `line` that open at or after index
/// `i`, in the order of their spans.
///
/// A single backtick opens a span, which the next backtick closes; without
/// one the span yields nothing. Two or more backticks in a row open a region
/// that ends with the first as many backticks in a row and yields nothing.
pub open spec fn mentions_from(line: Seq<char>, i: int) -> Seq<Seq<char>>
    decreases line.len() - i,
{
    if i < 0 || i >= line.len() {
        Seq::empty()
    } else if line[i] != '`' {
        mentions_from(line, i + 1)
    } else {
        let run = backtick_run(line, i);
        if run >= 2 {
            let next = after_run(line, i + run, run);
            proof {
                lemma_backtick_run_bound(line, i, line.len() as int);
                lemma_after_run_bounds(line, i + run, run);
            }
            mentions_from(line, next)
        } else {
            let close = find_char(line, i + 1, '`');
            proof {
                lemma_find_char_bounds(line, i + 1, '`');
            }
            if close >= line.len() {
                Seq::empty()
            } else {
                let content = line.subrange(i + 1, close);
                let rest = mentions_from(line, close + 1);
                if path_like(content) {
                    seq![normalized(content)] + rest
                } else {
                    rest
                }
            }
        }
    }
}

/// The normalized paths that one line mentions, in order.
pub open spec fn line_mentions(line: Seq<char>) -> Seq<Seq<char>> {
    mentions_from(line, 0)
}

/// The line opens or closes a fenced region: after its leading white space
/// come three backticks.
pub open spec fn is_fence_line(line: Seq<char>) -> bool {
    starts_with(trim_start(line), seq!['`', '`', '`'])
}

/// The lines of `s` from index `from` on, split at each line feed.
pub open spec fn lines_from(s: Seq<char>, from: int) -> Seq<Seq<char>>
    decreases s.len() - from,
{
    let end = find_char(s, from, '\n');
    if from < 0 || from > s.len() {
        Seq::empty()
    } else if end < from || end >= s.len() {
        seq![s.subrange(from, s.len() as int)]
    } else {
        seq![s.subrange(from, end)] + lines_from(s, end + 1)
    }
}

/// The lines of `s`.
pub open spec fn lines_of(s: Seq<char>) -> Seq<Seq<char>> {
    lines_from(s, 0)
}

/// The paths that `lines` mention, in order, where `inside` tells whether a
/// fenced region is open before the first of them. A fence line toggles the
/// region and is itself skipped, as is every line inside a region.
pub open spec fn scan_lines(lines: Seq<Seq<char>>, inside: bool) -> Seq<Seq<char>>
    decreases lines.len(),
{
    if lines.len() == 0 {
        Seq::empty()
    } else if is_fence_line(lines[0]) {
        scan_lines(lines.drop_first(), !inside)
    } else if inside {
        scan_lines(lines.drop_first(), true)
    } else {
        line_mentions(lines[0]) + scan_lines(lines.drop_first(), false)
    }
}

/// Every path that `body` mentions, normalized, in the order of the
/// mentions and as often as it is mentioned.
pub open spec fn mentions(body: Seq<char>) -> Seq<Seq<char>> {
    scan_lines(lines_of(body), false)
}

/// `paths` is the scan of `body`: what the body mentions, each path once, in
/// lexicographic order.
pub open spec fn is_scan_of(paths: Seq<Seq<char>>, body: Seq<char>) -> bool {
    &&& strictly_sorted(paths)
    &&& same_members(paths, mentions(body))
}

/// `whole` holds what `first` or `second` holds, and nothing else.
pub open spec fn holds_both(whole: Seq<Seq<char>>, first: Seq<Seq<char>>, second: Seq<Seq<char>>) -> bool {
    forall|p: Seq<char>| whole.contains(p) <==> first.contains(p) || second.contains(p)
}

/// The scan of `body`: the one sequence that holds what the body mentions,
/// each path once, in lexicographic order.
pub open spec fn scan_of(body: Seq<char>) -> Seq<Seq<char>> {
    choose|paths: Seq<Seq<char>>| is_scan_of(paths, body)
}

/// A scan of `body` is the scan of `body`: no other sequence is one.
pub proof fn lemma_scan_unique(paths: Seq<Seq<char>>, body: Seq<char>)
    requires
        is_scan_of(paths, body),
    ensures
        paths == scan_of(body),
{
    let chosen = scan_of(body);
    assert(is_scan_of(chosen, body));
    assert forall|p: Seq<char>| paths.contains(p) <==> chosen.contains(p) by {
        assert(paths.contains(p) <==> mentions(body).contains(p));
        assert(chosen.contains(p) <==> mentions(body).contains(p));
    }
    lemma_sorted_unique(paths, chosen);
}

/// The texts that `ranges` cut out of `text`, in order.
pub open spec fn range_texts(text: Seq<char>, ranges: Seq<(usize, usize)>) -> Seq<Seq<char>> {
    Seq::new(ranges.len(), |k: int| text.subrange(ranges[k].0 as int, ranges[k].1 as int))
}

/// Each range lies within `text`, and the texts they cut out are strictly
/// sorted.
pub open spec fn sorted_ranges(text: Seq<char>, ranges: Seq<(usize, usize)>) -> bool {
    &&& forall|k: int| 0 <= k < ranges.len() ==> (#[trigger] ranges[k]).0 <= ranges[k].1 <= text.len()
    &&& strictly_sorted(range_texts(text, ranges))
}

/// A run of backticks ends before the first character that is none.
pub proof fn lemma_backtick_run_bound(line: Seq<char>, i: int, stop: int)
    requires
        0 <= i <= stop <= line.len(),
        stop == line.len() || line[stop] != '`',
    ensures
        0 <= backtick_run(line, i) <= stop - i,
    decreases stop - i,
{
    if i < stop && line[i] == '`' {
        lemma_backtick_run_bound(line, i + 1, stop);
    }
}

/// Where `n` backticks stand in a row, the run is at least `n` long.
pub proof fn lemma_backtick_run_at_least(line: Seq<char>, i: int, n: int)
    requires
        0 <= i,
        0 <= n,
        i + n <= line.len(),
        forall|j: int| i <= j < i + n ==> line[j] == '`',
    ensures
        backtick_run(line, i) >= n,
    decreases n,
{
    if n > 0 {
        lemma_backtick_run_at_least(line, i + 1, n - 1);
    } else {
        lemma_backtick_run_bound(line, i, line.len() as int);
    }
}

/// The search for a run of backticks ends within the line, and past where
/// it began unless it began at the end.
pub proof fn lemma_after_run_bounds(line: Seq<char>, from: int, k: int)
    requires
        0 <= from <= line.len(),
        k >= 1,
    ensures
        from <= after_run(line, from, k) <= line.len(),
        from < line.len() ==> from < after_run(line, from, k),
    decreases line.len() - from,
{
    if from < line.len() {
        lemma_backtick_run_bound(line, from, line.len() as int);
        if backtick_run(line, from) < k {
            lemma_after_run_bounds(line, from + 1, k);
        }
    }
}

/// Where no run of `k` backticks begins before `start`, and one begins at
/// `start` or the line ends there, the search from `from` ends accordingly.
pub proof fn lemma_after_run_is(line: Seq<char>, from: int, k: int, start: int)
    requires
        0 <= from <= start <= line.len(),
        k >= 1,
        forall|j: int| from <= j < start ==> backtick_run(line, j) < k,
        start < line.len() ==> backtick_run(line, start) >= k,
    ensures
        after_run(line, from, k) == if start < line.len() {
            start + k
        } else {
            line.len() as int
        },
    decreases start - from,
{
    if from < start {
        lemma_after_run_is(line, from + 1, k, start);
    }
}

/// The lines from `from` on are the line up to the next line feed and the
/// lines after it.
pub proof fn lemma_lines_from_step(s: Seq<char>, from: int, end: int)
    requires
        0 <= from <= end <= s.len(),
        forall|j: int| from <= j < end ==> s[j] != '\n',
        end < s.len() ==> s[end] == '\n',
    ensures
        lines_from(s, from) == if end < s.len() {
            seq![s.subrange(from, end)] + lines_from(s, end + 1)
        } else {
            seq![s.subrange(from, end)]
        },
{
    lemma_find_char_is(s, from, '\n', end);
}

/// Two sequences in a row hold what the one or the other holds.
pub proof fn lemma_contains_concat(a: Seq<Seq<char>>, b: Seq<Seq<char>>, p: Seq<char>)
    ensures
        (a + b).contains(p) <==> a.contains(p) || b.contains(p),
{
    if a.contains(p) {
        let i = choose|i: int| 0 <= i < a.len() && a[i] == p;
        assert((a + b)[i] == p);
    }
    if b.contains(p) {
        let i = choose|i: int| 0 <= i < b.len() && b[i] == p;
        assert((a + b)[a.len() + i] == p);
    }
    if (a + b).contains(p) {
        let i = choose|i: int| 0 <= i < (a + b).len() && (a + b)[i] == p;
        if i < a.len() {
            assert(a[i] == p);
        } else {
            assert(b[i - a.len()] == p);
        }
    }
}

/// A sequence with one more element holds what it held, and that element.
pub proof fn lemma_contains_insert(s: Seq<Seq<char>>, at: int, x: Seq<char>, p: Seq<char>)
    requires
        0 <= at <= s.len(),
    ensures
        s.insert(at, x).contains(p) <==> s.contains(p) || p == x,
{
    let t = s.insert(at, x);
    assert(t[at] == x);
    if s.contains(p) {
        let i = choose|i: int| 0 <= i < s.len() && s[i] == p;
        if i < at {
            assert(t[i] == p);
        } else {
            assert(t[i + 1] == p);
        }
    }
    if t.contains(p) {
        let i = choose|i: int| 0 <= i < t.len() && t[i] == p;
        if i < at {
            assert(s[i] == p);
        } else if i > at {
            assert(s[i - 1] == p);
        }
    }
}

/// Whether the text in `from..to` counts as a path.
pub(crate) fn is_path_like(text: &Vec<char>, from: usize, to: usize) -> (r: bool)
    requires
        from <= to <= text.len(),
    ensures
        r == path_like(text@.subrange(from as int, to as int)),
{
    let at = find_from(text, from, to, '/');
    proof {
        let content = text@.subrange(from as int, to as int);
        if at < to {
            assert(content[at - from] == '/');
        } else {
            if starts_with(content, seq!['.', '/']) {
                assert(content.subrange(0, 2)[1] == '/');
                assert(content[1] == '/');
            }
        }
    }
    at < to
}

/// The index at which the text in `from..to` begins once a leading `./` is
/// left out.
pub(crate) fn normalized_start(text: &Vec<char>, from: usize, to: usize) -> (start: usize)
    requires
        from <= to <= text.len(),
    ensures
        from <= start <= to,
        text@.subrange(start as int, to as int) == normalized(text@.subrange(from as int, to as int)),
{
    let ghost content = text@.subrange(from as int, to as int);
    if to - from >= 2 && text[from] == '.' && text[from + 1] == '/' {
        assert(content.subrange(0, 2) =~= seq!['.', '/']);
        assert(content.skip(2) =~= text@.subrange(from + 2, to as int));
        from + 2
    } else {
        proof {
            if starts_with(content, seq!['.', '/']) {
                assert(content.subrange(0, 2)[0] == '.');
                assert(content.subrange(0, 2)[1] == '/');
            }
        }
        from
    }
}

/// Whether the line in `from..to` opens or closes a fenced region.
pub(crate) fn is_fence(text: &Vec<char>, from: usize, to: usize) -> (r: bool)
    requires
        from <= to <= text.len(),
    ensures
        r == is_fence_line(text@.subrange(from as int, to as int)),
{
    let ghost line = text@.subrange(from as int, to as int);
    let mut at: usize = from;
    while at < to && is_space(text[at])
        invariant
            from <= at <= to <= text.len(),
            line == text@.subrange(from as int, to as int),
            forall|j: int| 0 <= j < at - from ==> is_whitespace(line[j]),
        decreases to - at,
    {
        at += 1;
    }
    proof {
        lemma_skip_whitespace_is(line, 0, at - from);
        let rest = trim_start(line);
        assert(rest =~= text@.subrange(at as int, to as int));
        if rest.len() >= 3 {
            assert(rest.subrange(0, 3) =~= seq![rest[0], rest[1], rest[2]]);
            if starts_with(rest, seq!['`', '`', '`']) {
                assert(rest.subrange(0, 3)[0] == '`');
                assert(rest.subrange(0, 3)[1] == '`');
                assert(rest.subrange(0, 3)[2] == '`');
            }
        }
    }
    to - at >= 3 && text[at] == '`' && text[at + 1] == '`' && text[at + 2] == '`'
}

/// Puts the range `a..b` into `found`, at its place in the order, unless a
/// range with the same text is there already.
pub(crate) fn insert_sorted(text: &Vec<char>, found: &mut Vec<(usize, usize)>, a: usize, b: usize)
    requires
        a <= b <= text.len(),
        sorted_ranges(text@, old(found)@),
    ensures
        sorted_ranges(text@, final(found)@),
        holds_both(
            range_texts(text@, final(found)@),
            range_texts(text@, old(found)@),
            seq![text@.subrange(a as int, b as int)],
        ),
{
    let ghost new_text = text@.subrange(a as int, b as int);
    assert(seq![new_text][0] == new_text);
    let ghost before = range_texts(text@, found@);
    let mut k: usize = 0;
    while k < found.len() && !range_precedes(text, a, b, found[k].0, found[k].1)
        invariant
            k <= found.len(),
            a <= b <= text.len(),
            found@ == old(found)@,
            sorted_ranges(text@, found@),
            new_text == text@.subrange(a as int, b as int),
            before == range_texts(text@, found@),
            forall|i: int| 0 <= i < k ==> precedes(#[trigger] before[i], new_text),
        decreases found.len() - k,
    {
        let (c, d) = found[k];
        assert(before[k as int] == text@.subrange(c as int, d as int));
        if ranges_equal(text, a, b, c, d) {
            proof {
                assert(before.contains(new_text));
                assert forall|p: Seq<char>| seq![new_text].contains(p) implies before.contains(p) by {
                    let w = choose|w: int| 0 <= w < seq![new_text].len() && seq![new_text][w] == p;
                }
            }
            return;
        }
        proof {
            lemma_precedes_total(new_text, before[k as int]);
        }
        k += 1;
    }
    proof {
        if k < found.len() {
            assert(before[k as int] == text@.subrange(found[k as int].0 as int, found[k as int].1 as int));
        }
    }
    found.insert(k, (a, b));
    proof {
        let after = range_texts(text@, found@);
        assert(after =~= before.insert(k as int, new_text));
        assert forall|i: int, j: int| 0 <= i < j < after.len() implies precedes(
            #[trigger] after[i],
            #[trigger] after[j],
        ) by {
            if j < k {
                assert(precedes(before[i], before[j]));
            } else if j == k {
                assert(precedes(before[i], new_text));
            } else if i < k {
                assert(precedes(before[i], before[j - 1]));
            } else if i == k {
                assert(precedes(new_text, before[k as int]));
                if j - 1 > k {
                    assert(precedes(before[k as int], before[j - 1]));
                    lemma_precedes_transitive(new_text, before[k as int], before[j - 1]);
                }
            } else {
                assert(precedes(before[i - 1], before[j - 1]));
            }
        }
        assert forall|p: Seq<char>| after.contains(p) <==> before.contains(p) || seq![new_text].contains(
            p,
        ) by {
            lemma_contains_insert(before, k as int, new_text, p);
            if seq![new_text].contains(p) {
                let w = choose|w: int| 0 <= w < seq![new_text].len() && seq![new_text][w] == p;
            }
        }
    }
}

/// Adds to `found` the paths that the line in `lo..hi` mentions.
pub(crate) fn extract_backtick_paths(text: &Vec<char>, lo: usize, hi: usize, found: &mut Vec<(usize, usize)>)
    requires
        lo <= hi <= text.len(),
        sorted_ranges(text@, old(found)@),
    ensures
        sorted_ranges(text@, final(found)@),
        holds_both(
            range_texts(text@, final(found)@),
            range_texts(text@, old(found)@),
            line_mentions(text@.subrange(lo as int, hi as int)),
        ),
{
    let ghost line = text@.subrange(lo as int, hi as int);
    let ghost before = range_texts(text@, found@);
    let ghost mut seen: Seq<Seq<char>> = Seq::empty();
    let mut pos: usize = lo;
    assert(seen + mentions_from(line, 0) =~= mentions_from(line, 0));
    assert(holds_both(before, before, seen));
    while pos < hi
        invariant
            lo <= pos <= hi <= text.len(),
            line == text@.subrange(lo as int, hi as int),
            before == range_texts(text@, old(found)@),
            sorted_ranges(text@, found@),
            line_mentions(line) == seen + mentions_from(line, pos - lo),
            holds_both(range_texts(text@, found@), before, seen),
        decreases hi - pos,
    {
        let ghost i = pos - lo;
        assert(line[i] == text@[pos as int]);
        if text[pos] != '`' {
            pos += 1;
        } else {
            let mut run_end: usize = pos + 1;
            while run_end < hi && text[run_end] == '`'
                invariant
                    pos < run_end <= hi <= text.len(),
                    forall|j: int| pos <= j < run_end ==> text@[j] == '`',
                decreases hi - run_end,
            {
                run_end += 1;
            }
            let run: usize = run_end - pos;
            proof {
                assert forall|j: int| i <= j < i + run implies line[j] == '`' by {
                    assert(line[j] == text@[lo + j]);
                }
                lemma_backtick_run_at_least(line, i, run as int);
                if run_end < hi {
                    assert(line[run_end - lo] == text@[run_end as int]);
                }
                lemma_backtick_run_bound(line, i, run_end - lo);
                assert(backtick_run(line, i) == run);
            }
            if run >= 2 {
                let mut q: usize = run_end;
                let mut count: usize = 0;
                while q < hi && count < run
                    invariant
                        lo <= pos < run_end <= q <= hi <= text.len(),
                        line == text@.subrange(lo as int, hi as int),
                        run >= 2,
                        count <= run,
                        count <= q - run_end,
                        forall|j: int| q - count <= j < q ==> text@[j] == '`',
                        forall|j: int| run_end - lo <= j < q - count - lo ==> backtick_run(line, j) < run,
                    decreases hi - q,
                {
                    if text[q] == '`' {
                        count += 1;
                    } else {
                        proof {
                            assert(line[q - lo] == text@[q as int]);
                            assert forall|j: int| run_end - lo <= j < q + 1 - lo implies backtick_run(
                                line,
                                j,
                            ) < run by {
                                if j >= q - count - lo {
                                    lemma_backtick_run_bound(line, j, q - lo);
                                }
                            }
                        }
                        count = 0;
                    }
                    q += 1;
                }
                proof {
                    let from = run_end - lo;
                    if count == run {
                        let start = q - count - lo;
                        assert forall|j: int| start <= j < start + run implies line[j] == '`' by {
                            assert(line[j] == text@[lo + j]);
                        }
                        lemma_backtick_run_at_least(line, start, run as int);
                        lemma_after_run_is(line, from, run as int, start);
                        assert(after_run(line, from, run as int) == q - lo);
                    } else {
                        assert(q == hi);
                        assert forall|j: int| from <= j < line.len() implies backtick_run(line, j)
                            < run by {
                            if j >= q - count - lo {
                                lemma_backtick_run_bound(line, j, line.len() as int);
                            }
                        }
                        lemma_after_run_is(line, from, run as int, line.len() as int);
                        assert(after_run(line, from, run as int) == q - lo);
                    }
                    assert(from == i + run);
                }
                pos = q;
            } else {
                let close = find_from(text, pos + 1, hi, '`');
                proof {
                    assert forall|j: int| i + 1 <= j < close - lo implies line[j] != '`' by {
                        assert(line[j] == text@[lo + j]);
                    }
                    if close < hi {
                        assert(line[close - lo] == text@[close as int]);
                    }
                    lemma_find_char_is(line, i + 1, '`', close - lo);
                }
                if close < hi {
                    let ghost content = line.subrange(i + 1, close - lo);
                    assert(content =~= text@.subrange(pos + 1, close as int));
                    if is_path_like(text, pos + 1, close) {
                        let start = normalized_start(text, pos + 1, close);
                        let ghost earlier = range_texts(text@, found@);
                        insert_sorted(text, found, start, close);
                        proof {
                            let path = normalized(content);
                            let rest = mentions_from(line, close + 1 - lo);
                            assert(mentions_from(line, i) == seq![path] + rest);
                            assert(seen + (seq![path] + rest) =~= seen.push(path) + rest);
                            assert(seen.push(path) =~= seen + seq![path]);
                            assert(text@.subrange(start as int, close as int) == path);
                            assert forall|p: Seq<char>|
                                range_texts(text@, found@).contains(p) <==> before.contains(p)
                                    || seen.push(path).contains(p) by {
                                lemma_contains_concat(seen, seq![path], p);
                                assert(earlier.contains(p) <==> before.contains(p) || seen.contains(p));
                            }
                            seen = seen.push(path);
                        }
                    }
                    pos = close + 1;
                } else {
                    proof {
                        assert(mentions_from(line, i) =~= Seq::<Seq<char>>::empty());
                        assert(mentions_from(line, hi - lo) =~= Seq::<Seq<char>>::empty());
                    }
                    pos = hi;
                }
            }
        }
    }
    proof {
        assert(mentions_from(line, hi - lo) =~= Seq::<Seq<char>>::empty());
        assert(seen + Seq::<Seq<char>>::empty() =~= seen);
    }
}

/// The paths that `content` mentions: each once, without a leading `./`, in
/// lexicographic order. Mentions inside fenced regions are left out.
pub fn extract_paths(content: &str) -> (paths: Vec<String>)
    ensures
        is_scan_of(views(paths@), content@),
        views(paths@) == scan_of(content@),
{
    let text = to_chars(content);
    let n = text.len();
    let mut found: Vec<(usize, usize)> = Vec::new();
    let mut inside = false;
    let mut pos: usize = 0;
    let mut done = false;
    let ghost mut seen: Seq<Seq<char>> = Seq::empty();
    proof {
        assert(range_texts(text@, found@) =~= Seq::<Seq<char>>::empty());
        assert(seen + mentions(text@) =~= mentions(text@));
    }
    while !done
        invariant
            n == text.len(),
            pos <= n,
            text@ == content@,
            sorted_ranges(text@, found@),
            !done ==> mentions(text@) == seen + scan_lines(lines_from(text@, pos as int), inside),
            done ==> mentions(text@) == seen,
            same_members(range_texts(text@, found@), seen),
        decreases n - pos + (if done { 0int } else { 1int }),
    {
        let end = find_from(&text, pos, n, '\n');
        let ghost line = text@.subrange(pos as int, end as int);
        let ghost rest = if end < n {
            lines_from(text@, end + 1)
        } else {
            Seq::<Seq<char>>::empty()
        };
        proof {
            lemma_lines_from_step(text@, pos as int, end as int);
            let lines = lines_from(text@, pos as int);
            assert(lines =~= seq![line] + rest);
            assert(lines[0] == line);
            assert(lines.drop_first() =~= rest);
        }
        if is_fence(&text, pos, end) {
            inside = !inside;
        } else if !inside {
            let ghost earlier = range_texts(text@, found@);
            extract_backtick_paths(&text, pos, end, &mut found);
            proof {
                let here = line_mentions(line);
                assert(seen + (here + scan_lines(rest, false)) =~= (seen + here) + scan_lines(rest, false));
                assert forall|p: Seq<char>|
                    range_texts(text@, found@).contains(p) <==> (seen + here).contains(p) by {
                    lemma_contains_concat(seen, here, p);
                    assert(earlier.contains(p) <==> seen.contains(p));
                }
                seen = seen + here;
            }
        }
        if end >= n {
            proof {
                assert(scan_lines(rest, inside) =~= Seq::<Seq<char>>::empty());
                assert(seen + Seq::<Seq<char>>::empty() =~= seen);
            }
            done = true;
        } else {
            pos = end + 1;
        }
    }
    let mut paths: Vec<String> = Vec::new();
    let mut k: usize = 0;
    while k < found.len()
        invariant
            k <= found.len(),
            text@ == content@,
            sorted_ranges(text@, found@),
            views(paths@) == range_texts(text@, found@).take(k as int),
        decreases found.len() - k,
    {
        let (a, b) = found[k];
        let piece = content.substring_char(a, b);
        let owned = piece.to_owned();
        let ghost earlier = paths@;
        paths.push(owned);
        proof {
            lemma_views_push(earlier, owned);
            let texts = range_texts(text@, found@);
            assert(texts.take(k as int).push(texts[k as int]) =~= texts.take(k + 1));
        }
        k += 1;
    }
    proof {
        assert(range_texts(text@, found@).take(k as int) =~= range_texts(text@, found@));
        lemma_scan_unique(views(paths@), content@);
    }
    paths
}

/// The path without one leading `./`.
pub fn normalize_path(path: &str) -> (normal: String)
    ensures
        normal@ == normalized(path@),
{
    let text = to_chars(path);
    let start = normalized_start(&text, 0, text.len());
    assert(text@.subrange(0, text.len() as int) =~= text@);
    path.substring_char(start, text.len()).to_owned()
}

/// What is to be made of the mention `path` in a project at `root`, given
/// what `tree` holds. The rules apply in this order: a path that starts with
/// `/` is absolute; one that holds `..` leaves the project; the others are
/// normalized and looked up below `root`, where nothing or a directory may
/// lie. The first two rules do not look at the tree.
pub open spec fn validated(path: Seq<char>, root: Seq<char>, tree: Seq<(Seq<char>, Entry)>) -> Result<
    Seq<char>,
    PathError,
> {
    if starts_with(path, seq!['/']) {
        Err(PathError::Absolute)
    } else if contains_text(path, seq!['.', '.']) {
        Err(PathError::ParentTraversal)
    } else {
        match entry_at(tree, joined(root, normalized(path))) {
            None => Err(PathError::NotFound),
            Some(Entry::Directory) => Err(PathError::IsDirectory),
            Some(_) => Ok(normalized(path)),
        }
    }
}

/// A path that is absolute or holds `..` is refused whatever the tree holds.
pub proof fn lemma_unsafe_path_ignores_tree(
    path: Seq<char>,
    root: Seq<char>,
    first: Seq<(Seq<char>, Entry)>,
    second: Seq<(Seq<char>, Entry)>,
)
    requires
        starts_with(path, seq!['/']) || contains_text(path, seq!['.', '.']),
    ensures
        validated(path, root, first) == validated(path, root, second),
        validated(path, root, first) is Err,
        starts_with(path, seq!['/']) ==> validated(path, root, first) == Err::<Seq<char>, PathError>(
            PathError::Absolute,
        ),
        !starts_with(path, seq!['/']) ==> validated(path, root, first) == Err::<Seq<char>, PathError>(
            PathError::ParentTraversal,
        ),
{
}

/// What is accepted is the normalized mention: it holds no `..`, something
/// other than a directory lies there, and it does not start with `/` unless
/// the mention was `./` before an absolute path.
pub proof fn lemma_accepted_path(
    path: Seq<char>,
    root: Seq<char>,
    tree: Seq<(Seq<char>, Entry)>,
    key: Seq<char>,
)
    requires
        validated(path, root, tree) == Ok::<Seq<char>, PathError>(key),
    ensures
        key == normalized(path),
        !contains_text(key, seq!['.', '.']),
        entry_at(tree, joined(root, key)) is Some,
        !(entry_at(tree, joined(root, key)) matches Some(Entry::Directory)),
        !starts_with(path, seq!['.', '/']) ==> !starts_with(key, seq!['/']),
{
    let dots = seq!['.', '.'];
    if contains_text(key, dots) {
        let at = choose|at: int| occurs_at(key, at, dots);
        if starts_with(path, seq!['.', '/']) {
            assert(path.subrange(at + 2, at + 2 + 2) =~= key.subrange(at, at + 2));
            assert(occurs_at(path, at + 2, dots));
        }
    }
}

/// A mention with `./` before it is the mention without: both are found as
/// one path, where the path does not itself start with `./`.
pub proof fn lemma_dotted_mention(path: Seq<char>)
    ensures
        normalized(seq!['.', '/'] + path) == path,
        !starts_with(path, seq!['.', '/']) ==> normalized(path) == path,
        path_like(seq!['.', '/'] + path),
{
    let dotted = seq!['.', '/'] + path;
    assert(dotted.subrange(0, 2) =~= seq!['.', '/']);
    assert(dotted.skip(2) =~= path);
}

/// Whether `text` holds two dots in a row.
pub(crate) fn has_parent_segment(text: &Vec<char>) -> (r: bool)
    ensures
        r == contains_text(text@, seq!['.', '.']),
{
    let ghost dots = seq!['.', '.'];
    let mut i: usize = 0;
    while text.len() >= 2 && i <= text.len() - 2
        invariant
            i <= text.len(),
            dots == seq!['.', '.'],
            forall|j: int| 0 <= j < i ==> !occurs_at(text@, j, dots),
        decreases text.len() - i,
    {
        if text[i] == '.' && text[i + 1] == '.' {
            assert(text@.subrange(i as int, i + 2) =~= dots);
            assert(occurs_at(text@, i as int, dots));
            return true;
        }
        proof {
            if occurs_at(text@, i as int, dots) {
                assert(text@.subrange(i as int, i + 2)[0] == '.');
                assert(text@.subrange(i as int, i + 2)[1] == '.');
            }
        }
        i += 1;
    }
    false
}

/// Judges the mention `path` in the project at `project_root`, given what
/// `tree` holds: the normalized path, or why it is refused.
pub fn validate_path(path: &str, project_root: &str, tree: &FileTree) -> (r: Result<String, PathError>)
    ensures
        match r {
            Ok(normal) => validated(path@, project_root@, tree@) == Ok::<Seq<char>, PathError>(normal@),
            Err(reason) => validated(path@, project_root@, tree@) == Err::<Seq<char>, PathError>(reason),
        },
{
    let text = to_chars(path);
    if text.len() > 0 && text[0] == '/' {
        assert(text@.subrange(0, 1) =~= seq!['/']);
        return Err(PathError::Absolute);
    }
    proof {
        if starts_with(text@, seq!['/']) {
            assert(text@.subrange(0, 1)[0] == '/');
        }
    }
    if has_parent_segment(&text) {
        return Err(PathError::ParentTraversal);
    }
    let normal = normalize_path(path);
    let full = join(project_root, normal.as_str());
    match tree.lookup(full.as_str()) {
        None => Err(PathError::NotFound),
        Some(Entry::Directory) => Err(PathError::IsDirectory),
        Some(_) => Ok(normal),
    }
}

} // verus!
