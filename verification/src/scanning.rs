//! What holds of every scan: a fenced region hides what it holds, and the
//! paths of a scan, written down again, are found again.

use vstd::prelude::*;
use crate::paths::{
    after_run, backtick_run, is_fence_line, is_scan_of, lemma_after_run_bounds, lemma_backtick_run_bound,
    lemma_contains_concat, line_mentions, lines_from, lines_of, mentions, mentions_from, normalized,
    path_like, scan_lines,
};
use crate::text::{
    find_char, is_whitespace, lemma_find_char_bounds, lemma_find_char_is, lemma_precedes_irreflexive,
    lemma_skip_whitespace_is, precedes, starts_with, trim_start,
};

verus! {

/// The text whose lines are `lines`: each line but the last is followed by
/// a line feed.
pub open spec fn join_lines(lines: Seq<Seq<char>>) -> Seq<char>
    decreases lines.len(),
{
    if lines.len() == 0 {
        Seq::empty()
    } else if lines.len() == 1 {
        lines[0]
    } else {
        lines[0] + seq!['\n'] + join_lines(lines.drop_first())
    }
}

/// No line holds a line feed.
pub open spec fn single_lines(lines: Seq<Seq<char>>) -> bool {
    forall|i: int| 0 <= i < lines.len() ==> !(#[trigger] lines[i]).contains('\n')
}

/// Whether a fenced region is open after `lines`, where `inside` tells
/// whether one is open before them.
pub open spec fn open_after(lines: Seq<Seq<char>>, inside: bool) -> bool
    decreases lines.len(),
{
    if lines.len() == 0 {
        inside
    } else if is_fence_line(lines[0]) {
        open_after(lines.drop_first(), !inside)
    } else {
        open_after(lines.drop_first(), inside)
    }
}

/// No line opens or closes a fenced region.
pub open spec fn fence_free(lines: Seq<Seq<char>>) -> bool {
    forall|i: int| 0 <= i < lines.len() ==> !is_fence_line(#[trigger] lines[i])
}

/// The path between two backticks.
pub open spec fn quoted(path: Seq<char>) -> Seq<char> {
    seq!['`'] + path + seq!['`']
}

/// One line for each path: the path between two backticks.
pub open spec fn quoted_lines(paths: Seq<Seq<char>>) -> Seq<Seq<char>> {
    Seq::new(paths.len(), |i: int| quoted(paths[i]))
}

/// The text that mentions each of `paths` on a line of its own.
pub open spec fn rendered(paths: Seq<Seq<char>>) -> Seq<char> {
    join_lines(quoted_lines(paths))
}

/// The path holds neither a backtick nor a line feed.
pub open spec fn clean(path: Seq<char>) -> bool {
    !path.contains('`') && !path.contains('\n')
}

/// A scan finds the path again as it is: it counts as a path and has no
/// leading `./` left to strip.
pub open spec fn stable(path: Seq<char>) -> bool {
    path_like(path) && normalized(path) == path
}

/// A search in a text behind a prefix finds what the search in the text
/// finds, further on by the length of the prefix.
proof fn lemma_find_char_shift(prefix: Seq<char>, s: Seq<char>, i: int, c: char)
    requires
        0 <= i <= s.len(),
    ensures
        find_char(prefix + s, prefix.len() + i, c) == prefix.len() + find_char(s, i, c),
    decreases s.len() - i,
{
    let whole = prefix + s;
    if i < s.len() {
        assert(whole[prefix.len() + i] == s[i]);
        if s[i] != c {
            lemma_find_char_shift(prefix, s, i + 1, c);
        }
    }
}

/// The lines of a text behind a prefix, from the end of the prefix on, are
/// the lines of the text.
proof fn lemma_lines_from_shift(prefix: Seq<char>, s: Seq<char>, i: int)
    requires
        0 <= i <= s.len(),
    ensures
        lines_from(prefix + s, prefix.len() + i) == lines_from(s, i),
    decreases s.len() - i,
{
    let whole = prefix + s;
    let end = find_char(s, i, '\n');
    lemma_find_char_shift(prefix, s, i, '\n');
    lemma_find_char_bounds(s, i, '\n');
    if end >= s.len() {
        assert(whole.subrange(prefix.len() + i, whole.len() as int) =~= s.subrange(i, s.len() as int));
    } else {
        assert(whole.subrange(prefix.len() + i, prefix.len() + end) =~= s.subrange(i, end));
        lemma_lines_from_shift(prefix, s, end + 1);
    }
}

/// The lines of the text that was joined from lines are those lines.
pub proof fn lemma_lines_of_join(lines: Seq<Seq<char>>)
    requires
        lines.len() > 0,
        single_lines(lines),
    ensures
        lines_of(join_lines(lines)) == lines,
    decreases lines.len(),
{
    let text = join_lines(lines);
    let first = lines[0];
    assert forall|j: int| 0 <= j < first.len() implies first[j] != '\n' by {
        if first[j] == '\n' {
            assert(first.contains('\n'));
        }
    }
    if lines.len() == 1 {
        lemma_find_char_is(text, 0, '\n', text.len() as int);
        assert(text.subrange(0, text.len() as int) =~= first);
        assert(lines_of(text) =~= lines);
    } else {
        let rest = lines.drop_first();
        let tail = join_lines(rest);
        let prefix = first + seq!['\n'];
        assert(text =~= prefix + tail);
        assert forall|j: int| 0 <= j < first.len() implies text[j] != '\n' by {
            assert(text[j] == first[j]);
        }
        assert(text[first.len() as int] == '\n');
        lemma_find_char_is(text, 0, '\n', first.len() as int);
        assert(text.subrange(0, first.len() as int) =~= first);
        lemma_lines_from_shift(prefix, tail, 0);
        assert(single_lines(rest)) by {
            assert forall|i: int| 0 <= i < rest.len() implies !(#[trigger] rest[i]).contains('\n') by {
                assert(rest[i] == lines[i + 1]);
            }
        }
        lemma_lines_of_join(rest);
        assert(lines_of(text) =~= seq![first] + rest);
        assert(seq![first] + rest =~= lines);
    }
}

/// The mentions of two runs of lines are those of the first followed by
/// those of the second.
pub proof fn lemma_scan_lines_concat(first: Seq<Seq<char>>, second: Seq<Seq<char>>, inside: bool)
    ensures
        scan_lines(first + second, inside) == scan_lines(first, inside) + scan_lines(
            second,
            open_after(first, inside),
        ),
    decreases first.len(),
{
    if first.len() == 0 {
        assert(first + second =~= second);
        assert(scan_lines(first, inside) + scan_lines(second, inside) =~= scan_lines(second, inside));
    } else {
        let whole = first + second;
        assert(whole[0] == first[0]);
        assert(whole.drop_first() =~= first.drop_first() + second);
        let next = if is_fence_line(first[0]) {
            !inside
        } else {
            inside
        };
        lemma_scan_lines_concat(first.drop_first(), second, next);
        if !is_fence_line(first[0]) && !inside {
            let here = line_mentions(first[0]);
            let a = scan_lines(first.drop_first(), false);
            let b = scan_lines(second, open_after(first.drop_first(), false));
            assert(here + (a + b) =~= (here + a) + b);
        }
    }
}

/// Lines inside a fenced region yield nothing and leave the region open.
pub proof fn lemma_hidden_lines(hidden: Seq<Seq<char>>)
    requires
        fence_free(hidden),
    ensures
        scan_lines(hidden, true) == Seq::<Seq<char>>::empty(),
        open_after(hidden, true),
    decreases hidden.len(),
{
    if hidden.len() > 0 {
        let rest = hidden.drop_first();
        assert(fence_free(rest)) by {
            assert forall|i: int| 0 <= i < rest.len() implies !is_fence_line(#[trigger] rest[i]) by {
                assert(rest[i] == hidden[i + 1]);
            }
        }
        assert(!is_fence_line(hidden[0]));
        lemma_hidden_lines(rest);
    }
}

/// The mentions of the text joined from `lines` are those of the lines.
pub proof fn lemma_mentions_of_join(lines: Seq<Seq<char>>)
    requires
        single_lines(lines),
    ensures
        mentions(join_lines(lines)) == scan_lines(lines, false),
{
    if lines.len() > 0 {
        lemma_lines_of_join(lines);
    } else {
        let text = join_lines(lines);
        assert(text.len() == 0);
        let only = lines_of(text);
        assert(only =~= seq![text.subrange(0, 0)]);
        let line = only[0];
        assert(line.len() == 0);
        assert(trim_start(line).len() == 0);
        assert(!is_fence_line(line));
        assert(only.drop_first() =~= Seq::<Seq<char>>::empty());
        assert(only[0] == line);
        assert(line_mentions(line) =~= Seq::<Seq<char>>::empty());
        assert(scan_lines(only.drop_first(), false) =~= Seq::<Seq<char>>::empty());
        assert(scan_lines(only, false) =~= line_mentions(line) + scan_lines(only.drop_first(), false));
        assert(scan_lines(only, false) =~= Seq::<Seq<char>>::empty());
        assert(scan_lines(lines, false) =~= Seq::<Seq<char>>::empty());
    }
}

/// What stands inside a fenced region is never found, whatever it holds.
/// Where no region is open after the lines `before`, a region that
/// `opening` opens and `closing` closes can be taken away with the lines
/// `hidden` inside it, and the text mentions what it mentioned.
pub proof fn lemma_fenced_region_is_skipped(
    before: Seq<Seq<char>>,
    opening: Seq<char>,
    hidden: Seq<Seq<char>>,
    closing: Seq<char>,
    after: Seq<Seq<char>>,
)
    requires
        single_lines(before),
        single_lines(hidden),
        single_lines(after),
        !opening.contains('\n'),
        !closing.contains('\n'),
        !open_after(before, false),
        is_fence_line(opening),
        is_fence_line(closing),
        fence_free(hidden),
    ensures
        mentions(join_lines(before + seq![opening] + hidden + seq![closing] + after)) == mentions(
            join_lines(before + after),
        ),
{
    let end = seq![closing] + after;
    let region = seq![opening] + (hidden + end);
    let whole = before + region;
    assert(whole =~= before + seq![opening] + hidden + seq![closing] + after);
    assert(single_lines(whole)) by {
        assert forall|i: int| 0 <= i < whole.len() implies !(#[trigger] whole[i]).contains('\n') by {
            if i < before.len() {
                assert(whole[i] == before[i]);
            } else if i == before.len() {
                assert(whole[i] == opening);
            } else if i < before.len() + 1 + hidden.len() {
                assert(whole[i] == hidden[i - before.len() - 1]);
            } else if i == before.len() + 1 + hidden.len() {
                assert(whole[i] == closing);
            } else {
                assert(whole[i] == after[i - before.len() - hidden.len() - 2]);
            }
        }
    }
    let short = before + after;
    assert(single_lines(short)) by {
        assert forall|i: int| 0 <= i < short.len() implies !(#[trigger] short[i]).contains('\n') by {
            if i < before.len() {
                assert(short[i] == before[i]);
            } else {
                assert(short[i] == after[i - before.len()]);
            }
        }
    }
    lemma_mentions_of_join(whole);
    lemma_mentions_of_join(short);
    lemma_scan_lines_concat(before, region, false);
    lemma_scan_lines_concat(before, after, false);
    assert(region[0] == opening);
    assert(region.drop_first() =~= hidden + end);
    lemma_scan_lines_concat(hidden, end, true);
    lemma_hidden_lines(hidden);
    assert(end[0] == closing);
    assert(end.drop_first() =~= after);
    assert(Seq::<Seq<char>>::empty() + scan_lines(end, true) =~= scan_lines(end, true));
}

/// A line that quotes a clean and stable path is no fence line and
/// mentions that path.
pub proof fn lemma_quoted_line(path: Seq<char>)
    requires
        clean(path),
        stable(path),
    ensures
        !is_fence_line(quoted(path)),
        !quoted(path).contains('\n'),
        line_mentions(quoted(path)) == seq![path],
{
    let line = quoted(path);
    let n = path.len() as int;
    assert(n > 0) by {
        if path.contains('/') {
            let i = choose|i: int| 0 <= i < path.len() && path[i] == '/';
        } else {
            assert(path.subrange(0, 2).len() == 2);
        }
    }
    assert(line.len() == n + 2);
    assert(line[0] == '`');
    assert(line[n + 1] == '`');
    assert forall|j: int| 1 <= j <= n implies line[j] != '`' && line[j] != '\n' by {
        assert(line[j] == path[j - 1]);
        if path[j - 1] == '`' {
            assert(path.contains('`'));
        }
        if path[j - 1] == '\n' {
            assert(path.contains('\n'));
        }
    }
    assert(!line.contains('\n')) by {
        if line.contains('\n') {
            let j = choose|j: int| 0 <= j < line.len() && line[j] == '\n';
        }
    }
    assert(!is_whitespace('`'));
    lemma_skip_whitespace_is(line, 0, 0);
    assert(trim_start(line) =~= line);
    if is_fence_line(line) {
        assert(line.subrange(0, 3)[1] == '`');
    }
    lemma_backtick_run_bound(line, 1, 1);
    assert(backtick_run(line, 0) == 1);
    lemma_find_char_is(line, 1, '`', n + 1);
    assert(line.subrange(1, n + 1) =~= path);
    assert(mentions_from(line, n + 2) =~= Seq::<Seq<char>>::empty());
    assert(mentions_from(line, 0) =~= seq![path]);
}

/// The lines that quote clean and stable paths mention those paths, in
/// order.
pub proof fn lemma_scan_quoted(paths: Seq<Seq<char>>)
    requires
        forall|i: int| 0 <= i < paths.len() ==> clean(#[trigger] paths[i]) && stable(paths[i]),
    ensures
        scan_lines(quoted_lines(paths), false) == paths,
        single_lines(quoted_lines(paths)),
    decreases paths.len(),
{
    let lines = quoted_lines(paths);
    if paths.len() == 0 {
        assert(scan_lines(lines, false) =~= paths);
    } else {
        let rest = paths.drop_first();
        assert(lines.drop_first() =~= quoted_lines(rest));
        assert forall|i: int| 0 <= i < rest.len() implies clean(#[trigger] rest[i]) && stable(rest[i]) by {
            assert(rest[i] == paths[i + 1]);
        }
        lemma_scan_quoted(rest);
        lemma_quoted_line(paths[0]);
        assert(lines[0] == quoted(paths[0]));
        assert(seq![paths[0]] + rest =~= paths);
        assert forall|i: int| 0 <= i < lines.len() implies !(#[trigger] lines[i]).contains('\n') by {
            if i > 0 {
                assert(lines[i] == quoted_lines(rest)[i - 1]);
            }
        }
    }
}

/// What a line mentions holds neither a backtick nor a line feed.
pub proof fn lemma_line_mentions_clean(line: Seq<char>, i: int, path: Seq<char>)
    requires
        !line.contains('\n'),
        0 <= i,
        mentions_from(line, i).contains(path),
    ensures
        clean(path),
    decreases line.len() - i,
{
    if i < line.len() {
        if line[i] != '`' {
            lemma_line_mentions_clean(line, i + 1, path);
        } else {
            let run = backtick_run(line, i);
            lemma_backtick_run_bound(line, i, line.len() as int);
            if run >= 2 {
                lemma_after_run_bounds(line, i + run, run);
                lemma_line_mentions_clean(line, after_run(line, i + run, run), path);
            } else {
                let close = find_char(line, i + 1, '`');
                lemma_find_char_bounds(line, i + 1, '`');
                if close < line.len() {
                    let content = line.subrange(i + 1, close);
                    let rest = mentions_from(line, close + 1);
                    let found = normalized(content);
                    if path_like(content) {
                        lemma_contains_concat(seq![found], rest, path);
                        if seq![found].contains(path) {
                            let w = choose|w: int| 0 <= w < seq![found].len() && seq![found][w] == path;
                            assert(path == found);
                            let shift: int = if starts_with(content, seq!['.', '/']) {
                                2
                            } else {
                                0
                            };
                            assert forall|j: int| 0 <= j < path.len() implies path[j] != '`' && path[j]
                                != '\n' by {
                                assert(path[j] == line[i + 1 + shift + j]);
                                if line[i + 1 + shift + j] == '\n' {
                                    assert(line.contains('\n'));
                                }
                            }
                            if path.contains('`') {
                                let j = choose|j: int| 0 <= j < path.len() && path[j] == '`';
                            }
                            if path.contains('\n') {
                                let j = choose|j: int| 0 <= j < path.len() && path[j] == '\n';
                            }
                        } else {
                            lemma_line_mentions_clean(line, close + 1, path);
                        }
                    } else {
                        lemma_line_mentions_clean(line, close + 1, path);
                    }
                }
            }
        }
    }
}

/// What lines without line feeds mention holds neither a backtick nor a
/// line feed.
pub proof fn lemma_scan_lines_clean(lines: Seq<Seq<char>>, inside: bool, path: Seq<char>)
    requires
        single_lines(lines),
        scan_lines(lines, inside).contains(path),
    ensures
        clean(path),
    decreases lines.len(),
{
    if lines.len() > 0 {
        let rest = lines.drop_first();
        assert(single_lines(rest)) by {
            assert forall|i: int| 0 <= i < rest.len() implies !(#[trigger] rest[i]).contains('\n') by {
                assert(rest[i] == lines[i + 1]);
            }
        }
        if is_fence_line(lines[0]) {
            lemma_scan_lines_clean(rest, !inside, path);
        } else if inside {
            lemma_scan_lines_clean(rest, true, path);
        } else {
            lemma_contains_concat(line_mentions(lines[0]), scan_lines(rest, false), path);
            if line_mentions(lines[0]).contains(path) {
                lemma_line_mentions_clean(lines[0], 0, path);
            } else {
                lemma_scan_lines_clean(rest, false, path);
            }
        }
    }
}

/// The lines of a text hold no line feed.
pub proof fn lemma_lines_are_single(s: Seq<char>, from: int)
    requires
        0 <= from <= s.len(),
    ensures
        single_lines(lines_from(s, from)),
    decreases s.len() - from,
{
    let end = find_char(s, from, '\n');
    lemma_find_char_bounds(s, from, '\n');
    let stop = if end >= s.len() {
        s.len() as int
    } else {
        end
    };
    let line = s.subrange(from, stop);
    assert(!line.contains('\n')) by {
        if line.contains('\n') {
            let j = choose|j: int| 0 <= j < line.len() && line[j] == '\n';
            assert(s[from + j] == '\n');
        }
    }
    let lines = lines_from(s, from);
    if end >= s.len() {
        assert forall|i: int| 0 <= i < lines.len() implies !(#[trigger] lines[i]).contains('\n') by {}
    } else {
        lemma_lines_are_single(s, end + 1);
        let rest = lines_from(s, end + 1);
        assert forall|i: int| 0 <= i < lines.len() implies !(#[trigger] lines[i]).contains('\n') by {
            if i > 0 {
                assert(lines[i] == rest[i - 1]);
            }
        }
    }
}

/// What a text mentions holds neither a backtick nor a line feed.
pub proof fn lemma_mentions_clean(body: Seq<char>, path: Seq<char>)
    requires
        mentions(body).contains(path),
    ensures
        clean(path),
{
    lemma_lines_are_single(body, 0);
    lemma_scan_lines_clean(lines_of(body), false, path);
}

/// A scan is a fixed point. Where `paths` is the scan of some text, and
/// each of its paths is stable, the text that mentions each of them on a
/// line of its own has the same scan.
pub proof fn lemma_rescan_is_fixed_point(body: Seq<char>, paths: Seq<Seq<char>>)
    requires
        is_scan_of(paths, body),
        forall|i: int| 0 <= i < paths.len() ==> stable(#[trigger] paths[i]),
    ensures
        mentions(rendered(paths)) == paths,
        is_scan_of(paths, rendered(paths)),
{
    assert forall|i: int| 0 <= i < paths.len() implies clean(#[trigger] paths[i]) && stable(paths[i]) by {
        assert(paths.contains(paths[i]));
        lemma_mentions_clean(body, paths[i]);
    }
    lemma_scan_quoted(paths);
    lemma_mentions_of_join(quoted_lines(paths));
}

/// A scan holds no path twice.
pub proof fn lemma_scan_has_no_duplicates(body: Seq<char>, paths: Seq<Seq<char>>)
    requires
        is_scan_of(paths, body),
    ensures
        paths.no_duplicates(),
{
    assert forall|i: int, j: int| 0 <= i < paths.len() && 0 <= j < paths.len() && i != j implies paths[i]
        != paths[j] by {
        if paths[i] == paths[j] {
            lemma_precedes_irreflexive(paths[i]);
            if i < j {
                assert(precedes(paths[i], paths[j]));
            } else {
                assert(precedes(paths[j], paths[i]));
            }
        }
    }
}

} // verus!
