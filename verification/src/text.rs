//! Text as a sequence of characters: searching, white space, and the
//! lexicographic order by which found paths are sorted.

use vstd::prelude::*;
use vstd::string::StringExecFns;

verus! {

/// White space as Unicode defines it (`White_Space`).
pub open spec fn is_whitespace(c: char) -> bool {
    let n = c as u32;
    ||| 0x09 <= n <= 0x0D
    ||| n == 0x20
    ||| n == 0x85
    ||| n == 0xA0
    ||| n == 0x1680
    ||| 0x2000 <= n <= 0x200A
    ||| n == 0x2028
    ||| n == 0x2029
    ||| n == 0x202F
    ||| n == 0x205F
    ||| n == 0x3000
}

/// The index of the first `c` in `s` at or after `from`; the length of `s`
/// where there is none.
pub open spec fn find_char(s: Seq<char>, from: int, c: char) -> int
    decreases s.len() - from,
{
    if from < 0 || from >= s.len() {
        s.len() as int
    } else if s[from] == c {
        from
    } else {
        find_char(s, from + 1, c)
    }
}

/// The index of the first character of `s` at or after `from` that is no
/// white space; the length of `s` where there is none.
pub open spec fn skip_whitespace(s: Seq<char>, from: int) -> int
    decreases s.len() - from,
{
    if from < 0 || from >= s.len() {
        s.len() as int
    } else if is_whitespace(s[from]) {
        skip_whitespace(s, from + 1)
    } else {
        from
    }
}

/// `s` without its leading white space.
pub open spec fn trim_start(s: Seq<char>) -> Seq<char> {
    s.subrange(skip_whitespace(s, 0), s.len() as int)
}

/// `pattern` stands in `s` at index `at`.
pub open spec fn occurs_at(s: Seq<char>, at: int, pattern: Seq<char>) -> bool {
    &&& 0 <= at
    &&& at + pattern.len() <= s.len()
    &&& s.subrange(at, at + pattern.len()) == pattern
}

/// `s` begins with `pattern`.
pub open spec fn starts_with(s: Seq<char>, pattern: Seq<char>) -> bool {
    occurs_at(s, 0, pattern)
}

/// `pattern` stands somewhere in `s`.
pub open spec fn contains_text(s: Seq<char>, pattern: Seq<char>) -> bool {
    exists|at: int| occurs_at(s, at, pattern)
}

/// The index of the first place at or after `from` where `pattern` stands
/// in `s`; the length of `s` where there is none.
pub open spec fn find_text(s: Seq<char>, from: int, pattern: Seq<char>) -> int
    decreases s.len() - from,
{
    if from < 0 || from >= s.len() {
        s.len() as int
    } else if occurs_at(s, from, pattern) {
        from
    } else {
        find_text(s, from + 1, pattern)
    }
}

/// The strict lexicographic order on text, character by character: the order
/// in which `String` values compare.
pub open spec fn precedes(a: Seq<char>, b: Seq<char>) -> bool
    decreases a.len(),
{
    if b.len() == 0 {
        false
    } else if a.len() == 0 {
        true
    } else if a[0] != b[0] {
        (a[0] as u32) < (b[0] as u32)
    } else {
        precedes(a.drop_first(), b.drop_first())
    }
}

/// Each element precedes all that follow it.
pub open spec fn strictly_sorted(items: Seq<Seq<char>>) -> bool {
    forall|i: int, j: int| 0 <= i < j < items.len() ==> precedes(#[trigger] items[i], #[trigger] items[j])
}

/// The two sequences hold the same elements, whatever the order and number.
pub open spec fn same_members(a: Seq<Seq<char>>, b: Seq<Seq<char>>) -> bool {
    forall|p: Seq<char>| a.contains(p) <==> b.contains(p)
}

/// The views of the strings of `items`, in order.
pub open spec fn views(items: Seq<String>) -> Seq<Seq<char>> {
    Seq::new(items.len(), |k: int| items[k]@)
}

/// The views of a sequence with one more string are the views with one
/// more view.
pub proof fn lemma_views_push(items: Seq<String>, last: String)
    ensures
        views(items.push(last)) == views(items).push(last@),
{
    assert(views(items.push(last)) =~= views(items).push(last@));
}

/// The search ends within the text: at the character sought, with none
/// before it, or at the end.
pub proof fn lemma_find_char_bounds(s: Seq<char>, from: int, c: char)
    requires
        0 <= from <= s.len(),
    ensures
        from <= find_char(s, from, c) <= s.len(),
        find_char(s, from, c) < s.len() ==> s[find_char(s, from, c)] == c,
        forall|j: int| from <= j < find_char(s, from, c) ==> s[j] != c,
    decreases s.len() - from,
{
    if from < s.len() && s[from] != c {
        lemma_find_char_bounds(s, from + 1, c);
    }
}

/// The first `c` at or after `from` is where the text before it holds none.
pub proof fn lemma_find_char_is(s: Seq<char>, from: int, c: char, at: int)
    requires
        0 <= from <= at <= s.len(),
        forall|j: int| from <= j < at ==> s[j] != c,
        at < s.len() ==> s[at] == c,
    ensures
        find_char(s, from, c) == at,
    decreases at - from,
{
    if from < at {
        lemma_find_char_is(s, from + 1, c, at);
    }
}

/// Skipping white space ends within the text.
pub proof fn lemma_skip_whitespace_bounds(s: Seq<char>, from: int)
    requires
        0 <= from <= s.len(),
    ensures
        from <= skip_whitespace(s, from) <= s.len(),
    decreases s.len() - from,
{
    if from < s.len() && is_whitespace(s[from]) {
        lemma_skip_whitespace_bounds(s, from + 1);
    }
}

/// Skipping white space ends at the first character that is none.
pub proof fn lemma_skip_whitespace_is(s: Seq<char>, from: int, at: int)
    requires
        0 <= from <= at <= s.len(),
        forall|j: int| from <= j < at ==> is_whitespace(s[j]),
        at < s.len() ==> !is_whitespace(s[at]),
    ensures
        skip_whitespace(s, from) == at,
    decreases at - from,
{
    if from < at {
        lemma_skip_whitespace_is(s, from + 1, at);
    }
}

/// The first place where `pattern` stands is the one before which it
/// stands nowhere.
pub proof fn lemma_find_text_is(s: Seq<char>, from: int, pattern: Seq<char>, at: int)
    requires
        0 <= from <= at <= s.len(),
        forall|j: int| from <= j < at ==> !occurs_at(s, j, pattern),
        at < s.len() ==> occurs_at(s, at, pattern),
    ensures
        find_text(s, from, pattern) == at,
    decreases at - from,
{
    if from < at {
        lemma_find_text_is(s, from + 1, pattern, at);
    }
}

/// No text precedes itself.
pub proof fn lemma_precedes_irreflexive(a: Seq<char>)
    ensures
        !precedes(a, a),
    decreases a.len(),
{
    if a.len() > 0 {
        lemma_precedes_irreflexive(a.drop_first());
    }
}

/// The order is transitive.
pub proof fn lemma_precedes_transitive(a: Seq<char>, b: Seq<char>, c: Seq<char>)
    requires
        precedes(a, b),
        precedes(b, c),
    ensures
        precedes(a, c),
    decreases a.len(),
{
    if a.len() > 0 && a[0] == b[0] && b[0] == c[0] {
        lemma_precedes_transitive(a.drop_first(), b.drop_first(), c.drop_first());
    }
}

/// Of two different texts one precedes the other.
pub proof fn lemma_precedes_total(a: Seq<char>, b: Seq<char>)
    ensures
        a == b || precedes(a, b) || precedes(b, a),
    decreases a.len(),
{
    if a.len() > 0 && b.len() > 0 && a[0] == b[0] {
        lemma_precedes_total(a.drop_first(), b.drop_first());
        if a.drop_first() == b.drop_first() {
            assert(a =~= seq![a[0]] + a.drop_first());
            assert(b =~= seq![b[0]] + b.drop_first());
        }
    } else if a.len() == 0 && b.len() == 0 {
        assert(a =~= b);
    } else if a.len() > 0 && b.len() > 0 {
        vstd::utf8::char_u32_cast(a[0], a[0] as u32);
        vstd::utf8::char_u32_cast(b[0], b[0] as u32);
    }
}

/// The order never holds both ways.
pub proof fn lemma_precedes_asymmetric(a: Seq<char>, b: Seq<char>)
    requires
        precedes(a, b),
    ensures
        !precedes(b, a),
{
    if precedes(b, a) {
        lemma_precedes_transitive(a, b, a);
        lemma_precedes_irreflexive(a);
    }
}

/// Two strictly sorted sequences with the same elements are one sequence.
pub proof fn lemma_sorted_unique(a: Seq<Seq<char>>, b: Seq<Seq<char>>)
    requires
        strictly_sorted(a),
        strictly_sorted(b),
        same_members(a, b),
    ensures
        a == b,
    decreases a.len(),
{
    if a.len() == 0 {
        if b.len() > 0 {
            assert(b.contains(b[0]));
            assert(a.contains(b[0]));
        }
        assert(a =~= b);
    } else if b.len() == 0 {
        assert(a.contains(a[0]));
        assert(b.contains(a[0]));
    } else {
        // the least element of each is its first
        assert(a.contains(a[0]));
        assert(b.contains(a[0]));
        let j = choose|j: int| 0 <= j < b.len() && b[j] == a[0];
        assert(b.contains(b[0]));
        assert(a.contains(b[0]));
        let i = choose|i: int| 0 <= i < a.len() && a[i] == b[0];
        if j > 0 {
            // b[0] precedes b[j] == a[0]; a[0] precedes or is a[i] == b[0]
            assert(precedes(b[0], b[j]));
            if i > 0 {
                assert(precedes(a[0], a[i]));
                lemma_precedes_asymmetric(a[0], b[0]);
            } else {
                lemma_precedes_irreflexive(a[0]);
            }
        }
        assert(a[0] == b[0]);
        let ta = a.drop_first();
        let tb = b.drop_first();
        assert forall|p: Seq<char>| ta.contains(p) <==> tb.contains(p) by {
            if ta.contains(p) {
                let k = choose|k: int| 0 <= k < ta.len() && ta[k] == p;
                assert(a[k + 1] == p);
                assert(a.contains(p));
                assert(precedes(a[0], a[k + 1]));
                let m = choose|m: int| 0 <= m < b.len() && b[m] == p;
                if m == 0 {
                    lemma_precedes_irreflexive(p);
                }
                assert(tb[m - 1] == p);
            }
            if tb.contains(p) {
                let k = choose|k: int| 0 <= k < tb.len() && tb[k] == p;
                assert(b[k + 1] == p);
                assert(b.contains(p));
                assert(precedes(b[0], b[k + 1]));
                let m = choose|m: int| 0 <= m < a.len() && a[m] == p;
                if m == 0 {
                    lemma_precedes_irreflexive(p);
                }
                assert(ta[m - 1] == p);
            }
        }
        assert forall|x: int, y: int| 0 <= x < y < ta.len() implies precedes(
            #[trigger] ta[x],
            #[trigger] ta[y],
        ) by {
            assert(precedes(a[x + 1], a[y + 1]));
        }
        assert forall|x: int, y: int| 0 <= x < y < tb.len() implies precedes(
            #[trigger] tb[x],
            #[trigger] tb[y],
        ) by {
            assert(precedes(b[x + 1], b[y + 1]));
        }
        lemma_sorted_unique(ta, tb);
        assert(a =~= seq![a[0]] + ta);
        assert(b =~= seq![b[0]] + tb);
    }
}

/// Whether `c` is white space.
pub fn is_space(c: char) -> (r: bool)
    ensures
        r == is_whitespace(c),
{
    let n: u32 = c as u32;
    (0x09 <= n && n <= 0x0D) || n == 0x20 || n == 0x85 || n == 0xA0 || n == 0x1680 || (0x2000 <= n
        && n <= 0x200A) || n == 0x2028 || n == 0x2029 || n == 0x202F || n == 0x205F || n == 0x3000
}

/// The characters of `s`, in order.
pub fn to_chars(s: &str) -> (v: Vec<char>)
    ensures
        v@ == s@,
{
    let mut v: Vec<char> = Vec::new();
    for c in it: s.chars()
        invariant
            it.seq() == s@,
            v@ == it.seq().take(it.index() as int),
    {
        v.push(c);
    }
    v
}

/// The first index in `from..to` at which `text` holds `c`, or `to`.
pub(crate) fn find_from(text: &Vec<char>, from: usize, to: usize, c: char) -> (at: usize)
    requires
        from <= to <= text.len(),
    ensures
        from <= at <= to,
        forall|j: int| from <= j < at ==> text[j] != c,
        at < to ==> text[at as int] == c,
{
    let mut at: usize = from;
    while at < to && text[at] != c
        invariant
            from <= at <= to <= text.len(),
            forall|j: int| from <= j < at ==> text[j] != c,
        decreases to - at,
    {
        at += 1;
    }
    at
}

/// Whether the characters of `text` in `a1..b1` and in `a2..b2` are the same.
pub(crate) fn ranges_equal(text: &Vec<char>, a1: usize, b1: usize, a2: usize, b2: usize) -> (r: bool)
    requires
        a1 <= b1 <= text.len(),
        a2 <= b2 <= text.len(),
    ensures
        r == (text@.subrange(a1 as int, b1 as int) == text@.subrange(a2 as int, b2 as int)),
{
    let ghost x = text@.subrange(a1 as int, b1 as int);
    let ghost y = text@.subrange(a2 as int, b2 as int);
    if b1 - a1 != b2 - a2 {
        assert(x.len() != y.len());
        return false;
    }
    let n: usize = b1 - a1;
    let mut i: usize = 0;
    while i < n
        invariant
            i <= n,
            n == b1 - a1,
            n == b2 - a2,
            a1 <= b1 <= text.len(),
            a2 <= b2 <= text.len(),
            x == text@.subrange(a1 as int, b1 as int),
            y == text@.subrange(a2 as int, b2 as int),
            forall|j: int| 0 <= j < i ==> x[j] == y[j],
        decreases n - i,
    {
        if text[a1 + i] != text[a2 + i] {
            assert(x[i as int] != y[i as int]);
            return false;
        }
        i += 1;
    }
    assert(x =~= y);
    true
}

/// Whether the characters of `text` in `a1..b1` come before those in `a2..b2`
/// in lexicographic order.
pub(crate) fn range_precedes(text: &Vec<char>, a1: usize, b1: usize, a2: usize, b2: usize) -> (r: bool)
    requires
        a1 <= b1 <= text.len(),
        a2 <= b2 <= text.len(),
    ensures
        r == precedes(text@.subrange(a1 as int, b1 as int), text@.subrange(a2 as int, b2 as int)),
{
    let ghost x = text@.subrange(a1 as int, b1 as int);
    let ghost y = text@.subrange(a2 as int, b2 as int);
    let mut i: usize = 0;
    assert(x.skip(0) =~= x);
    assert(y.skip(0) =~= y);
    while a1 + i < b1 && a2 + i < b2 && text[a1 + i] == text[a2 + i]
        invariant
            a1 + i <= b1 <= text.len(),
            a2 + i <= b2 <= text.len(),
            x == text@.subrange(a1 as int, b1 as int),
            y == text@.subrange(a2 as int, b2 as int),
            precedes(x, y) == precedes(x.skip(i as int), y.skip(i as int)),
        decreases b1 - a1 - i,
    {
        proof {
            let xs = x.skip(i as int);
            let ys = y.skip(i as int);
            assert(xs[0] == ys[0]);
            assert(xs.drop_first() =~= x.skip(i + 1));
            assert(ys.drop_first() =~= y.skip(i + 1));
        }
        i += 1;
    }
    proof {
        let xs = x.skip(i as int);
        let ys = y.skip(i as int);
        if a1 + i < b1 && a2 + i < b2 {
            assert(xs[0] == text@[a1 + i]);
            assert(ys[0] == text@[a2 + i]);
        }
    }
    if a2 + i >= b2 {
        false
    } else if a1 + i >= b1 {
        true
    } else {
        (text[a1 + i] as u32) < (text[a2 + i] as u32)
    }
}

/// The decimal digit of `d`, for `d` below 10.
pub open spec fn digit_char(d: int) -> char {
    seq!['0', '1', '2', '3', '4', '5', '6', '7', '8', '9'][d]
}

/// `n` written in decimal digits, without leading zeros.
pub open spec fn decimal_text(n: nat) -> Seq<char>
    decreases n,
{
    if n < 10 {
        seq![digit_char(n as int)]
    } else {
        decimal_text(n / 10).push(digit_char((n % 10) as int))
    }
}

/// The decimal digit of `d`, as text.
fn digit_text(d: usize) -> (digit: &'static str)
    requires
        d < 10,
    ensures
        digit@ == seq![digit_char(d as int)],
{
    proof {
        reveal_strlit("0");
        reveal_strlit("1");
        reveal_strlit("2");
        reveal_strlit("3");
        reveal_strlit("4");
        reveal_strlit("5");
        reveal_strlit("6");
        reveal_strlit("7");
        reveal_strlit("8");
        reveal_strlit("9");
    }
    let digit = match d {
        0 => "0",
        1 => "1",
        2 => "2",
        3 => "3",
        4 => "4",
        5 => "5",
        6 => "6",
        7 => "7",
        8 => "8",
        _ => "9",
    };
    assert(digit@ =~= seq![digit_char(d as int)]);
    digit
}

/// `n` written in decimal digits.
pub fn decimal(n: usize) -> (digits: String)
    ensures
        digits@ == decimal_text(n as nat),
    decreases n,
{
    if n < 10 {
        digit_text(n).to_owned()
    } else {
        let mut digits = decimal(n / 10);
        digits.append(digit_text(n % 10));
        assert(digits@ =~= decimal_text((n / 10) as nat).push(digit_char((n % 10) as int)));
        digits
    }
}

/// `first` followed by `second`.
pub fn concat(first: &str, second: &str) -> (both: String)
    ensures
        both@ == first@ + second@,
{
    let mut both = first.to_owned();
    both.append(second);
    both
}

} // verus!
