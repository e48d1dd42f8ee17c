//! A small map from text to values that keeps its entries in the order in
//! which their keys first came.

use vstd::prelude::*;

verus! {

/// The first index at or after `from` whose key is `key`; the length of
/// `pairs` where there is none.
pub open spec fn position<V>(pairs: Seq<(Seq<char>, V)>, key: Seq<char>, from: int) -> int
    decreases pairs.len() - from,
{
    if from < 0 || from >= pairs.len() {
        pairs.len() as int
    } else if pairs[from].0 == key {
        from
    } else {
        position(pairs, key, from + 1)
    }
}

/// The value that `pairs` gives to `key`.
pub open spec fn lookup<V>(pairs: Seq<(Seq<char>, V)>, key: Seq<char>) -> Option<V> {
    let at = position(pairs, key, 0);
    if at < pairs.len() {
        Some(pairs[at].1)
    } else {
        None
    }
}

/// `pairs` with `key` bound to `value`: in the place of its old binding, or
/// at the end where it had none.
pub open spec fn bind<V>(pairs: Seq<(Seq<char>, V)>, key: Seq<char>, value: V) -> Seq<(Seq<char>, V)> {
    let at = position(pairs, key, 0);
    if at < pairs.len() {
        pairs.update(at, (key, value))
    } else {
        pairs.push((key, value))
    }
}

/// No key occurs twice.
pub open spec fn distinct_keys<V>(pairs: Seq<(Seq<char>, V)>) -> bool {
    forall|i: int, j: int| 0 <= i < j < pairs.len() ==> (#[trigger] pairs[i]).0 != (#[trigger] pairs[j]).0
}

/// The search for a key ends within the pairs: at that key, with no such
/// key before it, or at the end.
pub proof fn lemma_position_bounds<V>(pairs: Seq<(Seq<char>, V)>, key: Seq<char>, from: int)
    requires
        0 <= from <= pairs.len(),
    ensures
        from <= position(pairs, key, from) <= pairs.len(),
        position(pairs, key, from) < pairs.len() ==> pairs[position(pairs, key, from)].0 == key,
        forall|j: int| from <= j < position(pairs, key, from) ==> (#[trigger] pairs[j]).0 != key,
    decreases pairs.len() - from,
{
    if from < pairs.len() && pairs[from].0 != key {
        lemma_position_bounds(pairs, key, from + 1);
    }
}

/// The first pair with the key is the one before which no pair has it.
pub proof fn lemma_position_is<V>(pairs: Seq<(Seq<char>, V)>, key: Seq<char>, from: int, at: int)
    requires
        0 <= from <= at <= pairs.len(),
        forall|j: int| from <= j < at ==> (#[trigger] pairs[j]).0 != key,
        at < pairs.len() ==> pairs[at].0 == key,
    ensures
        position(pairs, key, from) == at,
    decreases at - from,
{
    if from < at {
        lemma_position_is(pairs, key, from + 1, at);
    }
}

/// Binding a key changes what that key gives, and nothing else.
pub proof fn lemma_bind_lookup<V>(pairs: Seq<(Seq<char>, V)>, key: Seq<char>, value: V, other: Seq<char>)
    ensures
        lookup(bind(pairs, key, value), other) == if other == key {
            Some(value)
        } else {
            lookup(pairs, other)
        },
{
    let at = position(pairs, key, 0);
    let after = bind(pairs, key, value);
    lemma_position_bounds(pairs, key, 0);
    lemma_position_bounds(pairs, other, 0);
    let was = position(pairs, other, 0);
    if other == key {
        lemma_position_is(after, key, 0, at);
    } else {
        lemma_position_is(after, other, 0, if was < pairs.len() { was } else { after.len() as int });
    }
}

/// Binding a key keeps the keys distinct.
pub proof fn lemma_bind_distinct<V>(pairs: Seq<(Seq<char>, V)>, key: Seq<char>, value: V)
    requires
        distinct_keys(pairs),
    ensures
        distinct_keys(bind(pairs, key, value)),
{
    lemma_position_bounds(pairs, key, 0);
    let after = bind(pairs, key, value);
    assert forall|i: int, j: int| 0 <= i < j < after.len() implies (#[trigger] after[i]).0 != (#[trigger] after[j]).0 by {
        if i < pairs.len() && j < pairs.len() {
            assert(pairs[i].0 != pairs[j].0);
        }
    }
}

/// The entries with each key taken by its view.
pub open spec fn pairs_of<V>(entries: Seq<(String, V)>) -> Seq<(Seq<char>, V)> {
    Seq::new(entries.len(), |i: int| (entries[i].0@, entries[i].1))
}

/// A map from text to values of `V`. Its entries stand in the order in which
/// their keys were first bound, and no key stands twice.
#[derive(Debug, PartialEq, Eq)]
pub struct TextMap<V> {
    entries: Vec<(String, V)>,
}

impl<V> View for TextMap<V> {
    type V = Seq<(Seq<char>, V)>;

    closed spec fn view(&self) -> Seq<(Seq<char>, V)> {
        pairs_of(self.entries@)
    }
}

impl<V> TextMap<V> {
    #[verifier::type_invariant]
    spec fn well_formed(&self) -> bool {
        distinct_keys(self@)
    }

    /// A map without entries.
    pub fn new() -> (map: Self)
        ensures
            map@ == Seq::<(Seq<char>, V)>::empty(),
    {
        let map = TextMap { entries: Vec::new() };
        assert(map@ =~= Seq::<(Seq<char>, V)>::empty());
        map
    }

    /// The number of entries, which is the number of keys: none stands
    /// twice.
    pub fn len(&self) -> (n: usize)
        ensures
            n == self@.len(),
            distinct_keys(self@),
    {
        proof {
            use_type_invariant(self);
        }
        self.entries.len()
    }

    /// Whether the map has no entry.
    pub fn is_empty(&self) -> (r: bool)
        ensures
            r == (self@.len() == 0),
    {
        self.entries.len() == 0
    }

    /// The index of the entry of `key`, or the number of entries.
    fn find(&self, key: &String) -> (at: usize)
        ensures
            at == position(self@, key@, 0),
            at <= self@.len(),
    {
        let mut at: usize = 0;
        while at < self.entries.len() && !(self.entries[at].0 == *key)
            invariant
                at <= self.entries.len(),
                forall|j: int| 0 <= j < at ==> (#[trigger] self@[j]).0 != key@,
            decreases self.entries.len() - at,
        {
            assert(self@[at as int].0 == self.entries@[at as int].0@);
            at += 1;
        }
        proof {
            if at < self.entries.len() {
                assert(self@[at as int].0 == self.entries@[at as int].0@);
            }
            lemma_position_is(self@, key@, 0, at as int);
        }
        at
    }

    /// The value bound to `key`, if there is one.
    pub fn get(&self, key: &str) -> (value: Option<&V>)
        ensures
            match value {
                Some(v) => lookup(self@, key@) == Some(*v),
                None => lookup(self@, key@) is None,
            },
    {
        let owned = key.to_owned();
        let at = self.find(&owned);
        if at < self.entries.len() {
            assert(self@[at as int].1 == self.entries@[at as int].1);
            Some(&self.entries[at].1)
        } else {
            None
        }
    }

    /// Whether `key` is bound.
    pub fn contains_key(&self, key: &str) -> (r: bool)
        ensures
            r == lookup(self@, key@).is_some(),
    {
        let owned = key.to_owned();
        let at = self.find(&owned);
        at < self.entries.len()
    }

    /// Binds `key` to `value`: in the place of its old binding, or at the end
    /// where it had none.
    pub fn insert(&mut self, key: String, value: V)
        ensures
            final(self)@ == bind(old(self)@, key@, value),
            distinct_keys(final(self)@),
    {
        proof {
            use_type_invariant(&*self);
            lemma_bind_distinct(self@, key@, value);
        }
        let ghost before = self@;
        let at = self.find(&key);
        let mut taken = TextMap { entries: Vec::new() };
        assert(taken@ =~= Seq::<(Seq<char>, V)>::empty());
        core::mem::swap(self, &mut taken);
        let TextMap { entries } = taken;
        let mut entries = entries;
        if at < entries.len() {
            entries.set(at, (key, value));
        } else {
            entries.push((key, value));
        }
        assert(pairs_of(entries@) =~= bind(before, key@, value)) by {
            if at < before.len() {
                assert(pairs_of(entries@) =~= before.update(at as int, (key@, value)));
            } else {
                assert(pairs_of(entries@) =~= before.push((key@, value)));
            }
        }
        *self = TextMap { entries };
    }

    /// The key of the entry at `index`.
    pub fn key_at(&self, index: usize) -> (key: &String)
        requires
            index < self@.len(),
        ensures
            key@ == self@[index as int].0,
    {
        &self.entries[index].0
    }

    /// The value of the entry at `index`.
    pub fn value_at(&self, index: usize) -> (value: &V)
        requires
            index < self@.len(),
        ensures
            *value == self@[index as int].1,
    {
        &self.entries[index].1
    }
}

impl<V: Clone> Clone for TextMap<V> {
    /// A map with the same keys in the same order, each bound to a clone of
    /// its value.
    fn clone(&self) -> (copy: Self)
        ensures
            copy@.len() == self@.len(),
            forall|i: int| 0 <= i < self@.len() ==> (#[trigger] copy@[i]).0 == self@[i].0,
            forall|i: int| 0 <= i < self@.len() ==> cloned(self@[i].1, (#[trigger] copy@[i]).1),
    {
        proof {
            use_type_invariant(self);
        }
        let mut entries: Vec<(String, V)> = Vec::new();
        let mut i: usize = 0;
        while i < self.entries.len()
            invariant
                i <= self.entries.len(),
                entries@.len() == i,
                forall|j: int| 0 <= j < i ==> (#[trigger] entries@[j]).0@ == self.entries@[j].0@,
                forall|j: int| 0 <= j < i ==> cloned(self.entries@[j].1, (#[trigger] entries@[j]).1),
            decreases self.entries.len() - i,
        {
            let key = self.entries[i].0.clone();
            let value = self.entries[i].1.clone();
            entries.push((key, value));
            i += 1;
        }
        proof {
            let pairs = pairs_of(entries@);
            assert forall|a: int, b: int| 0 <= a < b < pairs.len() implies (#[trigger] pairs[a]).0 != (
            #[trigger] pairs[b]).0 by {
                assert(pairs[a].0 == self@[a].0);
                assert(pairs[b].0 == self@[b].0);
            }
        }
        TextMap { entries }
    }
}

} // verus!
