//! The settings store: a flat map from keys to values, kept in a text file
//! of `key=value` lines in which comments, blank lines and lines that are
//! not understood are carried along untouched.

use vstd::prelude::*;

verus! {

/// One setting: a key and its value, as character sequences.
pub type Pair = (Seq<char>, Seq<char>);

/// The position of the first pair of `pairs` whose key is `key`, or the
/// length of `pairs` where no pair has that key.
pub open spec fn position_of(pairs: Seq<Pair>, key: Seq<char>) -> nat
    decreases pairs.len(),
{
    if pairs.len() == 0 || pairs[0].0 == key {
        0
    } else {
        1 + position_of(pairs.skip(1), key)
    }
}

/// The value that `pairs` holds for `key`, if any.
pub open spec fn lookup(pairs: Seq<Pair>, key: Seq<char>) -> Option<Seq<char>> {
    let at = position_of(pairs, key);
    if at < pairs.len() {
        Some(pairs[at as int].1)
    } else {
        None
    }
}

/// `pairs` after `key` was set to `value`: a pair that has the key keeps its
/// place and takes the value, and a key that is new goes to the end.
pub open spec fn put(pairs: Seq<Pair>, key: Seq<char>, value: Seq<char>) -> Seq<Pair> {
    let at = position_of(pairs, key);
    if at < pairs.len() {
        pairs.update(at as int, (key, value))
    } else {
        pairs.push((key, value))
    }
}

/// No two pairs of `pairs` have the same key.
pub open spec fn distinct_keys(pairs: Seq<Pair>) -> bool {
    forall|i: int, j: int|
        0 <= i < pairs.len() && 0 <= j < pairs.len() && i != j ==> (#[trigger] pairs[i]).0 != (
        #[trigger] pairs[j]).0
}

/// `position_of` stays within the sequence, stops at a pair with the key
/// where it stops short of the end, and passes over no such pair.
pub proof fn lemma_position_of(pairs: Seq<Pair>, key: Seq<char>)
    ensures
        position_of(pairs, key) <= pairs.len(),
        position_of(pairs, key) < pairs.len() ==> pairs[position_of(pairs, key) as int].0 == key,
        forall|j: int| 0 <= j < position_of(pairs, key) ==> (#[trigger] pairs[j]).0 != key,
    decreases pairs.len(),
{
    if pairs.len() > 0 && pairs[0].0 != key {
        let rest = pairs.skip(1);
        lemma_position_of(rest, key);
        assert forall|j: int| 0 <= j < position_of(pairs, key) implies (#[trigger] pairs[j]).0
            != key by {
            if j > 0 {
                assert(pairs[j] == rest[j - 1]);
            }
        }
    }
}

/// A position that holds the key wherever it is short of the end, and that
/// no pair with the key comes before, is the one that `position_of` gives.
pub proof fn lemma_position_of_is(pairs: Seq<Pair>, key: Seq<char>, at: int)
    requires
        0 <= at <= pairs.len(),
        at < pairs.len() ==> pairs[at].0 == key,
        forall|j: int| 0 <= j < at ==> (#[trigger] pairs[j]).0 != key,
    ensures
        position_of(pairs, key) == at,
{
    lemma_position_of(pairs, key);
}

/// Setting a key keeps the keys distinct.
pub proof fn lemma_put_distinct(pairs: Seq<Pair>, key: Seq<char>, value: Seq<char>)
    requires
        distinct_keys(pairs),
    ensures
        distinct_keys(put(pairs, key, value)),
{
    lemma_position_of(pairs, key);
}

/// After a key was set, it has the new value, and every other key has what
/// it had before.
pub proof fn lemma_lookup_put(pairs: Seq<Pair>, key: Seq<char>, value: Seq<char>, other: Seq<char>)
    ensures
        lookup(put(pairs, key, value), other) == if other == key {
            Some(value)
        } else {
            lookup(pairs, other)
        },
{
    let after = put(pairs, key, value);
    let at = position_of(pairs, key) as int;
    let at_other = position_of(pairs, other) as int;
    lemma_position_of(pairs, key);
    lemma_position_of(pairs, other);
    if other == key {
        lemma_position_of_is(after, key, at);
    } else if at_other < pairs.len() {
        lemma_position_of_is(after, other, at_other);
    } else {
        lemma_position_of_is(after, other, after.len() as int);
    }
}

/// The settings as a map from keys to values.
pub open spec fn as_map(pairs: Seq<Pair>) -> Map<Seq<char>, Seq<char>> {
    Map::new(|key: Seq<char>| lookup(pairs, key).is_some(), |key: Seq<char>| lookup(pairs, key).unwrap())
}

/// Setting a key is an insertion into the map of the settings.
pub proof fn lemma_put_inserts(pairs: Seq<Pair>, key: Seq<char>, value: Seq<char>)
    ensures
        as_map(put(pairs, key, value)) == as_map(pairs).insert(key, value),
{
    assert forall|other: Seq<char>|
        lookup(put(pairs, key, value), other) == if other == key {
            Some(value)
        } else {
            lookup(pairs, other)
        } by {
        lemma_lookup_put(pairs, key, value, other);
    }
}

/// A map from keys to values that remembers the order in which its keys
/// first came in.
pub struct SettingsMap {
    entries: Vec<(String, String)>,
}

impl SettingsMap {
    /// The settings in the order in which their keys first came in.
    pub closed spec fn pairs(&self) -> Seq<Pair> {
        Seq::new(self.entries@.len(), |i: int| (self.entries@[i].0@, self.entries@[i].1@))
    }

    #[verifier::type_invariant]
    spec fn keys_are_distinct(&self) -> bool {
        distinct_keys(self.pairs())
    }

    /// A map without settings.
    pub fn new() -> (out: Self)
        ensures
            out.pairs() == Seq::<Pair>::empty(),
    {
        let out = SettingsMap { entries: Vec::new() };
        out
    }

    /// The number of settings, no two of which share a key.
    pub fn len(&self) -> (n: usize)
        ensures
            n == self.pairs().len(),
            distinct_keys(self.pairs()),
    {
        proof {
            use_type_invariant(self);
        }
        self.entries.len()
    }

    /// The place of `key` among the settings, or `len()` where it is not set.
    pub fn position(&self, key: &String) -> (at: usize)
        ensures
            at == position_of(self.pairs(), key@),
    {
        let mut i: usize = 0;
        while i < self.entries.len() && !(self.entries[i].0 == *key)
            invariant
                i <= self.entries@.len(),
                forall|j: int| 0 <= j < i ==> (#[trigger] self.pairs()[j]).0 != key@,
            decreases self.entries@.len() - i,
        {
            i = i + 1;
        }
        proof {
            lemma_position_of_is(self.pairs(), key@, i as int);
        }
        i
    }

    /// The value of `key`, if it is set.
    pub fn get(&self, key: &String) -> (out: Option<&String>)
        ensures
            match out {
                Some(value) => lookup(self.pairs(), key@) == Some(value@),
                None => lookup(self.pairs(), key@).is_none(),
            },
    {
        let at = self.position(key);
        if at < self.entries.len() {
            Some(&self.entries[at].1)
        } else {
            None
        }
    }

    /// The key at place `at`.
    pub fn key_at(&self, at: usize) -> (out: &String)
        requires
            at < self.pairs().len(),
        ensures
            out@ == self.pairs()[at as int].0,
    {
        &self.entries[at].0
    }

    /// The value at place `at`.
    pub fn value_at(&self, at: usize) -> (out: &String)
        requires
            at < self.pairs().len(),
        ensures
            out@ == self.pairs()[at as int].1,
    {
        &self.entries[at].1
    }

    /// Sets `key` to `value`. A key that is already set keeps its place; a new
    /// one goes to the end.
    pub fn insert(&mut self, key: String, value: String)
        ensures
            final(self).pairs() == put(old(self).pairs(), key@, value@),
            distinct_keys(final(self).pairs()),
    {
        proof {
            use_type_invariant(&*self);
            lemma_put_distinct(self.pairs(), key@, value@);
        }
        let at = self.position(&key);
        let mut entries: Vec<(String, String)> = Vec::new();
        std::mem::swap(&mut entries, &mut self.entries);
        if at < entries.len() {
            entries.set(at, (key, value));
        } else {
            entries.push((key, value));
        }
        proof {
            let next = SettingsMap { entries };
            assert(next.pairs() =~= put(old(self).pairs(), key@, value@));
        }
        self.entries = entries;
    }
}

} // verus!
