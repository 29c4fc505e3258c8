//! A map from texts to values, kept in the order of its keys.
use vstd::prelude::*;
use crate::text::{
    lemma_less_irreflexive, lemma_less_total, lemma_less_transitive, less, same, text_less,
};

verus! {

/// Whether the keys of a list increase strictly.
pub open spec fn keys_increase<V>(pairs: Seq<(Seq<char>, V)>) -> bool {
    forall|i: int, j: int|
        0 <= i < j < pairs.len() ==> text_less((#[trigger] pairs[i]).0, (#[trigger] pairs[j]).0)
}

/// Whether a list has a key.
pub open spec fn lists_key<V>(pairs: Seq<(Seq<char>, V)>, key: Seq<char>) -> bool {
    exists|i: int| 0 <= i < pairs.len() && (#[trigger] pairs[i]).0 == key
}

/// The value that a list has for a key.
pub open spec fn value_for<V>(pairs: Seq<(Seq<char>, V)>, key: Seq<char>) -> V {
    pairs[choose|i: int| 0 <= i < pairs.len() && (#[trigger] pairs[i]).0 == key].1
}

/// The map that a list of pairs stands for.
pub open spec fn map_of<V>(pairs: Seq<(Seq<char>, V)>) -> Map<Seq<char>, V> {
    Map::new(|key: Seq<char>| lists_key(pairs, key), |key: Seq<char>| value_for(pairs, key))
}

/// A map from texts to values.
#[derive(Debug)]
pub struct TextMap<V> {
    entries: Vec<(String, V)>,
}

impl<V> TextMap<V> {
    /// The entries, in the order of their keys.
    pub closed spec fn pairs(&self) -> Seq<(Seq<char>, V)> {
        Seq::new(self.entries@.len(), |i: int| (self.entries@[i].0@, self.entries@[i].1))
    }

    /// Whether the entries are in the order of their keys, one for each.
    pub open spec fn is_valid(&self) -> bool {
        keys_increase(self.pairs())
    }
}

impl<V> View for TextMap<V> {
    type V = Map<Seq<char>, V>;

    open spec fn view(&self) -> Map<Seq<char>, V> {
        map_of(self.pairs())
    }
}

proof fn lemma_key_at<V>(pairs: Seq<(Seq<char>, V)>, key: Seq<char>, at: int)
    requires
        keys_increase(pairs),
        0 <= at < pairs.len(),
        pairs[at].0 == key,
    ensures
        map_of(pairs).contains_key(key),
        map_of(pairs)[key] == pairs[at].1,
        forall|i: int| 0 <= i < pairs.len() && (#[trigger] pairs[i]).0 == key ==> i == at,
{
    lemma_less_irreflexive(key);
    assert forall|i: int| 0 <= i < pairs.len() && (#[trigger] pairs[i]).0 == key implies i == at by {
        if i < at {
            assert(text_less(pairs[i].0, pairs[at].0));
        } else if i > at {
            assert(text_less(pairs[at].0, pairs[i].0));
        }
    }
}

impl<V> TextMap<V> {
    /// An empty map.
    pub fn new() -> (result: Self)
        ensures
            result.is_valid(),
            result@ == Map::<Seq<char>, V>::empty(),
            result.pairs().len() == 0,
    {
        let result: TextMap<V> = TextMap { entries: Vec::new() };
        assert(result@ =~= Map::<Seq<char>, V>::empty());
        result
    }

    /// The number of entries.
    pub fn len(&self) -> (result: usize)
        ensures
            result == self.pairs().len(),
    {
        self.entries.len()
    }

    /// The key at a position.
    pub fn key_at(&self, position: usize) -> (result: &str)
        requires
            position < self.pairs().len(),
        ensures
            result@ == self.pairs()[position as int].0,
    {
        self.entries[position].0.as_str()
    }

    /// The value at a position.
    pub fn value_at(&self, position: usize) -> (result: &V)
        requires
            position < self.pairs().len(),
        ensures
            *result == self.pairs()[position as int].1,
    {
        &self.entries[position].1
    }

    /// The position where a key is, or belongs.
    fn slot(&self, key: &str) -> (result: usize)
        ensures
            result <= self.pairs().len(),
            forall|i: int|
                0 <= i < result ==> text_less((#[trigger] self.pairs()[i]).0, key@),
            result < self.pairs().len() ==> !text_less(self.pairs()[result as int].0, key@),
    {
        let mut i: usize = 0;
        while i < self.entries.len()
            invariant
                i <= self.entries.len(),
                forall|j: int| 0 <= j < i ==> text_less((#[trigger] self.pairs()[j]).0, key@),
            decreases self.entries.len() - i,
        {
            if !less(self.entries[i].0.as_str(), key) {
                return i;
            }
            i = i + 1;
        }
        i
    }

    /// The position of a key, if it is there.
    fn find(&self, key: &str) -> (result: Option<usize>)
        requires
            self.is_valid(),
        ensures
            match result {
                Some(at) => at < self.pairs().len() && self.pairs()[at as int].0 == key@
                    && self@.contains_key(key@) && self@[key@] == self.pairs()[at as int].1,
                None => !self@.contains_key(key@),
            },
    {
        let at: usize = self.slot(key);
        let ghost pairs = self.pairs();
        if at < self.entries.len() && same(self.entries[at].0.as_str(), key) {
            proof {
                lemma_key_at(pairs, key@, at as int);
            }
            Some(at)
        } else {
            proof {
                lemma_less_irreflexive(key@);
                if lists_key(pairs, key@) {
                    let i = choose|i: int| 0 <= i < pairs.len() && (#[trigger] pairs[i]).0 == key@;
                    if i > at {
                        assert(text_less(pairs[at as int].0, pairs[i].0));
                    }
                }
            }
            None
        }
    }

    /// Whether a key is there.
    pub fn contains_key(&self, key: &str) -> (result: bool)
        requires
            self.is_valid(),
        ensures
            result == self@.contains_key(key@),
    {
        self.find(key).is_some()
    }

    /// The value of a key.
    pub fn get(&self, key: &str) -> (result: Option<&V>)
        requires
            self.is_valid(),
        ensures
            match result {
                Some(value) => self@.contains_key(key@) && self@[key@] == *value,
                None => !self@.contains_key(key@),
            },
    {
        match self.find(key) {
            Some(at) => Some(&self.entries[at].1),
            None => None,
        }
    }

    /// Sets the value of a key.
    pub fn insert(&mut self, key: String, value: V)
        requires
            old(self).is_valid(),
        ensures
            final(self).is_valid(),
            final(self)@ == old(self)@.insert(key@, value),
    {
        let ghost before = self.pairs();
        let at: usize = self.slot(key.as_str());
        let found: bool = at < self.entries.len() && same(
            self.entries[at].0.as_str(),
            key.as_str(),
        );
        let ghost name = key@;
        if found {
            let removed: (String, V) = self.entries.remove(at);
            self.entries.insert(at, (key, value));
            proof {
                let after = self.pairs();
                assert(after =~= before.update(at as int, (name, value)));
                assert(keys_increase(after)) by {
                    assert forall|i: int, j: int| 0 <= i < j < after.len() implies text_less(
                        (#[trigger] after[i]).0,
                        (#[trigger] after[j]).0,
                    ) by {
                        assert(text_less(before[i].0, before[j].0));
                    }
                }
                lemma_map_after(before, after, name, value, at as int, true);
            }
        } else {
            self.entries.insert(at, (key, value));
            proof {
                let after = self.pairs();
                assert(after =~= before.insert(at as int, (name, value)));
                assert(keys_increase(after)) by {
                    assert forall|i: int, j: int| 0 <= i < j < after.len() implies text_less(
                        (#[trigger] after[i]).0,
                        (#[trigger] after[j]).0,
                    ) by {
                        if j == at {
                            assert(after[i] == before[i]);
                        } else if i == at {
                            assert(after[j] == before[j - 1]);
                            lemma_less_total(before[at as int].0, name);
                            if j - 1 > at {
                                assert(text_less(before[at as int].0, before[j - 1].0));
                                lemma_less_transitive(
                                    name,
                                    before[at as int].0,
                                    before[j - 1].0,
                                );
                            }
                        } else {
                            let a = if i < at { i } else { i - 1 };
                            let b = if j < at { j } else { j - 1 };
                            assert(after[i] == before[a] && after[j] == before[b] && a < b);
                        }
                    }
                }
                lemma_map_after(before, after, name, value, at as int, false);
            }
        }
    }

    /// Drops a key, and gives its value back.
    pub fn remove(&mut self, key: &str) -> (result: Option<V>)
        requires
            old(self).is_valid(),
        ensures
            final(self).is_valid(),
            final(self)@ == old(self)@.remove(key@),
            match result {
                Some(value) => old(self)@.contains_key(key@) && old(self)@[key@] == value,
                None => !old(self)@.contains_key(key@),
            },
    {
        let ghost before = self.pairs();
        match self.find(key) {
            None => {
                assert(self@ =~= self@.remove(key@));
                None
            },
            Some(at) => {
                let removed: (String, V) = self.entries.remove(at);
                proof {
                    let after = self.pairs();
                    assert(after =~= before.remove(at as int));
                    assert(keys_increase(after)) by {
                        assert forall|i: int, j: int| 0 <= i < j < after.len() implies text_less(
                            (#[trigger] after[i]).0,
                            (#[trigger] after[j]).0,
                        ) by {
                            let a = if i < at { i } else { i + 1 };
                            let b = if j < at { j } else { j + 1 };
                            assert(after[i] == before[a] && after[j] == before[b] && a < b);
                        }
                    }
                    lemma_key_at(before, key@, at as int);
                    assert forall|k: Seq<char>| lists_key(after, k) <==> lists_key(before, k) && k
                        != key@ by {
                        if lists_key(after, k) {
                            let i = choose|i: int|
                                0 <= i < after.len() && (#[trigger] after[i]).0 == k;
                            let a = if i < at { i } else { i + 1 };
                            assert(before[a].0 == k);
                        }
                        if lists_key(before, k) && k != key@ {
                            let a = choose|a: int|
                                0 <= a < before.len() && (#[trigger] before[a]).0 == k;
                            let i = if a < at { a } else { a - 1 };
                            assert(after[i].0 == k);
                        }
                    }
                    assert forall|k: Seq<char>| lists_key(after, k) implies value_for(after, k)
                        == value_for(before, k) by {
                        let i = choose|i: int| 0 <= i < after.len() && (#[trigger] after[i]).0 == k;
                        let a = if i < at { i } else { i + 1 };
                        assert(before[a] == after[i]);
                        lemma_key_at(before, k, a);
                        lemma_key_at(after, k, i);
                    }
                    assert(map_of(after) =~= map_of(before).remove(key@));
                }
                Some(removed.1)
            },
        }
    }
}

proof fn lemma_map_after<V>(
    before: Seq<(Seq<char>, V)>,
    after: Seq<(Seq<char>, V)>,
    key: Seq<char>,
    value: V,
    at: int,
    found: bool,
)
    requires
        keys_increase(before),
        keys_increase(after),
        found ==> 0 <= at < before.len() && before[at].0 == key && after == before.update(
            at,
            (key, value),
        ),
        !found ==> 0 <= at <= before.len() && after == before.insert(at, (key, value)),
    ensures
        map_of(after) == map_of(before).insert(key, value),
{
    assert(after[at] == (key, value));
    lemma_key_at(after, key, at);
    assert forall|k: Seq<char>| k != key implies (lists_key(after, k) <==> lists_key(before, k))
        && (lists_key(after, k) ==> value_for(after, k) == value_for(before, k)) by {
        if lists_key(after, k) {
            let i = choose|i: int| 0 <= i < after.len() && (#[trigger] after[i]).0 == k;
            let a = if found || i < at { i } else { i - 1 };
            assert(before[a] == after[i]);
            lemma_key_at(before, k, a);
            lemma_key_at(after, k, i);
        }
        if lists_key(before, k) {
            let a = choose|a: int| 0 <= a < before.len() && (#[trigger] before[a]).0 == k;
            let i = if found || a < at { a } else { a + 1 };
            assert(after[i] == before[a]);
        }
    }
    assert(map_of(after) =~= map_of(before).insert(key, value));
}

/// The entries of a map are those of its keys, one for each.
pub proof fn law_pairs_are_the_map<V>(map: TextMap<V>)
    requires
        map.is_valid(),
    ensures
        forall|i: int|
            0 <= i < map.pairs().len() ==> map@.contains_key((#[trigger] map.pairs()[i]).0)
                && map@[map.pairs()[i].0] == map.pairs()[i].1,
        forall|key: Seq<char>| #[trigger]
            map@.contains_key(key) ==> exists|i: int|
                0 <= i < map.pairs().len() && (#[trigger] map.pairs()[i]).0 == key,
{
    assert forall|i: int| 0 <= i < map.pairs().len() implies map@.contains_key(
        (#[trigger] map.pairs()[i]).0,
    ) && map@[map.pairs()[i].0] == map.pairs()[i].1 by {
        lemma_key_at(map.pairs(), map.pairs()[i].0, i);
    }
}

/// The keys of a list of entries.
pub open spec fn keys_of<V>(pairs: Seq<(Seq<char>, V)>) -> Seq<Seq<char>> {
    Seq::new(pairs.len(), |i: int| pairs[i].0)
}

/// A map has as many keys as entries.
pub proof fn lemma_key_count<V>(map: TextMap<V>)
    requires
        map.is_valid(),
    ensures
        keys_of(map.pairs()).no_duplicates(),
        keys_of(map.pairs()).to_set() == map@.dom(),
        map@.dom().finite(),
        map@.dom().len() == map.pairs().len(),
{
    let pairs = map.pairs();
    let keys = keys_of(pairs);
    assert forall|i: int, j: int| 0 <= i < keys.len() && 0 <= j < keys.len() && i != j implies keys[i]
        != keys[j] by {
        if i < j {
            assert(text_less(pairs[i].0, pairs[j].0));
        } else {
            assert(text_less(pairs[j].0, pairs[i].0));
        }
        lemma_less_irreflexive(keys[i]);
    }
    keys.unique_seq_to_set();
    law_pairs_are_the_map(map);
    assert(keys.to_set() =~= map@.dom()) by {
        assert forall|key: Seq<char>| keys.to_set().contains(key) <==> map@.dom().contains(key) by {
            if keys.to_set().contains(key) {
                let i = choose|i: int| 0 <= i < keys.len() && keys[i] == key;
                assert(pairs[i].0 == key);
            }
            if map@.contains_key(key) {
                let i = choose|i: int| 0 <= i < pairs.len() && (#[trigger] pairs[i]).0 == key;
                assert(keys[i] == key);
            }
        }
    }
}

} // verus!
