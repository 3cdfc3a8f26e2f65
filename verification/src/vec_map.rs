//! A small map that keeps its entries in the order in which their keys were first inserted.

use vstd::prelude::*;

verus! {

/// A key that executable code can compare.
pub trait MapKey: Sized {
    /// Whether the two keys are the same.
    fn same(&self, other: &Self) -> (same: bool)
        ensures
            same == (*self == *other),
    ;
}

/// A map held as a vector of entries.
#[derive(Debug)]
pub struct VecMap<K, V> {
    pub entries: Vec<(K, V)>,
}

/// Whether some entry has the key.
pub open spec fn has_key<K, V>(entries: Seq<(K, V)>, key: K) -> bool {
    exists|i: int| 0 <= i < entries.len() && (#[trigger] entries[i]).0 == key
}

/// The value of the first entry with the key.
pub open spec fn value_of<K, V>(entries: Seq<(K, V)>, key: K) -> V
    recommends
        has_key(entries, key),
    decreases entries.len(),
{
    if entries.len() == 0 || entries.first().0 == key {
        entries.first().1
    } else {
        value_of(entries.drop_first(), key)
    }
}

impl<K, V> View for VecMap<K, V> {
    type V = Map<K, V>;

    open spec fn view(&self) -> Map<K, V> {
        Map::new(|key: K| has_key(self.entries@, key), |key: K| value_of(self.entries@, key))
    }
}

impl<K, V> VecMap<K, V> {
    /// No key has two entries.
    pub open spec fn wf(self) -> bool {
        forall|i: int, j: int|
            0 <= i < j < self.entries@.len() ==> (#[trigger] self.entries@[i]).0 != (
            #[trigger] self.entries@[j]).0
    }
}

/// The first entry with the key gives the value.
pub(crate) proof fn lemma_value_of<K, V>(entries: Seq<(K, V)>, i: int, key: K)
    requires
        0 <= i < entries.len(),
        entries[i].0 == key,
        forall|j: int| 0 <= j < i ==> (#[trigger] entries[j]).0 != key,
    ensures
        value_of(entries, key) == entries[i].1,
    decreases i,
{
    if i > 0 {
        let rest = entries.drop_first();
        assert forall|j: int| 0 <= j < i - 1 implies (#[trigger] rest[j]).0 != key by {
            assert(rest[j] == entries[j + 1]);
        }
        lemma_value_of(rest, i - 1, key);
    }
}

/// Every key present has a first entry.
proof fn lemma_first_entry<K, V>(entries: Seq<(K, V)>, key: K) -> (i: int)
    requires
        has_key(entries, key),
    ensures
        0 <= i < entries.len(),
        entries[i].0 == key,
        forall|j: int| 0 <= j < i ==> (#[trigger] entries[j]).0 != key,
        value_of(entries, key) == entries[i].1,
    decreases entries.len(),
{
    if entries[0].0 == key {
        0
    } else {
        let rest = entries.drop_first();
        let w = choose|i: int| 0 <= i < entries.len() && (#[trigger] entries[i]).0 == key;
        assert(rest[w - 1].0 == key);
        let k = lemma_first_entry(rest, key);
        assert forall|j: int| 0 <= j < k + 1 implies (#[trigger] entries[j]).0 != key by {
            if j > 0 {
                assert(rest[j - 1] == entries[j]);
            }
        }
        lemma_value_of(entries, k + 1, key);
        k + 1
    }
}

/// The first entries and the next one have the keys of the first and that of the next.
pub proof fn lemma_take_has_key<K, V>(entries: Seq<(K, V)>, i: int, key: K)
    requires
        0 <= i < entries.len(),
    ensures
        has_key(entries.take(i + 1), key) <==> has_key(entries.take(i), key) || entries[i].0 == key,
{
    let seen = entries.take(i);
    let next = entries.take(i + 1);
    if has_key(seen, key) {
        let k = choose|k: int| 0 <= k < seen.len() && (#[trigger] seen[k]).0 == key;
        assert(next[k].0 == key);
    }
    if has_key(next, key) && entries[i].0 != key {
        let k = choose|k: int| 0 <= k < next.len() && (#[trigger] next[k]).0 == key;
        assert(seen[k].0 == key);
    }
    assert(next[i] == entries[i]);
}

/// Of a map in which no key has two entries, the entries are the keys with their values.
pub proof fn lemma_entries_are_values<K, V>(map: VecMap<K, V>, key: K, value: V)
    requires
        map.wf(),
    ensures
        map.entries@.contains((key, value)) <==> map@.contains_key(key) && map@[key] == value,
{
    let entries = map.entries@;
    if entries.contains((key, value)) {
        let i = choose|i: int| 0 <= i < entries.len() && entries[i] == (key, value);
        assert(entries[i].0 == key);
        assert forall|j: int| 0 <= j < i implies (#[trigger] entries[j]).0 != key by {
            assert(entries[j].0 != entries[i].0);
        }
        lemma_value_of(entries, i, key);
    }
    if map@.contains_key(key) && map@[key] == value {
        let i = lemma_first_entry(entries, key);
        assert(entries[i] == (key, value));
    }
}

impl<K: MapKey, V> VecMap<K, V> {
    /// The empty map.
    pub fn new() -> (map: Self)
        ensures
            map@ == Map::<K, V>::empty(),
            map.wf(),
            map.entries@.len() == 0,
    {
        let map = VecMap { entries: Vec::new() };
        assert(map@ =~= Map::<K, V>::empty());
        map
    }

    /// Where the first entry with the key stands.
    fn position(&self, key: &K) -> (found: Option<usize>)
        ensures
            match found {
                Some(i) => i < self.entries@.len() && self.entries@[i as int].0 == *key && (
                forall|j: int| 0 <= j < i ==> (#[trigger] self.entries@[j]).0 != *key),
                None => !has_key(self.entries@, *key),
            },
    {
        let mut i: usize = 0;
        while i < self.entries.len()
            invariant
                i <= self.entries@.len(),
                forall|j: int| 0 <= j < i ==> (#[trigger] self.entries@[j]).0 != *key,
            decreases self.entries@.len() - i,
        {
            if self.entries[i].0.same(key) {
                return Some(i);
            }
            i = i + 1;
        }
        None
    }

    /// The value of a key.
    pub fn get(&self, key: &K) -> (found: Option<&V>)
        ensures
            match found {
                Some(value) => self@.contains_key(*key) && *value == self@[*key],
                None => !self@.contains_key(*key),
            },
    {
        match self.position(key) {
            Some(i) => {
                proof {
                    lemma_value_of(self.entries@, i as int, *key);
                }
                Some(&self.entries[i].1)
            },
            None => None,
        }
    }

    /// Gives the key the value, in place of the value that it had, if any.
    pub fn insert(&mut self, key: K, value: V)
        ensures
            final(self)@ == old(self)@.insert(key, value),
            old(self).wf() ==> final(self).wf(),
            !has_key(old(self).entries@, key) ==> final(self).entries@ == old(self).entries@.push(
                (key, value),
            ),
            has_key(old(self).entries@, key) ==> final(self).entries@.len() == old(
                self,
            ).entries@.len() && forall|i: int|
                0 <= i < old(self).entries@.len() ==> (#[trigger] final(self).entries@[i]).0 == old(
                    self,
                ).entries@[i].0,
    {
        let ghost before = self.entries@;
        match self.position(&key) {
            Some(i) => {
                self.entries.set(i, (key, value));
                proof {
                    let after = self.entries@;
                    assert forall|k: K| has_key(before, k) implies has_key(after, k)
                        && value_of(after, k) == (if k == key {
                        value
                    } else {
                        value_of(before, k)
                    }) by {
                        let at = lemma_first_entry(before, k);
                        assert(after[at].0 == k);
                        assert forall|j: int| 0 <= j < at implies (#[trigger] after[j]).0 != k by {
                            assert(before[j].0 != k);
                        }
                        lemma_value_of(after, at, k);
                    }
                    assert forall|k: K| has_key(after, k) implies has_key(before, k) by {
                        let w = choose|w: int| 0 <= w < after.len() && (#[trigger] after[w]).0 == k;
                        assert(before[w].0 == k);
                    }
                    assert(before[i as int].0 == key);
                    assert(self@ =~= old(self)@.insert(key, value));
                    assert forall|p: int, q: int|
                        0 <= p < q < after.len() && old(self).wf() implies (#[trigger] after[p]).0
                        != (#[trigger] after[q]).0 by {
                        assert(before[p].0 != before[q].0);
                    }
                }
            },
            None => {
                self.entries.push((key, value));
                proof {
                    let after = self.entries@;
                    assert forall|k: K| has_key(before, k) implies has_key(after, k)
                        && value_of(after, k) == value_of(before, k) by {
                        let at = lemma_first_entry(before, k);
                        assert(after[at].0 == k);
                        assert forall|j: int| 0 <= j < at implies (#[trigger] after[j]).0 != k by {
                            assert(before[j].0 != k);
                        }
                        lemma_value_of(after, at, k);
                    }
                    let last = before.len() as int;
                    assert(after[last].0 == key);
                    assert forall|j: int| 0 <= j < last implies (#[trigger] after[j]).0 != key by {
                        assert(before[j] == after[j]);
                    }
                    lemma_value_of(after, last, key);
                    assert forall|k: K| has_key(after, k) && k != key implies has_key(before, k) by {
                        let w = choose|w: int| 0 <= w < after.len() && (#[trigger] after[w]).0 == k;
                        assert(before[w].0 == k);
                    }
                    assert(self@ =~= old(self)@.insert(key, value));
                }
            },
        }
    }
}

} // verus!
