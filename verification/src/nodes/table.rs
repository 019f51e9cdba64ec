//! A small insertion-ordered map for keys that are compared by their view.

use vstd::prelude::*;

verus! {

/// A key that can be compared by what it stands for.
pub trait Key: View + Sized {
    /// Whether two keys stand for the same value.
    fn same(&self, other: &Self) -> (same: bool)
        ensures
            same == (self@ == other@),
    ;
}

/// The map that lists `values[i]` under `keys[i]`.
pub open spec fn listed<A, B>(keys: Seq<A>, values: Seq<B>) -> Map<A, B> {
    Map::new(|k: A| keys.contains(k), |k: A| values[keys.index_of(k)])
}

/// A list of distinct keys lists a map of as many entries.
pub proof fn lemma_listed_len<A, B>(keys: Seq<A>, values: Seq<B>)
    requires
        keys.no_duplicates(),
    ensures
        listed(keys, values).dom().finite(),
        listed(keys, values).len() == keys.len(),
{
    keys.unique_seq_to_set();
    assert(listed(keys, values).dom() =~= keys.to_set());
}

/// Under the key at place `i` of a list of distinct keys stands the value at
/// place `i`.
pub proof fn lemma_listed_at<A, B>(keys: Seq<A>, values: Seq<B>, i: int)
    requires
        keys.no_duplicates(),
        0 <= i < keys.len(),
    ensures
        listed(keys, values).contains_key(keys[i]),
        listed(keys, values)[keys[i]] == values[i],
        keys.index_of(keys[i]) == i,
{
    assert(keys.contains(keys[i]));
}

/// One more entry of a list adds that entry to what the list holds.
pub proof fn lemma_take_one_more<A>(list: Seq<A>, upto: int)
    requires
        0 <= upto < list.len(),
    ensures
        forall|x: A|
            #[trigger] list.take(upto + 1).contains(x) <==> list.take(upto).contains(x) || x
                == list[upto],
{
    let shorter = list.take(upto);
    let longer = list.take(upto + 1);
    assert forall|x: A| #[trigger] longer.contains(x) <==> shorter.contains(x) || x
        == list[upto] by {
        if shorter.contains(x) {
            let b = choose|b: int| 0 <= b < shorter.len() && shorter[b] == x;
            assert(longer[b] == x);
        }
        if x == list[upto] {
            assert(longer[upto] == x);
        }
        if longer.contains(x) {
            let b = choose|b: int| 0 <= b < longer.len() && longer[b] == x;
            if b < upto {
                assert(shorter[b] == x);
            }
        }
    }
}

/// A map from keys to values that keeps its entries in the order in which
/// their keys first came.
#[derive(Debug)]
pub struct Table<K: Key, V> {
    entries: Vec<(K, V)>,
}

impl<K: Key, V> Table<K, V> {
    /// The keys, in order.
    pub closed spec fn keys(&self) -> Seq<K::V> {
        Seq::new(self.entries@.len(), |i: int| self.entries@[i].0@)
    }

    /// The values, in the order of their keys.
    pub closed spec fn values(&self) -> Seq<V> {
        Seq::new(self.entries@.len(), |i: int| self.entries@[i].1)
    }

    /// No key is listed twice.
    #[verifier::type_invariant]
    pub open spec fn distinct(&self) -> bool {
        self.keys().no_duplicates()
    }

    /// There are as many values as keys, and the view lists them.
    pub proof fn lemma_layout(&self)
        ensures
            self.values().len() == self.keys().len(),
            self@ == listed(self.keys(), self.values()),
    {
    }

    /// The empty table.
    pub fn new() -> (table: Self)
        ensures
            table@ == Map::<K::V, V>::empty(),
            table.keys() == Seq::<K::V>::empty(),
    {
        let table = Table { entries: Vec::new() };
        proof {
            assert(table.keys() =~= Seq::<K::V>::empty());
            assert(table@ =~= Map::<K::V, V>::empty());
        }
        table
    }

    /// The number of entries.
    pub fn len(&self) -> (n: usize)
        ensures
            n == self.keys().len(),
            n == self@.len(),
    {
        proof {
            use_type_invariant(self);
            lemma_listed_len(self.keys(), self.values());
        }
        self.entries.len()
    }

    /// The place of `key` among the keys, if it is listed.
    pub fn index_of(&self, key: &K) -> (at: Option<usize>)
        ensures
            match at {
                Some(i) => i < self.keys().len() && self.keys()[i as int] == key@,
                None => !self.keys().contains(key@),
            },
    {
        let mut i: usize = 0;
        while i < self.entries.len()
            invariant
                i <= self.entries.len(),
                forall|j: int| 0 <= j < i ==> self.keys()[j] != key@,
            decreases self.entries.len() - i,
        {
            if self.entries[i].0.same(key) {
                return Some(i);
            }
            i += 1;
        }
        None
    }

    /// The key at place `i`.
    pub fn key_at(&self, i: usize) -> (key: &K)
        requires
            i < self.keys().len(),
        ensures
            key@ == self.keys()[i as int],
    {
        &self.entries[i].0
    }

    /// The value at place `i`.
    pub fn value_at(&self, i: usize) -> (value: &V)
        requires
            i < self.keys().len(),
        ensures
            *value == self.values()[i as int],
    {
        &self.entries[i].1
    }

    /// Whether `key` is listed.
    pub fn contains_key(&self, key: &K) -> (found: bool)
        ensures
            found == self@.contains_key(key@),
    {
        self.index_of(key).is_some()
    }

    /// The value listed under `key`.
    pub fn get(&self, key: &K) -> (value: Option<&V>)
        ensures
            value == (if self@.contains_key(key@) {
                Some(&self@[key@])
            } else {
                None
            }),
    {
        proof {
            use_type_invariant(self);
        }
        match self.index_of(key) {
            Some(i) => Some(&self.entries[i].1),
            None => None,
        }
    }

    /// Lists `value` under `key`. A key that is listed keeps its place and
    /// hands back the value it had; a new key goes to the end.
    pub fn insert(&mut self, key: K, value: V) -> (before: Option<V>)
        ensures
            final(self)@ == old(self)@.insert(key@, value),
            before == (if old(self)@.contains_key(key@) {
                Some(old(self)@[key@])
            } else {
                None
            }),
            final(self).keys() == (if old(self)@.contains_key(key@) {
                old(self).keys()
            } else {
                old(self).keys().push(key@)
            }),
    {
        proof {
            use_type_invariant(&*self);
        }
        let found = self.index_of(&key);
        let mut entries: Vec<(K, V)> = Vec::new();
        std::mem::swap(&mut entries, &mut self.entries);
        let before = match found {
            Some(i) => {
                entries.push((key, value));
                let (_, before) = entries.swap_remove(i);
                Some(before)
            },
            None => {
                entries.push((key, value));
                None
            },
        };
        proof {
            let keys = Seq::new(entries@.len(), |i: int| entries@[i].0@);
            if found is Some {
                assert(keys =~= old(self).keys());
            } else {
                assert(keys =~= old(self).keys().push(key@));
            }
        }
        self.entries = entries;
        proof {
            let before_map = old(self)@;
            let keys = self.keys();
            let values = self.values();
            assert forall|k: K::V| #[trigger] self@.contains_key(k) implies before_map.insert(
                key@,
                value,
            ).contains_key(k) && before_map.insert(key@, value)[k] == self@[k] by {
                let j = keys.index_of(k);
                lemma_listed_at(keys, values, j);
                if k != key@ {
                    assert(old(self).keys()[j] == k);
                    lemma_listed_at(old(self).keys(), old(self).values(), j);
                }
            }
            assert forall|k: K::V| #[trigger]
                before_map.insert(key@, value).contains_key(k) implies self@.contains_key(k) by {
                if k != key@ {
                    let j = old(self).keys().index_of(k);
                    assert(keys[j] == k);
                } else {
                    match found {
                        Some(i) => {
                            assert(keys[i as int] == k);
                        },
                        None => {
                            assert(keys[keys.len() - 1] == k);
                        },
                    }
                }
            }
            assert(self@ =~= before_map.insert(key@, value));
        }
        before
    }

    /// Takes the entry of `key` out; the other entries keep their order.
    pub fn remove(&mut self, key: &K) -> (before: Option<V>)
        ensures
            final(self)@ == old(self)@.remove(key@),
            before == (if old(self)@.contains_key(key@) {
                Some(old(self)@[key@])
            } else {
                None
            }),
            final(self).keys() == (if old(self)@.contains_key(key@) {
                old(self).keys().remove(old(self).keys().index_of(key@))
            } else {
                old(self).keys()
            }),
    {
        proof {
            use_type_invariant(&*self);
        }
        let found = self.index_of(key);
        let mut entries: Vec<(K, V)> = Vec::new();
        std::mem::swap(&mut entries, &mut self.entries);
        let before = match found {
            Some(i) => {
                let (_, before) = entries.remove(i);
                Some(before)
            },
            None => None,
        };
        proof {
            let keys = Seq::new(entries@.len(), |i: int| entries@[i].0@);
            match found {
                Some(i) => {
                    assert(keys =~= old(self).keys().remove(i as int));
                },
                None => {
                    assert(keys =~= old(self).keys());
                },
            }
        }
        self.entries = entries;
        proof {
            let before_map = old(self)@;
            let before_keys = old(self).keys();
            let keys = self.keys();
            let values = self.values();
            assert forall|k: K::V| #[trigger] self@.contains_key(k) implies before_map.remove(
                key@,
            ).contains_key(k) && before_map.remove(key@)[k] == self@[k] by {
                let j = keys.index_of(k);
                lemma_listed_at(keys, values, j);
                match found {
                    Some(i) => {
                        let j0 = if j < i { j } else { j + 1 };
                        assert(before_keys[j0] == k);
                        lemma_listed_at(before_keys, old(self).values(), j0);
                    },
                    None => {
                        lemma_listed_at(before_keys, old(self).values(), j);
                    },
                }
            }
            assert forall|k: K::V| #[trigger]
                before_map.remove(key@).contains_key(k) implies self@.contains_key(k) by {
                let j0 = before_keys.index_of(k);
                match found {
                    Some(i) => {
                        let j = if j0 < i { j0 } else { j0 - 1 };
                        assert(keys[j] == k);
                    },
                    None => {
                        assert(keys[j0] == k);
                    },
                }
            }
            assert(self@ =~= before_map.remove(key@));
        }
        before
    }
}

impl<K: Key, V> View for Table<K, V> {
    type V = Map<K::V, V>;

    closed spec fn view(&self) -> Map<K::V, V> {
        listed(self.keys(), self.values())
    }
}

} // verus!
