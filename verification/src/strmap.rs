//! A map from strings to values that keeps its keys in the order in which
//! they were first inserted.

use vstd::prelude::*;

verus! {

/// A finite map keyed by strings. Its view is the mathematical map from each
/// key's characters to the view of its value; `keys` gives the keys in
/// insertion order.
#[derive(Debug)]
pub struct StrMap<V> {
    entries: Vec<(String, V)>,
}

/// The keys after `k` was inserted: unchanged where `k` was a key, else with
/// `k` at the end.
pub open spec fn keys_with(keys: Seq<Seq<char>>, k: Seq<char>) -> Seq<Seq<char>> {
    if keys.contains(k) {
        keys
    } else {
        keys.push(k)
    }
}

/// The keys after `k` was removed, the others in their order.
pub open spec fn keys_without(keys: Seq<Seq<char>>, k: Seq<char>) -> Seq<Seq<char>> {
    if keys.contains(k) {
        keys.remove(keys.index_of(k))
    } else {
        keys
    }
}

/// What an ordered map holds: its keys in order, and the value of each.
pub struct Table<T> {
    pub keys: Seq<Seq<char>>,
    pub map: Map<Seq<char>, T>,
}

impl<T> Table<T> {
    /// The table without keys.
    pub open spec fn empty() -> Table<T> {
        Table { keys: Seq::empty(), map: Map::empty() }
    }

    /// The table after `k` was given the value `v`.
    pub open spec fn insert(self, k: Seq<char>, v: T) -> Table<T> {
        Table { keys: keys_with(self.keys, k), map: self.map.insert(k, v) }
    }

    /// The table after `k` was removed.
    pub open spec fn remove(self, k: Seq<char>) -> Table<T> {
        Table { keys: keys_without(self.keys, k), map: self.map.remove(k) }
    }
}

impl<V> StrMap<V> {
    /// The keys, in the order in which they were first inserted.
    pub closed spec fn keys(&self) -> Seq<Seq<char>> {
        Seq::new(self.entries@.len(), |i: int| self.entries@[i].0@)
    }

    #[verifier::type_invariant]
    spec fn distinct(&self) -> bool {
        self.keys().no_duplicates()
    }

    spec fn slot(&self, k: Seq<char>) -> int {
        choose|i: int| 0 <= i < self.entries@.len() && self.entries@[i].0@ == k
    }
}

impl<V: View> View for StrMap<V> {
    type V = Map<Seq<char>, V::V>;

    closed spec fn view(&self) -> Map<Seq<char>, V::V> {
        Map::new(|k: Seq<char>| self.keys().contains(k), |k: Seq<char>| self.entries@[self.slot(k)].1@)
    }
}

impl<V: View> StrMap<V> {
    /// Keys and values together.
    pub open spec fn table(&self) -> Table<V::V> {
        Table { keys: self.keys(), map: self@ }
    }

    /// The empty map.
    pub fn new() -> (m: Self)
        ensures
            m@ == Map::<Seq<char>, V::V>::empty(),
            m.keys() == Seq::<Seq<char>>::empty(),
    {
        let m = StrMap { entries: Vec::new() };
        assert(m@ =~= Map::<Seq<char>, V::V>::empty());
        assert(m.keys() =~= Seq::<Seq<char>>::empty());
        m
    }

    /// The number of keys. The keys are distinct, and they are the domain of
    /// the view.
    pub fn len(&self) -> (n: usize)
        ensures
            n == self.keys().len(),
            self.keys().no_duplicates(),
            forall|k: Seq<char>| self@.contains_key(k) <==> self.keys().contains(k),
            self@.dom().finite(),
            self@.dom().len() == n,
    {
        proof {
            use_type_invariant(self);
            self.keys().unique_seq_to_set();
            assert(self@.dom() =~= self.keys().to_set());
        }
        self.entries.len()
    }

    /// The key at position `i` of `keys`.
    pub fn key_at(&self, i: usize) -> (k: &String)
        requires
            i < self.keys().len(),
        ensures
            k@ == self.keys()[i as int],
            self@.contains_key(k@),
    {
        &self.entries[i].0
    }

    /// The value of the key at position `i` of `keys`.
    pub fn value_at(&self, i: usize) -> (v: &V)
        requires
            i < self.keys().len(),
        ensures
            self@.contains_key(self.keys()[i as int]),
            v@ == self@[self.keys()[i as int]],
    {
        proof {
            use_type_invariant(self);
            let k = self.keys()[i as int];
            assert(self.entries@[i as int].0@ == k);
            assert(self.entries@[self.slot(k)].0@ == k);
            assert(self.keys()[self.slot(k)] == k);
        }
        &self.entries[i].1
    }

    /// The position of `k` among the keys.
    pub fn position(&self, k: &str) -> (at: Option<usize>)
        ensures
            at is Some <==> self@.contains_key(k@),
            at matches Some(i) ==> i < self.keys().len() && self.keys()[i as int] == k@,
    {
        let mut i: usize = 0;
        while i < self.entries.len()
            invariant
                i <= self.entries@.len(),
                forall|j: int| 0 <= j < i ==> self.keys()[j] != k@,
            decreases self.entries@.len() - i,
        {
            if self.entries[i].0.as_str().eq(k) {
                assert(self.keys()[i as int] == k@);
                return Some(i);
            }
            i += 1;
        }
        None
    }

    /// Whether `k` is a key.
    pub fn contains_key(&self, k: &str) -> (r: bool)
        ensures
            r == self@.contains_key(k@),
    {
        self.position(k).is_some()
    }

    /// The value of `k`, if `k` is a key.
    pub fn get(&self, k: &str) -> (r: Option<&V>)
        ensures
            r is Some <==> self@.contains_key(k@),
            r matches Some(v) ==> v@ == self@[k@],
    {
        match self.position(k) {
            Some(i) => Some(self.value_at(i)),
            None => None,
        }
    }

    /// Gives `k` the value `v`, whether or not `k` was a key.
    pub fn insert(&mut self, k: String, v: V)
        ensures
            final(self)@ == old(self)@.insert(k@, v@),
            final(self).keys() == keys_with(old(self).keys(), k@),
    {
        proof {
            use_type_invariant(&*self);
        }
        let at = self.position(k.as_str());
        let ghost before = *self;
        let ghost kv = k@;
        let ghost vv = v@;
        let mut entries: Vec<(String, V)> = Vec::new();
        std::mem::swap(&mut entries, &mut self.entries);
        match at {
            Some(i) => {
                entries.set(i, (k, v));
            },
            None => {
                entries.push((k, v));
            },
        }
        let ghost after = StrMap { entries };
        proof {
            assert(after.keys() =~= keys_with(before.keys(), kv));
            assert forall|x: Seq<char>| #[trigger] after.keys().contains(x) implies after.entries@[after.slot(
                x,
            )].1@ == before@.insert(kv, vv)[x] by {
                let j = after.slot(x);
                assert(after.keys()[j] == x);
                if x == kv {
                    match at {
                        Some(i) => {
                            assert(after.keys()[i as int] == x);
                        },
                        None => {
                            assert(after.keys()[before.keys().len() as int] == x);
                        },
                    }
                } else {
                    assert(before.keys()[j] == x);
                    assert(before.keys()[before.slot(x)] == x);
                }
            }
            assert forall|x: Seq<char>| before.keys().contains(x) || x == kv implies #[trigger]
                after.keys().contains(x) by {
                if before.keys().contains(x) {
                    let j = choose|j: int| 0 <= j < before.keys().len() && before.keys()[j] == x;
                    assert(after.keys()[j] == x);
                } else {
                    match at {
                        Some(i) => {
                            assert(after.keys()[i as int] == x);
                        },
                        None => {
                            assert(after.keys()[before.keys().len() as int] == x);
                        },
                    }
                }
            }
            assert forall|x: Seq<char>| #[trigger] after.keys().contains(x) implies before.keys().contains(
                x,
            ) || x == kv by {
                let j = choose|j: int| 0 <= j < after.keys().len() && after.keys()[j] == x;
                if j < before.keys().len() && x != kv {
                    assert(before.keys()[j] == x);
                }
            }
            assert(after@ =~= before@.insert(kv, vv));
        }
        self.entries = entries;
    }

    /// Removes `k` and its value, if `k` is a key.
    pub fn remove(&mut self, k: &str)
        ensures
            final(self)@ == old(self)@.remove(k@),
            final(self).keys() == keys_without(old(self).keys(), k@),
    {
        proof {
            use_type_invariant(&*self);
        }
        let at = self.position(k);
        let ghost before = *self;
        match at {
            Some(i) => {
                let mut entries: Vec<(String, V)> = Vec::new();
                std::mem::swap(&mut entries, &mut self.entries);
                let _ = entries.remove(i);
                let ghost after = StrMap { entries };
                proof {
                    let keys = before.keys();
                    assert(keys.index_of(k@) == i);
                    assert(after.keys() =~= keys.remove(i as int));
                    assert forall|x: Seq<char>| #[trigger]
                        after.keys().contains(x) implies after.entries@[after.slot(x)].1@
                        == before@.remove(k@)[x] && x != k@ && before.keys().contains(x) by {
                        let j = after.slot(x);
                        assert(after.keys()[j] == x);
                        let j0 = if j < i { j } else { j + 1 };
                        assert(keys[j0] == x);
                        assert(keys[before.slot(x)] == x);
                    }
                    assert forall|x: Seq<char>| x != k@ && before.keys().contains(
                        x,
                    ) implies #[trigger] after.keys().contains(x) by {
                        let j0 = choose|j0: int| 0 <= j0 < keys.len() && keys[j0] == x;
                        let j = if j0 < i { j0 } else { j0 - 1 };
                        assert(after.keys()[j] == x);
                    }
                    assert(after@ =~= before@.remove(k@));
                }
                self.entries = entries;
            },
            None => {
                assert(self@ =~= before@.remove(k@));
            },
        }
    }
}

} // verus!
