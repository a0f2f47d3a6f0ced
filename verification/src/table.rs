//! A small keyed store: at most one value under each key, found by scanning.

use vstd::prelude::*;

verus! {

/// A key of a [`Table`]: a value that can be copied and compared.
pub trait Identifier: Copy + Sized {
    /// Whether two keys are the same key.
    fn same(&self, other: &Self) -> (same: bool)
        ensures
            same == (*self == *other),
    ;
}

/// A finite map from keys to values. Contracts speak of it through its view:
/// the map from each key to the view of the value stored under it.
#[derive(Debug)]
pub struct Table<K: Identifier, V: View> {
    entries: Vec<(K, V)>,
}

/// The keys of a sequence of entries, in its order.
pub closed spec fn keys_of<K, V>(entries: Seq<(K, V)>) -> Seq<K> {
    entries.map_values(|entry: (K, V)| entry.0)
}

/// The position of a key in a sequence of keys that holds it.
pub closed spec fn position<K>(keys: Seq<K>, key: K) -> int {
    choose|i: int| 0 <= i < keys.len() && keys[i] == key
}

impl<K: Identifier, V: View> View for Table<K, V> {
    type V = Map<K, V::V>;

    closed spec fn view(&self) -> Map<K, V::V> {
        Map::new(
            |key: K| self.order().contains(key),
            |key: K| self.entries@[position(self.order(), key)].1@,
        )
    }
}

impl<K: Identifier, V: View> Table<K, V> {
    /// The keys in the order in which the table holds them.
    pub closed spec fn order(&self) -> Seq<K> {
        keys_of(self.entries@)
    }

    #[verifier::type_invariant]
    closed spec fn distinct(&self) -> bool {
        self.order().no_duplicates()
    }

    /// What the order of the keys has to do with the view: it lists the
    /// view's keys, each once.
    pub proof fn lemma_order(&self)
        requires
            self.order().no_duplicates(),
        ensures
            self@.dom() == self.order().to_set(),
            self@.dom().finite(),
            self@.dom().len() == self.order().len(),
    {
        assert(self@.dom() =~= self.order().to_set());
        self.order().unique_seq_to_set();
    }

    proof fn lemma_entry(&self, i: int)
        requires
            self.order().no_duplicates(),
            0 <= i < self.entries@.len(),
        ensures
            self@.contains_key(self.entries@[i].0),
            self@[self.entries@[i].0] == self.entries@[i].1@,
            position(self.order(), self.entries@[i].0) == i,
    {
        let keys = self.order();
        assert(keys[i] == self.entries@[i].0);
        let p = position(keys, keys[i]);
        assert(0 <= p < keys.len() && keys[p] == keys[i]);
    }

    /// An empty table.
    pub fn new() -> (table: Self)
        ensures
            table@ == Map::<K, V::V>::empty(),
            table.order() == Seq::<K>::empty(),
    {
        let table = Table { entries: Vec::new() };
        assert(table.order() =~= Seq::<K>::empty());
        assert(table@ =~= Map::<K, V::V>::empty());
        table
    }

    /// The number of keys.
    pub fn len(&self) -> (len: usize)
        ensures
            len == self@.dom().len(),
            len == self.order().len(),
            self@.dom().finite(),
    {
        proof {
            use_type_invariant(self);
            self.lemma_order();
        }
        self.entries.len()
    }

    fn find(&self, key: &K) -> (found: Option<usize>)
        ensures
            match found {
                Some(i) => i < self.entries@.len() && self.entries@[i as int].0 == *key,
                None => !self.order().contains(*key),
            },
    {
        let mut i: usize = 0;
        while i < self.entries.len()
            invariant
                i <= self.entries@.len(),
                forall|j: int| 0 <= j < i ==> self.order()[j] != *key,
            decreases self.entries@.len() - i,
        {
            if self.entries[i].0.same(key) {
                return Some(i);
            }
            i += 1;
        }
        None
    }

    /// Whether a value is stored under the key.
    pub fn contains_key(&self, key: &K) -> (found: bool)
        ensures
            found == self@.contains_key(*key),
    {
        let found = self.find(key);
        proof {
            if let Some(i) = found {
                assert(self.order()[i as int] == *key);
            }
        }
        found.is_some()
    }

    /// The value stored under the key, if there is one.
    pub fn get(&self, key: &K) -> (value: Option<&V>)
        ensures
            match value {
                Some(v) => self@.contains_key(*key) && self@[*key] == v@,
                None => !self@.contains_key(*key),
            },
    {
        match self.find(key) {
            Some(i) => {
                proof {
                    use_type_invariant(self);
                    self.lemma_entry(i as int);
                }
                Some(&self.entries[i].1)
            },
            None => None,
        }
    }

    /// The key at a position in the table's order.
    pub fn key_at(&self, i: usize) -> (key: K)
        requires
            i < self.order().len(),
        ensures
            key == self.order()[i as int],
            self@.contains_key(key),
    {
        proof {
            use_type_invariant(self);
            self.lemma_entry(i as int);
        }
        self.entries[i].0
    }

    /// The value at a position in the table's order.
    pub fn value_at(&self, i: usize) -> (value: &V)
        requires
            i < self.order().len(),
        ensures
            self@.contains_key(self.order()[i as int]),
            value@ == self@[self.order()[i as int]],
    {
        proof {
            use_type_invariant(self);
            self.lemma_entry(i as int);
        }
        &self.entries[i].1
    }

    /// Stores a value under a key, in place of the one that was there, if any.
    pub fn insert(&mut self, key: K, value: V)
        ensures
            final(self)@ == old(self)@.insert(key, value@),
    {
        proof {
            use_type_invariant(&*self);
        }
        let ghost before = *self;
        match self.find(&key) {
            Some(i) => {
                let mut entries: Vec<(K, V)> = Vec::new();
                core::mem::swap(&mut self.entries, &mut entries);
                entries[i] = (key, value);
                assert(keys_of(entries@) =~= before.order());
                self.entries = entries;
                proof {
                    assert(self.order() =~= before.order());
                    assert(before.order()[i as int] == key);
                    assert forall|k: K| self@.contains_key(k) implies #[trigger] self@[k]
                        == before@.insert(key, value@)[k] by {
                        let p = position(self.order(), k);
                        before.lemma_entry(p);
                        before.lemma_entry(i as int);
                    }
                    assert(self@ =~= before@.insert(key, value@));
                }
            },
            None => {
                let mut entries: Vec<(K, V)> = Vec::new();
                core::mem::swap(&mut self.entries, &mut entries);
                entries.push((key, value));
                assert(keys_of(entries@) =~= before.order().push(key));
                self.entries = entries;
                proof {
                    assert(self.order() =~= before.order().push(key));
                    let n = before.entries@.len() as int;
                    assert forall|k: K| self@.contains_key(k) implies #[trigger] self@[k]
                        == before@.insert(key, value@)[k] by {
                        let p = position(self.order(), k);
                        if p < n {
                            before.lemma_entry(p);
                        }
                    }
                    assert forall|k: K| before@.insert(key, value@).contains_key(k) implies self@.contains_key(k) by {
                        if k == key {
                            assert(self.order()[n] == key);
                        } else {
                            let p = position(before.order(), k);
                            assert(self.order()[p] == k);
                        }
                    }
                    assert(self@ =~= before@.insert(key, value@));
                }
            },
        }
    }

    /// Takes the value stored under a key out of the table, if there is one.
    pub fn remove(&mut self, key: &K) -> (value: Option<V>)
        ensures
            final(self)@ == old(self)@.remove(*key),
            match value {
                Some(v) => old(self)@.contains_key(*key) && old(self)@[*key] == v@,
                None => !old(self)@.contains_key(*key),
            },
    {
        proof {
            use_type_invariant(&*self);
        }
        let ghost before = *self;
        match self.find(key) {
            Some(i) => {
                let mut entries: Vec<(K, V)> = Vec::new();
                core::mem::swap(&mut self.entries, &mut entries);
                let entry = entries.remove(i);
                proof {
                    assert(keys_of(entries@) =~= before.order().remove(i as int));
                    before.order().remove_ensures(i as int);
                }
                self.entries = entries;
                proof {
                    before.lemma_entry(i as int);
                    assert(self.order() =~= before.order().remove(i as int));
                    assert forall|k: K| self@.contains_key(k) implies before@.remove(*key).contains_key(k)
                        && #[trigger] self@[k] == before@.remove(*key)[k] by {
                        let p = position(self.order(), k);
                        let q = if p < i { p } else { p + 1 };
                        before.lemma_entry(q);
                    }
                    assert forall|k: K| before@.remove(*key).contains_key(k) implies self@.contains_key(k) by {
                        let q = position(before.order(), k);
                        before.lemma_entry(q);
                        let p = if q < i { q } else { q - 1 };
                        assert(self.order()[p] == k);
                    }
                    assert(self@ =~= before@.remove(*key));
                }
                Some(entry.1)
            },
            None => {
                assert(self@ =~= before@.remove(*key));
                None
            },
        }
    }

    /// The keys, in the order in which the table holds them.
    pub fn keys(&self) -> (keys: Vec<K>)
        ensures
            keys@ == self.order(),
            keys@.no_duplicates(),
            keys@.to_set() == self@.dom(),
    {
        proof {
            use_type_invariant(self);
            self.lemma_order();
        }
        let mut keys: Vec<K> = Vec::new();
        let mut i: usize = 0;
        while i < self.entries.len()
            invariant
                i <= self.entries@.len(),
                keys@ == self.order().subrange(0, i as int),
            decreases self.entries@.len() - i,
        {
            keys.push(self.entries[i].0);
            assert(keys@ =~= self.order().subrange(0, i + 1));
            i += 1;
        }
        assert(keys@ =~= self.order());
        keys
    }

    /// Moves what is stored under the listed keys into another table, in
    /// place of what that table held under them.
    pub fn move_to(&mut self, to: &mut Table<K, V>, keys: &Vec<K>)
        ensures
            final(self)@ == old(self)@.remove_keys(keys@.to_set()),
            final(to)@ == old(to)@.union_prefer_right(old(self)@.restrict(keys@.to_set())),
    {
        let ghost from = self@;
        let ghost into = to@;
        let mut i: usize = 0;
        proof {
            assert(self@ =~= from.remove_keys(keys@.subrange(0, 0).to_set()));
            assert(to@ =~= into.union_prefer_right(from.restrict(keys@.subrange(0, 0).to_set())));
        }
        while i < keys.len()
            invariant
                i <= keys@.len(),
                self@ == from.remove_keys(keys@.subrange(0, i as int).to_set()),
                to@ == into.union_prefer_right(
                    from.restrict(keys@.subrange(0, i as int).to_set()),
                ),
            decreases keys@.len() - i,
        {
            let key = keys[i];
            let ghost seen = keys@.subrange(0, i as int).to_set();
            let ghost next = keys@.subrange(0, i + 1).to_set();
            proof {
                let short = keys@.subrange(0, i as int);
                let long = keys@.subrange(0, i + 1);
                assert forall|x: K| next.contains(x) <==> seen.contains(x) || x == key by {
                    if next.contains(x) {
                        let k = choose|k: int| 0 <= k < long.len() && long[k] == x;
                        if k < i {
                            assert(short[k] == x);
                        }
                    }
                    if seen.contains(x) {
                        let k = choose|k: int| 0 <= k < short.len() && short[k] == x;
                        assert(long[k] == x);
                    }
                    if x == key {
                        assert(long[i as int] == x);
                    }
                }
            }
            match self.remove(&key) {
                Some(value) => {
                    to.insert(key, value);
                },
                None => {},
            }
            proof {
                assert(self@ =~= from.remove_keys(next));
                assert(to@ =~= into.union_prefer_right(from.restrict(next)));
            }
            i += 1;
        }
        assert(keys@.subrange(0, i as int) =~= keys@);
    }
}

} // verus!
