//! A map from names to values that keeps its keys in ascending order.
use crate::keys::{key_eq, key_less, key_lt, lemma_key_lt_irreflexive, lemma_key_lt_total, lemma_key_lt_transitive};
use vstd::prelude::*;

verus! {

/// Map from `String` keys to values, kept sorted by key, with no key twice.
pub struct StrMap<V> {
    entries: Vec<(String, V)>,
}

impl<V> StrMap<V> {
    /// The keys, in the order in which they are stored.
    pub closed spec fn keys(&self) -> Seq<Seq<char>> {
        self.entries@.map_values(|e: (String, V)| e.0@)
    }

    /// The value stored at position `i`.
    pub closed spec fn value_at_spec(&self, i: int) -> V {
        self.entries@[i].1
    }

    /// Keys strictly ascending; every map of this type satisfies it.
    #[verifier::type_invariant]
    pub closed spec fn wf(&self) -> bool {
        forall|i: int, j: int|
            0 <= i < j < self.entries@.len() ==> key_lt(
                #[trigger] self.entries@[i].0@,
                #[trigger] self.entries@[j].0@,
            )
    }

    /// The contents as a mathematical map.
    pub closed spec fn map(&self) -> Map<Seq<char>, V> {
        Map::new(
            |k: Seq<char>| self.keys().contains(k),
            |k: Seq<char>| self.value_at_spec(self.keys().index_of(k)),
        )
    }

    /// The keys are strictly ascending, each position holds the value that the map
    /// gives its key, and the map holds exactly the stored keys.
    pub proof fn lemma_layout(&self)
        requires
            self.wf(),
        ensures
            forall|i: int, j: int|
                0 <= i < j < self.keys().len() ==> key_lt(
                    #[trigger] self.keys()[i],
                    #[trigger] self.keys()[j],
                ),
            forall|i: int|
                0 <= i < self.keys().len() ==> #[trigger] self.map()[self.keys()[i]]
                    == self.value_at_spec(i),
            forall|k: Seq<char>| #[trigger] self.map().contains_key(k) <==> self.keys().contains(k),
            self.map().dom().finite(),
            self.map().dom().len() == self.keys().len(),
            self.keys().no_duplicates(),
    {
        let ks = self.keys();
        assert forall|i: int, j: int| 0 <= i < j < ks.len() implies key_lt(
            #[trigger] ks[i],
            #[trigger] ks[j],
        ) by {
            assert(ks[i] == self.entries@[i].0@);
            assert(ks[j] == self.entries@[j].0@);
        }
        assert forall|i: int, j: int| 0 <= i < ks.len() && 0 <= j < ks.len() && i != j implies ks[i]
            != ks[j] by {
            if i < j {
                lemma_key_lt_irreflexive(ks[i]);
            } else {
                lemma_key_lt_irreflexive(ks[j]);
            }
        }
        assert(ks.no_duplicates());
        assert forall|i: int| 0 <= i < ks.len() implies #[trigger] self.map()[ks[i]]
            == self.value_at_spec(i) by {
            assert(ks.contains(ks[i]));
            ks.index_of_first_ensures(ks[i]);
            let j = ks.index_of(ks[i]);
            assert(ks[j] == ks[i]);
        }
        ks.unique_seq_to_set();
        assert(self.map().dom() =~= ks.to_set());
        vstd::seq_lib::seq_to_set_is_finite(ks);
    }

    /// An empty map.
    pub fn new() -> (r: Self)
        ensures
            r.keys() == Seq::<Seq<char>>::empty(),
            r.map() == Map::<Seq<char>, V>::empty(),
    {
        let r = StrMap { entries: Vec::new() };
        assert(r.keys() =~= Seq::<Seq<char>>::empty());
        assert(r.map() =~= Map::<Seq<char>, V>::empty());
        r
    }

    /// The number of keys.
    pub fn len(&self) -> (n: usize)
        ensures
            n == self.keys().len(),
            n == self.map().len(),
    {
        proof {
            use_type_invariant(self);
            self.lemma_layout();
        }
        self.entries.len()
    }

    /// The key at position `i`.
    pub fn key_at(&self, i: usize) -> (k: &String)
        requires
            i < self.keys().len(),
        ensures
            k@ == self.keys()[i as int],
    {
        &self.entries[i].0
    }

    /// The value at position `i`.
    pub fn value_at(&self, i: usize) -> (v: &V)
        requires
            i < self.keys().len(),
        ensures
            *v == self.value_at_spec(i as int),
            *v == self.map()[self.keys()[i as int]],
    {
        proof {
            use_type_invariant(self);
            self.lemma_layout();
        }
        &self.entries[i].1
    }

    /// Position of `k` among the keys, if present.
    pub fn find(&self, k: &str) -> (r: Option<usize>)
        ensures
            match r {
                Some(i) => i < self.keys().len() && self.keys()[i as int] == k@,
                None => !self.keys().contains(k@),
            },
            r is Some <==> self.map().contains_key(k@),
    {
        proof {
            use_type_invariant(self);
            self.lemma_layout();
        }
        let mut i: usize = 0;
        while i < self.entries.len()
            invariant
                i <= self.entries@.len(),
                forall|j: int| 0 <= j < i ==> self.keys()[j] != k@,
            decreases self.entries@.len() - i,
        {
            if key_eq(self.entries[i].0.as_str(), k) {
                proof {
                    assert(self.keys()[i as int] == k@);
                    assert(self.keys().contains(k@));
                }
                return Some(i);
            }
            i = i + 1;
        }
        None
    }

    /// The value stored under `k`, if any.
    pub fn get(&self, k: &str) -> (r: Option<&V>)
        ensures
            match r {
                Some(v) => self.map().contains_key(k@) && *v == self.map()[k@],
                None => !self.map().contains_key(k@),
            },
    {
        proof {
            use_type_invariant(self);
            self.lemma_layout();
        }
        match self.find(k) {
            Some(i) => Some(&self.entries[i].1),
            None => None,
        }
    }

    /// Whether `k` is a key.
    pub fn contains_key(&self, k: &str) -> (r: bool)
        ensures
            r == self.map().contains_key(k@),
    {
        self.find(k).is_some()
    }

    /// Stores `v` under `k`, replacing any value stored there.
    pub fn insert(&mut self, k: String, v: V)
        ensures
            final(self).map() == old(self).map().insert(k@, v),
            old(self).keys().contains(k@) ==> final(self).keys() == old(self).keys(),
    {
        proof {
            use_type_invariant(&*self);
            self.lemma_layout();
        }
        let ghost old_entries = self.entries@;
        let ghost old_map = self.map();
        let mut p: usize = 0;
        while p < self.entries.len() && key_less(self.entries[p].0.as_str(), k.as_str())
            invariant
                p <= self.entries@.len(),
                self.entries@ == old_entries,
                forall|j: int| 0 <= j < p ==> key_lt(#[trigger] self.entries@[j].0@, k@),
            decreases self.entries@.len() - p,
        {
            p = p + 1;
        }
        // Every key from `p` on is at least `k`.
        proof {
            assert forall|j: int| p <= j < old_entries.len() implies !key_lt(
                #[trigger] old_entries[j].0@,
                k@,
            ) by {
                if j > p {
                    if key_lt(old_entries[j].0@, k@) {
                        assert(key_lt(old_entries[p as int].0@, old_entries[j].0@));
                        lemma_key_lt_transitive(old_entries[p as int].0@, old_entries[j].0@, k@);
                    }
                }
            }
        }
        if p < self.entries.len() && key_eq(self.entries[p].0.as_str(), k.as_str()) {
            let ghost kk = k@;
            let mut es: Vec<(String, V)> = Vec::new();
            std::mem::swap(&mut es, &mut self.entries);
            es.set(p, (k, v));
            proof {
                                assert forall|i: int, j: int| 0 <= i < j < es@.len() implies key_lt(
                    #[trigger] es@[i].0@,
                    #[trigger] es@[j].0@,
                ) by {
                    assert(es@[i].0@ == old_entries[i].0@);
                    assert(es@[j].0@ == old_entries[j].0@);
                }
            }
            self.entries = es;
            proof {
                use_type_invariant(&*self);
                self.lemma_layout();
                assert(self.keys() =~= old(self).keys());
                assert(old(self).keys()[p as int] == kk);
                assert forall|key: Seq<char>| #[trigger] self.map().contains_key(key)
                    == old_map.insert(kk, v).contains_key(key) by {
                    assert(old_map.contains_key(key) == old(self).keys().contains(key));
                    assert(self.map().contains_key(key) == self.keys().contains(key));
                }
                assert forall|key: Seq<char>| self.map().contains_key(key) implies #[trigger] self.map()[key]
                    == old_map.insert(kk, v)[key] by {
                    let i = self.keys().index_of(key);
                    self.keys().index_of_first_ensures(key);
                    if i != p {
                        assert(self.map()[self.keys()[i]] == self.value_at_spec(i));
                        assert(old_map[old(self).keys()[i]] == old_entries[i].1);
                    }
                }
                assert(self.map() =~= old_map.insert(kk, v));
            }
        } else {
            let ghost kk = k@;
            proof {
                if p < old_entries.len() {
                    assert(old_entries[p as int].0@ != kk);
                    lemma_key_lt_total(old_entries[p as int].0@, kk);
                }
            }
            let mut es: Vec<(String, V)> = Vec::new();
            std::mem::swap(&mut es, &mut self.entries);
            es.insert(p, (k, v));
            proof {
                assert forall|i: int, j: int| 0 <= i < j < es@.len() implies key_lt(
                    #[trigger] es@[i].0@,
                    #[trigger] es@[j].0@,
                ) by {
                    if j == p {
                        assert(es@[i].0@ == old_entries[i].0@);
                    } else if i == p {
                        assert(es@[j].0@ == old_entries[j - 1].0@);
                        if j - 1 > p {
                            assert(key_lt(old_entries[p as int].0@, old_entries[j - 1].0@));
                            lemma_key_lt_transitive(kk, old_entries[p as int].0@, old_entries[j - 1].0@);
                        }
                    } else if j < p {
                        assert(es@[i].0@ == old_entries[i].0@);
                        assert(es@[j].0@ == old_entries[j].0@);
                    } else if i < p {
                        assert(es@[i].0@ == old_entries[i].0@);
                        assert(es@[j].0@ == old_entries[j - 1].0@);
                    } else {
                        assert(es@[i].0@ == old_entries[i - 1].0@);
                        assert(es@[j].0@ == old_entries[j - 1].0@);
                    }
                }
            }
            self.entries = es;
            proof {
                use_type_invariant(&*self);
                self.lemma_layout();
                assert(self.keys() =~= old(self).keys().insert(p as int, kk));
                assert(!old(self).keys().contains(kk)) by {
                    if old(self).keys().contains(kk) {
                        let q = old(self).keys().index_of(kk);
                        old(self).keys().index_of_first_ensures(kk);
                        if q < p {
                            assert(key_lt(old_entries[q].0@, kk));
                            lemma_key_lt_irreflexive(kk);
                        } else if q > p {
                            assert(key_lt(old_entries[p as int].0@, old_entries[q].0@));
                            lemma_key_lt_transitive(kk, old_entries[p as int].0@, old_entries[q].0@);
                            lemma_key_lt_irreflexive(kk);
                        }
                    }
                }
                assert forall|key: Seq<char>| #[trigger] self.map().contains_key(key)
                    == old_map.insert(kk, v).contains_key(key) by {
                    assert(old_map.contains_key(key) == old(self).keys().contains(key));
                    assert(self.map().contains_key(key) == self.keys().contains(key));
                    assert(self.keys()[p as int] == kk);
                    if old(self).keys().contains(key) {
                        let q = old(self).keys().index_of(key);
                        old(self).keys().index_of_first_ensures(key);
                        if q < p {
                            assert(self.keys()[q] == key);
                        } else {
                            assert(self.keys()[q + 1] == key);
                        }
                    }
                    if self.keys().contains(key) {
                        let q = self.keys().index_of(key);
                        self.keys().index_of_first_ensures(key);
                        if q < p {
                            assert(old(self).keys()[q] == key);
                        } else if q > p {
                            assert(old(self).keys()[q - 1] == key);
                        }
                    }
                }
                assert forall|key: Seq<char>| self.map().contains_key(key) implies #[trigger] self.map()[key]
                    == old_map.insert(kk, v)[key] by {
                    let q = self.keys().index_of(key);
                    self.keys().index_of_first_ensures(key);
                    assert(self.map()[self.keys()[q]] == self.value_at_spec(q));
                    if q < p {
                        assert(old_map[old(self).keys()[q]] == old_entries[q].1);
                    } else if q > p {
                        assert(old_map[old(self).keys()[q - 1]] == old_entries[q - 1].1);
                    }
                }
                assert(self.map() =~= old_map.insert(kk, v));
            }
        }
    }
}

impl<V: Copy> StrMap<V> {
    /// A copy of the map.
    pub fn copy(&self) -> (r: Self)
        ensures
            r.keys() == self.keys(),
            r.map() == self.map(),
    {
        proof {
            use_type_invariant(self);
        }
        let mut entries: Vec<(String, V)> = Vec::new();
        let mut i: usize = 0;
        while i < self.entries.len()
            invariant
                i <= self.entries.len(),
                entries@.len() == i,
                forall|j: int| 0 <= j < i ==> #[trigger] entries@[j] == (self.entries@[j].0, self.entries@[j].1),
            decreases self.entries.len() - i,
        {
            let e = &self.entries[i];
            let key = e.0.clone();
            entries.push((key, e.1));
            i = i + 1;
        }
        let r = StrMap { entries };
        assert(r.keys() =~= self.keys());
        assert forall|j: int| 0 <= j < self.entries@.len() implies r.value_at_spec(j) == self.value_at_spec(j) by {
            assert(entries@[j] == (self.entries@[j].0, self.entries@[j].1));
        }
        assert(r.map() =~= self.map());
        r
    }
}

} // verus!
