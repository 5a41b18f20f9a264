use vstd::prelude::*;

verus! {

/// A map from names to values that remembers the order in which names were
/// first inserted. No name occurs twice.
pub struct NameMap<V> {
    entries: Vec<(String, V)>,
}

/// The name of each entry of an entry sequence.
pub open spec fn entry_keys<V>(es: Seq<(String, V)>) -> Seq<Seq<char>> {
    Seq::new(es.len(), |i: int| es[i].0@)
}

/// No name occurs twice.
pub open spec fn keys_distinct(ks: Seq<Seq<char>>) -> bool {
    forall|i: int, j: int| 0 <= i < ks.len() && 0 <= j < ks.len() && i != j ==> ks[i] != ks[j]
}

/// Pushing onto a sequence adds exactly the pushed element.
pub proof fn lemma_push_contains<A>(s: Seq<A>, x: A)
    ensures
        forall|n: A| #[trigger] s.push(x).contains(n) <==> (s.contains(n) || n == x),
{
    assert forall|n: A| #[trigger] s.push(x).contains(n) <==> (s.contains(n) || n == x) by {
        vstd::seq_lib::lemma_seq_contains_after_push(s, x, n);
    }
}

/// Joining two sequences keeps exactly the elements of both.
pub proof fn lemma_concat_contains<A>(a: Seq<A>, b: Seq<A>)
    ensures
        forall|n: A| #[trigger] (a + b).contains(n) <==> (a.contains(n) || b.contains(n)),
{
    assert forall|n: A| #[trigger] (a + b).contains(n) <==> (a.contains(n) || b.contains(n)) by {
        if a.contains(n) {
            let i = choose|i: int| 0 <= i < a.len() && a[i] == n;
            assert((a + b)[i] == n);
        }
        if b.contains(n) {
            let i = choose|i: int| 0 <= i < b.len() && b[i] == n;
            assert((a + b)[a.len() + i] == n);
        }
        if (a + b).contains(n) {
            let i = choose|i: int| 0 <= i < (a + b).len() && (a + b)[i] == n;
            if i < a.len() {
                assert(a[i] == n);
            } else {
                assert(b[i - a.len()] == n);
            }
        }
    }
}

impl<V> NameMap<V> {
    #[verifier::type_invariant]
    spec fn inv(self) -> bool {
        keys_distinct(entry_keys(self.entries@))
    }

    /// The names in insertion order.
    pub closed spec fn keys(&self) -> Seq<Seq<char>> {
        entry_keys(self.entries@)
    }

    /// The values, in the order of `keys`.
    pub closed spec fn vals(&self) -> Seq<V> {
        Seq::new(self.entries@.len(), |i: int| self.entries@[i].1)
    }

    /// The index of a name among the keys (meaningful when present).
    pub open spec fn index_of(&self, k: Seq<char>) -> int {
        choose|i: int| 0 <= i < self.keys().len() && self.keys()[i] == k
    }

    /// Whether the key is present.
    pub open spec fn has(&self, k: Seq<char>) -> bool {
        exists|i: int| 0 <= i < self.keys().len() && self.keys()[i] == k
    }

    /// The map view.
    pub open spec fn view(&self) -> Map<Seq<char>, V> {
        Map::new(|k: Seq<char>| self.has(k), |k: Seq<char>| self.vals()[self.index_of(k)])
    }

    /// The view at the `i`-th key is the `i`-th value.
    pub proof fn lemma_view_at(&self, i: int)
        requires
            0 <= i < self.keys().len(),
            keys_distinct(self.keys()),
        ensures
            self@.contains_key(self.keys()[i]),
            self@[self.keys()[i]] == self.vals()[i],
            self.index_of(self.keys()[i]) == i,
    {
        assert(self.has(self.keys()[i]));
    }

    /// The number of names is the size of the map's domain.
    pub proof fn lemma_dom_len(&self)
        requires
            keys_distinct(self.keys()),
        ensures
            self@.dom().len() == self.keys().len(),
            self@.dom() == self.keys().to_set(),
    {
        assert forall|k: Seq<char>| self@.dom().contains(k) <==> self.keys().to_set().contains(k) by {
            if self.keys().contains(k) {
                let i = choose|i: int| 0 <= i < self.keys().len() && self.keys()[i] == k;
                assert(self.has(k));
            }
        }
        assert(self@.dom() =~= self.keys().to_set());
        self.keys().unique_seq_to_set();
    }

    /// There is one value per name.
    pub proof fn lemma_lens(&self)
        ensures
            self.vals().len() == self.keys().len(),
    {
    }

    /// An empty map.
    pub fn new() -> (r: Self)
        ensures
            r.keys() == Seq::<Seq<char>>::empty(),
            r.vals() == Seq::<V>::empty(),
            r@ == Map::<Seq<char>, V>::empty(),
            keys_distinct(r.keys()),
    {
        let r = NameMap { entries: Vec::new() };
        assert(r.keys() =~= Seq::<Seq<char>>::empty());
        assert(r.vals() =~= Seq::<V>::empty());
        assert(r@ =~= Map::<Seq<char>, V>::empty());
        r
    }

    /// The number of names (no name occurs twice).
    pub fn len(&self) -> (r: usize)
        ensures
            r == self.keys().len(),
            r == self.vals().len(),
            keys_distinct(self.keys()),
    {
        proof {
            use_type_invariant(self);
        }
        self.entries.len()
    }

    /// The `i`-th name.
    pub fn key_at(&self, i: usize) -> (r: &String)
        requires
            i < self.keys().len(),
        ensures
            r@ == self.keys()[i as int],
    {
        &self.entries[i].0
    }

    /// The `i`-th value.
    pub fn value_at(&self, i: usize) -> (r: &V)
        requires
            i < self.keys().len(),
        ensures
            *r == self.vals()[i as int],
    {
        &self.entries[i].1
    }

    /// The position of a name, if present.
    pub fn find(&self, k: &String) -> (r: Option<usize>)
        ensures
            match r {
                Some(i) => i < self.keys().len() && self.keys()[i as int] == k@ && self.index_of(k@)
                    == i,
                None => !self.has(k@),
            },
            r is Some <==> self@.contains_key(k@),
    {
        proof {
            use_type_invariant(self);
        }
        let mut i: usize = 0;
        while i < self.entries.len()
            invariant
                i <= self.entries.len(),
                keys_distinct(self.keys()),
                forall|j: int| 0 <= j < i ==> self.keys()[j] != k@,
            decreases self.entries.len() - i,
        {
            if self.entries[i].0 == *k {
                proof {
                    assert(self.keys()[i as int] == k@);
                    self.lemma_view_at(i as int);
                }
                return Some(i);
            }
            i += 1;
        }
        None
    }

    /// Whether the name is present.
    pub fn contains_key(&self, k: &String) -> (r: bool)
        ensures
            r == self@.contains_key(k@),
    {
        self.find(k).is_some()
    }

    /// The value of a name, if present.
    pub fn get(&self, k: &String) -> (r: Option<&V>)
        ensures
            match r {
                Some(v) => self@.contains_key(k@) && *v == self@[k@],
                None => !self@.contains_key(k@),
            },
    {
        proof {
            use_type_invariant(self);
        }
        match self.find(k) {
            Some(i) => {
                proof {
                    self.lemma_view_at(i as int);
                }
                Some(&self.entries[i].1)
            },
            None => None,
        }
    }

    /// Sets the value of a name: a present name keeps its position, a new
    /// name goes last.
    pub fn insert(&mut self, k: String, v: V)
        ensures
            final(self)@ == old(self)@.insert(k@, v),
            old(self)@.contains_key(k@) ==> final(self).keys() == old(self).keys()
                && final(self).vals() == old(self).vals().update(old(self).index_of(k@), v),
            !old(self)@.contains_key(k@) ==> final(self).keys() == old(self).keys().push(k@)
                && final(self).vals() == old(self).vals().push(v),
            keys_distinct(final(self).keys()),
    {
        proof {
            use_type_invariant(&*self);
        }
        let pos = self.find(&k);
        match pos {
            Some(i) => {
                let mut es: Vec<(String, V)> = Vec::new();
                std::mem::swap(&mut es, &mut self.entries);
                let ghost kk = k@;
                es.set(i, (k, v));
                proof {
                    assert(entry_keys(es@) =~= entry_keys(old(self).entries@));
                }
                self.entries = es;
                proof {
                    assert(self.keys() =~= old(self).keys());
                    assert(self.vals() =~= old(self).vals().update(i as int, v));
                    self.lemma_view_at(i as int);
                    assert forall|key: Seq<char>| old(self)@.insert(k@, v).contains_key(key) implies #[trigger] self@.contains_key(key) by {
                        if key != k@ {
                            let j = old(self).index_of(key);
                            assert(self.keys()[j] == key);
                        }
                    }
                    assert forall|key: Seq<char>| self@.contains_key(key) implies #[trigger] self@[key]
                        == old(self)@.insert(k@, v)[key] by {
                        let j = self.index_of(key);
                        self.lemma_view_at(j);
                        if key != k@ {
                            old(self).lemma_view_at(j);
                        }
                    }
                    assert(self@ =~= old(self)@.insert(k@, v));
                }
            },
            None => {
                let ghost kk = k@;
                let mut es: Vec<(String, V)> = Vec::new();
                std::mem::swap(&mut es, &mut self.entries);
                es.push((k, v));
                proof {
                    assert(entry_keys(es@) =~= entry_keys(old(self).entries@).push(kk));
                }
                self.entries = es;
                proof {
                    assert(self.keys() =~= old(self).keys().push(kk));
                    assert(self.vals() =~= old(self).vals().push(v));
                    assert forall|key: Seq<char>| old(self)@.insert(kk, v).contains_key(key) implies #[trigger] self@.contains_key(key) by {
                        if key != kk {
                            let j = old(self).index_of(key);
                            assert(self.keys()[j] == key);
                        } else {
                            assert(self.keys()[self.keys().len() - 1] == kk);
                        }
                    }
                    assert forall|key: Seq<char>| self@.contains_key(key) implies #[trigger] self@[key]
                        == old(self)@.insert(kk, v)[key] by {
                        let j = self.index_of(key);
                        self.lemma_view_at(j);
                        if key != kk {
                            old(self).lemma_view_at(j);
                        }
                    }
                    assert(self@ =~= old(self)@.insert(kk, v));
                }
            },
        }
        proof {
            use_type_invariant(&*self);
        }
    }

    /// Replaces the `i`-th value and hands back the previous one.
    pub fn replace_value_at(&mut self, i: usize, v: V) -> (r: V)
        requires
            i < old(self).keys().len(),
        ensures
            r == old(self).vals()[i as int],
            final(self).keys() == old(self).keys(),
            final(self).vals() == old(self).vals().update(i as int, v),
            final(self)@ == old(self)@.insert(old(self).keys()[i as int], v),
    {
        proof {
            use_type_invariant(&*self);
        }
        let ghost k = self.keys()[i as int];
        let ghost old_self = *self;
        let mut es: Vec<(String, V)> = Vec::new();
        std::mem::swap(&mut es, &mut self.entries);
        let mut entry = (String::new(), v);
        std::mem::swap(&mut es[i].1, &mut entry.1);
        proof {
            assert(entry_keys(es@) =~= entry_keys(old(self).entries@));
        }
        self.entries = es;
        proof {
            assert(self.keys() =~= old(self).keys());
            assert(self.vals() =~= old(self).vals().update(i as int, v));
            self.lemma_view_at(i as int);
            assert forall|key: Seq<char>| old(self)@.insert(k, v).contains_key(key) implies #[trigger] self@.contains_key(key) by {
                if key != k {
                    let j = old(self).index_of(key);
                    assert(self.keys()[j] == key);
                }
            }
            assert forall|key: Seq<char>| self@.contains_key(key) implies #[trigger] self@[key]
                == old(self)@.insert(k, v)[key] by {
                let j = self.index_of(key);
                self.lemma_view_at(j);
                if key != k {
                    old(self).lemma_view_at(j);
                }
            }
            assert(self@ =~= old(self)@.insert(k, v));
        }
        entry.1
    }

    /// Removes every name.
    pub fn clear(&mut self)
        ensures
            final(self).keys() == Seq::<Seq<char>>::empty(),
            final(self).vals() == Seq::<V>::empty(),
            final(self)@ == Map::<Seq<char>, V>::empty(),
    {
        self.entries = Vec::new();
        assert(self.keys() =~= Seq::<Seq<char>>::empty());
        assert(self.vals() =~= Seq::<V>::empty());
        assert(self@ =~= Map::<Seq<char>, V>::empty());
    }
}

impl<V: Copy> NameMap<V> {
    /// A copy with the same names, values and order.
    pub fn copy(&self) -> (r: Self)
        ensures
            r.keys() == self.keys(),
            r.vals() == self.vals(),
            r@ == self@,
    {
        proof {
            use_type_invariant(self);
        }
        let mut es: Vec<(String, V)> = Vec::new();
        let mut i: usize = 0;
        while i < self.entries.len()
            invariant
                i <= self.entries.len(),
                es.len() == i,
                forall|j: int| 0 <= j < i ==> (#[trigger] es@[j]).0@ == self.entries@[j].0@ && es@[j].1
                    == self.entries@[j].1,
            decreases self.entries.len() - i,
        {
            let e = (self.entries[i].0.clone(), self.entries[i].1);
            es.push(e);
            i += 1;
        }
        assert(entry_keys(es@) =~= entry_keys(self.entries@));
        let r = NameMap { entries: es };
        assert(r.keys() =~= self.keys());
        assert(r.vals() =~= self.vals());
        assert(r@ =~= self@);
        r
    }
}

} // verus!
