use vstd::prelude::*;

use crate::chars::{text_eq, texts_view};

verus! {

/// A map from text keys to values, kept as a vector of bindings in which no
/// key occurs twice; stands where the application keys a hash map by text.
pub struct TextMap<V> {
    entries: Vec<(String, V)>,
}

impl<V> TextMap<V> {
    /// No key occurs twice.
    #[verifier::type_invariant]
    closed spec fn well_formed(self) -> bool {
        forall|i: int, j: int|
            0 <= i < j < self.entries@.len() ==> #[trigger] self.entries@[i].0@
                != #[trigger] self.entries@[j].0@
    }

    /// The keys, as character sequences, in insertion order.
    pub closed spec fn key_seq(self) -> Seq<Seq<char>> {
        self.entries@.map_values(|e: (String, V)| e.0@)
    }

    /// Whether `k` is a key.
    pub open spec fn has_key(self, k: Seq<char>) -> bool {
        self.key_seq().contains(k)
    }

    /// Position of key `k`.
    closed spec fn index_of(self, k: Seq<char>) -> int {
        choose|i: int| 0 <= i < self.entries@.len() && self.entries@[i].0@ == k
    }

    /// The value bound to `k` (meaningful when `has_key(k)`).
    pub closed spec fn value_of(self, k: Seq<char>) -> V {
        self.entries@[self.index_of(k)].1
    }

    /// The map that this value stands for.
    pub open spec fn as_map(self) -> Map<Seq<char>, V> {
        Map::new(|k: Seq<char>| self.has_key(k), |k: Seq<char>| self.value_of(k))
    }

    proof fn lemma_entry(self, i: int)
        requires
            self.well_formed(),
            0 <= i < self.entries@.len(),
        ensures
            self.has_key(self.entries@[i].0@),
            self.index_of(self.entries@[i].0@) == i,
            self.value_of(self.entries@[i].0@) == self.entries@[i].1,
    {
        let k = self.entries@[i].0@;
        assert(self.key_seq()[i] == k);
        let j = self.index_of(k);
        assert(0 <= j < self.entries@.len() && self.entries@[j].0@ == k);
        if j < i {
            assert(self.entries@[j].0@ != self.entries@[i].0@);
        } else if i < j {
            assert(self.entries@[i].0@ != self.entries@[j].0@);
        }
    }

    proof fn lemma_has_key(self, k: Seq<char>)
        requires
            self.has_key(k),
        ensures
            exists|i: int| 0 <= i < self.entries@.len() && #[trigger] self.entries@[i].0@ == k,
    {
        let j = choose|j: int| 0 <= j < self.key_seq().len() && self.key_seq()[j] == k;
        assert(self.entries@[j].0@ == k);
    }

    /// An empty map.
    pub fn new() -> (m: Self)
        ensures
            m.as_map() == Map::<Seq<char>, V>::empty(),
    {
        let m = TextMap { entries: Vec::new() };
        assert(m.as_map() =~= Map::<Seq<char>, V>::empty());
        m
    }

    /// Position of `key` among the bindings, if it is present.
    fn find(entries: &Vec<(String, V)>, key: &str) -> (r: Option<usize>)
        ensures
            match r {
                Some(i) => i < entries@.len() && entries@[i as int].0@ == key@,
                None => forall|j: int| 0 <= j < entries@.len() ==> entries@[j].0@ != key@,
            },
    {
        let mut i: usize = 0;
        while i < entries.len()
            invariant
                i <= entries@.len(),
                forall|j: int| 0 <= j < i ==> entries@[j].0@ != key@,
            decreases entries@.len() - i,
        {
            if text_eq(entries[i].0.as_str(), key) {
                return Some(i);
            }
            i = i + 1;
        }
        None
    }

    /// The value bound to `key`, if any.
    pub fn get(&self, key: &str) -> (r: Option<&V>)
        ensures
            match r {
                Some(v) => self.as_map().contains_key(key@) && *v == self.as_map()[key@],
                None => !self.as_map().contains_key(key@),
            },
    {
        proof {
            use_type_invariant(self);
        }
        match Self::find(&self.entries, key) {
            Some(i) => {
                proof {
                    self.lemma_entry(i as int);
                }
                Some(&self.entries[i].1)
            },
            None => {
                proof {
                    if self.has_key(key@) {
                        self.lemma_has_key(key@);
                    }
                }
                None
            },
        }
    }

    /// Whether `key` is bound.
    pub fn contains_key(&self, key: &str) -> (r: bool)
        ensures
            r == self.as_map().contains_key(key@),
    {
        self.get(key).is_some()
    }

    /// The keys, in the order in which they were first bound.
    pub fn keys(&self) -> (r: Vec<String>)
        ensures
            texts_view(r@) == self.key_seq(),
    {
        let mut r: Vec<String> = Vec::new();
        let mut i: usize = 0;
        while i < self.entries.len()
            invariant
                i <= self.entries@.len(),
                texts_view(r@) == self.key_seq().take(i as int),
            decreases self.entries@.len() - i,
        {
            let ghost old_r = r@;
            let k = self.entries[i].0.clone();
            assert(k@ == self.entries@[i as int].0@);
            r.push(k);
            proof {
                assert(self.key_seq()[i as int] == self.entries@[i as int].0@);
                assert(texts_view(old_r) =~= self.key_seq().take(i as int));
                assert(r@ == old_r.push(k));
                assert(self.key_seq().len() == self.entries@.len());
                assert(texts_view(old_r).len() == old_r.len());
                assert(old_r.len() == i);
                assert(r@.len() == i + 1);
                assert(texts_view(r@).len() == i + 1);
                assert forall|j: int| 0 <= j < i + 1 implies texts_view(r@)[j] == self.key_seq().take(
                    i + 1,
                )[j] by {
                    if j < i {
                        assert(texts_view(old_r)[j] == self.key_seq().take(i as int)[j]);
                        assert(r@[j] == old_r[j]);
                    } else {
                        assert(r@[j] == k);
                    }
                }
                assert(texts_view(r@) =~= self.key_seq().take(i + 1));
            }
            i = i + 1;
        }
        proof {
            assert(self.key_seq().take(i as int) =~= self.key_seq());
        }
        r
    }

    /// Binds `key` to `value`, replacing an earlier binding of `key`.
    pub fn insert(&mut self, key: String, value: V)
        ensures
            final(self).as_map() == old(self).as_map().insert(key@, value),
    {
        proof {
            use_type_invariant(&*self);
        }
        let ghost old_self = *self;
        let ghost kv = key@;
        let mut entries: Vec<(String, V)> = Vec::new();
        std::mem::swap(&mut entries, &mut self.entries);
        assert(entries@ == old_self.entries@);
        match Self::find(&entries, key.as_str()) {
            Some(i) => {
                entries.set(i, (key, value));
                let new_self = TextMap { entries };
                proof {
                    assert(new_self.key_seq() =~= old_self.key_seq());
                    assert(new_self.well_formed());
                    assert forall|k: Seq<char>| old_self.has_key(k) && k != kv implies
                        #[trigger] new_self.value_of(k) == old_self.value_of(k) by {
                        old_self.lemma_has_key(k);
                        let j = choose|j: int| 0 <= j < old_self.entries@.len() && #[trigger] old_self.entries@[j].0@ == k;
                        old_self.lemma_entry(j);
                        new_self.lemma_entry(j);
                    }
                    new_self.lemma_entry(i as int);
                    assert(new_self.as_map() =~= old_self.as_map().insert(kv, value));
                }
                self.entries = new_self.entries;
            },
            None => {
                entries.push((key, value));
                let new_self = TextMap { entries };
                proof {
                    let n = old_self.entries@.len() as int;
                    assert(new_self.key_seq() =~= old_self.key_seq().push(kv));
                    assert(new_self.well_formed());
                    assert forall|k: Seq<char>| #[trigger]
                        new_self.has_key(k) == (old_self.has_key(k) || k == kv) by {
                        if old_self.has_key(k) {
                            old_self.lemma_has_key(k);
                            let j = choose|j: int| 0 <= j < old_self.entries@.len() && #[trigger] old_self.entries@[j].0@ == k;
                            assert(new_self.key_seq()[j] == k);
                        }
                        if k == kv {
                            assert(new_self.key_seq()[n] == k);
                        }
                        if new_self.has_key(k) && k != kv {
                            new_self.lemma_has_key(k);
                            let j = choose|j: int| 0 <= j < new_self.entries@.len() && #[trigger] new_self.entries@[j].0@ == k;
                            assert(old_self.key_seq()[j] == k);
                        }
                    }
                    assert forall|k: Seq<char>| old_self.has_key(k) && k != kv implies
                        #[trigger] new_self.value_of(k) == old_self.value_of(k) by {
                        old_self.lemma_has_key(k);
                        let j = choose|j: int| 0 <= j < old_self.entries@.len() && #[trigger] old_self.entries@[j].0@ == k;
                        old_self.lemma_entry(j);
                        new_self.lemma_entry(j);
                    }
                    new_self.lemma_entry(n);
                    assert(new_self.as_map() =~= old_self.as_map().insert(kv, value));
                }
                self.entries = new_self.entries;
            },
        }
    }
}

} // verus!
