//! A map from string keys to values, kept as two vectors.
use vstd::prelude::*;
use crate::text::{chars_eq, chars_of};

verus! {

/// Values filed under string keys; each key appears once.
#[derive(Debug)]
pub struct KeyedStore<T> {
    keys: Vec<String>,
    values: Vec<T>,
}

/// The index of key `k` in `keys`.
pub open spec fn index_of_key(keys: Seq<String>, k: Seq<char>) -> int {
    choose|i: int| 0 <= i < keys.len() && keys[i]@ == k
}

/// No key appears twice.
pub open spec fn keys_unique(keys: Seq<String>) -> bool {
    forall|i: int, j: int| 0 <= i < keys.len() && 0 <= j < keys.len() && i != j ==> keys[i]@ != keys[j]@
}

proof fn lemma_index_of_key(keys: Seq<String>, k: Seq<char>, i: int)
    requires
        keys_unique(keys),
        0 <= i < keys.len(),
        keys[i]@ == k,
    ensures
        index_of_key(keys, k) == i,
{
    let j = index_of_key(keys, k);
    assert(0 <= j < keys.len() && keys[j]@ == k);
}

impl<T> KeyedStore<T> {
    /// The store is well formed: as many keys as values, no key twice.
    pub closed spec fn wf(&self) -> bool {
        &&& self.keys@.len() == self.values@.len()
        &&& keys_unique(self.keys@)
    }

    /// The store as a map.
    pub closed spec fn view(&self) -> Map<Seq<char>, T> {
        Map::new(
            |k: Seq<char>| exists|i: int| 0 <= i < self.keys@.len() && self.keys@[i]@ == k,
            |k: Seq<char>| self.values@[index_of_key(self.keys@, k)],
        )
    }

    /// An empty store.
    pub fn new() -> (r: Self)
        ensures
            r.wf(),
            r.view() == Map::<Seq<char>, T>::empty(),
    {
        let r = KeyedStore { keys: Vec::new(), values: Vec::new() };
        assert(r.view() =~= Map::<Seq<char>, T>::empty());
        r
    }

    /// The index of key `k`.
    fn find(&self, k: &Vec<char>) -> (r: Option<usize>)
        requires
            self.wf(),
        ensures
            r matches Some(i) ==> i < self.keys@.len() && self.keys@[i as int]@ == k@,
            r is None ==> forall|i: int| 0 <= i < self.keys@.len() ==> self.keys@[i]@ != k@,
    {
        let mut i: usize = 0;
        while i < self.keys.len()
            invariant
                i <= self.keys.len(),
                forall|j: int| 0 <= j < i ==> self.keys@[j]@ != k@,
            decreases self.keys.len() - i,
        {
            let kv = chars_of(self.keys[i].as_str());
            if chars_eq(&kv, k) {
                return Some(i);
            }
            i = i + 1;
        }
        None
    }

    /// Whether key `k` has a value.
    pub fn contains_key(&self, k: &str) -> (r: bool)
        requires
            self.wf(),
        ensures
            r == self.view().contains_key(k@),
    {
        let kv = chars_of(k);
        let r = self.find(&kv);
        r.is_some()
    }

    /// The value filed under `k`.
    pub fn get(&self, k: &str) -> (r: Option<&T>)
        requires
            self.wf(),
        ensures
            r == (if self.view().contains_key(k@) { Some(&self.view()[k@]) } else { None }),
    {
        let kv = chars_of(k);
        match self.find(&kv) {
            Some(i) => {
                proof { lemma_index_of_key(self.keys@, k@, i as int); }
                Some(&self.values[i])
            },
            None => None,
        }
    }

    /// Files `v` under `k`, replacing any value there.
    pub fn insert(&mut self, k: String, v: T)
        requires
            old(self).wf(),
        ensures
            final(self).wf(),
            final(self).view() == old(self).view().insert(k@, v),
    {
        let kv = chars_of(k.as_str());
        let ghost old_keys = self.keys@;
        let ghost old_values = self.values@;
        match self.find(&kv) {
            Some(i) => {
                self.values.set(i, v);
                proof {
                    lemma_index_of_key(self.keys@, k@, i as int);
                    assert forall|key: Seq<char>| #[trigger] self.view().contains_key(key) && key != k@
                        implies self.view()[key] == old_values[index_of_key(old_keys, key)] by {
                        let j = index_of_key(self.keys@, key);
                        assert(j != i);
                    }
                    assert(self.view() =~= old(self).view().insert(k@, v));
                }
            },
            None => {
                self.keys.push(k);
                self.values.push(v);
                proof {
                    let n = old_keys.len() as int;
                    assert(self.keys@[n]@ == kv@);
                    lemma_index_of_key(self.keys@, kv@, n);
                    assert forall|key: Seq<char>| #[trigger] old(self).view().contains_key(key)
                        implies self.view().contains_key(key) && self.view()[key] == old(self).view()[key] by {
                        let j = index_of_key(old_keys, key);
                        assert(0 <= j < old_keys.len() && old_keys[j]@ == key);
                        assert(self.keys@[j] == old_keys[j]);
                        lemma_index_of_key(self.keys@, key, j);
                    }
                    assert forall|key: Seq<char>| #[trigger] self.view().contains_key(key)
                        implies key == k@ || old(self).view().contains_key(key) by {
                        let j = choose|j: int| 0 <= j < self.keys@.len() && self.keys@[j]@ == key;
                        if j < n {
                            assert(self.keys@[j] == old_keys[j]);
                        }
                    }
                    assert(self.view().contains_key(k@));
                    assert(self.view()[k@] == v);
                    assert(self.view() =~= old(self).view().insert(k@, v));
                }
            },
        }
    }

    /// Takes the value filed under `k` out of the store.
    pub fn remove(&mut self, k: &str) -> (r: Option<T>)
        requires
            old(self).wf(),
        ensures
            final(self).wf(),
            final(self).view() == old(self).view().remove(k@),
            r == (if old(self).view().contains_key(k@) { Some(old(self).view()[k@]) } else { None }),
    {
        let kv = chars_of(k);
        let ghost old_keys = self.keys@;
        let ghost old_values = self.values@;
        match self.find(&kv) {
            Some(i) => {
                proof { lemma_index_of_key(old_keys, k@, i as int); }
                self.keys.remove(i);
                let v = self.values.remove(i);
                proof {
                    assert forall|a: int, b: int| 0 <= a < self.keys@.len() && 0 <= b < self.keys@.len() && a != b
                        implies self.keys@[a]@ != self.keys@[b]@ by {
                        let a0 = if a < i { a } else { a + 1 };
                        let b0 = if b < i { b } else { b + 1 };
                        assert(self.keys@[a] == old_keys[a0]);
                        assert(self.keys@[b] == old_keys[b0]);
                    }
                    assert forall|key: Seq<char>| #[trigger] self.view().contains_key(key)
                        implies old(self).view().contains_key(key) && key != k@ && self.view()[key] == old(self).view()[key] by {
                        let j = index_of_key(self.keys@, key);
                        let j0 = if j < i { j } else { j + 1 };
                        assert(self.keys@[j] == old_keys[j0]);
                        lemma_index_of_key(old_keys, key, j0);
                    }
                    assert forall|key: Seq<char>| #[trigger] old(self).view().contains_key(key) && key != k@
                        implies self.view().contains_key(key) by {
                        let j0 = index_of_key(old_keys, key);
                        assert(j0 != i);
                        let j = if j0 < i { j0 } else { j0 - 1 };
                        assert(self.keys@[j] == old_keys[j0]);
                    }
                    assert(self.view() =~= old(self).view().remove(k@));
                }
                Some(v)
            },
            None => {
                assert(self.view() =~= old(self).view().remove(k@));
                None
            },
        }
    }
}

} // verus!
