//! A small string-keyed association map kept as a vector of entries in
//! insertion order, with unique keys. It stands in for the hashed and
//! ordered maps a package manager keeps: dependency maps, tag tables,
//! tree children and the graph itself all use it, so iteration order is
//! a deterministic function of how the map was built.

use vstd::prelude::*;
use crate::strutil::str_eq;

verus! {

/// Index of the first entry whose key is `k`, or `-1`.
pub open spec fn key_index(keys: Seq<Seq<char>>, k: Seq<char>) -> int
    decreases keys.len(),
{
    if keys.len() == 0 {
        -1
    } else if keys[0] == k {
        0
    } else {
        let r = key_index(keys.skip(1), k);
        if r == -1 {
            -1
        } else {
            r + 1
        }
    }
}

pub proof fn lemma_key_index(keys: Seq<Seq<char>>, k: Seq<char>)
    ensures
        ({
            let r = key_index(keys, k);
            (r == -1 && (forall|j: int| 0 <= j < keys.len() ==> keys[j] != k)) || (0 <= r
                < keys.len() && keys[r] == k && (forall|j: int| 0 <= j < r ==> keys[j] != k))
        }),
    decreases keys.len(),
{
    if keys.len() > 0 && keys[0] != k {
        lemma_key_index(keys.skip(1), k);
        let r2 = key_index(keys.skip(1), k);
        if r2 == -1 {
            assert forall|j: int| 0 <= j < keys.len() implies keys[j] != k by {
                if j >= 1 {
                    assert(keys.skip(1)[j - 1] == keys[j]);
                }
            }
        } else {
            assert(keys.skip(1)[r2] == keys[r2 + 1]);
            assert forall|j: int| 0 <= j < r2 + 1 implies keys[j] != k by {
                if j >= 1 {
                    assert(keys.skip(1)[j - 1] == keys[j]);
                }
            }
        }
    }
}

pub proof fn lemma_key_index_unique(keys: Seq<Seq<char>>, k: Seq<char>, i: int)
    requires
        0 <= i < keys.len(),
        keys[i] == k,
        forall|j: int| 0 <= j < i ==> keys[j] != k,
    ensures
        key_index(keys, k) == i,
{
    lemma_key_index(keys, k);
}

pub proof fn lemma_key_index_none(keys: Seq<Seq<char>>, k: Seq<char>)
    requires
        forall|j: int| 0 <= j < keys.len() ==> keys[j] != k,
    ensures
        key_index(keys, k) == -1,
{
    lemma_key_index(keys, k);
}

/// An association map from names to `V`, in insertion order.
#[derive(Debug)]
pub struct KeyMap<V> {
    pub entries: Vec<(String, V)>,
}

impl<V: View> View for KeyMap<V> {
    type V = Seq<(Seq<char>, V::V)>;

    open spec fn view(&self) -> Seq<(Seq<char>, V::V)> {
        self.entries@.map_values(|e: (String, V)| (e.0@, e.1@))
    }
}

impl<V: View> KeyMap<V> {
    /// The stored value's view under `k`, if any.
    pub open spec fn spec_get_v(self, k: Seq<char>) -> Option<V::V> {
        match self.spec_get(k) {
            Some(v) => Some(v@),
            None => None,
        }
    }
}

impl<V> KeyMap<V> {
    /// The key texts, in entry order.
    pub open spec fn keys(self) -> Seq<Seq<char>> {
        self.entries@.map_values(|e: (String, V)| e.0@)
    }

    /// Keys are pairwise distinct.
    pub open spec fn wf(self) -> bool {
        forall|i: int, j: int|
            0 <= i < j < self.keys().len() ==> self.keys()[i] != self.keys()[j]
    }

    pub open spec fn spec_len(self) -> int {
        self.entries@.len() as int
    }

    pub open spec fn spec_contains(self, k: Seq<char>) -> bool {
        key_index(self.keys(), k) >= 0
    }

    /// The value stored under `k`, if any.
    pub open spec fn spec_get(self, k: Seq<char>) -> Option<V> {
        let i = key_index(self.keys(), k);
        if i >= 0 {
            Some(self.entries@[i].1)
        } else {
            None
        }
    }

    /// In a well-formed map, looking up the `i`-th key finds the `i`-th
    /// entry.
    pub proof fn lemma_get_at_index(self, i: int)
        requires
            self.wf(),
            0 <= i < self.entries@.len(),
        ensures
            self.spec_get(self.keys()[i]) == Some(self.entries@[i].1),
    {
        lemma_key_index_unique(self.keys(), self.keys()[i], i);
    }

    pub fn new() -> (r: KeyMap<V>)
        ensures
            r.wf(),
            r.entries@.len() == 0,
            forall|k: Seq<char>| r.spec_get(k) is None,
    {
        let r = KeyMap { entries: Vec::new() };
        proof {
            assert forall|k: Seq<char>| r.spec_get(k) is None by {
                lemma_key_index(r.keys(), k);
            }
        }
        r
    }

    pub fn len(&self) -> (r: usize)
        ensures
            r == self.spec_len(),
    {
        self.entries.len()
    }

    /// Looks a key up, returning a reference to its value.
    pub fn get(&self, k: &str) -> (r: Option<&V>)
        ensures
            match r {
                Some(v) => self.spec_get(k@) == Some(*v),
                None => self.spec_get(k@) is None,
            },
            (r is Some) == self.spec_contains(k@),
    {
        let mut i: usize = 0;
        while i < self.entries.len()
            invariant
                i <= self.entries@.len(),
                forall|j: int| 0 <= j < i ==> self.keys()[j] != k@,
            decreases self.entries@.len() - i,
        {
            if str_eq(self.entries[i].0.as_str(), k) {
                proof {
                    lemma_key_index_unique(self.keys(), k@, i as int);
                }
                return Some(&self.entries[i].1);
            }
            i += 1;
        }
        proof {
            lemma_key_index_none(self.keys(), k@);
        }
        None
    }

    pub fn contains_key(&self, k: &str) -> (r: bool)
        ensures
            r == self.spec_contains(k@),
    {
        let g = self.get(k);
        g.is_some()
    }

    fn index_of(&self, k: &str) -> (r: Option<usize>)
        ensures
            match r {
                Some(i) => key_index(self.keys(), k@) == i && i < self.entries@.len(),
                None => key_index(self.keys(), k@) == -1,
            },
    {
        let mut i: usize = 0;
        while i < self.entries.len()
            invariant
                i <= self.entries@.len(),
                forall|j: int| 0 <= j < i ==> self.keys()[j] != k@,
            decreases self.entries@.len() - i,
        {
            if str_eq(self.entries[i].0.as_str(), k) {
                proof {
                    lemma_key_index_unique(self.keys(), k@, i as int);
                }
                return Some(i);
            }
            i += 1;
        }
        proof {
            lemma_key_index_none(self.keys(), k@);
        }
        None
    }

    /// Binds `k` to `v`, replacing any existing binding in place.
    pub fn insert(&mut self, k: String, v: V)
        requires
            old(self).wf(),
        ensures
            final(self).wf(),
            final(self).spec_get(k@) == Some(v),
            final(self).spec_contains(k@),
            forall|k2: Seq<char>|
                k2 != k@ ==> final(self).spec_get(k2) == old(self).spec_get(k2),
            old(self).spec_contains(k@) ==> final(self).keys() == old(self).keys(),
            !old(self).spec_contains(k@) ==> final(self).keys() == old(self).keys().push(k@),
            final(self).spec_len() == old(self).spec_len() + (if old(self).spec_contains(k@) {
                0int
            } else {
                1int
            }),
    {
        proof {
            lemma_key_index(old(self).keys(), k@);
        }
        let found = self.index_of(k.as_str());
        match found {
            Some(i) => {
                let ghost oldkeys = self.keys();
                self.entries.remove(i);
                self.entries.insert(i, (k, v));
                proof {
                    assert(self.keys() =~= oldkeys);
                    lemma_key_index(self.keys(), k@);
                    assert forall|k2: Seq<char>| k2 != k@ implies self.spec_get(k2) == old(
                        self,
                    ).spec_get(k2) by {
                        lemma_key_index(self.keys(), k2);
                        let j = key_index(self.keys(), k2);
                        if j >= 0 {
                            assert(self.entries@[j].1 == old(self).entries@[j].1);
                        }
                    }
                }
            },
            None => {
                let ghost oldkeys = self.keys();
                self.entries.push((k, v));
                proof {
                    assert(self.keys() =~= oldkeys.push(k@));
                    lemma_key_index_unique(self.keys(), k@, oldkeys.len() as int);
                    assert forall|k2: Seq<char>| k2 != k@ implies self.spec_get(k2) == old(
                        self,
                    ).spec_get(k2) by {
                        lemma_key_index(oldkeys, k2);
                        let j = key_index(oldkeys, k2);
                        if j >= 0 {
                            lemma_key_index_unique(self.keys(), k2, j);
                        } else {
                            lemma_key_index_none(self.keys(), k2);
                        }
                    }
                    assert forall|i: int, j: int|
                        0 <= i < j < self.keys().len() implies self.keys()[i] != self.keys()[j] by {
                        if j < oldkeys.len() {
                        } else {
                            lemma_key_index(oldkeys, self.keys()[i]);
                        }
                    }
                }
            },
        }
    }

    /// Removes the binding of `k`, if there is one.
    pub fn remove(&mut self, k: &str) -> (r: Option<V>)
        requires
            old(self).wf(),
        ensures
            final(self).wf(),
            (r is Some) == old(self).spec_contains(k@),
            final(self).spec_get(k@) is None,
            forall|k2: Seq<char>|
                k2 != k@ ==> final(self).spec_get(k2) == old(self).spec_get(k2),
            final(self).spec_len() == old(self).spec_len() - (if old(self).spec_contains(k@) {
                1int
            } else {
                0int
            }),
    {
        proof {
            lemma_key_index(old(self).keys(), k@);
        }
        let found = self.index_of(k);
        match found {
            Some(i) => {
                let ghost oldkeys = self.keys();
                let ghost oldentries = self.entries@;
                let e = self.entries.remove(i);
                proof {
                    assert(self.keys() =~= oldkeys.remove(i as int));
                    assert forall|i2: int, j2: int|
                        0 <= i2 < j2 < self.keys().len() implies self.keys()[i2]
                        != self.keys()[j2] by {
                        let a = if i2 < i { i2 } else { i2 + 1 };
                        let b = if j2 < i { j2 } else { j2 + 1 };
                        assert(self.keys()[i2] == oldkeys[a]);
                        assert(self.keys()[j2] == oldkeys[b]);
                    }
                    assert forall|k2: Seq<char>|
                        k2 != k@ implies self.spec_get(k2) == old(self).spec_get(k2) by {
                        lemma_key_index(oldkeys, k2);
                        let j = key_index(oldkeys, k2);
                        if j >= 0 {
                            assert(oldkeys[j] == k2);
                            assert(j != i);
                            let j2 = if j < i {
                                j
                            } else {
                                j - 1
                            };
                            assert(self.keys()[j2] == oldkeys[j]);
                            assert forall|m: int| 0 <= m < j2 implies self.keys()[m] != k2 by {
                                let a = if m < i { m } else { m + 1 };
                                assert(self.keys()[m] == oldkeys[a]);
                            }
                            lemma_key_index_unique(self.keys(), k2, j2);
                            assert(self.entries@[j2].1 == oldentries[j].1);
                        } else {
                            assert forall|m: int| 0 <= m < self.keys().len() implies self.keys()[m]
                                != k2 by {
                                let a = if m < i { m } else { m + 1 };
                                assert(self.keys()[m] == oldkeys[a]);
                            }
                            lemma_key_index_none(self.keys(), k2);
                        }
                    }
                    assert forall|m: int| 0 <= m < self.keys().len() implies self.keys()[m] != k@ by {
                        let a = if m < i { m } else { m + 1 };
                        assert(self.keys()[m] == oldkeys[a]);
                    }
                    lemma_key_index_none(self.keys(), k@);
                }
                Some(e.1)
            },
            None => {
                proof {
                    lemma_key_index(self.keys(), k@);
                }
                None
            },
        }
    }
}

} // verus!
