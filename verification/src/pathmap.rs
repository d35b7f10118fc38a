//! A map from paths to values, kept in the order of paths.
use vstd::prelude::*;

use crate::path::{lemma_path_lt_irreflexive, lemma_path_lt_total, lemma_path_lt_transitive, path_lt, PathView, RelPath};

verus! {

/// A map from paths to values, sorted by path.
#[derive(Debug)]
pub struct PathMap<T> {
    entries: Vec<(RelPath, T)>,
}

/// The keys are in strictly increasing order.
pub open spec fn ascending(keys: Seq<PathView>) -> bool {
    forall|i: int, j: int| 0 <= i < j < keys.len() ==> #[trigger] path_lt(keys[i], keys[j])
}

/// Paths in strictly increasing order are different.
pub proof fn lemma_ascending_distinct(keys: Seq<PathView>)
    requires
        ascending(keys),
    ensures
        keys.no_duplicates(),
{
    assert forall|i: int, j: int| 0 <= i < keys.len() && 0 <= j < keys.len() && i != j implies keys[i] != keys[j] by {
        if i < j {
            assert(path_lt(keys[i], keys[j]));
            crate::path::lemma_path_lt_irreflexive(keys[i]);
        } else {
            assert(path_lt(keys[j], keys[i]));
            crate::path::lemma_path_lt_irreflexive(keys[j]);
        }
    }
}

impl<T: View> PathMap<T> {
    /// The keys in order.
    pub closed spec fn keys(self) -> Seq<PathView> {
        self.entries@.map_values(|e: (RelPath, T)| e.0@)
    }

    /// The values in the order of their keys.
    pub closed spec fn values(self) -> Seq<T::V> {
        self.entries@.map_values(|e: (RelPath, T)| e.1@)
    }

    /// Where the key stands.
    pub open spec fn index_of(self, k: PathView) -> int {
        choose|i: int| 0 <= i < self.keys().len() && self.keys()[i] == k
    }

    /// The keys are in order, and each has a value.
    pub open spec fn well_formed(self) -> bool {
        ascending(self.keys()) && self.keys().len() == self.values().len()
    }

    /// The mapping.
    pub open spec fn map(self) -> Map<PathView, T::V> {
        Map::new(|k: PathView| self.keys().contains(k), |k: PathView| self.values()[self.index_of(k)])
    }

    /// The key at `i` maps to the value at `i`.
    pub proof fn lemma_at(self, i: int)
        requires
            self.well_formed(),
            0 <= i < self.keys().len(),
        ensures
            self.map().contains_key(self.keys()[i]),
            self.map()[self.keys()[i]] == self.values()[i],
            self.index_of(self.keys()[i]) == i,
    {
        let k = self.keys()[i];
        let j = self.index_of(k);
        assert(self.keys()[i] == k);
        assert(0 <= j < self.keys().len() && self.keys()[j] == k);
        lemma_path_lt_irreflexive(k);
        if i < j {
            assert(path_lt(self.keys()[i], self.keys()[j]));
        } else if j < i {
            assert(path_lt(self.keys()[j], self.keys()[i]));
        }
    }

    /// An empty map.
    pub fn new() -> (r: Self)
        ensures
            r.well_formed(),
            r.keys().len() == 0,
            r.map() == Map::<PathView, T::V>::empty(),
    {
        let r = PathMap { entries: Vec::new() };
        assert(r.map() =~= Map::<PathView, T::V>::empty());
        r
    }

    /// The number of keys.
    pub fn len(&self) -> (r: usize)
        ensures
            r == self.keys().len(),
    {
        self.entries.len()
    }

    /// The `i`-th key.
    pub fn key(&self, i: usize) -> (r: &RelPath)
        requires
            i < self.keys().len(),
        ensures
            r@ == self.keys()[i as int],
    {
        &self.entries[i].0
    }

    /// The value of the `i`-th key.
    pub fn value(&self, i: usize) -> (r: &T)
        requires
            i < self.keys().len(),
        ensures
            r@ == self.values()[i as int],
    {
        &self.entries[i].1
    }

    /// The first position whose key is not before `k`.
    fn position(&self, k: &RelPath) -> (r: usize)
        requires
            self.well_formed(),
        ensures
            r <= self.keys().len(),
            forall|i: int| 0 <= i < r ==> path_lt(#[trigger] self.keys()[i], k@),
            forall|i: int| r <= i < self.keys().len() ==> !path_lt(#[trigger] self.keys()[i], k@),
    {
        let n = self.entries.len();
        let mut i: usize = 0;
        while i < n && self.entries[i].0.before(k)
            invariant
                i <= n,
                n == self.entries@.len(),
                forall|j: int| 0 <= j < i ==> path_lt(#[trigger] self.keys()[j], k@),
            decreases n - i,
        {
            assert(self.keys()[i as int] == self.entries@[i as int].0@);
            i = i + 1;
        }
        proof {
            if i < n {
                assert(self.keys()[i as int] == self.entries@[i as int].0@);
                assert forall|j: int| i <= j < self.keys().len() implies !path_lt(#[trigger] self.keys()[j], k@) by {
                    if j > i && path_lt(self.keys()[j], k@) {
                        assert(path_lt(self.keys()[i as int], self.keys()[j]));
                        lemma_path_lt_transitive(self.keys()[i as int], self.keys()[j], k@);
                    }
                }
            }
        }
        i
    }

    /// The position of a key that is there.
    fn find(&self, k: &RelPath) -> (r: Option<usize>)
        requires
            self.well_formed(),
        ensures
            r is Some <==> self.map().contains_key(k@),
            r matches Some(i) ==> i < self.keys().len() && self.keys()[i as int] == k@,
    {
        let i = self.position(k);
        if i < self.entries.len() && self.entries[i].0.same(k) {
            assert(self.keys()[i as int] == k@);
            Some(i)
        } else {
            proof {
                if self.keys().contains(k@) {
                    let j = choose|j: int| 0 <= j < self.keys().len() && self.keys()[j] == k@;
                    lemma_path_lt_irreflexive(k@);
                    assert(j >= i);
                    if j > i {
                        assert(path_lt(self.keys()[i as int], self.keys()[j]));
                    } else {
                        assert(self.keys()[i as int] == self.entries@[i as int].0@);
                    }
                }
            }
            None
        }
    }

    /// The value of a key.
    pub fn get(&self, k: &RelPath) -> (r: Option<&T>)
        requires
            self.well_formed(),
        ensures
            r is Some <==> self.map().contains_key(k@),
            r matches Some(v) ==> v@ == self.map()[k@],
    {
        match self.find(k) {
            Some(i) => {
                proof {
                    self.lemma_at(i as int);
                }
                Some(&self.entries[i].1)
            },
            None => None,
        }
    }

    /// Whether the key is there.
    pub fn contains_key(&self, k: &RelPath) -> (r: bool)
        requires
            self.well_formed(),
        ensures
            r == self.map().contains_key(k@),
    {
        self.find(k).is_some()
    }

    /// Sets the value of a key.
    pub fn insert(&mut self, k: RelPath, v: T)
        requires
            old(self).well_formed(),
        ensures
            final(self).well_formed(),
            final(self).map() == old(self).map().insert(k@, v@),
    {
        let ghost before = *self;
        let i = self.position(&k);
        if i < self.entries.len() && self.entries[i].0.same(&k) {
            assert(self.keys()[i as int] == k@);
            self.entries.set(i, (k, v));
            proof {
                assert(self.keys() =~= before.keys());
                assert(self.values() =~= before.values().update(i as int, v@));
                assert forall|j: int| 0 <= j < self.keys().len() implies before.map().insert(k@, v@)[#[trigger] self.keys()[j]]
                    == self.values()[j] by {
                    before.lemma_at(j);
                    if j != i {
                        before.lemma_at(i as int);
                    }
                }
                lemma_map_from_pairs(*self, before.map().insert(k@, v@));
            }
        } else {
            proof {
                if i < self.entries@.len() {
                    assert(self.keys()[i as int] == self.entries@[i as int].0@);
                    assert(self.keys()[i as int] != k@);
                    lemma_path_lt_total(self.keys()[i as int], k@);
                }
            }
            self.entries.insert(i, (k, v));
            proof {
                assert(self.keys() =~= before.keys().insert(i as int, k@));
                assert(self.values() =~= before.values().insert(i as int, v@));
                lemma_ascending_insert(before.keys(), i as int, k@);
                assert forall|j: int| 0 <= j < self.keys().len() implies before.map().insert(k@, v@)[#[trigger] self.keys()[j]]
                    == self.values()[j] by {
                    if j < i {
                        before.lemma_at(j);
                        lemma_path_lt_irreflexive(k@);
                    } else if j > i {
                        before.lemma_at(j - 1);
                        lemma_path_lt_irreflexive(k@);
                        assert(path_lt(self.keys()[i as int], self.keys()[j]));
                    }
                }
                assert forall|x: PathView| #[trigger] self.keys().contains(x) <==> before.map().insert(k@, v@).contains_key(
                    x,
                ) by {
                    if self.keys().contains(x) {
                        let j = choose|j: int| 0 <= j < self.keys().len() && self.keys()[j] == x;
                        if j < i {
                            assert(before.keys()[j] == x);
                        } else if j > i {
                            assert(before.keys()[j - 1] == x);
                        }
                    }
                    if before.keys().contains(x) {
                        let j = choose|j: int| 0 <= j < before.keys().len() && before.keys()[j] == x;
                        if j < i {
                            assert(self.keys()[j] == x);
                        } else {
                            assert(self.keys()[j + 1] == x);
                        }
                    }
                    assert(self.keys()[i as int] == k@);
                }
                lemma_map_from_pairs(*self, before.map().insert(k@, v@));
            }
        }
    }

    /// Removes a key.
    pub fn remove(&mut self, k: &RelPath) -> (r: Option<T>)
        requires
            old(self).well_formed(),
        ensures
            final(self).well_formed(),
            final(self).map() == old(self).map().remove(k@),
            r is Some <==> old(self).map().contains_key(k@),
            r matches Some(v) ==> v@ == old(self).map()[k@],
    {
        let ghost before = *self;
        match self.find(k) {
            Some(i) => {
                proof {
                    before.lemma_at(i as int);
                }
                let (_, v) = self.entries.remove(i);
                proof {
                    assert(self.keys() =~= before.keys().remove(i as int));
                    assert(self.values() =~= before.values().remove(i as int));
                    assert(ascending(self.keys())) by {
                        assert forall|a: int, b: int| 0 <= a < b < self.keys().len() implies #[trigger] path_lt(
                            self.keys()[a],
                            self.keys()[b],
                        ) by {
                            let x = if a < i {
                                a
                            } else {
                                a + 1
                            };
                            let y = if b < i {
                                b
                            } else {
                                b + 1
                            };
                            assert(path_lt(before.keys()[x], before.keys()[y]));
                        }
                    }
                    assert forall|j: int| 0 <= j < self.keys().len() implies before.map().remove(k@)[#[trigger] self.keys()[j]]
                        == self.values()[j] by {
                        if j < i {
                            before.lemma_at(j);
                        } else {
                            before.lemma_at(j + 1);
                        }
                    }
                    assert forall|x: PathView| #[trigger] self.keys().contains(x) <==> before.map().remove(
                        k@,
                    ).contains_key(x) by {
                        if self.keys().contains(x) {
                            let j = choose|j: int| 0 <= j < self.keys().len() && self.keys()[j] == x;
                            let y = if j < i {
                                j
                            } else {
                                j + 1
                            };
                            assert(before.keys()[y] == x);
                            before.lemma_at(y);
                        }
                        if before.keys().contains(x) && x != k@ {
                            let j = choose|j: int| 0 <= j < before.keys().len() && before.keys()[j] == x;
                            if j < i {
                                assert(self.keys()[j] == x);
                            } else {
                                assert(self.keys()[j - 1] == x);
                            }
                        }
                    }
                    lemma_map_from_pairs(*self, before.map().remove(k@));
                }
                Some(v)
            },
            None => {
                assert(self.map() =~= before.map().remove(k@));
                None
            },
        }
    }
}

/// A map that agrees with all pairs and has no other keys is the mapping.
proof fn lemma_map_from_pairs<T: View>(m: PathMap<T>, want: Map<PathView, T::V>)
    requires
        m.well_formed(),
        forall|x: PathView| #[trigger] m.keys().contains(x) <==> want.contains_key(x),
        forall|j: int| 0 <= j < m.keys().len() ==> want[#[trigger] m.keys()[j]] == m.values()[j],
    ensures
        m.map() == want,
{
    assert forall|x: PathView| m.map().contains_key(x) implies m.map()[x] == want[x] by {
        let i = choose|i: int| 0 <= i < m.keys().len() && m.keys()[i] == x;
        m.lemma_at(i);
    }
    assert(m.map() =~= want);
}

/// A key put in its place keeps the order.
proof fn lemma_ascending_insert(keys: Seq<PathView>, i: int, k: PathView)
    requires
        ascending(keys),
        0 <= i <= keys.len(),
        forall|j: int| 0 <= j < i ==> path_lt(#[trigger] keys[j], k),
        i < keys.len() ==> path_lt(k, keys[i]),
    ensures
        ascending(keys.insert(i, k)),
{
    let after = keys.insert(i, k);
    assert forall|a: int, b: int| 0 <= a < b < after.len() implies #[trigger] path_lt(after[a], after[b]) by {
        if b < i {
            assert(path_lt(keys[a], keys[b]));
        } else if b == i {
            assert(path_lt(keys[a], k));
        } else if a > i {
            assert(path_lt(keys[a - 1], keys[b - 1]));
        } else if a == i {
            if b - 1 > i {
                assert(path_lt(keys[i], keys[b - 1]));
                lemma_path_lt_transitive(k, keys[i], keys[b - 1]);
            }
        } else {
            assert(path_lt(keys[a], keys[b - 1]));
        }
    }
}

} // verus!
