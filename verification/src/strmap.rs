use vstd::prelude::*;

verus! {

/// An index of some entry whose key views as `k`, if one exists.
pub open spec fn map_index<T>(s: Seq<(Seq<char>, T)>, k: Seq<char>) -> int {
    choose|i: int| 0 <= i < s.len() && #[trigger] s[i].0 == k
}

/// Whether some entry's key views as `k`.
pub open spec fn map_has<T>(s: Seq<(Seq<char>, T)>, k: Seq<char>) -> bool {
    exists|i: int| 0 <= i < s.len() && #[trigger] s[i].0 == k
}

/// The value stored under `k`.
pub open spec fn map_at<T>(s: Seq<(Seq<char>, T)>, k: Seq<char>) -> T {
    s[map_index(s, k)].1
}

/// The sequence after storing `v` under `k`: an existing key keeps its
/// position, a fresh key is appended.
pub open spec fn map_insert<T>(s: Seq<(Seq<char>, T)>, k: Seq<char>, v: T) -> Seq<
    (Seq<char>, T),
> {
    if map_has(s, k) {
        s.update(map_index(s, k), (k, v))
    } else {
        s.push((k, v))
    }
}

/// The sequence after removing the entry under `k`, if any.
pub open spec fn map_remove<T>(s: Seq<(Seq<char>, T)>, k: Seq<char>) -> Seq<(Seq<char>, T)> {
    if map_has(s, k) {
        s.remove(map_index(s, k))
    } else {
        s
    }
}

/// Keys are pairwise distinct.
pub open spec fn map_wf<T>(s: Seq<(Seq<char>, T)>) -> bool {
    forall|i: int, j: int| 0 <= i < j < s.len() ==> s[i].0 != s[j].0
}

pub proof fn lemma_map_index_unique<T>(s: Seq<(Seq<char>, T)>, k: Seq<char>, i: int)
    requires
        map_wf(s),
        0 <= i < s.len(),
        s[i].0 == k,
    ensures
        map_has(s, k),
        map_index(s, k) == i,
{
    assert(map_has(s, k));
    let j = map_index(s, k);
    if i < j {
        assert(s[i].0 != s[j].0);
    } else if j < i {
        assert(s[j].0 != s[i].0);
    }
}

/// A mapping from string keys to values, kept as a sequence of entries with
/// pairwise-distinct keys; insertion order of fresh keys is preserved, which
/// keeps serialization deterministic for a given construction history.
pub struct AssocMap<V> {
    pub entries: Vec<(String, V)>,
}

impl<V: View> View for AssocMap<V> {
    type V = Seq<(Seq<char>, V::V)>;

    open spec fn view(&self) -> Seq<(Seq<char>, V::V)> {
        self.entries@.map_values(|p: (String, V)| (p.0@, p.1@))
    }
}

impl<V: View> AssocMap<V> {
    pub open spec fn wf(&self) -> bool {
        map_wf(self@)
    }

    pub fn new() -> (r: Self)
        ensures
            r@ =~= Seq::<(Seq<char>, V::V)>::empty(),
            r.wf(),
    {
        AssocMap { entries: Vec::new() }
    }

    pub fn len(&self) -> (r: usize)
        ensures
            r == self@.len(),
    {
        self.entries.len()
    }

    pub fn key_at(&self, i: usize) -> (r: &String)
        requires
            i < self@.len(),
        ensures
            r@ == self@[i as int].0,
    {
        &self.entries[i].0
    }

    pub fn val_at(&self, i: usize) -> (r: &V)
        requires
            i < self@.len(),
        ensures
            r@ == self@[i as int].1,
    {
        &self.entries[i].1
    }

    /// The position of the entry stored under `k`, searched front to back.
    pub fn index_of(&self, k: &String) -> (r: Option<usize>)
        ensures
            match r {
                Some(i) => i < self@.len() && self@[i as int].0 == k@,
                None => !map_has(self@, k@),
            },
    {
        let n = self.entries.len();
        let mut i: usize = 0;
        while i < n
            invariant
                n == self@.len(),
                i <= n,
                forall|j: int| 0 <= j < i ==> self@[j].0 != k@,
            decreases n - i,
        {
            if self.entries[i].0 == *k {
                return Some(i);
            }
            i = i + 1;
        }
        None
    }

    pub fn contains_key(&self, k: &String) -> (r: bool)
        requires
            self.wf(),
        ensures
            r == map_has(self@, k@),
    {
        match self.index_of(k) {
            Some(i) => {
                proof {
                    lemma_map_index_unique(self@, k@, i as int);
                }
                true
            },
            None => false,
        }
    }

    pub fn get(&self, k: &String) -> (r: Option<&V>)
        requires
            self.wf(),
        ensures
            match r {
                Some(v) => map_has(self@, k@) && v@ == map_at(self@, k@),
                None => !map_has(self@, k@),
            },
    {
        match self.index_of(k) {
            Some(i) => {
                proof {
                    lemma_map_index_unique(self@, k@, i as int);
                }
                Some(&self.entries[i].1)
            },
            None => None,
        }
    }

    /// Inserts or replaces the value under `k`; a fresh key is appended,
    /// an existing key keeps its position.
    pub fn insert(&mut self, k: String, v: V)
        requires
            old(self).wf(),
        ensures
            final(self).wf(),
            map_has(old(self)@, k@) ==> final(self)@ =~= old(self)@.update(
                map_index(old(self)@, k@),
                (k@, v@),
            ),
            !map_has(old(self)@, k@) ==> final(self)@ =~= old(self)@.push((k@, v@)),
            final(self)@ =~= map_insert(old(self)@, k@, v@),
    {
        match self.index_of(&k) {
            Some(i) => {
                proof {
                    lemma_map_index_unique(self@, k@, i as int);
                }
                self.entries.remove(i);
                self.entries.insert(i, (k, v));
                proof {
                    let upd = old(self)@.update(i as int, (k@, v@));
                    assert(self@ =~= upd);
                    assert forall|a: int, b: int| 0 <= a < b < self@.len() implies self@[a].0
                        != self@[b].0 by {
                        assert(old(self)@[a].0 != old(self)@[b].0);
                    }
                }
            },
            None => {
                self.entries.push((k, v));
                proof {
                    assert(self@ =~= old(self)@.push((k@, v@)));
                    assert forall|a: int, b: int| 0 <= a < b < self@.len() implies self@[a].0
                        != self@[b].0 by {
                        if b < old(self)@.len() {
                            assert(old(self)@[a].0 != old(self)@[b].0);
                        } else {
                            assert(!(0 <= a < old(self)@.len() && old(self)@[a].0 == k@));
                        }
                    }
                }
            },
        }
    }

    /// Removes the entry under `k`, if any; later entries shift down.
    pub fn remove(&mut self, k: &String)
        requires
            old(self).wf(),
        ensures
            final(self).wf(),
            map_has(old(self)@, k@) ==> final(self)@ =~= old(self)@.remove(
                map_index(old(self)@, k@),
            ),
            !map_has(old(self)@, k@) ==> *final(self) == *old(self),
            !map_has(final(self)@, k@),
            final(self)@ =~= map_remove(old(self)@, k@),
    {
        match self.index_of(k) {
            Some(i) => {
                proof {
                    lemma_map_index_unique(self@, k@, i as int);
                }
                self.entries.remove(i);
                proof {
                    assert(self@ =~= old(self)@.remove(i as int));
                    assert forall|j: int| 0 <= j < self@.len() implies self@[j].0 != k@ by {
                        if j < i {
                            assert(old(self)@[j].0 != old(self)@[i as int].0);
                        } else {
                            assert(old(self)@[j + 1].0 != old(self)@[i as int].0);
                        }
                    }
                }
            },
            None => {},
        }
    }

    /// Takes the entry at position `i` out of the map.
    pub fn remove_at(&mut self, i: usize) -> (r: (String, V))
        requires
            i < old(self)@.len(),
        ensures
            final(self)@ =~= old(self)@.remove(i as int),
            r.0@ == old(self)@[i as int].0,
            r.1@ == old(self)@[i as int].1,
    {
        self.entries.remove(i)
    }

    /// Puts an entry back at position `i`.
    pub fn insert_at(&mut self, i: usize, k: String, v: V)
        requires
            i <= old(self)@.len(),
        ensures
            final(self)@ =~= old(self)@.insert(i as int, (k@, v@)),
    {
        self.entries.insert(i, (k, v));
    }

    /// Takes the value at position `i`, leaving `placeholder` in its place.
    pub fn take_val_at(&mut self, i: usize, placeholder: V) -> (r: V)
        requires
            i < old(self)@.len(),
        ensures
            r@ == old(self)@[i as int].1,
            final(self)@ =~= old(self)@.update(
                i as int,
                (old(self)@[i as int].0, placeholder@),
            ),
    {
        let ghost pre = self.entries@;
        let (k, v) = self.entries.remove(i);
        self.entries.insert(i, (k, placeholder));
        proof {
            pre.remove_ensures(i as int);
            pre.remove(i as int).insert_ensures(i as int, (pre[i as int].0, placeholder));
            assert forall|j: int| 0 <= j < self.entries@.len() implies self.entries@[j]
                == pre.update(i as int, (pre[i as int].0, placeholder))[j] by {
                let mid = pre.remove(i as int);
                if j < i {
                    assert(self.entries@[j] == mid[j]);
                } else if j == i {
                    assert(self.entries@[j] == (pre[i as int].0, placeholder));
                } else {
                    assert(self.entries@[j] == mid[j - 1]);
                    assert(mid[j - 1] == pre[j]);
                }
            }
            assert(self.entries@ =~= pre.update(i as int, (pre[i as int].0, placeholder)));
        }
        v
    }

    /// Replaces the value at position `i`, keeping its key and position.
    pub fn set_val_at(&mut self, i: usize, v: V)
        requires
            i < old(self)@.len(),
        ensures
            final(self)@ =~= old(self)@.update(i as int, (old(self)@[i as int].0, v@)),
            final(self)@.len() == old(self)@.len(),
    {
        let ghost pre = self.entries@;
        let (k, _old_v) = self.entries.remove(i);
        self.entries.insert(i, (k, v));
        proof {
            pre.remove_ensures(i as int);
            pre.remove(i as int).insert_ensures(i as int, (pre[i as int].0, v));
            assert forall|j: int| 0 <= j < self.entries@.len() implies self.entries@[j]
                == pre.update(i as int, (pre[i as int].0, v))[j] by {
                let mid = pre.remove(i as int);
                if j < i {
                    assert(self.entries@[j] == mid[j]);
                } else if j == i {
                    assert(self.entries@[j] == (pre[i as int].0, v));
                } else {
                    assert(self.entries@[j] == mid[j - 1]);
                    assert(mid[j - 1] == pre[j]);
                }
            }
            assert(self.entries@ =~= pre.update(i as int, (pre[i as int].0, v)));
        }
    }

    pub fn clear(&mut self)
        ensures
            final(self)@ =~= Seq::<(Seq<char>, V::V)>::empty(),
            final(self).wf(),
    {
        self.entries.clear();
    }
}

} // verus!
