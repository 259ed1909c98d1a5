use crate::hashing::{KeyHasher, ViewEq};
use crate::structure::PerMap;
use rustc_hash::FxBuildHasher;
use std::sync::Arc;
use vstd::prelude::*;

verus! {

/// A persistent set: a persistent map whose values say nothing.
pub struct PerSet<K: ViewEq, S: KeyHasher<K> = FxBuildHasher>(PerMap<K, (), S>);

impl<K: ViewEq, S: KeyHasher<K>> View for PerSet<K, S> {
    type V = Set<K::V>;

    /// The views of the keys.
    closed spec fn view(&self) -> Set<K::V> {
        self.0@.dom()
    }
}

impl<K: ViewEq> PerSet<K, FxBuildHasher> where FxBuildHasher: KeyHasher<K> {
    /// The empty set with the default hasher.
    pub fn empty() -> (res: Self)
        ensures
            res@ == Set::<K::V>::empty(),
    {
        PerSet(PerMap::empty())
    }
}

impl<K: ViewEq, S: KeyHasher<K>> PerSet<K, S> {
    /// The hasher that places the keys.
    pub closed spec fn hasher(&self) -> S {
        self.0.hasher()
    }

    /// Whether two sets hash every key alike.
    pub open spec fn same_hashes(&self, other: &Self) -> bool {
        forall|k: K::V| #[trigger] self.hasher().spec_hash(k) == other.hasher().spec_hash(k)
    }

    /// The empty set whose keys `hash_builder` will place.
    pub fn with_hasher(hash_builder: S) -> (res: Self)
        ensures
            res@ == Set::<K::V>::empty(),
            res.hasher() == hash_builder,
    {
        PerSet(PerMap::with_hasher(hash_builder))
    }

    pub fn len(&self) -> (n: usize)
        ensures
            self@.finite(),
            n == self@.len(),
    {
        self.0.len()
    }

    pub fn is_empty(&self) -> (b: bool)
        ensures
            b == (self@ == Set::<K::V>::empty()),
    {
        let b = self.0.is_empty();
        proof {
            if self@ == Set::<K::V>::empty() {
                assert(self.0@ =~= Map::<K::V, ()>::empty());
            }
        }
        b
    }

    /// The set with `key` in it.
    pub fn insert(&self, key: K) -> (res: Self)
        requires
            self@.len() < usize::MAX,
        ensures
            res@ == self@.insert(key@),
            res.hasher() == self.hasher(),
    {
        PerSet(self.0.insert(key, ()))
    }

    pub fn contains(&self, key: &K) -> (b: bool)
        ensures
            b == self@.contains(key@),
    {
        self.0.get(key).is_some()
    }

    /// The set of what is in either of the two.
    pub fn union(&self, other: &PerSet<K, S>) -> (res: Self)
        requires
            self.same_hashes(other),
            self@.len() + other@.len() <= usize::MAX,
        ensures
            res@ == self@.union(other@),
            res.hasher() == self.hasher(),
    {
        proof {
            assert forall|k: K::V| #[trigger]
                self.0.hasher().spec_hash(k) == other.0.hasher().spec_hash(k) by {
                assert(self.hasher().spec_hash(k) == other.hasher().spec_hash(k));
            }
            assert(self.0@.union_prefer_right(other.0@).dom() =~= self@.union(other@));
        }
        PerSet(self.0.union(&other.0))
    }

    /// An iterator over the keys; it yields each key once.
    pub fn iter(&self) -> (it: Iter<'_, K>)
        ensures
            it.wf(),
            forall|k: K::V|
                self@.contains(k) <==> exists|i: int|
                    0 <= i < it.remaining().len() && (#[trigger] it.remaining()[i])@ == k,
            it.remaining().len() == self@.len(),
    {
        let inner = self.0.iter();
        let it = Iter(inner);
        proof {
            let all = inner.remaining();
            assert(it.remaining().len() == all.len());
            assert forall|k: K::V| self@.contains(k) implies exists|i: int|
                0 <= i < it.remaining().len() && (#[trigger] it.remaining()[i])@ == k by {
                let i = choose|i: int| 0 <= i < all.len() && (#[trigger] all[i]).0@ == k;
                assert(it.remaining()[i]@ == k);
            }
            assert forall|k: K::V|
                (exists|i: int|
                    0 <= i < it.remaining().len() && (#[trigger] it.remaining()[i])@
                        == k) implies self@.contains(k) by {
                let i = choose|i: int|
                    0 <= i < it.remaining().len() && (#[trigger] it.remaining()[i])@ == k;
                assert(self.0@.contains_pair(all[i].0@, all[i].1));
            }
        }
        it
    }
}

/// A key of a set, as the iterator hands it out.
pub struct Element<'a, K>(&'a Arc<(K, ())>);

impl<'a, K> Element<'a, K> {
    /// The key itself.
    pub closed spec fn key(&self) -> K {
        self.0.0
    }

    pub fn get(&self) -> (res: &K)
        ensures
            *res == self.key(),
    {
        &self.0.0
    }
}

impl<'a, K> std::ops::Deref for Element<'a, K> {
    type Target = K;

    fn deref(&self) -> (res: &K)
        ensures
            *res == self.key(),
    {
        &self.0.0
    }
}

/// An iterator over the keys of a set.
pub struct Iter<'a, K>(pub(crate) crate::iter::Iter<'a, K, ()>);

impl<'a, K> Iter<'a, K> {
    pub closed spec fn wf(&self) -> bool {
        self.0.wf()
    }

    /// The keys that are still to come.
    pub closed spec fn remaining(&self) -> Seq<K> {
        Seq::new(self.0.remaining().len(), |i: int| self.0.remaining()[i].0)
    }

    /// The next key, if one is left.
    pub fn next(&mut self) -> (res: Option<Element<'a, K>>)
        requires
            old(self).wf(),
        ensures
            final(self).wf(),
            match res {
                Some(e) => old(self).remaining().len() > 0 && e.key() == old(self).remaining()[0]
                    && final(self).remaining() == old(self).remaining().skip(1),
                None => old(self).remaining().len() == 0 && final(self).remaining().len() == 0,
            },
    {
        match self.0.next() {
            Some(entry) => {
                proof {
                    assert(self.remaining() =~= old(self).remaining().skip(1));
                }
                Some(Element(entry))
            },
            None => None,
        }
    }
}

} // verus!
