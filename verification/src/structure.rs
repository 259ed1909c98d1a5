use crate::hashing::{fx_build_hasher, KeyHasher, ViewEq};
use crate::iter::{
    entries, lemma_entries_len, lemma_entry_address, lemma_entry_index, lemma_shaped, refs, Iter,
    Trie,
};
use crate::tripper::Tripper;
use crate::nodes::{
    lemma_pairs, share, BitShifter, MergeError, Node,
};
use rustc_hash::FxBuildHasher;
use std::sync::Arc;
use vstd::prelude::*;

verus! {

/// A persistent hash map: each operation hands back a new map and leaves the
/// one it was called on as it was. The two share the nodes that the operation
/// did not touch.
pub struct PerMap<K: ViewEq, V, S: KeyHasher<K> = FxBuildHasher> {
    data: Arc<Node<K, V>>,
    hasher: Arc<S>,
}

/// What a trie holds under the hash of each key.
spec fn contents<K: View, V, S: KeyHasher<K>>(data: Node<K, V>, hasher: S) -> Map<K::V, V> {
    Map::new(
        |k: K::V| data.lookup(16, hasher.spec_hash(k), k) is Some,
        |k: K::V| data.lookup(16, hasher.spec_hash(k), k)->0,
    )
}

/// Whatever a trie holds, it holds under the hash of its key.
spec fn hashed<K: View, V, S: KeyHasher<K>>(data: Node<K, V>, hasher: S) -> bool {
    forall|rem: u64, k: K::V|
        (#[trigger] data.lookup(16, rem, k)) is Some ==> rem == hasher.spec_hash(k)
}

/// A trie whose entries lie under their hashes holds one entry for each key.
proof fn lemma_contents<K: View, V, S: KeyHasher<K>>(data: &Node<K, V>, hasher: &S)
    requires
        data.wf(16),
        hashed(*data, *hasher),
    ensures
        contents(*data, *hasher).dom().finite(),
        contents(*data, *hasher).len() == data.spec_weight(),
{
    lemma_pairs(data, 16);
    let pairs = data.pairs(16);
    let dom = contents(*data, *hasher).dom();
    let f = |p: (u64, K::V)| p.1;
    assert(pairs.map(f) =~= dom) by {
        assert forall|k: K::V| dom.contains(k) implies pairs.map(f).contains(k) by {
            let p = (hasher.spec_hash(k), k);
            assert(pairs.contains(p));
            assert(f(p) == k);
        }
    }
    assert(vstd::relations::injective_on(f, pairs));
    vstd::set_lib::lemma_map_size(pairs, dom, f);
}

impl<K: ViewEq, V, S: KeyHasher<K>> View for PerMap<K, V, S> {
    type V = Map<K::V, V>;

    /// The value of each key, by the key's view.
    closed spec fn view(&self) -> Map<K::V, V> {
        contents(*self.data, *self.hasher)
    }
}

impl<K: ViewEq, V, S: KeyHasher<K>> PerMap<K, V, S> {
    #[verifier::type_invariant]
    spec fn inv(self) -> bool {
        &&& self.data.wf(16)
        &&& hashed(*self.data, *self.hasher)
    }

    /// The hasher that places the keys.
    pub closed spec fn hasher(&self) -> S {
        *self.hasher
    }

    /// Whether two maps hash every key alike.
    pub open spec fn same_hashes(&self, other: &Self) -> bool {
        forall|k: K::V| #[trigger] self.hasher().spec_hash(k) == other.hasher().spec_hash(k)
    }

    /// The empty map whose keys `hash_builder` will place.
    pub fn with_hasher(hash_builder: S) -> (res: Self)
        ensures
            res@ == Map::<K::V, V>::empty(),
            res.hasher() == hash_builder,
    {
        let data = Arc::new(Node::empty_branch());
        proof {
            assert(contents(*data, hash_builder) =~= Map::<K::V, V>::empty());
        }
        PerMap { data, hasher: Arc::new(hash_builder) }
    }

    /// The entries in the order in which the map is walked.
    pub closed spec fn entries(&self) -> Seq<Arc<(K, V)>> {
        entries(&*self.data, 16)
    }

    /// An iterator over the entries. It yields each key once, with its
    /// value; the order is that of the hashes' chunks of four bits.
    pub fn iter(&self) -> (it: Iter<'_, K, V>)
        ensures
            it.wf(),
            it.remaining() == self.entries(),
            lists(self.entries(), self@),
    {
        proof {
            use_type_invariant(self);
            lemma_contents(&*self.data, &*self.hasher);
            lemma_shaped(&*self.data, 16);
            lemma_entries_len(&*self.data, 16);
            let all = self.entries();
            assert forall|i: int| 0 <= i < all.len() implies self@.contains_pair(
                (#[trigger] all[i]).0@,
                all[i].1,
            ) by {
                let rem = lemma_entry_address(&*self.data, 16, i);
            }
            assert forall|k: K::V| self@.contains_key(k) implies exists|i: int|
                0 <= i < all.len() && (#[trigger] all[i]).0@ == k by {
                let i = lemma_entry_index(&*self.data, 16, self.hasher.spec_hash(k), k);
                assert(all[i].0@ == k);
            }
        }
        Iter::new(&*self.data)
    }

    /// A walk over the entries as the leaves of a tree; it yields them in the
    /// order of `iter`.
    pub fn tree_iterator(&self) -> (res: Tripper<Trie<'_, K, V>>)
        ensures
            res.wf(),
            res.remaining() == refs::<Arc<(K, V)>>(self.entries()),
    {
        proof {
            use_type_invariant(self);
            lemma_shaped(&*self.data, 16);
        }
        Trie::new(&*self.data).tree_iterator()
    }

    /// The number of keys.
    pub fn len(&self) -> (n: usize)
        ensures
            self@.dom().finite(),
            n == self@.len(),
    {
        proof {
            use_type_invariant(self);
            lemma_contents(&*self.data, &*self.hasher);
        }
        self.data.weight()
    }

    pub fn is_empty(&self) -> (b: bool)
        ensures
            b == (self@ == Map::<K::V, V>::empty()),
    {
        proof {
            use_type_invariant(self);
            lemma_contents(&*self.data, &*self.hasher);
            if self@.len() == 0 {
                assert(self@.dom() =~= Set::empty());
                assert(self@ =~= Map::<K::V, V>::empty());
            }
        }
        self.data.weight() == 0
    }

    /// The map that holds `value` for `key` and, for the other keys, what
    /// this one holds.
    pub fn insert(&self, key: K, value: V) -> (res: Self)
        requires
            self@.len() < usize::MAX,
        ensures
            res@ == self@.insert(key@, value),
            res.hasher() == self.hasher(),
    {
        proof {
            use_type_invariant(self);
            lemma_contents(&*self.data, &*self.hasher);
        }
        let hash = self.hasher.hash_one(&key);
        let address = BitShifter::new(hash);
        let new_data = Node::insert(&self.data, key, value, address);
        proof {
            assert(contents(*new_data, *self.hasher) =~= contents(
                *self.data,
                *self.hasher,
            ).insert(key@, value));
        }
        PerMap { data: new_data, hasher: share(&self.hasher) }
    }

    /// The value that the map holds for `key`.
    pub fn get(&self, key: &K) -> (res: Option<&V>)
        ensures
            match res {
                Some(v) => self@.contains_key(key@) && self@[key@] == *v,
                None => !self@.contains_key(key@),
            },
    {
        proof {
            use_type_invariant(self);
        }
        let hash = self.hasher.hash_one(key);
        let address = BitShifter::new(hash);
        self.data.get(key, address)
    }

    /// The map without `key`.
    pub fn remove(&self, key: &K) -> (res: Self)
        ensures
            res@ == self@.remove(key@),
            res.hasher() == self.hasher(),
    {
        proof {
            use_type_invariant(self);
        }
        let hash = self.hasher.hash_one(key);
        let address = BitShifter::new(hash);
        let new_data = Node::remove(&self.data, key, address);
        proof {
            assert(contents(*new_data, *self.hasher) =~= contents(
                *self.data,
                *self.hasher,
            ).remove(key@));
        }
        PerMap { data: new_data, hasher: share(&self.hasher) }
    }

    /// The map that holds what `other` holds and, for the other keys, what
    /// this one holds.
    pub fn union(&self, other: &PerMap<K, V, S>) -> (res: Self)
        requires
            self.same_hashes(other),
            self@.len() + other@.len() <= usize::MAX,
        ensures
            res@ == self@.union_prefer_right(other@),
            res@.dom().finite(),
            res@.len() <= self@.len() + other@.len(),
            res.hasher() == self.hasher(),
    {
        proof {
            use_type_invariant(self);
            use_type_invariant(other);
            lemma_contents(&*self.data, &*self.hasher);
            lemma_contents(&*other.data, &*other.hasher);
            assert forall|k: K::V|
                (#[trigger] self.hasher.spec_hash(k)) == other.hasher.spec_hash(k) by {
                assert(self.hasher().spec_hash(k) == other.hasher().spec_hash(k));
            }
        }
        let data = Node::merge(&self.data, &other.data, Ghost(16));
        proof {
            assert(contents(*data, *self.hasher) =~= contents(
                *self.data,
                *self.hasher,
            ).union_prefer_right(contents(*other.data, *other.hasher)));
            lemma_contents(&*data, &*self.hasher);
        }
        PerMap { data, hasher: share(&self.hasher) }
    }
}

impl<K: ViewEq, V, S: KeyHasher<K>> Clone for PerMap<K, V, S> {
    /// The same map; the two share all their nodes.
    fn clone(&self) -> (res: Self)
        ensures
            res@ == self@,
            res.hasher() == self.hasher(),
    {
        proof {
            use_type_invariant(self);
        }
        PerMap { data: share(&self.data), hasher: share(&self.hasher) }
    }
}

impl<K: ViewEq, V> PerMap<K, V, FxBuildHasher> where FxBuildHasher: KeyHasher<K> {
    /// The empty map with the default hasher.
    pub fn empty() -> (res: Self)
        ensures
            res@ == Map::<K::V, V>::empty(),
    {
        Self::with_hasher(fx_build_hasher())
    }
}

/// Whether `entries` holds each key of `map` with its value, and nothing
/// else.
pub open spec fn lists<K: View, V>(entries: Seq<Arc<(K, V)>>, map: Map<K::V, V>) -> bool {
    &&& map.dom().finite()
    &&& entries.len() == map.len()
    &&& forall|i: int|
        0 <= i < entries.len() ==> map.contains_pair((#[trigger] entries[i]).0@, entries[i].1)
    &&& forall|k: K::V|
        map.contains_key(k) ==> exists|i: int|
            0 <= i < entries.len() && (#[trigger] entries[i]).0@ == k
}

/// Two maps that hold different values for one key.
pub open spec fn map_conflict<K: View, V: View>(
    left: Map<K::V, V>,
    right: Map<K::V, V>,
    k: K,
    a: V,
    b: V,
) -> bool {
    &&& left.contains_pair(k@, a)
    &&& right.contains_pair(k@, b)
    &&& a@ != b@
}

impl<K: ViewEq + Clone, V: ViewEq + Clone, S: KeyHasher<K>> PerMap<K, V, S> {
    /// The map that holds what the two hold, where they hold values with the same
    /// view for each key that both have; else the first such key
    /// found for which they do not, with the two values.
    pub fn non_overriding_union(&self, other: &PerMap<K, V, S>) -> (res: Result<
        Self,
        MergeError<K, V>,
    >)
        requires
            self.same_hashes(other),
            self@.len() + other@.len() <= usize::MAX,
        ensures
            match res {
                Ok(m) => {
                    &&& m@ == other@.union_prefer_right(self@)
                    &&& m@.dom().finite()
                    &&& m@.len() <= self@.len() + other@.len()
                    &&& m.hasher() == self.hasher()
                    &&& forall|k: K::V|
                        self@.contains_key(k) && other@.contains_key(k) ==> (#[trigger] self@[k])@
                            == other@[k]@
                },
                Err(MergeError::ValueConflict { key, left_value, right_value }) => exists|
                    k: K,
                    a: V,
                    b: V,
                |
                    {
                        &&& #[trigger] map_conflict(self@, other@, k, a, b)
                        &&& cloned::<K>(k, key)
                        &&& cloned::<V>(a, left_value)
                        &&& cloned::<V>(b, right_value)
                    },
            },
    {
        proof {
            use_type_invariant(self);
            use_type_invariant(other);
            lemma_contents(&*self.data, &*self.hasher);
            lemma_contents(&*other.data, &*other.hasher);
            assert forall|k: K::V|
                (#[trigger] self.hasher.spec_hash(k)) == other.hasher.spec_hash(k) by {
                assert(self.hasher().spec_hash(k) == other.hasher().spec_hash(k));
            }
        }
        match Node::merge_without_overwrites(&self.data, &other.data, Ghost(16)) {
            Ok(data) => {
                proof {
                    assert(contents(*data, *self.hasher) =~= contents(
                        *other.data,
                        *other.hasher,
                    ).union_prefer_right(contents(*self.data, *self.hasher)));
                    lemma_contents(&*data, &*self.hasher);
                    assert forall|k: K::V|
                        self@.contains_key(k) && other@.contains_key(k) implies (
                    #[trigger] self@[k])@ == other@[k]@ by {
                        let rem = self.hasher.spec_hash(k);
                        assert(!crate::nodes::conflicts(
                            self.data.lookup(16, rem, k),
                            other.data.lookup(16, rem, k),
                        ));
                    }
                }
                Ok(PerMap { data, hasher: share(&self.hasher) })
            },
            Err(MergeError::ValueConflict { key, left_value, right_value }) => {
                proof {
                    let (rem, k, a, b) = choose|rem: u64, k: K, a: V, b: V|
                        {
                            &&& #[trigger] Node::conflict_at(
                                *self.data,
                                *other.data,
                                16,
                                rem,
                                k,
                                a,
                                b,
                            )
                            &&& cloned::<K>(k, key)
                            &&& cloned::<V>(a, left_value)
                            &&& cloned::<V>(b, right_value)
                        };
                    assert(map_conflict(self@, other@, k, a, b));
                }
                Err(MergeError::ValueConflict { key, left_value, right_value })
            },
        }
    }
}

} // verus!
