use crate::hashing::ViewEq;
use crate::sparse_vec::{empty_slots, lemma_positions, occupied_positions, SparseVec};
use std::sync::Arc;
use vstd::prelude::*;

verus! {

/// Why two maps could not be merged without overwriting.
#[derive(Debug, Clone, PartialEq, Eq)]
pub enum MergeError<K, V> {
    ValueConflict { key: K, left_value: V, right_value: V },
}

/// The number of addresses that `h` chunks of four bits tell apart.
pub open spec fn span(h: nat) -> nat
    decreases h,
{
    if h == 0 {
        1
    } else {
        16 * span((h - 1) as nat)
    }
}

/// A 64-bit hash that is consumed four bits at a time, lowest bits first.
#[derive(Clone, Copy)]
pub struct BitShifter {
    value: u64,
    shift: usize,
}

impl BitShifter {
    #[verifier::type_invariant]
    spec fn inv(self) -> bool {
        &&& self.shift <= 64
        &&& self.shift % 4 == 0
        &&& (self.value as nat) < span(((64 - self.shift) / 4) as nat)
    }

    /// The bits that are still to be consumed.
    pub closed spec fn rest(self) -> u64 {
        self.value
    }

    /// The number of chunks that are still to be consumed.
    pub closed spec fn height(self) -> nat {
        ((64 - self.shift) / 4) as nat
    }

    pub fn new(value: u64) -> (res: Self)
        ensures
            res.rest() == value,
            res.height() == 16,
    {
        proof {
            reveal_with_fuel(span, 17);
        }
        BitShifter { value, shift: 0 }
    }

    /// The lowest four bits and the address that is left without them, or
    /// `None` when all 64 bits are consumed.
    pub fn shift(&self) -> (res: Option<(BitShifter, u64)>)
        ensures
            match res {
                Some((next, chunk)) => {
                    &&& self.height() > 0
                    &&& next.height() == self.height() - 1
                    &&& chunk == self.rest() % 16
                    &&& next.rest() == self.rest() / 16
                },
                None => self.height() == 0 && self.rest() == 0,
            },
    {
        proof {
            use_type_invariant(self);
        }
        if self.shift < 64 {
            let value = self.value;
            let res = value & 0b1111;
            let next = value >> 4;
            proof {
                assert(value & 0b1111 == value % 16) by (bit_vector);
                assert(value >> 4 == value / 16) by (bit_vector);
            }
            Some((BitShifter { value: next, shift: self.shift + 4 }, res))
        } else {
            None
        }
    }
}

/// A node of the trie: a leaf holds the entries whose addresses are consumed,
/// a branch one child for each value of the next four bits.
pub enum Node<K, V> {
    Leaf { data: Vec<Arc<(K, V)>>, weight: usize },
    Branch { data: SparseVec<16, Arc<Node<K, V>>>, weight: usize },
}

/// Whether a leaf holds an entry for `key`.
pub open spec fn leaf_has<K: View, V>(data: Seq<Arc<(K, V)>>, key: K::V) -> bool {
    exists|i: int| 0 <= i < data.len() && (#[trigger] data[i]).0@ == key
}

/// The place of an entry for `key` in a leaf that has one.
pub open spec fn leaf_index<K: View, V>(data: Seq<Arc<(K, V)>>, key: K::V) -> int {
    choose|i: int| 0 <= i < data.len() && (#[trigger] data[i]).0@ == key
}

/// The value that a leaf holds for `key`.
pub open spec fn leaf_lookup<K: View, V>(data: Seq<Arc<(K, V)>>, key: K::V) -> Option<V> {
    if leaf_has(data, key) {
        Some(data[leaf_index(data, key)].1)
    } else {
        None
    }
}

/// No two entries of a leaf have the same key.
pub open spec fn leaf_distinct<K: View, V>(data: Seq<Arc<(K, V)>>) -> bool {
    forall|i: int, j: int|
        0 <= i < j < data.len() ==> (#[trigger] data[i]).0@ != (#[trigger] data[j]).0@
}

/// The sum of the weights of the children in the slots below `n`.
pub open spec fn weights_below<K, V>(slots: Seq<Option<Arc<Node<K, V>>>>, n: int) -> nat
    decreases n,
{
    if n <= 0 {
        0
    } else {
        weights_below(slots, n - 1) + match slots[n - 1] {
            Some(child) => child.spec_weight() as nat,
            None => 0,
        }
    }
}

pub proof fn lemma_leaf_lookup<K: View, V>(data: Seq<Arc<(K, V)>>, i: int)
    requires
        leaf_distinct(data),
        0 <= i < data.len(),
    ensures
        leaf_lookup(data, data[i].0@) == Some(data[i].1),
{
    let key = data[i].0@;
    assert(leaf_has(data, key));
    let j = leaf_index(data, key);
    assert(0 <= j < data.len() && data[j].0@ == key);
    if j < i {
        assert(false);
    }
    if i < j {
        assert(false);
    }
}

/// The first of two options that holds a value.
pub open spec fn or_else<V>(a: Option<V>, b: Option<V>) -> Option<V> {
    match a {
        Some(v) => Some(v),
        None => b,
    }
}

/// Two values for one key that differ by their views.
pub open spec fn conflicts<V: View>(l: Option<V>, r: Option<V>) -> bool {
    l matches Some(a) && r matches Some(b) && a@ != b@
}

pub proof fn lemma_leaf_push<K: View, V>(d: Seq<Arc<(K, V)>>, e: Arc<(K, V)>)
    requires
        leaf_distinct(d),
        !leaf_has(d, e.0@),
    ensures
        leaf_distinct(d.push(e)),
        forall|k: K::V| #[trigger]
            leaf_lookup(d.push(e), k) == if k == e.0@ {
                Some(e.1)
            } else {
                leaf_lookup(d, k)
            },
{
    let d2 = d.push(e);
    let last = d.len() as int;
    assert forall|i: int, j: int| 0 <= i < j < d2.len() implies (#[trigger] d2[i]).0@ != (
    #[trigger] d2[j]).0@ by {
        if j == last {
            assert(d[i].0@ != e.0@);
        }
    }
    assert forall|k: K::V| #[trigger]
        leaf_lookup(d2, k) == if k == e.0@ {
            Some(e.1)
        } else {
            leaf_lookup(d, k)
        } by {
        if k == e.0@ {
            lemma_leaf_lookup(d2, last);
        } else if leaf_has(d, k) {
            let i = leaf_index(d, k);
            assert(d2[i] == d[i]);
            lemma_leaf_lookup(d, i);
            lemma_leaf_lookup(d2, i);
        } else {
            if leaf_has(d2, k) {
                let i = leaf_index(d2, k);
                assert(d[i] == d2[i]);
            }
        }
    }
}

pub proof fn lemma_leaf_replace<K: View, V>(d: Seq<Arc<(K, V)>>, p: int, e: Arc<(K, V)>)
    requires
        leaf_distinct(d),
        0 <= p < d.len(),
        d[p].0@ == e.0@,
    ensures
        leaf_distinct(d.update(p, e)),
        forall|k: K::V| #[trigger]
            leaf_lookup(d.update(p, e), k) == if k == e.0@ {
                Some(e.1)
            } else {
                leaf_lookup(d, k)
            },
{
    let d2 = d.update(p, e);
    assert forall|i: int, j: int| 0 <= i < j < d2.len() implies (#[trigger] d2[i]).0@ != (
    #[trigger] d2[j]).0@ by {
        assert(d2[i].0@ == d[i].0@);
        assert(d2[j].0@ == d[j].0@);
    }
    assert forall|k: K::V| #[trigger]
        leaf_lookup(d2, k) == if k == e.0@ {
            Some(e.1)
        } else {
            leaf_lookup(d, k)
        } by {
        if k == e.0@ {
            lemma_leaf_lookup(d2, p);
        } else if leaf_has(d, k) {
            let i = leaf_index(d, k);
            assert(d2[i] == d[i]);
            lemma_leaf_lookup(d, i);
            lemma_leaf_lookup(d2, i);
        } else {
            if leaf_has(d2, k) {
                let i = leaf_index(d2, k);
                assert(d[i].0@ == d2[i].0@);
            }
        }
    }
}

pub proof fn lemma_leaf_remove<K: View, V>(d: Seq<Arc<(K, V)>>, p: int)
    requires
        leaf_distinct(d),
        0 <= p < d.len(),
    ensures
        leaf_distinct(d.remove(p)),
        forall|k: K::V| #[trigger]
            leaf_lookup(d.remove(p), k) == if k == d[p].0@ {
                None
            } else {
                leaf_lookup(d, k)
            },
{
    let d2 = d.remove(p);
    assert forall|i: int, j: int| 0 <= i < j < d2.len() implies (#[trigger] d2[i]).0@ != (
    #[trigger] d2[j]).0@ by {
        let i1 = if i < p { i } else { i + 1 };
        let j1 = if j < p { j } else { j + 1 };
        assert(d2[i] == d[i1]);
        assert(d2[j] == d[j1]);
    }
    assert forall|k: K::V| #[trigger]
        leaf_lookup(d2, k) == if k == d[p].0@ {
            None
        } else {
            leaf_lookup(d, k)
        } by {
        if leaf_has(d2, k) {
            let i = leaf_index(d2, k);
            let i1 = if i < p { i } else { i + 1 };
            assert(d2[i] == d[i1]);
            lemma_leaf_lookup(d, i1);
            lemma_leaf_lookup(d2, i);
            assert(d[i1].0@ != d[p].0@);
        } else if leaf_has(d, k) {
            let i = leaf_index(d, k);
            if i != p {
                let i2 = if i < p { i } else { i - 1 };
                assert(d2[i2] == d[i]);
                assert(false);
            }
        }
    }
}

pub proof fn lemma_weights_empty<K, V>(n: int)
    requires
        n <= 16,
    ensures
        weights_below(empty_slots::<Arc<Node<K, V>>>(16), n) == 0,
    decreases n,
{
    if n > 0 {
        lemma_weights_empty::<K, V>(n - 1);
    }
}

/// Changing one slot changes the sum of the weights by the difference there.
pub proof fn lemma_weights_update<K, V>(
    slots: Seq<Option<Arc<Node<K, V>>>>,
    i: int,
    slot: Option<Arc<Node<K, V>>>,
    n: int,
)
    requires
        0 <= i < slots.len(),
        0 <= n <= slots.len(),
    ensures
        i >= n ==> weights_below(slots.update(i, slot), n) == weights_below(slots, n),
        i < n ==> weights_below(slots.update(i, slot), n) + Node::slot_weight(slots[i])
            == weights_below(slots, n) + Node::slot_weight(slot),
        i < n ==> Node::slot_weight(slots[i]) <= weights_below(slots, n),
    decreases n,
{
    if n > 0 {
        lemma_weights_update(slots, i, slot, n - 1);
    }
}

/// `Arc::clone` of std, which hands out another pointer to the same value.
#[verifier::external_body]
pub(crate) fn share<T>(a: &Arc<T>) -> (res: Arc<T>)
    ensures
        res == *a,
{
    Arc::clone(a)
}

/// A vector with the same children in the same slots.
fn share_children<K, V>(c: &SparseVec<16, Arc<Node<K, V>>>) -> (res: SparseVec<
    16,
    Arc<Node<K, V>>,
>)
    requires
        c.wf(),
    ensures
        res.wf(),
        res@ == c@,
{
    broadcast use SparseVec::lemma_slots;

    let mut res: SparseVec<16, Arc<Node<K, V>>> = SparseVec::new();
    let mut p: usize = 0;
    while p < 16
        invariant
            p <= 16,
            c.wf(),
            res.wf(),
            res@.len() == 16,
            c@.len() == 16,
            forall|i: int| 0 <= i < p ==> res@[i] == c@[i],
            forall|i: int| p <= i < 16 ==> res@[i] is None,
        decreases 16 - p,
    {
        match c.get(p) {
            Some(n) => {
                res.insert(p, share(n));
            },
            None => {},
        }
        p += 1;
    }
    assert(res@ =~= c@);
    res
}

/// A vector with the same entries in the same order.
fn share_entries<K, V>(data: &Vec<Arc<(K, V)>>) -> (res: Vec<Arc<(K, V)>>)
    ensures
        res@ == data@,
{
    let mut res: Vec<Arc<(K, V)>> = Vec::new();
    let mut i: usize = 0;
    while i < data.len()
        invariant
            i <= data.len(),
            res@ == data@.subrange(0, i as int),
        decreases data.len() - i,
    {
        res.push(share(&data[i]));
        proof {
            assert(data@.subrange(0, i as int).push(data@[i as int]) =~= data@.subrange(
                0,
                i + 1,
            ));
        }
        i += 1;
    }
    assert(data@.subrange(0, data.len() as int) =~= data@);
    res
}

/// The place of the entry for `key` in a leaf, if it has one.
fn position<K: ViewEq, V>(data: &Vec<Arc<(K, V)>>, key: &K) -> (res: Option<usize>)
    requires
    ensures
        match res {
            Some(i) => i < data.len() && data[i as int].0@ == key@,
            None => !leaf_has(data@, key@),
        },
{
    let mut i: usize = 0;
    while i < data.len()
        invariant
            i <= data.len(),
            forall|j: int| 0 <= j < i ==> (#[trigger] data@[j]).0@ != key@,
        decreases data.len() - i,
    {
        if data[i].0.view_eq(key) {
            return Some(i);
        }
        i += 1;
    }
    None
}

impl<K, V> Node<K, V> {
    /// The number of entries that the node says it holds.
    pub open spec fn spec_weight(self) -> usize {
        match self {
            Node::Leaf { weight, .. } => weight,
            Node::Branch { weight, .. } => weight,
        }
    }

    /// The weight of the child in a slot, 0 for an empty slot.
    pub open spec fn slot_weight(slot: Option<Arc<Node<K, V>>>) -> nat {
        match slot {
            Some(child) => child.spec_weight() as nat,
            None => 0,
        }
    }

    pub fn weight(&self) -> (w: usize)
        ensures
            w == self.spec_weight(),
    {
        match self {
            Node::Branch { weight, .. } => *weight,
            Node::Leaf { weight, .. } => *weight,
        }
    }
}

impl<K: View, V> Node<K, V> {
    /// What the node holds for `key` under the address `rem`, of which
    /// `height` chunks are still to be consumed.
    pub open spec fn lookup(self, height: nat, rem: u64, key: K::V) -> Option<V>
        decreases height,
    {
        match self {
            Node::Leaf { data, .. } => if rem == 0 {
                leaf_lookup(data@, key)
            } else {
                None
            },
            Node::Branch { data, .. } => if height == 0 {
                None
            } else {
                match data@[(rem % 16) as int] {
                    Some(child) => child.lookup((height - 1) as nat, rem / 16, key),
                    None => None,
                }
            },
        }
    }

    /// What the child in a slot holds, nothing for an empty slot.
    pub open spec fn slot_lookup(
        slot: Option<Arc<Node<K, V>>>,
        height: nat,
        rem: u64,
        key: K::V,
    ) -> Option<V> {
        match slot {
            Some(child) => child.lookup(height, rem, key),
            None => None,
        }
    }

    /// The leaves lie `height` levels below the node and hold no key twice,
    /// and each weight is the number of entries below.
    pub open spec fn wf(self, height: nat) -> bool
        decreases height,
    {
        match self {
            Node::Leaf { data, weight } => {
                &&& height == 0
                &&& weight == data@.len()
                &&& leaf_distinct(data@)
            },
            Node::Branch { data, weight } => {
                &&& 0 < height <= 16
                &&& data.wf()
                &&& forall|i: int|
                    0 <= i < 16 ==> ((#[trigger] data@[i]) matches Some(child) ==> child.wf(
                        (height - 1) as nat,
                    ))
                &&& weight == weights_below(data@, 16)
            },
        }
    }

    /// Whether the child in a slot is well-formed; an empty slot is.
    pub open spec fn slot_wf(slot: Option<Arc<Node<K, V>>>, height: nat) -> bool {
        match slot {
            Some(child) => child.wf(height),
            None => true,
        }
    }

    /// A branch without children.
    pub fn empty_branch() -> (res: Self)
        ensures
            res.spec_weight() == 0,
            forall|h: nat| 0 < h <= 16 ==> #[trigger] res.wf(h),
            forall|h: nat, rem: u64, key: K::V| (#[trigger] res.lookup(h, rem, key)) is None,
    {
        let data: SparseVec<16, Arc<Node<K, V>>> = SparseVec::new();
        proof {
            lemma_weights_empty::<K, V>(16);
        }
        Node::Branch { data, weight: 0 }
    }

    /// The chain of nodes that holds the one entry at `address`.
    fn allocate(key: K, value: V, address: BitShifter) -> (res: Self)
        requires
            address.height() <= 16,
        ensures
            res.wf(address.height()),
            res.spec_weight() == 1,
            forall|rem: u64, k: K::V| #[trigger]
                res.lookup(address.height(), rem, k) == if rem == address.rest() && k == key@ {
                    Some(value)
                } else {
                    None
                },
        decreases address.height(),
    {
        broadcast use SparseVec::lemma_slots;

        match address.shift() {
            None => {
                let mut data: Vec<Arc<(K, V)>> = Vec::new();
                data.push(Arc::new((key, value)));
                let res = Node::Leaf { data, weight: 1 };
                proof {
                    lemma_leaf_lookup(data@, 0);
                    assert forall|rem: u64, k: K::V| #[trigger]
                        res.lookup(address.height(), rem, k) == if rem == address.rest() && k
                            == key@ {
                            Some(value)
                        } else {
                            None
                        } by {
                        if k != key@ {
                            assert(!leaf_has(data@, k));
                        }
                    }
                }
                res
            },
            Some((new_address, index)) => {
                let child = Node::allocate(key, value, new_address);
                let mut data: SparseVec<16, Arc<Node<K, V>>> = SparseVec::new();
                data.insert(index as usize, Arc::new(child));
                let res = Node::Branch { data, weight: 1 };
                proof {
                    lemma_weights_empty::<K, V>(16);
                    lemma_weights_update(
                        empty_slots::<Arc<Node<K, V>>>(16),
                        index as int,
                        data@[index as int],
                        16,
                    );
                    let h1 = new_address.height();
                    assert forall|rem: u64, k: K::V| #[trigger]
                        res.lookup(address.height(), rem, k) == if rem == address.rest() && k
                            == key@ {
                            Some(value)
                        } else {
                            None
                        } by {
                        if rem % 16 == index {
                            let found = child.lookup(h1, rem / 16, k);
                            assert(res.lookup(address.height(), rem, k) == found);
                        }
                    }
                }
                res
            },
        }
    }
}

impl<K: ViewEq, V> Node<K, V> {
    /// The value stored for `key` at `address`.
    pub fn get(&self, key: &K, address: BitShifter) -> (res: Option<&V>)
        requires
            self.wf(address.height()),
        ensures
            match res {
                Some(v) => self.lookup(address.height(), address.rest(), key@) == Some(*v),
                None => self.lookup(address.height(), address.rest(), key@) is None,
            },
        decreases address.height(),
    {
        broadcast use SparseVec::lemma_slots;

        match self {
            Node::Leaf { data, .. } => {
                proof {
                    use_type_invariant(&address);
                }
                match position(data, key) {
                    Some(i) => {
                        proof {
                            lemma_leaf_lookup(data@, i as int);
                        }
                        Some(&data[i].1)
                    },
                    None => None,
                }
            },
            Node::Branch { data, .. } => {
                match address.shift() {
                    Some((new_address, index)) => {
                        match data.get(index as usize) {
                            Some(node) => node.get(key, new_address),
                            None => None,
                        }
                    },
                    None => None,
                }
            },
        }
    }

    /// A node that holds `value` for `key` at `address` and, for the rest,
    /// what `node` holds.
    pub fn insert(node: &Arc<Node<K, V>>, key: K, value: V, address: BitShifter) -> (res: Arc<
        Node<K, V>,
    >)
        requires
            node.wf(address.height()),
            node.spec_weight() < usize::MAX,
        ensures
            res.wf(address.height()),
            forall|rem: u64, k: K::V| #[trigger]
                res.lookup(address.height(), rem, k) == if rem == address.rest() && k == key@ {
                    Some(value)
                } else {
                    node.lookup(address.height(), rem, k)
                },
            res.spec_weight() == node.spec_weight() + if node.lookup(
                address.height(),
                address.rest(),
                key@,
            ) is None {
                1int
            } else {
                0int
            },
        decreases address.height(),
    {
        broadcast use SparseVec::lemma_slots;

        let ghost h = address.height();
        let ghost key_view = key@;
        match &**node {
            Node::Leaf { data, weight } => {
                proof {
                    use_type_invariant(&address);
                }
                match position(data, &key) {
                    None => {
                        let entry = Arc::new((key, value));
                        proof {
                            lemma_leaf_push(data@, entry);
                        }
                        let mut new_data = share_entries(data);
                        new_data.push(entry);
                        Arc::new(Node::Leaf { data: new_data, weight: *weight + 1 })
                    },
                    Some(pos) => {
                        let entry = Arc::new((key, value));
                        proof {
                            lemma_leaf_replace(data@, pos as int, entry);
                            lemma_leaf_lookup(data@, pos as int);
                        }
                        let mut new_data = share_entries(data);
                        new_data[pos] = entry;
                        Arc::new(Node::Leaf { data: new_data, weight: *weight })
                    },
                }
            },
            Node::Branch { data, weight } => {
                match address.shift() {
                    Some((new_address, index)) => {
                        match data.get(index as usize) {
                            None => {
                                let new_node = Arc::new(Node::allocate(key, value, new_address));
                                let mut new_data = share_children(data);
                                new_data.insert(index as usize, new_node);
                                let res = Arc::new(
                                    Node::Branch { data: new_data, weight: *weight + 1 },
                                );
                                proof {
                                    lemma_weights_update(
                                        data@,
                                        index as int,
                                        Some(new_node),
                                        16,
                                    );
                                    let h1 = new_address.height();
                                    assert forall|rem: u64, k: K::V| #[trigger]
                                        res.lookup(h, rem, k) == if rem == address.rest() && k
                                            == key_view {
                                            Some(value)
                                        } else {
                                            node.lookup(h, rem, k)
                                        } by {
                                        if rem % 16 == index {
                                            let found = new_node.lookup(h1, rem / 16, k);
                                            assert(res.lookup(h, rem, k) == found);
                                        } else {
                                            assert(new_data@[(rem % 16) as int] == data@[(rem
                                                % 16) as int]);
                                        }
                                    }
                                }
                                res
                            },
                            Some(next) => {
                                proof {
                                    lemma_weights_update(data@, index as int, None, 16);
                                }
                                let new_node = Node::insert(next, key, value, new_address);
                                let mut new_data = share_children(data);
                                let add_weight = new_node.weight();
                                let rest = *weight - next.weight();
                                new_data.insert(index as usize, new_node);
                                let res = Arc::new(
                                    Node::Branch { data: new_data, weight: rest + add_weight },
                                );
                                proof {
                                    lemma_weights_update(
                                        data@,
                                        index as int,
                                        Some(new_node),
                                        16,
                                    );
                                    let h1 = new_address.height();
                                    assert forall|rem: u64, k: K::V| #[trigger]
                                        res.lookup(h, rem, k) == if rem == address.rest() && k
                                            == key_view {
                                            Some(value)
                                        } else {
                                            node.lookup(h, rem, k)
                                        } by {
                                        if rem % 16 == index {
                                            let found = new_node.lookup(h1, rem / 16, k);
                                            assert(res.lookup(h, rem, k) == found);
                                            assert(node.lookup(h, rem, k) == next.lookup(
                                                h1,
                                                rem / 16,
                                                k,
                                            ));
                                        } else {
                                            assert(new_data@[(rem % 16) as int] == data@[(rem
                                                % 16) as int]);
                                        }
                                    }
                                }
                                res
                            },
                        }
                    },
                    None => share(node),
                }
            },
        }
    }
}

/// The sum of the weights of a branch's children.
fn total_weight<K, V>(data: &SparseVec<16, Arc<Node<K, V>>>) -> (res: usize)
    requires
        data.wf(),
        weights_below(data@, 16) <= usize::MAX,
    ensures
        res == weights_below(data@, 16),
{
    broadcast use SparseVec::lemma_slots;

    let mut res: usize = 0;
    let mut p: usize = 0;
    while p < 16
        invariant
            p <= 16,
            data.wf(),
            data@.len() == 16,
            res == weights_below(data@, p as int),
            weights_below(data@, 16) <= usize::MAX,
        decreases 16 - p,
    {
        proof {
            lemma_weights_mono(data@, p + 1, 16);
        }
        match data.get(p) {
            Some(child) => {
                res = res + child.weight();
            },
            None => {},
        }
        p += 1;
    }
    res
}

proof fn lemma_weights_mono<K, V>(slots: Seq<Option<Arc<Node<K, V>>>>, m: int, n: int)
    requires
        0 <= m <= n,
    ensures
        weights_below(slots, m) <= weights_below(slots, n),
    decreases n - m,
{
    if m < n {
        lemma_weights_mono(slots, m, n - 1);
    }
}

/// Slots that each weigh no more than two others together weigh no more in
/// sum.
proof fn lemma_weights_sum<K, V>(
    left: Seq<Option<Arc<Node<K, V>>>>,
    right: Seq<Option<Arc<Node<K, V>>>>,
    res: Seq<Option<Arc<Node<K, V>>>>,
    n: int,
)
    requires
        forall|i: int|
            0 <= i < n ==> Node::slot_weight(#[trigger] res[i]) <= Node::slot_weight(left[i])
                + Node::slot_weight(right[i]),
    ensures
        weights_below(res, n) <= weights_below(left, n) + weights_below(right, n),
    decreases n,
{
    if n > 0 {
        lemma_weights_sum(left, right, res, n - 1);
        assert(Node::slot_weight(res[n - 1]) <= Node::slot_weight(left[n - 1])
            + Node::slot_weight(right[n - 1]));
    }
}

/// The entries of `left`, and those of `right` in place of or after them.
fn merge_leaves<K: ViewEq, V>(left: &Vec<Arc<(K, V)>>, right: &Vec<Arc<(K, V)>>) -> (res:
    Vec<Arc<(K, V)>>)
    requires
        leaf_distinct(left@),
        leaf_distinct(right@),
    ensures
        leaf_distinct(res@),
        res@.len() <= left@.len() + right@.len(),
        forall|k: K::V| #[trigger]
            leaf_lookup(res@, k) == or_else(leaf_lookup(right@, k), leaf_lookup(left@, k)),
{
    let mut res = share_entries(left);
    let mut j: usize = 0;
    proof {
        assert forall|k: K::V| !leaf_has(right@.subrange(0, 0), k) by {}
    }
    while j < right.len()
        invariant
            j <= right.len(),
            leaf_distinct(res@),
            leaf_distinct(right@),
            res@.len() <= left@.len() + j,
            forall|k: K::V| #[trigger]
                leaf_lookup(res@, k) == or_else(
                    leaf_lookup(right@.subrange(0, j as int), k),
                    leaf_lookup(left@, k),
                ),
        decreases right.len() - j,
    {
        let r = &right[j];
        proof {
            lemma_leaf_prefix(right@, j as int);
        }
        match position(&res, &r.0) {
            Some(p) => {
                proof {
                    lemma_leaf_replace(res@, p as int, *r);
                }
                res[p] = share(r);
            },
            None => {
                proof {
                    lemma_leaf_push(res@, *r);
                }
                res.push(share(r));
            },
        }
        j += 1;
    }
    assert(right@.subrange(0, right@.len() as int) =~= right@);
    res
}

/// What one more entry adds to the first `j` entries of a leaf.
proof fn lemma_leaf_prefix<K: View, V>(d: Seq<Arc<(K, V)>>, j: int)
    requires
        leaf_distinct(d),
        0 <= j < d.len(),
    ensures
        leaf_lookup(d, d[j].0@) == Some(d[j].1),
        !leaf_has(d.subrange(0, j), d[j].0@),
        forall|k: K::V| #[trigger]
            leaf_lookup(d.subrange(0, j + 1), k) == if k == d[j].0@ {
                Some(d[j].1)
            } else {
                leaf_lookup(d.subrange(0, j), k)
            },
{
    let pre = d.subrange(0, j);
    lemma_leaf_lookup(d, j);
    assert(pre.push(d[j]) =~= d.subrange(0, j + 1));
    assert forall|a: int, b: int| 0 <= a < b < pre.len() implies (#[trigger] pre[a]).0@ != (
    #[trigger] pre[b]).0@ by {
        assert(pre[a] == d[a]);
        assert(pre[b] == d[b]);
    }
    if leaf_has(pre, d[j].0@) {
        let i = leaf_index(pre, d[j].0@);
        assert(pre[i] == d[i]);
        assert(false);
    }
    lemma_leaf_push(pre, d[j]);
}

impl<K: ViewEq, V> Node<K, V> {
    /// A slot that holds what `l` and `r` hold, `r` first.
    pub open spec fn slot_merged(
        l: Option<Arc<Node<K, V>>>,
        r: Option<Arc<Node<K, V>>>,
        m: Option<Arc<Node<K, V>>>,
        h: nat,
    ) -> bool {
        &&& Self::slot_wf(m, h)
        &&& Self::slot_weight(m) <= Self::slot_weight(l) + Self::slot_weight(r)
        &&& forall|rem: u64, k: K::V| #[trigger]
            Self::slot_lookup(m, h, rem, k) == or_else(
                Self::slot_lookup(r, h, rem, k),
                Self::slot_lookup(l, h, rem, k),
            )
    }

    /// A node that holds what `right` holds and, for the rest, what `left`
    /// holds.
    pub fn merge(left: &Arc<Node<K, V>>, right: &Arc<Node<K, V>>, Ghost(height): Ghost<nat>) -> (res:
        Arc<Node<K, V>>)
        requires
            left.wf(height),
            right.wf(height),
            left.spec_weight() + right.spec_weight() <= usize::MAX,
        ensures
            res.wf(height),
            res.spec_weight() <= left.spec_weight() + right.spec_weight(),
            forall|rem: u64, k: K::V| #[trigger]
                res.lookup(height, rem, k) == or_else(
                    right.lookup(height, rem, k),
                    left.lookup(height, rem, k),
                ),
        decreases height,
    {
        broadcast use SparseVec::lemma_slots;

        match (&**left, &**right) {
            (Node::Leaf { data: left_data, .. }, Node::Leaf { data: right_data, .. }) => {
                let res = merge_leaves(left_data, right_data);
                let weight = res.len();
                Arc::new(Node::Leaf { data: res, weight })
            },
            (Node::Branch { data: left_data, .. }, Node::Branch { data: right_data, .. }) => {
                let ghost h1 = (height - 1) as nat;
                let mut res = share_children(left_data);
                let keys = right_data.keys();
                let mut j: usize = 0;
                while j < keys.len()
                    invariant
                        j <= keys.len(),
                        h1 + 1 == height,
                        keys@ == occupied_positions(right_data@),
                        left_data.wf(),
                        right_data.wf(),
                        res.wf(),
                        left_data@.len() == 16,
                        right_data@.len() == 16,
                        res@.len() == 16,
                        forall|i: int| 0 <= i < 16 ==> Self::slot_wf(#[trigger] left_data@[i], h1),
                        forall|i: int|
                            0 <= i < 16 ==> Self::slot_wf(#[trigger] right_data@[i], h1),
                        weights_below(left_data@, 16) + weights_below(right_data@, 16)
                            <= usize::MAX,
                        forall|i: int|
                            0 <= i < 16 ==> if keys@.subrange(0, j as int).contains(i as usize) {
                                Self::slot_merged(
                                    left_data@[i],
                                    right_data@[i],
                                    #[trigger] res@[i],
                                    h1,
                                )
                            } else {
                                res@[i] == left_data@[i]
                            },
                    decreases keys.len() - j,
                {
                    let k = keys[j];
                    proof {
                        lemma_positions(right_data@, 16, k);
                        assert(keys@.contains(k));
                        lemma_weights_update(left_data@, k as int, None, 16);
                        lemma_weights_update(right_data@, k as int, None, 16);
                    }
                    let ghost before = res@;
                    match right_data.get(k) {
                        Some(r) => {
                            match left_data.get(k) {
                                Some(node) => {
                                    let m = Node::merge(node, r, Ghost(h1));
                                    res.insert(k, m);
                                },
                                None => {
                                    res.insert(k, share(r));
                                },
                            }
                        },
                        None => {},
                    }
                    proof {
                        let done = keys@.subrange(0, j as int);
                        let more = keys@.subrange(0, j + 1);
                        assert(more =~= done.push(k));
                        assert(more[j as int] == k);
                        assert forall|i: int| 0 <= i < 16 implies if more.contains(i as usize) {
                            Self::slot_merged(
                                left_data@[i],
                                right_data@[i],
                                #[trigger] res@[i],
                                h1,
                            )
                        } else {
                            res@[i] == left_data@[i]
                        } by {
                            if i == k {
                            } else {
                                assert(res@[i] == before[i]);
                                if done.contains(i as usize) {
                                    let a = choose|a: int|
                                        0 <= a < done.len() && done[a] == i as usize;
                                    assert(more[a] == i as usize);
                                } else if more.contains(i as usize) {
                                    let a = choose|a: int|
                                        0 <= a < more.len() && more[a] == i as usize;
                                    assert(done[a] == i as usize);
                                }
                            }
                        }
                    }
                    j += 1;
                }
                proof {
                    assert(keys@.subrange(0, keys@.len() as int) =~= keys@);
                    assert forall|i: int| 0 <= i < 16 implies Self::slot_merged(
                        left_data@[i],
                        right_data@[i],
                        #[trigger] res@[i],
                        h1,
                    ) by {
                        lemma_positions(right_data@, 16, i as usize);
                    }
                    lemma_weights_sum(left_data@, right_data@, res@, 16);
                }
                let weight = total_weight(&res);
                let merged = Arc::new(Node::Branch { data: res, weight });
                proof {
                    assert forall|rem: u64, k: K::V| #[trigger]
                        merged.lookup(height, rem, k) == or_else(
                            right.lookup(height, rem, k),
                            left.lookup(height, rem, k),
                        ) by {
                        let i = (rem % 16) as int;
                        assert(Self::slot_merged(left_data@[i], right_data@[i], res@[i], h1));
                        assert(merged.lookup(height, rem, k) == Self::slot_lookup(
                            res@[i],
                            h1,
                            rem / 16,
                            k,
                        ));
                        assert(left.lookup(height, rem, k) == Self::slot_lookup(
                            left_data@[i],
                            h1,
                            rem / 16,
                            k,
                        ));
                        assert(right.lookup(height, rem, k) == Self::slot_lookup(
                            right_data@[i],
                            h1,
                            rem / 16,
                            k,
                        ));
                    }
                }
                merged
            },
            _ => share(left),
        }
    }
}

/// An address under which a well-formed node holds something has no more
/// chunks than the node is high.
pub proof fn lemma_lookup_bound<K: View, V>(node: &Node<K, V>, height: nat, rem: u64, key: K::V)
    requires
        node.wf(height),
        node.lookup(height, rem, key) is Some,
    ensures
        rem < span(height),
    decreases height,
{
    match node {
        Node::Leaf { .. } => {},
        Node::Branch { data, .. } => {
            data.lemma_slots();
            let child = data@[(rem % 16) as int]->0;
            lemma_lookup_bound(&*child, (height - 1) as nat, rem / 16, key);
        },
    }
}

/// Two leaves that hold different values for one key.
pub open spec fn leaf_conflict<K: View, V: View>(
    left: Seq<Arc<(K, V)>>,
    right: Seq<Arc<(K, V)>>,
    k: K,
    a: V,
    b: V,
) -> bool {
    &&& leaf_lookup(left, k@) == Some(a)
    &&& leaf_lookup(right, k@) == Some(b)
    &&& a@ != b@
}

/// The entries of `left`, and after them those of `right` for other keys,
/// unless the two hold different values for one key.
fn merge_leaves_strict<K: ViewEq + Clone, V: ViewEq + Clone>(
    left: &Vec<Arc<(K, V)>>,
    right: &Vec<Arc<(K, V)>>,
) -> (res: Result<Vec<Arc<(K, V)>>, MergeError<K, V>>)
    requires
        leaf_distinct(left@),
        leaf_distinct(right@),
    ensures
        match res {
            Ok(d) => {
                &&& leaf_distinct(d@)
                &&& d@.len() <= left@.len() + right@.len()
                &&& forall|k: K::V| #[trigger]
                    leaf_lookup(d@, k) == or_else(leaf_lookup(left@, k), leaf_lookup(right@, k))
                &&& forall|k: K::V|
                    !conflicts(#[trigger] leaf_lookup(left@, k), leaf_lookup(right@, k))
            },
            Err(MergeError::ValueConflict { key, left_value, right_value }) => exists|
                k: K,
                a: V,
                b: V,
            |
                {
                    &&& #[trigger] leaf_conflict(left@, right@, k, a, b)
                    &&& cloned::<K>(k, key)
                    &&& cloned::<V>(a, left_value)
                    &&& cloned::<V>(b, right_value)
                },
        },
{
    let mut res = share_entries(left);
    let mut j: usize = 0;
    proof {
        assert forall|k: K::V| !leaf_has(right@.subrange(0, 0), k) by {}
    }
    while j < right.len()
        invariant
            j <= right.len(),
            leaf_distinct(res@),
            leaf_distinct(right@),
            res@.len() <= left@.len() + j,
            forall|k: K::V| #[trigger]
                leaf_lookup(res@, k) == or_else(
                    leaf_lookup(left@, k),
                    leaf_lookup(right@.subrange(0, j as int), k),
                ),
            forall|k: K::V|
                !conflicts(
                    #[trigger] leaf_lookup(left@, k),
                    leaf_lookup(right@.subrange(0, j as int), k),
                ),
        decreases right.len() - j,
    {
        let r = &right[j];
        proof {
            lemma_leaf_prefix(right@, j as int);
        }
        match position(&res, &r.0) {
            Some(p) => {
                proof {
                    lemma_leaf_lookup(res@, p as int);
                    assert(leaf_lookup(res@, r.0@) == Some(res@[p as int].1));
                    assert(leaf_lookup(left@, r.0@) == Some(res@[p as int].1));
                }
                if !res[p].1.view_eq(&r.1) {
                    let key = r.0.clone();
                    let left_value = res[p].1.clone();
                    let right_value = r.1.clone();
                    proof {
                        let k = r.0;
                        let a = res@[p as int].1;
                        let b = r.1;
                        assert(leaf_conflict(left@, right@, k, a, b) && cloned::<K>(k, key)
                            && cloned::<V>(a, left_value) && cloned::<V>(b, right_value));
                    }
                    return Err(MergeError::ValueConflict { key, left_value, right_value });
                }
            },
            None => {
                proof {
                    lemma_leaf_push(res@, *r);
                }
                res.push(share(r));
            },
        }
        j += 1;
    }
    assert(right@.subrange(0, right@.len() as int) =~= right@);
    Ok(res)
}

impl<K: ViewEq + Clone, V: ViewEq + Clone> Node<K, V> {
    /// A slot that holds what `l` and `r` hold, which agree where both hold
    /// something.
    pub open spec fn slot_joined(
        l: Option<Arc<Node<K, V>>>,
        r: Option<Arc<Node<K, V>>>,
        m: Option<Arc<Node<K, V>>>,
        h: nat,
    ) -> bool {
        &&& Self::slot_wf(m, h)
        &&& Self::slot_weight(m) <= Self::slot_weight(l) + Self::slot_weight(r)
        &&& forall|rem: u64, k: K::V| #[trigger]
            Self::slot_lookup(m, h, rem, k) == or_else(
                Self::slot_lookup(l, h, rem, k),
                Self::slot_lookup(r, h, rem, k),
            )
        &&& forall|rem: u64, k: K::V|
            !conflicts(#[trigger] Self::slot_lookup(l, h, rem, k), Self::slot_lookup(r, h, rem, k))
    }

    /// Two nodes that hold different values for one key at one address.
    pub open spec fn conflict_at(
        left: Node<K, V>,
        right: Node<K, V>,
        height: nat,
        rem: u64,
        k: K,
        a: V,
        b: V,
    ) -> bool {
        &&& left.lookup(height, rem, k@) == Some(a)
        &&& right.lookup(height, rem, k@) == Some(b)
        &&& a@ != b@
    }

    /// A node that holds what `left` and `right` hold, or the first key found
    /// for which they hold different values, with those values.
    pub fn merge_without_overwrites(
        left: &Arc<Node<K, V>>,
        right: &Arc<Node<K, V>>,
        Ghost(height): Ghost<nat>,
    ) -> (res: Result<Arc<Node<K, V>>, MergeError<K, V>>)
        requires
            left.wf(height),
            right.wf(height),
            left.spec_weight() + right.spec_weight() <= usize::MAX,
        ensures
            match res {
                Ok(m) => {
                    &&& m.wf(height)
                    &&& m.spec_weight() <= left.spec_weight() + right.spec_weight()
                    &&& forall|rem: u64, k: K::V| #[trigger]
                        m.lookup(height, rem, k) == or_else(
                            left.lookup(height, rem, k),
                            right.lookup(height, rem, k),
                        )
                    &&& forall|rem: u64, k: K::V|
                        !conflicts(
                            #[trigger] left.lookup(height, rem, k),
                            right.lookup(height, rem, k),
                        )
                },
                Err(MergeError::ValueConflict { key, left_value, right_value }) => exists|
                    rem: u64,
                    k: K,
                    a: V,
                    b: V,
                |
                    {
                        &&& #[trigger] Self::conflict_at(**left, **right, height, rem, k, a, b)
                        &&& cloned::<K>(k, key)
                        &&& cloned::<V>(a, left_value)
                        &&& cloned::<V>(b, right_value)
                    },
            },
        decreases height,
    {
        broadcast use SparseVec::lemma_slots;

        match (&**left, &**right) {
            (Node::Leaf { data: left_data, .. }, Node::Leaf { data: right_data, .. }) => {
                match merge_leaves_strict(left_data, right_data) {
                    Ok(res) => {
                        let weight = res.len();
                        Ok(Arc::new(Node::Leaf { data: res, weight }))
                    },
                    Err(MergeError::ValueConflict { key, left_value, right_value }) => {
                        proof {
                            let (k, a, b) = choose|k: K, a: V, b: V|
                                {
                                    &&& #[trigger] leaf_conflict(left_data@, right_data@, k, a, b)
                                    &&& cloned::<K>(k, key)
                                    &&& cloned::<V>(a, left_value)
                                    &&& cloned::<V>(b, right_value)
                                };
                            assert(Self::conflict_at(**left, **right, height, 0, k, a, b));
                        }
                        Err(MergeError::ValueConflict { key, left_value, right_value })
                    },
                }
            },
            (Node::Branch { data: left_data, .. }, Node::Branch { data: right_data, .. }) => {
                let ghost h1 = (height - 1) as nat;
                let mut res = share_children(left_data);
                let keys = right_data.keys();
                let mut j: usize = 0;
                while j < keys.len()
                    invariant
                        j <= keys.len(),
                        h1 + 1 == height,
                        height <= 16,
                        **left == (Node::Branch { data: *left_data, weight: left.spec_weight() }),
                        **right == (Node::Branch {
                            data: *right_data,
                            weight: right.spec_weight(),
                        }),
                        keys@ == occupied_positions(right_data@),
                        left_data.wf(),
                        right_data.wf(),
                        res.wf(),
                        left_data@.len() == 16,
                        right_data@.len() == 16,
                        res@.len() == 16,
                        forall|i: int| 0 <= i < 16 ==> Self::slot_wf(#[trigger] left_data@[i], h1),
                        forall|i: int|
                            0 <= i < 16 ==> Self::slot_wf(#[trigger] right_data@[i], h1),
                        weights_below(left_data@, 16) + weights_below(right_data@, 16)
                            <= usize::MAX,
                        forall|i: int|
                            0 <= i < 16 ==> if keys@.subrange(0, j as int).contains(i as usize) {
                                Self::slot_joined(
                                    left_data@[i],
                                    right_data@[i],
                                    #[trigger] res@[i],
                                    h1,
                                )
                            } else {
                                res@[i] == left_data@[i]
                            },
                    decreases keys.len() - j,
                {
                    let k = keys[j];
                    proof {
                        lemma_positions(right_data@, 16, k);
                        assert(keys@.contains(k));
                        lemma_weights_update(left_data@, k as int, None, 16);
                        lemma_weights_update(right_data@, k as int, None, 16);
                    }
                    let ghost before = res@;
                    match right_data.get(k) {
                        Some(r) => {
                            match left_data.get(k) {
                                Some(node) => {
                                    match Node::merge_without_overwrites(node, r, Ghost(h1)) {
                                        Ok(m) => {
                                            res.insert(k, m);
                                        },
                                        Err(
                                            MergeError::ValueConflict {
                                                key,
                                                left_value,
                                                right_value,
                                            },
                                        ) => {
                                            proof {
                                                let (rem1, k0, a, b) = choose|
                                                    rem1: u64,
                                                    k0: K,
                                                    a: V,
                                                    b: V,
                                                |
                                                    {
                                                        &&& #[trigger] Self::conflict_at(
                                                            **node,
                                                            **r,
                                                            h1,
                                                            rem1,
                                                            k0,
                                                            a,
                                                            b,
                                                        )
                                                        &&& cloned::<K>(k0, key)
                                                        &&& cloned::<V>(a, left_value)
                                                        &&& cloned::<V>(b, right_value)
                                                    };
                                                lemma_lookup_bound(&**node, h1, rem1, k0@);
                                                lemma_span_bound(h1);
                                                let rem = (rem1 * 16 + k) as u64;
                                                assert(rem % 16 == k && rem / 16 == rem1);
                                                assert(Self::conflict_at(
                                                    **left,
                                                    **right,
                                                    height,
                                                    rem,
                                                    k0,
                                                    a,
                                                    b,
                                                ));
                                            }
                                            return Err(
                                                MergeError::ValueConflict {
                                                    key,
                                                    left_value,
                                                    right_value,
                                                },
                                            );
                                        },
                                    }
                                },
                                None => {
                                    res.insert(k, share(r));
                                },
                            }
                        },
                        None => {},
                    }
                    proof {
                        let done = keys@.subrange(0, j as int);
                        let more = keys@.subrange(0, j + 1);
                        assert(more =~= done.push(k));
                        assert(more[j as int] == k);
                        assert forall|i: int| 0 <= i < 16 implies if more.contains(i as usize) {
                            Self::slot_joined(
                                left_data@[i],
                                right_data@[i],
                                #[trigger] res@[i],
                                h1,
                            )
                        } else {
                            res@[i] == left_data@[i]
                        } by {
                            if i == k {
                            } else {
                                assert(res@[i] == before[i]);
                                if done.contains(i as usize) {
                                    let a = choose|a: int|
                                        0 <= a < done.len() && done[a] == i as usize;
                                    assert(more[a] == i as usize);
                                } else if more.contains(i as usize) {
                                    let a = choose|a: int|
                                        0 <= a < more.len() && more[a] == i as usize;
                                    assert(done[a] == i as usize);
                                }
                            }
                        }
                    }
                    j += 1;
                }
                proof {
                    assert(keys@.subrange(0, keys@.len() as int) =~= keys@);
                    assert forall|i: int| 0 <= i < 16 implies Self::slot_joined(
                        left_data@[i],
                        right_data@[i],
                        #[trigger] res@[i],
                        h1,
                    ) by {
                        lemma_positions(right_data@, 16, i as usize);
                    }
                    lemma_weights_sum(left_data@, right_data@, res@, 16);
                }
                let weight = total_weight(&res);
                let merged = Arc::new(Node::Branch { data: res, weight });
                proof {
                    assert forall|rem: u64, k: K::V|
                        !conflicts(
                            #[trigger] left.lookup(height, rem, k),
                            right.lookup(height, rem, k),
                        ) by {
                        let i = (rem % 16) as int;
                        assert(Self::slot_joined(left_data@[i], right_data@[i], res@[i], h1));
                        assert(left.lookup(height, rem, k) == Self::slot_lookup(
                            left_data@[i],
                            h1,
                            rem / 16,
                            k,
                        ));
                        assert(right.lookup(height, rem, k) == Self::slot_lookup(
                            right_data@[i],
                            h1,
                            rem / 16,
                            k,
                        ));
                    }
                    assert forall|rem: u64, k: K::V| #[trigger]
                        merged.lookup(height, rem, k) == or_else(
                            left.lookup(height, rem, k),
                            right.lookup(height, rem, k),
                        ) by {
                        let i = (rem % 16) as int;
                        assert(Self::slot_joined(left_data@[i], right_data@[i], res@[i], h1));
                        assert(merged.lookup(height, rem, k) == Self::slot_lookup(
                            res@[i],
                            h1,
                            rem / 16,
                            k,
                        ));
                        assert(left.lookup(height, rem, k) == Self::slot_lookup(
                            left_data@[i],
                            h1,
                            rem / 16,
                            k,
                        ));
                        assert(right.lookup(height, rem, k) == Self::slot_lookup(
                            right_data@[i],
                            h1,
                            rem / 16,
                            k,
                        ));
                    }
                }
                Ok(merged)
            },
            _ => Ok(share(left)),
        }
    }
}

/// Fifteen chunks of four bits leave room for one more in 64 bits.
pub proof fn lemma_span_bound(h: nat)
    requires
        h <= 15,
    ensures
        span(h) <= 0x1000_0000_0000_0000,
    decreases 15 - h,
{
    reveal_with_fuel(span, 16);
    if h < 15 {
        lemma_span_bound(h + 1);
    }
}

impl<K: ViewEq, V> Node<K, V> {
    /// A node that holds nothing for `key` at `address` and, for the rest,
    /// what `node` holds.
    pub fn remove(node: &Arc<Node<K, V>>, key: &K, address: BitShifter) -> (res: Arc<Node<K, V>>)
        requires
            node.wf(address.height()),
        ensures
            res.wf(address.height()),
            forall|rem: u64, k: K::V| #[trigger]
                res.lookup(address.height(), rem, k) == if rem == address.rest() && k == key@ {
                    None
                } else {
                    node.lookup(address.height(), rem, k)
                },
            res.spec_weight() + (if node.lookup(address.height(), address.rest(), key@) is Some {
                1int
            } else {
                0int
            }) == node.spec_weight(),
        decreases address.height(),
    {
        broadcast use SparseVec::lemma_slots;

        let ghost h = address.height();
        match &**node {
            Node::Leaf { data, weight } => {
                proof {
                    use_type_invariant(&address);
                }
                match position(data, key) {
                    None => share(node),
                    Some(pos) => {
                        let mut new_data = share_entries(data);
                        let gone = new_data.remove(pos);
                        proof {
                            lemma_leaf_remove(data@, pos as int);
                            lemma_leaf_lookup(data@, pos as int);
                        }
                        Arc::new(Node::Leaf { data: new_data, weight: *weight - 1 })
                    },
                }
            },
            Node::Branch { data, weight } => {
                match address.shift() {
                    Some((new_address, index)) => {
                        match data.get(index as usize) {
                            None => share(node),
                            Some(next) => {
                                proof {
                                    lemma_weights_update(data@, index as int, None, 16);
                                }
                                let new_node = Node::remove(next, key, new_address);
                                let mut new_data = share_children(data);
                                let new_weight = new_node.weight();
                                let rest = *weight - next.weight();
                                new_data.insert(index as usize, new_node);
                                let res = Arc::new(
                                    Node::Branch { data: new_data, weight: rest + new_weight },
                                );
                                proof {
                                    lemma_weights_update(
                                        data@,
                                        index as int,
                                        Some(new_node),
                                        16,
                                    );
                                    let h1 = new_address.height();
                                    assert forall|rem: u64, k: K::V| #[trigger]
                                        res.lookup(h, rem, k) == if rem == address.rest() && k
                                            == key@ {
                                            None
                                        } else {
                                            node.lookup(h, rem, k)
                                        } by {
                                        if rem % 16 == index {
                                            let found = new_node.lookup(h1, rem / 16, k);
                                            assert(res.lookup(h, rem, k) == found);
                                            assert(node.lookup(h, rem, k) == next.lookup(
                                                h1,
                                                rem / 16,
                                                k,
                                            ));
                                        } else {
                                            assert(new_data@[(rem % 16) as int] == data@[(rem
                                                % 16) as int]);
                                        }
                                    }
                                }
                                res
                            },
                        }
                    },
                    None => share(node),
                }
            },
        }
    }
}

impl<K: View, V> Node<K, V> {
    /// The addresses and keys under which the node holds something.
    pub open spec fn pairs(&self, height: nat) -> Set<(u64, K::V)> {
        Set::new(|p: (u64, K::V)| self.lookup(height, p.0, p.1) is Some)
    }
}

/// The keys of the first `n` entries of a leaf, each at the address 0.
spec fn leaf_pairs<K: View, V>(d: Seq<Arc<(K, V)>>, n: int) -> Set<(u64, K::V)> {
    Set::new(|p: (u64, K::V)| p.0 == 0 && exists|i: int| 0 <= i < n && (#[trigger] d[i]).0@ == p.1)
}

/// What the children in the slots below `n` hold, under the addresses that
/// lead to them.
spec fn slots_pairs<K: View, V>(slots: Seq<Option<Arc<Node<K, V>>>>, h: nat, n: int) -> Set<
    (u64, K::V),
> {
    Set::new(
        |p: (u64, K::V)|
            p.0 % 16 < n && Node::slot_lookup(slots[(p.0 % 16) as int], h, p.0 / 16, p.1) is Some,
    )
}

/// What the child in slot `i` holds, under the addresses that lead to it.
spec fn slot_pairs<K: View, V>(slot: Option<Arc<Node<K, V>>>, h: nat, i: int) -> Set<(u64, K::V)> {
    Set::new(|p: (u64, K::V)| p.0 % 16 == i && Node::slot_lookup(slot, h, p.0 / 16, p.1) is Some)
}

/// The address that leads through slot `i` to the address `q.0` below it.
spec fn through<A>(i: int) -> spec_fn((u64, A)) -> (u64, A) {
    |q: (u64, A)| ((q.0 * 16 + i) as u64, q.1)
}

proof fn lemma_leaf_pairs<K: View, V>(d: Seq<Arc<(K, V)>>, n: int)
    requires
        leaf_distinct(d),
        0 <= n <= d.len(),
    ensures
        leaf_pairs(d, n).finite(),
        leaf_pairs(d, n).len() == n,
    decreases n,
{
    broadcast use vstd::set::group_set_axioms;

    if n == 0 {
        assert(leaf_pairs(d, 0) =~= Set::empty());
    } else {
        lemma_leaf_pairs(d, n - 1);
        let e = (0u64, d[n - 1].0@);
        let before = leaf_pairs(d, n - 1);
        assert(leaf_pairs(d, n) =~= before.insert(e));
        if before.contains(e) {
            let i = choose|i: int| 0 <= i < n - 1 && (#[trigger] d[i]).0@ == e.1;
            assert(d[i].0@ != d[n - 1].0@);
        }
    }
}

/// A well-formed node holds as many entries as it weighs.
pub proof fn lemma_pairs<K: View, V>(node: &Node<K, V>, height: nat)
    requires
        node.wf(height),
    ensures
        node.pairs(height).finite(),
        node.pairs(height).len() == node.spec_weight(),
    decreases height, 0int,
{
    match node {
        Node::Leaf { data, .. } => {
            let d = data@;
            lemma_leaf_pairs(d, d.len() as int);
            assert(node.pairs(height) =~= leaf_pairs(d, d.len() as int)) by {
                assert forall|p: (u64, K::V)|
                    node.pairs(height).contains(p) <==> leaf_pairs(d, d.len() as int).contains(
                        p,
                    ) by {
                    if leaf_has(d, p.1) {
                        let i = leaf_index(d, p.1);
                        assert(d[i].0@ == p.1);
                    }
                }
            }
        },
        Node::Branch { data, .. } => {
            data.lemma_slots();
            let h = (height - 1) as nat;
            lemma_slots_pairs(data@, h, 16);
            assert(node.pairs(height) =~= slots_pairs(data@, h, 16));
        },
    }
}

proof fn lemma_slots_pairs<K: View, V>(slots: Seq<Option<Arc<Node<K, V>>>>, h: nat, n: int)
    requires
        slots.len() == 16,
        0 <= n <= 16,
        h <= 15,
        forall|i: int| 0 <= i < 16 ==> Node::slot_wf(#[trigger] slots[i], h),
    ensures
        slots_pairs(slots, h, n).finite(),
        slots_pairs(slots, h, n).len() == weights_below(slots, n),
    decreases h, n,
{
    broadcast use vstd::set::group_set_axioms;

    if n == 0 {
        assert(slots_pairs(slots, h, 0) =~= Set::empty());
    } else {
        let i = n - 1;
        lemma_slots_pairs(slots, h, i);
        let before = slots_pairs(slots, h, i);
        let here = slot_pairs(slots[i], h, i);
        assert(slots_pairs(slots, h, n) =~= before + here);
        assert(before.disjoint(here));
        assert(Node::slot_wf(slots[i], h));
        match slots[i] {
            None => {
                assert(here =~= Set::empty());
            },
            Some(child) => {
                lemma_pairs(&*child, h);
                let below = child.pairs(h);
                let f = through::<K::V>(i);
                lemma_span_bound(h);
                assert forall|q: (u64, K::V)| below.contains(q) implies q.0
                    < 0x1000_0000_0000_0000 && (#[trigger] f(q)).0 % 16 == i && f(q).0 / 16
                    == q.0 by {
                    lemma_lookup_bound(&*child, h, q.0, q.1);
                }
                assert(vstd::relations::injective_on(f, below));
                assert(below.map(f) =~= here) by {
                    assert forall|p: (u64, K::V)| here.contains(p) implies below.map(f).contains(
                        p,
                    ) by {
                        let q = ((p.0 / 16) as u64, p.1);
                        assert(below.contains(q));
                        assert(f(q) == p);
                    }
                }
                vstd::set_lib::lemma_map_size(below, here, f);
            },
        }
        vstd::set_lib::lemma_set_disjoint_lens(before, here);
    }
}

} // verus!
