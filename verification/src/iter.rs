use crate::nodes::{
    leaf_index, lemma_leaf_lookup, lemma_lookup_bound, lemma_span_bound, weights_below, Node,
};
use crate::sparse_vec::{
    lemma_value_place, lemma_value_slot, occupied_values, values_below, SparseVec,
};
use crate::tripper::{
    leaves_below, lemma_same_leaves, lemma_same_sizes, nodes_below, Cursor, Layer, TreeIterable,
    Tripper,
};
use std::sync::Arc;
use vstd::prelude::*;

verus! {

/// The entries below a node, leaf by leaf, the children of each branch in
/// ascending order of their slots.
pub open spec fn entries<K, V>(node: &Node<K, V>, height: nat) -> Seq<Arc<(K, V)>>
    decreases height, 0nat,
{
    match *node {
        Node::Leaf { data, .. } => data@,
        Node::Branch { data, .. } => if height == 0 {
            Seq::empty()
        } else {
            children_entries(occupied_values(data@), (height - 1) as nat)
        },
    }
}

/// The entries below each of `nodes`, in their order.
pub open spec fn children_entries<K, V>(nodes: Seq<Arc<Node<K, V>>>, height: nat) -> Seq<
    Arc<(K, V)>,
>
    decreases height, nodes.len(),
{
    if nodes.len() == 0 {
        Seq::empty()
    } else {
        entries(&*nodes[0], height) + children_entries(nodes.skip(1), height)
    }
}

/// The number of nodes at and below a node.
spec fn size<K, V>(node: &Node<K, V>, height: nat) -> nat
    decreases height, 0nat,
{
    match *node {
        Node::Leaf { .. } => 1,
        Node::Branch { data, .. } => if height == 0 {
            1
        } else {
            1 + children_size(occupied_values(data@), (height - 1) as nat)
        },
    }
}

/// The number of nodes at and below each of `nodes`.
spec fn children_size<K, V>(nodes: Seq<Arc<Node<K, V>>>, height: nat) -> nat
    decreases height, nodes.len(),
{
    if nodes.len() == 0 {
        0
    } else {
        size(&*nodes[0], height) + children_size(nodes.skip(1), height)
    }
}

/// Every branch lies above the level of the leaves and has well-formed
/// slots.
pub open spec fn shaped<K, V>(node: &Node<K, V>, height: nat) -> bool
    decreases height,
{
    match *node {
        Node::Leaf { .. } => true,
        Node::Branch { data, .. } => {
            &&& 0 < height <= 16
            &&& data.wf()
            &&& forall|i: int|
                0 <= i < 16 ==> ((#[trigger] data@[i]) matches Some(child) ==> shaped(
                    &*child,
                    (height - 1) as nat,
                ))
        },
    }
}

/// A well-formed node is shaped.
pub proof fn lemma_shaped<K: View, V>(node: &Node<K, V>, height: nat)
    requires
        node.wf(height),
    ensures
        shaped(&*node, height),
    decreases height,
{
    match node {
        Node::Leaf { .. } => {},
        Node::Branch { data, .. } => {
            assert forall|i: int| 0 <= i < 16 implies ((#[trigger] data@[i]) matches Some(child)
                ==> shaped(&*child, (height - 1) as nat)) by {
                if let Some(child) = data@[i] {
                    lemma_shaped(&*child, (height - 1) as nat);
                }
            }
        },
    }
}

/// A place in a leaf: the entries from `index` on are still to come.
pub struct LeafIter<'a, K, V> {
    data: &'a Vec<Arc<(K, V)>>,
    index: usize,
}

/// An iterator over the entries of a map. It keeps, for each branch on the
/// way to the leaf it is in, the children that are still to be visited.
pub struct Iter<'a, K, V> {
    stack: Vec<crate::sparse_vec::Iter<'a, 16, Arc<Node<K, V>>>>,
    leaves: Option<LeafIter<'a, K, V>>,
}

/// The entries that are left in a leaf.
spec fn leaf_rest<'a, K, V>(leaves: Option<LeafIter<'a, K, V>>) -> Seq<Arc<(K, V)>> {
    match leaves {
        Some(it) => it.data@.skip(it.index as int),
        None => Seq::empty(),
    }
}

/// The entries below the children that the first `n` levels of the stack
/// still hold, the deepest level first.
spec fn stack_entries<'a, K, V>(
    stack: Seq<crate::sparse_vec::Iter<'a, 16, Arc<Node<K, V>>>>,
    n: int,
) -> Seq<Arc<(K, V)>>
    decreases n,
{
    if n <= 0 {
        Seq::empty()
    } else {
        children_entries(stack[n - 1].remaining(), (16 - n) as nat) + stack_entries(stack, n - 1)
    }
}

/// The number of nodes that the first `n` levels of the stack still hold.
spec fn stack_size<'a, K, V>(
    stack: Seq<crate::sparse_vec::Iter<'a, 16, Arc<Node<K, V>>>>,
    n: int,
) -> nat
    decreases n,
{
    if n <= 0 {
        0
    } else {
        children_size(stack[n - 1].remaining(), (16 - n) as nat) + stack_size(stack, n - 1)
    }
}

/// The children that level `i` of the stack still holds are shaped.
spec fn level_shaped<'a, K, V>(
    it: crate::sparse_vec::Iter<'a, 16, Arc<Node<K, V>>>,
    i: int,
) -> bool {
    forall|j: int|
        0 <= j < it.remaining().len() ==> shaped(&*(#[trigger] it.remaining()[j]), (15 - i) as nat)
}

proof fn lemma_stack_prefix<'a, K, V>(
    a: Seq<crate::sparse_vec::Iter<'a, 16, Arc<Node<K, V>>>>,
    b: Seq<crate::sparse_vec::Iter<'a, 16, Arc<Node<K, V>>>>,
    n: int,
)
    requires
        n <= a.len(),
        n <= b.len(),
        forall|i: int| 0 <= i < n ==> a[i] == b[i],
    ensures
        stack_entries(a, n) == stack_entries(b, n),
        stack_size(a, n) == stack_size(b, n),
    decreases n,
{
    if n > 0 {
        lemma_stack_prefix(a, b, n - 1);
    }
}

impl<'a, K, V> Iter<'a, K, V> {
    /// The stack is no higher than the trie, and what it holds is shaped.
    pub closed spec fn wf(&self) -> bool {
        &&& self.stack@.len() <= 16
        &&& forall|i: int| 0 <= i < self.stack@.len() ==> level_shaped(#[trigger] self.stack@[i], i)
        &&& match self.leaves {
            Some(it) => it.index <= it.data@.len(),
            None => true,
        }
    }

    /// The entries that are still to come.
    pub closed spec fn remaining(&self) -> Seq<Arc<(K, V)>> {
        leaf_rest(self.leaves) + stack_entries(self.stack@, self.stack@.len() as int)
    }

    /// An iterator over the entries below `root`, the root of a map.
    pub fn new(root: &'a Node<K, V>) -> (res: Self)
        requires
            shaped(&*root, 16),
        ensures
            res.wf(),
            res.remaining() == entries(&*root, 16),
    {
        let mut stack: Vec<crate::sparse_vec::Iter<'a, 16, Arc<Node<K, V>>>> = Vec::new();
        match root {
            Node::Branch { data, .. } => {
                broadcast use SparseVec::lemma_slots;

                let bottom = data.iter();
                stack.push(bottom);
                proof {
                    assert forall|j: int| 0 <= j < bottom.remaining().len() implies shaped(
                        &*(#[trigger] bottom.remaining()[j]),
                        15,
                    ) by {
                        let p = lemma_value_slot(data@, 16, j);
                    }
                    assert(stack_entries(stack@, 0) =~= Seq::empty());
                    assert(stack_entries(stack@, 1) =~= entries(&*root, 16));
                }
                Iter { stack, leaves: None }
            },
            Node::Leaf { data, .. } => {
                proof {
                    assert(data@.skip(0) =~= data@);
                }
                Iter { stack, leaves: Some(LeafIter { data, index: 0 }) }
            },
        }
    }

    /// The next entry, if one is left.
    pub fn next(&mut self) -> (res: Option<&'a Arc<(K, V)>>)
        requires
            old(self).wf(),
        ensures
            final(self).wf(),
            match res {
                Some(e) => old(self).remaining().len() > 0 && *e == old(self).remaining()[0]
                    && final(self).remaining() == old(self).remaining().skip(1),
                None => old(self).remaining().len() == 0 && final(self).remaining().len() == 0,
            },
    {
        match &self.leaves {
            Some(it) => {
                let data = it.data;
                let index = it.index;
                if index < data.len() {
                    let e = &data[index];
                    self.leaves = Some(LeafIter { data, index: index + 1 });
                    proof {
                        assert(data@.skip(index as int).skip(1) =~= data@.skip(index + 1));
                        assert(self.remaining() =~= old(self).remaining().skip(1));
                    }
                    return Some(e);
                }
            },
            None => {},
        }
        assert(leaf_rest(self.leaves) =~= Seq::empty());
        let mut found: Option<&'a Arc<(K, V)>> = None;
        loop
            invariant_except_break
                self.remaining() == old(self).remaining(),
                leaf_rest(self.leaves).len() == 0,
            invariant
                self.wf(),
            ensures
                self.wf(),
                match found {
                    Some(e) => old(self).remaining().len() > 0 && *e == old(self).remaining()[0]
                        && self.remaining() == old(self).remaining().skip(1),
                    None => old(self).remaining().len() == 0 && self.remaining().len() == 0,
                },
            decreases 2 * stack_size(self.stack@, self.stack@.len() as int) + self.stack@.len(),
        {
            let ghost before = self.stack@;
            let ghost n = before.len() as int;
            let ghost start = self.remaining();
            match self.stack.pop() {
                None => {
                    proof {
                        assert(self.remaining() =~= Seq::empty());
                    }
                    found = None;
                    break ;
                },
                Some(mut it) => {
                    let ghost below = self.stack@;
                    let ghost h = (16 - n) as nat;
                    let ghost all = it.remaining();
                    proof {
                        assert(it == before[n - 1]);
                        assert(level_shaped(before[n - 1], n - 1));
                        lemma_stack_prefix(before, below, n - 1);
                        assert(start =~= children_entries(all, h) + stack_entries(below, n - 1));
                        assert(stack_size(before, n) == children_size(all, h) + stack_size(
                            below,
                            n - 1,
                        ));
                    }
                    match it.next() {
                        None => {
                            proof {
                                assert(self.remaining() =~= old(self).remaining());
                            }
                        },
                        Some(node) => {
                            self.stack.push(it);
                            let ghost back = self.stack@;
                            proof {
                                assert(all.skip(1) == it.remaining());
                                assert(*node == all[0]);
                                assert(shaped(&**node, h));
                                lemma_stack_prefix(back, below, n - 1);
                                assert(back[n - 1] == it);
                                assert(children_size(all, h) == size(&**node, h) + children_size(
                                    all.skip(1),
                                    h,
                                ));
                                assert(stack_size(back, n) == children_size(all.skip(1), h)
                                    + stack_size(below, n - 1));
                                assert forall|j: int|
                                    0 <= j < it.remaining().len() implies shaped(
                                    &*(#[trigger] it.remaining()[j]),
                                    h,
                                ) by {
                                    assert(it.remaining()[j] == all[j + 1]);
                                }
                                assert forall|i: int| 0 <= i < back.len() implies level_shaped(
                                    #[trigger] back[i],
                                    i,
                                ) by {
                                    if i < n - 1 {
                                        assert(back[i] == before[i]);
                                    }
                                }
                            }
                            match &**node {
                                Node::Leaf { data, .. } => {
                                    if data.len() > 0 {
                                        self.leaves = Some(LeafIter { data, index: 1 });
                                        proof {
                                            assert(entries(&**node, h) == data@);
                                            assert(children_entries(all, h) == data@
                                                + children_entries(all.skip(1), h));
                                            assert(start =~= data@ + children_entries(
                                                all.skip(1),
                                                h,
                                            ) + stack_entries(below, n - 1));
                                            assert(self.remaining() =~= data@.skip(1)
                                                + children_entries(all.skip(1), h)
                                                + stack_entries(below, n - 1));
                                            assert(self.remaining() =~= old(
                                                self,
                                            ).remaining().skip(1));
                                        }
                                        found = Some(&data[0]);
                                        break ;
                                    } else {
                                        proof {
                                            assert(entries(&**node, h) =~= Seq::empty());
                                            assert(children_entries(all, h) == entries(
                                                &**node,
                                                h,
                                            ) + children_entries(all.skip(1), h));
                                            assert(self.remaining() =~= start);
                                        }
                                    }
                                },
                                Node::Branch { data, .. } => {
                                    broadcast use SparseVec::lemma_slots;

                                    let inner = data.iter();
                                    self.stack.push(inner);
                                    proof {
                                        let deeper = self.stack@;
                                        lemma_stack_prefix(deeper, back, n);
                                        assert(deeper[n] == inner);
                                        assert(stack_size(deeper, n + 1) == children_size(
                                            inner.remaining(),
                                            (h - 1) as nat,
                                        ) + stack_size(deeper, n));
                                        assert forall|j: int|
                                            0 <= j < inner.remaining().len() implies shaped(
                                            &*(#[trigger] inner.remaining()[j]),
                                            (h - 1) as nat,
                                        ) by {
                                            let p = lemma_value_slot(data@, 16, j);
                                        }
                                        assert forall|i: int|
                                            0 <= i < deeper.len() implies level_shaped(
                                            #[trigger] deeper[i],
                                            i,
                                        ) by {
                                            if i < n {
                                                assert(deeper[i] == back[i]);
                                            }
                                        }
                                        assert(stack_entries(deeper, n + 1) == children_entries(
                                            inner.remaining(),
                                            (h - 1) as nat,
                                        ) + stack_entries(deeper, n));
                                        assert(stack_entries(back, n) == children_entries(
                                            all.skip(1),
                                            h,
                                        ) + stack_entries(below, n - 1));
                                        assert(entries(&**node, h) == children_entries(
                                            inner.remaining(),
                                            (h - 1) as nat,
                                        ));
                                        assert(children_entries(all, h) == entries(&**node, h)
                                            + children_entries(all.skip(1), h));
                                        assert(self.remaining() =~= start);
                                    }
                                },
                            }
                        },
                    }
                },
            }
        }
        found
    }
}

/// The node, and the place among its entries, that the entry at place `j`
/// below `nodes` comes from.
pub proof fn lemma_children_split<K, V>(nodes: Seq<Arc<Node<K, V>>>, h: nat, j: int) -> (r: (
    int,
    int,
))
    requires
        0 <= j < children_entries(nodes, h).len(),
    ensures
        0 <= r.0 < nodes.len(),
        0 <= r.1 < entries(&*nodes[r.0], h).len(),
        children_entries(nodes, h)[j] == entries(&*nodes[r.0], h)[r.1],
    decreases nodes.len(),
{
    let first = entries(&*nodes[0], h);
    if j < first.len() {
        (0, j)
    } else {
        let r = lemma_children_split(nodes.skip(1), h, j - first.len());
        (r.0 + 1, r.1)
    }
}

/// The place below `nodes` of the entry at place `e` of the node at place
/// `i`.
pub proof fn lemma_children_join<K, V>(nodes: Seq<Arc<Node<K, V>>>, h: nat, i: int, e: int) -> (j:
    int)
    requires
        0 <= i < nodes.len(),
        0 <= e < entries(&*nodes[i], h).len(),
    ensures
        0 <= j < children_entries(nodes, h).len(),
        children_entries(nodes, h)[j] == entries(&*nodes[i], h)[e],
    decreases nodes.len(),
{
    if i == 0 {
        e
    } else {
        let j = lemma_children_join(nodes.skip(1), h, i - 1, e);
        entries(&*nodes[0], h).len() + j
    }
}

/// An address under which a node holds the entry at place `j`.
pub proof fn lemma_entry_address<K: View, V>(node: &Node<K, V>, h: nat, j: int) -> (rem: u64)
    requires
        node.wf(h),
        0 <= j < entries(&*node, h).len(),
    ensures
        node.lookup(h, rem, entries(&*node, h)[j].0@) == Some(entries(&*node, h)[j].1),
    decreases h,
{
    match node {
        Node::Leaf { data, .. } => {
            lemma_leaf_lookup(data@, j);
            0
        },
        Node::Branch { data, .. } => {
            data.lemma_slots();
            let h1 = (h - 1) as nat;
            let vals = occupied_values(data@);
            let r = lemma_children_split(vals, h1, j);
            let p = lemma_value_slot(data@, 16, r.0);
            let child = vals[r.0];
            let r1 = lemma_entry_address(&*child, h1, r.1);
            let e = entries(&*node, h)[j];
            lemma_lookup_bound(&*child, h1, r1, e.0@);
            lemma_span_bound(h1);
            let rem = (r1 * 16 + p) as u64;
            assert(rem % 16 == p && rem / 16 == r1);
            rem
        },
    }
}

/// The place among a node's entries of what it holds for `key` at `rem`.
pub proof fn lemma_entry_index<K: View, V>(node: &Node<K, V>, h: nat, rem: u64, key: K::V) -> (j:
    int)
    requires
        node.wf(h),
        node.lookup(h, rem, key) is Some,
    ensures
        0 <= j < entries(&*node, h).len(),
        entries(&*node, h)[j].0@ == key,
        Some(entries(&*node, h)[j].1) == node.lookup(h, rem, key),
    decreases h,
{
    match node {
        Node::Leaf { data, .. } => {
            let j = leaf_index(data@, key);
            lemma_leaf_lookup(data@, j);
            j
        },
        Node::Branch { data, .. } => {
            data.lemma_slots();
            let h1 = (h - 1) as nat;
            let p = (rem % 16) as int;
            let child = data@[p]->0;
            let e = lemma_entry_index(&*child, h1, rem / 16, key);
            let i = lemma_value_place(data@, 16, p);
            lemma_children_join(occupied_values(data@), h1, i, e)
        },
    }
}

proof fn lemma_children_push<K, V>(nodes: Seq<Arc<Node<K, V>>>, last: Arc<Node<K, V>>, h: nat)
    ensures
        children_entries(nodes.push(last), h) == children_entries(nodes, h) + entries(&*last, h),
    decreases nodes.len(),
{
    let all = nodes.push(last);
    if nodes.len() == 0 {
        assert(all.skip(1) =~= Seq::empty());
        assert(all[0] == last);
        assert(children_entries(all.skip(1), h) =~= Seq::empty());
        assert(children_entries(all, h) == entries(&*all[0], h) + children_entries(
            all.skip(1),
            h,
        ));
        assert(children_entries(all, h) =~= entries(&*last, h));
        assert(children_entries(nodes, h) + entries(&*last, h) =~= entries(&*last, h));
    } else {
        lemma_children_push(nodes.skip(1), last, h);
        assert(all.skip(1) =~= nodes.skip(1).push(last));
        assert(all[0] == nodes[0]);
        assert(children_entries(all, h) == entries(&*all[0], h) + children_entries(
            all.skip(1),
            h,
        ));
        assert(children_entries(all, h) =~= children_entries(nodes, h) + entries(&*last, h));
    }
}

/// A well-formed node has as many entries as it weighs.
pub proof fn lemma_entries_len<K: View, V>(node: &Node<K, V>, h: nat)
    requires
        node.wf(h),
    ensures
        entries(&*node, h).len() == node.spec_weight(),
    decreases h, 0int,
{
    match node {
        Node::Leaf { .. } => {},
        Node::Branch { data, .. } => {
            data.lemma_slots();
            lemma_slots_len(data@, (h - 1) as nat, 16);
        },
    }
}

proof fn lemma_slots_len<K: View, V>(slots: Seq<Option<Arc<Node<K, V>>>>, h: nat, n: int)
    requires
        slots.len() == 16,
        0 <= n <= 16,
        forall|i: int| 0 <= i < 16 ==> Node::slot_wf(#[trigger] slots[i], h),
    ensures
        children_entries(values_below(slots, n), h).len() == weights_below(slots, n),
    decreases h, n,
{
    if n > 0 {
        lemma_slots_len(slots, h, n - 1);
        assert(Node::slot_wf(slots[n - 1], h));
        match slots[n - 1] {
            Some(child) => {
                lemma_entries_len(&*child, h);
                lemma_children_push(values_below(slots, n - 1), child, h);
            },
            None => {},
        }
    }
}

/// The values of `items`, by reference.
pub open spec fn refs<'a, T>(items: Seq<T>) -> Seq<&'a T> {
    Seq::new(items.len(), |i: int| &items[i])
}

/// The nodes that `nodes` point to, by reference.
pub open spec fn pointees<'a, K, V>(nodes: Seq<Arc<Node<K, V>>>) -> Seq<&'a Node<K, V>> {
    Seq::new(nodes.len(), |i: int| &*nodes[i])
}

impl<'a, K, V> Cursor for LeafIter<'a, K, V> {
    type Item = &'a Arc<(K, V)>;

    closed spec fn ready(&self) -> bool {
        self.index <= self.data@.len()
    }

    closed spec fn remaining(&self) -> Seq<&'a Arc<(K, V)>> {
        refs(self.data@.skip(self.index as int))
    }

    fn next(&mut self) -> (res: Option<&'a Arc<(K, V)>>) {
        if self.index < self.data.len() {
            let entry = &self.data[self.index];
            self.index = self.index + 1;
            proof {
                assert(self.remaining() =~= old(self).remaining().skip(1));
            }
            Some(entry)
        } else {
            None
        }
    }
}

impl<'a, K, V> Cursor for Iter<'a, K, V> {
    type Item = &'a Arc<(K, V)>;

    open spec fn ready(&self) -> bool {
        self.wf()
    }

    open spec fn remaining(&self) -> Seq<&'a Arc<(K, V)>> {
        refs(Iter::remaining(self))
    }

    fn next(&mut self) -> (res: Option<&'a Arc<(K, V)>>) {
        let res = Iter::next(self);
        proof {
            if res is Some {
                assert(Cursor::remaining(self) =~= Cursor::remaining(old(self)).skip(1));
            }
        }
        res
    }
}

/// The children of a branch that are still to be visited.
pub struct Children<'a, K, V> {
    inner: crate::sparse_vec::Iter<'a, 16, Arc<Node<K, V>>>,
}

impl<'a, K, V> Cursor for Children<'a, K, V> {
    type Item = &'a Node<K, V>;

    open spec fn ready(&self) -> bool {
        true
    }

    closed spec fn remaining(&self) -> Seq<&'a Node<K, V>> {
        pointees(self.inner.remaining())
    }

    fn next(&mut self) -> (res: Option<&'a Node<K, V>>) {
        match self.inner.next() {
            Some(child) => {
                proof {
                    assert(self.remaining() =~= old(self).remaining().skip(1));
                }
                Some(&**child)
            },
            None => None,
        }
    }
}

/// A node that is shaped for one height is shaped for a greater one, and has
/// the same entries and nodes below it.
proof fn lemma_height<K, V>(node: &Node<K, V>, h: nat)
    requires
        shaped(node, h),
        h < 16,
    ensures
        shaped(node, h + 1),
        entries(node, h) == entries(node, h + 1),
        size(node, h) == size(node, h + 1),
    decreases h, 0nat,
{
    match node {
        Node::Leaf { .. } => {},
        Node::Branch { data, .. } => {
            data.lemma_slots();
            let values = occupied_values(data@);
            assert forall|j: int| 0 <= j < values.len() implies shaped(
                &*#[trigger] values[j],
                (h - 1) as nat,
            ) by {
                let p = lemma_value_slot(data@, 16, j);
            }
            lemma_children_height(values, (h - 1) as nat);
            assert forall|i: int| 0 <= i < 16 implies ((#[trigger] data@[i]) matches Some(child)
                ==> shaped(&*child, h)) by {
                if let Some(child) = data@[i] {
                    lemma_height(&*child, (h - 1) as nat);
                }
            }
        },
    }
}

proof fn lemma_children_height<K, V>(nodes: Seq<Arc<Node<K, V>>>, h: nat)
    requires
        h < 16,
        forall|j: int| 0 <= j < nodes.len() ==> shaped(&*#[trigger] nodes[j], h),
    ensures
        children_entries(nodes, h) == children_entries(nodes, h + 1),
        children_size(nodes, h) == children_size(nodes, h + 1),
    decreases h, nodes.len(),
{
    if nodes.len() > 0 {
        lemma_height(&*nodes[0], h);
        assert forall|j: int| 0 <= j < nodes.skip(1).len() implies shaped(
            &*#[trigger] nodes.skip(1)[j],
            h,
        ) by {
            assert(nodes.skip(1)[j] == nodes[j + 1]);
        }
        lemma_children_height(nodes.skip(1), h);
    }
}

/// What the children of a branch hold, child by child.
proof fn lemma_children_walk<'a, K, V>(nodes: Seq<Arc<Node<K, V>>>)
    requires
        forall|j: int| 0 <= j < nodes.len() ==> shaped(&*#[trigger] nodes[j], 15),
    ensures
        refs::<Arc<(K, V)>>(children_entries(nodes, 15)) == leaves_below(
            pointees::<K, V>(nodes),
            |node: &'a Node<K, V>| refs::<Arc<(K, V)>>(entries(node, 16)),
        ),
        children_size(nodes, 15) == nodes_below(
            pointees::<K, V>(nodes),
            |node: &'a Node<K, V>| size(node, 16),
        ),
    decreases nodes.len(),
{
    let leaves = |node: &'a Node<K, V>| refs::<Arc<(K, V)>>(entries(node, 16));
    let sizes = |node: &'a Node<K, V>| size(node, 16);
    let all = pointees::<K, V>(nodes);
    if nodes.len() == 0 {
        assert(refs::<Arc<(K, V)>>(children_entries(nodes, 15)) =~= leaves_below(all, leaves));
    } else {
        lemma_height(&*nodes[0], 15);
        assert forall|j: int| 0 <= j < nodes.skip(1).len() implies shaped(
            &*#[trigger] nodes.skip(1)[j],
            15,
        ) by {
            assert(nodes.skip(1)[j] == nodes[j + 1]);
        }
        lemma_children_walk::<K, V>(nodes.skip(1));
        assert(all.skip(1) =~= pointees::<K, V>(nodes.skip(1)));
        assert(all[0] == &*nodes[0]);
        assert(refs::<Arc<(K, V)>>(children_entries(nodes, 15)) =~= leaves(all[0])
            + leaves_below(all.skip(1), leaves));
    }
}

/// A trie as a tree whose leaves are its entries.
pub struct Trie<'a, K, V> {
    root: &'a Node<K, V>,
}

impl<'a, K, V> TreeIterable for Trie<'a, K, V> {
    type Node = &'a Node<K, V>;

    type Leaf = &'a Arc<(K, V)>;

    type NodesIterator = Children<'a, K, V>;

    type LeavesIterator = LeafIter<'a, K, V>;

    open spec fn valid(node: &'a Node<K, V>) -> bool {
        shaped(node, 16)
    }

    open spec fn leaves(node: &'a Node<K, V>) -> Seq<&'a Arc<(K, V)>> {
        refs(entries(node, 16))
    }

    closed spec fn size(node: &'a Node<K, V>) -> nat {
        size(node, 16)
    }

    fn layer_iterator(n: &'a Node<K, V>) -> (res: Layer<Children<'a, K, V>, LeafIter<'a, K, V>>) {
        match n {
            Node::Branch { data, .. } => {
                broadcast use SparseVec::lemma_slots;

                let inner = data.iter();
                let children = Children { inner };
                proof {
                    let values = occupied_values(data@);
                    assert forall|j: int| 0 <= j < values.len() implies shaped(
                        &*#[trigger] values[j],
                        15,
                    ) by {
                        let p = lemma_value_slot(data@, 16, j);
                    }
                    lemma_children_walk::<K, V>(values);
                    lemma_same_leaves(
                        children.remaining(),
                        |node: &'a Node<K, V>| refs::<Arc<(K, V)>>(entries(node, 16)),
                        |node: &'a Node<K, V>| Self::leaves(node),
                    );
                    lemma_same_sizes(
                        children.remaining(),
                        |node: &'a Node<K, V>| size(node, 16),
                        |node: &'a Node<K, V>| Self::size(node),
                    );
                    assert forall|i: int| 0 <= i < children.remaining().len() implies Self::valid(
                        #[trigger] children.remaining()[i],
                    ) by {
                        lemma_height(&*values[i], 15);
                    }
                }
                Layer::Nodes(children)
            },
            Node::Leaf { data, .. } => {
                proof {
                    assert(data@.skip(0) =~= data@);
                }
                Layer::Leaves(LeafIter { data, index: 0 })
            },
        }
    }

    fn root(&self) -> (res: &'a Node<K, V>)
        ensures
            res == self.top(),
    {
        self.root
    }
}

impl<'a, K, V> Trie<'a, K, V> {
    /// The trie below `root`.
    pub(crate) fn new(root: &'a Node<K, V>) -> (res: Self)
        ensures
            res.top() == root,
    {
        Trie { root }
    }

    /// The root of the trie.
    pub closed spec fn top(&self) -> &'a Node<K, V> {
        self.root
    }

    /// A walk over the entries of the trie.
    pub fn tree_iterator(&self) -> (res: Tripper<Self>)
        requires
            shaped(self.top(), 16),
        ensures
            res.wf(),
            res.remaining() == refs::<Arc<(K, V)>>(entries(self.top(), 16)),
    {
        Tripper::over(self.root())
    }
}

} // verus!
