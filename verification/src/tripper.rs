use vstd::prelude::*;

verus! {

/// What a node of a tree holds: nodes or leaves.
pub enum Layer<NI, LI> {
    Nodes(NI),
    Leaves(LI),
}

/// Something that hands out items one after another until none is left.
pub trait Cursor {
    type Item;

    /// Whether the cursor can be asked for an item.
    spec fn ready(&self) -> bool;

    /// The items that are still to come.
    spec fn remaining(&self) -> Seq<Self::Item>;

    fn next(&mut self) -> (res: Option<Self::Item>)
        requires
            old(self).ready(),
        ensures
            final(self).ready(),
            match res {
                Some(item) => old(self).remaining().len() > 0 && item == old(self).remaining()[0]
                    && final(self).remaining() == old(self).remaining().skip(1),
                None => old(self).remaining().len() == 0 && final(self).remaining().len() == 0,
            },
    ;
}

/// A tree whose leaves can be visited in order.
pub trait TreeIterable {
    type Node;

    type Leaf;

    type NodesIterator: Cursor<Item = Self::Node>;

    type LeavesIterator: Cursor<Item = Self::Leaf>;

    /// Whether a node belongs to a tree that can be walked.
    spec fn valid(node: Self::Node) -> bool;

    /// The leaves at and below a node, in the order of the walk.
    spec fn leaves(node: Self::Node) -> Seq<Self::Leaf>;

    /// The number of nodes at and below a node.
    spec fn size(node: Self::Node) -> nat;

    /// What a node holds: its children, or its leaves.
    fn layer_iterator(n: Self::Node) -> (res: Layer<Self::NodesIterator, Self::LeavesIterator>)
        requires
            Self::valid(n),
        ensures
            match res {
                Layer::Nodes(ni) => {
                    &&& ni.ready()
                    &&& forall|i: int|
                        0 <= i < ni.remaining().len() ==> Self::valid(#[trigger] ni.remaining()[i])
                    &&& Self::leaves(n) == leaves_below(
                        ni.remaining(),
                        |node: Self::Node| Self::leaves(node),
                    )
                    &&& Self::size(n) == 1 + nodes_below(
                        ni.remaining(),
                        |node: Self::Node| Self::size(node),
                    )
                },
                Layer::Leaves(li) => {
                    &&& li.ready()
                    &&& Self::leaves(n) == li.remaining()
                    &&& Self::size(n) >= 1
                },
            },
    ;

    fn root(&self) -> Self::Node;
}

/// The leaves at and below each of `nodes`, in their order, where `leaves`
/// gives those at and below one node.
pub open spec fn leaves_below<N, L>(nodes: Seq<N>, leaves: spec_fn(N) -> Seq<L>) -> Seq<L>
    decreases nodes.len(),
{
    if nodes.len() == 0 {
        Seq::empty()
    } else {
        leaves(nodes[0]) + leaves_below(nodes.skip(1), leaves)
    }
}

/// The number of nodes at and below each of `nodes`, where `size` gives the
/// number at and below one node.
pub open spec fn nodes_below<N>(nodes: Seq<N>, size: spec_fn(N) -> nat) -> nat
    decreases nodes.len(),
{
    if nodes.len() == 0 {
        0
    } else {
        size(nodes[0]) + nodes_below(nodes.skip(1), size)
    }
}

/// The function that gives the leaves at and below a node of a tree.
pub open spec fn leaves_of<T: TreeIterable>() -> spec_fn(T::Node) -> Seq<T::Leaf> {
    |node: T::Node| T::leaves(node)
}

/// The function that gives the number of nodes at and below a node of a tree.
pub open spec fn size_of<T: TreeIterable>() -> spec_fn(T::Node) -> nat {
    |node: T::Node| T::size(node)
}

/// Functions that agree on every node give the same leaves.
pub proof fn lemma_same_leaves<N, L>(nodes: Seq<N>, f: spec_fn(N) -> Seq<L>, g: spec_fn(N) -> Seq<L>)
    requires
        forall|node: N| #[trigger] f(node) == g(node),
    ensures
        leaves_below(nodes, f) == leaves_below(nodes, g),
    decreases nodes.len(),
{
    if nodes.len() > 0 {
        lemma_same_leaves(nodes.skip(1), f, g);
    }
}

/// Functions that agree on every node give the same number of nodes.
pub proof fn lemma_same_sizes<N>(nodes: Seq<N>, f: spec_fn(N) -> nat, g: spec_fn(N) -> nat)
    requires
        forall|node: N| #[trigger] f(node) == g(node),
    ensures
        nodes_below(nodes, f) == nodes_below(nodes, g),
    decreases nodes.len(),
{
    if nodes.len() > 0 {
        lemma_same_sizes(nodes.skip(1), f, g);
    }
}

/// The leaves that a cursor over leaves still holds.
spec fn leaf_rest<LI: Cursor>(leaves: Option<LI>) -> Seq<LI::Item> {
    match leaves {
        Some(it) => it.remaining(),
        None => Seq::empty(),
    }
}

/// The leaves below the nodes that the first `n` levels of the stack still
/// hold, the deepest level first.
spec fn stack_leaves<T: TreeIterable>(stack: Seq<T::NodesIterator>, n: int) -> Seq<T::Leaf>
    decreases n,
{
    if n <= 0 {
        Seq::empty()
    } else {
        leaves_below(stack[n - 1].remaining(), leaves_of::<T>()) + stack_leaves::<T>(stack, n - 1)
    }
}

/// The number of nodes that the first `n` levels of the stack still hold.
spec fn stack_nodes<T: TreeIterable>(stack: Seq<T::NodesIterator>, n: int) -> nat
    decreases n,
{
    if n <= 0 {
        0
    } else {
        nodes_below(stack[n - 1].remaining(), size_of::<T>()) + stack_nodes::<T>(stack, n - 1)
    }
}

proof fn lemma_stack_prefix<T: TreeIterable>(
    a: Seq<T::NodesIterator>,
    b: Seq<T::NodesIterator>,
    n: int,
)
    requires
        n <= a.len(),
        n <= b.len(),
        forall|i: int| 0 <= i < n ==> a[i] == b[i],
    ensures
        stack_leaves::<T>(a, n) == stack_leaves::<T>(b, n),
        stack_nodes::<T>(a, n) == stack_nodes::<T>(b, n),
    decreases n,
{
    if n > 0 {
        lemma_stack_prefix::<T>(a, b, n - 1);
    }
}

/// Whether a cursor over nodes can be asked for a node, and each node that
/// it still holds can be walked.
spec fn level_ready<T: TreeIterable>(it: T::NodesIterator) -> bool {
    &&& it.ready()
    &&& forall|j: int| 0 <= j < it.remaining().len() ==> T::valid(#[trigger] it.remaining()[j])
}

/// A walk over the leaves of a tree. It keeps, for each node on the way to
/// the leaves it is at, the children of that node that are still to be
/// visited.
pub struct Tripper<T: TreeIterable> {
    stack: Vec<T::NodesIterator>,
    leaves: Option<T::LeavesIterator>,
}

impl<T: TreeIterable> Tripper<T> {
    /// Every cursor that the walk holds can be asked for an item, and the
    /// nodes that are still to be visited can be walked.
    pub closed spec fn wf(&self) -> bool {
        &&& forall|i: int| 0 <= i < self.stack@.len() ==> level_ready::<T>(#[trigger] self.stack@[i])
        &&& match self.leaves {
            Some(it) => it.ready(),
            None => true,
        }
    }

    /// The leaves that are still to come.
    pub closed spec fn remaining(&self) -> Seq<T::Leaf> {
        leaf_rest(self.leaves) + stack_leaves::<T>(self.stack@, self.stack@.len() as int)
    }

    /// A walk over the leaves at and below `root`.
    pub fn over(root: T::Node) -> (res: Self)
        requires
            T::valid(root),
        ensures
            res.wf(),
            res.remaining() == T::leaves(root),
    {
        let mut stack: Vec<T::NodesIterator> = Vec::new();
        match T::layer_iterator(root) {
            Layer::Nodes(ni) => {
                stack.push(ni);
                proof {
                    lemma_same_leaves(
                        ni.remaining(),
                        |node: T::Node| T::leaves(node),
                        leaves_of::<T>(),
                    );
                    assert(stack_leaves::<T>(stack@, 0) =~= Seq::empty());
                    assert(stack_leaves::<T>(stack@, 1) =~= T::leaves(root));
                }
                Tripper { stack, leaves: None }
            },
            Layer::Leaves(li) => {
                proof {
                    assert(li.remaining() + stack_leaves::<T>(stack@, 0) =~= li.remaining());
                }
                Tripper { stack, leaves: Some(li) }
            },
        }
    }

    /// The next leaf, if one is left.
    pub fn next(&mut self) -> (res: Option<T::Leaf>)
        requires
            old(self).wf(),
        ensures
            final(self).wf(),
            match res {
                Some(leaf) => old(self).remaining().len() > 0 && leaf == old(self).remaining()[0]
                    && final(self).remaining() == old(self).remaining().skip(1),
                None => old(self).remaining().len() == 0 && final(self).remaining().len() == 0,
            },
    {
        let mut leaves: Option<T::LeavesIterator> = None;
        std::mem::swap(&mut leaves, &mut self.leaves);
        match leaves {
            Some(mut it) => {
                let ghost all = it.remaining();
                let found = it.next();
                self.leaves = Some(it);
                match found {
                    Some(leaf) => {
                        proof {
                            assert(self.remaining() =~= old(self).remaining().skip(1));
                        }
                        return Some(leaf);
                    },
                    None => {
                        proof {
                            assert(self.remaining() =~= old(self).remaining());
                        }
                    },
                }
            },
            None => {},
        }
        self.progress_stack()
    }

    /// Walks on to the next node that holds a leaf.
    fn progress_stack(&mut self) -> (res: Option<T::Leaf>)
        requires
            old(self).wf(),
            leaf_rest(old(self).leaves).len() == 0,
        ensures
            final(self).wf(),
            match res {
                Some(leaf) => old(self).remaining().len() > 0 && leaf == old(self).remaining()[0]
                    && final(self).remaining() == old(self).remaining().skip(1),
                None => old(self).remaining().len() == 0 && final(self).remaining().len() == 0,
            },
    {
        let mut found: Option<T::Leaf> = None;
        loop
            invariant_except_break
                self.remaining() == old(self).remaining(),
                leaf_rest(self.leaves).len() == 0,
            invariant
                self.wf(),
            ensures
                self.wf(),
                match found {
                    Some(leaf) => old(self).remaining().len() > 0 && leaf == old(
                        self,
                    ).remaining()[0] && self.remaining() == old(self).remaining().skip(1),
                    None => old(self).remaining().len() == 0 && self.remaining().len() == 0,
                },
            decreases 2 * stack_nodes::<T>(self.stack@, self.stack@.len() as int) + self.stack@.len(),
        {
            let ghost before = self.stack@;
            let ghost n = before.len() as int;
            let ghost start = self.remaining();
            match self.stack.pop() {
                None => {
                    proof {
                        assert(self.remaining() =~= Seq::empty());
                    }
                    found = None;
                    break ;
                },
                Some(mut top) => {
                    let ghost below = self.stack@;
                    let ghost all = top.remaining();
                    proof {
                        assert(top == before[n - 1]);
                        assert(level_ready::<T>(before[n - 1]));
                        lemma_stack_prefix::<T>(before, below, n - 1);
                        assert(start =~= leaves_below(all, leaves_of::<T>()) + stack_leaves::<T>(
                            below,
                            n - 1,
                        ));
                        assert(stack_nodes::<T>(before, n) == nodes_below(all, size_of::<T>())
                            + stack_nodes::<T>(below, n - 1));
                    }
                    match top.next() {
                        None => {
                            proof {
                                assert(self.remaining() =~= start);
                            }
                        },
                        Some(node) => {
                            self.stack.push(top);
                            let ghost back = self.stack@;
                            let ghost rest = top.remaining();
                            proof {
                                lemma_stack_prefix::<T>(back, below, n - 1);
                                assert(back[n - 1] == top);
                                assert(leaves_below(all, leaves_of::<T>()) == T::leaves(node)
                                    + leaves_below(rest, leaves_of::<T>()));
                                assert(nodes_below(all, size_of::<T>()) == T::size(node)
                                    + nodes_below(rest, size_of::<T>()));
                                assert(stack_leaves::<T>(back, n) == leaves_below(
                                    rest,
                                    leaves_of::<T>(),
                                ) + stack_leaves::<T>(below, n - 1));
                                assert(stack_nodes::<T>(back, n) == nodes_below(rest, size_of::<T>())
                                    + stack_nodes::<T>(below, n - 1));
                                assert(node == all[0]);
                                assert forall|j: int| 0 <= j < rest.len() implies T::valid(
                                    #[trigger] rest[j],
                                ) by {
                                    assert(rest[j] == all[j + 1]);
                                }
                                assert forall|i: int| 0 <= i < back.len() implies level_ready::<T>(
                                    #[trigger] back[i],
                                ) by {
                                    if i < n - 1 {
                                        assert(back[i] == before[i]);
                                    }
                                }
                            }
                            match T::layer_iterator(node) {
                                Layer::Nodes(ni) => {
                                    self.stack.push(ni);
                                    proof {
                                        let deeper = self.stack@;
                                        lemma_same_leaves(
                                            ni.remaining(),
                                            |node: T::Node| T::leaves(node),
                                            leaves_of::<T>(),
                                        );
                                        lemma_same_sizes(
                                            ni.remaining(),
                                            |node: T::Node| T::size(node),
                                            size_of::<T>(),
                                        );
                                        lemma_stack_prefix::<T>(deeper, back, n);
                                        assert(deeper[n] == ni);
                                        assert(stack_leaves::<T>(deeper, n + 1) == leaves_below(
                                            ni.remaining(),
                                            leaves_of::<T>(),
                                        ) + stack_leaves::<T>(deeper, n));
                                        assert(stack_nodes::<T>(deeper, n + 1) == nodes_below(
                                            ni.remaining(),
                                            size_of::<T>(),
                                        ) + stack_nodes::<T>(deeper, n));
                                        assert forall|i: int|
                                            0 <= i < deeper.len() implies level_ready::<T>(
                                            #[trigger] deeper[i],
                                        ) by {
                                            if i < n {
                                                assert(deeper[i] == back[i]);
                                            }
                                        }
                                        assert(self.remaining() =~= start);
                                    }
                                },
                                Layer::Leaves(mut li) => {
                                    let ghost here = li.remaining();
                                    let next_leaf = li.next();
                                    match next_leaf {
                                        Some(leaf) => {
                                            self.leaves = Some(li);
                                            proof {
                                                assert(start =~= here + leaves_below(
                                                    rest,
                                                    leaves_of::<T>(),
                                                ) + stack_leaves::<T>(below, n - 1));
                                                assert(self.remaining() =~= here.skip(1)
                                                    + leaves_below(rest, leaves_of::<T>())
                                                    + stack_leaves::<T>(below, n - 1));
                                                assert(self.remaining() =~= start.skip(1));
                                            }
                                            found = Some(leaf);
                                            break ;
                                        },
                                        None => {
                                            proof {
                                                assert(T::leaves(node) =~= Seq::empty());
                                                assert(self.remaining() =~= start);
                                            }
                                        },
                                    }
                                },
                            }
                        },
                    }
                },
            }
        }
        found
    }
}

} // verus!
