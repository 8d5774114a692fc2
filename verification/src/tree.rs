use vstd::multiset::Multiset;
use vstd::prelude::*;

verus! {

/// A node of a search tree, as seen by the searcher.
///
/// The spec functions of this trait and of [`BranchIterator`] describe the tree that an
/// implementation spans; the searcher's contracts speak of that tree. This crate's code is
/// generic and treats them as unknown: it never reads their default bodies. An
/// implementation verified beside this crate overrides them and is checked against the
/// `ensures` of `is_leaf`, `new` and `next`. An implementation written outside verified
/// code cannot override them; for it the default bodies (a lone leaf with no children)
/// describe nothing, and the searcher's contracts hold of the tree that its methods
/// actually span only in so far as those methods behave as the `ensures` say of some
/// `spec_is_leaf`, `branches` and `remaining`, which nothing checks.
pub trait Node: Send + Sync + Clone + 'static {
    /// Whether the node is a leaf: leaves are collected as results and never expanded.
    open spec fn spec_is_leaf(&self) -> bool {
        true
    }

    fn is_leaf(&self) -> (leaf: bool)
        ensures
            leaf == self.spec_is_leaf(),
    ;
}

/// Enumerates the children of one node, one at a time.
pub trait BranchIterator<N>: Send + Sync + Clone + 'static {
    /// The children of `node`, in the order in which a fresh iterator hands them out.
    open spec fn branches(node: N) -> Seq<N> {
        Seq::empty()
    }

    /// The children that this iterator has still to hand out.
    open spec fn remaining(&self) -> Seq<N> {
        Seq::empty()
    }

    fn new(node: &N) -> (it: Self)
        ensures
            it.remaining() == Self::branches(*node),
    ;

    fn next(&mut self) -> (child: Option<N>)
        ensures
            old(self).remaining().len() == 0 ==> child is None && final(self).remaining()
                == old(self).remaining(),
            old(self).remaining().len() > 0 ==> child == Some(old(self).remaining()[0])
                && final(self).remaining() == old(self).remaining().drop_first(),
    ;
}

/// Bounds used for pruning.
pub trait Bounds: Clone {
    fn new() -> Self;
}

/// Bounds that prune nothing.
#[derive(Clone)]
pub struct VoidBounds {}

impl Bounds for VoidBounds {
    fn new() -> Self {
        VoidBounds {  }
    }
}

// The tree that a node and an iterator type span, as mathematics.
//
// A subtree is finite when some depth bounds it: every node at that depth below its
// root is a leaf. Its leaves are counted with their multiplicity, and its weight (two
// for every node of the subtree) measures the work that enumerating it takes.

/// Every path down from `node` reaches a leaf within `depth` steps.
pub open spec fn bounded<N: Node, BI: BranchIterator<N>>(node: N, depth: nat) -> bool
    decreases depth, 0nat, 0nat,
{
    node.spec_is_leaf() || (depth > 0 && all_bounded::<N, BI>(
        BI::branches(node),
        (depth - 1) as nat,
    ))
}

/// Every path down from any of `nodes` reaches a leaf within `depth` steps.
pub open spec fn all_bounded<N: Node, BI: BranchIterator<N>>(nodes: Seq<N>, depth: nat) -> bool
    decreases depth, 1nat, nodes.len(),
{
    nodes.len() == 0 || (bounded::<N, BI>(nodes[0], depth) && all_bounded::<N, BI>(
        nodes.drop_first(),
        depth,
    ))
}

/// A sequence of subtrees is bounded exactly where each of them is.
pub proof fn lemma_all_bounded<N: Node, BI: BranchIterator<N>>(nodes: Seq<N>, depth: nat)
    ensures
        all_bounded::<N, BI>(nodes, depth) <==> forall|i: int|
            0 <= i < nodes.len() ==> #[trigger] bounded::<N, BI>(nodes[i], depth),
    decreases nodes.len(),
{
    if nodes.len() > 0 {
        let rest = nodes.drop_first();
        lemma_all_bounded::<N, BI>(rest, depth);
        if all_bounded::<N, BI>(nodes, depth) {
            assert forall|i: int| 0 <= i < nodes.len() implies #[trigger] bounded::<N, BI>(
                nodes[i],
                depth,
            ) by {
                if i > 0 {
                    assert(nodes[i] == rest[i - 1]);
                }
            }
        }
        if forall|i: int| 0 <= i < nodes.len() ==> #[trigger] bounded::<N, BI>(nodes[i], depth) {
            assert forall|i: int| 0 <= i < rest.len() implies #[trigger] bounded::<N, BI>(
                rest[i],
                depth,
            ) by {
                assert(rest[i] == nodes[i + 1]);
            }
            assert(bounded::<N, BI>(nodes[0], depth));
        }
    }
}

/// The leaves of `node`'s subtree, looking at most `depth` levels down.
pub open spec fn leaves_within<N: Node, BI: BranchIterator<N>>(node: N, depth: nat) -> Multiset<N>
    decreases depth, 0nat, 0nat,
{
    if node.spec_is_leaf() {
        Multiset::singleton(node)
    } else if depth == 0 {
        Multiset::empty()
    } else {
        forest_leaves_within::<N, BI>(BI::branches(node), (depth - 1) as nat)
    }
}

/// The leaves of the subtrees of all of `nodes`, looking at most `depth` levels down.
pub open spec fn forest_leaves_within<N: Node, BI: BranchIterator<N>>(
    nodes: Seq<N>,
    depth: nat,
) -> Multiset<N>
    decreases depth, 1nat, nodes.len(),
{
    if nodes.len() == 0 {
        Multiset::empty()
    } else {
        leaves_within::<N, BI>(nodes[0], depth).add(
            forest_leaves_within::<N, BI>(nodes.drop_first(), depth),
        )
    }
}

/// Two for every node of `node`'s subtree, looking at most `depth` levels down.
pub open spec fn weight_within<N: Node, BI: BranchIterator<N>>(node: N, depth: nat) -> nat
    decreases depth, 0nat, 0nat,
{
    if node.spec_is_leaf() {
        2
    } else if depth == 0 {
        0
    } else {
        2 + forest_weight_within::<N, BI>(BI::branches(node), (depth - 1) as nat)
    }
}

/// The sum of the weights of the subtrees of `nodes`, looking at most `depth` levels down.
pub open spec fn forest_weight_within<N: Node, BI: BranchIterator<N>>(
    nodes: Seq<N>,
    depth: nat,
) -> nat
    decreases depth, 1nat, nodes.len(),
{
    if nodes.len() == 0 {
        0
    } else {
        weight_within::<N, BI>(nodes[0], depth) + forest_weight_within::<N, BI>(
            nodes.drop_first(),
            depth,
        )
    }
}

/// `node`'s subtree is finite.
pub open spec fn finite<N: Node, BI: BranchIterator<N>>(node: N) -> bool {
    exists|depth: nat| bounded::<N, BI>(node, depth)
}

/// A depth that bounds `node`'s subtree, where it is finite.
pub open spec fn depth_of<N: Node, BI: BranchIterator<N>>(node: N) -> nat {
    choose|depth: nat| bounded::<N, BI>(node, depth)
}

/// The leaves of `node`'s subtree, each as often as the tree holds it.
pub open spec fn subtree_leaves<N: Node, BI: BranchIterator<N>>(node: N) -> Multiset<N> {
    leaves_within::<N, BI>(node, depth_of::<N, BI>(node))
}

/// The weight of `node`'s subtree: two for each of its nodes.
pub open spec fn subtree_weight<N: Node, BI: BranchIterator<N>>(node: N) -> nat {
    weight_within::<N, BI>(node, depth_of::<N, BI>(node))
}

/// The leaves of the subtrees of all of `nodes`.
pub open spec fn forest_leaves<N: Node, BI: BranchIterator<N>>(nodes: Seq<N>) -> Multiset<N>
    decreases nodes.len(),
{
    if nodes.len() == 0 {
        Multiset::empty()
    } else {
        subtree_leaves::<N, BI>(nodes[0]).add(forest_leaves::<N, BI>(nodes.drop_first()))
    }
}

/// The sum of the weights of the subtrees of all of `nodes`.
pub open spec fn forest_weight<N: Node, BI: BranchIterator<N>>(nodes: Seq<N>) -> nat
    decreases nodes.len(),
{
    if nodes.len() == 0 {
        0
    } else {
        subtree_weight::<N, BI>(nodes[0]) + forest_weight::<N, BI>(nodes.drop_first())
    }
}

/// A deeper bound bounds too, and looking deeper than a bound finds nothing new.
pub proof fn lemma_within_deeper<N: Node, BI: BranchIterator<N>>(node: N, d1: nat, d2: nat)
    requires
        bounded::<N, BI>(node, d1),
        d1 <= d2,
    ensures
        bounded::<N, BI>(node, d2),
        leaves_within::<N, BI>(node, d1) == leaves_within::<N, BI>(node, d2),
        weight_within::<N, BI>(node, d1) == weight_within::<N, BI>(node, d2),
    decreases d1, 0nat, 0nat,
{
    if !node.spec_is_leaf() {
        let kids = BI::branches(node);
        lemma_forest_within_deeper::<N, BI>(kids, (d1 - 1) as nat, (d2 - 1) as nat);
    }
}

/// `lemma_within_deeper`, for a sequence of subtrees.
pub proof fn lemma_forest_within_deeper<N: Node, BI: BranchIterator<N>>(
    nodes: Seq<N>,
    d1: nat,
    d2: nat,
)
    requires
        all_bounded::<N, BI>(nodes, d1),
        d1 <= d2,
    ensures
        all_bounded::<N, BI>(nodes, d2),
        forest_leaves_within::<N, BI>(nodes, d1) == forest_leaves_within::<N, BI>(nodes, d2),
        forest_weight_within::<N, BI>(nodes, d1) == forest_weight_within::<N, BI>(nodes, d2),
    decreases d1, 1nat, nodes.len(),
{
    if nodes.len() > 0 {
        lemma_within_deeper::<N, BI>(nodes[0], d1, d2);
        lemma_forest_within_deeper::<N, BI>(nodes.drop_first(), d1, d2);
    }
}

/// Any bound of a finite subtree gives its leaves and its weight.
pub proof fn lemma_subtree_within<N: Node, BI: BranchIterator<N>>(node: N, depth: nat)
    requires
        bounded::<N, BI>(node, depth),
    ensures
        finite::<N, BI>(node),
        subtree_leaves::<N, BI>(node) == leaves_within::<N, BI>(node, depth),
        subtree_weight::<N, BI>(node) == weight_within::<N, BI>(node, depth),
{
    let d = depth_of::<N, BI>(node);
    assert(bounded::<N, BI>(node, d));
    if d <= depth {
        lemma_within_deeper::<N, BI>(node, d, depth);
    } else {
        lemma_within_deeper::<N, BI>(node, depth, d);
    }
}

/// Any common bound of finite subtrees gives the leaves and the weight of all of them.
pub proof fn lemma_forest_within<N: Node, BI: BranchIterator<N>>(nodes: Seq<N>, depth: nat)
    requires
        all_bounded::<N, BI>(nodes, depth),
    ensures
        forest_leaves::<N, BI>(nodes) == forest_leaves_within::<N, BI>(nodes, depth),
        forest_weight::<N, BI>(nodes) == forest_weight_within::<N, BI>(nodes, depth),
    decreases nodes.len(),
{
    if nodes.len() > 0 {
        lemma_subtree_within::<N, BI>(nodes[0], depth);
        lemma_forest_within::<N, BI>(nodes.drop_first(), depth);
    }
}

/// A leaf's subtree is the leaf alone.
pub proof fn lemma_leaf_subtree<N: Node, BI: BranchIterator<N>>(node: N)
    requires
        node.spec_is_leaf(),
    ensures
        finite::<N, BI>(node),
        subtree_leaves::<N, BI>(node) == Multiset::singleton(node),
        subtree_weight::<N, BI>(node) == 2,
{
    assert(bounded::<N, BI>(node, 0));
    lemma_subtree_within::<N, BI>(node, 0);
}

/// A finite inner node's subtree is the node above the subtrees of its children, each of
/// them finite.
pub proof fn lemma_inner_subtree<N: Node, BI: BranchIterator<N>>(node: N)
    requires
        finite::<N, BI>(node),
        !node.spec_is_leaf(),
    ensures
        forall|i: int|
            0 <= i < BI::branches(node).len() ==> #[trigger] finite::<N, BI>(BI::branches(node)[i]),
        subtree_leaves::<N, BI>(node) == forest_leaves::<N, BI>(BI::branches(node)),
        subtree_weight::<N, BI>(node) == 2 + forest_weight::<N, BI>(BI::branches(node)),
{
    let d = depth_of::<N, BI>(node);
    assert(bounded::<N, BI>(node, d));
    let kids = BI::branches(node);
    lemma_forest_within::<N, BI>(kids, (d - 1) as nat);
    lemma_all_bounded::<N, BI>(kids, (d - 1) as nat);
    assert forall|i: int| 0 <= i < kids.len() implies #[trigger] finite::<N, BI>(kids[i]) by {
        assert(bounded::<N, BI>(kids[i], (d - 1) as nat));
    }
}

} // verus!
