//! A tree in which each node owns its children and carries a payload.
use vstd::prelude::*;

verus! {

broadcast use vstd::std_specs::vec::group_vec_axioms;

/// A node with a payload and the subtrees below it, in order.
#[derive(Debug)]
pub struct TreeNode<S> {
    pub payload: S,
    pub children: Vec<TreeNode<S>>,
}

/// The number of nodes in the tree rooted at `t`, `t` included.
pub open spec fn node_count<S>(t: TreeNode<S>) -> nat
    decreases t, t.children.len() + 1,
{
    1 + children_count(t, t.children.len() as int)
}

/// The number of nodes in the subtrees of the first `n` children of `t`.
pub open spec fn children_count<S>(t: TreeNode<S>, n: int) -> nat
    decreases t, n,
{
    if n <= 0 || n > t.children.len() {
        0
    } else {
        proof {
            vstd::std_specs::vec::axiom_vec_index_decreases(t.children, n - 1);
        }
        children_count(t, n - 1) + node_count(t.children[n - 1])
    }
}

/// `t` is the path through `payloads` in order: each node has one child but
/// the last, which has none.
pub open spec fn is_chain<S>(t: TreeNode<S>, payloads: Seq<S>) -> bool
    decreases payloads.len(),
{
    &&& payloads.len() >= 1
    &&& t.payload == payloads[0]
    &&& if payloads.len() == 1 {
        t.children.len() == 0
    } else {
        t.children.len() == 1 && is_chain(t.children[0], payloads.drop_first())
    }
}

proof fn lemma_children_count_grows<S>(t: TreeNode<S>, a: int, b: int)
    requires
        0 <= a <= b <= t.children.len(),
    ensures
        children_count(t, a) <= children_count(t, b),
    decreases b - a,
{
    if a < b {
        lemma_children_count_grows(t, a, b - 1);
    }
}

impl<S> TreeNode<S> {
    /// A leaf holding `payload`.
    pub fn new(payload: S) -> (r: TreeNode<S>)
        ensures
            r.payload == payload,
            r.children@ == Seq::<TreeNode<S>>::empty(),
    {
        TreeNode { payload, children: Vec::new() }
    }

    /// A node holding `payload` with `children` below it, in order.
    pub fn new_with_children(payload: S, children: Vec<TreeNode<S>>) -> (r: TreeNode<S>)
        ensures
            r.payload == payload,
            r.children@ == children@,
    {
        let mut node = TreeNode::new(payload);
        let mut rest = children;
        node.children.append(&mut rest);
        node
    }

    /// Adds `child` after the existing children.
    pub fn add_child(&mut self, child: TreeNode<S>)
        ensures
            final(self).payload == old(self).payload,
            final(self).children@ == old(self).children@.push(child),
    {
        self.children.push(child);
    }

    /// The number of nodes in this subtree, this node included.
    pub fn tree_size(&self) -> (r: usize)
        requires
            node_count(*self) <= usize::MAX,
        ensures
            r == node_count(*self),
        decreases *self,
    {
        let mut count: usize = 1;
        let n = self.children.len();
        for i in 0..n
            invariant
                n == self.children.len(),
                node_count(*self) <= usize::MAX,
                count == 1 + children_count(*self, i as int),
        {
            proof {
                vstd::std_specs::vec::axiom_vec_index_decreases(self.children, i as int);
                lemma_children_count_grows(*self, i + 1, n as int);
            }
            count = count + self.children[i].tree_size();
        }
        count
    }
}

/// A root holding `root_payload` with one leaf per entry of
/// `children_payloads`, in order.
pub fn new_star_tree<S>(root_payload: S, children_payloads: Vec<S>) -> (r: TreeNode<S>)
    ensures
        r.payload == root_payload,
        r.children.len() == children_payloads.len(),
        forall|i: int|
            0 <= i < r.children.len() ==> (#[trigger] r.children[i]).payload
                == children_payloads[i] && r.children[i].children.len() == 0,
{
    let ghost payloads = children_payloads@;
    let mut rest = children_payloads;
    let mut leaves: Vec<TreeNode<S>> = Vec::new();
    while rest.len() > 0
        invariant
            leaves.len() + rest.len() == payloads.len(),
            rest@ == payloads.subrange(leaves.len() as int, payloads.len() as int),
            forall|i: int|
                0 <= i < leaves.len() ==> (#[trigger] leaves[i]).payload == payloads[i]
                    && leaves[i].children.len() == 0,
        decreases rest.len(),
    {
        let payload = rest.remove(0);
        leaves.push(TreeNode::new(payload));
    }
    TreeNode::new_with_children(root_payload, leaves)
}

/// The path through `payloads` in order, rooted at the first. `payloads`
/// must not be empty.
pub fn new_chain_tree<S>(payloads: Vec<S>) -> (r: TreeNode<S>)
    requires
        payloads.len() >= 1,
    ensures
        is_chain(r, payloads@),
{
    let ghost all = payloads@;
    let mut rest = payloads;
    let last = rest.pop().unwrap();
    let mut node = TreeNode::new(last);
    proof {
        assert(is_chain(node, all.subrange(rest.len() as int, all.len() as int)));
    }
    while rest.len() > 0
        invariant
            rest.len() < all.len(),
            rest@ == all.subrange(0, rest.len() as int),
            is_chain(node, all.subrange(rest.len() as int, all.len() as int)),
        decreases rest.len(),
    {
        let ghost tail = all.subrange(rest.len() as int, all.len() as int);
        let payload = rest.pop().unwrap();
        node = TreeNode::new_with_children(payload, vec![node]);
        proof {
            let now = all.subrange(rest.len() as int, all.len() as int);
            assert(now.len() >= 1);
            assert(now.drop_first() =~= tail);
        }
    }
    proof {
        assert(all.subrange(0, all.len() as int) =~= all);
    }
    node
}

} // verus!
