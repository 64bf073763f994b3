//! The abstract model of a tree, and the facts that keep it a tree under
//! each kind of change.
use vstd::prelude::*;

use crate::ancestry::{
    lemma_no_cycle, lemma_up_compose, lemma_up_frame, lemma_up_frame_closed, lemma_up_prev,
    lemma_up_stays, lemma_up_step, reaches, up,
};

verus! {

/// A node label. Labels are also the nodes' identities.
pub type Node = u32;

/// The abstract state of a tree: its root, its labels, the children of each
/// node that has any, and the parent of each node but the root.
pub struct TreeModel {
    pub root: Node,
    pub nodes: Set<Node>,
    pub children: Map<Node, Set<Node>>,
    pub parents: Map<Node, Node>,
}

impl TreeModel {
    /// `c` is listed among the children of `p`.
    pub open spec fn has_edge(self, p: Node, c: Node) -> bool {
        self.children.contains_key(p) && self.children[p].contains(c)
    }

    /// The children of `p`, empty when it has none.
    pub open spec fn children_of(self, p: Node) -> Set<Node> {
        if self.children.contains_key(p) {
            self.children[p]
        } else {
            Set::empty()
        }
    }

    /// A rooted tree: one root without a parent, every other node with one
    /// parent inside the tree, child sets and parent links that mirror each
    /// other, no empty child set, and every node's parent chain ends at the
    /// root (so there is no cycle and the tree is connected).
    pub open spec fn is_tree(self) -> bool {
        &&& self.nodes.finite()
        &&& self.nodes.contains(self.root)
        &&& !self.parents.contains_key(self.root)
        &&& forall|x: Node|
            #[trigger] self.nodes.contains(x) ==> x == self.root || self.parents.contains_key(x)
        &&& forall|x: Node|
            #[trigger] self.parents.contains_key(x) ==> self.nodes.contains(x)
                && self.nodes.contains(self.parents[x])
        &&& forall|p: Node, c: Node|
            #[trigger] self.has_edge(p, c) ==> self.parents.contains_key(c) && self.parents[c] == p
        &&& forall|c: Node| #[trigger]
            self.parents.contains_key(c) ==> self.has_edge(self.parents[c], c)
        &&& forall|p: Node| #[trigger]
            self.children.contains_key(p) ==> self.children[p].finite()
                && !self.children[p].is_empty()
        &&& forall|x: Node| #[trigger] self.nodes.contains(x) ==> reaches(self.parents, x, self.root)
    }

    /// The checks of the validator: every node but the root has a parent,
    /// every listed child points back to its parent, and no node is its own
    /// parent or its own child.
    pub open spec fn passes_checks(self) -> bool {
        &&& forall|x: Node|
            #[trigger] self.nodes.contains(x) && x != self.root ==> self.parents.contains_key(x)
        &&& forall|p: Node, c: Node|
            #[trigger] self.has_edge(p, c) ==> self.parents.contains_key(c) && self.parents[c] == p
        &&& forall|x: Node|
            #[trigger] self.nodes.contains(x) ==> !(self.parents.contains_key(x) && self.parents[x]
                == x) && !self.has_edge(x, x)
    }

    /// The tree with `child` attached under `parent`.
    pub open spec fn with_leaf(self, parent: Node, child: Node) -> TreeModel {
        TreeModel {
            root: self.root,
            nodes: self.nodes.insert(child),
            children: self.children.insert(parent, self.children_of(parent).insert(child)),
            parents: self.parents.insert(child, parent),
        }
    }

    /// The tree with `node` taken out of its parent's child set, the set
    /// dropped when it becomes empty.
    pub open spec fn detached(self, node: Node) -> TreeModel {
        let p = self.parents[node];
        let rest = self.children[p].remove(node);
        TreeModel {
            root: self.root,
            nodes: self.nodes,
            children: if rest.is_empty() {
                self.children.remove(p)
            } else {
                self.children.insert(p, rest)
            },
            parents: self.parents,
        }
    }

    /// The tree with the subtree rooted at `node` moved, unchanged inside,
    /// under `new_parent`.
    pub open spec fn reattached(self, node: Node, new_parent: Node) -> TreeModel {
        self.detached(node).with_leaf(new_parent, node)
    }

    /// The nodes of the subtree rooted at `x`: `x` and its descendants.
    pub open spec fn subtree(self, x: Node) -> Set<Node> {
        Set::new(|y: Node| self.nodes.contains(y) && reaches(self.parents, y, x))
    }

    /// The strict descendants of `x`.
    pub open spec fn descendants(self, x: Node) -> Set<Node> {
        self.subtree(x).remove(x)
    }

    /// `h` is the height of the subtree rooted at `x`: one more than the
    /// longest parent chain that ends at `x`, so 1 for a leaf.
    pub open spec fn height_is(self, x: Node, h: nat) -> bool {
        &&& h >= 1
        &&& exists|y: Node| #[trigger] up(self.parents, y, (h - 1) as nat) == Some(x)
        &&& forall|y: Node, k: nat| #[trigger] up(self.parents, y, k) == Some(x) ==> k < h
    }
}

/// Attaching a new label under a node of a tree gives a tree.
pub proof fn lemma_with_leaf_is_tree(m: TreeModel, parent: Node, child: Node)
    requires
        m.is_tree(),
        m.nodes.contains(parent),
        !m.nodes.contains(child),
    ensures
        m.with_leaf(parent, child).is_tree(),
{
    let n = m.with_leaf(parent, child);
    assert forall|x: Node| #[trigger] n.nodes.contains(x) implies reaches(
        n.parents,
        x,
        n.root,
    ) by {
        assert forall|y: Node| #[trigger] m.nodes.contains(y) implies (m.parents.contains_key(y)
            <==> n.parents.contains_key(y)) && (m.parents.contains_key(y) ==> m.parents[y]
            == n.parents[y]) by {}
        if x == child {
            let k = choose|k: nat| up(m.parents, parent, k) == Some(m.root);
            lemma_up_frame_closed(m.parents, n.parents, m.nodes, parent, k);
            assert(up(n.parents, child, k + 1) == up(n.parents, parent, k));
        } else {
            let k = choose|k: nat| up(m.parents, x, k) == Some(m.root);
            lemma_up_frame_closed(m.parents, n.parents, m.nodes, x, k);
        }
    }
    assert forall|p: Node| #[trigger] n.children.contains_key(p) implies n.children[p].finite()
        && !n.children[p].is_empty() by {
        if p == parent {
            assert(n.children[p].contains(child));
        }
    }
    assert forall|p: Node, c: Node| #[trigger] n.has_edge(p, c) implies n.parents.contains_key(c)
        && n.parents[c] == p by {
        if p == parent && c == child {
        } else if p == parent {
            assert(m.has_edge(p, c));
        } else {
            assert(m.has_edge(p, c));
        }
    }
    assert forall|c: Node| #[trigger] n.parents.contains_key(c) implies n.has_edge(
        n.parents[c],
        c,
    ) by {
        if c != child {
            assert(m.has_edge(m.parents[c], c));
        }
    }
    assert forall|x: Node| #[trigger] n.parents.contains_key(x) implies n.nodes.contains(x)
        && n.nodes.contains(n.parents[x]) by {
        if x != child {
            assert(m.parents.contains_key(x));
        }
    }
}


/// The label that `x` carries after labels `i` and `j` are exchanged.
pub open spec fn swap_node(x: Node, i: Node, j: Node) -> Node {
    if x == i {
        j
    } else if x == j {
        i
    } else {
        x
    }
}

/// A set after labels `i` and `j` are exchanged in it.
pub open spec fn swap_in(s: Set<Node>, i: Node, j: Node) -> Set<Node> {
    Set::new(|c: Node| s.contains(swap_node(c, i, j)))
}

impl TreeModel {
    /// The same tree with labels `i` and `j` exchanged everywhere: in the
    /// root, in the node set, in every child set and in every parent link.
    /// The shape is unchanged; only the names of two positions are.
    pub open spec fn swapped(self, i: Node, j: Node) -> TreeModel {
        TreeModel {
            root: swap_node(self.root, i, j),
            nodes: swap_in(self.nodes, i, j),
            children: Map::new(
                |p: Node| self.children.contains_key(swap_node(p, i, j)),
                |p: Node| swap_in(self.children[swap_node(p, i, j)], i, j),
            ),
            parents: Map::new(
                |c: Node| self.parents.contains_key(swap_node(c, i, j)),
                |c: Node| swap_node(self.parents[swap_node(c, i, j)], i, j),
            ),
        }
    }
}

/// Chains in the relabelled tree are the relabelled chains.
pub proof fn lemma_up_swapped(m: TreeModel, i: Node, j: Node, x: Node, k: nat)
    ensures
        up(m.swapped(i, j).parents, swap_node(x, i, j), k) == match up(m.parents, x, k) {
            Some(y) => Some(swap_node(y, i, j)),
            None => None,
        },
    decreases k,
{
    let n = m.swapped(i, j);
    if k > 0 {
        assert(swap_node(swap_node(x, i, j), i, j) == x);
        if m.parents.contains_key(x) {
            lemma_up_swapped(m, i, j, m.parents[x], (k - 1) as nat);
        }
    }
}

/// A tree has no node that is its own parent.
pub proof fn lemma_no_self_parent(m: TreeModel, x: Node)
    requires
        m.is_tree(),
    ensures
        !(m.parents.contains_key(x) && m.parents[x] == x),
{
    if m.parents.contains_key(x) && m.parents[x] == x {
        let k = choose|k: nat| up(m.parents, x, k) == Some(m.root);
        assert(up(m.parents, x, 1) == up(m.parents, x, 0));
        lemma_no_cycle(m.parents, m.root, x, 1, k);
    }
}

/// Exchanging two labels of a tree gives a tree.
pub proof fn lemma_swapped_is_tree(m: TreeModel, i: Node, j: Node)
    requires
        m.is_tree(),
    ensures
        m.swapped(i, j).is_tree(),
{
    let n = m.swapped(i, j);
    assert forall|x: Node| swap_node(swap_node(x, i, j), i, j) == x by {}
    assert(n.nodes.finite()) by {
        assert(n.nodes =~= m.nodes.map(|x: Node| swap_node(x, i, j)));
        m.nodes.lemma_map_finite(|x: Node| swap_node(x, i, j));
    }
    assert forall|x: Node| #[trigger] n.nodes.contains(x) implies x == n.root
        || n.parents.contains_key(x) by {
        assert(m.nodes.contains(swap_node(x, i, j)));
    }
    assert forall|x: Node| #[trigger] n.parents.contains_key(x) implies n.nodes.contains(x)
        && n.nodes.contains(n.parents[x]) by {
        assert(m.parents.contains_key(swap_node(x, i, j)));
    }
    assert forall|p: Node, c: Node| #[trigger] n.has_edge(p, c) implies n.parents.contains_key(c)
        && n.parents[c] == p by {
        assert(m.has_edge(swap_node(p, i, j), swap_node(c, i, j)));
    }
    assert forall|c: Node| #[trigger] n.parents.contains_key(c) implies n.has_edge(
        n.parents[c],
        c,
    ) by {
        let c0 = swap_node(c, i, j);
        assert(m.parents.contains_key(c0));
        assert(m.has_edge(m.parents[c0], c0));
    }
    assert forall|p: Node| #[trigger] n.children.contains_key(p) implies n.children[p].finite()
        && !n.children[p].is_empty() by {
        let p0 = swap_node(p, i, j);
        let s = m.children[p0];
        assert(m.children.contains_key(p0));
        assert(n.children[p] =~= s.map(|x: Node| swap_node(x, i, j)));
        s.lemma_map_finite(|x: Node| swap_node(x, i, j));
        let c = choose|c: Node| s.contains(c);
        assert(n.children[p].contains(swap_node(c, i, j)));
    }
    assert forall|x: Node| #[trigger] n.nodes.contains(x) implies reaches(n.parents, x, n.root) by {
        let x0 = swap_node(x, i, j);
        assert(m.nodes.contains(x0));
        let k = choose|k: nat| up(m.parents, x0, k) == Some(m.root);
        lemma_up_swapped(m, i, j, x0, k);
    }
}

/// Exchanging the same two labels twice gives back the tree.
pub proof fn lemma_swapped_twice(m: TreeModel, i: Node, j: Node)
    ensures
        m.swapped(i, j).swapped(i, j) == m,
{
    let n = m.swapped(i, j).swapped(i, j);
    assert forall|x: Node| swap_node(swap_node(x, i, j), i, j) == x by {}
    assert(n.nodes =~= m.nodes);
    assert forall|p: Node| #[trigger] n.children.contains_key(p) implies n.children[p]
        == m.children[p] by {
        assert(n.children[p] =~= m.children[p]);
    }
    assert(n.children =~= m.children);
    assert(n.parents =~= m.parents);
}

/// A tree passes the validator's checks.
pub proof fn lemma_tree_passes_checks(m: TreeModel)
    requires
        m.is_tree(),
    ensures
        m.passes_checks(),
{
    assert forall|x: Node| #[trigger] m.nodes.contains(x) implies !(m.parents.contains_key(x)
        && m.parents[x] == x) && !m.has_edge(x, x) by {
        lemma_no_self_parent(m, x);
    }
}

/// A subtree is a finite set of nodes that holds its own root.
pub proof fn lemma_subtree_basics(m: TreeModel, x: Node)
    requires
        m.is_tree(),
    ensures
        m.subtree(x).finite(),
        m.subtree(x).subset_of(m.nodes),
        m.nodes.contains(x) ==> m.subtree(x).contains(x),
{
    assert(m.subtree(x) =~= m.nodes.filter(|y: Node| reaches(m.parents, y, x)));
    if m.nodes.contains(x) {
        assert(up(m.parents, x, 0) == Some(x));
    }
}

/// The subtree of a child lies strictly inside the subtree of its parent.
pub proof fn lemma_subtree_child(m: TreeModel, x: Node, c: Node)
    requires
        m.is_tree(),
        m.has_edge(x, c),
    ensures
        m.nodes.contains(x),
        m.nodes.contains(c),
        m.subtree(c).subset_of(m.subtree(x)),
        !m.subtree(c).contains(x),
        m.subtree(c).len() < m.subtree(x).len(),
{
    lemma_subtree_basics(m, x);
    lemma_subtree_basics(m, c);
    assert forall|y: Node| #[trigger] m.subtree(c).contains(y) implies m.subtree(x).contains(y) by {
        let k = choose|k: nat| up(m.parents, y, k) == Some(c);
        lemma_up_step(m.parents, y, k);
    }
    if m.subtree(c).contains(x) {
        let k = choose|k: nat| up(m.parents, x, k) == Some(c);
        lemma_up_step(m.parents, x, k);
        let r = choose|r: nat| up(m.parents, x, r) == Some(m.root);
        lemma_no_cycle(m.parents, m.root, x, k + 1, r);
    }
    assert(m.subtree(c).subset_of(m.subtree(x).remove(x)));
    vstd::set_lib::lemma_len_subset(m.subtree(c), m.subtree(x).remove(x));
}

/// The subtrees of two distinct children of one node share no node.
pub proof fn lemma_subtree_siblings_disjoint(m: TreeModel, x: Node, c1: Node, c2: Node)
    requires
        m.is_tree(),
        m.has_edge(x, c1),
        m.has_edge(x, c2),
        c1 != c2,
    ensures
        m.subtree(c1).disjoint(m.subtree(c2)),
{
    assert forall|y: Node| m.subtree(c1).contains(y) implies !m.subtree(c2).contains(y) by {
        if m.subtree(c2).contains(y) {
            let k1 = choose|k1: nat| up(m.parents, y, k1) == Some(c1);
            let k2 = choose|k2: nat| up(m.parents, y, k2) == Some(c2);
            if k1 <= k2 {
                lemma_sibling_chains(m, x, c1, c2, y, k1, k2);
            } else {
                lemma_sibling_chains(m, x, c2, c1, y, k2, k1);
            }
        }
    }
}

proof fn lemma_sibling_chains(m: TreeModel, x: Node, c1: Node, c2: Node, y: Node, k1: nat, k2: nat)
    requires
        m.is_tree(),
        m.has_edge(x, c1),
        m.has_edge(x, c2),
        c1 != c2,
        up(m.parents, y, k1) == Some(c1),
        k1 <= k2,
    ensures
        up(m.parents, y, k2) != Some(c2),
{
    if up(m.parents, y, k2) == Some(c2) {
    let d = (k2 - k1) as nat;
    lemma_up_compose(m.parents, y, k1, d);
    assert(d >= 1);
    assert(up(m.parents, c1, 1) == Some(x)) by {
        assert(up(m.parents, x, 0) == Some(x));
    }
    lemma_up_compose(m.parents, c1, 1, d);
    lemma_up_step(m.parents, c1, d);
    assert(up(m.parents, c1, d + 1) == Some(x));
    assert(m.nodes.contains(x));
    let r = choose|r: nat| up(m.parents, x, r) == Some(m.root);
    lemma_no_cycle(m.parents, m.root, x, d, r);
    }
}

/// Every strict descendant of `x` lies in the subtree of one of its
/// children.
pub proof fn lemma_subtree_split(m: TreeModel, x: Node, y: Node)
    requires
        m.is_tree(),
        m.subtree(x).contains(y),
        y != x,
    ensures
        exists|c: Node| m.has_edge(x, c) && #[trigger] m.subtree(c).contains(y),
{
    let k = choose|k: nat| up(m.parents, y, k) == Some(x);
    assert(k >= 1);
    lemma_up_prev(m.parents, y, k);
    let c = up(m.parents, y, (k - 1) as nat)->0;
    assert(m.has_edge(x, c));
    assert(m.subtree(c).contains(y));
}

/// A label outside the tree has no subtree and no child set.
pub proof fn lemma_absent_subtree(m: TreeModel, x: Node)
    requires
        m.is_tree(),
        !m.nodes.contains(x),
    ensures
        m.subtree(x) == Set::<Node>::empty(),
        !m.children.contains_key(x),
{
    assert forall|y: Node| !#[trigger] m.subtree(x).contains(y) by {
        if m.subtree(x).contains(y) {
            let k = choose|k: nat| up(m.parents, y, k) == Some(x);
            lemma_up_stays(m.parents, m.nodes, y, k);
        }
    }
    assert(m.subtree(x) =~= Set::<Node>::empty());
    if m.children.contains_key(x) {
        let c = m.children[x].choose();
        assert(m.has_edge(x, c));
    }
}

/// Every node of a tree lies in the subtree of the root.
pub proof fn lemma_subtree_of_root(m: TreeModel)
    requires
        m.is_tree(),
    ensures
        m.subtree(m.root) == m.nodes,
{
    assert(m.subtree(m.root) =~= m.nodes);
}

proof fn lemma_reach_after_move(
    p: Map<Node, Node>,
    root: Node,
    node: Node,
    new_parent: Node,
    x: Node,
    k: nat,
)
    requires
        !p.contains_key(root),
        up(p, x, k) == Some(root),
        reaches(p.insert(node, new_parent), new_parent, root),
    ensures
        reaches(p.insert(node, new_parent), x, root),
    decreases k,
{
    let q = p.insert(node, new_parent);
    if x == node {
        let r = choose|r: nat| up(q, new_parent, r) == Some(root);
        assert(up(q, x, r + 1) == up(q, new_parent, r));
    } else if k == 0 {
        assert(up(q, x, 0) == Some(root));
    } else {
        lemma_reach_after_move(p, root, node, new_parent, p[x], (k - 1) as nat);
        let r = choose|r: nat| up(q, p[x], r) == Some(root);
        assert(up(q, x, r + 1) == up(q, p[x], r));
    }
}

/// Moving a subtree under a node outside it gives a tree.
pub proof fn lemma_reattached_is_tree(m: TreeModel, node: Node, new_parent: Node)
    requires
        m.is_tree(),
        m.nodes.contains(node),
        m.nodes.contains(new_parent),
        node != m.root,
        !m.subtree(node).contains(new_parent),
    ensures
        m.reattached(node, new_parent).is_tree(),
{
    let d = m.detached(node);
    let n = m.reattached(node, new_parent);
    let old_parent = m.parents[node];
    assert(m.has_edge(old_parent, node));
    let q = m.parents.insert(node, new_parent);
    assert(n.parents == q);
    // The new parent's chain to the root does not pass through `node`.
    let r = choose|r: nat| up(m.parents, new_parent, r) == Some(m.root);
    assert forall|i: nat| i < r implies match #[trigger] up(m.parents, new_parent, i) {
        Some(y) => (m.parents.contains_key(y) <==> q.contains_key(y)) && (m.parents.contains_key(y)
            ==> m.parents[y] == q[y]),
        None => true,
    } by {
        if up(m.parents, new_parent, i) == Some(node) {
            assert(m.subtree(node).contains(new_parent));
        }
    }
    lemma_up_frame(m.parents, q, new_parent, r);
    assert forall|x: Node| #[trigger] n.nodes.contains(x) implies reaches(n.parents, x, n.root) by {
        let k = choose|k: nat| up(m.parents, x, k) == Some(m.root);
        lemma_reach_after_move(m.parents, m.root, node, new_parent, x, k);
    }
    assert forall|p: Node, c: Node| #[trigger] n.has_edge(p, c) implies n.parents.contains_key(c)
        && n.parents[c] == p by {
        if !(p == new_parent && c == node) {
            assert(m.has_edge(p, c));
        }
    }
    assert forall|c: Node| #[trigger] n.parents.contains_key(c) implies n.has_edge(
        n.parents[c],
        c,
    ) by {
        if c != node {
            assert(m.has_edge(m.parents[c], c));
            if m.parents[c] == old_parent {
                assert(m.children[old_parent].remove(node).contains(c));
            }
        }
    }
    assert forall|p: Node| #[trigger] n.children.contains_key(p) implies n.children[p].finite()
        && !n.children[p].is_empty() by {
        if p == new_parent {
            assert(n.children[p].contains(node));
        } else if p == old_parent {
            assert(m.children.contains_key(p));
        }
    }
    assert forall|x: Node| #[trigger] n.parents.contains_key(x) implies n.nodes.contains(x)
        && n.nodes.contains(n.parents[x]) by {
        if x != node {
            assert(m.parents.contains_key(x));
        }
    }
}

} // verus!
