//! The mutable tree: its data, its view as a `TreeModel`, its queries and
//! its mutations.
use std::collections::{HashMap, HashSet};
use vstd::prelude::*;

use crate::ancestry::{lemma_no_cycle, lemma_up_prev, lemma_up_step, up};
use crate::model::{
    lemma_absent_subtree, lemma_no_self_parent, lemma_reattached_is_tree, lemma_subtree_basics,
    lemma_subtree_child, lemma_subtree_of_root, lemma_subtree_siblings_disjoint,
    lemma_subtree_split, lemma_swapped_is_tree, lemma_tree_passes_checks, lemma_with_leaf_is_tree,
    swap_in, swap_node, Node, TreeModel,
};
use crate::parts::{
    keys_of, lists_to_map, pairs_to_map, parts_describe, parts_model, set_of, sorted_labels,
    strictly_increasing, TreeParts,
};

verus! {

broadcast use vstd::std_specs::hash::group_hash_axioms;

/// Why an operation on a tree was refused.
#[derive(Debug, Clone, Copy, PartialEq, Eq)]
pub enum TreeError {
    /// An operand label is not in the tree.
    NodeNotFound,
    /// An inserted label is already in the tree, or a node would be
    /// attached to itself.
    NodeAlreadyExists,
    /// The operation would break the tree's shape.
    TopologyError,
}

/// A mutable rooted tree of labelled nodes.
#[derive(Debug, PartialEq, Eq)]
pub struct Tree {
    root: Node,
    nodes: HashSet<Node>,
    children: HashMap<Node, HashSet<Node>>,
    parents: HashMap<Node, Node>,
}

impl View for Tree {
    type V = TreeModel;

    closed spec fn view(&self) -> TreeModel {
        TreeModel {
            root: self.root,
            nodes: self.nodes@,
            children: self.children@.map_values(|s: HashSet<Node>| s@),
            parents: self.parents@,
        }
    }
}

impl Tree {
    /// The tree is a well-formed rooted tree.
    pub open spec fn wf(&self) -> bool {
        self@.is_tree()
    }

    /// The number of nodes.
    pub fn len(&self) -> (r: usize)
        ensures
            r == self@.nodes.len(),
    {
        self.nodes.len()
    }

    /// A tree made of the single node `root`.
    pub fn new(root: Node) -> (r: Tree)
        ensures
            r@ == (TreeModel {
                root,
                nodes: set![root],
                children: Map::empty(),
                parents: Map::empty(),
            }),
            r.wf(),
    {
        let mut nodes = HashSet::new();
        nodes.insert(root);
        let r = Tree { root, nodes, children: HashMap::new(), parents: HashMap::new() };
        proof {
            assert(r@.children =~= Map::empty());
            assert(up(r@.parents, root, 0) == Some(root));
        }
        r
    }

    /// The root label.
    pub fn get_root(&self) -> (r: Node)
        ensures
            r == self@.root,
    {
        self.root
    }

    /// Whether `node` is in the tree.
    pub fn contains(&self, node: Node) -> (r: bool)
        ensures
            r == self@.nodes.contains(node),
    {
        self.nodes.contains(&node)
    }

    /// Puts `child` under `parent` without any check.
    fn attach_unchecked(&mut self, parent: Node, child: Node)
        ensures
            final(self)@ == old(self)@.with_leaf(parent, child),
    {
        self.nodes.insert(child);
        let mut set = match self.children.remove(&parent) {
            Some(s) => s,
            None => HashSet::new(),
        };
        set.insert(child);
        self.children.insert(parent, set);
        self.parents.insert(child, parent);
        proof {
            assert(final(self)@.children =~= old(self)@.children.insert(
                parent,
                old(self)@.children_of(parent).insert(child),
            ));
        }
    }

    /// Adds `child` as a new child of `parent`.
    ///
    /// Fails with `NodeNotFound` when `parent` is absent and with
    /// `NodeAlreadyExists` when `child` is already present; the tree is then
    /// left as it was.
    pub fn add_node(&mut self, parent: Node, child: Node) -> (r: Result<(), TreeError>)
        ensures
            !old(self)@.nodes.contains(parent) ==> r == Err::<(), TreeError>(TreeError::NodeNotFound),
            old(self)@.nodes.contains(parent) && old(self)@.nodes.contains(child) ==> r == Err::<
                (),
                TreeError,
            >(TreeError::NodeAlreadyExists),
            old(self)@.nodes.contains(parent) && !old(self)@.nodes.contains(child) ==> r is Ok,
            r is Ok ==> final(self)@ == old(self)@.with_leaf(parent, child),
            r is Err ==> final(self)@ == old(self)@,
            old(self).wf() ==> final(self).wf(),
    {
        if !self.contains(parent) {
            return Err(TreeError::NodeNotFound);
        }
        if self.contains(child) {
            return Err(TreeError::NodeAlreadyExists);
        }
        proof {
            if old(self).wf() {
                lemma_with_leaf_is_tree(self@, parent, child);
            }
        }
        self.attach_unchecked(parent, child);
        Ok(())
    }

    /// The parent of `node`, `None` for the root and for absent labels.
    pub fn get_parent(&self, node: Node) -> (r: Option<Node>)
        ensures
            r == self@.parents.get(node),
    {
        match self.parents.get(&node) {
            Some(p) => Some(*p),
            None => None,
        }
    }

    /// Whether `child` is a child of `parent`.
    pub fn is_child(&self, child: Node, parent: Node) -> (r: bool)
        ensures
            r == (self@.parents.contains_key(child) && self@.parents[child] == parent),
    {
        if let Some(node) = self.parents.get(&child) {
            *node == parent
        } else {
            false
        }
    }

    /// Whether `parent` is the parent of `child`.
    pub fn is_parent(&self, parent: Node, child: Node) -> (r: bool)
        ensures
            r == (self@.parents.contains_key(child) && self@.parents[child] == parent),
    {
        self.is_child(child, parent)
    }
}

/// Exchanges `i` and `j` inside one set of labels.
fn swap_members(s: &mut HashSet<Node>, i: Node, j: Node)
    ensures
        final(s)@ == swap_in(old(s)@, i, j),
{
    let has_i = s.contains(&i);
    let has_j = s.contains(&j);
    if has_i && !has_j {
        s.remove(&i);
        s.insert(j);
    } else if has_j && !has_i {
        s.remove(&j);
        s.insert(i);
    }
    proof {
        assert(final(s)@ =~= swap_in(old(s)@, i, j));
    }
}

impl Tree {
    /// Gives every label of `kids`, after exchanging `i` and `j` in it, the
    /// parent `new_parent`.
    fn reparent_all(&mut self, kids: &HashSet<Node>, i: Node, j: Node, new_parent: Node)
        ensures
            final(self).root == old(self).root,
            final(self).nodes@ == old(self).nodes@,
            final(self).children@ == old(self).children@,
            forall|c: Node| #[trigger]
                final(self).parents@.contains_key(c) == (old(self).parents@.contains_key(c)
                    || kids@.contains(swap_node(c, i, j))),
            forall|c: Node| #[trigger]
                final(self).parents@.contains_key(c) ==> final(self).parents@[c] == if kids@.contains(
                    swap_node(c, i, j),
                ) {
                    new_parent
                } else {
                    old(self).parents@[c]
                },
    {
        let ghost base = self.parents@;
        let ghost mut seen: Set<Node> = Set::empty();
        for c in it: kids.iter()
            invariant
                self.root == old(self).root,
                self.nodes@ == old(self).nodes@,
                self.children@ == old(self).children@,
                base == old(self).parents@,
                it.seq().unref().to_set() == kids@,
                seen.subset_of(kids@),
                forall|t: int| 0 <= t < it.index() ==> seen.contains(*it.seq()[t]),
                it.index() == it.seq().len() ==> kids@.subset_of(seen),
                forall|x: Node| #[trigger]
                    self.parents@.contains_key(x) == (base.contains_key(x) || seen.contains(
                        swap_node(x, i, j),
                    )),
                forall|x: Node| #[trigger]
                    self.parents@.contains_key(x) ==> self.parents@[x] == if seen.contains(
                        swap_node(x, i, j),
                    ) {
                        new_parent
                    } else {
                        base[x]
                    },
        {
            let ghost idx = it.index();
            let key = if *c == i {
                j
            } else if *c == j {
                i
            } else {
                *c
            };
            self.parents.insert(key, new_parent);
            proof {
                seen = seen.insert(*c);
            }
            proof {
                assert(it.seq().unref()[idx] == *c);
                assert(it.seq().unref().to_set().contains(*c));
                assert(swap_node(key, i, j) == *c);
                assert forall|x: Node| swap_node(x, i, j) == *c implies x == key by {}
                assert forall|y: Node|
                    idx + 1 == it.seq().len() && kids@.contains(y) implies seen.contains(y) by {
                    assert(it.seq().unref().to_set().contains(y));
                    let t = choose|t: int|
                        0 <= t < it.seq().len() && #[trigger] it.seq().unref()[t]
                            == y;
                    assert(it.seq().unref()[t] == *it.seq()[t]);
                }
            }
        }
        proof {
            assert(seen == kids@);
        }
    }
}

/// The label that `x` carries after `i` and `j` are exchanged.
fn swapped_label(x: Node, i: Node, j: Node) -> (r: Node)
    ensures
        r == swap_node(x, i, j),
{
    if x == i {
        j
    } else if x == j {
        i
    } else {
        x
    }
}

impl Tree {
    /// Exchanges `i` and `j` in the child set of `p`, if `p` has one.
    fn swap_in_child_set(&mut self, p: Node, i: Node, j: Node)
        ensures
            final(self).root == old(self).root,
            final(self).nodes@ == old(self).nodes@,
            final(self).parents@ == old(self).parents@,
            final(self)@.children == if old(self)@.children.contains_key(p) {
                old(self)@.children.insert(p, swap_in(old(self)@.children[p], i, j))
            } else {
                old(self)@.children
            },
    {
        if let Some(mut set) = self.children.remove(&p) {
            swap_members(&mut set, i, j);
            self.children.insert(p, set);
            proof {
                assert(self@.children =~= old(self)@.children.insert(
                    p,
                    swap_in(old(self)@.children[p], i, j),
                ));
            }
        } else {
            proof {
                assert(self@.children =~= old(self)@.children);
            }
        }
    }

    /// Exchanges the labels `i` and `j`: the node that was labelled `i` is
    /// labelled `j` and the other way round, and the shape of the tree is
    /// unchanged. `i == j` changes nothing.
    ///
    /// Fails with `NodeNotFound`, leaving the tree as it was, when either
    /// label is absent. `TopologyError` would report two nodes that are each
    /// other's parent, which a tree never holds.
    pub fn swap_labels(&mut self, i: Node, j: Node) -> (r: Result<(), TreeError>)
        ensures
            !(old(self)@.nodes.contains(i) && old(self)@.nodes.contains(j)) ==> r == Err::<
                (),
                TreeError,
            >(TreeError::NodeNotFound),
            old(self).wf() && old(self)@.nodes.contains(i) && old(self)@.nodes.contains(j) ==> r is Ok,
            old(self).wf() && r is Ok ==> final(self)@ == old(self)@.swapped(i, j),
            r is Err ==> final(self)@ == old(self)@,
            old(self).wf() ==> final(self).wf(),
    {
        if !self.contains(i) || !self.contains(j) {
            return Err(TreeError::NodeNotFound);
        }
        let ghost m = self@;
        if i == j {
            proof {
                assert(m.nodes =~= m.swapped(i, j).nodes);
                assert forall|p: Node| #[trigger] m.children.contains_key(p) implies m.children[p]
                    == m.swapped(i, j).children[p] by {
                    assert(m.children[p] =~= m.swapped(i, j).children[p]);
                }
                assert(m.children =~= m.swapped(i, j).children);
                assert(m.parents =~= m.swapped(i, j).parents);
            }
            return Ok(());
        }
        let is_i_child_j = self.is_child(i, j);
        let is_j_child_i = self.is_child(j, i);
        if is_i_child_j && is_j_child_i {
            proof {
                if m.is_tree() {
                    let k = choose|k: nat| up(m.parents, i, k) == Some(m.root);
                    assert(up(m.parents, i, 2) == up(m.parents, i, 0)) by {
                        assert(up(m.parents, j, 1) == up(m.parents, i, 0));
                    }
                    lemma_no_cycle(m.parents, m.root, i, 2, k);
                }
            }
            return Err(TreeError::TopologyError);
        }
        if self.root == i {
            self.root = j;
        } else if self.root == j {
            self.root = i;
        }
        let children_i = self.children.remove(&i);
        let children_j = self.children.remove(&j);
        let parent_i = self.parents.remove(&i);
        let parent_j = self.parents.remove(&j);
        proof {
            assert(self.parents@ == m.parents.remove(i).remove(j));
            assert(self@.children == m.children.remove(i).remove(j));
        }
        // Whatever hung under one label now hangs under the other. When the
        // two are parent and child, exchanging the labels inside the moved
        // sets turns the pair around; no separate case is needed.
        if let Some(set) = &children_i {
            self.reparent_all(set, i, j, j);
        }
        if let Some(set) = &children_j {
            self.reparent_all(set, i, j, i);
        }
        let ghost relinked = self.parents@;
        proof {
            assert forall|c: Node| #[trigger] relinked.contains_key(c) == (c != i && c != j
                && m.parents.contains_key(c) || m.has_edge(i, swap_node(c, i, j)) || m.has_edge(
                j,
                swap_node(c, i, j),
            )) && (relinked.contains_key(c) ==> relinked[c] == if m.has_edge(j, swap_node(c, i, j)) {
                i
            } else if m.has_edge(i, swap_node(c, i, j)) {
                j
            } else {
                m.parents[c]
            }) by {}
        }
        // Each label takes over the other's parent, and that parent's child
        // set names the new label; a parent shared by both keeps its set.
        if let Some(p) = parent_i {
            self.parents.insert(j, swapped_label(p, i, j));
            if p != i && p != j {
                self.swap_in_child_set(p, i, j);
            }
        }
        if let Some(q) = parent_j {
            self.parents.insert(i, swapped_label(q, i, j));
            let shared = match parent_i {
                Some(p) => p == q,
                None => false,
            };
            if q != i && q != j && !shared {
                self.swap_in_child_set(q, i, j);
            }
        }
        let ghost repointed = self.parents@;
        let ghost reshaped = self@.children;
        proof {
            assert(repointed == (if parent_j is Some {
                (if parent_i is Some {
                    relinked.insert(j, swap_node(parent_i->0, i, j))
                } else {
                    relinked
                }).insert(i, swap_node(parent_j->0, i, j))
            } else if parent_i is Some {
                relinked.insert(j, swap_node(parent_i->0, i, j))
            } else {
                relinked
            }));
        }
        proof {
            if m.is_tree() {
                assert forall|p: Node| #[trigger] reshaped.contains_key(p) == (p != i && p != j
                    && m.children.contains_key(p)) && (reshaped.contains_key(p) ==> reshaped[p] == if (
                parent_i == Some(p) || parent_j == Some(p)) {
                    swap_in(m.children[p], i, j)
                } else {
                    m.children[p]
                }) by {
                    if parent_i == Some(p) && p != i && p != j {
                        assert(m.has_edge(p, i));
                    }
                    if parent_j == Some(p) && p != i && p != j {
                        assert(m.has_edge(p, j));
                    }
                }
            }
        }
        if let Some(mut set) = children_i {
            swap_members(&mut set, i, j);
            self.children.insert(j, set);
        }
        if let Some(mut set) = children_j {
            swap_members(&mut set, i, j);
            self.children.insert(i, set);
        }
        proof {
            if m.is_tree() {
                let n = m.swapped(i, j);
                lemma_no_self_parent(m, i);
                lemma_no_self_parent(m, j);
                assert(self@.nodes =~= n.nodes);
                assert forall|c: Node| #[trigger] self@.parents.contains_key(c) == n.parents.contains_key(c)
                    && (self@.parents.contains_key(c) ==> self@.parents[c] == n.parents[c]) by {
                    if c != i && c != j && m.parents.contains_key(c) {
                        assert(m.has_edge(m.parents[c], c));
                    }
                    if c == i && m.parents.contains_key(j) {
                        assert(m.has_edge(m.parents[j], j));
                    }
                    if c == j && m.parents.contains_key(i) {
                        assert(m.has_edge(m.parents[i], i));
                    }
                }
                assert(self@.parents =~= n.parents);
                assert forall|p: Node| #[trigger] self@.children.contains_key(p)
                    == n.children.contains_key(p) && (self@.children.contains_key(p)
                    ==> self@.children[p] == n.children[p]) by {
                    assert(reshaped.contains_key(p) == (p != i && p != j && m.children.contains_key(p)));
                    if p != i && p != j && m.children.contains_key(p) {
                        if !m.children[p].contains(i) && !m.children[p].contains(j) {
                            assert(m.children[p] =~= swap_in(m.children[p], i, j));
                            assert(parent_i != Some(p)) by {
                                if parent_i == Some(p) {
                                    assert(m.has_edge(p, i));
                                }
                            }
                            assert(parent_j != Some(p)) by {
                                if parent_j == Some(p) {
                                    assert(m.has_edge(p, j));
                                }
                            }
                        } else if m.children[p].contains(i) {
                            assert(m.has_edge(p, i));
                        } else {
                            assert(m.has_edge(p, j));
                        }
                    }
                }
                assert(self@.children =~= n.children);
                assert(self@ == n);
                lemma_swapped_is_tree(m, i, j);
            }
        }
        Ok(())
    }
}

impl Tree {
    /// Every node other than the root has a parent link.
    fn all_have_parents(&self) -> (r: bool)
        ensures
            r == forall|x: Node|
                #[trigger] self@.nodes.contains(x) && x != self@.root ==> self@.parents.contains_key(x),
    {
        for node in it: self.nodes.iter()
            invariant
                it.seq().unref().to_set() == self.nodes@,
                forall|x: Node|
                    #[trigger] self@.nodes.contains(x) && x != self.root
                        && !self@.parents.contains_key(x) ==> exists|t: int|
                        it.index() <= t < it.seq().len() && *it.seq()[t] == x,
        {
            proof {
                assert(it.seq().unref()[it.index()] == *node);
                assert(it.seq().unref().to_set().contains(*node));
            }
            if *node != self.root && !self.parents.contains_key(node) {
                proof {
                    assert(self@.nodes.contains(*node));
                }
                return false;
            }
        }
        true
    }

    /// Every listed child of `parent`, in `kids`, has the parent link back
    /// to `parent`.
    fn kids_point_back(&self, parent: Node, kids: &HashSet<Node>) -> (r: bool)
        ensures
            r == forall|c: Node|
                #[trigger] kids@.contains(c) ==> self@.parents.contains_key(c) && self@.parents[c]
                    == parent,
    {
        for child in it: kids.iter()
            invariant
                it.seq().unref().to_set() == kids@,
                forall|c: Node|
                    #[trigger] kids@.contains(c) && !(self@.parents.contains_key(c)
                        && self@.parents[c] == parent) ==> exists|t: int|
                        it.index() <= t < it.seq().len() && *it.seq()[t] == c,
        {
            proof {
                assert(it.seq().unref()[it.index()] == *child);
                assert(it.seq().unref().to_set().contains(*child));
            }
            let ok = match self.parents.get(child) {
                Some(child_parent) => *child_parent == parent,
                None => false,
            };
            if !ok {
                return false;
            }
        }
        true
    }

    /// Every listed child has the parent link back to its parent.
    fn children_point_back(&self) -> (r: bool)
        ensures
            r == forall|p: Node, c: Node| #[trigger]
                self@.has_edge(p, c) ==> self@.parents.contains_key(c) && self@.parents[c] == p,
    {
        for (parent, kids) in it: self.children.iter()
            invariant
                forall|t: int|
                    #![trigger it.seq()[t]]
                    0 <= t < it.seq().len() ==> self.children@.contains_key(*it.seq()[t].0)
                        && self.children@[*it.seq()[t].0] == *it.seq()[t].1,
                forall|p: Node, c: Node|
                    #[trigger] self@.has_edge(p, c) && !(self@.parents.contains_key(c)
                        && self@.parents[c] == p) ==> exists|t: int|
                        it.index() <= t < it.seq().len() && *it.seq()[t].0 == p,
        {
            proof {
                assert(it.seq()[it.index()] == (parent, kids));
            }
            if !self.kids_point_back(*parent, kids) {
                proof {
                    let c = choose|c: Node| #[trigger]
                        kids@.contains(c) && !(self@.parents.contains_key(c) && self@.parents[c]
                            == *parent);
                    assert(self@.has_edge(*parent, c));
                }
                return false;
            }
            proof {
                assert forall|p: Node, c: Node|
                    #[trigger] self@.has_edge(p, c) && !(self@.parents.contains_key(c)
                        && self@.parents[c] == p) implies exists|t: int|
                    it.index() + 1 <= t < it.seq().len() && *it.seq()[t].0 == p by {
                    let t = choose|t: int| it.index() <= t < it.seq().len() && *it.seq()[t].0 == p;
                    if t == it.index() {
                        assert(kids@.contains(c));
                    }
                }
            }
        }
        true
    }

    /// No node is its own parent or its own child.
    fn no_self_links(&self) -> (r: bool)
        ensures
            r == forall|x: Node|
                #[trigger] self@.nodes.contains(x) ==> !(self@.parents.contains_key(x)
                    && self@.parents[x] == x) && !self@.has_edge(x, x),
    {
        for node in it: self.nodes.iter()
            invariant
                it.seq().unref().to_set() == self.nodes@,
                forall|x: Node|
                    #[trigger] self@.nodes.contains(x) && ((self@.parents.contains_key(x)
                        && self@.parents[x] == x) || self@.has_edge(x, x)) ==> exists|t: int|
                        it.index() <= t < it.seq().len() && *it.seq()[t] == x,
        {
            proof {
                assert(it.seq().unref()[it.index()] == *node);
                assert(it.seq().unref().to_set().contains(*node));
            }
            let own_parent = match self.parents.get(node) {
                Some(parent) => *parent == *node,
                None => false,
            };
            let own_child = match self.children.get(node) {
                Some(kids) => kids.contains(node),
                None => false,
            };
            if own_parent || own_child {
                proof {
                    assert(self@.nodes.contains(*node));
                    if own_child {
                        assert(self@.has_edge(*node, *node));
                    }
                }
                return false;
            }
        }
        true
    }

    /// Re-derives the tree's consistency from its maps alone: every node but
    /// the root has a parent, every listed child points back to its parent,
    /// and no node is its own parent or its own child.
    pub fn is_valid(&self) -> (r: bool)
        ensures
            r == self@.passes_checks(),
            self.wf() ==> r,
    {
        proof {
            if self.wf() {
                lemma_tree_passes_checks(self@);
            }
        }
        self.all_have_parents() && self.children_point_back() && self.no_self_links()
    }
}

impl Tree {
    /// The node count fits in a `usize`, and so does every subtree's.
    proof fn lemma_sizes_fit(&self, x: Node)
        requires
            self.wf(),
        ensures
            self@.nodes.len() <= usize::MAX,
            self@.subtree(x).len() <= self@.nodes.len(),
            self@.subtree(x).finite(),
    {
        assert(vstd::std_specs::hash::spec_hash_set_len(&self.nodes) == self.nodes@.len());
        lemma_subtree_basics(self@, x);
        vstd::set_lib::lemma_len_subset(self@.subtree(x), self@.nodes);
    }

    /// Counts the nodes of the subtree rooted at `node`.
    fn count_subtree(&self, node: Node) -> (r: usize)
        requires
            self.wf(),
            self@.nodes.contains(node),
        ensures
            r == self@.subtree(node).len(),
        decreases self@.subtree(node).len(),
    {
        let mut size: usize = 1;
        let ghost mut counted: Set<Node> = Set::empty();
        proof {
            self.lemma_sizes_fit(node);
        }
        if let Some(children) = self.children.get(&node) {
            proof {
                assert forall|y: Node|
                    #[trigger] self@.subtree(node).contains(y) && y != node implies exists|c: Node|
                        #[trigger] children@.contains(c) && self@.subtree(c).contains(y) by {
                    lemma_subtree_split(self@, node, y);
                }
                lemma_subtree_basics(self@, node);
            }
            for child in it: children.iter()
                invariant
                    self.wf(),
                    self@.nodes.contains(node),
                    self@.children.contains_key(node),
                    children@ == self@.children[node],
                    it.seq().unref().to_set() == children@,
                    it.seq().no_duplicates(),
                    self@.subtree(node).finite(),
                    self@.subtree(node).len() <= usize::MAX,
                    counted.finite(),
                    counted.subset_of(self@.subtree(node).remove(node)),
                    size == 1 + counted.len(),
                    forall|y: Node| #[trigger]
                        counted.contains(y) ==> exists|t: int|
                            0 <= t < it.index() && self@.subtree(*it.seq()[t]).contains(y),
                    self@.subtree(node).contains(node),
                    forall|c: Node|
                        #[trigger] children@.contains(c) ==> exists|t: int|
                            0 <= t < it.seq().len() && *it.seq()[t] == c,
                    forall|y: Node|
                        #[trigger] self@.subtree(node).contains(y) && y != node && !counted.contains(y)
                            ==> exists|c: Node|
                            #[trigger] children@.contains(c) && self@.subtree(c).contains(y) && forall|t: int|
                                0 <= t < it.index() ==> *it.seq()[t] != c,
            {
                let c = *child;
                proof {
                    assert(it.seq().unref()[it.index()] == c);
                    assert(it.seq().unref().to_set().contains(c));
                    assert(self@.has_edge(node, c));
                    lemma_subtree_child(self@, node, c);
                    lemma_subtree_basics(self@, c);
                    assert forall|y: Node| counted.contains(y) implies !self@.subtree(c).contains(y) by {
                        let t = choose|t: int|
                            0 <= t < it.index() && self@.subtree(*it.seq()[t]).contains(y);
                        assert(*it.seq()[t] != c);
                        assert(it.seq().unref().to_set().contains(*it.seq()[t])) by {
                            assert(it.seq().unref()[t] == *it.seq()[t]);
                        }
                        lemma_subtree_siblings_disjoint(self@, node, *it.seq()[t], c);
                    }
                    vstd::set_lib::lemma_set_disjoint_lens(counted, self@.subtree(c));
                    assert(counted.union(self@.subtree(c)).subset_of(self@.subtree(node).remove(node)));
                    vstd::set_lib::lemma_len_subset(
                        counted.union(self@.subtree(c)),
                        self@.subtree(node).remove(node),
                    );
                }
                let s = self.count_subtree(c);
                size = size + s;
                proof {
                    counted = counted.union(self@.subtree(c));
                }
                proof {
                    assert forall|y: Node|
                        #[trigger] self@.subtree(node).contains(y) && y != node && !counted.contains(y)
                            implies exists|other: Node|
                            #[trigger] children@.contains(other) && self@.subtree(other).contains(y) && forall|t: int|
                                0 <= t < it.index() + 1 ==> *it.seq()[t] != other by {
                        let other = choose|other: Node|
                            #[trigger] children@.contains(other) && self@.subtree(other).contains(y) && forall|t: int|
                                0 <= t < it.index() ==> *it.seq()[t] != other;
                        assert(other != c);
                    }
                    assert forall|y: Node| #[trigger]
                        counted.contains(y) implies exists|t: int|
                            0 <= t < it.index() + 1 && self@.subtree(*it.seq()[t]).contains(y) by {
                        if self@.subtree(c).contains(y) {
                            assert(self@.subtree(*it.seq()[it.index() as int]).contains(y));
                        }
                    }
                }
            }
        } else {
            proof {
                assert forall|y: Node| #[trigger] self@.subtree(node).contains(y) && y != node implies false by {
                    lemma_subtree_split(self@, node, y);
                }
            }
        }
        proof {
            assert(counted =~= self@.subtree(node).remove(node));
            lemma_subtree_basics(self@, node);
        }
        size
    }

    /// The number of nodes in the subtree rooted at `node`, `node` included
    /// (1 for a leaf). Fails with `NodeNotFound` when `node` is absent.
    pub fn subtree_size(&self, node: Node) -> (r: Result<usize, TreeError>)
        requires
            self.wf(),
        ensures
            self@.nodes.contains(node) ==> r == Ok::<usize, TreeError>(self@.subtree(node).len() as usize),
            !self@.nodes.contains(node) ==> r == Err::<usize, TreeError>(TreeError::NodeNotFound),
    {
        if self.contains(node) {
            Ok(self.count_subtree(node))
        } else {
            Err(TreeError::NodeNotFound)
        }
    }
}

impl Tree {
    /// Adds to `descendants` every strict descendant of `node`.
    fn collect_descendants(&self, node: Node, descendants: &mut HashSet<Node>)
        requires
            self.wf(),
            old(descendants)@.disjoint(self@.descendants(node)),
        ensures
            final(descendants)@ == old(descendants)@.union(self@.descendants(node)),
        decreases self@.subtree(node).len(),
    {
        let ghost mut added: Set<Node> = Set::empty();
        if let Some(children) = self.children.get(&node) {
            proof {
                assert forall|y: Node|
                    #[trigger] self@.descendants(node).contains(y) implies exists|c: Node|
                        #[trigger] children@.contains(c) && self@.subtree(c).contains(y) by {
                    lemma_subtree_split(self@, node, y);
                }
            }
            for child in it: children.iter()
                invariant
                    self.wf(),
                    self@.children.contains_key(node),
                    children@ == self@.children[node],
                    it.seq().unref().to_set() == children@,
                    it.seq().no_duplicates(),
                    old(descendants)@.disjoint(self@.descendants(node)),
                    descendants@ == old(descendants)@.union(added),
                    added.subset_of(self@.descendants(node)),
                    forall|y: Node| #[trigger]
                        added.contains(y) ==> exists|t: int|
                            0 <= t < it.index() && self@.subtree(*it.seq()[t]).contains(y),
                    forall|c: Node|
                        #[trigger] children@.contains(c) ==> exists|t: int|
                            0 <= t < it.seq().len() && *it.seq()[t] == c,
                    forall|y: Node|
                        #[trigger] self@.descendants(node).contains(y) && !added.contains(y)
                            ==> exists|c: Node|
                            #[trigger] children@.contains(c) && self@.subtree(c).contains(y) && forall|t: int|
                                0 <= t < it.index() ==> *it.seq()[t] != c,
            {
                let c = *child;
                proof {
                    assert(it.seq().unref()[it.index()] == c);
                    assert(it.seq().unref().to_set().contains(c));
                    assert(self@.has_edge(node, c));
                    lemma_subtree_child(self@, node, c);
                    lemma_subtree_basics(self@, c);
                    assert forall|y: Node| added.contains(y) implies !self@.subtree(c).contains(y) by {
                        let t = choose|t: int|
                            0 <= t < it.index() && self@.subtree(*it.seq()[t]).contains(y);
                        assert(*it.seq()[t] != c);
                        assert(it.seq().unref().to_set().contains(*it.seq()[t])) by {
                            assert(it.seq().unref()[t] == *it.seq()[t]);
                        }
                        lemma_subtree_siblings_disjoint(self@, node, *it.seq()[t], c);
                    }
                    assert(self@.descendants(node).contains(c));
                }
                if descendants.insert(c) {
                    self.collect_descendants(c, descendants);
                }
                proof {
                    added = added.union(self@.subtree(c));
                }
                proof {
                    assert(descendants@ =~= old(descendants)@.union(added));
                    assert forall|y: Node|
                        #[trigger] self@.descendants(node).contains(y) && !added.contains(y)
                            implies exists|other: Node|
                            #[trigger] children@.contains(other) && self@.subtree(other).contains(y) && forall|t: int|
                                0 <= t < it.index() + 1 ==> *it.seq()[t] != other by {
                        let other = choose|other: Node|
                            #[trigger] children@.contains(other) && self@.subtree(other).contains(y) && forall|t: int|
                                0 <= t < it.index() ==> *it.seq()[t] != other;
                        assert(other != c);
                    }
                    assert forall|y: Node| #[trigger]
                        added.contains(y) implies exists|t: int|
                            0 <= t < it.index() + 1 && self@.subtree(*it.seq()[t]).contains(y) by {
                        if self@.subtree(c).contains(y) {
                            assert(self@.subtree(*it.seq()[it.index() as int]).contains(y));
                        }
                    }
                }
            }
        } else {
            proof {
                assert forall|y: Node| #[trigger] self@.descendants(node).contains(y) implies false by {
                    lemma_subtree_split(self@, node, y);
                }
            }
        }
        proof {
            assert(added =~= self@.descendants(node));
        }
    }

    /// The set of strict descendants of `node` (empty for a leaf and for an
    /// absent label).
    pub fn get_descendants(&self, node: Node) -> (r: HashSet<Node>)
        requires
            self.wf(),
        ensures
            r@ == self@.descendants(node),
    {
        let mut descendants = HashSet::new();
        self.collect_descendants(node, &mut descendants);
        proof {
            assert(descendants@ =~= self@.descendants(node));
        }
        descendants
    }

    /// The height of the subtree rooted at `node`: 1 for a leaf (and for an
    /// absent label), else one more than the greatest height of a child.
    pub fn calculate_height_from_node(&self, node: Node) -> (r: usize)
        requires
            self.wf(),
        ensures
            self@.height_is(node, r as nat),
            self@.nodes.contains(node) ==> r <= self@.subtree(node).len(),
        decreases self@.subtree(node).len(),
    {
        proof {
            self.lemma_sizes_fit(node);
            assert(up(self@.parents, node, 0) == Some(node));
        }
        if let Some(children) = self.children.get(&node) {
            let mut max_height: usize = 0;
            proof {
                if !self@.nodes.contains(node) {
                    lemma_absent_subtree(self@, node);
                }
                lemma_subtree_basics(self@, node);
            }
            for child in it: children.iter()
                invariant
                    self.wf(),
                    self@.nodes.contains(node),
                    self@.children.contains_key(node),
                    children@ == self@.children[node],
                    it.seq().unref().to_set() == children@,
                    self@.subtree(node).finite(),
                    self@.subtree(node).len() <= usize::MAX,
                    max_height < self@.subtree(node).len(),
                    max_height == 0 || exists|y: Node|
                        #[trigger] up(self@.parents, y, max_height as nat) == Some(node),
                    forall|c: Node|
                        #[trigger] children@.contains(c) ==> exists|t: int|
                            0 <= t < it.seq().len() && *it.seq()[t] == c,
                    forall|y: Node, k: nat|
                        #[trigger] up(self@.parents, y, k) == Some(node) && k >= 1 && k > max_height
                            ==> forall|t: int|
                            0 <= t < it.index() ==> up(self@.parents, y, (k - 1) as nat) != Some(
                                *it.seq()[t],
                            ),
            {
                let c = *child;
                proof {
                    assert(it.seq().unref()[it.index()] == c);
                    assert(it.seq().unref().to_set().contains(c));
                    assert(self@.has_edge(node, c));
                    lemma_subtree_child(self@, node, c);
                }
                let h = self.calculate_height_from_node(c);
                proof {
                    if h > max_height {
                        let y = choose|y: Node| #[trigger] up(self@.parents, y, (h - 1) as nat) == Some(c);
                        lemma_up_step(self@.parents, y, (h - 1) as nat);
                        assert(up(self@.parents, y, h as nat) == Some(node));
                    }
                }
                if h > max_height {
                    max_height = h;
                }
                proof {
                    assert forall|y: Node, k: nat|
                        #[trigger] up(self@.parents, y, k) == Some(node) && k >= 1 && k > max_height
                            implies forall|t: int|
                            0 <= t < it.index() + 1 ==> up(self@.parents, y, (k - 1) as nat) != Some(
                                *it.seq()[t],
                            ) by {
                        assert(up(self@.parents, y, (k - 1) as nat) != Some(c));
                    }
                }
            }
            proof {
                let c0 = children@.choose();
                assert(children@.contains(c0));
                assert(up(self@.parents, c0, 1) == Some(node)) by {
                    assert(self@.has_edge(node, c0));
                    assert(up(self@.parents, node, 0) == Some(node));
                }
                assert forall|y: Node, k: nat| #[trigger] up(self@.parents, y, k) == Some(node) implies k
                    < max_height + 1 by {
                    if k >= 1 {
                        lemma_up_prev(self@.parents, y, k);
                        let c = up(self@.parents, y, (k - 1) as nat)->0;
                        assert(self@.has_edge(node, c));
                        assert(children@.contains(c));
                    }
                }
            }
            max_height + 1
        } else {
            proof {
                assert forall|y: Node, k: nat| #[trigger] up(self@.parents, y, k) == Some(node) implies k
                    < 1 by {
                    if k >= 1 {
                        lemma_up_prev(self@.parents, y, k);
                        let c = up(self@.parents, y, (k - 1) as nat)->0;
                        assert(self@.has_edge(node, c));
                    }
                }
                if self@.nodes.contains(node) {
                    lemma_subtree_basics(self@, node);
                    assert(self@.subtree(node).contains(node));
                    assert(self@.subtree(node).len() > 0);
                }
            }
            1
        }
    }

    /// The height of the whole tree.
    pub fn calculate_height(&self) -> (r: usize)
        requires
            self.wf(),
        ensures
            self@.height_is(self@.root, r as nat),
    {
        self.calculate_height_from_node(self.get_root())
    }
}

impl Tree {
    /// Moves the subtree rooted at `node`, unchanged inside, under
    /// `new_parent`.
    ///
    /// Fails, leaving the tree as it was, with `NodeNotFound` when either
    /// label is absent, with `NodeAlreadyExists` when the two are the same
    /// node, and with `TopologyError` when `new_parent` lies inside the
    /// subtree of `node` (which covers `node` being the root).
    pub fn prune_and_reattach(&mut self, node: Node, new_parent: Node) -> (r: Result<(), TreeError>)
        requires
            old(self).wf(),
        ensures
            !(old(self)@.nodes.contains(node) && old(self)@.nodes.contains(new_parent)) ==> r
                == Err::<(), TreeError>(TreeError::NodeNotFound),
            old(self)@.nodes.contains(node) && node == new_parent ==> r == Err::<(), TreeError>(
                TreeError::NodeAlreadyExists,
            ),
            old(self)@.nodes.contains(node) && old(self)@.nodes.contains(new_parent) && node
                != new_parent && old(self)@.descendants(node).contains(new_parent) ==> r == Err::<
                (),
                TreeError,
            >(TreeError::TopologyError),
            old(self)@.nodes.contains(node) && old(self)@.nodes.contains(new_parent) && node
                != new_parent && !old(self)@.descendants(node).contains(new_parent) ==> r is Ok
                && final(self)@ == old(self)@.reattached(node, new_parent),
            r is Err ==> final(self)@ == old(self)@,
            final(self).wf(),
    {
        if !self.contains(node) || !self.contains(new_parent) {
            return Err(TreeError::NodeNotFound);
        }
        if node == new_parent {
            return Err(TreeError::NodeAlreadyExists);
        }
        if self.get_descendants(node).contains(&new_parent) {
            return Err(TreeError::TopologyError);
        }
        let ghost m = self@;
        // `node` is not the root here: every other node descends from the root.
        let parent = match self.parents.get(&node) {
            Some(p) => *p,
            None => {
                proof {
                    lemma_subtree_of_root(m);
                    assert(m.descendants(node).contains(new_parent));
                }
                return Err(TreeError::TopologyError);
            },
        };
        if let Some(mut set) = self.children.remove(&parent) {
            set.remove(&node);
            if !set.is_empty() {
                self.children.insert(parent, set);
            }
        }
        proof {
            assert(m.has_edge(parent, node));
            assert(self@.children =~= m.detached(node).children);
            assert(self@ == m.detached(node));
            lemma_reattached_is_tree(m, node, new_parent);
        }
        self.attach_unchecked(new_parent, node);
        Ok(())
    }
}

impl Tree {
    /// The children of `node` in increasing label order (empty for a leaf).
    pub fn children_sorted(&self, node: Node) -> (r: Vec<Node>)
        ensures
            strictly_increasing(r@),
            r@.to_set() == self@.children_of(node),
    {
        match self.children.get(&node) {
            Some(set) => sorted_labels(set),
            None => {
                let r: Vec<Node> = Vec::new();
                proof {
                    assert(r@.to_set() =~= Set::<Node>::empty());
                }
                r
            },
        }
    }

    /// Lays the tree out as ordered lists.
    pub fn to_parts(&self) -> (r: TreeParts)
        ensures
            parts_describe(r, self@),
    {
        let nodes = sorted_labels(&self.nodes);
        let child_keys = sorted_labels(&keys_of(&self.children));
        let mut children: Vec<(Node, Vec<Node>)> = Vec::new();
        for idx in 0..child_keys.len()
            invariant
                strictly_increasing(child_keys@),
                child_keys@.to_set() == self@.children.dom(),
                children@.len() == idx,
                forall|i: int|
                    0 <= i < idx ==> (#[trigger] children@[i]).0 == child_keys@[i]
                        && strictly_increasing(children@[i].1@) && children@[i].1@.to_set()
                        == self@.children[child_keys@[i]],
        {
            let k = child_keys[idx];
            proof {
                assert(child_keys@.to_set().contains(k));
            }
            if let Some(set) = self.children.get(&k) {
                children.push((k, sorted_labels(set)));
            }
        }
        let parent_keys = sorted_labels(&keys_of(&self.parents));
        let mut parents: Vec<(Node, Node)> = Vec::new();
        for idx in 0..parent_keys.len()
            invariant
                strictly_increasing(parent_keys@),
                parent_keys@.to_set() == self@.parents.dom(),
                parents@.len() == idx,
                forall|i: int|
                    0 <= i < idx ==> (#[trigger] parents@[i]).0 == parent_keys@[i]
                        && parents@[i].1 == self@.parents[parent_keys@[i]],
        {
            let k = parent_keys[idx];
            proof {
                assert(parent_keys@.to_set().contains(k));
            }
            if let Some(p) = self.parents.get(&k) {
                parents.push((k, *p));
            }
        }
        proof {
            assert(children@.map_values(|e: (Node, Vec<Node>)| e.0) =~= child_keys@);
            assert(parents@.map_values(|e: (Node, Node)| e.0) =~= parent_keys@);
        }
        TreeParts { root: self.root, nodes, children, parents }
    }

    /// Builds the tree that `parts` lay out, without checking it; later
    /// entries for the same key win. `is_valid` tells whether the result is
    /// consistent.
    pub fn from_parts(parts: &TreeParts) -> (r: Tree)
        ensures
            r@ == parts_model(*parts),
    {
        let nodes = set_of(&parts.nodes);
        let mut children: HashMap<Node, HashSet<Node>> = HashMap::new();
        for idx in 0..parts.children.len()
            invariant
                forall|k: Node| #[trigger]
                    children@.contains_key(k) == lists_to_map(parts.children@.take(idx as int)).contains_key(k),
                forall|k: Node| #[trigger]
                    children@.contains_key(k) ==> children@[k]@ == lists_to_map(
                        parts.children@.take(idx as int),
                    )[k],
        {
            let entry = &parts.children[idx];
            proof {
                assert(parts.children@.take(idx + 1).drop_last() =~= parts.children@.take(idx as int));
            }
            children.insert(entry.0, set_of(&entry.1));
        }
        let mut parent_map: HashMap<Node, Node> = HashMap::new();
        for idx in 0..parts.parents.len()
            invariant
                parent_map@ == pairs_to_map(parts.parents@.take(idx as int)),
        {
            let entry = parts.parents[idx];
            proof {
                assert(parts.parents@.take(idx + 1).drop_last() =~= parts.parents@.take(idx as int));
            }
            parent_map.insert(entry.0, entry.1);
        }
        let r = Tree { root: parts.root, nodes, children, parents: parent_map };
        proof {
            assert(parts.children@.take(parts.children@.len() as int) =~= parts.children@);
            assert(parts.parents@.take(parts.parents@.len() as int) =~= parts.parents@);
            assert(r@.children =~= lists_to_map(parts.children@));
        }
        r
    }
}

} // verus!
