//! Properties of the tree operations that hold for every tree, stated over
//! the model that the operations' contracts use.
use vstd::prelude::*;

use crate::model::{
    lemma_subtree_of_root, lemma_swapped_is_tree, lemma_swapped_twice,
    lemma_tree_passes_checks, Node, TreeModel,
};

verus! {

/// Swapping the same two labels twice gives back the original tree: the
/// first swap leaves a tree that still holds both labels, so the second
/// swap succeeds too, and it undoes the first.
pub proof fn swap_twice_is_identity(t: TreeModel, i: Node, j: Node)
    requires
        t.is_tree(),
        t.nodes.contains(i),
        t.nodes.contains(j),
    ensures
        t.swapped(i, j).is_tree(),
        t.swapped(i, j).nodes.contains(i),
        t.swapped(i, j).nodes.contains(j),
        t.swapped(i, j).swapped(i, j) == t,
{
    lemma_swapped_is_tree(t, i, j);
    lemma_swapped_twice(t, i, j);
}

/// In every tree the subtree of the root is the whole tree, so its size is
/// the number of nodes.
pub proof fn root_subtree_is_whole_tree(t: TreeModel)
    requires
        t.is_tree(),
    ensures
        t.subtree(t.root) == t.nodes,
        t.subtree(t.root).len() == t.nodes.len(),
{
    lemma_subtree_of_root(t);
}

/// Every tree passes the validator's checks; since every operation that
/// succeeds keeps a tree a tree, validation holds after any sequence of them.
pub proof fn trees_pass_validation(t: TreeModel)
    requires
        t.is_tree(),
    ensures
        t.passes_checks(),
{
    lemma_tree_passes_checks(t);
}

} // verus!
