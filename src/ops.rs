//! Builders for two common shapes: a star and a chain.
use vstd::prelude::*;

use crate::model::{Node, TreeModel};
use crate::tree::{Tree, TreeError};

verus! {

/// The labels of a builder, with `root` among them when given, are pairwise
/// distinct.
pub open spec fn star_labels_distinct(root: Node, labels: Seq<Node>) -> bool {
    !labels.contains(root) && labels.no_duplicates()
}

/// `root` with each of `labels` as a direct child.
pub open spec fn star_model(root: Node, labels: Seq<Node>) -> TreeModel {
    TreeModel {
        root,
        nodes: labels.to_set().insert(root),
        children: if labels.len() == 0 {
            Map::empty()
        } else {
            Map::empty().insert(root, labels.to_set())
        },
        parents: Map::new(|c: Node| labels.contains(c), |c: Node| root),
    }
}

/// `m` is the path through `labels` in order, starting at the root.
pub open spec fn is_chain_of(m: TreeModel, labels: Seq<Node>) -> bool {
    &&& labels.len() >= 1
    &&& m.root == labels[0]
    &&& m.nodes == labels.to_set()
    &&& m.parents.dom() == labels.drop_first().to_set()
    &&& forall|i: int| 1 <= i < labels.len() ==> #[trigger] m.parents[labels[i]] == labels[i - 1]
    &&& m.children.dom() == labels.drop_last().to_set()
    &&& forall|i: int|
        0 <= i < labels.len() - 1 ==> #[trigger] m.children[labels[i]] == set![labels[i + 1]]
}

/// Builds the tree with `root` and each of `labels` as a direct child of it.
///
/// Fails with `NodeAlreadyExists` when a label repeats or equals `root`.
pub fn create_star_tree(root: Node, labels: &[Node]) -> (r: Result<Tree, TreeError>)
    ensures
        star_labels_distinct(root, labels@) <==> r is Ok,
        r matches Ok(t) ==> t@ == star_model(root, labels@) && t.wf(),
        r matches Err(e) ==> e == TreeError::NodeAlreadyExists,
{
    let mut tree = Tree::new(root);
    proof {
        assert(labels@.take(0) =~= Seq::<Node>::empty());
        assert(tree@.parents =~= star_model(root, labels@.take(0)).parents);
        assert(tree@.nodes =~= star_model(root, labels@.take(0)).nodes);
    }
    for idx in 0..labels.len()
        invariant
            tree.wf(),
            tree@ == star_model(root, labels@.take(idx as int)),
            star_labels_distinct(root, labels@.take(idx as int)),
    {
        let node = labels[idx];
        let ghost before = labels@.take(idx as int);
        proof {
            assert(labels@.take(idx + 1) =~= before.push(node));
            before.lemma_push_to_set_commute(node);
        }
        match tree.add_node(root, node) {
            Ok(()) => {},
            Err(e) => {
                proof {
                    if node == root {
                        assert(labels@[idx as int] == root);
                    } else {
                        let j = choose|j: int| 0 <= j < before.len() && before[j] == node;
                        assert(labels@[j] == labels@[idx as int]);
                    }
                }
                return Err(e);
            },
        }
        proof {
            let now = labels@.take(idx + 1);
            if before.len() == 0 {
                assert(before.to_set() =~= Set::<Node>::empty());
            }
            assert(tree@.children[root] =~= now.to_set());
            assert(tree@.parents =~= star_model(root, now).parents);
            assert(tree@.children =~= star_model(root, now).children);
            assert(tree@.nodes =~= star_model(root, now).nodes);
            assert(star_labels_distinct(root, now));
        }
    }
    proof {
        assert(labels@.take(labels@.len() as int) =~= labels@);
    }
    Ok(tree)
}

/// Builds the path that runs through `labels` in order, rooted at the first.
///
/// Fails with `NodeAlreadyExists` when a label repeats. `labels` must not be
/// empty.
pub fn create_chain_tree(labels: &[Node]) -> (r: Result<Tree, TreeError>)
    requires
        labels@.len() >= 1,
    ensures
        labels@.no_duplicates() <==> r is Ok,
        r matches Ok(t) ==> is_chain_of(t@, labels@) && t.wf(),
        r matches Err(e) ==> e == TreeError::NodeAlreadyExists,
{
    let root = labels[0];
    let mut tree = Tree::new(root);
    let mut current = root;
    proof {
        let first = labels@.take(1);
        assert(first =~= Seq::<Node>::empty().push(root));
        Seq::<Node>::empty().lemma_push_to_set_commute(root);
        assert(Seq::<Node>::empty().to_set() =~= Set::<Node>::empty());
        assert(first.to_set() =~= set![root]);
        assert(first.drop_first().to_set() =~= Set::<Node>::empty());
        assert(first.drop_last().to_set() =~= Set::<Node>::empty());
        assert(tree@.parents.dom() =~= Set::<Node>::empty());
        assert(tree@.children.dom() =~= Set::<Node>::empty());
    }
    for idx in 1..labels.len()
        invariant
            1 <= labels@.len(),
            tree.wf(),
            is_chain_of(tree@, labels@.take(idx as int)),
            labels@.take(idx as int).no_duplicates(),
            current == labels@[idx - 1],
    {
        let node = labels[idx];
        let ghost before = labels@.take(idx as int);
        let ghost now = labels@.take(idx + 1);
        proof {
            assert(now =~= before.push(node));
            before.lemma_push_to_set_commute(node);
            assert(now.drop_first() =~= before.drop_first().push(node));
            before.drop_first().lemma_push_to_set_commute(node);
            assert(now.drop_last() =~= before);
            assert(before =~= before.drop_last().push(current));
            before.drop_last().lemma_push_to_set_commute(current);
        }
        match tree.add_node(current, node) {
            Ok(()) => {},
            Err(e) => {
                proof {
                    let j = choose|j: int| 0 <= j < before.len() && before[j] == node;
                    assert(labels@[j] == labels@[idx as int]);
                }
                return Err(e);
            },
        }
        proof {
            let m = tree@;
            assert(!before.drop_last().to_set().contains(current)) by {
                if before.drop_last().to_set().contains(current) {
                    let j = choose|j: int| 0 <= j < before.len() - 1 && before.drop_last()[j] == current;
                    assert(before[j] == before[idx - 1]);
                }
            }
            assert(m.nodes =~= now.to_set());
            assert(m.parents.dom() =~= now.drop_first().to_set());
            assert(m.children.dom() =~= now.drop_last().to_set());
            assert forall|i: int| 1 <= i < now.len() implies #[trigger] m.parents[now[i]] == now[i - 1] by {
                if i < idx {
                    assert(before[i] == now[i]);
                    assert(before.to_set().contains(before[i]));
                }
            }
            assert forall|i: int| 0 <= i < now.len() - 1 implies #[trigger] m.children[now[i]] == set![
                now[i + 1],
            ] by {
                if i < idx - 1 {
                    assert(before[i] != before[idx - 1]);
                    assert(before[i] == now[i]);
                } else {
                    assert(m.children[now[i]] =~= set![now[i + 1]]);
                }
            }
            assert(now.no_duplicates()) by {
                assert forall|a: int, b: int| 0 <= a < now.len() && 0 <= b < now.len() && a != b implies now[a] != now[b] by {
                    if a == idx {
                        assert(before.to_set().contains(now[b]));
                    } else if b == idx {
                        assert(before.to_set().contains(now[a]));
                    }
                }
            }
        }
        current = node;
    }
    proof {
        assert(labels@.take(labels@.len() as int) =~= labels@);
    }
    Ok(tree)
}

} // verus!
