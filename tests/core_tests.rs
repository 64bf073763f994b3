use smcite::{Tree, TreeError};

/// 0–1–2–3
/// └─10–11
fn simple_tree() -> Tree {
    let mut tree = Tree::new(0);

    tree.add_node(0, 1).unwrap();
    tree.add_node(1, 2).unwrap();
    tree.add_node(2, 3).unwrap();

    tree.add_node(0, 10).unwrap();
    tree.add_node(10, 11).unwrap();
    tree
}

#[test]
fn test_get_root() {
    let tree = simple_tree();
    assert_eq!(tree.get_root(), 0);
}

#[test]
fn test_prune_1() {
    let mut tree = Tree::new(0);

    tree.add_node(0, 10).unwrap();
    tree.add_node(10, 11).unwrap();
    tree.add_node(10, 1).unwrap();
    tree.add_node(1, 2).unwrap();
    tree.add_node(2, 3).unwrap();

    let mut new_tree = simple_tree();
    new_tree.prune_and_reattach(1, 10).unwrap();

    assert_eq!(tree, new_tree);
}

#[test]
fn test_prune_3() {
    let mut tree = Tree::new(0);

    tree.add_node(0, 10).unwrap();
    tree.add_node(10, 11).unwrap();
    tree.add_node(0, 1).unwrap();
    tree.add_node(1, 2).unwrap();
    tree.add_node(10, 3).unwrap();

    let mut new_tree = simple_tree();
    new_tree.prune_and_reattach(3, 10).unwrap();

    assert_eq!(tree, new_tree);
}

#[test]
fn swap_10_11() {
    let mut tree = Tree::new(0);

    tree.add_node(0, 1).unwrap();
    tree.add_node(1, 2).unwrap();
    tree.add_node(2, 3).unwrap();

    tree.add_node(0, 11).unwrap();
    tree.add_node(11, 10).unwrap();

    let mut new_tree = simple_tree();
    new_tree.swap_labels(10, 11).unwrap();
    assert_eq!(tree, new_tree);
}

#[test]
fn swap_1_10() {
    let mut tree = Tree::new(0);

    tree.add_node(0, 10).unwrap();
    tree.add_node(10, 2).unwrap();
    tree.add_node(2, 3).unwrap();

    tree.add_node(0, 1).unwrap();
    tree.add_node(1, 11).unwrap();

    let mut new_tree = simple_tree();
    new_tree.swap_labels(1, 10).unwrap();
    assert_eq!(tree, new_tree);
}

#[test]
fn swap_1_2() {
    let mut tree = Tree::new(0);

    tree.add_node(0, 2).unwrap();
    tree.add_node(2, 1).unwrap();
    tree.add_node(1, 3).unwrap();

    tree.add_node(0, 10).unwrap();
    tree.add_node(10, 11).unwrap();

    let mut new_tree = simple_tree();
    new_tree.swap_labels(1, 2).unwrap();
    assert_eq!(tree, new_tree);
}

#[test]
fn swap_0_1() {
    let mut tree = Tree::new(1);

    tree.add_node(1, 0).unwrap();
    tree.add_node(0, 2).unwrap();
    tree.add_node(2, 3).unwrap();

    tree.add_node(1, 10).unwrap();
    tree.add_node(10, 11).unwrap();

    let mut new_tree = simple_tree();
    new_tree.swap_labels(0, 1).unwrap();
    assert_eq!(tree, new_tree);
}

#[test]
fn swap_0_2() {
    let mut tree = Tree::new(2);

    tree.add_node(2, 1).unwrap();
    tree.add_node(1, 0).unwrap();
    tree.add_node(0, 3).unwrap();

    tree.add_node(2, 10).unwrap();
    tree.add_node(10, 11).unwrap();

    let mut new_tree = simple_tree();
    new_tree.swap_labels(0, 2).unwrap();
    assert_eq!(tree, new_tree);
}

#[test]
fn swap_1_3() {
    let mut tree = Tree::new(0);

    tree.add_node(0, 3).unwrap();
    tree.add_node(3, 2).unwrap();
    tree.add_node(2, 1).unwrap();

    tree.add_node(0, 10).unwrap();
    tree.add_node(10, 11).unwrap();

    let mut new_tree = simple_tree();
    new_tree.swap_labels(1, 3).unwrap();

    assert_eq!(tree, new_tree);
}

#[test]
fn swap_1_3_moves_labels_along_the_chain() {
    let mut tree = simple_tree();
    tree.swap_labels(1, 3).unwrap();
    assert_eq!(tree.get_root(), 0);
    assert_eq!(tree.get_parent(3), Some(0));
    assert_eq!(tree.get_parent(2), Some(3));
    assert_eq!(tree.get_parent(1), Some(2));
    assert_eq!(tree.get_parent(10), Some(0));
    assert_eq!(tree.get_parent(11), Some(10));
    assert!(tree.is_valid());
}

#[test]
fn swap_with_root_makes_a_new_root() {
    let mut tree = simple_tree();
    tree.swap_labels(0, 1).unwrap();
    assert_eq!(tree.get_root(), 1);
    assert_eq!(tree.get_parent(1), None);
    assert!(tree.is_child(0, 1));
    assert!(tree.is_parent(0, 2));
    assert!(tree.is_child(10, 1));
    assert!(tree.is_valid());
}

#[test]
fn swap_twice_restores_the_tree() {
    let pairs = [(1, 3), (0, 1), (1, 2), (10, 11), (0, 11), (2, 10), (3, 11)];
    for (i, j) in pairs {
        let mut tree = simple_tree();
        tree.swap_labels(i, j).unwrap();
        tree.swap_labels(i, j).unwrap();
        assert_eq!(tree, simple_tree());
    }
}

#[test]
fn swap_same_label_changes_nothing() {
    let mut tree = simple_tree();
    assert!(tree.swap_labels(2, 2).is_ok());
    assert_eq!(tree, simple_tree());
}

#[test]
fn swap_absent_label_fails() {
    let mut tree = simple_tree();
    assert_eq!(tree.swap_labels(2, 99), Err(TreeError::NodeNotFound));
    assert_eq!(tree.swap_labels(99, 2), Err(TreeError::NodeNotFound));
    assert_eq!(tree, simple_tree());
}

#[test]
fn add_node_errors() {
    let mut tree = simple_tree();
    assert_eq!(tree.add_node(42, 43), Err(TreeError::NodeNotFound));
    assert_eq!(tree.add_node(0, 3), Err(TreeError::NodeAlreadyExists));
    assert_eq!(tree.add_node(0, 0), Err(TreeError::NodeAlreadyExists));
    assert_eq!(tree, simple_tree());
    assert_eq!(tree.len(), 6);
}

#[test]
fn new_tree_has_one_node() {
    let tree = Tree::new(7);
    assert_eq!(tree.len(), 1);
    assert!(tree.contains(7));
    assert!(!tree.contains(0));
    assert_eq!(tree.get_parent(7), None);
    assert_eq!(tree.subtree_size(7).unwrap(), 1);
    assert_eq!(tree.calculate_height(), 1);
    assert!(tree.is_valid());
}

#[test]
fn subtree_sizes() {
    let tree = simple_tree();
    assert_eq!(tree.subtree_size(0).unwrap(), 6);
    assert_eq!(tree.subtree_size(1).unwrap(), 3);
    assert_eq!(tree.subtree_size(3).unwrap(), 1);
    assert_eq!(tree.subtree_size(10).unwrap(), 2);
    assert_eq!(tree.subtree_size(5), Err(TreeError::NodeNotFound));
}

#[test]
fn root_subtree_counts_every_node_after_mutations() {
    let mut tree = simple_tree();
    tree.swap_labels(1, 11).unwrap();
    tree.prune_and_reattach(2, 10).unwrap();
    tree.add_node(3, 4).unwrap();
    tree.swap_labels(0, 4).unwrap();
    tree.prune_and_reattach(11, 0).unwrap();
    assert_eq!(tree.subtree_size(tree.get_root()).unwrap(), tree.len());
    assert_eq!(tree.len(), 7);
    assert!(tree.is_valid());
}

#[test]
fn heights() {
    let tree = simple_tree();
    assert_eq!(tree.calculate_height(), 4);
    assert_eq!(tree.calculate_height_from_node(1), 3);
    assert_eq!(tree.calculate_height_from_node(10), 2);
    assert_eq!(tree.calculate_height_from_node(11), 1);
    assert_eq!(tree.calculate_height_from_node(99), 1);
}

#[test]
fn descendants() {
    let tree = simple_tree();
    let d = tree.get_descendants(1);
    assert_eq!(d.len(), 2);
    assert!(d.contains(&2) && d.contains(&3));
    assert_eq!(tree.get_descendants(0).len(), 5);
    assert!(tree.get_descendants(3).is_empty());
    assert!(tree.get_descendants(99).is_empty());
}

#[test]
fn relations() {
    let tree = simple_tree();
    assert_eq!(tree.get_parent(2), Some(1));
    assert_eq!(tree.get_parent(0), None);
    assert_eq!(tree.get_parent(99), None);
    assert!(tree.is_child(2, 1));
    assert!(!tree.is_child(1, 2));
    assert!(tree.is_parent(1, 2));
    assert!(!tree.is_parent(0, 2));
    assert_eq!(tree.children_sorted(0), vec![1, 10]);
    assert_eq!(tree.children_sorted(3), Vec::<u32>::new());
}

#[test]
fn prune_into_own_subtree_fails_and_changes_nothing() {
    let mut tree = simple_tree();
    assert_eq!(tree.prune_and_reattach(1, 3), Err(TreeError::TopologyError));
    assert_eq!(tree.prune_and_reattach(1, 2), Err(TreeError::TopologyError));
    assert_eq!(tree.prune_and_reattach(0, 11), Err(TreeError::TopologyError));
    assert_eq!(tree, simple_tree());
}

#[test]
fn prune_other_errors() {
    let mut tree = simple_tree();
    assert_eq!(tree.prune_and_reattach(1, 99), Err(TreeError::NodeNotFound));
    assert_eq!(tree.prune_and_reattach(99, 1), Err(TreeError::NodeNotFound));
    assert_eq!(tree.prune_and_reattach(2, 2), Err(TreeError::NodeAlreadyExists));
    assert_eq!(tree, simple_tree());
}

#[test]
fn prune_last_child_drops_the_empty_set() {
    let mut tree = simple_tree();
    tree.prune_and_reattach(11, 3).unwrap();
    let mut expected = Tree::new(0);
    expected.add_node(0, 1).unwrap();
    expected.add_node(1, 2).unwrap();
    expected.add_node(2, 3).unwrap();
    expected.add_node(0, 10).unwrap();
    expected.add_node(3, 11).unwrap();
    assert_eq!(tree, expected);
    assert!(tree.is_valid());
}

#[test]
fn valid_after_operations() {
    let mut tree = Tree::new(5);
    assert!(tree.is_valid());
    tree.add_node(5, 6).unwrap();
    tree.add_node(6, 7).unwrap();
    assert!(tree.is_valid());
    tree.swap_labels(5, 7).unwrap();
    assert!(tree.is_valid());
    tree.add_node(6, 8).unwrap();
    tree.prune_and_reattach(8, 5).unwrap();
    assert!(tree.is_valid());
}
