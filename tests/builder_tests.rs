use smcite::{create_chain_tree, create_star_tree, Tree, TreeError};

#[test]
fn star_4_nodes() {
    let root = 15;
    let tree = create_star_tree(root, &[3, 5, 8]).unwrap();
    let mut new_tree = Tree::new(root);
    new_tree.add_node(root, 3).unwrap();
    new_tree.add_node(root, 5).unwrap();
    new_tree.add_node(root, 8).unwrap();
    assert_eq!(tree, new_tree);
}

#[test]
fn chain_3_nodes() {
    let tree = create_chain_tree(&[3, 5, 8]).unwrap();
    let mut new_tree = Tree::new(3);
    new_tree.add_node(3, 5).unwrap();
    new_tree.add_node(5, 8).unwrap();
    assert_eq!(tree, new_tree);
}

#[test]
fn star_subtree_sizes() {
    let tree = create_star_tree(0, &[10, 14, 20]).unwrap();
    assert_eq!(tree.subtree_size(0).unwrap(), 4);
    assert_eq!(tree.subtree_size(14).unwrap(), 1);
    assert_eq!(tree.calculate_height(), 2);
}

#[test]
fn star_without_leaves() {
    let tree = create_star_tree(4, &[]).unwrap();
    assert_eq!(tree, Tree::new(4));
}

#[test]
fn star_with_repeated_label_fails() {
    assert_eq!(create_star_tree(0, &[1, 2, 1]).err(), Some(TreeError::NodeAlreadyExists));
    assert_eq!(create_star_tree(0, &[1, 0]).err(), Some(TreeError::NodeAlreadyExists));
}

#[test]
fn chain_shape() {
    let tree = create_chain_tree(&[0, 1, 2, 3]).unwrap();
    assert_eq!(tree.get_root(), 0);
    assert_eq!(tree.get_parent(3), Some(2));
    assert_eq!(tree.calculate_height(), 4);
    assert_eq!(tree.subtree_size(1).unwrap(), 3);
    assert_eq!(create_chain_tree(&[9]).unwrap(), Tree::new(9));
}

#[test]
fn chain_with_repeated_label_fails() {
    assert_eq!(create_chain_tree(&[1, 2, 1]).err(), Some(TreeError::NodeAlreadyExists));
}
