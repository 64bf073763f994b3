use smcite::owned_tree::{new_chain_tree, new_star_tree, TreeNode};

#[test]
fn nested_tree_size() {
    let leaf1 = TreeNode::new("leaf1");
    let leaf2 = TreeNode::new("leaf2");
    let leaf3 = TreeNode::new("leaf3");
    let middle2 = TreeNode::new_with_children("middle2", vec![leaf2, leaf3]);
    let middle1 = TreeNode::new_with_children("middle1", vec![leaf1, middle2]);
    let root = TreeNode::new_with_children("root", vec![middle1]);
    assert_eq!(root.tree_size(), 6);
    assert_eq!(root.children[0].children[1].payload, "middle2");
}

#[test]
fn leaf_and_parent_sizes() {
    let temp = TreeNode::new("leaf");
    let root = TreeNode::new_with_children("root", vec![temp]);
    let leaf = &root.children[0];
    assert_eq!(root.tree_size(), 2);
    assert_eq!(leaf.tree_size(), 1);
}

#[test]
fn add_child_appends() {
    let mut root = TreeNode::new(1);
    root.add_child(TreeNode::new(2));
    root.add_child(TreeNode::new(3));
    assert_eq!(root.children.len(), 2);
    assert_eq!(root.children[1].payload, 3);
    assert_eq!(root.tree_size(), 3);
}

#[test]
fn owned_star() {
    let root = new_star_tree("root", vec!["A", "B", "C", "D", "E"]);
    assert_eq!(root.tree_size(), 6);
    assert_eq!(root.children[2].payload, "C");
    assert!(root.children.iter().all(|c| c.children.is_empty()));
}

#[test]
fn owned_chain() {
    let root = new_chain_tree(vec!["A", "B", "C"]);
    assert_eq!(root.tree_size(), 3);
    assert_eq!(root.payload, "A");
    assert_eq!(root.children[0].payload, "B");
    assert_eq!(root.children[0].children[0].payload, "C");
    assert!(root.children[0].children[0].children.is_empty());
}
