use smcite::parts::TreeParts;
use smcite::{create_star_tree, Tree};

fn sample() -> Tree {
    let mut tree = create_star_tree(0, &[30, 10, 20]).unwrap();
    tree.add_node(10, 12).unwrap();
    tree.add_node(10, 11).unwrap();
    tree
}

#[test]
fn parts_are_ordered() {
    let parts = sample().to_parts();
    assert_eq!(parts.root, 0);
    assert_eq!(parts.nodes, vec![0, 10, 11, 12, 20, 30]);
    assert_eq!(parts.children, vec![(0, vec![10, 20, 30]), (10, vec![11, 12])]);
    assert_eq!(parts.parents, vec![(10, 0), (11, 10), (12, 10), (20, 0), (30, 0)]);
}

#[test]
fn parts_round_trip() {
    let tree = sample();
    let back = Tree::from_parts(&tree.to_parts());
    assert_eq!(back, tree);
    assert!(back.is_valid());
}

#[test]
fn corrupted_parts_fail_validation() {
    // The child 2 claims a parent other than the one that lists it.
    let parts = TreeParts {
        root: 0,
        nodes: vec![0, 1, 2],
        children: vec![(0, vec![1]), (1, vec![2])],
        parents: vec![(1, 0), (2, 0)],
    };
    assert!(!Tree::from_parts(&parts).is_valid());

    // A node other than the root without a parent.
    let orphan = TreeParts { root: 0, nodes: vec![0, 1], children: vec![], parents: vec![] };
    assert!(!Tree::from_parts(&orphan).is_valid());

    // A node that is its own parent.
    let own = TreeParts {
        root: 0,
        nodes: vec![0, 1],
        children: vec![(1, vec![1])],
        parents: vec![(1, 1)],
    };
    assert!(!Tree::from_parts(&own).is_valid());
}
