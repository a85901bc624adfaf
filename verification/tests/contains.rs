use ds_rs::binary_tree::{BinaryTree, Node};

#[test]
fn empty_tree_returns_false() {
    let tree: BinaryTree<i32> = BinaryTree {
        root: None,
        count: 0,
    };

    assert!(!tree.contains(&0));
}

#[test]
fn root_is_target_returns_true() {
    let tree = BinaryTree {
        root: Some(Box::new(Node {
            value: 0,
            left: None,
            right: None,
        })),
        count: 0,
    };

    assert!(tree.contains(&0));
}

#[test]
fn root_is_not_target_returns_false() {
    let tree = BinaryTree {
        root: Some(Box::new(Node {
            value: 0,
            left: None,
            right: None,
        })),
        count: 0,
    };

    assert!(!tree.contains(&1));
}

#[test]
fn left_most_is_target_returns_true() {
    let tree = BinaryTree {
        root: Some(Box::new(Node {
            value: 5,
            left: Some(Box::new(Node {
                value: 4,
                left: Some(Box::new(Node {
                    value: 3,
                    left: Some(Box::new(Node {
                        value: 2,
                        left: None,
                        right: None,
                    })),
                    right: None,
                })),
                right: None,
            })),
            right: None,
        })),
        count: 0,
    };

    assert!(tree.contains(&2));
}

#[test]
fn right_most_is_target_returns_true() {
    let tree = BinaryTree {
        root: Some(Box::new(Node {
            value: 5,
            left: None,
            right: Some(Box::new(Node {
                value: 6,
                left: None,
                right: Some(Box::new(Node {
                    value: 7,
                    left: None,
                    right: Some(Box::new(Node {
                        value: 8,
                        left: None,
                        right: None,
                    })),
                })),
            })),
        })),
        count: 0,
    };

    assert!(tree.contains(&8));
}
