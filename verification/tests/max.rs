use ds_rs::binary_tree::{BinaryTree, Node};

#[test]
fn binary_tree_empty_tree_returns_none() {
    let tree: BinaryTree<i32> = BinaryTree {
        root: None,
        count: 0,
    };

    assert_eq!(tree.max(), None);
}

#[test]
fn binary_tree_tree_with_only_root_returns_root() {
    let tree = BinaryTree {
        root: Some(Box::new(Node {
            value: 5,
            left: None,
            right: None,
        })),
        count: 0,
    };

    assert_eq!(tree.max(), Some(&5));
}

#[test]
fn tree_with_root_and_right_child_returns_right() {
    let tree = BinaryTree {
        root: Some(Box::new(Node {
            value: 5,
            left: None,
            right: Some(Box::new(Node {
                value: 6,
                left: None,
                right: None,
            })),
        })),
        count: 0,
    };

    assert_eq!(tree.max(), Some(&6));
}

#[test]
fn tree_with_root_and_left_child_returns_root() {
    let tree = BinaryTree {
        root: Some(Box::new(Node {
            value: 5,
            left: Some(Box::new(Node {
                value: 4,
                left: None,
                right: None,
            })),
            right: None,
        })),
        count: 0,
    };

    assert_eq!(tree.max(), Some(&5));
}

#[test]
fn tree_with_root_and_both_childen_returns_right() {
    let tree = BinaryTree {
        root: Some(Box::new(Node {
            value: 5,
            left: Some(Box::new(Node {
                value: 4,
                left: None,
                right: None,
            })),
            right: Some(Box::new(Node {
                value: 6,
                left: None,
                right: None,
            })),
        })),
        count: 0,
    };

    assert_eq!(tree.max(), Some(&6));
}

#[test]
fn tree_with_root_and_multiple_right_returns_right_most_child() {
    let tree = BinaryTree {
        root: Some(Box::new(Node {
            value: 5,
            left: None,
            right: Some(Box::new(Node {
                value: 6,
                left: None,
                right: Some(Box::new(Node {
                    value: 7,
                    left: None,
                    right: Some(Box::new(Node {
                        value: 8,
                        left: None,
                        right: None,
                    })),
                })),
            })),
        })),
        count: 0,
    };

    assert_eq!(tree.max(), Some(&8));
}

#[test]
fn tree_with_root_and_multiple_left_returns_root() {
    let tree = BinaryTree {
        root: Some(Box::new(Node {
            value: 5,
            left: Some(Box::new(Node {
                value: 4,
                left: Some(Box::new(Node {
                    value: 3,
                    left: Some(Box::new(Node {
                        value: 2,
                        left: None,
                        right: None,
                    })),
                    right: None,
                })),
                right: None,
            })),
            right: None,
        })),
        count: 0,
    };

    assert_eq!(tree.max(), Some(&5));
}

#[test]
fn balanced_tree_returns_right_most_child() {
    let tree = BinaryTree {
        root: Some(Box::new(Node {
            value: 50,
            left: Some(Box::new(Node {
                value: 25,
                left: Some(Box::new(Node {
                    value: 13,
                    left: None,
                    right: None,
                })),
                right: Some(Box::new(Node {
                    value: 37,
                    left: None,
                    right: None,
                })),
            })),
            right: Some(Box::new(Node {
                value: 75,
                left: Some(Box::new(Node {
                    value: 63,
                    left: None,
                    right: None,
                })),
                right: Some(Box::new(Node {
                    value: 87,
                    left: None,
                    right: None,
                })),
            })),
        })),
        count: 7,
    };

    assert_eq!(tree.max(), Some(&87));
}
