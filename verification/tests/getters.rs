use ds_rs::binary_tree::{BinaryTree, Node};

#[test]
fn count() {
    let tree: BinaryTree<()> = BinaryTree {
        root: None,
        count: 5,
    };
    let expected = 5;
    assert_eq!(tree.count(), expected);
}

#[test]
fn is_empty() {
    let tree = BinaryTree {
        root: Some(Box::new(Node {
            value: 5,
            left: None,
            right: None,
        })),
        count: 1,
    };
    let empty_tree: BinaryTree<()> = BinaryTree {
        root: None,
        count: 0,
    };

    assert!(!tree.is_empty());
    assert!(empty_tree.is_empty());
}

#[test]
fn clear() {
    let mut tree = BinaryTree {
        root: Some(Box::new(Node {
            value: 5,
            left: None,
            right: None,
        })),
        count: 1,
    };
    let expected: BinaryTree<i32> = BinaryTree {
        root: None,
        count: 0,
    };

    assert_ne!(tree, expected);

    tree.clear();

    assert_eq!(tree, expected);
}

#[test]
fn root() {
    let tree = BinaryTree {
        root: Some(Box::new(Node {
            value: 5,
            left: None,
            right: None,
        })),
        count: 1,
    };
    let empty_tree: BinaryTree<()> = BinaryTree {
        root: None,
        count: 0,
    };

    assert_eq!(tree.root(), Some(&5));
    assert_eq!(empty_tree.root(), None);
}
