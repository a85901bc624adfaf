use ds_rs::binary_tree::Node;

#[test]
fn gets_the_value() {
    let node = Node {
        value: 5,
        left: None,
        right: None,
    };
    assert_eq!(node.value(), &5);
}

#[test]
fn gets_left_child_that_is_none() {
    let node = Node {
        value: 0,
        left: None,
        right: None,
    };
    let expected = None;

    assert_eq!(node.left(), expected);
}

#[test]
fn gets_left_child_that_is_some() {
    let node = Node {
        value: 0,
        left: Some(Box::new(Node {
            value: 5,
            left: None,
            right: None,
        })),
        right: None,
    };
    let expected = Some(&Node {
        value: 5,
        left: None,
        right: None,
    });

    assert_eq!(node.left(), expected);
}

#[test]
fn gets_right_child_that_is_none() {
    let node = Node {
        value: 0,
        left: None,
        right: None,
    };
    let expected = None;

    assert_eq!(node.right(), expected);
}

#[test]
fn gets_right_child_that_is_some() {
    let node = Node {
        value: 0,
        left: None,
        right: Some(Box::new(Node {
            value: 5,
            left: None,
            right: None,
        })),
    };
    let expected = Some(&Node {
        value: 5,
        left: None,
        right: None,
    });

    assert_eq!(node.right(), expected);
}

#[test]
fn gets_mut_left_child_that_is_none() {
    let mut node = Node {
        value: 0,
        left: None,
        right: None,
    };
    let expected = None;

    assert_eq!(node.left_mut(), expected);
}

#[test]
fn gets_mut_left_child_that_is_some() {
    let mut node = Node {
        value: 0,
        left: Some(Box::new(Node {
            value: -1,
            left: None,
            right: None,
        })),
        right: None,
    };
    let mut expected = Node {
        value: -1,
        left: None,
        right: None,
    };

    assert_eq!(node.left_mut(), Some(&mut expected));
}

#[test]
fn gets_mut_right_child_that_is_none() {
    let mut node = Node {
        value: 0,
        left: None,
        right: None,
    };
    let expected = None;

    assert_eq!(node.right_mut(), expected);
}

#[test]
fn gets_mut_right_child_that_is_some() {
    let mut node = Node {
        value: 0,
        left: None,
        right: Some(Box::new(Node {
            value: 1,
            left: None,
            right: None,
        })),
    };
    let mut expected = Node {
        value: 1,
        left: None,
        right: None,
    };

    assert_eq!(node.right_mut(), Some(&mut expected));
}

#[test]
fn sets_left() {
    let mut node = Node {
        value: 0,
        left: None,
        right: None,
    };
    let expected = Node {
        value: 0,
        left: Some(Box::new(Node {
            value: -1,
            left: None,
            right: None,
        })),
        right: None,
    };

    node.set_left(-1);
    assert_eq!(node, expected);
}

#[test]
fn sets_right() {
    let mut node = Node {
        value: 0,
        left: None,
        right: None,
    };
    let expected = Node {
        value: 0,
        left: None,
        right: Some(Box::new(Node {
            value: 1,
            left: None,
            right: None,
        })),
    };

    node.set_right(1);
    assert_eq!(node, expected);
}
