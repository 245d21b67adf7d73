use qumulus::delegate::{check_node, delegate};
use qumulus::node::{backport, Node, Update, Vis};
use qumulus::value::Leaf;

fn s(x: &str) -> String {
    x.to_string()
}

fn leaf(value: Leaf, updated: u64) -> Node {
    Node { vis: Vis::new(updated, 0), value: value, keys: None, delegated: 0 }
}

fn branch(keys: Vec<(&str, Node)>) -> Node {
    Node {
        vis: Vis::new(1, 0),
        value: Leaf::Null,
        keys: Some(keys.into_iter().map(|(k, v)| (s(k), v)).collect()),
        delegated: 0,
    }
}

fn text(n: usize) -> Leaf {
    Leaf::String("x".repeat(n))
}

#[test]
fn small_tree_is_not_split() {
    let root = branch(vec![("a", leaf(Leaf::U64(1), 1)), ("b", leaf(Leaf::Bool(true), 1))]);
    // 24 for the root, 24 + 8 + 1 for "a", 24 + 1 + 1 for "b"
    assert_eq!(check_node(&root, 7), (83, None));
}

#[test]
fn largest_children_are_split_off() {
    let root = branch(vec![
        ("a", leaf(text(30000), 1)),
        ("b", leaf(text(30000), 1)),
        ("c", leaf(text(30000), 1)),
    ]);
    let (size, delegations) = check_node(&root, 8);
    // 24 + 3 * 30025 is over 65535; splitting off "c" (as large, later key) suffices
    assert_eq!(size, 24 + 2 * 30025);
    let expected = Node {
        vis: Vis::new(0, 0),
        value: Leaf::Null,
        keys: Some(vec![(s("c"), Node::delegate(8))]),
        delegated: 0,
    };
    assert_eq!(delegations, Some(expected));
    assert_eq!(Node::delegate(8).delegated, 9);

    let found = delegate(&root).unwrap();
    let keys = found.keys.unwrap();
    assert_eq!(keys.len(), 1);
    assert_eq!(keys[0].0, "c");
    assert_eq!(keys[0].1.delegated % 2, 1);
}

#[test]
fn node_with_large_value_is_not_searched() {
    let root = Node {
        vis: Vis::new(1, 0),
        value: text(40000),
        keys: Some(vec![(s("a"), leaf(text(50000), 1)), (s("b"), leaf(text(50000), 1))]),
        delegated: 0,
    };
    assert_eq!(check_node(&root, 3), (40024, None));
}

#[test]
fn nested_delegations_are_collected() {
    let inner = branch(vec![
        ("x", leaf(text(30000), 1)),
        ("y", leaf(text(30000), 1)),
        ("z", leaf(text(30000), 1)),
    ]);
    let root = branch(vec![("in", inner), ("small", leaf(Leaf::U64(1), 1))]);
    let (size, delegations) = check_node(&root, 4);
    assert_eq!(size, 24 + (24 + 2 * 30025 + 2) + (24 + 8 + 5));
    let expected = Node {
        vis: Vis::new(0, 0),
        value: Leaf::Null,
        keys: Some(vec![(
            s("in"),
            Node {
                vis: Vis::new(0, 0),
                value: Leaf::Null,
                keys: Some(vec![(s("z"), Node::delegate(4))]),
                delegated: 0,
            },
        )]),
        delegated: 0,
    };
    assert_eq!(delegations, Some(expected));
}

#[test]
fn copy_is_equal() {
    let root = branch(vec![("a", leaf(Leaf::U64(1), 1)), ("b", branch(vec![("c", leaf(text(3), 2))]))]);
    assert_eq!(root.copy(), root);
}

#[test]
fn backport_tells_what_the_zone_holds() {
    let tree = leaf(Leaf::U64(42), 1000);
    let diff = Node::default();
    let update = backport(&tree, Vis::new(u64::MAX, 0), &diff);
    assert_eq!(
        update,
        Some(Update { visible: Some(true), old: None, new: Some(Leaf::U64(42)), keys: None })
    );
    assert_eq!(tree, leaf(Leaf::U64(42), 1000));
    assert_eq!(diff, Node::default());
}

#[test]
fn keys_count_their_utf8_bytes() {
    let root = branch(vec![("é", leaf(Leaf::U64(1), 1))]);
    // 24 for the root, 24 + 8 for the child, 2 bytes for its key
    assert_eq!(check_node(&root, 1), (58, None));
    let root = branch(vec![("a", leaf(Leaf::String("é".to_string()), 1))]);
    assert_eq!(check_node(&root, 1), (24 + 24 + 2 + 1, None));
}
