use qumulus::node::{Node, Update, Vis};
use qumulus::path::Path;
use qumulus::value::{Json, Leaf};

fn s(x: &str) -> String {
    x.to_string()
}

fn path(components: &[&str]) -> Path {
    Path::new(components.iter().map(|c| c.to_string()).collect())
}

fn object(members: Vec<(&str, Json)>) -> Json {
    Json::Object(members.into_iter().map(|(k, v)| (s(k), v)).collect())
}

fn leaf(value: Leaf, updated: u64, deleted: u64) -> Node {
    Node { vis: Vis::new(updated, deleted), value: value, keys: None, delegated: 0 }
}

fn branch(updated: u64, deleted: u64, keys: Vec<(&str, Node)>) -> Node {
    Node {
        vis: Vis::new(updated, deleted),
        value: Leaf::Null,
        keys: Some(keys.into_iter().map(|(k, v)| (s(k), v)).collect()),
        delegated: 0,
    }
}

fn shown(visible: Option<bool>, old: Option<Leaf>, new: Option<Leaf>, keys: Option<Vec<(&str, Update)>>) -> Update {
    Update {
        visible: visible,
        old: old,
        new: new,
        keys: keys.map(|ks| ks.into_iter().map(|(k, v)| (s(k), v)).collect()),
    }
}

/// Visibility of the root of the whole tree: never deleted.
fn permanent() -> Vis {
    Vis::new(u64::MAX, 0)
}

#[test]
fn test_expand() {
    let data = object(vec![("moo", Json::Scalar(Leaf::U64(42)))]);

    let node = Node::expand(&data, 1000);

    let expected = Node {
        vis: Vis::new(1000, 0),
        value: Leaf::Null,
        keys: Some(vec![(s("moo"), Node {
            vis: Vis::new(1000, 0),
            value: Leaf::U64(42),
            keys: None,
            delegated: 0,
        })]),
        delegated: 0,
    };

    assert_eq!(node, expected);
}

#[test]
fn test_merge() {
    // [ 3, "write", [], { "moo": { "cow": 42 } } ]
    let mut root = Node::default();
    let mut diff = Node::expand(&object(vec![("moo", object(vec![("cow", Json::Scalar(Leaf::U64(42)))]))]), 1000);
    let (update, externals) = root.merge(&mut diff, permanent(), permanent());
    assert!(externals.is_empty());
    assert_eq!(
        update,
        Some(shown(Some(true), None, Some(Leaf::Null), Some(vec![(
            "moo",
            shown(Some(true), None, Some(Leaf::Null), Some(vec![(
                "cow",
                shown(Some(true), None, Some(Leaf::U64(42)), None)
            )]))
        )])))
    );
    assert_eq!(
        root,
        branch(1000, 0, vec![("moo", branch(1000, 0, vec![("cow", leaf(Leaf::U64(42), 1000, 0))]))])
    );

    // [ 4, "read", ["moo", "cow"], {} ]
    let (update, _) = root.read(permanent(), &path(&["moo", "cow"]));
    assert_eq!(
        update,
        Some(shown(None, None, None, Some(vec![(
            "moo",
            shown(None, None, None, Some(vec![("cow", shown(Some(true), None, Some(Leaf::U64(42)), None))]))
        )])))
    );
    assert_eq!(
        update.unwrap().to_json(),
        Json::Array(vec![
            Json::Scalar(Leaf::Null),
            object(vec![(
                "moo",
                Json::Array(vec![
                    Json::Scalar(Leaf::Null),
                    object(vec![(
                        "cow",
                        Json::Array(vec![Json::Scalar(Leaf::U64(42)), Json::Scalar(Leaf::Null)])
                    )])
                ])
            )])
        ])
    );

    // [ 5, "read", ["moo", "moo"], {} ]
    let (update, _) = root.read(permanent(), &path(&["moo", "moo"]));
    assert_eq!(update, None);

    // overwriting a visible value reports the old and the new value
    let mut diff = Node::expand_from(&[s("moo"), s("cow")], &Json::Scalar(Leaf::U64(43)), 2000);
    let (update, _) = root.merge(&mut diff, permanent(), permanent());
    assert_eq!(
        update,
        Some(shown(None, None, None, Some(vec![(
            "moo",
            shown(None, None, None, Some(vec![("cow", shown(None, Some(Leaf::U64(42)), Some(Leaf::U64(43)), None))]))
        )])))
    );
    let (update, _) = root.read(permanent(), &path(&["moo", "cow"]));
    assert_eq!(
        update,
        Some(shown(None, None, None, Some(vec![(
            "moo",
            shown(None, None, None, Some(vec![("cow", shown(Some(true), None, Some(Leaf::U64(43)), None))]))
        )])))
    );

    // an outdated write is thrown away, and the diff keeps nothing of it
    let mut diff = Node::expand_from(&[s("moo"), s("cow")], &Json::Scalar(Leaf::U64(41)), 1500);
    let (update, _) = root.merge(&mut diff, permanent(), permanent());
    assert_eq!(update, None);
    assert_eq!(
        diff,
        branch(0, 0, vec![("moo", branch(0, 0, vec![("cow", leaf(Leaf::Null, 0, 0))]))])
    );

    // [ 10, "kill", ["moo"], null ]: deleting "moo" hides it and its children
    let mut diff = Node { keys: Some(vec![(s("moo"), Node::delete(3000))]), ..Node::default() };
    let (update, _) = root.merge(&mut diff, permanent(), permanent());
    assert_eq!(
        update,
        Some(shown(None, None, None, Some(vec![(
            "moo",
            shown(Some(false), Some(Leaf::Null), Some(Leaf::Null), Some(vec![(
                "cow",
                shown(Some(false), Some(Leaf::U64(43)), Some(Leaf::Null), None)
            )]))
        )])))
    );
    let (update, _) = root.read(permanent(), &path(&["moo", "cow"]));
    assert_eq!(update, None);
}

#[test]
fn merge_twice_changes_nothing() {
    let data = object(vec![
        ("a", Json::Array(vec![Json::Scalar(Leaf::Bool(true)), Json::Scalar(Leaf::String(s("x")))])),
        ("b", Json::Scalar(Leaf::I64(-3))),
    ]);
    let mut root = Node::default();
    let mut diff = Node::expand(&data, 10);
    let (first, _) = root.merge(&mut diff, permanent(), permanent());
    assert!(first.is_some());
    let mut again = Node::expand(&data, 10);
    let before = Node::expand(&data, 10);
    let mut snapshot = Node::default();
    let _ = snapshot.merge(&mut Node::expand(&data, 10), permanent(), permanent());
    let (second, _) = root.merge(&mut again, permanent(), permanent());
    assert_eq!(second, None);
    assert_eq!(root, snapshot);
    assert_eq!(before, Node::expand(&data, 10));
}

#[test]
fn expand_keys_arrays_by_decimal_index_in_key_order() {
    let items: Vec<Json> = (0..12).map(|i| Json::Scalar(Leaf::U64(i))).collect();
    let node = Node::expand(&Json::Array(items), 5);
    let keys: Vec<String> = node.keys.unwrap().into_iter().map(|(k, _)| k).collect();
    assert_eq!(keys, vec!["0", "1", "10", "11", "2", "3", "4", "5", "6", "7", "8", "9"]);
}

#[test]
fn expand_from_builds_path() {
    let node = Node::expand_from(&[s("a"), s("b")], &Json::Scalar(Leaf::U64(1)), 7);
    assert_eq!(node, branch(0, 0, vec![("a", branch(0, 0, vec![("b", leaf(Leaf::U64(1), 7, 0))]))]));
    let node = Node::expand_from(&[], &Json::Scalar(Leaf::U64(1)), 7);
    assert_eq!(node, leaf(Leaf::U64(1), 7, 0));
}

#[test]
fn read_wildcard_matches_all_children() {
    let root = branch(5, 0, vec![
        ("x", leaf(Leaf::U64(1), 5, 0)),
        ("y", leaf(Leaf::U64(2), 5, 9)),
        ("z", leaf(Leaf::U64(3), 6, 0)),
    ]);
    let (update, _) = root.read(permanent(), &path(&["*"]));
    assert_eq!(
        update,
        Some(shown(None, None, None, Some(vec![
            ("x", shown(Some(true), None, Some(Leaf::U64(1)), None)),
            ("z", shown(Some(true), None, Some(Leaf::U64(3)), None)),
        ])))
    );
    let (update, _) = root.read(permanent(), &path(&[]));
    assert_eq!(update, Some(shown(Some(true), None, Some(Leaf::Null), None)));
}

#[test]
fn vis_operations() {
    let mut v = Vis::new(5, 3);
    assert!(v.is_visible());
    v.merge(&Vis::new(2, 7));
    assert_eq!(v, Vis::new(5, 7));
    assert!(!v.is_visible());
    let mut w = Vis::new(9, 1);
    w.descend(&Vis::new(4, 2));
    assert_eq!(w, Vis::new(4, 2));
    assert!(Vis::new(0, 0).is_noop());
    assert!(!Vis::new(0, 1).is_noop());
}

#[test]
fn node_is_noop() {
    assert!(Node::default().is_noop());
    assert!(!Node::delete(1).is_noop());
    assert!(!leaf(Leaf::U64(0), 0, 0).is_noop());
}

#[test]
fn newer_delete_wins_over_older_update() {
    let mut node = leaf(Leaf::U64(1), 5, 0);
    let mut diff = Node::delete(7);
    let (update, _) = node.merge(&mut diff, permanent(), permanent());
    assert_eq!(node, leaf(Leaf::Null, 5, 7));
    assert_eq!(update, Some(shown(Some(false), Some(Leaf::U64(1)), Some(Leaf::Null), None)));
    // a later write uncloaks it
    let mut diff = leaf(Leaf::U64(2), 9, 0);
    let (update, _) = node.merge(&mut diff, permanent(), permanent());
    assert_eq!(node, leaf(Leaf::U64(2), 9, 7));
    assert_eq!(update, Some(shown(Some(true), None, Some(Leaf::U64(2)), None)));
}

#[test]
fn write_below_existing_parent_is_read_back() {
    let mut root = branch(1000, 0, vec![("moo", branch(1000, 0, vec![]))]);
    let mut diff = Node::expand_from(&[s("moo"), s("cow")], &Json::Scalar(Leaf::U64(42)), 2000);
    let (update, _) = root.merge(&mut diff, permanent(), permanent());
    assert!(update.is_some());
    let (update, _) = root.read(permanent(), &path(&["moo", "cow"]));
    assert_eq!(
        update,
        Some(shown(None, None, None, Some(vec![(
            "moo",
            shown(None, None, None, Some(vec![("cow", shown(Some(true), None, Some(Leaf::U64(42)), None))]))
        )])))
    );
}

#[test]
fn write_through_missing_parent_is_not_kept() {
    let mut root = Node::default();
    let mut diff = Node::expand_from(&[s("moo"), s("cow")], &Json::Scalar(Leaf::U64(42)), 2000);
    let (update, _) = root.merge(&mut diff, permanent(), permanent());
    assert_eq!(update, None);
    assert_eq!(root, branch(0, 0, vec![]));
    let (update, _) = root.read(permanent(), &path(&["moo", "cow"]));
    assert_eq!(update, None);
}

#[test]
fn marks_even_finds_handed_over_subtrees() {
    let mut root = branch(1, 0, vec![("a", leaf(Leaf::U64(1), 1, 0)), ("b", branch(1, 0, vec![]))]);
    assert!(root.marks_even());
    if let Some(keys) = root.keys.as_mut() {
        keys[1].1.delegated = 3;
    }
    assert!(!root.marks_even());
    let node = Node { delegated: 2, ..Node::default() };
    assert!(node.marks_even());
}

#[test]
fn prepend_path_places_node_below_path() {
    let node = Node::delete(9).prepend_path(&[s("moo"), s("cow")]);
    assert_eq!(node, branch(0, 0, vec![("moo", branch(0, 0, vec![("cow", Node::delete(9))]))]));
    assert_eq!(Node::delete(9).prepend_path(&[]), Node::delete(9));
}

#[test]
fn kill_hides_value_and_children() {
    let mut root = branch(5, 0, vec![("moo", branch(5, 0, vec![("cow", leaf(Leaf::U64(42), 5, 0))]))]);
    let mut diff = Node::delete(8).prepend_path(&[s("moo")]);
    let (update, _) = root.merge(&mut diff, permanent(), permanent());
    assert!(update.is_some());
    let (update, _) = root.read(permanent(), &path(&["moo", "cow"]));
    assert_eq!(update, None);
}

#[test]
fn retained_diff_gives_same_result() {
    let start = || branch(5, 0, vec![("a", leaf(Leaf::U64(1), 8, 0)), ("b", leaf(Leaf::U64(2), 5, 0))]);
    let mut node = start();
    let mut diff = branch(6, 0, vec![("a", leaf(Leaf::U64(9), 7, 0)), ("c", leaf(Leaf::U64(3), 6, 0))]);
    let (update, _) = node.merge(&mut diff, permanent(), permanent());
    // the stale write to "a" is dropped from the diff
    assert_eq!(
        diff,
        branch(6, 0, vec![("a", leaf(Leaf::Null, 0, 0)), ("c", leaf(Leaf::U64(3), 6, 0))])
    );
    let mut replica = start();
    let (replayed, _) = replica.merge(&mut diff, permanent(), permanent());
    assert_eq!(replica, node);
    assert_eq!(replayed, update);
}

#[test]
fn visible_value_change_is_reported() {
    let mut node = Node::expand(&Json::Scalar(Leaf::U64(42)), 1000);
    let mut diff = Node::expand(&Json::Scalar(Leaf::U64(7)), 2000);
    let (update, externals) = node.merge(&mut diff, permanent(), permanent());
    assert!(externals.is_empty());
    assert_eq!(node, leaf(Leaf::U64(7), 2000, 0));
    assert_eq!(update, Some(shown(None, Some(Leaf::U64(42)), Some(Leaf::U64(7)), None)));
}

#[test]
fn remerging_same_timestamp_keeps_nothing_in_diff() {
    let mut node = leaf(Leaf::U64(42), 1000, 0);
    let mut diff = leaf(Leaf::U64(42), 1000, 0);
    let (update, _) = node.merge(&mut diff, permanent(), permanent());
    assert_eq!(update, None);
    assert_eq!(diff, leaf(Leaf::Null, 0, 0));
    assert!(diff.is_noop());
    assert_eq!(node, leaf(Leaf::U64(42), 1000, 0));
}

#[test]
fn read_under_hidden_ancestor_is_empty() {
    let root = branch(5, 0, vec![("a", leaf(Leaf::U64(1), 6, 0))]);
    let (update, _) = root.read(Vis::new(3, 4), &path(&["a"]));
    assert_eq!(update, None);
    let (update, _) = root.read(Vis::new(3, 4), &path(&["*"]));
    assert_eq!(update, None);
}

#[test]
fn expanded_document_merged_into_empty_node() {
    let data = object(vec![
        ("a", Json::Array(vec![Json::Scalar(Leaf::U64(1)), Json::Scalar(Leaf::Null)])),
        ("b", object(vec![])),
    ]);
    let mut node = Node::default();
    let mut diff = Node::expand(&data, 10);
    let (update, _) = node.merge(&mut diff, permanent(), permanent());
    assert_eq!(node, Node::expand(&data, 10));
    assert_eq!(update.unwrap().visible, Some(true));
}

#[test]
fn merge_keeps_existing_children() {
    let mut root = branch(5, 0, vec![("a", leaf(Leaf::U64(1), 5, 0)), ("b", leaf(Leaf::U64(2), 5, 0))]);
    let mut diff = Node::delete(9).prepend_path(&[s("a")]);
    let _ = root.merge(&mut diff, permanent(), permanent());
    let keys: Vec<String> = root.keys.unwrap().into_iter().map(|(k, _)| k).collect();
    assert_eq!(keys, vec!["a", "b"]);
}
