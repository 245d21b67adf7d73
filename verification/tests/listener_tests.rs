use std::sync::mpsc::channel;
use std::sync::Arc;

use qumulus::listener::{Listener, RListener};
use qumulus::node::Update;
use qumulus::value::{Json, Leaf};
use qumulus::path::Path;

fn path(components: &[&str]) -> Path {
    Path::new(components.iter().map(|c| c.to_string()).collect())
}

#[test]
fn listener_follows_delegated_subtree() {
    let (tx, rx) = channel();
    let listener = Listener::new(Arc::new(path(&[])), Arc::new(path(&["moo", "cow"])), tx);

    let (retain, moved) = listener.delegate(&path(&["moo"]));
    assert!(!retain);
    let moved = moved.unwrap();
    assert_eq!(moved.path, path(&["cow"]));

    let absolute = moved.to_absolute(Arc::new(path(&["moo"])));
    assert_eq!(*absolute.root, path(&["moo"]));
    assert_eq!(*absolute.path, path(&["cow"]));

    absolute.tx.send("hello".to_string()).unwrap();
    assert_eq!(rx.recv().unwrap(), "hello");
}

#[test]
fn listener_outside_delegated_subtree_stays() {
    let (tx, _rx) = channel();
    let listener = Listener::new(Arc::new(path(&[])), Arc::new(path(&["moo"])), tx);
    let (retain, moved) = listener.delegate(&path(&["cow"]));
    assert!(retain);
    assert!(moved.is_none());

    let listener = Listener::new(Arc::new(path(&[])), Arc::new(path(&["*", "moo"])), listener.tx);
    let (retain, moved) = listener.delegate(&path(&["cow"]));
    assert!(retain);
    assert_eq!(moved.map(|l: RListener| l.path), Some(path(&["moo"])));
}

fn shown(new: Option<Leaf>, keys: Option<Vec<(&str, Update)>>) -> Update {
    Update {
        visible: if new.is_some() { Some(true) } else { None },
        old: None,
        new: new,
        keys: keys.map(|ks| ks.into_iter().map(|(k, v)| (k.to_string(), v)).collect()),
    }
}

#[test]
fn listener_message_names_root_and_filtered_update() {
    let (tx, _rx) = channel();
    let listener = Listener::new(Arc::new(path(&["moo"])), Arc::new(path(&["cow"])), tx);
    let update = shown(
        Some(Leaf::U64(1)),
        Some(vec![("cow", shown(Some(Leaf::U64(42)), None)), ("pig", shown(Some(Leaf::U64(7)), None))]),
    );
    assert_eq!(
        listener.message(&update),
        Some(Json::Array(vec![
            Json::Scalar(Leaf::U64(0)),
            Json::Scalar(Leaf::Null),
            Json::Array(vec![Json::Scalar(Leaf::String("moo".to_string()))]),
            Json::Array(vec![
                Json::Scalar(Leaf::Null),
                Json::Object(vec![(
                    "cow".to_string(),
                    Json::Array(vec![Json::Scalar(Leaf::U64(42)), Json::Scalar(Leaf::Null)])
                )]),
            ]),
        ]))
    );
    // nothing under "cow": no message
    let other = shown(None, Some(vec![("pig", shown(Some(Leaf::U64(7)), None))]));
    assert_eq!(listener.message(&other), None);
}

#[test]
fn update_filter_follows_wildcards() {
    let update = shown(
        None,
        Some(vec![
            ("a", shown(None, Some(vec![("x", shown(Some(Leaf::U64(1)), None))]))),
            ("b", shown(None, Some(vec![("y", shown(Some(Leaf::U64(2)), None))]))),
        ]),
    );
    // "*" takes every child, then the literal component selects below it
    let f = update.filter(&path(&["*", "x"])).unwrap();
    assert_eq!(
        f,
        shown(None, Some(vec![("a", shown(None, Some(vec![("x", shown(Some(Leaf::U64(1)), None))])))]))
    );
    // "**" keeps everything below
    assert_eq!(update.filter(&path(&["**"])), Some(update.copy()));
    assert_eq!(update.filter(&path(&[])), Some(update.copy()));
    assert_eq!(update.filter(&path(&["c"])), None);
}
