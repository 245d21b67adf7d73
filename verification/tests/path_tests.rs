use qumulus::path::Path;
use qumulus::value::{Json, Leaf};

fn path(components: &[&str]) -> Path {
    Path::new(components.iter().map(|c| c.to_string()).collect())
}

#[test]
fn test_push() {
    let mut p = path(&["root"]);

    p.push(&"moo".to_string());

    assert_eq!(p, path(&["root", "moo"]));
}

#[test]
fn test_pop() {
    let mut p = path(&["root", "moo", "cow"]);

    assert_eq!(p.pop(), Some("cow".to_string()));
    assert_eq!(p.pop(), Some("moo".to_string()));
}

#[test]
fn test_delegate_match() {
    let (r, p) = d(path(&["root", "moo", "cow"]), path(&["root", "moo"]));
    assert!(!r);
    assert_eq!(p.unwrap(), path(&["cow"]));

    let (r, p) = d(path(&["root", "moo", "cow"]), path(&["root", "cow"]));
    assert!(r);
    assert!(p.is_none());

    let (r, p) = d(path(&["root", "moo"]), path(&["root", "moo", "cow"]));
    assert!(r);
    assert!(p.is_none());

    let (r, p) = d(path(&["root", "*"]), path(&["root", "moo"]));
    assert!(r);
    assert_eq!(p.unwrap(), path(&[]));

    let (r, p) = d(path(&["root", "*"]), path(&["root", "moo", "cow"]));
    assert!(r);
    assert!(p.is_none());

    let (r, p) = d(path(&["*"]), path(&["moo"]));
    assert!(r);
    assert_eq!(p.unwrap(), path(&[]));

    let (r, p) = d(path(&["*"]), path(&["moo", "cow"]));
    assert!(r);
    assert!(p.is_none());

    let (r, p) = d(path(&["*", "moo"]), path(&["moo"]));
    assert!(r);
    assert_eq!(p.unwrap(), path(&["moo"]));

    let (r, p) = d(path(&["*", "moo"]), path(&["moo", "cow"]));
    assert!(r);
    assert!(p.is_none());

    let (r, p) = d(path(&["*", "moo"]), path(&["moo", "moo"]));
    assert!(r);
    assert_eq!(p.unwrap(), path(&[]));

    // "**" matches any subtree
    let (r, p) = d(path(&["**"]), path(&["moo"]));
    assert!(r);
    assert_eq!(p.unwrap(), path(&["**"]));

    let (r, p) = d(path(&["**"]), path(&["moo", "moo"]));
    assert!(r);
    assert_eq!(p.unwrap(), path(&["**"]));

    let (r, p) = d(path(&["moo", "**"]), path(&["moo", "moo"]));
    assert!(r);
    assert_eq!(p.unwrap(), path(&["**"]));

    let (r, p) = d(path(&["moo", "**"]), path(&["cow"]));
    assert!(r);
    assert!(p.is_none());

    let (r, p) = d(path(&["moo", "cow", "**"]), path(&["moo"]));
    assert!(!r);
    assert_eq!(p.unwrap(), path(&["cow", "**"]));

    fn d(listener: Path, delegated: Path) -> (bool, Option<Path>) {
        let (retain, d_listener) = listener.delegate(&delegated);

        (retain, d_listener)
    }
}

#[test]
fn resolved_keeps_leading_hash_components() {
    assert_eq!(path(&["#a", "#b", "c", "#d"]).resolved(), path(&["#a", "#b"]));
    assert_eq!(path(&["moo", "#b"]).resolved(), path(&[]));
    assert_eq!(path(&[]).resolved(), path(&[]));
}

#[test]
fn slice_append_truncate_len() {
    let p = path(&["a", "b", "c"]);
    assert_eq!(p.slice(1), path(&["b", "c"]));
    assert_eq!(p.slice(3), path(&[]));
    let mut q = path(&["x"]);
    let mut r = path(&["y", "z"]);
    q.append(&mut r);
    assert_eq!(q, path(&["x", "y", "z"]));
    assert_eq!(r, path(&[]));
    assert_eq!(q.len(), 3);
    q.truncate(1);
    assert_eq!(q, path(&["x"]));
    q.truncate(5);
    assert_eq!(q, path(&["x"]));
    assert_eq!(Path::empty().len(), 0);
    let mut e = Path::empty();
    assert_eq!(e.pop(), None);
}

#[test]
fn push_then_pop_restores() {
    let mut p = path(&["a", "b"]);
    p.push(&"c".to_string());
    assert_eq!(p.pop(), Some("c".to_string()));
    assert_eq!(p, path(&["a", "b"]));
}

#[test]
fn path_to_json() {
    assert_eq!(
        path(&["a", "b"]).to_json(),
        Json::Array(vec![
            Json::Scalar(Leaf::String("a".to_string())),
            Json::Scalar(Leaf::String("b".to_string()))
        ])
    );
}
