//! Clients bound to a path, and how they follow a subtree that is delegated.

use std::sync::mpsc::Sender;
use std::sync::Arc;

use vstd::prelude::*;

use crate::node::{filtered, update_json, Update};
use crate::path::{delegation, opt_path_view, path_json, Path};
use crate::value::{items_view, lemma_items_view, Json, JsonV, Leaf};

verus! {

/// A second sending end of the channel of `tx` (`Sender::clone`). Nothing is
/// claimed of it: which channel a sender feeds is not visible here.
#[verifier::external_body]
fn clone_sender<T>(tx: &Sender<T>) -> Sender<T> {
    tx.clone()
}

/// A client bound to `path` below the zone at `root`.
pub struct Listener {
    pub root: Arc<Path>,
    pub path: Arc<Path>,
    pub tx: Sender<String>,
}

/// A Relative Listener: its path is relative to a zone not yet known.
pub struct RListener {
    pub path: Path,
    pub tx: Sender<String>,
}

impl Listener {
    pub fn new(root: Arc<Path>, path: Arc<Path>, tx: Sender<String>) -> (r: Listener)
        ensures
            r.root == root,
            r.path == path,
            r.tx == tx,
    {
        Listener { root: root, path: path, tx: tx }
    }

    /// Computes whether listener is retained and/or delegated
    pub fn delegate(&self, d_path: &Path) -> (r: (bool, Option<RListener>))
        ensures
            r.0 == delegation((*self.path)@, d_path@).0,
            match r.1 {
                Some(l) => delegation((*self.path)@, d_path@).1 == Some(l.path@),
                None => delegation((*self.path)@, d_path@).1 is None,
            },
    {
        let lp: &Path = &self.path;
        let (retain, path) = lp.delegate(d_path);
        let d_listener = match path {
            Some(p) => Some(RListener::new(p, &self.tx)),
            None => None,
        };
        proof {
            assert(opt_path_view(path) == delegation((*self.path)@, d_path@).1);
        }
        (retain, d_listener)
    }
}

impl RListener {
    pub fn new(path: Path, tx: &Sender<String>) -> (r: RListener)
        ensures
            r.path == path,
    {
        RListener { path: path, tx: clone_sender(tx) }
    }

    /// The listener bound below the zone at `path`.
    pub fn to_absolute(self, path: Arc<Path>) -> (r: Listener)
        ensures
            r.root == path,
            *r.path == self.path,
            r.tx == self.tx,
    {
        Listener::new(path, Arc::new(self.path), self.tx)
    }
}

impl Listener {
    /// The message that tells this listener of `update`:
    /// `[0, null, root, update]`, `root` being the path of its zone and the
    /// update cut down to what lies at or below the listener's path. `None`
    /// when nothing of the update concerns the listener.
    pub fn message(&self, update: &Update) -> (r: Option<Json>)
        ensures
            match filtered(update@, (*self.path)@, 0) {
                None => r is None,
                Some(f) => r is Some && r->0@ == JsonV::Array(
                    seq![
                        JsonV::Scalar(Leaf::U64(0)),
                        JsonV::Scalar(Leaf::Null),
                        path_json((*self.root).path@),
                        update_json(f),
                    ],
                ),
            },
    {
        let lp: &Path = &self.path;
        let seen = match update.filter(lp) {
            Some(f) => f,
            None => return None,
        };
        let root: &Path = &self.root;
        let mut items: Vec<Json> = Vec::new();
        items.push(Json::Scalar(Leaf::U64(0)));
        items.push(Json::Scalar(Leaf::Null));
        items.push(root.to_json());
        items.push(seen.to_json());
        proof {
            lemma_items_view(items@);
            assert(items_view(items@) =~= seq![
                JsonV::Scalar(Leaf::U64(0)),
                JsonV::Scalar(Leaf::Null),
                path_json((*self.root).path@),
                update_json(seen@),
            ]);
        }
        Some(Json::Array(items))
    }
}

} // verus!
