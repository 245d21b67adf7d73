//! The mergeable node tree.

use vstd::prelude::*;

use crate::order::{
    found_at, insert_entry, inserted, keys_of, locate, lower_bound, string_inserted, string_keys,
};
use crate::path::{is_recursive_wildcard, is_wildcard, recursive_wildcard, wildcard, Path};
use crate::text::format_number;
use crate::text::digits;
use crate::value::{items_view, json_view, lemma_items_view, lemma_members_view, members_view, Json, JsonV, Leaf};

verus! {

/// Tracks visibility of a node
#[derive(Clone, Copy, Debug, PartialEq, Eq, Structural)]
pub struct Vis {
    pub updated: u64,
    pub deleted: u64,
}

impl Vis {
    /// Visible: the last update is newer than the last deletion.
    pub open spec fn visible(self) -> bool {
        self.updated > self.deleted
    }

    /// Componentwise newest timestamps.
    pub open spec fn joined(self, other: Vis) -> Vis {
        Vis {
            updated: if other.updated > self.updated { other.updated } else { self.updated },
            deleted: if other.deleted > self.deleted { other.deleted } else { self.deleted },
        }
    }

    /// Effective visibility of a child under a parent of visibility `self`:
    /// the oldest update and the newest deletion.
    pub open spec fn descended(self, child: Vis) -> Vis {
        Vis {
            updated: if child.updated < self.updated { child.updated } else { self.updated },
            deleted: if child.deleted > self.deleted { child.deleted } else { self.deleted },
        }
    }

    pub fn new(updated: u64, deleted: u64) -> (r: Vis)
        ensures
            r == (Vis { updated, deleted }),
    {
        Vis { updated: updated, deleted: deleted }
    }

    pub fn is_visible(&self) -> (r: bool)
        ensures
            r == self.visible(),
    {
        self.updated > self.deleted
    }

    pub fn merge(&mut self, diff: &Vis)
        ensures
            *final(self) == old(self).joined(*diff),
    {
        if diff.updated > self.updated {
            self.updated = diff.updated;
        }
        if diff.deleted > self.deleted {
            self.deleted = diff.deleted;
        }
    }

    /// Returns new effective visibility given child visibility
    pub fn descend(&mut self, child: &Vis)
        ensures
            *final(self) == old(self).descended(*child),
    {
        if child.updated < self.updated {
            self.updated = child.updated
        }
        if child.deleted > self.deleted {
            self.deleted = child.deleted
        }
    }

    pub fn is_noop(&self) -> (r: bool)
        ensures
            r == (self.updated == 0 && self.deleted == 0),
    {
        self.updated == 0 && self.deleted == 0
    }
}

#[derive(Debug, PartialEq)]
pub struct Node {
    pub vis: Vis,
    pub value: Leaf,
    pub keys: Option<Vec<(String, Node)>>,
    pub delegated: u64,
}

/// The mathematical content of a `Node`: children are listed with their keys,
/// in the order in which the node keeps them.
pub struct NodeV {
    pub vis: Vis,
    pub value: Leaf,
    pub keys: Option<Seq<(Seq<char>, NodeV)>>,
    pub delegated: u64,
}

pub open spec fn children_view(s: Seq<(String, Node)>) -> Seq<(Seq<char>, NodeV)>
    decreases s,
{
    if s.len() == 0 {
        Seq::empty()
    } else {
        let init = s.subrange(0, s.len() - 1);
        children_view(init).push((s.last().0@, node_view(s.last().1)))
    }
}

pub open spec fn node_view(n: Node) -> NodeV
    decreases n,
{
    NodeV {
        vis: n.vis,
        value: n.value,
        keys: match n.keys {
            Some(v) => Some(children_view(v@)),
            None => None,
        },
        delegated: n.delegated,
    }
}

impl View for Node {
    type V = NodeV;

    open spec fn view(&self) -> NodeV {
        node_view(*self)
    }
}

pub proof fn lemma_children_view(s: Seq<(String, Node)>)
    ensures
        children_view(s).len() == s.len(),
        forall|j: int|
            0 <= j < s.len() ==> #[trigger] children_view(s)[j] == (s[j].0@, node_view(s[j].1)),
        keys_of(children_view(s)) == string_keys(s),
    decreases s.len(),
{
    if s.len() > 0 {
        let init = s.subrange(0, s.len() - 1);
        lemma_children_view(init);
        assert forall|j: int| 0 <= j < s.len() implies #[trigger] children_view(s)[j] == (
            s[j].0@,
            node_view(s[j].1),
        ) by {
            if j < s.len() - 1 {
                assert(init[j] == s[j]);
            }
        }
    }
    assert(keys_of(children_view(s)) =~= string_keys(s));
}

pub proof fn lemma_children_view_inserted(s: Seq<(String, Node)>, k: String, c: Node)
    ensures
        children_view(string_inserted(s, k, c)) == inserted(children_view(s), k@, node_view(c)),
{
    let t = string_inserted(s, k, c);
    let v = children_view(s);
    lemma_children_view(s);
    lemma_children_view(t);
    let i = lower_bound(string_keys(s), k@) as int;
    crate::order::lemma_lower_bound(string_keys(s), k@);
    if found_at(string_keys(s), k@) {
        assert(children_view(t) =~= v.update(i, (k@, node_view(c))));
    } else {
        assert(children_view(t) =~= v.insert(i, (k@, node_view(c))));
    }
}

pub proof fn lemma_children_view_update(s: Seq<(String, Node)>, i: int, c: Node)
    requires
        0 <= i < s.len(),
    ensures
        children_view(s.update(i, (s[i].0, c))) == children_view(s).update(i, (s[i].0@, node_view(c))),
{
    lemma_children_view(s);
    lemma_children_view(s.update(i, (s[i].0, c)));
    assert(children_view(s.update(i, (s[i].0, c))) =~= children_view(s).update(i, (s[i].0@, node_view(c))));
}

pub proof fn lemma_children_view_insert(s: Seq<(String, Node)>, i: int, k: String, c: Node)
    requires
        0 <= i <= s.len(),
    ensures
        children_view(s.insert(i, (k, c))) == children_view(s).insert(i, (k@, node_view(c))),
{
    lemma_children_view(s);
    lemma_children_view(s.insert(i, (k, c)));
    assert(children_view(s.insert(i, (k, c))) =~= children_view(s).insert(i, (k@, node_view(c))));
}

/// A node with nothing in it.
pub open spec fn empty_node() -> NodeV {
    NodeV { vis: Vis { updated: 0, deleted: 0 }, value: Leaf::Null, keys: None, delegated: 0 }
}

/// A node that only records a deletion at `timestamp`.
pub open spec fn deletion(timestamp: u64) -> NodeV {
    NodeV {
        vis: Vis { updated: 0, deleted: timestamp },
        value: Leaf::Null,
        keys: None,
        delegated: 0,
    }
}

impl Default for Node {
    fn default() -> (r: Node)
        ensures
            r@ == empty_node(),
            wf(r@),
    {
        Node {
            vis: Vis { updated: 0, deleted: 0 },
            value: Leaf::Null,
            keys: None,
            delegated: 0,
        }
    }
}

/// User-visible changes of a node and its descendants.
#[derive(Debug, PartialEq)]
pub struct Update {
    pub visible: Option<bool>,
    pub old: Option<Leaf>,
    pub new: Option<Leaf>,
    pub keys: Option<Vec<(String, Update)>>,
}

/// The mathematical content of an `Update`.
pub struct UpdateV {
    pub visible: Option<bool>,
    pub old: Option<Leaf>,
    pub new: Option<Leaf>,
    pub keys: Option<Seq<(Seq<char>, UpdateV)>>,
}

pub open spec fn updates_view(s: Seq<(String, Update)>) -> Seq<(Seq<char>, UpdateV)>
    decreases s,
{
    if s.len() == 0 {
        Seq::empty()
    } else {
        let init = s.subrange(0, s.len() - 1);
        updates_view(init).push((s.last().0@, update_view(s.last().1)))
    }
}

pub open spec fn update_view(u: Update) -> UpdateV
    decreases u,
{
    UpdateV {
        visible: u.visible,
        old: u.old,
        new: u.new,
        keys: match u.keys {
            Some(v) => Some(updates_view(v@)),
            None => None,
        },
    }
}

impl View for Update {
    type V = UpdateV;

    open spec fn view(&self) -> UpdateV {
        update_view(*self)
    }
}

pub open spec fn opt_update_view(u: Option<Update>) -> Option<UpdateV> {
    match u {
        Some(u) => Some(update_view(u)),
        None => None,
    }
}

pub proof fn lemma_updates_view(s: Seq<(String, Update)>)
    ensures
        updates_view(s).len() == s.len(),
        forall|j: int|
            0 <= j < s.len() ==> #[trigger] updates_view(s)[j] == (s[j].0@, update_view(s[j].1)),
        keys_of(updates_view(s)) == string_keys(s),
    decreases s.len(),
{
    if s.len() > 0 {
        let init = s.subrange(0, s.len() - 1);
        lemma_updates_view(init);
        assert forall|j: int| 0 <= j < s.len() implies #[trigger] updates_view(s)[j] == (
            s[j].0@,
            update_view(s[j].1),
        ) by {
            if j < s.len() - 1 {
                assert(init[j] == s[j]);
            }
        }
    }
    assert(keys_of(updates_view(s)) =~= string_keys(s));
}

/// An update that reports nothing.
pub open spec fn no_update() -> UpdateV {
    UpdateV { visible: None, old: None, new: None, keys: None }
}

pub open spec fn update_is_noop(u: UpdateV) -> bool {
    u.visible is None && u.old is None && u.new is None && u.keys is None
}

/// `Some(u)` unless `u` reports nothing.
pub open spec fn reported(u: UpdateV) -> Option<UpdateV> {
    if update_is_noop(u) {
        None
    } else {
        Some(u)
    }
}

/// Records the update of child `k`, if there is one.
pub open spec fn with_child(u: UpdateV, k: Seq<char>, child: Option<UpdateV>) -> UpdateV {
    match child {
        None => u,
        Some(c) => UpdateV {
            keys: Some(
                inserted(
                    match u.keys {
                        Some(ks) => ks,
                        None => Seq::empty(),
                    },
                    k,
                    c,
                ),
            ),
            ..u
        },
    }
}

impl Default for Update {
    fn default() -> (r: Update)
        ensures
            r@ == no_update(),
    {
        Update { visible: None, old: None, new: None, keys: None }
    }
}

impl Update {
    pub fn add_child(&mut self, k: &String, child_update: Option<Update>)
        ensures
            final(self)@ == with_child(old(self)@, k@, opt_update_view(child_update)),
    {
        if let Some(child_update) = child_update {
            let ghost prev = self@;
            let mut keys = match self.keys.take() {
                Some(keys) => keys,
                None => Vec::new(),
            };
            proof {
                lemma_updates_view(keys@);
                assert(updates_view(keys@) == match prev.keys {
                    Some(ks) => ks,
                    None => Seq::<(Seq<char>, UpdateV)>::empty(),
                });
            }
            let ghost before = keys@;
            insert_entry(&mut keys, k.clone(), child_update);
            proof {
                lemma_updates_view(before);
                lemma_updates_view(keys@);
                let i = lower_bound(string_keys(before), k@) as int;
                crate::order::lemma_lower_bound(string_keys(before), k@);
                if found_at(string_keys(before), k@) {
                    assert(updates_view(keys@) =~= updates_view(before).update(
                        i,
                        (k@, update_view(child_update)),
                    ));
                } else {
                    assert(updates_view(keys@) =~= updates_view(before).insert(
                        i,
                        (k@, update_view(child_update)),
                    ));
                }
            }
            self.keys = Some(keys);
        }
    }

    pub fn is_noop(&self) -> (r: bool)
        ensures
            r == update_is_noop(self@),
    {
        self.visible.is_none() && self.old.is_none() && self.new.is_none() && self.keys.is_none()
    }
}

/// What merging `diff` does at one node, before the node's children are visited.
pub struct Step {
    /// The node with its new timestamps, value and delegation.
    pub node: NodeV,
    /// The diff, keeping only what changed the node.
    pub diff: NodeV,
    /// The update reported for this node alone.
    pub update: UpdateV,
    /// New timestamps to hand down to the existing children, if any.
    pub propagate: Option<NodeV>,
    /// Effective visibility of the node before the merge.
    pub vis_old: Vis,
    /// Effective visibility of the node after the merge.
    pub vis_new: Vis,
}

pub open spec fn merge_step(node: NodeV, diff: NodeV, vis_old: Vis, vis_new: Vis) -> Step {
    let vo = vis_old.descended(node.vis);
    let takes_delegation = diff.delegated > 0 && diff.delegated > node.delegated;
    let newer = diff.vis.updated > node.vis.updated;
    let deletes = diff.vis.deleted > node.vis.deleted;
    let updated = if newer {
        diff.vis.updated
    } else {
        node.vis.updated
    };
    let deleted = if deletes {
        diff.vis.deleted
    } else {
        node.vis.deleted
    };
    let value = if deletes && updated < deleted {
        Leaf::Null
    } else if newer {
        diff.value
    } else {
        node.value
    };
    let vis = Vis { updated, deleted };
    let vn = vis_new.descended(vis);
    let changed = vo.visible() != vn.visible();
    // a newer value replaces the old one while the node stays visible
    let replaced = vo.visible() && vn.visible() && newer;
    let reports = changed || replaced;
    Step {
        node: NodeV {
            vis,
            value,
            keys: node.keys,
            delegated: if takes_delegation {
                diff.delegated
            } else {
                node.delegated
            },
        },
        diff: NodeV {
            vis: Vis {
                updated: if newer {
                    diff.vis.updated
                } else {
                    0
                },
                deleted: if deletes {
                    diff.vis.deleted
                } else {
                    0
                },
            },
            value: if newer {
                diff.value
            } else {
                Leaf::Null
            },
            keys: diff.keys,
            delegated: if takes_delegation {
                diff.delegated
            } else {
                0
            },
        },
        update: UpdateV {
            visible: if changed {
                Some(vn.visible())
            } else {
                None
            },
            old: if reports && vo.visible() {
                Some(node.value)
            } else {
                None
            },
            new: if reports {
                Some(value)
            } else {
                None
            },
            keys: None,
        },
        propagate: if newer || deletes {
            Some(
                deletion(
                    if deletes {
                        diff.vis.deleted
                    } else {
                        0
                    },
                ),
            )
        } else {
            None
        },
        vis_old: vo,
        vis_new: vn,
    }
}

/// Result of a merge: the new node, the diff reduced to what changed the
/// node, the update to report, and whether the merge completes (it stops on a
/// node whose delegation marker is odd).
pub struct Merged {
    pub node: NodeV,
    pub diff: NodeV,
    pub update: Option<UpdateV>,
    pub ok: bool,
}

/// State while handing a propagated diff down to the children, one by one.
pub struct Handed {
    pub children: Seq<(Seq<char>, NodeV)>,
    pub diff: NodeV,
    pub update: UpdateV,
    pub ok: bool,
}

/// Hands the keyless diff `p` down to the children `ks`, in order. Each child
/// sees `p` as the previous child left it.
pub open spec fn hand_down(
    ks: Seq<(Seq<char>, NodeV)>,
    p: NodeV,
    vis_old: Vis,
    vis_new: Vis,
    u: UpdateV,
) -> Handed
    decreases ks,
{
    if ks.len() == 0 {
        Handed { children: ks, diff: p, update: u, ok: true }
    } else {
        let init = ks.subrange(0, ks.len() - 1);
        let prev = hand_down(init, p, vis_old, vis_new, u);
        let r = propagated(ks.last().1, prev.diff, vis_old, vis_new);
        Handed {
            children: prev.children.push((ks.last().0, r.node)),
            diff: r.diff,
            update: with_child(prev.update, ks.last().0, r.update),
            ok: prev.ok && r.ok,
        }
    }
}

/// Merges a diff without children (a propagated timestamp) into `node`.
pub open spec fn propagated(node: NodeV, p: NodeV, vis_old: Vis, vis_new: Vis) -> Merged
    decreases node,
{
    let s = merge_step(node, p, vis_old, vis_new);
    match (s.propagate, node.keys) {
        (Some(q), Some(ks)) => {
            let h = hand_down(ks, q, s.vis_old, s.vis_new, s.update);
            Merged {
                node: NodeV { keys: Some(h.children), ..s.node },
                diff: s.diff,
                update: reported(h.update),
                ok: h.ok && s.node.delegated % 2 == 0,
            }
        },
        _ => Merged {
            node: s.node,
            diff: s.diff,
            update: reported(s.update),
            ok: s.node.delegated % 2 == 0,
        },
    }
}

/// State while merging the children of a diff, one by one.
pub struct Joined {
    pub children: Seq<(Seq<char>, NodeV)>,
    pub diff_children: Seq<(Seq<char>, NodeV)>,
    pub update: UpdateV,
    pub ok: bool,
}

/// Merges the diff children `dks`, in order, into the node children `ks`.
/// A diff child without a matching node child is merged into an empty node,
/// which is kept only if that merge reports an update.
pub open spec fn merge_children(
    ks: Seq<(Seq<char>, NodeV)>,
    dks: Seq<(Seq<char>, NodeV)>,
    vis_old: Vis,
    vis_new: Vis,
    u: UpdateV,
) -> Joined
    decreases dks,
{
    if dks.len() == 0 {
        Joined { children: ks, diff_children: dks, update: u, ok: true }
    } else {
        let init = dks.subrange(0, dks.len() - 1);
        let prev = merge_children(ks, init, vis_old, vis_new, u);
        let k = dks.last().0;
        let i = lower_bound(keys_of(prev.children), k) as int;
        if found_at(keys_of(prev.children), k) {
            let r = merged(prev.children[i].1, dks.last().1, vis_old, vis_new);
            Joined {
                children: prev.children.update(i, (k, r.node)),
                diff_children: prev.diff_children.push((k, r.diff)),
                update: with_child(prev.update, k, r.update),
                ok: prev.ok && r.ok,
            }
        } else {
            let r = merged(empty_node(), dks.last().1, vis_old, vis_new);
            Joined {
                children: if r.update is Some {
                    prev.children.insert(i, (k, r.node))
                } else {
                    prev.children
                },
                diff_children: prev.diff_children.push((k, r.diff)),
                update: with_child(prev.update, k, r.update),
                ok: prev.ok && r.ok,
            }
        }
    }
}

/// Merges `diff` into `node`, whose ancestors had effective visibility
/// `vis_old` before the merge and have `vis_new` after it.
pub open spec fn merged(node: NodeV, diff: NodeV, vis_old: Vis, vis_new: Vis) -> Merged
    decreases diff,
{
    let s = merge_step(node, diff, vis_old, vis_new);
    let h = match (s.propagate, node.keys) {
        (Some(q), Some(ks)) => hand_down(ks, q, s.vis_old, s.vis_new, s.update),
        _ => Handed { children: Seq::empty(), diff: empty_node(), update: s.update, ok: true },
    };
    let keys = match (s.propagate, node.keys) {
        (Some(q), Some(ks)) => Some(h.children),
        _ => node.keys,
    };
    match diff.keys {
        None => Merged {
            node: NodeV { keys, ..s.node },
            diff: s.diff,
            update: reported(h.update),
            ok: h.ok && s.node.delegated % 2 == 0,
        },
        Some(dks) => {
            let start = match keys {
                Some(c) => c,
                None => Seq::empty(),
            };
            let j = merge_children(start, dks, s.vis_old, s.vis_new, h.update);
            Merged {
                node: NodeV { keys: Some(j.children), ..s.node },
                diff: NodeV { keys: Some(j.diff_children), ..s.diff },
                update: reported(j.update),
                ok: h.ok && j.ok && s.node.delegated % 2 == 0,
            }
        },
    }
}

pub open spec fn opt_node_view(n: Option<Node>) -> Option<NodeV> {
    match n {
        Some(n) => Some(node_view(n)),
        None => None,
    }
}

impl Node {
    pub fn delete(timestamp: u64) -> (r: Node)
        ensures
            r@ == deletion(timestamp),
            wf(r@),
    {
        Node {
            vis: Vis { updated: 0, deleted: timestamp },
            value: Leaf::Null,
            keys: None,
            delegated: 0,
        }
    }
}

/// Merges the timestamps, value and delegation of `diff` into `node`,
/// leaving the children of both alone.
fn merge_here(node: &mut Node, diff: &mut Node, vis_old: Vis, vis_new: Vis) -> (r: (
    Update,
    Option<Node>,
    Vis,
    Vis,
))
    ensures
        ({
            let s = merge_step(old(node)@, old(diff)@, vis_old, vis_new);
            &&& final(node)@ == s.node
            &&& final(diff)@ == s.diff
            &&& final(node).keys == old(node).keys
            &&& final(diff).keys == old(diff).keys
            &&& r.0@ == s.update
            &&& opt_node_view(r.1) == s.propagate
            &&& r.2 == s.vis_old
            &&& r.3 == s.vis_new
        }),
{
    // "Previous" effective visibility of this node
    let mut vis_old = vis_old;
    vis_old.descend(&node.vis);

    // Merge external status of node
    if diff.delegated > 0 && diff.delegated > node.delegated {
        node.delegated = diff.delegated;
    } else {
        diff.delegated = 0;
    }

    let mut update = Update::default();

    if vis_old.is_visible() {
        update.old = Some(node.value.copy());
    }

    let mut propagate: Option<Node> = None;

    // Merge value at node
    let newer = diff.vis.updated > node.vis.updated;
    if newer {
        // timestamp newer, use updated value
        node.value = diff.value.copy();
        node.vis.updated = diff.vis.updated;
        propagate = Some(Node::default());
    } else {
        // outdated or already applied, throw away
        diff.vis.updated = 0;
        diff.value = Leaf::Null;
    }

    // Merge deletion
    if diff.vis.deleted > node.vis.deleted {
        // newer deletion, so delete
        node.vis.deleted = diff.vis.deleted;

        if node.vis.updated < node.vis.deleted {
            node.value = Leaf::Null;
        }

        match propagate {
            Some(mut p_node) => {
                p_node.vis.deleted = diff.vis.deleted;
                propagate = Some(p_node);
            },
            None => {
                propagate = Some(Node::delete(diff.vis.deleted));
            },
        }
    } else {
        // outdated delete, throw away
        diff.vis.deleted = 0
    }

    // "New" effective visibility of this node
    let mut vis_new = vis_new;
    vis_new.descend(&node.vis);

    if vis_old.is_visible() != vis_new.is_visible() {
        update.visible = Some(vis_new.is_visible());
        update.new = Some(node.value.copy());
    } else if vis_new.is_visible() && newer {
        // visible value replaced
        update.new = Some(node.value.copy());
    } else {
        update.old = None;
    }

    (update, propagate, vis_old, vis_new)
}

proof fn lemma_hand_down_prefix(
    ks: Seq<(Seq<char>, NodeV)>,
    p: NodeV,
    vis_old: Vis,
    vis_new: Vis,
    u: UpdateV,
    i: int,
)
    requires
        0 <= i <= ks.len(),
        hand_down(ks, p, vis_old, vis_new, u).ok,
    ensures
        hand_down(ks.take(i), p, vis_old, vis_new, u).ok,
    decreases ks.len(),
{
    if i < ks.len() {
        let init = ks.subrange(0, ks.len() - 1);
        lemma_hand_down_prefix(init, p, vis_old, vis_new, u, i);
        assert(init.take(i) =~= ks.take(i));
    } else {
        assert(ks.take(i) =~= ks);
    }
}

proof fn lemma_children_view_step(s: Seq<(String, Node)>, i: int)
    requires
        0 <= i < s.len(),
    ensures
        children_view(s.take(i + 1)) == children_view(s.take(i)).push((s[i].0@, node_view(s[i].1))),
{
    assert(s.take(i + 1).subrange(0, i) =~= s.take(i));
}

/// Hands the keyless diff `p` down to the children `ks`, in order.
fn hand_down_exec(
    ks: &mut Vec<(String, Node)>,
    p: &mut Node,
    vis_old: Vis,
    vis_new: Vis,
    update: &mut Update,
)
    requires
        hand_down(children_view(old(ks)@), old(p)@, vis_old, vis_new, old(update)@).ok,
    ensures
        ({
            let h = hand_down(children_view(old(ks)@), old(p)@, vis_old, vis_new, old(update)@);
            &&& children_view(final(ks)@) == h.children
            &&& final(p)@ == h.diff
            &&& final(update)@ == h.update
        }),
    decreases *old(ks),
{
    let ghost ks0 = ks@;
    let ghost cv0 = children_view(ks0);
    let ghost p0 = p@;
    let ghost u0 = update@;
    proof {
        lemma_children_view(ks0);
        assert(cv0.take(0) =~= Seq::<(Seq<char>, NodeV)>::empty());
        assert(ks@.take(0) =~= Seq::<(String, Node)>::empty());
    }
    let mut i: usize = 0;
    while i < ks.len()
        invariant
            ks@.len() == ks0.len(),
            cv0 == children_view(ks0),
            cv0.len() == ks0.len(),
            0 <= i <= ks0.len(),
            forall|j: int| i <= j < ks0.len() ==> ks@[j] == ks0[j],
            ({
                let h = hand_down(cv0.take(i as int), p0, vis_old, vis_new, u0);
                &&& children_view(ks@.take(i as int)) == h.children
                &&& p@ == h.diff
                &&& update@ == h.update
            }),
            hand_down(cv0, p0, vis_old, vis_new, u0).ok,
            ks0 == old(ks)@,
        decreases ks0.len() - i,
    {
        let ghost before = ks@;
        proof {
            lemma_children_view(ks0);
            assert(cv0.take(i + 1).subrange(0, i as int) =~= cv0.take(i as int));
            assert(cv0.take(i + 1).last() == cv0[i as int]);
            lemma_hand_down_prefix(cv0, p0, vis_old, vis_new, u0, i + 1);
            assert(decreases_to!(*old(ks) => ks0[i as int].1));
        }
        let child_update = propagate(&mut ks[i].1, p, vis_old, vis_new);
        update.add_child(&ks[i].0, child_update);
        proof {
            assert(ks@ == before.update(i as int, (before[i as int].0, ks@[i as int].1)));
            assert(ks@.take(i as int) =~= before.take(i as int));
            lemma_children_view_step(ks@, i as int);
        }
        i = i + 1;
    }
    proof {
        assert(cv0.take(i as int) =~= cv0);
        assert(ks@.take(i as int) =~= ks@);
    }
}

/// Merges a keyless diff (a propagated timestamp) into `node`.
fn propagate(node: &mut Node, p: &mut Node, vis_old: Vis, vis_new: Vis) -> (r: Option<Update>)
    requires
        propagated(old(node)@, old(p)@, vis_old, vis_new).ok,
    ensures
        ({
            let m = propagated(old(node)@, old(p)@, vis_old, vis_new);
            &&& final(node)@ == m.node
            &&& final(p)@ == m.diff
            &&& opt_update_view(r) == m.update
        }),
    decreases *old(node),
{
    let (mut update, prop, vo, vn) = merge_here(node, p, vis_old, vis_new);
    if let Some(mut q) = prop {
        if node.keys.is_some() {
            let mut ks = node.keys.take().unwrap();
            proof {
                assert(decreases_to!(*old(node) => ks));
            }
            hand_down_exec(&mut ks, &mut q, vo, vn, &mut update);
            node.keys = Some(ks);
        }
    }
    if update.is_noop() {
        None
    } else {
        Some(update)
    }
}

proof fn lemma_merge_children_prefix(
    ks: Seq<(Seq<char>, NodeV)>,
    dks: Seq<(Seq<char>, NodeV)>,
    vis_old: Vis,
    vis_new: Vis,
    u: UpdateV,
    i: int,
)
    requires
        0 <= i <= dks.len(),
        merge_children(ks, dks, vis_old, vis_new, u).ok,
    ensures
        merge_children(ks, dks.take(i), vis_old, vis_new, u).ok,
    decreases dks.len(),
{
    if i < dks.len() {
        let init = dks.subrange(0, dks.len() - 1);
        lemma_merge_children_prefix(ks, init, vis_old, vis_new, u, i);
        assert(init.take(i) =~= dks.take(i));
    } else {
        assert(dks.take(i) =~= dks);
    }
}

/// Merges the diff children `dks`, in order, into the node children `nks`.
fn merge_children_exec(
    nks: &mut Vec<(String, Node)>,
    dks: &mut Vec<(String, Node)>,
    vis_old: Vis,
    vis_new: Vis,
    update: &mut Update,
)
    requires
        merge_children(
            children_view(old(nks)@),
            children_view(old(dks)@),
            vis_old,
            vis_new,
            old(update)@,
        ).ok,
    ensures
        ({
            let j = merge_children(
                children_view(old(nks)@),
                children_view(old(dks)@),
                vis_old,
                vis_new,
                old(update)@,
            );
            &&& children_view(final(nks)@) == j.children
            &&& children_view(final(dks)@) == j.diff_children
            &&& final(update)@ == j.update
        }),
    decreases *old(dks),
{
    let ghost dks0 = dks@;
    let ghost dv0 = children_view(dks0);
    let ghost kv0 = children_view(nks@);
    let ghost u0 = update@;
    proof {
        lemma_children_view(dks0);
        assert(dv0.take(0) =~= Seq::<(Seq<char>, NodeV)>::empty());
        assert(dks@.take(0) =~= Seq::<(String, Node)>::empty());
    }
    let mut i: usize = 0;
    while i < dks.len()
        invariant
            dks@.len() == dks0.len(),
            dv0 == children_view(dks0),
            dv0.len() == dks0.len(),
            0 <= i <= dks0.len(),
            forall|j: int| i <= j < dks0.len() ==> dks@[j] == dks0[j],
            ({
                let jn = merge_children(kv0, dv0.take(i as int), vis_old, vis_new, u0);
                &&& children_view(nks@) == jn.children
                &&& children_view(dks@.take(i as int)) == jn.diff_children
                &&& update@ == jn.update
            }),
            merge_children(kv0, dv0, vis_old, vis_new, u0).ok,
            dks0 == old(dks)@,
        decreases dks0.len() - i,
    {
        let ghost before = dks@;
        let ghost nbefore = nks@;
        proof {
            lemma_children_view(dks0);
            lemma_children_view(nks@);
            assert(dv0.take(i + 1).subrange(0, i as int) =~= dv0.take(i as int));
            assert(dv0.take(i + 1).last() == dv0[i as int]);
            lemma_merge_children_prefix(kv0, dv0, vis_old, vis_new, u0, i + 1);
            assert(decreases_to!(*old(dks) => dks0[i as int].1));
        }
        let k = dks[i].0.clone();
        let (pos, found) = locate(nks, &k);
        if found {
            proof {
                crate::order::lemma_lower_bound(string_keys(nks@), k@);
            }
            let child_update = merge_into(&mut nks[pos].1, &mut dks[i].1, vis_old, vis_new);
            proof {
                assert(nks@ == nbefore.update(pos as int, (nbefore[pos as int].0, nks@[pos as int].1)));
                lemma_children_view_update(nbefore, pos as int, nks@[pos as int].1);
            }
            update.add_child(&k, child_update);
        } else {
            proof {
                crate::order::lemma_lower_bound(string_keys(nks@), k@);
            }
            let mut fresh = Node::default();
            let child_update = merge_into(&mut fresh, &mut dks[i].1, vis_old, vis_new);
            let keep = child_update.is_some();
            update.add_child(&k, child_update);
            if keep {
                nks.insert(pos, (k, fresh));
                proof {
                    lemma_children_view_insert(nbefore, pos as int, k, fresh);
                }
            }
        }
        proof {
            assert(dks@ == before.update(i as int, (before[i as int].0, dks@[i as int].1)));
            assert(dks@.take(i as int) =~= before.take(i as int));
            lemma_children_view_step(dks@, i as int);
        }
        i = i + 1;
    }
    proof {
        assert(dv0.take(i as int) =~= dv0);
        assert(dks@.take(i as int) =~= dks@);
    }
}

/// Merges `diff` into `node` and returns the update to report.
fn merge_into(node: &mut Node, diff: &mut Node, vis_old: Vis, vis_new: Vis) -> (r: Option<Update>)
    requires
        merged(old(node)@, old(diff)@, vis_old, vis_new).ok,
    ensures
        ({
            let m = merged(old(node)@, old(diff)@, vis_old, vis_new);
            &&& final(node)@ == m.node
            &&& final(diff)@ == m.diff
            &&& opt_update_view(r) == m.update
        }),
    decreases *old(diff),
{
    let (mut update, prop, vo, vn) = merge_here(node, diff, vis_old, vis_new);

    // Propagate uncloaks / deletes
    if let Some(mut q) = prop {
        if node.keys.is_some() {
            let mut ks = node.keys.take().unwrap();
            hand_down_exec(&mut ks, &mut q, vo, vn, &mut update);
            node.keys = Some(ks);
        }
    }

    // Merge keys
    if diff.keys.is_some() {
        let mut dks = diff.keys.take().unwrap();
        proof {
            assert(decreases_to!(*old(diff) => dks));
        }
        let mut nks = match node.keys.take() {
            Some(ks) => ks,
            None => Vec::new(),
        };
        proof {
            assert(children_view(Seq::<(String, Node)>::empty()) =~= Seq::<(Seq<char>, NodeV)>::empty());
        }
        merge_children_exec(&mut nks, &mut dks, vo, vn, &mut update);
        node.keys = Some(nks);
        diff.keys = Some(dks);
    }

    if update.is_noop() {
        None
    } else {
        Some(update)
    }
}

/// Data meant for a zone that a node was delegated to.
pub struct External {
    path: Path,
    p_min_updated: u64,
    p_max_deleted: u64,
    node: Node,
}

/// A node together with the effective visibility of its ancestors.
pub struct NodeTree {
    pub node: Node,
    pub vis: Vis,
}

/// Result of a read: the update to report, and whether the read completes
/// (it stops on a node whose delegation marker is odd).
pub struct Read {
    pub update: Option<UpdateV>,
    pub ok: bool,
}

pub struct ReadAll {
    pub update: UpdateV,
    pub ok: bool,
}

/// Reads every child in `ks`, in order, at depth `depth` of `path`.
pub open spec fn read_all(
    ks: Seq<(Seq<char>, NodeV)>,
    vis: Vis,
    path: Seq<Seq<char>>,
    depth: int,
    u: UpdateV,
) -> ReadAll
    decreases ks,
{
    if ks.len() == 0 {
        ReadAll { update: u, ok: true }
    } else {
        let init = ks.subrange(0, ks.len() - 1);
        let prev = read_all(init, vis, path, depth, u);
        let r = read_node(ks.last().1, vis, path, depth);
        ReadAll { update: with_child(prev.update, ks.last().0, r.update), ok: prev.ok && r.ok }
    }
}

/// Reads the user-visible data of `node` at `path`, `node` standing at
/// depth `depth` of `path` under ancestors of effective visibility `vis`.
pub open spec fn read_node(node: NodeV, vis: Vis, path: Seq<Seq<char>>, depth: int) -> Read
    decreases node,
{
    let v = vis.descended(node.vis);
    let (u, ok) = if depth >= path.len() {
        // Get value at this node
        (
            if v.visible() {
                UpdateV { visible: Some(true), new: Some(node.value), ..no_update() }
            } else {
                no_update()
            },
            true,
        )
    } else {
        match node.keys {
            None => (no_update(), true),
            Some(ks) => {
                let part = path[depth];
                if part == wildcard() {
                    // Match all
                    let r = read_all(ks, v, path, depth + 1, no_update());
                    (r.update, r.ok)
                } else {
                    // Match one
                    let i = lower_bound(keys_of(ks), part) as int;
                    if found_at(keys_of(ks), part) && i < ks.len() {
                        let r = read_node(ks[i].1, v, path, depth + 1);
                        (with_child(no_update(), part, r.update), r.ok)
                    } else {
                        (no_update(), true)
                    }
                }
            },
        }
    };
    Read { update: reported(u), ok: ok && node.delegated % 2 == 0 }
}

proof fn lemma_read_all_prefix(
    ks: Seq<(Seq<char>, NodeV)>,
    vis: Vis,
    path: Seq<Seq<char>>,
    depth: int,
    u: UpdateV,
    i: int,
)
    requires
        0 <= i <= ks.len(),
        read_all(ks, vis, path, depth, u).ok,
    ensures
        read_all(ks.take(i), vis, path, depth, u).ok,
    decreases ks.len(),
{
    if i < ks.len() {
        let init = ks.subrange(0, ks.len() - 1);
        lemma_read_all_prefix(init, vis, path, depth, u, i);
        assert(init.take(i) =~= ks.take(i));
    } else {
        assert(ks.take(i) =~= ks);
    }
}

fn read_all_exec(
    ks: &Vec<(String, Node)>,
    vis: Vis,
    path: &Path,
    depth: usize,
    update: &mut Update,
)
    requires
        depth <= path@.len(),
        read_all(children_view(ks@), vis, path@, depth as int, old(update)@).ok,
    ensures
        final(update)@ == read_all(children_view(ks@), vis, path@, depth as int, old(update)@).update,
    decreases ks,
{
    let ghost cv = children_view(ks@);
    let ghost u0 = update@;
    proof {
        lemma_children_view(ks@);
        assert(cv.take(0) =~= Seq::<(Seq<char>, NodeV)>::empty());
    }
    let mut i: usize = 0;
    while i < ks.len()
        invariant
            cv == children_view(ks@),
            cv.len() == ks@.len(),
            0 <= i <= ks@.len(),
            depth <= path@.len(),
            update@ == read_all(cv.take(i as int), vis, path@, depth as int, u0).update,
            read_all(cv, vis, path@, depth as int, u0).ok,
        decreases ks@.len() - i,
    {
        proof {
            lemma_children_view(ks@);
            assert(cv.take(i + 1).subrange(0, i as int) =~= cv.take(i as int));
            assert(cv.take(i + 1).last() == cv[i as int]);
            lemma_read_all_prefix(cv, vis, path@, depth as int, u0, i + 1);
            assert(decreases_to!(ks => ks@[i as int].1));
        }
        let child_update = read_at(&ks[i].1, vis, path, depth);
        update.add_child(&ks[i].0, child_update);
        i = i + 1;
    }
    proof {
        assert(cv.take(i as int) =~= cv);
    }
}

/// Internal read implementation; `depth` tracks depth of recursion.
fn read_at(node: &Node, vis: Vis, path: &Path, depth: usize) -> (r: Option<Update>)
    requires
        depth <= path@.len(),
        read_node(node@, vis, path@, depth as int).ok,
    ensures
        opt_update_view(r) == read_node(node@, vis, path@, depth as int).update,
    decreases node,
{
    // Effective visibility of this node
    let mut vis = vis;
    vis.descend(&node.vis);

    let mut update = Update::default();

    if depth >= path.len() {
        // Get value at this node
        if vis.is_visible() {
            update.visible = Some(vis.is_visible());
            update.new = Some(node.value.copy());
        }
    } else {
        // Match / get child values
        let part = &path.path[depth];
        match &node.keys {
            Some(node_keys) => {
                proof {
                    lemma_children_view(node_keys@);
                    assert(path@[depth as int] == part@);
                }
                if is_wildcard(part) {
                    // Match all
                    read_all_exec(node_keys, vis, path, depth + 1, &mut update);
                } else {
                    // Match one
                    let (pos, found) = locate(node_keys, part);
                    if found {
                        proof {
                            assert(decreases_to!(node => node_keys@[pos as int].1));
                        }
                        let child_update = read_at(&node_keys[pos].1, vis, path, depth + 1);
                        update.add_child(part, child_update);
                    }
                }
            },
            None => {},
        }
    }

    if update.is_noop() {
        None
    } else {
        Some(update)
    }
}

/// Node built from a JSON document: arrays and objects become children
/// (array items keyed by their decimal index), other values become the value.
pub open spec fn expanded(data: JsonV, timestamp: u64) -> NodeV
    decreases data,
{
    match data {
        JsonV::Array(a) => NodeV {
            vis: Vis { updated: timestamp, deleted: 0 },
            value: Leaf::Null,
            keys: Some(expanded_items(a, timestamp)),
            delegated: 0,
        },
        JsonV::Object(o) => NodeV {
            vis: Vis { updated: timestamp, deleted: 0 },
            value: Leaf::Null,
            keys: Some(expanded_members(o, timestamp)),
            delegated: 0,
        },
        JsonV::Scalar(v) => NodeV {
            vis: Vis { updated: timestamp, deleted: 0 },
            value: v,
            keys: None,
            delegated: 0,
        },
    }
}

/// Children of an expanded array: item `i` keyed by `i` in decimal.
pub open spec fn expanded_items(a: Seq<JsonV>, timestamp: u64) -> Seq<(Seq<char>, NodeV)>
    decreases a,
{
    if a.len() == 0 {
        Seq::empty()
    } else {
        let init = a.subrange(0, a.len() - 1);
        inserted(
            expanded_items(init, timestamp),
            digits((a.len() - 1) as nat, 10),
            expanded(a.last(), timestamp),
        )
    }
}

/// Children of an expanded object, inserted member by member.
pub open spec fn expanded_members(o: Seq<(Seq<char>, JsonV)>, timestamp: u64) -> Seq<
    (Seq<char>, NodeV),
>
    decreases o,
{
    if o.len() == 0 {
        Seq::empty()
    } else {
        let init = o.subrange(0, o.len() - 1);
        inserted(expanded_members(init, timestamp), o.last().0, expanded(o.last().1, timestamp))
    }
}

/// Node holding `data` at `path` below it; the nodes along the path carry no
/// timestamps.
pub open spec fn expanded_from(path: Seq<Seq<char>>, data: JsonV, timestamp: u64) -> NodeV
    decreases path.len(),
{
    if path.len() == 0 {
        expanded(data, timestamp)
    } else {
        NodeV {
            keys: Some(seq![(path[0], expanded_from(path.drop_first(), data, timestamp))]),
            ..empty_node()
        }
    }
}

pub open spec fn node_is_noop(n: NodeV) -> bool {
    n.vis.updated == 0 && n.vis.deleted == 0 && n.value is Null && n.keys is None
}

impl Node {
    pub fn expand(data: &Json, timestamp: u64) -> (r: Node)
        ensures
            r@ == expanded(data@, timestamp),
            wf(r@),
        decreases data,
    {
        proof {
            crate::node_laws::law_expand_wf(Seq::empty(), data@, timestamp);
        }
        match data {
            Json::Array(arr) => {
                let mut keys: Vec<(String, Node)> = Vec::new();
                let ghost items = items_view(arr@);
                proof {
                    lemma_items_view(arr@);
                    assert(items.take(0) =~= Seq::<JsonV>::empty());
                    assert(children_view(keys@) =~= Seq::<(Seq<char>, NodeV)>::empty());
                }
                let mut i: usize = 0;
                while i < arr.len()
                    invariant
                        *data == Json::Array(*arr),
                        items == items_view(arr@),
                        items.len() == arr@.len(),
                        0 <= i <= arr@.len(),
                        children_view(keys@) == expanded_items(items.take(i as int), timestamp),
                    decreases arr@.len() - i,
                {
                    proof {
                        lemma_items_view(arr@);
                        assert(items.take(i + 1).subrange(0, i as int) =~= items.take(i as int));
                        assert(items.take(i + 1).last() == items[i as int]);
                        assert(decreases_to!(data => data->Array_0));
                        assert(decreases_to!(arr => arr@[i as int]));
                    }
                    let child = Node::expand(&arr[i], timestamp);
                    let k = format_number(i as u64, 10);
                    let ghost before = keys@;
                    insert_entry(&mut keys, k, child);
                    proof {
                        lemma_children_view_inserted(before, k, child);
                    }
                    i = i + 1;
                }
                proof {
                    assert(items.take(i as int) =~= items);
                }
                Node {
                    vis: Vis { updated: timestamp, deleted: 0 },
                    value: Leaf::Null,
                    keys: Some(keys),
                    delegated: 0,
                }
            },
            Json::Object(obj) => {
                let mut keys: Vec<(String, Node)> = Vec::new();
                let ghost members = members_view(obj@);
                proof {
                    lemma_members_view(obj@);
                    assert(members.take(0) =~= Seq::<(Seq<char>, JsonV)>::empty());
                    assert(children_view(keys@) =~= Seq::<(Seq<char>, NodeV)>::empty());
                }
                let mut i: usize = 0;
                while i < obj.len()
                    invariant
                        *data == Json::Object(*obj),
                        members == members_view(obj@),
                        members.len() == obj@.len(),
                        0 <= i <= obj@.len(),
                        children_view(keys@) == expanded_members(members.take(i as int), timestamp),
                    decreases obj@.len() - i,
                {
                    proof {
                        lemma_members_view(obj@);
                        assert(members.take(i + 1).subrange(0, i as int) =~= members.take(i as int));
                        assert(members.take(i + 1).last() == members[i as int]);
                        assert(decreases_to!(data => data->Object_0));
                        assert(decreases_to!(obj => obj@[i as int].1));
                    }
                    let child = Node::expand(&obj[i].1, timestamp);
                    let k = obj[i].0.clone();
                    let ghost before = keys@;
                    insert_entry(&mut keys, k, child);
                    proof {
                        lemma_children_view_inserted(before, k, child);
                    }
                    i = i + 1;
                }
                proof {
                    assert(members.take(i as int) =~= members);
                }
                Node {
                    vis: Vis { updated: timestamp, deleted: 0 },
                    value: Leaf::Null,
                    keys: Some(keys),
                    delegated: 0,
                }
            },
            Json::Scalar(v) => Node {
                vis: Vis { updated: timestamp, deleted: 0 },
                value: v.copy(),
                keys: None,
                delegated: 0,
            },
        }
    }

    pub fn expand_from(path: &[String], data: &Json, timestamp: u64) -> (r: Node)
        ensures
            r@ == expanded_from(path@.map_values(|s: String| s@), data@, timestamp),
            wf(r@),
    {
        proof {
            crate::node_laws::law_expand_wf(path@.map_values(|s: String| s@), data@, timestamp);
        }
        let r = expand_from_at(path, 0, data, timestamp);
        assert(path@.map_values(|s: String| s@).skip(0) =~= path@.map_values(|s: String| s@));
        r
    }

    pub fn is_noop(&self) -> (r: bool)
        ensures
            r == node_is_noop(self@),
    {
        self.vis.is_noop() && self.value.is_null() && self.keys.is_none()
    }

    /// Unified merge function - merges `diff` into `self` and returns changes.
    ///
    /// Returns user-visible updates based on parent's visibility, also returns
    /// list of external zones with updated data.
    ///
    /// * `diff` - Set of changes to be applied. Modified to retain only actual changes.
    /// * `vis_old` - The previous `Vis` timestamps of ancestor nodes.
    /// * `vis_new` - The next `Vis` timestamps of ancestor nodes.
    pub fn merge(&mut self, diff: &mut Node, vis_old: Vis, vis_new: Vis) -> (r: (
        Option<Update>,
        Vec<External>,
    ))
        requires
            merged(old(self)@, old(diff)@, vis_old, vis_new).ok,
        ensures
            ({
                let m = merged(old(self)@, old(diff)@, vis_old, vis_new);
                &&& final(self)@ == m.node
                &&& final(diff)@ == m.diff
                &&& opt_update_view(r.0) == m.update
                &&& r.1@.len() == 0
            }),
            wf(old(self)@) && wf(old(diff)@) ==> wf(final(self)@),
    {
        proof {
            if wf(self@) && wf(diff@) {
                crate::node_laws::law_merge_keeps_wf(self@, diff@, vis_old, vis_new);
            }
        }
        let externals: Vec<External> = Vec::new();
        let update = merge_into(self, diff, vis_old, vis_new);
        (update, externals)
    }

    /// Read data from node
    ///
    /// Returns user-visible data at `path`.
    pub fn read(&self, vis: Vis, path: &Path) -> (r: (Option<Update>, Vec<External>))
        requires
            read_node(self@, vis, path@, 0).ok,
        ensures
            opt_update_view(r.0) == read_node(self@, vis, path@, 0).update,
            r.1@.len() == 0,
    {
        let externals: Vec<External> = Vec::new();
        let update = read_at(self, vis, path, 0);
        (update, externals)
    }
}

fn expand_from_at(path: &[String], i: usize, data: &Json, timestamp: u64) -> (r: Node)
    requires
        i <= path@.len(),
    ensures
        r@ == expanded_from(path@.map_values(|s: String| s@).skip(i as int), data@, timestamp),
    decreases path@.len() - i,
{
    let ghost comps = path@.map_values(|s: String| s@);
    if i >= path.len() {
        proof {
            assert(comps.skip(i as int).len() == 0);
        }
        Node::expand(data, timestamp)
    } else {
        let child = expand_from_at(path, i + 1, data, timestamp);
        let mut keys: Vec<(String, Node)> = Vec::new();
        let k = path[i].clone();
        keys.push((k, child));
        proof {
            assert(comps.skip(i as int).drop_first() =~= comps.skip(i + 1));
            assert(comps.skip(i as int)[0] == path@[i as int]@);
            lemma_children_view(keys@);
            assert(children_view(keys@) =~= seq![(k@, node_view(child))]);
        }
        Node { vis: Vis { updated: 0, deleted: 0 }, value: Leaf::Null, keys: Some(keys), delegated: 0 }
    }
}

/// JSON form of an update: `[new value or null, {key: child update} or null]`.
pub open spec fn update_json(u: UpdateV) -> JsonV
    decreases u,
{
    JsonV::Array(
        seq![
            JsonV::Scalar(
                match u.new {
                    Some(v) => v,
                    None => Leaf::Null,
                },
            ),
            match u.keys {
                None => JsonV::Scalar(Leaf::Null),
                Some(ks) => JsonV::Object(update_members_json(ks)),
            },
        ],
    )
}

pub open spec fn update_members_json(ks: Seq<(Seq<char>, UpdateV)>) -> Seq<(Seq<char>, JsonV)>
    decreases ks,
{
    if ks.len() == 0 {
        Seq::empty()
    } else {
        let init = ks.subrange(0, ks.len() - 1);
        update_members_json(init).push((ks.last().0, update_json(ks.last().1)))
    }
}

impl Update {
    pub fn to_json(&self) -> (r: Json)
        ensures
            r@ == update_json(self@),
        decreases self,
    {
        let value = match &self.new {
            Some(v) => v.copy(),
            None => Leaf::Null,
        };
        let keys = match &self.keys {
            None => Json::Scalar(Leaf::Null),
            Some(keys) => {
                let ghost uv = updates_view(keys@);
                proof {
                    lemma_updates_view(keys@);
                    assert(uv.take(0) =~= Seq::<(Seq<char>, UpdateV)>::empty());
                }
                let mut members: Vec<(String, Json)> = Vec::new();
                let mut i: usize = 0;
                while i < keys.len()
                    invariant
                        self.keys == Some(*keys),
                        uv == updates_view(keys@),
                        uv.len() == keys@.len(),
                        0 <= i <= keys@.len(),
                        members_view(members@) == update_members_json(uv.take(i as int)),
                    decreases keys@.len() - i,
                {
                    proof {
                        lemma_updates_view(keys@);
                        assert(uv.take(i + 1).subrange(0, i as int) =~= uv.take(i as int));
                        assert(uv.take(i + 1).last() == uv[i as int]);
                        assert(decreases_to!(self => self.keys->0));
                        assert(decreases_to!(keys => keys@[i as int].1));
                    }
                    let child = keys[i].1.to_json();
                    let ghost before = members@;
                    members.push((keys[i].0.clone(), child));
                    proof {
                        assert(members@.subrange(0, members@.len() - 1) =~= before);
                    }
                    i = i + 1;
                }
                proof {
                    assert(uv.take(i as int) =~= uv);
                    assert(self@.keys == Some(uv));
                }
                Json::Object(members)
            },
        };
        assert(json_view(keys) == match self@.keys {
            None => JsonV::Scalar(Leaf::Null),
            Some(ks) => JsonV::Object(update_members_json(ks)),
        });
        let mut items: Vec<Json> = Vec::new();
        items.push(Json::Scalar(value));
        items.push(keys);
        proof {
            assert(items@.subrange(0, 1).subrange(0, 0) =~= Seq::<Json>::empty());
            assert(items@.subrange(0, items@.len() - 1) =~= seq![Json::Scalar(value)]);
            lemma_items_view(items@);
            assert(items_view(items@) =~= seq![JsonV::Scalar(value), json_view(keys)]);
            assert(value == match self@.new {
                Some(v) => v,
                None => Leaf::Null,
            });
            assert(json_view(Json::Array(items)) == JsonV::Array(items_view(items@)));
            lemma_update_json_unfold(self@);
            assert(items_view(items@) =~= update_json(self@)->Array_0);
        }
        Json::Array(items)
    }
}

proof fn lemma_update_json_unfold(u: UpdateV)
    ensures
        update_json(u) == JsonV::Array(
            seq![
                JsonV::Scalar(
                    match u.new {
                        Some(v) => v,
                        None => Leaf::Null,
                    },
                ),
                match u.keys {
                    None => JsonV::Scalar(Leaf::Null),
                    Some(ks) => JsonV::Object(update_members_json(ks)),
                },
            ],
        ),
{
    let a = update_json(u);
    assert(a is Array);
    let items = a->Array_0;
    assert(items.len() == 2);
    assert(items[0] == JsonV::Scalar(
        match u.new {
            Some(v) => v,
            None => Leaf::Null,
        },
    ));
    assert(items[1] == match u.keys {
        None => JsonV::Scalar(Leaf::Null),
        Some(ks) => JsonV::Object(update_members_json(ks)),
    });
    assert(items =~= seq![
        JsonV::Scalar(
            match u.new {
                Some(v) => v,
                None => Leaf::Null,
            },
        ),
        match u.keys {
            None => JsonV::Scalar(Leaf::Null),
            Some(ks) => JsonV::Object(update_members_json(ks)),
        },
    ]);
}

/// Merging visibilities is a join: it is commutative, associative and
/// idempotent, and it only moves timestamps forward.
pub proof fn law_vis_merge_is_join(a: Vis, b: Vis, c: Vis)
    ensures
        a.joined(b) == b.joined(a),
        a.joined(b).joined(c) == a.joined(b.joined(c)),
        a.joined(a) == a,
        a.joined(b).updated >= a.updated && a.joined(b).deleted >= a.deleted,
{
}

/// Descending keeps the oldest update and the newest deletion: it is
/// commutative, associative and idempotent, and a node is visible only if
/// both its ancestors and the node itself are.
pub proof fn law_vis_descend(a: Vis, b: Vis, c: Vis)
    ensures
        a.descended(b) == b.descended(a),
        a.descended(b).descended(c) == a.descended(b.descended(c)),
        a.descended(a) == a,
        a.descended(b).visible() ==> a.visible() && b.visible(),
{
}

/// Well formed: at every level, children are kept in key order.
pub open spec fn wf(n: NodeV) -> bool
    decreases n,
{
    match n.keys {
        None => true,
        Some(ks) => crate::order::sorted_keys(keys_of(ks)) && wf_children(ks),
    }
}

pub open spec fn wf_children(ks: Seq<(Seq<char>, NodeV)>) -> bool
    decreases ks,
{
    if ks.len() == 0 {
        true
    } else {
        wf_children(ks.subrange(0, ks.len() - 1)) && wf(ks.last().1)
    }
}

pub proof fn lemma_wf_children(ks: Seq<(Seq<char>, NodeV)>)
    ensures
        wf_children(ks) <==> forall|i: int| 0 <= i < ks.len() ==> #[trigger] wf(ks[i].1),
    decreases ks.len(),
{
    if ks.len() > 0 {
        let init = ks.subrange(0, ks.len() - 1);
        lemma_wf_children(init);
        if wf_children(ks) {
            assert forall|i: int| 0 <= i < ks.len() implies #[trigger] wf(ks[i].1) by {
                if i < ks.len() - 1 {
                    assert(init[i] == ks[i]);
                }
            }
        }
        if forall|i: int| 0 <= i < ks.len() ==> #[trigger] wf(ks[i].1) {
            assert forall|i: int| 0 <= i < init.len() implies #[trigger] wf(init[i].1) by {
                assert(init[i] == ks[i]);
            }
            assert(wf(ks[ks.len() - 1].1));
        }
    }
}

/// No delegation marker in the tree is odd: no part of it has been handed
/// over to another zone.
pub open spec fn even_marks(n: NodeV) -> bool
    decreases n,
{
    n.delegated % 2 == 0 && match n.keys {
        None => true,
        Some(ks) => even_children(ks),
    }
}

pub open spec fn even_children(ks: Seq<(Seq<char>, NodeV)>) -> bool
    decreases ks,
{
    if ks.len() == 0 {
        true
    } else {
        even_children(ks.subrange(0, ks.len() - 1)) && even_marks(ks.last().1)
    }
}

pub proof fn lemma_even_children(ks: Seq<(Seq<char>, NodeV)>)
    ensures
        even_children(ks) <==> forall|i: int| 0 <= i < ks.len() ==> #[trigger] even_marks(ks[i].1),
    decreases ks.len(),
{
    if ks.len() > 0 {
        let init = ks.subrange(0, ks.len() - 1);
        lemma_even_children(init);
        if even_children(ks) {
            assert forall|i: int| 0 <= i < ks.len() implies #[trigger] even_marks(ks[i].1) by {
                if i < ks.len() - 1 {
                    assert(init[i] == ks[i]);
                }
            }
        }
        if forall|i: int| 0 <= i < ks.len() ==> #[trigger] even_marks(ks[i].1) {
            assert forall|i: int| 0 <= i < init.len() implies #[trigger] even_marks(init[i].1) by {
                assert(init[i] == ks[i]);
            }
            assert(even_marks(ks[ks.len() - 1].1));
        }
    }
}

impl Node {
    /// Whether every delegation marker in the tree is even.
    pub fn marks_even(&self) -> (r: bool)
        ensures
            r == even_marks(self@),
        decreases self,
    {
        if self.delegated % 2 != 0 {
            return false;
        }
        match &self.keys {
            None => true,
            Some(ks) => {
                let ghost cv = children_view(ks@);
                proof {
                    lemma_children_view(ks@);
                    lemma_even_children(cv);
                }
                let mut i: usize = 0;
                while i < ks.len()
                    invariant
                        self.keys == Some(*ks),
                        cv == children_view(ks@),
                        cv.len() == ks@.len(),
                        0 <= i <= ks@.len(),
                        forall|j: int| 0 <= j < i ==> #[trigger] even_marks(cv[j].1),
                    decreases ks@.len() - i,
                {
                    proof {
                        lemma_children_view(ks@);
                        assert(decreases_to!(self => self.keys->0));
                        assert(decreases_to!(ks => ks@[i as int].1));
                    }
                    if !ks[i].1.marks_even() {
                        proof {
                            lemma_even_children(cv);
                            assert(!even_marks(cv[i as int].1));
                        }
                        return false;
                    }
                    i = i + 1;
                }
                proof {
                    lemma_even_children(cv);
                }
                true
            },
        }
    }
}

/// `n` placed below `path`: the nodes along the path carry nothing else.
pub open spec fn prepended(path: Seq<Seq<char>>, n: NodeV) -> NodeV
    decreases path.len(),
{
    if path.len() == 0 {
        n
    } else {
        NodeV { keys: Some(seq![(path[0], prepended(path.drop_first(), n))]), ..empty_node() }
    }
}

impl Node {
    /// Places this node below `path`, as a diff that reaches it from the root.
    pub fn prepend_path(self, path: &[String]) -> (r: Node)
        ensures
            r@ == prepended(path@.map_values(|s: String| s@), self@),
            wf(self@) ==> wf(r@),
    {
        proof {
            if wf(self@) {
                crate::node_laws::lemma_prepended_wf(path@.map_values(|s: String| s@), self@);
            }
        }
        let ghost comps = path@.map_values(|s: String| s@);
        let ghost inner = self@;
        let mut node = self;
        let mut i: usize = path.len();
        proof {
            assert(comps.skip(i as int).len() == 0);
        }
        while i > 0
            invariant
                comps == path@.map_values(|s: String| s@),
                0 <= i <= path@.len(),
                node@ == prepended(comps.skip(i as int), inner),
            decreases i,
        {
            i = i - 1;
            let mut keys: Vec<(String, Node)> = Vec::new();
            let k = path[i].clone();
            let ghost below = node;
            keys.push((k, node));
            proof {
                assert(comps.skip(i as int).drop_first() =~= comps.skip(i + 1));
                assert(comps.skip(i as int)[0] == path@[i as int]@);
                lemma_children_view(keys@);
                assert(children_view(keys@) =~= seq![(k@, node_view(below))]);
            }
            node = Node {
                vis: Vis { updated: 0, deleted: 0 },
                value: Leaf::Null,
                keys: Some(keys),
                delegated: 0,
            };
        }
        proof {
            assert(comps.skip(0) =~= comps);
        }
        node
    }
}

impl Node {
    /// Returns an equal copy of this node and all its descendants.
    pub fn copy(&self) -> (r: Node)
        ensures
            r@ == self@,
        decreases self,
    {
        let keys = match &self.keys {
            None => None,
            Some(ks) => {
                let ghost cv = children_view(ks@);
                proof {
                    lemma_children_view(ks@);
                    assert(children_view(Seq::<(String, Node)>::empty()) =~= cv.take(0));
                }
                let mut out: Vec<(String, Node)> = Vec::new();
                let mut i: usize = 0;
                while i < ks.len()
                    invariant
                        self.keys == Some(*ks),
                        cv == children_view(ks@),
                        cv.len() == ks@.len(),
                        0 <= i <= ks@.len(),
                        children_view(out@) == cv.take(i as int),
                    decreases ks@.len() - i,
                {
                    proof {
                        lemma_children_view(ks@);
                        assert(decreases_to!(self => self.keys->0));
                        assert(decreases_to!(ks => ks@[i as int].1));
                    }
                    let child = ks[i].1.copy();
                    let ghost before = out@;
                    out.push((ks[i].0.clone(), child));
                    proof {
                        assert(out@.subrange(0, out@.len() - 1) =~= before);
                        assert(cv.take(i + 1) =~= cv.take(i as int).push(cv[i as int]));
                    }
                    i = i + 1;
                }
                proof {
                    assert(cv.take(i as int) =~= cv);
                }
                Some(out)
            },
        };
        Node { vis: self.vis, value: self.value.copy(), keys: keys, delegated: self.delegated }
    }
}

/// What listeners that stood under `diff` (data handed to this zone) must
/// be told to catch up with `tree`, the zone's own data: the update of
/// merging the tree into the diff, ancestors standing at `vis`. Neither
/// node changes.
pub fn backport(tree: &Node, vis: Vis, diff: &Node) -> (r: Option<Update>)
    requires
        merged(diff@, tree@, vis, vis).ok,
    ensures
        opt_update_view(r) == merged(diff@, tree@, vis, vis).update,
{
    let mut into = diff.copy();
    let mut from = tree.copy();
    let (update, _externals) = into.merge(&mut from, vis, vis);
    update
}

/// The part of `u` that a listener bound at `path` is told of, the first
/// `depth` components of the path being matched already: below the end of
/// the path, or below `**`, everything; along the path, only the children
/// that the component names (`*` names all), without the changes of the
/// nodes on the way. `None` when nothing is left.
pub open spec fn filtered(u: UpdateV, path: Seq<Seq<char>>, depth: int) -> Option<UpdateV>
    decreases u,
{
    if depth >= path.len() || path[depth] == recursive_wildcard() {
        Some(u)
    } else {
        match u.keys {
            None => None,
            Some(ks) => {
                let kept = filter_children(ks, path, depth);
                if kept.len() == 0 {
                    None
                } else {
                    Some(UpdateV { keys: Some(kept), ..no_update() })
                }
            },
        }
    }
}

/// The children of an update that a listener bound at `path` is told of,
/// at depth `depth`.
pub open spec fn filter_children(
    ks: Seq<(Seq<char>, UpdateV)>,
    path: Seq<Seq<char>>,
    depth: int,
) -> Seq<(Seq<char>, UpdateV)>
    decreases ks,
{
    if ks.len() == 0 {
        Seq::empty()
    } else {
        let prev = filter_children(ks.subrange(0, ks.len() - 1), path, depth);
        let k = ks.last().0;
        if path[depth] == wildcard() || k == path[depth] {
            match filtered(ks.last().1, path, depth + 1) {
                Some(f) => prev.push((k, f)),
                None => prev,
            }
        } else {
            prev
        }
    }
}

fn copy_leaf(v: &Option<Leaf>) -> (r: Option<Leaf>)
    ensures
        r == *v,
{
    match v {
        Some(l) => Some(l.copy()),
        None => None,
    }
}

impl Update {
    /// Returns an equal copy of this update and all its children.
    pub fn copy(&self) -> (r: Update)
        ensures
            r@ == self@,
        decreases self,
    {
        let keys = match &self.keys {
            None => None,
            Some(ks) => {
                let ghost uv = updates_view(ks@);
                proof {
                    lemma_updates_view(ks@);
                    assert(updates_view(Seq::<(String, Update)>::empty()) =~= uv.take(0));
                }
                let mut out: Vec<(String, Update)> = Vec::new();
                let mut i: usize = 0;
                while i < ks.len()
                    invariant
                        self.keys == Some(*ks),
                        uv == updates_view(ks@),
                        uv.len() == ks@.len(),
                        0 <= i <= ks@.len(),
                        updates_view(out@) == uv.take(i as int),
                    decreases ks@.len() - i,
                {
                    proof {
                        lemma_updates_view(ks@);
                        assert(decreases_to!(self => self.keys->0));
                        assert(decreases_to!(ks => ks@[i as int].1));
                    }
                    let child = ks[i].1.copy();
                    let ghost before = out@;
                    out.push((ks[i].0.clone(), child));
                    proof {
                        assert(out@.subrange(0, out@.len() - 1) =~= before);
                        assert(uv.take(i + 1) =~= uv.take(i as int).push(uv[i as int]));
                    }
                    i = i + 1;
                }
                proof {
                    assert(uv.take(i as int) =~= uv);
                }
                Some(out)
            },
        };
        Update {
            visible: self.visible,
            old: copy_leaf(&self.old),
            new: copy_leaf(&self.new),
            keys: keys,
        }
    }

    /// The part of this update that a listener bound at `path` is told of,
    /// if any.
    pub fn filter(&self, path: &Path) -> (r: Option<Update>)
        ensures
            opt_update_view(r) == filtered(self@, path@, 0),
    {
        filter_at(self, path, 0)
    }
}

fn filter_at(u: &Update, path: &Path, depth: usize) -> (r: Option<Update>)
    requires
        depth <= path@.len(),
    ensures
        opt_update_view(r) == filtered(u@, path@, depth as int),
    decreases u,
{
    if depth >= path.path.len() {
        return Some(u.copy());
    }
    let part = &path.path[depth];
    proof {
        assert(path@[depth as int] == part@);
    }
    if is_recursive_wildcard(part) {
        return Some(u.copy());
    }
    match &u.keys {
        None => None,
        Some(ks) => {
            let ghost uv = updates_view(ks@);
            proof {
                lemma_updates_view(ks@);
                assert(updates_view(Seq::<(String, Update)>::empty()) =~= Seq::<(Seq<char>, UpdateV)>::empty());
                assert(uv.take(0) =~= Seq::<(Seq<char>, UpdateV)>::empty());
            }
            let star = is_wildcard(part);
            let n: usize = path.path.len();
            let mut kept: Vec<(String, Update)> = Vec::new();
            let mut i: usize = 0;
            while i < ks.len()
                invariant
                    u.keys == Some(*ks),
                    uv == updates_view(ks@),
                    uv.len() == ks@.len(),
                    0 <= i <= ks@.len(),
                    depth < path@.len(),
                    depth < n,
                    n == path@.len(),
                    part@ == path@[depth as int],
                    star == (part@ == wildcard()),
                    updates_view(kept@) == filter_children(uv.take(i as int), path@, depth as int),
                decreases ks@.len() - i,
            {
                proof {
                    lemma_updates_view(ks@);
                    assert(uv.take(i + 1).subrange(0, i as int) =~= uv.take(i as int));
                    assert(uv.take(i + 1).last() == uv[i as int]);
                    assert(decreases_to!(u => u.keys->0));
                    assert(decreases_to!(ks => ks@[i as int].1));
                }
                if star || ks[i].0 == *part {
                    match filter_at(&ks[i].1, path, depth + 1) {
                        Some(f) => {
                            let ghost before = kept@;
                            kept.push((ks[i].0.clone(), f));
                            proof {
                                assert(kept@.subrange(0, kept@.len() - 1) =~= before);
                            }
                        },
                        None => {},
                    }
                }
                i = i + 1;
            }
            proof {
                assert(uv.take(i as int) =~= uv);
                assert(u@.keys == Some(uv));
            }
            if kept.len() == 0 {
                proof {
                    lemma_updates_view(kept@);
                }
                None
            } else {
                proof {
                    lemma_updates_view(kept@);
                }
                Some(Update { visible: None, old: None, new: None, keys: Some(kept) })
            }
        },
    }
}

} // verus!
