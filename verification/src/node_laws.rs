//! Laws of the node tree: what merging keeps and what re-merging changes.

use vstd::prelude::*;

use crate::node::{
    empty_node, prepended, even_children, even_marks, expanded, expanded_from, expanded_items,
    expanded_members, lemma_even_children, read_all, hand_down, lemma_wf_children, merge_children, merge_step,
    merged, no_update, propagated, read_node, wf, wf_children, Handed, NodeV, Read, UpdateV, Vis,
};
use crate::delegate::{delegated_at, lemma_max_at, max_at, partition, scan, trim};
use crate::path::wildcard;
use crate::value::JsonV;
use crate::value::Leaf;
use crate::order::{
    found_at, inserted, keys_of, lemma_inserted, lemma_key_order, lemma_lookup_inserted, lookup,
    lower_bound, sorted_keys,
};

verus! {

/// Visibility that is lost stays lost below.
proof fn lemma_invisible_descends(a: Vis, c: Vis)
    requires
        !a.visible(),
    ensures
        !a.descended(c).visible(),
{
}

/// Which ancestor visibility a merge starts from does not matter once the
/// node was invisible before the merge either way.
proof fn lemma_hand_down_old_invisible(
    ks: Seq<(Seq<char>, NodeV)>,
    p: NodeV,
    vo: Vis,
    vo2: Vis,
    vn: Vis,
    u: UpdateV,
)
    requires
        !vo.visible(),
        !vo2.visible(),
    ensures
        hand_down(ks, p, vo, vn, u) == hand_down(ks, p, vo2, vn, u),
    decreases ks,
{
    if ks.len() > 0 {
        let init = ks.subrange(0, ks.len() - 1);
        lemma_hand_down_old_invisible(init, p, vo, vo2, vn, u);
        let prev = hand_down(init, p, vo, vn, u);
        lemma_invisible_descends(vo, ks.last().1.vis);
        lemma_invisible_descends(vo2, ks.last().1.vis);
        lemma_propagated_old_invisible(ks.last().1, prev.diff, vo, vo2, vn);
    }
}

proof fn lemma_propagated_old_invisible(n: NodeV, p: NodeV, vo: Vis, vo2: Vis, vn: Vis)
    requires
        !vo.descended(n.vis).visible(),
        !vo2.descended(n.vis).visible(),
    ensures
        propagated(n, p, vo, vn) == propagated(n, p, vo2, vn),
    decreases n,
{
    let s = merge_step(n, p, vo, vn);
    let s2 = merge_step(n, p, vo2, vn);
    assert(s.update == s2.update);
    if s.propagate is Some && n.keys is Some {
        lemma_hand_down_old_invisible(
            n.keys->0,
            s.propagate->0,
            s.vis_old,
            s2.vis_old,
            s.vis_new,
            s.update,
        );
    }
}

proof fn lemma_merge_children_old_invisible(
    ks: Seq<(Seq<char>, NodeV)>,
    dks: Seq<(Seq<char>, NodeV)>,
    vo: Vis,
    vo2: Vis,
    vn: Vis,
    u: UpdateV,
)
    requires
        !vo.visible(),
        !vo2.visible(),
    ensures
        merge_children(ks, dks, vo, vn, u) == merge_children(ks, dks, vo2, vn, u),
    decreases dks,
{
    if dks.len() > 0 {
        let init = dks.subrange(0, dks.len() - 1);
        lemma_merge_children_old_invisible(ks, init, vo, vo2, vn, u);
        let prev = merge_children(ks, init, vo, vn, u);
        let k = dks.last().0;
        let i = lower_bound(keys_of(prev.children), k) as int;
        if found_at(keys_of(prev.children), k) {
            lemma_invisible_descends(vo, prev.children[i].1.vis);
            lemma_invisible_descends(vo2, prev.children[i].1.vis);
            lemma_merged_old_invisible(prev.children[i].1, dks.last().1, vo, vo2, vn);
        } else {
            lemma_merged_old_invisible(empty_node(), dks.last().1, vo, vo2, vn);
        }
    }
}

pub proof fn lemma_merged_old_invisible(n: NodeV, d: NodeV, vo: Vis, vo2: Vis, vn: Vis)
    requires
        !vo.descended(n.vis).visible(),
        !vo2.descended(n.vis).visible(),
    ensures
        merged(n, d, vo, vn) == merged(n, d, vo2, vn),
    decreases d,
{
    let s = merge_step(n, d, vo, vn);
    let s2 = merge_step(n, d, vo2, vn);
    assert(s.update == s2.update);
    if s.propagate is Some && n.keys is Some {
        lemma_hand_down_old_invisible(
            n.keys->0,
            s.propagate->0,
            s.vis_old,
            s2.vis_old,
            s.vis_new,
            s.update,
        );
    }
    let h = match (s.propagate, n.keys) {
        (Some(q), Some(ks)) => hand_down(ks, q, s.vis_old, s.vis_new, s.update),
        _ => Handed { children: Seq::empty(), diff: empty_node(), update: s.update, ok: true },
    };
    let keys = match (s.propagate, n.keys) {
        (Some(q), Some(ks)) => Some(h.children),
        _ => n.keys,
    };
    if d.keys is Some {
        let start = match keys {
            Some(c) => c,
            None => Seq::empty(),
        };
        lemma_merge_children_old_invisible(
            start,
            d.keys->0,
            s.vis_old,
            s2.vis_old,
            s.vis_new,
            h.update,
        );
    }
}

/// Handing a propagated diff down keeps the children's keys, and keeps every
/// child well formed.
proof fn lemma_hand_down_shape(
    ks: Seq<(Seq<char>, NodeV)>,
    p: NodeV,
    vo: Vis,
    vn: Vis,
    u: UpdateV,
)
    ensures
        keys_of(hand_down(ks, p, vo, vn, u).children) == keys_of(ks),
        wf_children(ks) ==> wf_children(hand_down(ks, p, vo, vn, u).children),
    decreases ks,
{
    if ks.len() > 0 {
        let init = ks.subrange(0, ks.len() - 1);
        lemma_hand_down_shape(init, p, vo, vn, u);
        let prev = hand_down(init, p, vo, vn, u);
        lemma_propagated_wf(ks.last().1, prev.diff, vo, vn);
        let h = hand_down(ks, p, vo, vn, u);
        assert(h.children.subrange(0, h.children.len() - 1) =~= prev.children);
        assert(h.children == prev.children.push((ks.last().0, propagated(ks.last().1, prev.diff, vo, vn).node)));
        assert(keys_of(prev.children) == keys_of(init));
        assert(prev.children.len() == keys_of(prev.children).len());
        assert(prev.children.len() == init.len());
        assert(h.children.len() == ks.len());
        assert forall|j: int| 0 <= j < ks.len() implies keys_of(h.children)[j] == keys_of(ks)[j] by {
            assert(keys_of(h.children)[j] == h.children[j].0);
            assert(keys_of(ks)[j] == ks[j].0);
            if j < ks.len() - 1 {
                assert(h.children[j] == prev.children[j]);
                assert(keys_of(prev.children)[j] == prev.children[j].0);
                assert(keys_of(init)[j] == init[j].0);
                assert(init[j] == ks[j]);
            }
        }
        assert(keys_of(h.children) =~= keys_of(ks));
        if wf_children(ks) {
            lemma_wf_children(ks);
            lemma_wf_children(init);
            assert forall|j: int| 0 <= j < init.len() implies #[trigger] wf(init[j].1) by {
                assert(init[j] == ks[j]);
            }
            assert(wf_children(h.children));
        }
    } else {
        assert(keys_of(hand_down(ks, p, vo, vn, u).children) =~= keys_of(ks));
    }
}

proof fn lemma_propagated_wf(n: NodeV, p: NodeV, vo: Vis, vn: Vis)
    ensures
        wf(n) ==> wf(propagated(n, p, vo, vn).node),
    decreases n,
{
    let s = merge_step(n, p, vo, vn);
    if s.propagate is Some && n.keys is Some {
        lemma_hand_down_shape(n.keys->0, s.propagate->0, s.vis_old, s.vis_new, s.update);
    }
}

/// The node a diff child is merged into: the listed child, or an empty node.
pub open spec fn base(s: Seq<(Seq<char>, NodeV)>, k: Seq<char>) -> NodeV {
    match lookup(s, k) {
        Some(n) => n,
        None => empty_node(),
    }
}

/// What merging the diff child `dc` under key `k` leaves listed under `k`.
pub open spec fn settled(
    s: Seq<(Seq<char>, NodeV)>,
    k: Seq<char>,
    dc: NodeV,
    vo: Vis,
    vn: Vis,
) -> Option<NodeV> {
    let r = merged(base(s, k), dc, vo, vn);
    if lookup(s, k) is Some || r.update is Some {
        Some(r.node)
    } else {
        None
    }
}

proof fn lemma_sorted_init(dks: Seq<(Seq<char>, NodeV)>)
    requires
        sorted_keys(keys_of(dks)),
        dks.len() > 0,
    ensures
        sorted_keys(keys_of(dks.subrange(0, dks.len() - 1))),
        !keys_of(dks.subrange(0, dks.len() - 1)).contains(dks.last().0),
{
    let init = dks.subrange(0, dks.len() - 1);
    assert(keys_of(init) =~= keys_of(dks).subrange(0, dks.len() - 1));
    if keys_of(init).contains(dks.last().0) {
        let x = choose|x: int| 0 <= x < keys_of(init).len() && keys_of(init)[x] == dks.last().0;
        assert(keys_of(dks)[x] == keys_of(dks)[dks.len() - 1]);
        lemma_key_order(dks.last().0, dks.last().0, dks.last().0);
    }
}

#[verifier::rlimit(60)]
/// Merging distinct diff children one by one works key by key: each key ends
/// up with what merging its diff child into its own child gives, and keys the
/// diff does not list keep their children.
proof fn lemma_first_pass(
    ks: Seq<(Seq<char>, NodeV)>,
    dks: Seq<(Seq<char>, NodeV)>,
    vo: Vis,
    vn: Vis,
    u: UpdateV,
)
    requires
        sorted_keys(keys_of(ks)),
        sorted_keys(keys_of(dks)),
        merge_children(ks, dks, vo, vn, u).ok,
    ensures
        sorted_keys(keys_of(merge_children(ks, dks, vo, vn, u).children)),
        forall|k: Seq<char>|
            !keys_of(dks).contains(k) ==> lookup(merge_children(ks, dks, vo, vn, u).children, k)
                == lookup(ks, k),
        forall|i: int|
            0 <= i < dks.len() ==> merged(base(ks, dks[i].0), dks[i].1, vo, vn).ok && lookup(
                merge_children(ks, dks, vo, vn, u).children,
                #[trigger] dks[i].0,
            ) == settled(ks, dks[i].0, dks[i].1, vo, vn),
    decreases dks.len(),
{
    if dks.len() > 0 {
        let init = dks.subrange(0, dks.len() - 1);
        lemma_sorted_init(dks);
        lemma_first_pass(ks, init, vo, vn, u);
        let prev = merge_children(ks, init, vo, vn, u);
        let c0 = prev.children;
        let k = dks.last().0;
        let dc = dks.last().1;
        assert(lookup(c0, k) == lookup(ks, k));
        let i = lower_bound(keys_of(c0), k) as int;
        let r = merged(base(ks, k), dc, vo, vn);
        let c = merge_children(ks, dks, vo, vn, u).children;
        if found_at(keys_of(c0), k) {
            assert(c0[i].1 == base(ks, k));
            assert(c == inserted(c0, k, r.node));
        } else {
            assert(base(ks, k) == empty_node());
            if r.update is Some {
                assert(c == inserted(c0, k, r.node));
            } else {
                assert(c == c0);
            }
        }
        lemma_inserted(c0, k, r.node);
        assert forall|j: Seq<char>| !keys_of(dks).contains(j) implies lookup(c, j) == lookup(
            ks,
            j,
        ) by {
            assert(keys_of(dks)[dks.len() - 1] == k);
            if keys_of(init).contains(j) {
                let x = choose|x: int| 0 <= x < keys_of(init).len() && keys_of(init)[x] == j;
                assert(keys_of(dks)[x] == j);
            }
            lemma_lookup_inserted(c0, k, r.node, j);
        }
        assert forall|x: int| 0 <= x < dks.len() implies merged(
            base(ks, dks[x].0),
            dks[x].1,
            vo,
            vn,
        ).ok && lookup(c, #[trigger] dks[x].0) == settled(ks, dks[x].0, dks[x].1, vo, vn) by {
            if x < dks.len() - 1 {
                assert(init[x] == dks[x]);
                assert(keys_of(init)[x] == dks[x].0);
                lemma_lookup_inserted(c0, k, r.node, dks[x].0);
            } else {
                lemma_lookup_inserted(c0, k, r.node, k);
            }
        }
    }
}

proof fn lemma_base_wf(ks: Seq<(Seq<char>, NodeV)>, k: Seq<char>)
    requires
        wf_children(ks),
    ensures
        wf(base(ks, k)),
{
    lemma_wf_children(ks);
    if lookup(ks, k) is Some {
        crate::order::lemma_lower_bound(keys_of(ks), k);
        assert(wf(ks[lower_bound(keys_of(ks), k) as int].1));
    }
}

/// Merging the same diff children again into what the first merge left
/// changes nothing and reports nothing.
#[verifier::rlimit(60)]
proof fn lemma_second_pass(
    t: Seq<(Seq<char>, NodeV)>,
    ks: Seq<(Seq<char>, NodeV)>,
    dks: Seq<(Seq<char>, NodeV)>,
    vo: Vis,
    vn: Vis,
    u: UpdateV,
)
    requires
        sorted_keys(keys_of(t)),
        sorted_keys(keys_of(dks)),
        wf_children(ks),
        wf_children(dks),
        forall|i: int|
            0 <= i < dks.len() ==> merged(base(ks, dks[i].0), dks[i].1, vo, vn).ok && lookup(
                t,
                #[trigger] dks[i].0,
            ) == settled(ks, dks[i].0, dks[i].1, vo, vn),
    ensures
        merge_children(t, dks, vn, vn, u).children == t,
        merge_children(t, dks, vn, vn, u).update == u,
        merge_children(t, dks, vn, vn, u).ok,
    decreases dks,
{
    if dks.len() > 0 {
        let init = dks.subrange(0, dks.len() - 1);
        lemma_sorted_init(dks);
        lemma_wf_children(dks);
        lemma_wf_children(init);
        assert forall|i: int| 0 <= i < init.len() implies #[trigger] wf(init[i].1) by {
            assert(init[i] == dks[i]);
        }
        assert forall|i: int| 0 <= i < init.len() implies merged(
            base(ks, init[i].0),
            init[i].1,
            vo,
            vn,
        ).ok && lookup(t, #[trigger] init[i].0) == settled(ks, init[i].0, init[i].1, vo, vn) by {
            assert(init[i] == dks[i]);
        }
        lemma_second_pass(t, ks, init, vo, vn, u);
        let k = dks.last().0;
        let dc = dks.last().1;
        assert(dks[dks.len() - 1] == dks.last());
        let r = merged(base(ks, k), dc, vo, vn);
        let i = lower_bound(keys_of(t), k) as int;
        if lookup(t, k) is Some {
            crate::order::lemma_lower_bound(keys_of(t), k);
            lemma_base_wf(ks, k);
            assert(wf(dc));
            law_merge_idempotent(base(ks, k), dc, vo, vn);
            assert(t[i].1 == r.node);
            assert(t[i].0 == k);
            assert(t.update(i, (k, r.node)) =~= t);
        } else {
            assert(base(ks, k) == empty_node());
            lemma_merged_old_invisible(empty_node(), dc, vn, vo, vn);
        }
    }
}

/// Re-applying a diff is a no-op: merging `diff` again into the result of
/// merging it (the ancestors now standing at `vn`) leaves the node unchanged,
/// reports no update and completes.
pub proof fn law_merge_idempotent(n: NodeV, d: NodeV, vo: Vis, vn: Vis)
    requires
        wf(n),
        wf(d),
        merged(n, d, vo, vn).ok,
    ensures
        merged(merged(n, d, vo, vn).node, d, vn, vn).node == merged(n, d, vo, vn).node,
        merged(merged(n, d, vo, vn).node, d, vn, vn).update is None,
        merged(merged(n, d, vo, vn).node, d, vn, vn).ok,
    decreases d,
{
    let m = merged(n, d, vo, vn);
    let s = merge_step(n, d, vo, vn);
    let s2 = merge_step(m.node, d, vn, vn);
    assert(s2.propagate is None);
    assert(s2.vis_old == s.vis_new);
    assert(s2.vis_new == s.vis_new);
    assert(crate::node::update_is_noop(s2.update));
    let h = match (s.propagate, n.keys) {
        (Some(q), Some(ks)) => hand_down(ks, q, s.vis_old, s.vis_new, s.update),
        _ => Handed { children: Seq::empty(), diff: empty_node(), update: s.update, ok: true },
    };
    let keys = match (s.propagate, n.keys) {
        (Some(q), Some(ks)) => Some(h.children),
        _ => n.keys,
    };
    if s.propagate is Some && n.keys is Some {
        lemma_hand_down_shape(n.keys->0, s.propagate->0, s.vis_old, s.vis_new, s.update);
    }
    if d.keys is Some {
        let dks = d.keys->0;
        let start = match keys {
            Some(c) => c,
            None => Seq::empty(),
        };
        assert(sorted_keys(keys_of(start))) by {
            if keys is None {
                assert(keys_of(start) =~= Seq::<Seq<char>>::empty());
            }
        }
        assert(wf_children(start));
        let j = merge_children(start, dks, s.vis_old, s.vis_new, h.update);
        lemma_first_pass(start, dks, s.vis_old, s.vis_new, h.update);
        lemma_second_pass(j.children, start, dks, s.vis_old, s.vis_new, s2.update);
    }
}

/// Replacing or inserting a well formed entry keeps every entry well formed.
proof fn lemma_wf_children_inserted(s: Seq<(Seq<char>, NodeV)>, k: Seq<char>, v: NodeV)
    requires
        wf_children(s),
        wf(v),
    ensures
        wf_children(inserted(s, k, v)),
{
    let t = inserted(s, k, v);
    let i = lower_bound(keys_of(s), k) as int;
    crate::order::lemma_lower_bound(keys_of(s), k);
    lemma_wf_children(s);
    lemma_wf_children(t);
    assert forall|j: int| 0 <= j < t.len() implies #[trigger] wf(t[j].1) by {
        if found_at(keys_of(s), k) {
            if j != i {
                assert(t[j] == s[j]);
            }
        } else {
            if j < i {
                assert(t[j] == s[j]);
            } else if j > i {
                assert(t[j] == s[j - 1]);
            }
        }
    }
}

/// Merging diff children one by one keeps every child well formed.
proof fn lemma_merge_children_wf(
    ks: Seq<(Seq<char>, NodeV)>,
    dks: Seq<(Seq<char>, NodeV)>,
    vo: Vis,
    vn: Vis,
    u: UpdateV,
)
    requires
        wf_children(ks),
        wf_children(dks),
        merge_children(ks, dks, vo, vn, u).ok,
    ensures
        wf_children(merge_children(ks, dks, vo, vn, u).children),
    decreases dks,
{
    if dks.len() > 0 {
        let init = dks.subrange(0, dks.len() - 1);
        lemma_wf_children(dks);
        lemma_wf_children(init);
        assert forall|i: int| 0 <= i < init.len() implies #[trigger] wf(init[i].1) by {
            assert(init[i] == dks[i]);
        }
        lemma_merge_children_wf(ks, init, vo, vn, u);
        let prev = merge_children(ks, init, vo, vn, u);
        let k = dks.last().0;
        let dc = dks.last().1;
        assert(wf(dks[dks.len() - 1].1));
        let i = lower_bound(keys_of(prev.children), k) as int;
        lemma_wf_children(prev.children);
        crate::order::lemma_lower_bound(keys_of(prev.children), k);
        if found_at(keys_of(prev.children), k) {
            assert(wf(prev.children[i].1));
            lemma_merged_wf(prev.children[i].1, dc, vo, vn);
            let r = merged(prev.children[i].1, dc, vo, vn);
            assert(prev.children.update(i, (k, r.node)) == inserted(prev.children, k, r.node));
            lemma_wf_children_inserted(prev.children, k, r.node);
        } else {
            lemma_merged_wf(empty_node(), dc, vo, vn);
            let r = merged(empty_node(), dc, vo, vn);
            assert(prev.children.insert(i, (k, r.node)) == inserted(prev.children, k, r.node));
            lemma_wf_children_inserted(prev.children, k, r.node);
        }
    }
}

/// Merging keeps a node well formed.
proof fn lemma_merged_wf(n: NodeV, d: NodeV, vo: Vis, vn: Vis)
    requires
        wf(n),
        wf(d),
        merged(n, d, vo, vn).ok,
    ensures
        wf(merged(n, d, vo, vn).node),
    decreases d,
{
    let s = merge_step(n, d, vo, vn);
    let h = match (s.propagate, n.keys) {
        (Some(q), Some(ks)) => hand_down(ks, q, s.vis_old, s.vis_new, s.update),
        _ => Handed { children: Seq::empty(), diff: empty_node(), update: s.update, ok: true },
    };
    let keys = match (s.propagate, n.keys) {
        (Some(q), Some(ks)) => Some(h.children),
        _ => n.keys,
    };
    if s.propagate is Some && n.keys is Some {
        lemma_hand_down_shape(n.keys->0, s.propagate->0, s.vis_old, s.vis_new, s.update);
    }
    if d.keys is Some {
        let dks = d.keys->0;
        let start = match keys {
            Some(c) => c,
            None => Seq::empty(),
        };
        assert(sorted_keys(keys_of(start))) by {
            if keys is None {
                assert(keys_of(start) =~= Seq::<Seq<char>>::empty());
            }
        }
        assert(wf_children(start));
        lemma_first_pass(start, dks, s.vis_old, s.vis_new, h.update);
        lemma_merge_children_wf(start, dks, s.vis_old, s.vis_new, h.update);
    }
}

/// Merging keeps the tree well formed: if the node and the diff keep their
/// children in key order at every level, so does the merged node.
pub proof fn law_merge_keeps_wf(n: NodeV, d: NodeV, vo: Vis, vn: Vis)
    requires
        wf(n),
        wf(d),
        merged(n, d, vo, vn).ok,
    ensures
        wf(merged(n, d, vo, vn).node),
{
    lemma_merged_wf(n, d, vo, vn);
}

/// The node that `path` leads to below `n`, with the effective visibility of
/// its ancestors (`anc` being that of the ancestors of `n`). Every node along
/// the way must exist; only the last one may be missing, and then it stands
/// as an empty node.
pub open spec fn target(n: NodeV, anc: Vis, path: Seq<Seq<char>>) -> Option<(Vis, NodeV)>
    decreases path.len(),
{
    if path.len() == 0 {
        Some((anc, n))
    } else {
        let below = anc.descended(n.vis);
        let child = match n.keys {
            Some(ks) => lookup(ks, path[0]),
            None => None,
        };
        match child {
            Some(c) => target(c, below, path.drop_first()),
            None => if path.len() == 1 {
                Some((below, empty_node()))
            } else {
                None
            },
        }
    }
}

/// What a read at `path` reports of a visible value `v` found there.
pub open spec fn written(path: Seq<Seq<char>>, v: Leaf) -> UpdateV
    decreases path.len(),
{
    if path.len() == 0 {
        UpdateV { visible: Some(true), new: Some(v), ..no_update() }
    } else {
        UpdateV { keys: Some(seq![(path[0], written(path.drop_first(), v))]), ..no_update() }
    }
}

/// A write of `v` at time `ts`, merged below `path` as the diff
/// `expanded_from(path, v, ts)`, is read back at `path`.
pub open spec fn write_reads_back(path: Seq<Seq<char>>, n: NodeV, v: Leaf, ts: u64, vn: Vis) -> bool {
    match target(n, vn, path) {
        Some((anc, leaf)) => {
            &&& ts > leaf.vis.updated
            &&& ts > leaf.vis.deleted
            &&& anc.descended(Vis { updated: ts, deleted: leaf.vis.deleted }).visible()
        },
        None => false,
    }
}

#[verifier::rlimit(60)]
proof fn lemma_write_read(
    n: NodeV,
    path: Seq<Seq<char>>,
    depth: int,
    v: Leaf,
    ts: u64,
    vo: Vis,
    vn: Vis,
)
    requires
        0 <= depth <= path.len(),
        wf(n),
        forall|i: int| depth <= i < path.len() ==> path[i] != wildcard(),
        write_reads_back(path.skip(depth), n, v, ts, vn),
        merged(n, expanded_from(path.skip(depth), JsonV::Scalar(v), ts), vo, vn).ok,
    ensures
        read_node(
            merged(n, expanded_from(path.skip(depth), JsonV::Scalar(v), ts), vo, vn).node,
            vn,
            path,
            depth,
        ) == (Read { update: Some(written(path.skip(depth), v)), ok: true }),
    decreases path.len() - depth,
{
    let rest = path.skip(depth);
    let d = expanded_from(rest, JsonV::Scalar(v), ts);
    let m = merged(n, d, vo, vn);
    let s = merge_step(n, d, vo, vn);
    if depth == path.len() {
        assert(rest.len() == 0);
        assert(d == expanded(JsonV::Scalar(v), ts));
    } else {
        let k = path[depth];
        let next = path.skip(depth + 1);
        assert(rest.drop_first() =~= next);
        assert(rest[0] == k);
        let sub = expanded_from(next, JsonV::Scalar(v), ts);
        let dks = seq![(k, sub)];
        assert(d.keys == Some(dks));
        assert(s.node == n);
        assert(s.propagate is None);
        let start = match n.keys {
            Some(c) => c,
            None => Seq::empty(),
        };
        assert(sorted_keys(keys_of(start))) by {
            if n.keys is None {
                assert(keys_of(start) =~= Seq::<Seq<char>>::empty());
            }
        }
        assert(wf_children(start));
        let init = dks.subrange(0, 0);
        assert(init =~= Seq::<(Seq<char>, NodeV)>::empty());
        let prev = merge_children(start, init, s.vis_old, s.vis_new, s.update);
        assert(prev.children == start);
        let j = merge_children(start, dks, s.vis_old, s.vis_new, s.update);
        assert(dks.last() == (k, sub));
        let c = base(start, k);
        let r = merged(c, sub, s.vis_old, s.vis_new);
        assert(lookup(start, k) == match n.keys {
            Some(ks) => lookup(ks, k),
            None => None::<NodeV>,
        }) by {
            if n.keys is None {
                assert(keys_of(start) =~= Seq::<Seq<char>>::empty());
            }
        }
        let t = target(n, vn, rest);
        assert(target(c, s.vis_new, next) == t);
        lemma_base_wf(start, k);
        crate::order::lemma_lower_bound(keys_of(start), k);
        if found_at(keys_of(start), k) {
            assert(j.children == inserted(start, k, r.node));
        } else {
            assert(next.len() == 0);
            assert(c == empty_node());
            assert(sub == expanded(JsonV::Scalar(v), ts));
            assert(r.update is Some);
            assert(j.children == inserted(start, k, r.node));
        }
        assert(j.ok);
        assert(r.ok);
        assert(m.node == NodeV { keys: Some(j.children), ..n });
        lemma_write_read(c, path, depth + 1, v, ts, s.vis_old, s.vis_new);
        lemma_lookup_inserted(start, k, r.node, k);
        let ks2 = j.children;
        let i = lower_bound(keys_of(ks2), k) as int;
        assert(found_at(keys_of(ks2), k));
        assert(ks2[i].1 == r.node);
        let rr = read_node(r.node, s.vis_new, path, depth + 1);
        assert(rr == (Read { update: Some(written(next, v)), ok: true }));
        let u = crate::node::with_child(no_update(), k, rr.update);
        assert(keys_of(Seq::<(Seq<char>, UpdateV)>::empty()).len() == 0);
        assert(inserted(Seq::<(Seq<char>, UpdateV)>::empty(), k, written(next, v)) =~= seq![
            (k, written(next, v)),
        ]);
        assert(written(rest, v) == UpdateV {
            keys: Some(seq![(k, written(next, v))]),
            ..no_update()
        });
    }
}

/// What a read gives back of a write: once `v` is written at `path` at a
/// time `ts` newer than what stands there, along a path whose nodes exist
/// (the last one may be missing), and the value is visible under its
/// ancestors, a read at `path` reports `v` there.
pub proof fn law_write_read_back(
    n: NodeV,
    path: Seq<Seq<char>>,
    v: Leaf,
    ts: u64,
    vo: Vis,
    vn: Vis,
)
    requires
        wf(n),
        forall|i: int| 0 <= i < path.len() ==> path[i] != wildcard(),
        write_reads_back(path, n, v, ts, vn),
        merged(n, expanded_from(path, JsonV::Scalar(v), ts), vo, vn).ok,
    ensures
        read_node(merged(n, expanded_from(path, JsonV::Scalar(v), ts), vo, vn).node, vn, path, 0)
            == (Read { update: Some(written(path, v)), ok: true }),
{
    assert(path.skip(0) =~= path);
    lemma_write_read(n, path, 0, v, ts, vo, vn);
}

/// Merging moves a node's timestamps forward to the newest of both, and the
/// newest write wins: a newer update replaces the value unless a deletion
/// newer still removes it; a stale diff leaves the value alone; delegation
/// markers only grow.
pub proof fn law_merge_newest_wins(n: NodeV, d: NodeV, vo: Vis, vn: Vis)
    ensures
        merged(n, d, vo, vn).node.vis == n.vis.joined(d.vis),
        merged(n, d, vo, vn).node.delegated >= n.delegated,
        d.vis.updated > n.vis.updated && d.vis.updated >= d.vis.deleted
            ==> merged(n, d, vo, vn).node.value == d.value,
        d.vis.updated <= n.vis.updated && d.vis.deleted <= n.vis.deleted
            ==> merged(n, d, vo, vn).node.value == n.value,
        d.vis.deleted > n.vis.deleted && d.vis.deleted > n.vis.updated && d.vis.deleted
            > d.vis.updated ==> merged(n, d, vo, vn).node.value == Leaf::Null
            && !merged(n, d, vo, vn).node.vis.visible(),
{
}

proof fn lemma_expanded_items_wf(a: Seq<JsonV>, ts: u64)
    ensures
        sorted_keys(keys_of(expanded_items(a, ts))),
        wf_children(expanded_items(a, ts)),
    decreases a,
{
    if a.len() == 0 {
        assert(keys_of(expanded_items(a, ts)) =~= Seq::<Seq<char>>::empty());
    } else {
        let init = a.subrange(0, a.len() - 1);
        lemma_expanded_items_wf(init, ts);
        lemma_expanded_wf(a.last(), ts);
        let k = crate::text::digits((a.len() - 1) as nat, 10);
        lemma_inserted(expanded_items(init, ts), k, expanded(a.last(), ts));
        lemma_wf_children_inserted(expanded_items(init, ts), k, expanded(a.last(), ts));
    }
}

proof fn lemma_expanded_members_wf(o: Seq<(Seq<char>, JsonV)>, ts: u64)
    ensures
        sorted_keys(keys_of(expanded_members(o, ts))),
        wf_children(expanded_members(o, ts)),
    decreases o,
{
    if o.len() == 0 {
        assert(keys_of(expanded_members(o, ts)) =~= Seq::<Seq<char>>::empty());
    } else {
        let init = o.subrange(0, o.len() - 1);
        lemma_expanded_members_wf(init, ts);
        assert(decreases_to!(o => o.last().1));
        lemma_expanded_wf(o.last().1, ts);
        lemma_inserted(expanded_members(init, ts), o.last().0, expanded(o.last().1, ts));
        lemma_wf_children_inserted(expanded_members(init, ts), o.last().0, expanded(o.last().1, ts));
    }
}

proof fn lemma_expanded_wf(data: JsonV, ts: u64)
    ensures
        wf(expanded(data, ts)),
    decreases data,
{
    match data {
        JsonV::Array(a) => lemma_expanded_items_wf(a, ts),
        JsonV::Object(o) => lemma_expanded_members_wf(o, ts),
        JsonV::Scalar(_) => {},
    }
}

proof fn lemma_expanded_from_wf(path: Seq<Seq<char>>, data: JsonV, ts: u64)
    ensures
        wf(expanded_from(path, data, ts)),
    decreases path.len(),
{
    if path.len() == 0 {
        lemma_expanded_wf(data, ts);
    } else {
        let sub = expanded_from(path.drop_first(), data, ts);
        lemma_expanded_from_wf(path.drop_first(), data, ts);
        let ks = seq![(path[0], sub)];
        assert(keys_of(ks) =~= seq![path[0]]);
        lemma_wf_children(ks);
    }
}

/// A document expanded into a node, at the top or below a path, keeps its
/// children in key order at every level.
pub proof fn law_expand_wf(path: Seq<Seq<char>>, data: JsonV, ts: u64)
    ensures
        wf(expanded(data, ts)),
        wf(expanded_from(path, data, ts)),
{
    lemma_expanded_wf(data, ts);
    lemma_expanded_from_wf(path, data, ts);
}

/// Writes keep the tree well formed, and writing the same document again
/// changes nothing and reports nothing.
pub proof fn law_write_keeps_wf(n: NodeV, path: Seq<Seq<char>>, data: JsonV, ts: u64, vo: Vis, vn: Vis)
    requires
        wf(n),
        merged(n, expanded_from(path, data, ts), vo, vn).ok,
    ensures
        wf(merged(n, expanded_from(path, data, ts), vo, vn).node),
        ({
            let m = merged(n, expanded_from(path, data, ts), vo, vn);
            let again = merged(m.node, expanded_from(path, data, ts), vn, vn);
            again.node == m.node && again.update is None && again.ok
        }),
{
    lemma_expanded_from_wf(path, data, ts);
    lemma_merged_wf(n, expanded_from(path, data, ts), vo, vn);
    law_merge_idempotent(n, expanded_from(path, data, ts), vo, vn);
}

proof fn lemma_hand_down_even(
    ks: Seq<(Seq<char>, NodeV)>,
    p: NodeV,
    vo: Vis,
    vn: Vis,
    u: UpdateV,
)
    requires
        even_children(ks),
        p.delegated == 0,
    ensures
        hand_down(ks, p, vo, vn, u).ok,
        even_children(hand_down(ks, p, vo, vn, u).children),
        hand_down(ks, p, vo, vn, u).diff.delegated == 0,
    decreases ks,
{
    if ks.len() > 0 {
        let init = ks.subrange(0, ks.len() - 1);
        lemma_hand_down_even(init, p, vo, vn, u);
        let prev = hand_down(init, p, vo, vn, u);
        lemma_propagated_even(ks.last().1, prev.diff, vo, vn);
        let h = hand_down(ks, p, vo, vn, u);
        assert(h.children.subrange(0, h.children.len() - 1) =~= prev.children);
    }
}

proof fn lemma_propagated_even(n: NodeV, p: NodeV, vo: Vis, vn: Vis)
    requires
        even_marks(n),
        p.delegated == 0,
    ensures
        propagated(n, p, vo, vn).ok,
        even_marks(propagated(n, p, vo, vn).node),
        propagated(n, p, vo, vn).diff.delegated == 0,
    decreases n,
{
    let s = merge_step(n, p, vo, vn);
    if s.propagate is Some && n.keys is Some {
        lemma_hand_down_even(n.keys->0, s.propagate->0, s.vis_old, s.vis_new, s.update);
    }
}

proof fn lemma_even_children_inserted(s: Seq<(Seq<char>, NodeV)>, k: Seq<char>, v: NodeV)
    requires
        even_children(s),
        even_marks(v),
    ensures
        even_children(inserted(s, k, v)),
{
    let t = inserted(s, k, v);
    let i = lower_bound(keys_of(s), k) as int;
    crate::order::lemma_lower_bound(keys_of(s), k);
    lemma_even_children(s);
    lemma_even_children(t);
    assert forall|j: int| 0 <= j < t.len() implies #[trigger] even_marks(t[j].1) by {
        if found_at(keys_of(s), k) {
            if j != i {
                assert(t[j] == s[j]);
            }
        } else {
            if j < i {
                assert(t[j] == s[j]);
            } else if j > i {
                assert(t[j] == s[j - 1]);
            }
        }
    }
}

proof fn lemma_merge_children_even(
    ks: Seq<(Seq<char>, NodeV)>,
    dks: Seq<(Seq<char>, NodeV)>,
    vo: Vis,
    vn: Vis,
    u: UpdateV,
)
    requires
        even_children(ks),
        even_children(dks),
    ensures
        merge_children(ks, dks, vo, vn, u).ok,
        even_children(merge_children(ks, dks, vo, vn, u).children),
    decreases dks,
{
    if dks.len() > 0 {
        let init = dks.subrange(0, dks.len() - 1);
        lemma_even_children(dks);
        lemma_even_children(init);
        assert forall|i: int| 0 <= i < init.len() implies #[trigger] even_marks(init[i].1) by {
            assert(init[i] == dks[i]);
        }
        lemma_merge_children_even(ks, init, vo, vn, u);
        let prev = merge_children(ks, init, vo, vn, u);
        let k = dks.last().0;
        let dc = dks.last().1;
        assert(even_marks(dks[dks.len() - 1].1));
        let i = lower_bound(keys_of(prev.children), k) as int;
        lemma_even_children(prev.children);
        crate::order::lemma_lower_bound(keys_of(prev.children), k);
        if found_at(keys_of(prev.children), k) {
            assert(even_marks(prev.children[i].1));
            lemma_merged_even(prev.children[i].1, dc, vo, vn);
            let r = merged(prev.children[i].1, dc, vo, vn);
            assert(prev.children.update(i, (k, r.node)) == inserted(prev.children, k, r.node));
            lemma_even_children_inserted(prev.children, k, r.node);
        } else {
            lemma_merged_even(empty_node(), dc, vo, vn);
            let r = merged(empty_node(), dc, vo, vn);
            assert(prev.children.insert(i, (k, r.node)) == inserted(prev.children, k, r.node));
            lemma_even_children_inserted(prev.children, k, r.node);
        }
    }
}

proof fn lemma_merged_even(n: NodeV, d: NodeV, vo: Vis, vn: Vis)
    requires
        even_marks(n),
        even_marks(d),
    ensures
        merged(n, d, vo, vn).ok,
        even_marks(merged(n, d, vo, vn).node),
    decreases d,
{
    let s = merge_step(n, d, vo, vn);
    let h = match (s.propagate, n.keys) {
        (Some(q), Some(ks)) => hand_down(ks, q, s.vis_old, s.vis_new, s.update),
        _ => Handed { children: Seq::empty(), diff: empty_node(), update: s.update, ok: true },
    };
    if s.propagate is Some && n.keys is Some {
        lemma_hand_down_even(n.keys->0, s.propagate->0, s.vis_old, s.vis_new, s.update);
    }
    let keys = match (s.propagate, n.keys) {
        (Some(q), Some(ks)) => Some(h.children),
        _ => n.keys,
    };
    if d.keys is Some {
        let start = match keys {
            Some(c) => c,
            None => Seq::empty(),
        };
        assert(even_children(start));
        lemma_merge_children_even(start, d.keys->0, s.vis_old, s.vis_new, h.update);
    }
}

proof fn lemma_read_all_even(
    ks: Seq<(Seq<char>, NodeV)>,
    vis: Vis,
    path: Seq<Seq<char>>,
    depth: int,
    u: UpdateV,
)
    requires
        even_children(ks),
    ensures
        read_all(ks, vis, path, depth, u).ok,
    decreases ks,
{
    if ks.len() > 0 {
        let init = ks.subrange(0, ks.len() - 1);
        lemma_read_all_even(init, vis, path, depth, u);
        lemma_read_even(ks.last().1, vis, path, depth);
    }
}

proof fn lemma_read_even(n: NodeV, vis: Vis, path: Seq<Seq<char>>, depth: int)
    requires
        even_marks(n),
    ensures
        read_node(n, vis, path, depth).ok,
    decreases n,
{
    let v = vis.descended(n.vis);
    if depth < path.len() && n.keys is Some {
        let ks = n.keys->0;
        let part = path[depth];
        if part == wildcard() {
            lemma_read_all_even(ks, v, path, depth + 1, no_update());
        } else {
            let i = lower_bound(keys_of(ks), part) as int;
            if found_at(keys_of(ks), part) && i < ks.len() {
                lemma_even_children(ks);
                assert(even_marks(ks[i].1));
                lemma_read_even(ks[i].1, v, path, depth + 1);
            }
        }
    }
}

/// Where no delegation marker is odd, nothing has been handed over to
/// another zone: merging completes and keeps the markers even, and reading
/// completes.
pub proof fn law_even_marks_complete(
    n: NodeV,
    d: NodeV,
    vo: Vis,
    vn: Vis,
    vis: Vis,
    path: Seq<Seq<char>>,
)
    requires
        even_marks(n),
        even_marks(d),
    ensures
        merged(n, d, vo, vn).ok,
        even_marks(merged(n, d, vo, vn).node),
        read_node(n, vis, path, 0).ok,
{
    lemma_merged_even(n, d, vo, vn);
    lemma_read_even(n, vis, path, 0);
}

proof fn lemma_merge_children_retained(
    ks: Seq<(Seq<char>, NodeV)>,
    dks: Seq<(Seq<char>, NodeV)>,
    vo: Vis,
    vn: Vis,
    u: UpdateV,
)
    ensures
        ({
            let j = merge_children(ks, dks, vo, vn, u);
            let j2 = merge_children(ks, j.diff_children, vo, vn, u);
            &&& j2.children == j.children
            &&& j2.update == j.update
            &&& j2.ok == j.ok
        }),
    decreases dks,
{
    let j = merge_children(ks, dks, vo, vn, u);
    if dks.len() == 0 {
        assert(j.diff_children.len() == 0);
    } else {
        let init = dks.subrange(0, dks.len() - 1);
        lemma_merge_children_retained(ks, init, vo, vn, u);
        let prev = merge_children(ks, init, vo, vn, u);
        let k = dks.last().0;
        let dc = dks.last().1;
        let i = lower_bound(keys_of(prev.children), k) as int;
        let c = if found_at(keys_of(prev.children), k) {
            prev.children[i].1
        } else {
            empty_node()
        };
        lemma_merged_retained(c, dc, vo, vn);
        let r = merged(c, dc, vo, vn);
        let jd = j.diff_children;
        assert(jd == prev.diff_children.push((k, r.diff)));
        assert(jd.subrange(0, jd.len() - 1) =~= prev.diff_children);
        assert(jd.last() == (k, r.diff));
    }
}

proof fn lemma_merged_retained(n: NodeV, d: NodeV, vo: Vis, vn: Vis)
    ensures
        ({
            let m = merged(n, d, vo, vn);
            let m2 = merged(n, m.diff, vo, vn);
            &&& m2.node == m.node
            &&& m2.update == m.update
            &&& m2.ok == m.ok
        }),
    decreases d,
{
    let m = merged(n, d, vo, vn);
    let s = merge_step(n, d, vo, vn);
    let s2 = merge_step(n, m.diff, vo, vn);
    assert(s2.node == s.node);
    assert(s2.update == s.update);
    assert(s2.propagate == s.propagate);
    assert(s2.vis_old == s.vis_old);
    assert(s2.vis_new == s.vis_new);
    let h = match (s.propagate, n.keys) {
        (Some(q), Some(ks)) => hand_down(ks, q, s.vis_old, s.vis_new, s.update),
        _ => Handed { children: Seq::empty(), diff: empty_node(), update: s.update, ok: true },
    };
    let keys = match (s.propagate, n.keys) {
        (Some(q), Some(ks)) => Some(h.children),
        _ => n.keys,
    };
    if d.keys is Some {
        let start = match keys {
            Some(c) => c,
            None => Seq::empty(),
        };
        lemma_merge_children_retained(start, d.keys->0, s.vis_old, s.vis_new, h.update);
    }
}

/// Merging keeps in the diff only what changed the node: merging that
/// retained diff instead of the whole one gives the same node, reports the
/// same update and completes alike.
pub proof fn law_merge_retained_diff(n: NodeV, d: NodeV, vo: Vis, vn: Vis)
    ensures
        merged(n, merged(n, d, vo, vn).diff, vo, vn).node == merged(n, d, vo, vn).node,
        merged(n, merged(n, d, vo, vn).diff, vo, vn).update == merged(n, d, vo, vn).update,
        merged(n, merged(n, d, vo, vn).diff, vo, vn).ok == merged(n, d, vo, vn).ok,
{
    lemma_merged_retained(n, d, vo, vn);
}

proof fn lemma_hand_down_fields(
    ks: Seq<(Seq<char>, NodeV)>,
    p: NodeV,
    vo: Vis,
    vn: Vis,
    u: UpdateV,
)
    ensures
        hand_down(ks, p, vo, vn, u).update.visible == u.visible,
        hand_down(ks, p, vo, vn, u).update.old == u.old,
        hand_down(ks, p, vo, vn, u).update.new == u.new,
    decreases ks,
{
    if ks.len() > 0 {
        lemma_hand_down_fields(ks.subrange(0, ks.len() - 1), p, vo, vn, u);
    }
}

proof fn lemma_merge_children_fields(
    ks: Seq<(Seq<char>, NodeV)>,
    dks: Seq<(Seq<char>, NodeV)>,
    vo: Vis,
    vn: Vis,
    u: UpdateV,
)
    ensures
        merge_children(ks, dks, vo, vn, u).update.visible == u.visible,
        merge_children(ks, dks, vo, vn, u).update.old == u.old,
        merge_children(ks, dks, vo, vn, u).update.new == u.new,
    decreases dks,
{
    if dks.len() > 0 {
        lemma_merge_children_fields(ks, dks.subrange(0, dks.len() - 1), vo, vn, u);
    }
}

/// What merging reports and what it keeps of the diff: a change of the
/// node's visibility is reported with the value it now shows; a newer value
/// replacing a visible one is reported with the old and the new value; and a
/// write or deletion that changed nothing (not newer than what the node
/// holds) is dropped from the diff.
pub proof fn law_merge_reports_changes(n: NodeV, d: NodeV, vo: Vis, vn: Vis)
    ensures
        ({
            let m = merged(n, d, vo, vn);
            let before = vo.descended(n.vis).visible();
            let after = vn.descended(m.node.vis).visible();
            &&& d.vis.updated <= n.vis.updated ==> m.diff.vis.updated == 0 && m.diff.value == Leaf::Null
            &&& d.vis.deleted <= n.vis.deleted ==> m.diff.vis.deleted == 0
            &&& before != after ==> m.update is Some && m.update->0.visible == Some(after)
                && m.update->0.new == Some(m.node.value)
            &&& before && after && d.vis.updated > n.vis.updated ==> m.update is Some
                && m.update->0.new == Some(d.value) && m.update->0.old == Some(n.value)
        }),
{
    let s = merge_step(n, d, vo, vn);
    let h = match (s.propagate, n.keys) {
        (Some(q), Some(ks)) => hand_down(ks, q, s.vis_old, s.vis_new, s.update),
        _ => Handed { children: Seq::empty(), diff: empty_node(), update: s.update, ok: true },
    };
    if s.propagate is Some && n.keys is Some {
        lemma_hand_down_fields(n.keys->0, s.propagate->0, s.vis_old, s.vis_new, s.update);
    }
    let keys = match (s.propagate, n.keys) {
        (Some(q), Some(ks)) => Some(h.children),
        _ => n.keys,
    };
    if d.keys is Some {
        let start = match keys {
            Some(c) => c,
            None => Seq::empty(),
        };
        lemma_merge_children_fields(start, d.keys->0, s.vis_old, s.vis_new, h.update);
    }
}

proof fn lemma_read_all_hidden(
    ks: Seq<(Seq<char>, NodeV)>,
    vis: Vis,
    path: Seq<Seq<char>>,
    depth: int,
)
    requires
        !vis.visible(),
    ensures
        read_all(ks, vis, path, depth, no_update()).update == no_update(),
    decreases ks,
{
    if ks.len() > 0 {
        lemma_read_all_hidden(ks.subrange(0, ks.len() - 1), vis, path, depth);
        lemma_read_hidden(ks.last().1, vis, path, depth);
    }
}

proof fn lemma_read_hidden(n: NodeV, vis: Vis, path: Seq<Seq<char>>, depth: int)
    requires
        !vis.visible(),
    ensures
        read_node(n, vis, path, depth).update is None,
    decreases n,
{
    let v = vis.descended(n.vis);
    if depth < path.len() && n.keys is Some {
        let ks = n.keys->0;
        let part = path[depth];
        if part == wildcard() {
            lemma_read_all_hidden(ks, v, path, depth + 1);
        } else {
            let i = lower_bound(keys_of(ks), part) as int;
            if found_at(keys_of(ks), part) && i < ks.len() {
                lemma_read_hidden(ks[i].1, v, path, depth + 1);
            }
        }
    }
}

/// Nothing under a hidden (deleted) ancestor is ever read, whatever the
/// nodes below hold.
pub proof fn law_read_hidden(n: NodeV, vis: Vis, path: Seq<Seq<char>>)
    requires
        !vis.visible(),
    ensures
        read_node(n, vis, path, 0).update is None,
{
    lemma_read_hidden(n, vis, path, 0);
}

proof fn lemma_merge_children_keeps(
    ks: Seq<(Seq<char>, NodeV)>,
    dks: Seq<(Seq<char>, NodeV)>,
    vo: Vis,
    vn: Vis,
    u: UpdateV,
    k: Seq<char>,
)
    requires
        keys_of(ks).contains(k),
    ensures
        keys_of(merge_children(ks, dks, vo, vn, u).children).contains(k),
    decreases dks,
{
    if dks.len() > 0 {
        let init = dks.subrange(0, dks.len() - 1);
        lemma_merge_children_keeps(ks, init, vo, vn, u, k);
        let prev = merge_children(ks, init, vo, vn, u);
        let c = prev.children;
        let kk = dks.last().0;
        let i = lower_bound(keys_of(c), kk) as int;
        crate::order::lemma_lower_bound(keys_of(c), kk);
        let x = choose|x: int| 0 <= x < keys_of(c).len() && keys_of(c)[x] == k;
        let j = merge_children(ks, dks, vo, vn, u).children;
        if found_at(keys_of(c), kk) {
            let r = merged(c[i].1, dks.last().1, vo, vn);
            assert(c[i].0 == kk);
            assert(keys_of(c.update(i, (kk, r.node))) =~= keys_of(c));
        } else {
            let r = merged(empty_node(), dks.last().1, vo, vn);
            if r.update is Some {
                let ins = c.insert(i, (kk, r.node));
                if x < i {
                    assert(keys_of(ins)[x] == k);
                } else {
                    assert(keys_of(ins)[x + 1] == k);
                }
            }
        }
    }
}

/// Merging never removes a child: every key the node lists is still listed
/// after the merge.
pub proof fn law_merge_keeps_keys(n: NodeV, d: NodeV, vo: Vis, vn: Vis, k: Seq<char>)
    requires
        n.keys is Some,
        keys_of(n.keys->0).contains(k),
    ensures
        merged(n, d, vo, vn).node.keys is Some,
        keys_of(merged(n, d, vo, vn).node.keys->0).contains(k),
{
    let s = merge_step(n, d, vo, vn);
    let h = match (s.propagate, n.keys) {
        (Some(q), Some(ks)) => hand_down(ks, q, s.vis_old, s.vis_new, s.update),
        _ => Handed { children: Seq::empty(), diff: empty_node(), update: s.update, ok: true },
    };
    if s.propagate is Some && n.keys is Some {
        lemma_hand_down_shape(n.keys->0, s.propagate->0, s.vis_old, s.vis_new, s.update);
    }
    let keys = match (s.propagate, n.keys) {
        (Some(q), Some(ks)) => Some(h.children),
        _ => n.keys,
    };
    let start = keys->0;
    assert(keys_of(start) == keys_of(n.keys->0));
    if d.keys is Some {
        lemma_merge_children_keeps(start, d.keys->0, s.vis_old, s.vis_new, h.update, k);
    }
}

/// Every node of `d` was written at `t` and nothing else: no deletion, no
/// delegation, children in key order.
pub open spec fn fresh(d: NodeV, t: u64) -> bool
    decreases d,
{
    &&& d.vis == (Vis { updated: t, deleted: 0 })
    &&& d.delegated == 0
    &&& match d.keys {
        None => true,
        Some(ks) => sorted_keys(keys_of(ks)) && fresh_children(ks, t),
    }
}

pub open spec fn fresh_children(ks: Seq<(Seq<char>, NodeV)>, t: u64) -> bool
    decreases ks,
{
    if ks.len() == 0 {
        true
    } else {
        fresh_children(ks.subrange(0, ks.len() - 1), t) && fresh(ks.last().1, t)
    }
}

proof fn lemma_fresh_children(ks: Seq<(Seq<char>, NodeV)>, t: u64)
    ensures
        fresh_children(ks, t) <==> forall|i: int| 0 <= i < ks.len() ==> #[trigger] fresh(ks[i].1, t),
    decreases ks.len(),
{
    if ks.len() > 0 {
        let init = ks.subrange(0, ks.len() - 1);
        lemma_fresh_children(init, t);
        if fresh_children(ks, t) {
            assert forall|i: int| 0 <= i < ks.len() implies #[trigger] fresh(ks[i].1, t) by {
                if i < ks.len() - 1 {
                    assert(init[i] == ks[i]);
                }
            }
        }
        if forall|i: int| 0 <= i < ks.len() ==> #[trigger] fresh(ks[i].1, t) {
            assert forall|i: int| 0 <= i < init.len() implies #[trigger] fresh(init[i].1, t) by {
                assert(init[i] == ks[i]);
            }
            assert(fresh(ks[ks.len() - 1].1, t));
        }
    }
}

proof fn lemma_fresh_children_inserted(s: Seq<(Seq<char>, NodeV)>, k: Seq<char>, v: NodeV, t: u64)
    requires
        fresh_children(s, t),
        fresh(v, t),
    ensures
        fresh_children(inserted(s, k, v), t),
{
    let tt = inserted(s, k, v);
    let i = lower_bound(keys_of(s), k) as int;
    crate::order::lemma_lower_bound(keys_of(s), k);
    lemma_fresh_children(s, t);
    lemma_fresh_children(tt, t);
    assert forall|j: int| 0 <= j < tt.len() implies #[trigger] fresh(tt[j].1, t) by {
        if found_at(keys_of(s), k) {
            if j != i {
                assert(tt[j] == s[j]);
            }
        } else {
            if j < i {
                assert(tt[j] == s[j]);
            } else if j > i {
                assert(tt[j] == s[j - 1]);
            }
        }
    }
}

proof fn lemma_items_fresh(a: Seq<JsonV>, t: u64)
    ensures
        sorted_keys(keys_of(expanded_items(a, t))),
        fresh_children(expanded_items(a, t), t),
    decreases a,
{
    if a.len() == 0 {
        assert(keys_of(expanded_items(a, t)) =~= Seq::<Seq<char>>::empty());
    } else {
        let init = a.subrange(0, a.len() - 1);
        lemma_items_fresh(init, t);
        lemma_expanded_fresh(a.last(), t);
        let k = crate::text::digits((a.len() - 1) as nat, 10);
        lemma_inserted(expanded_items(init, t), k, expanded(a.last(), t));
        lemma_fresh_children_inserted(expanded_items(init, t), k, expanded(a.last(), t), t);
    }
}

proof fn lemma_members_fresh(o: Seq<(Seq<char>, JsonV)>, t: u64)
    ensures
        sorted_keys(keys_of(expanded_members(o, t))),
        fresh_children(expanded_members(o, t), t),
    decreases o,
{
    if o.len() == 0 {
        assert(keys_of(expanded_members(o, t)) =~= Seq::<Seq<char>>::empty());
    } else {
        let init = o.subrange(0, o.len() - 1);
        lemma_members_fresh(init, t);
        assert(decreases_to!(o => o.last().1));
        lemma_expanded_fresh(o.last().1, t);
        lemma_inserted(expanded_members(init, t), o.last().0, expanded(o.last().1, t));
        lemma_fresh_children_inserted(expanded_members(init, t), o.last().0, expanded(o.last().1, t), t);
    }
}

proof fn lemma_expanded_fresh(data: JsonV, t: u64)
    ensures
        fresh(expanded(data, t), t),
    decreases data,
{
    match data {
        JsonV::Array(a) => lemma_items_fresh(a, t),
        JsonV::Object(o) => lemma_members_fresh(o, t),
        JsonV::Scalar(_) => {},
    }
}

proof fn lemma_merge_children_fresh(
    dks: Seq<(Seq<char>, NodeV)>,
    t: u64,
    vo: Vis,
    vn: Vis,
    u: UpdateV,
)
    requires
        sorted_keys(keys_of(dks)),
        fresh_children(dks, t),
        !vo.visible(),
        vn.descended(Vis { updated: t, deleted: 0 }).visible(),
    ensures
        merge_children(Seq::empty(), dks, vo, vn, u).children == dks,
        merge_children(Seq::empty(), dks, vo, vn, u).ok,
    decreases dks,
{
    if dks.len() > 0 {
        let init = dks.subrange(0, dks.len() - 1);
        lemma_sorted_init(dks);
        lemma_fresh_children(dks, t);
        lemma_fresh_children(init, t);
        assert forall|i: int| 0 <= i < init.len() implies #[trigger] fresh(init[i].1, t) by {
            assert(init[i] == dks[i]);
        }
        lemma_merge_children_fresh(init, t, vo, vn, u);
        let k = dks.last().0;
        let dc = dks.last().1;
        assert(fresh(dks[dks.len() - 1].1, t));
        crate::order::lemma_lower_bound(keys_of(init), k);
        let lb = lower_bound(keys_of(init), k) as int;
        if lb < init.len() {
            assert(keys_of(dks)[lb] == init[lb].0);
            assert(keys_of(dks)[dks.len() - 1] == k);
            assert(crate::order::key_lt(keys_of(dks)[lb], keys_of(dks)[dks.len() - 1]));
        }
        assert(!found_at(keys_of(init), k));
        lemma_merge_fresh(dc, t, vo, vn);
        assert(init.insert(init.len() as int, (k, dc)) =~= dks);
    }
}

proof fn lemma_merge_fresh(d: NodeV, t: u64, vo: Vis, vn: Vis)
    requires
        fresh(d, t),
        vn.descended(Vis { updated: t, deleted: 0 }).visible(),
    ensures
        merged(empty_node(), d, vo, vn).node == d,
        merged(empty_node(), d, vo, vn).update is Some,
        merged(empty_node(), d, vo, vn).update->0.visible == Some(true),
        merged(empty_node(), d, vo, vn).ok,
    decreases d,
{
    let s = merge_step(empty_node(), d, vo, vn);
    assert(!s.vis_old.visible());
    assert(s.vis_new.descended(Vis { updated: t, deleted: 0 }).visible());
    if d.keys is Some {
        let dks = d.keys->0;
        lemma_merge_children_fresh(dks, t, s.vis_old, s.vis_new, s.update);
        lemma_merge_children_fields(Seq::empty(), dks, s.vis_old, s.vis_new, s.update);
    }
}

/// Merging a document written at `t` into an empty node, where it is
/// visible under the node's ancestors, gives exactly that document, reports
/// it as newly visible, and completes.
pub proof fn law_merge_expanded_into_empty(data: JsonV, t: u64, vo: Vis, vn: Vis)
    requires
        vn.descended(Vis { updated: t, deleted: 0 }).visible(),
    ensures
        merged(empty_node(), expanded(data, t), vo, vn).node == expanded(data, t),
        merged(empty_node(), expanded(data, t), vo, vn).update is Some,
        merged(empty_node(), expanded(data, t), vo, vn).update->0.visible == Some(true),
        merged(empty_node(), expanded(data, t), vo, vn).ok,
{
    lemma_expanded_fresh(data, t);
    lemma_merge_fresh(expanded(data, t), t, vo, vn);
}

/// A well-formed node placed below a path stays well formed.
pub proof fn lemma_prepended_wf(path: Seq<Seq<char>>, n: NodeV)
    requires
        wf(n),
    ensures
        wf(prepended(path, n)),
    decreases path.len(),
{
    if path.len() > 0 {
        lemma_prepended_wf(path.drop_first(), n);
        let ks = seq![(path[0], prepended(path.drop_first(), n))];
        assert(keys_of(ks) =~= seq![path[0]]);
        lemma_wf_children(ks);
    }
}

proof fn lemma_scan_wf(ks: Seq<(Seq<char>, NodeV)>, own: nat, ts: u64)
    ensures
        sorted_keys(keys_of(scan(ks, own, ts).found)),
        wf_children(scan(ks, own, ts).found),
    decreases ks,
{
    if ks.len() == 0 {
        assert(keys_of(scan(ks, own, ts).found) =~= Seq::<Seq<char>>::empty());
    } else {
        let init = ks.subrange(0, ks.len() - 1);
        lemma_scan_wf(init, own, ts);
        lemma_partition_wf(ks.last().1, ts);
        let prev = scan(init, own, ts);
        match partition(ks.last().1, ts).1 {
            Some(d) => {
                lemma_inserted(prev.found, ks.last().0, d);
                lemma_wf_children_inserted(prev.found, ks.last().0, d);
            },
            None => {},
        }
    }
}

proof fn lemma_trim_wf(total: nat, big: Seq<(nat, Seq<char>)>, found: Seq<(Seq<char>, NodeV)>, ts: u64)
    requires
        sorted_keys(keys_of(found)),
        wf_children(found),
    ensures
        sorted_keys(keys_of(trim(total, big, found, ts).1)),
        wf_children(trim(total, big, found, ts).1),
    decreases big.len(),
{
    if !(total <= crate::delegate::MAX_ZONE_SIZE || big.len() == 0) {
        lemma_max_at(big);
        let e = big[max_at(big)];
        lemma_inserted(found, e.1, delegated_at(ts));
        lemma_wf_children_inserted(found, e.1, delegated_at(ts));
        lemma_trim_wf(
            if total >= e.0 {
                (total - e.0) as nat
            } else {
                0
            },
            big.remove(max_at(big)),
            inserted(found, e.1, delegated_at(ts)),
            ts,
        );
    }
}

proof fn lemma_partition_wf(n: NodeV, ts: u64)
    ensures
        partition(n, ts).1 is Some ==> wf(partition(n, ts).1->0),
    decreases n,
{
    if n.keys is Some {
        let ks = n.keys->0;
        let own = crate::delegate::own_size(n);
        lemma_scan_wf(ks, own, ts);
        let sc = scan(ks, own, ts);
        lemma_trim_wf(sc.total, sc.big, sc.found, ts);
    }
}

/// The delegations that splitting a tree produces are well formed, so
/// merging them keeps the tree well formed.
pub proof fn law_partition_wf(n: NodeV, ts: u64)
    ensures
        partition(n, ts).1 is Some ==> wf(partition(n, ts).1->0),
{
    lemma_partition_wf(n, ts);
}

/// A diff that brings no newer update never changes the value of a node
/// that stays written after it (its update not older than its deletion): in
/// particular a kill older than the node's last write leaves the value.
/// Only a deletion newer than every update clears it.
pub proof fn law_older_kill_keeps_value(n: NodeV, d: NodeV, vo: Vis, vn: Vis)
    ensures
        ({
            let m = merged(n, d, vo, vn);
            &&& d.vis.updated <= n.vis.updated && m.node.vis.updated >= m.node.vis.deleted
                ==> m.node.value == n.value
            &&& d.vis.updated <= n.vis.updated && d.vis.deleted <= n.vis.updated
                ==> m.node.value == n.value && m.node.vis.updated == n.vis.updated
        }),
        ({
            let m = propagated(n, d, vo, vn);
            &&& d.vis.updated <= n.vis.updated && m.node.vis.updated >= m.node.vis.deleted
                ==> m.node.value == n.value
            &&& d.vis.updated <= n.vis.updated && d.vis.deleted <= n.vis.updated
                ==> m.node.value == n.value && m.node.vis.updated == n.vis.updated
        }),
{
}

proof fn lemma_items_lookup(a: Seq<JsonV>, t: u64, i: int)
    requires
        0 <= i < a.len(),
    ensures
        lookup(expanded_items(a, t), crate::text::digits(i as nat, 10)) == Some(expanded(a[i], t)),
    decreases a.len(),
{
    let n = a.len();
    let init = a.subrange(0, n - 1);
    lemma_expanded_items_wf(init, t);
    let k = crate::text::digits((n - 1) as nat, 10);
    let ki = crate::text::digits(i as nat, 10);
    lemma_lookup_inserted(expanded_items(init, t), k, expanded(a.last(), t), ki);
    if i < n - 1 {
        lemma_items_lookup(init, t, i);
        assert(init[i] == a[i]);
        if ki == k {
            crate::text::law_digits_injective(i as nat, (n - 1) as nat, 10);
        }
    }
}

proof fn lemma_members_lookup(o: Seq<(Seq<char>, JsonV)>, t: u64, i: int)
    requires
        0 <= i < o.len(),
        forall|j: int| i < j < o.len() ==> o[j].0 != o[i].0,
    ensures
        lookup(expanded_members(o, t), o[i].0) == Some(expanded(o[i].1, t)),
    decreases o.len(),
{
    let n = o.len();
    let init = o.subrange(0, n - 1);
    lemma_expanded_members_wf(init, t);
    lemma_lookup_inserted(expanded_members(init, t), o.last().0, expanded(o.last().1, t), o[i].0);
    if i < n - 1 {
        assert(init[i] == o[i]);
        assert forall|j: int| i < j < init.len() implies init[j].0 != init[i].0 by {
            assert(init[j] == o[j]);
        }
        lemma_members_lookup(init, t, i);
        assert(o[n - 1].0 != o[i].0);
    }
}

/// Writing an array gives a node without a value of its own, written at the
/// time of the write, whose child under the decimal index of each item is
/// that item, written the same way.
pub proof fn law_expand_array(a: Seq<JsonV>, t: u64, i: int)
    requires
        0 <= i < a.len(),
    ensures
        expanded(JsonV::Array(a), t).vis == (Vis { updated: t, deleted: 0 }),
        expanded(JsonV::Array(a), t).value == Leaf::Null,
        expanded(JsonV::Array(a), t).keys is Some,
        lookup(expanded(JsonV::Array(a), t).keys->0, crate::text::digits(i as nat, 10)) == Some(
            expanded(a[i], t),
        ),
{
    lemma_items_lookup(a, t, i);
}

/// Writing an object gives a node without a value of its own whose child
/// under each member's key is that member's value, written the same way;
/// where a key occurs twice, the later member wins.
pub proof fn law_expand_object(o: Seq<(Seq<char>, JsonV)>, t: u64, i: int)
    requires
        0 <= i < o.len(),
        forall|j: int| i < j < o.len() ==> o[j].0 != o[i].0,
    ensures
        expanded(JsonV::Object(o), t).vis == (Vis { updated: t, deleted: 0 }),
        expanded(JsonV::Object(o), t).value == Leaf::Null,
        expanded(JsonV::Object(o), t).keys is Some,
        lookup(expanded(JsonV::Object(o), t).keys->0, o[i].0) == Some(expanded(o[i].1, t)),
{
    lemma_members_lookup(o, t, i);
}


/// The children listed by an update.
pub open spec fn listed(u: UpdateV) -> Seq<(Seq<char>, UpdateV)> {
    match u.keys {
        Some(ks) => ks,
        None => Seq::empty(),
    }
}

/// What a read reports under the child `k`, if anything.
pub open spec fn reported_child(u: Option<UpdateV>, k: Seq<char>) -> Option<UpdateV> {
    match u {
        Some(u) => lookup(listed(u), k),
        None => None,
    }
}

proof fn lemma_read_all_suffix(
    ks: Seq<(Seq<char>, NodeV)>,
    vis: Vis,
    p1: Seq<Seq<char>>,
    p2: Seq<Seq<char>>,
    d: int,
    u: UpdateV,
)
    requires
        p1.len() == p2.len(),
        forall|i: int| d <= i < p1.len() ==> p1[i] == p2[i],
    ensures
        read_all(ks, vis, p1, d, u) == read_all(ks, vis, p2, d, u),
    decreases ks,
{
    if ks.len() > 0 {
        lemma_read_all_suffix(ks.subrange(0, ks.len() - 1), vis, p1, p2, d, u);
        lemma_read_suffix(ks.last().1, vis, p1, p2, d);
    }
}

/// A read at depth `d` depends only on the components from `d` on.
proof fn lemma_read_suffix(n: NodeV, vis: Vis, p1: Seq<Seq<char>>, p2: Seq<Seq<char>>, d: int)
    requires
        p1.len() == p2.len(),
        forall|i: int| d <= i < p1.len() ==> p1[i] == p2[i],
    ensures
        read_node(n, vis, p1, d) == read_node(n, vis, p2, d),
    decreases n,
{
    let v = vis.descended(n.vis);
    if d < p1.len() && n.keys is Some {
        let ks = n.keys->0;
        assert(p1[d] == p2[d]);
        let part = p1[d];
        if part == wildcard() {
            lemma_read_all_suffix(ks, v, p1, p2, d + 1, no_update());
        } else {
            let i = lower_bound(keys_of(ks), part) as int;
            if found_at(keys_of(ks), part) && i < ks.len() {
                lemma_read_suffix(ks[i].1, v, p1, p2, d + 1);
            }
        }
    }
}

proof fn lemma_inserted_keys<V>(s: Seq<(Seq<char>, V)>, k: Seq<char>, v: V, j: Seq<char>)
    requires
        keys_of(inserted(s, k, v)).contains(j),
    ensures
        j == k || keys_of(s).contains(j),
{
    let t = inserted(s, k, v);
    let i = lower_bound(keys_of(s), k) as int;
    crate::order::lemma_lower_bound(keys_of(s), k);
    let x = choose|x: int| 0 <= x < keys_of(t).len() && keys_of(t)[x] == j;
    if j != k {
        if found_at(keys_of(s), k) {
            assert(keys_of(s)[x] == j);
        } else if x < i {
            assert(keys_of(s)[x] == j);
        } else {
            assert(x != i);
            assert(keys_of(s)[x - 1] == j);
        }
    }
}

/// Reading every child (a `*` component) lists each child's own read under
/// its key, and nothing else.
proof fn lemma_read_all_lookup(ks: Seq<(Seq<char>, NodeV)>, vis: Vis, p: Seq<Seq<char>>, d: int)
    requires
        sorted_keys(keys_of(ks)),
    ensures
        ({
            let r = read_all(ks, vis, p, d, no_update()).update;
            &&& r.visible is None && r.old is None && r.new is None
            &&& sorted_keys(keys_of(listed(r)))
            &&& forall|j: Seq<char>| keys_of(listed(r)).contains(j) ==> keys_of(ks).contains(j)
            &&& forall|i: int|
                0 <= i < ks.len() ==> lookup(listed(r), #[trigger] ks[i].0) == read_node(
                    ks[i].1,
                    vis,
                    p,
                    d,
                ).update
        }),
    decreases ks,
{
    let r = read_all(ks, vis, p, d, no_update()).update;
    if ks.len() == 0 {
        assert(keys_of(listed(r)) =~= Seq::<Seq<char>>::empty());
    } else {
        let init = ks.subrange(0, ks.len() - 1);
        lemma_sorted_init(ks);
        lemma_read_all_lookup(init, vis, p, d);
        let prev = read_all(init, vis, p, d, no_update()).update;
        let kk = ks.last().0;
        let rr = read_node(ks.last().1, vis, p, d).update;
        assert(!keys_of(listed(prev)).contains(kk));
        match rr {
            None => {
                assert(r == prev);
                assert forall|j: Seq<char>| keys_of(listed(r)).contains(j) implies keys_of(ks).contains(j) by {
                    assert(keys_of(init).contains(j));
                    let y = choose|y: int| 0 <= y < keys_of(init).len() && keys_of(init)[y] == j;
                    assert(init[y] == ks[y]);
                    assert(keys_of(ks)[y] == j);
                }
                assert(lookup(listed(r), kk) is None) by {
                    if found_at(keys_of(listed(r)), kk) {
                        assert(keys_of(listed(r)).contains(kk));
                    }
                }
            },
            Some(c) => {
                assert(listed(r) == inserted(listed(prev), kk, c));
                lemma_inserted(listed(prev), kk, c);
                assert forall|j: Seq<char>| keys_of(listed(r)).contains(j) implies keys_of(ks).contains(j) by {
                    lemma_inserted_keys(listed(prev), kk, c, j);
                    if j == kk {
                        assert(keys_of(ks)[ks.len() - 1] == kk);
                    } else {
                        assert(keys_of(listed(prev)).contains(j));
                        assert(keys_of(init).contains(j));
                        let y = choose|y: int| 0 <= y < keys_of(init).len() && keys_of(init)[y] == j;
                        assert(init[y] == ks[y]);
                        assert(keys_of(ks)[y] == j);
                    }
                }
                lemma_lookup_inserted(listed(prev), kk, c, kk);
            },
        }
        assert forall|i: int| 0 <= i < ks.len() implies lookup(listed(r), #[trigger] ks[i].0)
            == read_node(ks[i].1, vis, p, d).update by {
            if i < ks.len() - 1 {
                assert(init[i] == ks[i]);
                assert(keys_of(ks)[i] == ks[i].0);
                assert(keys_of(ks)[ks.len() - 1] == kk);
                assert(crate::order::key_lt(keys_of(ks)[i], keys_of(ks)[ks.len() - 1]));
                crate::order::lemma_key_order(kk, kk, kk);
                if let Some(c) = rr {
                    lemma_lookup_inserted(listed(prev), kk, c, ks[i].0);
                }
            } else {
                assert(ks[i] == ks.last());
            }
        }
    }
}

/// A `*` component still matches the components after it: for a child `k`
/// of the node, a read through `*` reports under `k` exactly what a read
/// naming `k` in its place reports under `k`.
pub proof fn law_read_wildcard(n: NodeV, vis: Vis, p: Seq<Seq<char>>, d: int, k: Seq<char>)
    requires
        wf(n),
        0 <= d < p.len(),
        p[d] == wildcard(),
        k != wildcard(),
        n.keys is Some,
        keys_of(n.keys->0).contains(k),
    ensures
        reported_child(read_node(n, vis, p, d).update, k) == reported_child(
            read_node(n, vis, p.update(d, k), d).update,
            k,
        ),
{
    let ks = n.keys->0;
    let v = vis.descended(n.vis);
    let p2 = p.update(d, k);
    let x = choose|x: int| 0 <= x < keys_of(ks).len() && keys_of(ks)[x] == k;
    crate::order::lemma_sorted_index(keys_of(ks), k, x);
    assert(ks[x].0 == k);
    lemma_read_suffix(ks[x].1, v, p, p2, d + 1);
    let child = read_node(ks[x].1, v, p, d + 1).update;
    // through `*`
    lemma_read_all_lookup(ks, v, p, d + 1);
    let r = read_all(ks, v, p, d + 1, no_update()).update;
    assert(lookup(listed(r), ks[x].0) == child);
    if r.keys is None {
        assert(listed(r) =~= Seq::<(Seq<char>, UpdateV)>::empty());
        assert(keys_of(listed(r)) =~= Seq::<Seq<char>>::empty());
    }
    assert(reported_child(read_node(n, vis, p, d).update, k) == child);
    // naming `k`
    assert(p2[d] == k);
    let u = crate::node::with_child(no_update(), k, child);
    match child {
        Some(c) => {
            assert(keys_of(Seq::<(Seq<char>, UpdateV)>::empty()) =~= Seq::<Seq<char>>::empty());
            lemma_lookup_inserted(Seq::<(Seq<char>, UpdateV)>::empty(), k, c, k);
        },
        None => {},
    }
}

} // verus!
