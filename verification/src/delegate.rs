//! Measures the size of nodes and decides where a zone's tree is split off
//! into zones of its own.
//!
//! Sizes are counted in bytes of this module's own measure: a node takes 24
//! for its timestamps and delegation marker, plus its value (8 for a number,
//! 1 for a boolean, the UTF-8 bytes of a string); a child adds the UTF-8
//! bytes of its key. Sums stop at `usize::MAX`.

use vstd::prelude::*;
use vstd::string::*;
use vstd::utf8::encode_utf8;

use crate::json_text::precise_time_ns;
use crate::node::{
    children_view, empty_node, lemma_children_view, lemma_children_view_inserted, opt_node_view,
    Node, NodeV, Vis,
};
use crate::order::{insert_entry, inserted, key_less, key_lt};
use crate::value::Leaf;

verus! {

/// A node whose own value is larger than this is not split further.
pub const MAX_OWN_SIZE: usize = 32768;

/// Only a child larger than this may become a zone of its own.
pub const MIN_DELEGATED_SIZE: usize = 1024;

/// Children are split off while a node is larger than this.
pub const MAX_ZONE_SIZE: usize = 65535;

/// Number of bytes of `s` in UTF-8.
pub open spec fn byte_len(s: Seq<char>) -> nat {
    encode_utf8(s).len()
}

/// Size of a leaf value.
pub open spec fn leaf_size(v: Leaf) -> nat {
    match v {
        Leaf::Null => 0,
        Leaf::Bool(_) => 1,
        Leaf::String(s) => byte_len(s@),
        _ => 8,
    }
}

/// `x`, or `usize::MAX` where `x` is larger.
pub open spec fn cap(x: nat) -> nat {
    if x > usize::MAX {
        usize::MAX as nat
    } else {
        x
    }
}

/// Size of a node without its children.
pub open spec fn own_size(n: NodeV) -> nat {
    cap(24 + leaf_size(n.value))
}

/// The marker of a subtree handed over to a zone of its own at time `ts`:
/// an odd delegation marker.
pub open spec fn delegated_at(ts: u64) -> NodeV {
    NodeV { delegated: ts | 1, ..empty_node() }
}

/// State while the children of a node are measured one by one: the size so
/// far, the delegations found below, and the children large enough to be
/// split off, with their sizes.
pub struct Scan {
    pub total: nat,
    pub found: Seq<(Seq<char>, NodeV)>,
    pub big: Seq<(nat, Seq<char>)>,
}

/// Measures the children `ks`, in order, starting from the size `own`.
pub open spec fn scan(ks: Seq<(Seq<char>, NodeV)>, own: nat, ts: u64) -> Scan
    decreases ks,
{
    if ks.len() == 0 {
        Scan { total: own, found: Seq::empty(), big: Seq::empty() }
    } else {
        let prev = scan(ks.subrange(0, ks.len() - 1), own, ts);
        let k = ks.last().0;
        let c = partition(ks.last().1, ts);
        let size = cap(c.0 + byte_len(k));
        Scan {
            total: cap(prev.total + size),
            found: match c.1 {
                Some(d) => inserted(prev.found, k, d),
                None => prev.found,
            },
            big: if size > MIN_DELEGATED_SIZE {
                prev.big.push((size, k))
            } else {
                prev.big
            },
        }
    }
}

/// `a` comes after `b`: larger, or as large with a later key.
pub open spec fn above(a: (nat, Seq<char>), b: (nat, Seq<char>)) -> bool {
    a.0 > b.0 || (a.0 == b.0 && key_lt(b.1, a.1))
}

/// Position of the greatest entry of `s`.
pub open spec fn max_at(s: Seq<(nat, Seq<char>)>) -> int
    decreases s.len(),
{
    if s.len() <= 1 {
        0
    } else {
        let m = max_at(s.drop_last());
        if above(s.last(), s[m]) {
            s.len() - 1
        } else {
            m
        }
    }
}

pub proof fn lemma_max_at(s: Seq<(nat, Seq<char>)>)
    requires
        s.len() > 0,
    ensures
        0 <= max_at(s) < s.len(),
    decreases s.len(),
{
    if s.len() > 1 {
        lemma_max_at(s.drop_last());
    }
}

/// The entry `max_at` picks is at least as large as every entry, and when
/// as large as another, has the later key.
pub proof fn law_max_at_largest(s: Seq<(nat, Seq<char>)>, j: int)
    requires
        0 <= j < s.len(),
    ensures
        0 <= max_at(s) < s.len(),
        s[max_at(s)].0 >= s[j].0,
        j != max_at(s) && s[j].0 == s[max_at(s)].0 ==> !key_lt(s[max_at(s)].1, s[j].1),
    decreases s.len(),
{
    lemma_max_at(s);
    if s.len() > 1 {
        let init = s.drop_last();
        let m = max_at(init);
        if j < s.len() - 1 {
            law_max_at_largest(init, j);
            assert(init[j] == s[j]);
            assert(init[m] == s[m]);
            if above(s.last(), s[m]) {
                crate::order::lemma_key_order(s[m].1, s.last().1, s[j].1);
                crate::order::lemma_key_order(s[j].1, s[m].1, s.last().1);
            }
        } else {
            lemma_max_at(init);
            law_max_at_largest(init, m);
            if !above(s.last(), s[m]) {
                crate::order::lemma_key_order(s[m].1, s.last().1, s[m].1);
            }
        }
    }
}

/// Splits off the greatest of the `big` children while the node is larger
/// than `MAX_ZONE_SIZE`, marking each as delegated at `ts`.
pub open spec fn trim(
    total: nat,
    big: Seq<(nat, Seq<char>)>,
    found: Seq<(Seq<char>, NodeV)>,
    ts: u64,
) -> (nat, Seq<(Seq<char>, NodeV)>)
    decreases big.len(),
{
    if total <= MAX_ZONE_SIZE || big.len() == 0 {
        (total, found)
    } else {
        proof {
            lemma_max_at(big);
        }
        let e = big[max_at(big)];
        trim(
            if total >= e.0 {
                (total - e.0) as nat
            } else {
                0
            },
            big.remove(max_at(big)),
            inserted(found, e.1, delegated_at(ts)),
            ts,
        )
    }
}

/// The size of `n` once split, and the delegations to merge into it (a
/// node holding only delegation markers), if any: children are measured
/// unless the node's own size passes `MAX_OWN_SIZE`, then the largest
/// children are split off while the node stays larger than `MAX_ZONE_SIZE`.
pub open spec fn partition(n: NodeV, ts: u64) -> (nat, Option<NodeV>)
    decreases n,
{
    let own = own_size(n);
    match n.keys {
        Some(ks) => if own <= MAX_OWN_SIZE {
            let sc = scan(ks, own, ts);
            let r = trim(sc.total, sc.big, sc.found, ts);
            (
                r.0,
                if r.1.len() == 0 {
                    None
                } else {
                    Some(NodeV { keys: Some(r.1), ..empty_node() })
                },
            )
        } else {
            (own, None)
        },
        None => (own, None),
    }
}

/// The children large enough to split off, as executable values.
pub open spec fn big_view(b: Seq<(usize, String)>) -> Seq<(nat, Seq<char>)> {
    b.map_values(|p: (usize, String)| (p.0 as nat, p.1@))
}

impl Node {
    /// A node handed over to a zone of its own at time `timestamp`.
    pub fn delegate(timestamp: u64) -> (r: Node)
        ensures
            r@ == delegated_at(timestamp),
    {
        Node {
            vis: Vis { updated: 0, deleted: 0 },
            value: Leaf::Null,
            keys: None,
            delegated: timestamp | 1,
        }
    }
}

/// Number of bytes of `s`.
fn bytes_of(s: &String) -> (r: usize)
    ensures
        r == byte_len(s@),
{
    s.as_str().as_bytes().len()
}

fn leaf_size_of(v: &Leaf) -> (r: usize)
    ensures
        r == leaf_size(*v),
{
    match v {
        Leaf::Null => 0,
        Leaf::Bool(_) => 1,
        Leaf::String(s) => bytes_of(s),
        _ => 8,
    }
}

fn max_index(big: &Vec<(usize, String)>) -> (m: usize)
    requires
        big@.len() > 0,
    ensures
        m == max_at(big_view(big@)),
        m < big@.len(),
{
    let ghost bv = big_view(big@);
    let mut m: usize = 0;
    let mut i: usize = 1;
    proof {
        assert(bv.take(1).len() == 1);
    }
    while i < big.len()
        invariant
            1 <= i <= big@.len(),
            bv == big_view(big@),
            bv.len() == big@.len(),
            m < i,
            m == max_at(bv.take(i as int)),
        decreases big@.len() - i,
    {
        proof {
            assert(bv.take(i + 1).drop_last() =~= bv.take(i as int));
            assert(bv.take(i + 1).last() == bv[i as int]);
            assert(bv.take(i + 1)[m as int] == bv[m as int]);
        }
        let a = big[i].0;
        let b = big[m].0;
        let later = a > b || (a == b && key_less(&big[m].1, &big[i].1));
        if later {
            m = i;
        }
        i = i + 1;
    }
    proof {
        assert(bv.take(i as int) =~= bv);
    }
    m
}

/// Measures `node` and decides which of its subtrees to split off at time
/// `ts`: returns the size and the delegations to merge into the node.
pub fn check_node(node: &Node, ts: u64) -> (r: (usize, Option<Node>))
    ensures
        r.0 == partition(node@, ts).0,
        opt_node_view(r.1) == partition(node@, ts).1,
        r.1 is Some ==> crate::node::wf(r.1->0@),
    decreases node,
{
    proof {
        crate::node_laws::law_partition_wf(node@, ts);
    }
    let own = 24usize.saturating_add(leaf_size_of(&node.value));
    match &node.keys {
        None => (own, None),
        Some(ks) => {
            if own > MAX_OWN_SIZE {
                return (own, None);
            }
            let ghost cv = children_view(ks@);
            proof {
                lemma_children_view(ks@);
                assert(cv.take(0) =~= Seq::<(Seq<char>, NodeV)>::empty());
                assert(children_view(Seq::<(String, Node)>::empty()) =~= Seq::<(Seq<char>, NodeV)>::empty());
                assert(big_view(Seq::<(usize, String)>::empty()) =~= Seq::<(nat, Seq<char>)>::empty());
            }
            let mut total: usize = own;
            let mut found: Vec<(String, Node)> = Vec::new();
            let mut big: Vec<(usize, String)> = Vec::new();
            let mut i: usize = 0;
            while i < ks.len()
                invariant
                    node.keys == Some(*ks),
                    cv == children_view(ks@),
                    cv.len() == ks@.len(),
                    0 <= i <= ks@.len(),
                    scan(cv.take(i as int), own as nat, ts) == (Scan {
                        total: total as nat,
                        found: children_view(found@),
                        big: big_view(big@),
                    }),
                decreases ks@.len() - i,
            {
                proof {
                    lemma_children_view(ks@);
                    assert(cv.take(i + 1).subrange(0, i as int) =~= cv.take(i as int));
                    assert(cv.take(i + 1).last() == cv[i as int]);
                    assert(decreases_to!(node => node.keys->0));
                    assert(decreases_to!(ks => ks@[i as int].1));
                }
                let (cs, cd) = check_node(&ks[i].1, ts);
                let k = &ks[i].0;
                match cd {
                    Some(d) => {
                        let ghost before = found@;
                        let ghost dv = d;
                        let kc = k.clone();
                        insert_entry(&mut found, kc, d);
                        proof {
                            lemma_children_view_inserted(before, kc, dv);
                        }
                    },
                    None => {},
                }
                let size = cs.saturating_add(bytes_of(k));
                total = total.saturating_add(size);
                if size > MIN_DELEGATED_SIZE {
                    let ghost b = big@;
                    big.push((size, k.clone()));
                    proof {
                        assert(big_view(big@) =~= big_view(b).push((size as nat, k@)));
                    }
                }
                i = i + 1;
            }
            proof {
                assert(cv.take(i as int) =~= cv);
            }
            let ghost t0 = total as nat;
            let ghost b0 = big_view(big@);
            let ghost f0 = children_view(found@);
            while total > MAX_ZONE_SIZE && big.len() > 0
                invariant
                    trim(total as nat, big_view(big@), children_view(found@), ts) == trim(
                        t0,
                        b0,
                        f0,
                        ts,
                    ),
                decreases big@.len(),
            {
                let m = max_index(&big);
                let ghost bb = big@;
                let ghost before = found@;
                let (sz, k) = big.remove(m);
                proof {
                    assert(big_view(big@) =~= big_view(bb).remove(m as int));
                    assert(big_view(bb)[m as int] == (sz as nat, k@));
                }
                let ghost kc = k;
                let marker = Node::delegate(ts);
                let ghost mv = marker;
                insert_entry(&mut found, k, marker);
                proof {
                    lemma_children_view_inserted(before, kc, mv);
                }
                total = total.saturating_sub(sz);
            }
            if found.len() == 0 {
                proof {
                    assert(children_view(found@).len() == 0) by {
                        lemma_children_view(found@);
                    }
                }
                (total, None)
            } else {
                proof {
                    lemma_children_view(found@);
                }
                (
                    total,
                    Some(
                        Node {
                            vis: Vis { updated: 0, deleted: 0 },
                            value: Leaf::Null,
                            keys: Some(found),
                            delegated: 0,
                        },
                    ),
                )
            }
        },
    }
}

/// Decides which subtrees of `node` to split off into zones of their own,
/// marking them delegated at the current time. Returns the delegations to
/// merge into the node, if any.
pub fn delegate(node: &Node) -> (r: Option<Node>)
    ensures
        exists|ts: u64| opt_node_view(r) == partition(node@, ts).1,
        r is Some ==> crate::node::wf(r->0@),
{
    let ts = precise_time_ns();
    let (_, d) = check_node(node, ts);
    d
}

/// Splitting goes largest first: while the node is too large and
/// candidates are left, the next child marked delegated is one that is at
/// least as large as every remaining candidate, its size comes off the
/// total, and the rest of the split goes on without it.
pub proof fn law_trim_largest_first(
    total: nat,
    big: Seq<(nat, Seq<char>)>,
    found: Seq<(Seq<char>, NodeV)>,
    ts: u64,
)
    requires
        total > MAX_ZONE_SIZE,
        big.len() > 0,
    ensures
        exists|m: int|
            0 <= m < big.len() && (forall|j: int| 0 <= j < big.len() ==> big[m].0 >= #[trigger] big[j].0)
                && trim(total, big, found, ts) == trim(
                if total >= big[m].0 {
                    (total - big[m].0) as nat
                } else {
                    0
                },
                big.remove(m),
                inserted(found, big[m].1, delegated_at(ts)),
                ts,
            ),
    decreases big.len(),
{
    let m = max_at(big);
    lemma_max_at(big);
    assert forall|j: int| 0 <= j < big.len() implies big[m].0 >= #[trigger] big[j].0 by {
        law_max_at_largest(big, j);
    }
    assert(trim(total, big, found, ts) == trim(
        if total >= big[m].0 {
            (total - big[m].0) as nat
        } else {
            0
        },
        big.remove(m),
        inserted(found, big[m].1, delegated_at(ts)),
        ts,
    ));
}

} // verus!
