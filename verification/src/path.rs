//! Represents a path to a subtree / node. Ordered so we can iterate through paths in a BTreeMap

use vstd::prelude::*;
use vstd::string::*;

use crate::value::{items_view, lemma_items_view, Json, JsonV, Leaf};

verus! {

#[derive(Clone, Debug, Default, Hash, PartialEq, Eq, PartialOrd, Ord)]
pub struct Path {
    pub path: Vec<String>,
}

impl View for Path {
    type V = Seq<Seq<char>>;

    open spec fn view(&self) -> Seq<Seq<char>> {
        self.path@.map_values(|s: String| s@)
    }
}

/// The component `*`: matches any one key.
pub open spec fn wildcard() -> Seq<char> {
    seq!['*']
}

/// The component `**`: matches any subtree.
pub open spec fn recursive_wildcard() -> Seq<char> {
    seq!['*', '*']
}

/// A resolved component names a partition: it starts with `#`.
pub open spec fn is_resolved_component(c: Seq<char>) -> bool {
    c.len() > 0 && c[0] == '#'
}

/// Number of leading resolved components of `p`.
pub open spec fn resolved_len(p: Seq<Seq<char>>) -> nat
    decreases p.len(),
{
    if p.len() > 0 && is_resolved_component(p[0]) {
        1 + resolved_len(p.drop_first())
    } else {
        0
    }
}

/// How a listener at path `lp` fares when the subtree at `dp` is delegated,
/// having matched the first `i` components (`retain` tells whether a wildcard
/// was among them): whether the listener stays, and the listener path
/// relative to the delegated subtree, if it reaches into it.
pub open spec fn delegation_from(lp: Seq<Seq<char>>, dp: Seq<Seq<char>>, i: int, retain: bool) -> (
    bool,
    Option<Seq<Seq<char>>>,
)
    decreases dp.len() - i,
{
    if i >= dp.len() || i < 0 {
        (retain, Some(lp.skip(i)))
    } else if i >= lp.len() {
        // Listener path shorter than delegate path
        (true, None)
    } else if lp[i] == dp[i] {
        delegation_from(lp, dp, i + 1, retain)
    } else if lp[i] == wildcard() {
        delegation_from(lp, dp, i + 1, true)
    } else if lp[i] == recursive_wildcard() {
        (true, Some(seq![recursive_wildcard()]))
    } else {
        (true, None)
    }
}

pub open spec fn delegation(lp: Seq<Seq<char>>, dp: Seq<Seq<char>>) -> (bool, Option<Seq<Seq<char>>>) {
    delegation_from(lp, dp, 0, false)
}

pub open spec fn opt_path_view(p: Option<Path>) -> Option<Seq<Seq<char>>> {
    match p {
        Some(p) => Some(p@),
        None => None,
    }
}

/// Whether `s` is the component `*`.
pub fn is_wildcard(s: &String) -> (r: bool)
    ensures
        r == (s@ == wildcard()),
{
    let t = s.as_str();
    let r = t.unicode_len() == 1 && t.get_char(0) == '*';
    proof {
        if r {
            assert(s@ =~= wildcard());
        }
    }
    r
}

/// Whether `s` is the component `**`.
pub fn is_recursive_wildcard(s: &String) -> (r: bool)
    ensures
        r == (s@ == recursive_wildcard()),
{
    let t = s.as_str();
    let r = t.unicode_len() == 2 && t.get_char(0) == '*' && t.get_char(1) == '*';
    proof {
        if r {
            assert(s@ =~= recursive_wildcard());
        }
    }
    r
}

/// Whether `s` starts with `#`.
pub fn is_resolved(s: &String) -> (r: bool)
    ensures
        r == is_resolved_component(s@),
{
    let t = s.as_str();
    t.unicode_len() > 0 && t.get_char(0) == '#'
}

/// Copies a list of components.
fn copy_components(v: &Vec<String>, from: usize, to: usize) -> (r: Vec<String>)
    requires
        from <= to <= v@.len(),
    ensures
        r@.map_values(|s: String| s@) == v@.map_values(|s: String| s@).subrange(
            from as int,
            to as int,
        ),
{
    let mut r: Vec<String> = Vec::new();
    let mut i = from;
    while i < to
        invariant
            from <= i <= to <= v@.len(),
            r@.len() == i - from,
            forall|j: int| 0 <= j < r@.len() ==> #[trigger] r@[j]@ == v@[from + j]@,
        decreases to - i,
    {
        r.push(v[i].clone());
        i = i + 1;
    }
    assert(r@.map_values(|s: String| s@) =~= v@.map_values(|s: String| s@).subrange(
        from as int,
        to as int,
    ));
    r
}

impl Path {
    pub fn empty() -> (r: Path)
        ensures
            r@ == Seq::<Seq<char>>::empty(),
    {
        let r = Path { path: Vec::new() };
        assert(r@ =~= Seq::<Seq<char>>::empty());
        r
    }

    pub fn new(path: Vec<String>) -> (r: Path)
        ensures
            r.path == path,
    {
        Path { path: path }
    }

    pub fn append(&mut self, path: &mut Path)
        ensures
            final(self)@ == old(self)@ + old(path)@,
            final(path)@ == Seq::<Seq<char>>::empty(),
    {
        self.path.append(&mut path.path);
        assert(self@ =~= old(self)@ + old(path)@);
        assert(path@ =~= Seq::<Seq<char>>::empty());
    }

    pub fn push(&mut self, component: &String)
        ensures
            final(self)@ == old(self)@.push(component@),
    {
        self.path.push(component.clone());
        assert(self@ =~= old(self)@.push(component@));
    }

    pub fn pop(&mut self) -> (r: Option<String>)
        ensures
            old(self)@.len() > 0 ==> r is Some && r->0@ == old(self)@.last() && final(self)@
                == old(self)@.drop_last(),
            old(self)@.len() == 0 ==> r is None && final(self)@ == old(self)@,
    {
        let r = self.path.pop();
        assert(old(self)@.len() > 0 ==> self@ =~= old(self)@.drop_last());
        r
    }

    pub fn len(&self) -> (r: usize)
        ensures
            r == self@.len(),
    {
        self.path.len()
    }

    pub fn truncate(&mut self, len: usize)
        ensures
            len <= old(self)@.len() ==> final(self)@ == old(self)@.take(len as int),
            len > old(self)@.len() ==> final(self)@ == old(self)@,
    {
        self.path.truncate(len);
        assert(len <= old(self)@.len() ==> self@ =~= old(self)@.take(len as int));
        assert(len > old(self)@.len() ==> self@ =~= old(self)@);
    }

    /// Returns a new `Path` prefix that is fully resolved, i.e. no wildcards:
    /// the leading components that start with `#`.
    pub fn resolved(&self) -> (r: Path)
        ensures
            r@ == self@.take(resolved_len(self@) as int),
    {
        let mut n: usize = 0;
        proof {
            assert(self@.skip(0) =~= self@);
        }
        while n < self.path.len() && is_resolved(&self.path[n])
            invariant
                0 <= n <= self@.len(),
                resolved_len(self@) == n + resolved_len(self@.skip(n as int)),
            decreases self@.len() - n,
        {
            assert(self@.skip(n as int).drop_first() =~= self@.skip(n + 1));
            n = n + 1;
        }
        proof {
            if n < self@.len() {
                assert(self@.skip(n as int)[0] == self@[n as int]);
            }
        }
        let r = Path::new(copy_components(&self.path, 0, n));
        assert(r@ =~= self@.take(n as int));
        r
    }

    /// Computes whether a listener at this path is retained when the subtree
    /// at `d_path` is delegated, and the listener path relative to that
    /// subtree, if the listener reaches into it.
    pub fn delegate(&self, d_path: &Path) -> (r: (bool, Option<Path>))
        ensures
            r.0 == delegation(self@, d_path@).0,
            opt_path_view(r.1) == delegation(self@, d_path@).1,
    {
        let mut retain = false;
        let mut i: usize = 0;
        while i < d_path.path.len()
            invariant
                0 <= i <= d_path@.len(),
                i <= self@.len(),
                delegation(self@, d_path@) == delegation_from(self@, d_path@, i as int, retain),
            decreases d_path@.len() - i,
        {
            if i >= self.path.len() {
                // Listener path shorter then delegate path
                return (true, None);
            }
            let p = &self.path[i];
            if *p == d_path.path[i] {
                // Part matches, so continue
            } else if is_wildcard(p) {
                // Wildcard matches, retain and continue
                retain = true;
            } else if is_recursive_wildcard(p) {
                // Recursive, retain and return delegated
                let mut components: Vec<String> = Vec::new();
                let star_star = String::from_str("**");
                proof {
                    reveal_strlit("**");
                    assert(star_star@ == "**"@);
                    assert(star_star@ =~= recursive_wildcard());
                }
                components.push(star_star);
                let listener = Path::new(components);
                proof {
                    assert(listener@ =~= seq![recursive_wildcard()]);
                }
                return (true, Some(listener));
            } else {
                // Not matching, just retain
                return (true, None);
            }
            i = i + 1;
        }
        let rest = Path::new(copy_components(&self.path, i, self.path.len()));
        assert(rest@ =~= self@.skip(i as int));
        (retain, Some(rest))
    }

    pub fn slice(&self, n: usize) -> (r: Path)
        requires
            n <= self@.len(),
        ensures
            r@ == self@.skip(n as int),
    {
        let r = Path::new(copy_components(&self.path, n, self.path.len()));
        assert(r@ =~= self@.skip(n as int));
        r
    }

    /// Returns an equal copy of this path.
    pub fn copy(&self) -> (r: Path)
        ensures
            r@ == self@,
    {
        let r = Path::new(copy_components(&self.path, 0, self.path.len()));
        assert(r@ =~= self@);
        r
    }
}

/// JSON form of a path: an array of its components.
pub open spec fn path_json(p: Seq<String>) -> JsonV {
    JsonV::Array(p.map_values(|c: String| JsonV::Scalar(Leaf::String(c))))
}

impl Path {
    pub fn to_json(&self) -> (r: Json)
        ensures
            r@ == path_json(self.path@),
    {
        let mut items: Vec<Json> = Vec::new();
        let mut i: usize = 0;
        while i < self.path.len()
            invariant
                0 <= i <= self.path@.len(),
                items@.len() == i,
                forall|j: int| 0 <= j < i ==> #[trigger] items@[j] == Json::Scalar(Leaf::String(self.path@[j])),
            decreases self.path@.len() - i,
        {
            items.push(Json::Scalar(Leaf::String(self.path[i].clone())));
            i = i + 1;
        }
        proof {
            lemma_items_view(items@);
            assert(items_view(items@) =~= self.path@.map_values(|c: String| JsonV::Scalar(Leaf::String(c))));
        }
        Json::Array(items)
    }
}

proof fn lemma_delegation_retained(lp: Seq<Seq<char>>, dp: Seq<Seq<char>>, i: int)
    ensures
        delegation_from(lp, dp, i, true).0,
    decreases dp.len() - i,
{
    if 0 <= i < dp.len() && i < lp.len() && (lp[i] == dp[i] || lp[i] == wildcard()) {
        lemma_delegation_retained(lp, dp, i + 1);
    }
}

proof fn lemma_delegation_literal(lp: Seq<Seq<char>>, dp: Seq<Seq<char>>, i: int)
    requires
        0 <= i <= dp.len(),
        i <= lp.len(),
    ensures
        !delegation_from(lp, dp, i, false).0 <==> (dp.len() <= lp.len() && forall|j: int|
            i <= j < dp.len() ==> lp[j] == dp[j]),
        !delegation_from(lp, dp, i, false).0 ==> delegation_from(lp, dp, i, false).1 == Some(
            lp.skip(dp.len() as int),
        ),
    decreases dp.len() - i,
{
    if i < dp.len() {
        if i < lp.len() {
            if lp[i] == dp[i] {
                lemma_delegation_literal(lp, dp, i + 1);
                if dp.len() <= lp.len() && forall|j: int| i + 1 <= j < dp.len() ==> lp[j] == dp[j] {
                    assert forall|j: int| i <= j < dp.len() implies lp[j] == dp[j] by {
                        if j > i {
                            assert(lp[j] == dp[j]);
                        }
                    }
                }
            } else if lp[i] == wildcard() {
                lemma_delegation_retained(lp, dp, i + 1);
                assert(lp[i] != dp[i]);
            } else {
                assert(lp[i] != dp[i]);
            }
        }
    }
}

/// A listener is dropped from the zone when a subtree is delegated exactly
/// when its path runs literally through the delegated path; it then follows
/// into the subtree with the rest of its path. Every other listener stays.
pub proof fn law_delegate_literal_prefix(lp: Seq<Seq<char>>, dp: Seq<Seq<char>>)
    ensures
        !delegation(lp, dp).0 <==> (dp.len() <= lp.len() && lp.take(dp.len() as int) == dp),
        !delegation(lp, dp).0 ==> delegation(lp, dp).1 == Some(lp.skip(dp.len() as int)),
        delegation(dp + lp, dp) == (false, Some(lp)),
{
    lemma_delegation_literal(lp, dp, 0);
    if dp.len() <= lp.len() && forall|j: int| 0 <= j < dp.len() ==> lp[j] == dp[j] {
        assert(lp.take(dp.len() as int) =~= dp);
    }
    if dp.len() <= lp.len() && lp.take(dp.len() as int) == dp {
        assert forall|j: int| 0 <= j < dp.len() implies lp[j] == dp[j] by {
            assert(lp.take(dp.len() as int)[j] == lp[j]);
        }
    }
    let full = dp + lp;
    lemma_delegation_literal(full, dp, 0);
    assert forall|j: int| 0 <= j < dp.len() implies full[j] == dp[j] by {}
    assert(full.skip(dp.len() as int) =~= lp);
}

/// The resolved prefix of a path: all its components start with `#`, and the
/// component after it, if any, does not.
pub proof fn law_resolved_prefix(p: Seq<Seq<char>>)
    ensures
        resolved_len(p) <= p.len(),
        forall|i: int| 0 <= i < resolved_len(p) ==> #[trigger] is_resolved_component(p[i]),
        resolved_len(p) < p.len() ==> !is_resolved_component(p[resolved_len(p) as int]),
    decreases p.len(),
{
    if p.len() > 0 && is_resolved_component(p[0]) {
        let rest = p.drop_first();
        law_resolved_prefix(rest);
        assert forall|i: int| 0 <= i < resolved_len(p) implies #[trigger] is_resolved_component(p[i]) by {
            if i > 0 {
                assert(p[i] == rest[i - 1]);
                assert(is_resolved_component(rest[i - 1]));
            }
        }
        if resolved_len(p) < p.len() {
            assert(p[resolved_len(p) as int] == rest[resolved_len(rest) as int]);
        }
    }
}

/// Pushing a component and popping it again gives back the component and
/// the path as it was.
pub proof fn law_push_pop(p: Seq<Seq<char>>, c: Seq<char>)
    ensures
        p.push(c).len() > 0,
        p.push(c).last() == c,
        p.push(c).drop_last() == p,
{
    assert(p.push(c).drop_last() =~= p);
}

} // verus!
