//! Zone management decisions: which zone serves a path, when zones load, and
//! which zone to evict.

use std::collections::VecDeque;

use vstd::prelude::*;

use crate::path::Path;

verus! {

pub const MAX_LOADED_SOFT: usize = 600;

pub const MAX_LOADED_HARD: usize = 800;

/// Some listed entry has path `p`.
pub open spec fn lists<T>(active: Seq<(Path, T)>, p: Seq<Seq<char>>) -> bool {
    exists|i: int| 0 <= i < active.len() && (#[trigger] active[i]).0@ == p
}

/// Whether two paths are equal.
pub fn same_path(a: &Path, b: &Path) -> (r: bool)
    ensures
        r == (a@ == b@),
{
    if a.path.len() != b.path.len() {
        return false;
    }
    let mut i: usize = 0;
    while i < a.path.len()
        invariant
            a@.len() == b@.len(),
            0 <= i <= a@.len(),
            forall|j: int| 0 <= j < i ==> a@[j] == b@[j],
        decreases a@.len() - i,
    {
        if !(a.path[i] == b.path[i]) {
            proof {
                assert(a@[i as int] != b@[i as int]);
            }
            return false;
        }
        i = i + 1;
    }
    assert(a@ =~= b@);
    true
}

/// Index of the entry with path `p`, if any.
pub fn find_path<T>(active: &Vec<(Path, T)>, p: &Path) -> (r: Option<usize>)
    ensures
        match r {
            Some(i) => i < active@.len() && active@[i as int].0@ == p@,
            None => !lists(active@, p@),
        },
{
    let mut i: usize = 0;
    while i < active.len()
        invariant
            0 <= i <= active@.len(),
            forall|j: int| 0 <= j < i ==> active@[j].0@ != p@,
        decreases active@.len() - i,
    {
        if same_path(&active[i].0, p) {
            return Some(i);
        }
        i = i + 1;
    }
    None
}

/// Find the 'closest' zone that would be able to satisfy a call to `path`:
/// the entry whose path is the longest prefix of `path`. `None` when no
/// prefix of `path` (not even the root) is listed.
pub fn find_nearest<T>(active: &Vec<(Path, T)>, path: &Path) -> (r: Option<usize>)
    ensures
        match r {
            Some(i) => i < active@.len() && active@[i as int].0@.len() <= path@.len()
                && active@[i as int].0@ == path@.take(active@[i as int].0@.len() as int)
                && forall|m: int|
                active@[i as int].0@.len() < m <= path@.len() ==> !lists(active@, path@.take(m)),
            None => forall|m: int| 0 <= m <= path@.len() ==> !lists(active@, path@.take(m)),
        },
{
    let mut probe = path.copy();
    loop
        invariant
            probe@.len() <= path@.len(),
            probe@ == path@.take(probe@.len() as int),
            forall|m: int| probe@.len() < m <= path@.len() ==> !lists(active@, path@.take(m)),
        decreases probe@.len(),
    {
        match find_path(active, &probe) {
            Some(i) => {
                return Some(i);
            },
            None => {},
        }
        if probe.len() == 0 {
            return None;
        }
        probe.pop();
        proof {
            assert(probe@ =~= path@.take(probe@.len() as int));
        }
    }
}

/// Zones loaded, and zones waiting for room to load.
pub struct Loader<T> {
    pub loaded: usize,
    pub requesting_load: VecDeque<T>,
}

impl<T> Loader<T> {
    /// At most one zone past `MAX_LOADED_HARD` is ever counted as loaded, and
    /// zones wait in line only while the count stands there.
    pub open spec fn wf(&self) -> bool {
        &&& self.loaded <= MAX_LOADED_HARD + 1
        &&& self.requesting_load@.len() > 0 ==> self.loaded == MAX_LOADED_HARD + 1
    }

    pub fn new() -> (r: Loader<T>)
        ensures
            r.loaded == 0,
            r.requesting_load@ == Seq::<T>::empty(),
            r.wf(),
    {
        Loader { loaded: 0, requesting_load: VecDeque::new() }
    }

    /// A zone asks to load its data: past `MAX_LOADED_HARD` loaded zones it
    /// waits in line (returns `None`), otherwise it may load now and counts
    /// as loaded (returns the zone).
    pub fn zone_request_load(&mut self, zone: T) -> (r: Option<T>)
        ensures
            old(self).loaded > MAX_LOADED_HARD ==> r is None && final(self).loaded == old(
                self,
            ).loaded && final(self).requesting_load@ == old(self).requesting_load@.push(zone),
            old(self).loaded <= MAX_LOADED_HARD ==> r == Some(zone) && final(self).loaded == old(
                self,
            ).loaded + 1 && final(self).requesting_load@ == old(self).requesting_load@,
            old(self).wf() ==> final(self).wf(),
    {
        if self.loaded > MAX_LOADED_HARD {
            self.requesting_load.push_back(zone);
            None
        } else {
            self.loaded = self.loaded + 1;
            Some(zone)
        }
    }

    /// A zone hibernated: it no longer counts as loaded, and the first zone in
    /// line, if any, may load now (returned) and counts as loaded.
    pub fn zone_hibernated(&mut self) -> (r: Option<T>)
        requires
            old(self).loaded > 0,
        ensures
            old(self).requesting_load@.len() == 0 ==> r is None && final(self).loaded == old(
                self,
            ).loaded - 1 && final(self).requesting_load@ == old(self).requesting_load@,
            old(self).requesting_load@.len() > 0 ==> r == Some(old(self).requesting_load@[0])
                && final(self).loaded == old(self).loaded && final(self).requesting_load@ == old(
                self,
            ).requesting_load@.drop_first(),
            old(self).wf() ==> final(self).wf(),
    {
        self.loaded = self.loaded - 1;
        match self.requesting_load.pop_front() {
            Some(zone) => {
                self.loaded = self.loaded + 1;
                Some(zone)
            },
            None => None,
        }
    }
}

/// Which loaded zone to evict, given `loaded` evictable zones, `pending`
/// zones asked to hibernate, and two random numbers `r` and `i`: none while
/// at most `MAX_LOADED_SOFT` zones are counted or none is evictable;
/// otherwise, with a chance that grows with the overflow, the `i % loaded`th
/// zone.
pub open spec fn evict_pick(loaded: nat, pending: nat, r: u64, i: u64) -> Option<nat> {
    let total = loaded + pending;
    if total <= MAX_LOADED_SOFT {
        None
    } else if loaded == 0 {
        None
    } else if (r % ((MAX_LOADED_HARD - MAX_LOADED_SOFT) as u64)) / 2 > total - MAX_LOADED_SOFT {
        None
    } else {
        Some((i % (loaded as u64)) as nat)
    }
}

pub fn evict_choice(loaded: usize, pending: usize, r: u64, i: u64) -> (c: Option<usize>)
    requires
        loaded + pending <= usize::MAX,
    ensures
        match c {
            Some(x) => evict_pick(loaded as nat, pending as nat, r, i) == Some(x as nat) && x
                < loaded,
            None => evict_pick(loaded as nat, pending as nat, r, i) is None,
        },
{
    let total = loaded + pending;
    if total <= MAX_LOADED_SOFT {
        return None;
    }
    if loaded == 0 {
        // Nothing to evict
        return None;
    }
    let overflow = total - MAX_LOADED_SOFT;
    let rr = (r % ((MAX_LOADED_HARD - MAX_LOADED_SOFT) as u64)) / 2;
    if rr > overflow as u64 {
        return None;
    }
    let x = i % (loaded as u64);
    Some(x as usize)
}

/// A random number (`rand::random::<u64>`). Nothing is claimed of it.
#[verifier::external_body]
fn random_u64() -> u64 {
    rand::random::<u64>()
}

/// Decides whether to evict one of `loaded` evictable zones, `pending` more
/// having been asked to hibernate, drawing the random numbers for
/// `evict_pick`. Returns the index of the zone to evict: what `evict_pick`
/// gives for some draw, and a zone for certain once the overflow past
/// `MAX_LOADED_SOFT` is so large that no draw spares one.
pub fn evict_decision(loaded: usize, pending: usize) -> (c: Option<usize>)
    requires
        loaded + pending <= usize::MAX,
    ensures
        c is Some ==> c->0 < loaded && loaded + pending > MAX_LOADED_SOFT,
        loaded + pending <= MAX_LOADED_SOFT || loaded == 0 ==> c is None,
        c is Some ==> exists|r: u64, i: u64| evict_pick(loaded as nat, pending as nat, r, i) == Some(c->0 as nat),
        c is None ==> exists|r: u64, i: u64| (#[trigger] evict_pick(loaded as nat, pending as nat, r, i)) is None,
        (forall|r: u64, i: u64| (#[trigger] evict_pick(loaded as nat, pending as nat, r, i)) is Some)
            ==> c is Some,
        loaded > 0 && loaded + pending >= MAX_LOADED_SOFT + 99 ==> c is Some,
{
    let r = random_u64();
    let i = random_u64();
    let c = evict_choice(loaded, pending, r, i);
    proof {
        let bound = (MAX_LOADED_HARD - MAX_LOADED_SOFT) as u64;
        assert(r % bound < bound);
        assert((r % bound) / 2 <= 99);
        assert(evict_pick(loaded as nat, pending as nat, r, i) == evict_pick(loaded as nat, pending as nat, r, i));
    }
    c
}

} // verus!
