//! Zone bookkeeping: the state a zone is in, and the decisions a zone takes on
//! each call, apart from the messaging that carries them out.

use vstd::prelude::*;

use crate::node::{node_is_noop, Node, NodeTree};
use crate::path::Path;

verus! {

/// Number of writes after which a zone checks whether to split.
pub const SPLIT_CHECK_WRITES: u64 = 10;

/// Persistent Zone data
pub struct ZoneData {
    pub path: Path,
    // Mergeable data for this Zone
    pub tree: NodeTree,
}

impl ZoneData {
    pub fn new(path: Path, tree: NodeTree) -> (r: ZoneData)
        ensures
            r.path == path,
            r.tree == tree,
    {
        ZoneData { path: path, tree: tree }
    }
}

/// Tracks current state of a Zone
#[derive(Clone, Copy, Debug)]
pub struct ZoneState {
    pub state: u64,
}

impl Default for ZoneState {
    fn default() -> (r: ZoneState)
        ensures
            r.state == ZoneState::IDLE,
    {
        ZoneState { state: ZoneState::IDLE }
    }
}

impl ZoneState {
    /// Zone is idle / hibernating
    pub const IDLE: u64 = 0;
    /// Zone is waiting for resources to load data
    pub const INIT: u64 = 1;
    /// Zone is waiting for data to load
    pub const LOADING: u64 = 2;
    /// Zone data is loaded and clean
    pub const ACTIVE: u64 = 3;
    /// Zone has dirty data: write requested or pending
    pub const DIRTY: u64 = 4;
    /// Write pending, data will be clean when done
    pub const WRITING: u64 = 5;

    /// Every state value names one of the six states.
    pub open spec fn valid(self) -> bool {
        self.state <= ZoneState::WRITING
    }

    /// Exactly one of the six state tests holds.
    pub open spec fn in_one_state(self) -> bool {
        let tests = seq![
            self.state == ZoneState::IDLE,
            self.state == ZoneState::INIT,
            self.state == ZoneState::LOADING,
            self.state == ZoneState::ACTIVE,
            self.state == ZoneState::DIRTY,
            self.state == ZoneState::WRITING,
        ];
        exists|i: int| 0 <= i < 6 && #[trigger] tests[i] && forall|j: int| 0 <= j < 6 && j != i ==> !tests[j]
    }

    /// Zone is idle / hibernating
    pub fn is_idle(&self) -> (r: bool)
        ensures
            r == (self.state == ZoneState::IDLE),
    {
        self.state == ZoneState::IDLE
    }

    /// Zone is requesting and is waiting for available resources to load data.
    /// User commands are queued.
    pub fn is_init(&self) -> (r: bool)
        ensures
            r == (self.state == ZoneState::INIT),
    {
        self.state == ZoneState::INIT
    }

    /// Zone is waiting for data to load. User commands are queued
    pub fn is_loading(&self) -> (r: bool)
        ensures
            r == (self.state == ZoneState::LOADING),
    {
        self.state == ZoneState::LOADING
    }

    /// Zone is ready to accept user commands: data is loaded and clean
    pub fn is_active(&self) -> (r: bool)
        ensures
            r == (self.state == ZoneState::ACTIVE),
    {
        self.state == ZoneState::ACTIVE
    }

    /// Zone has dirty data: write requested or pending
    pub fn is_dirty(&self) -> (r: bool)
        ensures
            r == (self.state == ZoneState::DIRTY),
    {
        self.state == ZoneState::DIRTY
    }

    /// Write pending, data will be clean when done
    pub fn is_writing(&self) -> (r: bool)
        ensures
            r == (self.state == ZoneState::WRITING),
    {
        self.state == ZoneState::WRITING
    }

    /// Data is ready, allow reads and writes
    pub fn is_ready(&self) -> (r: bool)
        ensures
            r == (self.state >= ZoneState::ACTIVE),
    {
        self.state >= ZoneState::ACTIVE
    }

    /// Set to specified state
    pub fn set(&mut self, state: u64)
        requires
            state <= ZoneState::WRITING,
        ensures
            final(self).state == state,
            final(self).valid(),
            final(self).in_one_state(),
    {
        self.state = state;
        proof {
            lemma_one_state(*self);
        }
    }

    /// A call that needs the zone's data arrived while the data is not
    /// ready: the call is queued, and an idle zone asks to be loaded. Returns
    /// whether to ask the manager for a load.
    pub fn on_queued_call(&mut self) -> (request_load: bool)
        ensures
            request_load == (old(self).state == ZoneState::IDLE),
            final(self).state == if old(self).state == ZoneState::IDLE {
                ZoneState::INIT
            } else {
                old(self).state
            },
    {
        if self.is_idle() {
            self.set(ZoneState::INIT);
            true
        } else {
            false
        }
    }

    /// Load data if not already loaded: a zone waiting for resources
    /// (`ZoneState::INIT`) starts loading and asks the store for its data
    /// (returns true); a zone whose data is ready does nothing (returns
    /// false). An idle or loading zone is never asked to load.
    pub fn on_load(&mut self) -> (load: bool)
        requires
            old(self).state == ZoneState::INIT || old(self).state >= ZoneState::ACTIVE,
        ensures
            load == (old(self).state == ZoneState::INIT),
            final(self).state == if old(self).state == ZoneState::INIT {
                ZoneState::LOADING
            } else {
                old(self).state
            },
    {
        if self.is_init() {
            self.set(ZoneState::LOADING);
            true
        } else {
            false
        }
    }

    /// Loaded data arrived; only a loading zone accepts it.
    pub fn on_loaded(&mut self)
        requires
            old(self).state == ZoneState::LOADING,
        ensures
            final(self).state == ZoneState::ACTIVE,
    {
        self.set(ZoneState::ACTIVE);
    }

    /// Asked to hibernate: a clean active zone drops its data and goes idle
    /// (returns true); any other zone defers hibernation (returns false).
    pub fn on_hibernate(&mut self) -> (hibernated: bool)
        ensures
            hibernated == (old(self).state == ZoneState::ACTIVE),
            final(self).state == if old(self).state == ZoneState::ACTIVE {
                ZoneState::IDLE
            } else {
                old(self).state
            },
    {
        if self.is_active() {
            self.set(ZoneState::IDLE);
            true
        } else {
            false
        }
    }

    /// The store is ready to persist: a dirty zone hands its data over and
    /// starts writing (returns true); otherwise the callback is spurious.
    pub fn on_save(&mut self) -> (write: bool)
        ensures
            write == (old(self).state == ZoneState::DIRTY),
            final(self).state == if old(self).state == ZoneState::DIRTY {
                ZoneState::WRITING
            } else {
                old(self).state
            },
    {
        if self.is_dirty() {
            self.set(ZoneState::WRITING);
            true
        } else {
            false
        }
    }

    /// The store persisted the data: a writing zone is clean again; a zone
    /// that was dirtied during the write asks for another write (returns
    /// true). Other zones never get this callback.
    pub fn on_saved(&mut self) -> (request_write: bool)
        requires
            old(self).state == ZoneState::WRITING || old(self).state == ZoneState::DIRTY,
        ensures
            request_write == (old(self).state == ZoneState::DIRTY),
            final(self).state == if old(self).state == ZoneState::WRITING {
                ZoneState::ACTIVE
            } else {
                old(self).state
            },
    {
        if self.is_writing() {
            self.set(ZoneState::ACTIVE);
            false
        } else {
            true
        }
    }

    /// The zone's data changed: a clean zone becomes dirty and asks for a
    /// write (returns true); a writing zone becomes dirty; a dirty zone stays
    /// so. Only zones with data change.
    pub fn on_dirty(&mut self) -> (request_write: bool)
        requires
            old(self).state == ZoneState::ACTIVE || old(self).state == ZoneState::DIRTY || old(self).state == ZoneState::WRITING,
        ensures
            request_write == (old(self).state == ZoneState::ACTIVE),
            final(self).state == ZoneState::DIRTY,
    {
        if self.is_dirty() {
            // already dirty
            return false;
        }
        if self.is_active() {
            self.set(ZoneState::DIRTY);
            return true;
        }
        self.set(ZoneState::DIRTY);
        false
    }
}

/// What a zone does after a merge.
pub struct MergeActions {
    /// Writes counted since the last split check.
    pub writes: u64,
    /// Whether the zone's data changed and must be saved.
    pub dirty: bool,
    /// Whether the retained diff goes to the replicas.
    pub replicate: bool,
}

/// After merging, given the retained `diff`, whether the merge came from a
/// user command (`replicate`) and the writes counted so far: a diff that kept
/// nothing changed nothing; otherwise the merge counts as a write, dirties
/// the zone, and is replicated when it came from a user command.
pub fn after_merge(diff: &Node, replicate: bool, writes: u64) -> (r: MergeActions)
    requires
        !node_is_noop(diff@) ==> writes < u64::MAX,
    ensures
        r.writes == if node_is_noop(diff@) {
            writes
        } else {
            (writes + 1) as u64
        },
        r.dirty == !node_is_noop(diff@),
        r.replicate == (replicate && !node_is_noop(diff@)),
{
    if diff.is_noop() {
        MergeActions { writes: writes, dirty: false, replicate: false }
    } else {
        MergeActions { writes: writes + 1, dirty: true, replicate: replicate }
    }
}

/// Counts a write; every `SPLIT_CHECK_WRITES` writes the zone checks
/// whether to split. Returns the new count and whether to check now.
pub fn split_check(writes: u64) -> (r: (u64, bool))
    ensures
        r.1 == (writes >= SPLIT_CHECK_WRITES),
        r.0 == if writes >= SPLIT_CHECK_WRITES {
            0
        } else {
            writes
        },
{
    if writes >= SPLIT_CHECK_WRITES {
        (0, true)
    } else {
        (writes, false)
    }
}

/// Every transition keeps a zone in one of its six states, and a zone is
/// ready for user commands exactly when it is active, dirty or writing.
pub proof fn law_zone_states(s: ZoneState)
    requires
        s.valid(),
    ensures
        s.in_one_state(),
        (s.state >= ZoneState::ACTIVE) <==> (s.state == ZoneState::ACTIVE || s.state == ZoneState::DIRTY || s.state == ZoneState::WRITING),
        s.state == ZoneState::IDLE ==> !(s.state >= ZoneState::ACTIVE),
        s.state == ZoneState::INIT ==> !(s.state >= ZoneState::ACTIVE),
        s.state == ZoneState::LOADING ==> !(s.state >= ZoneState::ACTIVE),
{
    lemma_one_state(s);
}

proof fn lemma_one_state(s: ZoneState)
    requires
        s.valid(),
    ensures
        s.in_one_state(),
{
    let tests = seq![
        s.state == ZoneState::IDLE,
        s.state == ZoneState::INIT,
        s.state == ZoneState::LOADING,
        s.state == ZoneState::ACTIVE,
        s.state == ZoneState::DIRTY,
        s.state == ZoneState::WRITING,
    ];
    assert forall|j: int| 0 <= j < 6 implies tests[j] == (s.state == j) by {}
    let i = s.state as int;
    assert(tests[i]);
}

} // verus!
