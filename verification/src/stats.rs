//! Statistics counters, shared between threads.

use std::sync::atomic::{AtomicUsize, Ordering};

use vstd::prelude::*;

use crate::command::Call;

verus! {

/// A counter that any thread may change.
pub struct Stat {
    value: AtomicUsize,
}

impl Stat {
    pub fn new() -> Stat {
        Stat { value: AtomicUsize::new(0) }
    }

    pub fn increment(&self) {
        self.value.fetch_add(1, Ordering::Relaxed);
    }

    pub fn decrement(&self) {
        self.value.fetch_sub(1, Ordering::Relaxed);
    }

    pub fn set(&self, value: usize) {
        self.value.store(value, Ordering::Relaxed);
    }

    pub fn value(&self) -> usize {
        self.value.load(Ordering::Relaxed)
    }
}

pub struct CommandStats {
    pub bind: Stat,
    pub kill: Stat,
    pub read: Stat,
    pub write: Stat,
}

impl CommandStats {
    pub fn new() -> CommandStats {
        CommandStats { bind: Stat::new(), kill: Stat::new(), read: Stat::new(), write: Stat::new() }
    }

    pub fn increment(&self, call: &Call) {
        match call {
            Call::Bind => self.bind.increment(),
            Call::Kill => self.kill.increment(),
            Call::Read => self.read.increment(),
            Call::Write => self.write.increment(),
        };
    }
}

pub struct ClientStats {
    pub connects: Stat,
    pub disconnects: Stat,
    pub commands: CommandStats,
    pub replies: Stat,
}

pub struct ClusterStats {
    pub broadcast: Stat,
    pub handle_cluster_message: Stat,
    pub replicas: Stat,
    pub replicate: Stat,
}

pub struct StoreStats {
    pub reads: Stat,
    pub reads_pending: Stat,
    pub reads_errors: Stat,
    pub writes: Stat,
    pub writes_pending: Stat,
    pub writes_errors: Stat,
}

pub struct ZoneStats {
    pub local_active: Stat,
    pub local_loaded: Stat,
}

pub struct Stats {
    pub clients: ClientStats,
    pub cluster: ClusterStats,
    pub store: StoreStats,
    pub zones: ZoneStats,
}

impl Stats {
    /// All counters at zero.
    pub fn new() -> Stats {
        Stats {
            clients: ClientStats {
                connects: Stat::new(),
                disconnects: Stat::new(),
                commands: CommandStats::new(),
                replies: Stat::new(),
            },
            cluster: ClusterStats {
                broadcast: Stat::new(),
                handle_cluster_message: Stat::new(),
                replicas: Stat::new(),
                replicate: Stat::new(),
            },
            store: StoreStats {
                reads: Stat::new(),
                reads_pending: Stat::new(),
                reads_errors: Stat::new(),
                writes: Stat::new(),
                writes_pending: Stat::new(),
                writes_errors: Stat::new(),
            },
            zones: ZoneStats { local_active: Stat::new(), local_loaded: Stat::new() },
        }
    }
}

} // verus!
