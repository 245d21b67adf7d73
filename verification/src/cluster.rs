//! Cluster messages, and the interface to a peer replica.

use std::sync::mpsc::Sender;
use std::sync::Arc;

use vstd::prelude::*;

use crate::node::NodeTree;
use crate::path::Path;

verus! {

/// A sending end of a channel of the standard library.
#[verifier::external_type_specification]
#[verifier::external_body]
#[verifier::reject_recursive_types(T)]
pub struct ExSender<T>(Sender<T>);

/// Sends `msg` on `tx` (`Sender::send`). Returns whether the message was
/// handed to the channel, which fails only once the receiving end is gone;
/// which of the two happens depends on the other thread and is not stated.
#[verifier::external_body]
fn channel_send<T>(tx: &Sender<T>, msg: T) -> (delivered: bool) {
    tx.send(msg).is_ok()
}

/// Intra-Cluster Messages.
pub enum ClusterMessage {
    /// Data to be merged for Path
    Merge(Path, NodeTree),
    Sync,
}

/// Interface to Peer.
pub struct Peer {
    tx: Sender<Arc<ClusterMessage>>,
}

impl Peer {
    /// A peer fed through `tx`.
    pub fn new(tx: Sender<Arc<ClusterMessage>>) -> (r: Peer)
        ensures
            r.channel() == tx,
    {
        Peer { tx: tx }
    }

    /// The channel this peer is fed through.
    pub closed spec fn channel(self) -> Sender<Arc<ClusterMessage>> {
        self.tx
    }

    /// Sends a message to this remote Peer. Returns false when the peer's
    /// channel is disconnected.
    pub fn send(&self, msg: Arc<ClusterMessage>) -> (delivered: bool) {
        channel_send(&self.tx, msg)
    }
}

/// The addresses of a list of replicas.
pub open spec fn addresses(replicas: Seq<String>) -> Seq<Seq<char>> {
    replicas.map_values(|r: String| r@)
}

/// Adds the replica at `replica` to the known `replicas`, in order, unless it
/// is this replica (`own`) or already known. Returns whether it was added.
pub fn add_replica(own: &String, replicas: &mut Vec<String>, replica: String) -> (added: bool)
    ensures
        added == (replica@ != own@ && !addresses(old(replicas)@).contains(replica@)),
        final(replicas)@ == if added {
            old(replicas)@.push(replica)
        } else {
            old(replicas)@
        },
{
    if replica == *own {
        return false;
    }
    let mut i: usize = 0;
    while i < replicas.len()
        invariant
            0 <= i <= replicas@.len(),
            forall|j: int| 0 <= j < i ==> replicas@[j]@ != replica@,
        decreases replicas@.len() - i,
    {
        if replicas[i] == replica {
            proof {
                assert(addresses(replicas@)[i as int] == replica@);
            }
            return false;
        }
        i = i + 1;
    }
    proof {
        if addresses(replicas@).contains(replica@) {
            let j = choose|j: int| 0 <= j < addresses(replicas@).len() && addresses(replicas@)[j] == replica@;
            assert(replicas@[j]@ == replica@);
        }
    }
    replicas.push(replica);
    true
}

} // verus!
