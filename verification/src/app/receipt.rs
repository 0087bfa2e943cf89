//! Who is answered for what: ids for clients, and receipts that match committed
//! entries back to the callers that wait for them.

use vstd::prelude::*;

use crate::raft::config::random_in;
use crate::raft::consensus::ConsensusModule;
use crate::raft::model::NodeView;
use crate::raft::storage::RaftStorage;
use crate::raft::types::{Applied, LogIndex, Role, Term};

verus! {

/// An id for a client that registers: any but 0, which stands for no client. Ids
/// are drawn from all 64-bit numbers, so that two clients get the same only by an
/// unlikely chance, whichever nodes they register with.
pub fn assign_client_id() -> (r: u64)
    ensures
        r != 0,
{
    random_in(1, u64::MAX)
}

/// Where a proposed command stands in the log. No two proposals, on one node or on
/// two, share a receipt: a term has one leader, whose log only grows.
#[derive(Clone, Copy, Debug, PartialEq, Eq, Hash, Structural)]
pub struct Receipt {
    /// Term of the leader that appended the command.
    pub term: Term,
    /// Where it put it.
    pub index: LogIndex,
}

impl NodeView {
    /// The receipt of the next command that this node appends, as a leader.
    pub open spec fn next_receipt(self) -> Receipt {
        Receipt { term: self.current_term, index: (self.log.last_index() + 1) as LogIndex }
    }
}

/// The receipt of a committed entry: that of its proposal.
pub fn receipt_of(entry: &Applied) -> (r: Receipt)
    ensures
        r == (Receipt { term: entry.term, index: entry.index }),
{
    Receipt { term: entry.term, index: entry.index }
}

/// Propose a command to this node: its receipt, or `None` if the node does not
/// lead, in which case nothing has changed.
pub fn propose<S: RaftStorage + ?Sized>(core: &mut ConsensusModule<S>, command: Vec<u8>) -> (r:
    Option<Receipt>)
    requires
        old(core).wf(),
        old(core)@.log.last_index() + 1 < LogIndex::MAX,
    ensures
        final(core).wf(),
        match r {
            Some(receipt) => {
                &&& old(core)@.role == Role::Leader
                &&& receipt == old(core)@.next_receipt()
                &&& final(core)@ == old(core)@.submit_command(command@)
                &&& final(core).saves(old(core))
            },
            None => {
                &&& old(core)@.role != Role::Leader
                &&& *final(core) == *old(core)
            },
        },
{
    let term: Term = core.current_term();
    match core.submit_command(command) {
        Some(index) => Some(Receipt { term, index }),
        None => None,
    }
}

/// The receipt of a proposal is that of the entry that the leader has appended for it, and
/// of no other: when that entry is handed over, it is known by it.
pub proof fn proposals_get_the_receipt_of_their_entry<S: RaftStorage + ?Sized>(
    core: &mut ConsensusModule<S>,
    command: Vec<u8>,
    r: Option<Receipt>,
    entry: &Applied,
    receipt: Receipt,
)
    requires
        old(core)@.log.last_index() + 1 < LogIndex::MAX,
        call_ensures(propose::<S>, (core, command), r),
        call_ensures(receipt_of, (entry,), receipt),
    ensures
        r is Some <==> old(core)@.role == Role::Leader,
        r is None ==> *final(core) == *old(core),
        r matches Some(x) ==> {
            let log = final(core)@.log;
            &&& x.index == log.snapshot_index + log.entries.len()
            &&& log.entries.len() == old(core)@.log.entries.len() + 1
            &&& x.term == log.entries[log.entries.len() - 1].term
            &&& log.entries[log.entries.len() - 1].command == command@
            &&& receipt == x <==> entry.index == x.index && entry.term == x.term
        },
{
}

/// Every client that registers gets an id that stands for a client.
pub proof fn assigned_ids_stand_for_clients(r: u64)
    requires
        call_ensures(assign_client_id, (), r),
    ensures
        r != 0,
{
}

} // verus!
