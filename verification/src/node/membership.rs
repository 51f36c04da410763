//! Membership changes: one voter at a time.
use vstd::prelude::*;

use crate::message::{ConfChangeCmd, ConfChangeOp, EntryType, NodeId};
use crate::node::model::{enumerates, lemma_enumerates_nothing};
use crate::node::{RaftNode, Role};

verus! {

broadcast use vstd::std_specs::hash::group_hash_axioms;

impl RaftNode {
    /// Starts to replicate to a peer unless the leader already does.
    fn track(&mut self, peer: NodeId)
        requires
            old(self).log.wf(),
        ensures
            final(self)@ == old(self)@.track(peer),
            final(self).log == old(self).log,
    {
        let last = self.log.last_index();
        if let Role::Leader { next_index, match_index } = &mut self.role {
            if !next_index.contains_key(&peer) {
                next_index.insert(peer, last + 1);
            }
            if !match_index.contains_key(&peer) {
                match_index.insert(peer, 0);
            }
        }
    }

    fn untrack(&mut self, peer: NodeId)
        ensures
            final(self)@ == old(self)@.untrack(peer),
            final(self).log == old(self).log,
    {
        if let Role::Leader { next_index, match_index } = &mut self.role {
            next_index.remove(&peer);
            match_index.remove(&peer);
        }
    }

    /// Proposes adding or removing a single voter. A new node is registered for replication at
    /// once, so that it catches up while the change is in flight.
    pub(crate) fn propose_conf_change_inner(&mut self, cmd: ConfChangeCmd) -> (order: Ghost<
        Seq<NodeId>,
    >)
        requires
            old(self).wf(),
            old(self)@.log.last_index() + 1 < u64::MAX,
            old(self)@.takes_conf_change() ==> old(self)@.reaches(
                old(self)@.log.last_index() + 1,
            ),
        ensures
            final(self).wf(),
            final(self)@ == old(self)@.propose_conf_change(cmd@, order@),
            enumerates(
                order@,
                if !old(self)@.takes_conf_change() {
                    Set::empty()
                } else if cmd@.op == ConfChangeOp::Add {
                    old(self)@.followed().insert(cmd@.node_id)
                } else {
                    old(self)@.followed()
                },
            ),
    {
        if !self.is_leader() || self.pending_conf_change {
            proof {
                lemma_enumerates_nothing();
            }
            return Ghost(Seq::empty());
        }
        if let ConfChangeOp::Add = cmd.op {
            self.track(cmd.node_id);
            assert(self@.followed() =~= old(self)@.followed().insert(cmd@.node_id));
        }
        let command = cmd.encode();
        self.pending_conf_change = true;
        self.append_own(EntryType::ConfChange, command)
    }

    /// Applies a committed membership change.
    pub(crate) fn apply_conf_change_entry(&mut self, command: &[u8], timeout: u32)
        requires
            old(self).wf(),
            old(self)@.may_draw(timeout),
        ensures
            final(self).wf(),
            final(self)@ == old(self)@.apply_conf_change(command@, timeout),
    {
        let cmd = match ConfChangeCmd::decode(command) {
            Some(cmd) => cmd,
            None => return,
        };
        self.pending_conf_change = false;
        match cmd.op {
            ConfChangeOp::Add => {
                self.membership.insert(cmd.node_id);
                // A learner that is added becomes a voter.
                if cmd.node_id == self.id {
                    self.is_voter = true;
                }
                self.track(cmd.node_id);
            },
            ConfChangeOp::Remove => {
                self.membership.remove(&cmd.node_id);
                self.untrack(cmd.node_id);
                // A node that is removed steps down immediately.
                if cmd.node_id == self.id {
                    self.is_voter = false;
                    self.become_follower(self.current_term, None, timeout);
                }
            },
        }
        self.pending_ready.membership_change = Some(cmd);
    }
}

} // verus!
