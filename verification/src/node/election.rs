//! Leader election and the clock that drives it.
use std::collections::{HashMap, HashSet};

use vstd::prelude::*;

use crate::message::{LogIndex, Message, MessageView, NodeId, RequestVote, RequestVoteResponse};
use crate::node::listing::items_of;
use crate::node::model::{enumerates, lemma_enumerates_nothing, NodeView, ReadyView};
use crate::node::{RaftNode, Role};

verus! {

broadcast use vstd::std_specs::hash::group_hash_axioms;

impl RaftNode {
    /// The voting members other than this node.
    fn other_members(&self) -> (peers: Vec<NodeId>)
        ensures
            enumerates(peers@, self@.peers()),
    {
        let members = items_of(&self.membership);
        let mut peers: Vec<NodeId> = Vec::new();
        let mut i: usize = 0;
        while i < members.len()
            invariant
                i <= members@.len(),
                enumerates(members@, self.membership@),
                peers@.no_duplicates(),
                forall|p: NodeId| #[trigger]
                    peers@.contains(p) <==> p != self.id && members@.take(i as int).contains(p),
            decreases members@.len() - i,
        {
            let member = members[i];
            let ghost before = peers@;
            assert(members@.take(i + 1) =~= members@.take(i as int).push(member));
            assert(!members@.take(i as int).contains(member)) by {
                if members@.take(i as int).contains(member) {
                    let j = choose|j: int|
                        0 <= j < members@.take(i as int).len() && members@.take(i as int)[j]
                            == member;
                    assert(members@[j] == members@[i as int]);
                }
            }
            if member != self.id {
                assert(!before.contains(member));
                peers.push(member);
                assert(peers@.no_duplicates());
            }
            assert forall|p: NodeId| #[trigger] peers@.contains(p) <==> p != self.id && members@.take(
                i + 1,
            ).contains(p) by {
                broadcast use vstd::seq_lib::group_seq_properties;

                assert(before.contains(p) <==> p != self.id && members@.take(i as int).contains(p));
            }
            i += 1;
        }
        proof {
            assert(members@.take(i as int) =~= members@);
            assert forall|p: NodeId| peers@.to_set().contains(p) <==> self@.peers().contains(p) by {
                assert(peers@.contains(p) <==> p != self.id && members@.contains(p));
                assert(members@.contains(p) <==> members@.to_set().contains(p));
            }
            assert(peers@.to_set() =~= self@.peers());
        }
        peers
    }

    pub(crate) fn tick(&mut self, timeout: u32) -> (order: Ghost<Seq<NodeId>>)
        requires
            old(self).wf(),
            old(self)@.may_draw(timeout),
            old(self)@.accepts(MessageView::Tick),
        ensures
            final(self).wf(),
            enumerates(order@, old(self)@.contacts(MessageView::Tick)),
            final(self)@ == old(self)@.tick(timeout, order@),
    {
        proof {
            lemma_enumerates_nothing();
        }
        if self.is_leader() {
            self.heartbeat_ticks += 1;
            if self.heartbeat_ticks >= self.config.heartbeat_timeout {
                self.heartbeat_ticks = 0;
                return self.broadcast_append_entries();
            }
        } else if self.is_voter {
            self.election_ticks += 1;
            if self.election_ticks >= self.election_timeout {
                return self.start_election(timeout);
            }
        }
        // Learners never start elections.
        Ghost(Seq::empty())
    }

    fn start_election(&mut self, timeout: u32) -> (order: Ghost<Seq<NodeId>>)
        requires
            old(self).log.wf(),
            old(self)@.drained().reset_election_timeout(timeout).valid(),
            old(self)@.term < u64::MAX,
        ensures
            final(self).wf(),
            enumerates(order@, old(self)@.peers()),
            final(self)@ == old(self)@.start_election(timeout, order@),
    {
        self.current_term += 1;
        self.voted_for = Some(self.id);
        self.emit_hard_state();
        self.reset_election_timeout(timeout);
        let mut votes: HashSet<NodeId> = HashSet::new();
        votes.insert(self.id);
        assert(votes@ =~= set![self.id]);
        self.role = Role::Candidate { votes_received: votes };
        let request = RequestVote {
            term: self.current_term,
            candidate_id: self.id,
            last_log_index: self.log.last_index(),
            last_log_term: self.log.last_term(),
        };
        let peers = self.other_members();
        let ghost candidate = self@;
        let ghost sent = |p: NodeId| (p, candidate.vote_request());
        let mut i: usize = 0;
        assert(peers@.take(0).map_values(sent) =~= Seq::empty());
        assert(candidate.ready.messages + Seq::<(NodeId, MessageView)>::empty() =~= candidate.ready.messages);
        while i < peers.len()
            invariant
                i <= peers@.len(),
                candidate.vote_request() == (MessageView::RequestVote {
                    from: candidate.id,
                    msg: request,
                }),
                sent == (|p: NodeId| (p, candidate.vote_request())),
                self.log.wf(),
                self@ == (NodeView {
                    ready: ReadyView {
                        messages: candidate.ready.messages + peers@.take(i as int).map_values(sent),
                        ..candidate.ready
                    },
                    ..candidate
                }),
            decreases peers@.len() - i,
        {
            assert(peers@.take(i + 1).map_values(sent) =~= peers@.take(i as int).map_values(
                sent,
            ).push(sent(peers@[i as int])));
            assert(candidate.ready.messages + peers@.take(i + 1).map_values(sent) =~= (
            candidate.ready.messages + peers@.take(i as int).map_values(sent)).push(
                sent(peers@[i as int]),
            ));
            self.send(peers[i], Message::RequestVote { from: self.id, msg: request });
            i += 1;
        }
        assert(peers@.take(i as int) =~= peers@);
        Ghost(peers@)
    }

    pub(crate) fn handle_request_vote(&mut self, from: NodeId, msg: RequestVote, timeout: u32)
        requires
            old(self).wf(),
            old(self)@.may_draw(timeout),
        ensures
            final(self).wf(),
            final(self)@ == old(self)@.handle_request_vote(from, msg, timeout),
    {
        if msg.term > self.current_term {
            self.become_follower(msg.term, None, timeout);
        }
        let last_term = self.log.last_term();
        let up_to_date = msg.last_log_term > last_term || (msg.last_log_term == last_term
            && msg.last_log_index >= self.log.last_index());
        let can_vote = self.is_voter && msg.term == self.current_term && up_to_date && (
        self.voted_for.is_none() || self.voted_for == Some(from));
        if can_vote && self.voted_for != Some(from) {
            self.voted_for = Some(from);
            self.emit_hard_state();
        }
        self.send(
            from,
            Message::RequestVoteResponse {
                from: self.id,
                msg: RequestVoteResponse { term: self.current_term, vote_granted: can_vote },
            },
        );
    }

    pub(crate) fn handle_request_vote_response(
        &mut self,
        from: NodeId,
        msg: RequestVoteResponse,
        timeout: u32,
    ) -> (order: Ghost<Seq<NodeId>>)
        requires
            old(self).wf(),
            old(self)@.may_draw(timeout),
            old(self)@.log.last_index() + 1 < u64::MAX,
        ensures
            final(self).wf(),
            enumerates(
                order@,
                old(self)@.contacts(MessageView::RequestVoteResponse { from, msg }),
            ),
            final(self)@ == old(self)@.handle_request_vote_response(from, msg, timeout, order@),
    {
        proof {
            lemma_enumerates_nothing();
        }
        if msg.term > self.current_term {
            self.become_follower(msg.term, None, timeout);
            return Ghost(Seq::empty());
        }
        if msg.term < self.current_term || !msg.vote_granted {
            return Ghost(Seq::empty());
        }
        let quorum = self.membership.len() / 2 + 1;
        let won = match &mut self.role {
            Role::Candidate { votes_received } => {
                votes_received.insert(from);
                votes_received.len() >= quorum
            },
            _ => return Ghost(Seq::empty()),
        };
        if won {
            self.become_leader()
        } else {
            Ghost(Seq::empty())
        }
    }

    fn become_leader(&mut self) -> (order: Ghost<Seq<NodeId>>)
        requires
            old(self).wf(),
            old(self)@.log.last_index() + 1 < u64::MAX,
        ensures
            final(self).wf(),
            enumerates(order@, old(self)@.peers()),
            final(self)@ == old(self)@.become_leader(order@),
    {
        let next = self.log.last_index() + 1;
        let peers = self.other_members();
        let mut next_index: HashMap<NodeId, LogIndex> = HashMap::new();
        let mut match_index: HashMap<NodeId, LogIndex> = HashMap::new();
        let mut i: usize = 0;
        while i < peers.len()
            invariant
                i <= peers@.len(),
                next_index@.dom() == peers@.take(i as int).to_set(),
                match_index@.dom() == peers@.take(i as int).to_set(),
                forall|p: NodeId| #[trigger] next_index@.contains_key(p) ==> next_index@[p] == next,
                forall|p: NodeId| #[trigger] match_index@.contains_key(p) ==> match_index@[p] == 0,
            decreases peers@.len() - i,
        {
            proof {
                assert(peers@.take(i + 1) =~= peers@.take(i as int).push(peers@[i as int]));
                peers@.take(i as int).lemma_push_to_set_commute(peers@[i as int]);
            }
            next_index.insert(peers[i], next);
            match_index.insert(peers[i], 0);
            i += 1;
        }
        proof {
            assert(peers@.take(i as int) =~= peers@);
            let last = self@.log.last_index();
            assert(next_index@ =~= Map::new(
                |p: NodeId| self@.peers().contains(p),
                |p: NodeId| (last + 1) as LogIndex,
            ));
            assert(match_index@ =~= Map::new(
                |p: NodeId| self@.peers().contains(p),
                |p: NodeId| 0 as LogIndex,
            ));
        }
        self.role = Role::Leader { next_index, match_index };
        self.heartbeat_ticks = 0;
        // A no-op of the new term commits what earlier terms left behind.
        let command: Vec<u8> = Vec::new();
        assert(command@ =~= Seq::empty());
        assert(self@.followed() =~= old(self)@.peers());
        self.propose(command)
    }
}

} // verus!
