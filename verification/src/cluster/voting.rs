//! Elections keep the invariant.
use vstd::prelude::*;

use crate::cluster::Cluster;
use crate::cluster::ballots::{lemma_vote, vote_recorded};
use crate::cluster::growth::{
    lemma_grows_on, lemma_own_quorum, lemma_quorums_meet, lemma_shows, lemma_touch, with_node,
};
use crate::cluster::history::{electors, inv, message_inv, node_inv, term_inv, vote_inv, History};
use crate::cluster::parts::{
    kept, lemma_append_own, lemma_become_follower, lemma_idle, lemma_listed, lemma_move_on,
    lemma_reply,
};
use crate::cluster::writing::{may_write, terms_below};
use crate::message::{EntryType, LogIndex, MessageView, NodeId, RequestVote, RequestVoteResponse};
use crate::node::{NodeView, ReadyView, RoleView};

verus! {

pub(crate) proof fn lemma_request_vote(
    c: Cluster,
    h: History,
    n: NodeId,
    from: NodeId,
    msg: RequestVote,
    timeout: u32,
    order: Seq<NodeId>,
) -> (h2: History)
    requires
        inv(c, h),
        c.can_deliver(n, MessageView::RequestVote { from, msg }, timeout, order),
        c.nodes[n].ready == ReadyView::empty(),
    ensures
        kept(c, h, c.delivered(n, MessageView::RequestVote { from, msg }, timeout, order), h2),
{
    let message = MessageView::RequestVote { from, msg };
    let after = c.delivered(n, message, timeout, order);
    let s = c.nodes[n];
    assert(c.sent.contains((n, message)));
    assert(message_inv(c, h, n, message));
    let current = if msg.term > s.term {
        s.become_follower(msg.term, None, timeout)
    } else {
        s
    };
    let c1 = with_node(c, n, current);
    if msg.term > s.term {
        lemma_become_follower(c, h, n, msg.term, None, timeout);
    } else {
        assert(node_inv(c, h, n, s));
        lemma_touch(c, h, n, s);
    }
    crate::cluster::growth::lemma_message_grows(c, h, c1, h, n, message);
    assert(c1.nodes.contains_key(n));
    assert(c1.nodes[n] == current);
    assert(node_inv(c1, h, n, current));
    let granted = current.grants(from, msg);
    let voted = if granted {
        current.vote_for(from)
    } else {
        current
    };
    let reply = MessageView::RequestVoteResponse {
        from: n,
        msg: RequestVoteResponse { term: voted.term, vote_granted: granted },
    };
    assert(s.handle(message, timeout, order) == voted.send(from, reply));
    if granted && current.voted_for is None {
        lemma_vote(c1, h, n, from, msg, voted);
        let h2 = vote_recorded(h, n, msg.term, from);
        assert(with_node(c1, n, voted).nodes =~= with_node(c, n, voted).nodes);
        lemma_reply(c, h2, n, voted, from, reply);
        lemma_grows_on(c, h, c1, h, with_node(c, n, voted), h2);
        lemma_grows_on(c, h, with_node(c, n, voted), h2, after, h2);
        h2
    } else {
        assert(voted == current);
        lemma_reply(c, h, n, voted, from, reply);
        lemma_grows_on(c, h, c1, h, after, h);
        h
    }
}

pub(crate) proof fn lemma_request_vote_response(
    c: Cluster,
    h: History,
    n: NodeId,
    from: NodeId,
    msg: RequestVoteResponse,
    timeout: u32,
    order: Seq<NodeId>,
) -> (h2: History)
    requires
        inv(c, h),
        c.can_deliver(n, MessageView::RequestVoteResponse { from, msg }, timeout, order),
        c.nodes[n].ready == ReadyView::empty(),
    ensures
        kept(
            c,
            h,
            c.delivered(n, MessageView::RequestVoteResponse { from, msg }, timeout, order),
            h2,
        ),
{
    let message = MessageView::RequestVoteResponse { from, msg };
    let after = c.delivered(n, message, timeout, order);
    let s = c.nodes[n];
    let t = s.term;
    let handled = s.handle(message, timeout, order);
    assert(c.sent.contains((n, message)));
    assert(message_inv(c, h, n, message));
    assert(node_inv(c, h, n, s));
    lemma_listed(order, s.contacts(message));
    if msg.term > t {
        lemma_move_on(c, h, n, msg.term, None, timeout);
        h
    } else if s.counts_vote(msg) {
        let votes = s.votes_with(from);
        let counted = NodeView { role: RoleView::Candidate { votes }, ..s };
        assert(vote_inv(c, h, (from, t)));
        assert(node_inv(c, h, n, counted));
        lemma_touch(c, h, n, counted);
        let c1 = with_node(c, n, counted);
        if s.wins(from, msg) {
            assert(c1.nodes.dom() =~= c.nodes.dom());
            assert(c1.nodes[n] == counted);
            lemma_own_quorum(c1, counted, votes);
            assert(!h.leader.contains_key(t)) by {
                if h.leader.contains_key(t) {
                    assert(h.leader.dom().contains(t));
                    assert(h.written.contains_key(t));
                    assert(term_inv(c, h, t));
                    let rivals = electors(c, h, t);
                    let both = lemma_quorums_meet(c, rivals, votes);
                    assert(votes.contains(both));
                    assert(h.votes[(both, t)] == n);
                }
            }
            assert(terms_below(h.full[n], t));
            assert(may_write(c1, h, n));
            lemma_shows(s.log, h.full[n]);
            let last = s.log.last_index();
            let leader = NodeView {
                role: RoleView::Leader {
                    next: Map::new(
                        |p: NodeId| counted.peers().contains(p),
                        |p: NodeId| (last + 1) as LogIndex,
                    ),
                    matched: Map::new(
                        |p: NodeId| counted.peers().contains(p),
                        |p: NodeId| 0 as LogIndex,
                    ),
                },
                heartbeat_ticks: 0,
                ..counted
            };
            assert(leader.role->next.dom() =~= counted.peers());
            assert(leader.role->matched.dom() =~= counted.peers());
            assert(counted.peers().subset_of(c1.nodes.dom().remove(n)));
            assert forall|p: NodeId| #[trigger]
                order.contains(p) implies leader.role->next.contains_key(p) by {
                assert(s.peers().contains(p));
            }
            let command = Seq::<u8>::empty();
            let h2 = lemma_append_own(
                c1,
                h,
                n,
                leader,
                EntryType::Normal,
                command,
                order,
            );
            assert(handled == leader.append_own(EntryType::Normal, command, order));
            assert(c1.nodes.insert(n, handled.drained()) =~= c.nodes.insert(n, handled.drained()));
            lemma_grows_on(c, h, c1, h, after, h2);
            h2
        } else {
            assert(handled == counted);
            assert(handled.ready.messages.len() == 0);
            lemma_idle(c, h, n, handled, handled.ready.messages);
            h
        }
    } else {
        assert(handled == s);
        lemma_idle(c, h, n, handled, handled.ready.messages);
        h
    }
}

} // verus!
