//! A vote or a candidacy that is recorded keeps the invariant.
use vstd::prelude::*;

use crate::cluster::Cluster;
use crate::cluster::growth::{
    grows, lemma_leaders_stay_complete, lemma_node_grows, lemma_one_node, lemma_open_shrinks,
    lemma_settled_grows, lemma_shows, lemma_traced_grows, with_node,
};
use crate::cluster::history::{
    agree, candidate_inv, inv, message_inv, node_inv, open_entry, term_inv, vote_inv, History,
};
use crate::message::{MessageView, NodeId, RequestVote, Term};
use crate::node::{NodeView, RoleView};

verus! {

pub open spec fn vote_recorded(h: History, n: NodeId, t: Term, chosen: NodeId) -> History {
    History {
        votes: h.votes.insert((n, t), chosen),
        voter_log: h.voter_log.insert((n, t), h.full[n]),
        ..h
    }
}

/// A vote is given.
pub proof fn lemma_vote(c: Cluster, h: History, n: NodeId, from: NodeId, msg: RequestVote, s: NodeView)
    requires
        inv(c, h),
        c.nodes.contains_key(n),
        message_inv(c, h, n, MessageView::RequestVote { from, msg }),
        c.nodes[n].grants(from, msg),
        c.nodes[n].voted_for is None,
        s == (NodeView { voted_for: Some(from), ready: s.ready, ..c.nodes[n] }),
    ensures
        inv(with_node(c, n, s), vote_recorded(h, n, msg.term, from)),
        grows(c, h, with_node(c, n, s), vote_recorded(h, n, msg.term, from)),
{
    let t = msg.term;
    let k = (n, t);
    let c2 = with_node(c, n, s);
    let h2 = vote_recorded(h, n, t, from);
    let before = c.nodes[n];
    assert(node_inv(c, h, n, before));
    assert(c2.nodes.dom() =~= c.nodes.dom());
    assert(!h.votes.contains_key(k)) by {
        if h.votes.contains_key(k) {
            assert(vote_inv(c, h, k));
        }
    }
    assert(grows(c, h, c2, h2)) by {
        assert forall|u: Term| #[trigger] h.written.contains_key(u) implies agree(
            h.written[u],
            h.written[u],
            h.written[u].len() as int,
        ) by {}
        assert forall|v: (NodeId, Term)| #[trigger]
            h.votes.contains_key(v) implies h2.votes.contains_key(v) && h2.votes[v] == h.votes[v]
            && h2.voter_log.contains_key(v) && h2.voter_log[v] == h.voter_log[v] by {
            assert(vote_inv(c, h, v));
        }
    }
    lemma_node_grows(c, h, c2, h2, n, before);
    assert(node_inv(c2, h2, n, s));
    lemma_leaders_stay_complete(c, h, c2, h2);
    assert forall|f: NodeId, u: Term, i: int|
        #![trigger h2.full[f], open_entry(c2, h2, u, i)]
        c2.nodes.contains_key(f) && open_entry(c2, h2, u, i) && i <= h2.ack(f, u) implies agree(
        h2.written[u],
        h2.full[f],
        i,
    ) by {
        assert(h.own(u, i));
        lemma_open_shrinks(c, h, c2, h2, u, i);
        assert(agree(h.written[u], h.full[f], i));
    }
    assert forall|v: (NodeId, Term), u: Term, i: int|
        #![trigger h2.voter_log[v], open_entry(c2, h2, u, i)]
        h2.votes.contains_key(v) && u < v.1 && open_entry(c2, h2, u, i) && i <= h2.ack(
            v.0,
            u,
        ) implies agree(h2.written[u], h2.voter_log[v], i) by {
        assert(h.own(u, i));
        lemma_open_shrinks(c, h, c2, h2, u, i);
        if v == k {
            assert(agree(h.written[u], h.full[n], i));
        } else {
            assert(agree(h.written[u], h.voter_log[v], i));
        }
    }
    lemma_shows(before.log, h.full[n]);
    lemma_traced_grows(c, h, c2, h2, h.full[n]);
    assert(vote_inv(c2, h2, k));
    lemma_one_node(c, h, c2, h2, n);
}

pub open spec fn candidacy_recorded(
    h: History,
    n: NodeId,
    t: Term,
    members: Set<NodeId>,
) -> History {
    History {
        candidate_log: h.candidate_log.insert((n, t), h.full[n]),
        candidate_members: h.candidate_members.insert((n, t), members),
        ..vote_recorded(h, n, t, n)
    }
}

/// A node stands for election.
pub proof fn lemma_candidate(c: Cluster, h: History, n: NodeId, s: NodeView)
    requires
        inv(c, h),
        c.nodes.contains_key(n),
        c.nodes[n].term < u64::MAX,
        c.nodes[n].is_voter,
        s == (NodeView {
            term: (c.nodes[n].term + 1) as Term,
            voted_for: Some(n),
            role: RoleView::Candidate { votes: set![n] },
            election_ticks: s.election_ticks,
            election_timeout: s.election_timeout,
            ready: s.ready,
            ..c.nodes[n]
        }),
    ensures
        inv(with_node(c, n, s), candidacy_recorded(h, n, s.term, s.members)),
        grows(c, h, with_node(c, n, s), candidacy_recorded(h, n, s.term, s.members)),
{
    let t = s.term;
    let k = (n, t);
    let c2 = with_node(c, n, s);
    let h2 = candidacy_recorded(h, n, t, s.members);
    let before = c.nodes[n];
    let full = h.full[n];
    assert(node_inv(c, h, n, before));
    assert(c2.nodes.dom() =~= c.nodes.dom());
    assert(!h.votes.contains_key(k)) by {
        if h.votes.contains_key(k) {
            assert(vote_inv(c, h, k));
        }
    }
    assert(!h.candidate_log.contains_key(k)) by {
        if h.candidate_log.contains_key(k) {
            assert(candidate_inv(c, h, k));
        }
    }
    assert(grows(c, h, c2, h2)) by {
        assert forall|u: Term| #[trigger] h.written.contains_key(u) implies agree(
            h.written[u],
            h.written[u],
            h.written[u].len() as int,
        ) by {}
        assert forall|v: (NodeId, Term)| #[trigger]
            h.votes.contains_key(v) implies h2.votes.contains_key(v) && h2.votes[v] == h.votes[v]
            && h2.voter_log.contains_key(v) && h2.voter_log[v] == h.voter_log[v] by {
            assert(vote_inv(c, h, v));
        }
    }
    lemma_traced_grows(c, h, c2, h2, full);
    assert(agree(full, full, before.commit as int));
    lemma_settled_grows(c, h, c2, h2, full, full, before.commit as int, before.term, t);
    assert(!(h2.leader.contains_key(t) && h2.leader[t] == n)) by {
        if h2.leader.contains_key(t) && h2.leader[t] == n {
            assert(h.leader.dom().contains(t));
            assert(h.written.contains_key(t));
            assert(term_inv(c, h, t));
        }
    }
    assert(node_inv(c2, h2, n, s));
    lemma_leaders_stay_complete(c, h, c2, h2);
    assert forall|f: NodeId, u: Term, i: int|
        #![trigger h2.full[f], open_entry(c2, h2, u, i)]
        c2.nodes.contains_key(f) && open_entry(c2, h2, u, i) && i <= h2.ack(f, u) implies agree(
        h2.written[u],
        h2.full[f],
        i,
    ) by {
        assert(h.own(u, i));
        lemma_open_shrinks(c, h, c2, h2, u, i);
        assert(agree(h.written[u], h.full[f], i));
    }
    assert forall|v: (NodeId, Term), u: Term, i: int|
        #![trigger h2.voter_log[v], open_entry(c2, h2, u, i)]
        h2.votes.contains_key(v) && u < v.1 && open_entry(c2, h2, u, i) && i <= h2.ack(
            v.0,
            u,
        ) implies agree(h2.written[u], h2.voter_log[v], i) by {
        assert(h.own(u, i));
        lemma_open_shrinks(c, h, c2, h2, u, i);
        if v == k {
            assert(agree(h.written[u], h.full[n], i));
        } else {
            assert(agree(h.written[u], h.voter_log[v], i));
        }
    }
    assert(vote_inv(c2, h2, k));
    assert(candidate_inv(c2, h2, k));
    lemma_one_node(c, h, c2, h2, n);
}

} // verus!
