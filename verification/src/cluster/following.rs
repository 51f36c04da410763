//! A follower that takes over entries keeps the invariant.
use vstd::prelude::*;

use crate::cluster::Cluster;
use crate::cluster::growth::{
    grows, lemma_decided_is_open, lemma_leaders_stay_complete, lemma_one_node, lemma_open_shrinks,
    lemma_settled_grows, lemma_traced_grows, with_node,
};
use crate::cluster::history::{
    ack_inv, agree, changes_one, concerns_one, decided, inv, membership_inv, node_inv, open_entry,
    plain, settled_prefix, term_inv, terms_within, vote_inv, History,
};
use crate::cluster::writing::lemma_ack_within;
use crate::message::{EntryType, LogEntryView, NodeId, Term};
use crate::node::NodeView;

verus! {

/// What a node knows to be committed, the leader of its term or of a later one has.
pub proof fn lemma_committed_is_led(
    c: Cluster,
    h: History,
    log: Seq<LogEntryView>,
    k: int,
    t: Term,
    u: Term,
)
    requires
        inv(c, h),
        settled_prefix(c, h, log, k, t),
        0 <= k,
        t <= u,
        h.written.contains_key(u),
    ensures
        agree(log, h.written[u], k),
{
    if k != 0 {
        let (w, m) = choose|w: Term, m: int|
            #[trigger] decided(c, h, w, m) && w <= t && k <= m && agree(log, h.written[w], k);
        lemma_decided_is_open(c, h, w, m);
        if w < u {
            assert(agree(h.written[w], h.written[u], m));
        }
    }
}

pub open spec fn following_recorded(
    h: History,
    n: NodeId,
    t: Term,
    log: Seq<LogEntryView>,
    acked: nat,
) -> History {
    History {
        full: h.full.insert(n, log),
        acks: h.acks.insert(
            (n, t),
            if h.ack(n, t) > acked {
                h.ack(n, t)
            } else {
                acked
            },
        ),
        ..h
    }
}

/// A follower acknowledges the log of its leader up to `acked`. Its own log stays, or becomes a
/// part of the leader's that reaches at least as far as the two agreed.
pub proof fn lemma_follow(
    c: Cluster,
    h: History,
    n: NodeId,
    full2: Seq<LogEntryView>,
    acked: nat,
    s: NodeView,
)
    requires
        inv(c, h),
        c.nodes.contains_key(n),
        h.written.contains_key(c.nodes[n].term),
        s.term == c.nodes[n].term,
        s.voted_for == c.nodes[n].voted_for,
        s.role is Follower,
        s.id == n,
        membership_inv(c, s),
        s.max_entries > 0,
        s.log.shows(full2),
        s.log.base <= s.applied <= s.commit,
        settled_prefix(c, h, full2, s.commit as int, s.term),
        full2 == h.full[n] || agree(full2, h.written[s.term], full2.len() as int) && (forall|i: int|
            #[trigger] agree(h.full[n], h.written[s.term], i) ==> i <= full2.len()),
        agree(full2, h.written[s.term], acked as int),
    ensures
        inv(with_node(c, n, s), following_recorded(h, n, s.term, full2, acked)),
        grows(c, h, with_node(c, n, s), following_recorded(h, n, s.term, full2, acked)),
{
    let t = s.term;
    let c2 = with_node(c, n, s);
    let h2 = following_recorded(h, n, t, full2, acked);
    let before = c.nodes[n];
    let full = h.full[n];
    let log = h.written[t];
    assert(node_inv(c, h, n, before));
    assert(term_inv(c, h, t));
    assert(h.leader[t] == n ==> full2 =~= full) by {
        if h.leader[t] == n {
            assert(full == log);
            assert(agree(full, log, full.len() as int));
        }
    }
    assert(c2.nodes.dom() =~= c.nodes.dom());
    assert(h2.full.dom() =~= c.nodes.dom());
    assert(grows(c, h, c2, h2)) by {
        assert forall|u: Term| #[trigger] h.written.contains_key(u) implies agree(
            h.written[u],
            h.written[u],
            h.written[u].len() as int,
        ) by {}
        assert forall|v: (NodeId, Term)| #[trigger]
            h.votes.contains_key(v) implies h.voter_log.contains_key(v) by {
            assert(vote_inv(c, h, v));
        }
        assert forall|f: NodeId, u: Term| #[trigger] h2.ack(f, u) >= h.ack(f, u) by {}
        assert forall|f: NodeId, u: Term| #[trigger] h2.ack(f, u) > h.ack(f, u) implies
            c.nodes.contains_key(f) && c.nodes[f].term <= u by {}
    }
    assert(h.traced(full2) && plain(full2) && changes_one(c, full2) && terms_within(
        full2,
        t,
    )) by {
        if full2 != full {
            assert forall|j: int| 0 <= j < full2.len() implies h.written.contains_key(
                (#[trigger] full2[j]).term,
            ) && agree(full2, h.written[full2[j].term], j + 1) by {
                assert(full2[j] == log[j]);
                assert(agree(log, h.written[log[j].term], j + 1));
            }
            assert forall|j: int| 0 <= j < full2.len() implies (#[trigger] full2[j]).index == j + 1
                && full2[j].term <= t && (full2[j].entry_type == EntryType::ConfChange
                ==> concerns_one(c, full2[j].command)) by {
                assert(full2[j] == log[j]);
            }
        }
    }
    lemma_traced_grows(c, h, c2, h2, full2);
    assert(agree(full2, full2, s.commit as int));
    lemma_settled_grows(c, h, c2, h2, full2, full2, s.commit as int, t, t);
    assert(node_inv(c2, h2, n, s));
    lemma_leaders_stay_complete(c, h, c2, h2);
    assert forall|f: NodeId, u: Term| #[trigger] h2.ack(f, u) > h.ack(f, u) implies ack_inv(
        c2,
        h2,
        f,
        u,
    ) by {}
    assert forall|f: NodeId, u: Term, i: int|
        #![trigger h2.full[f], open_entry(c2, h2, u, i)]
        c2.nodes.contains_key(f) && open_entry(c2, h2, u, i) && i <= h2.ack(f, u) implies agree(
        h2.written[u],
        h2.full[f],
        i,
    ) by {
        assert(h.own(u, i));
        lemma_open_shrinks(c, h, c2, h2, u, i);
        if f != n {
            assert(agree(h.written[u], h.full[f], i));
        } else if i <= h.ack(n, u) {
            assert(agree(h.written[u], full, i));
            lemma_ack_within(c, h, n, u);
            if u < t {
                assert(agree(h.written[u], log, i));
            }
            assert(agree(full, log, i));
            if full2 != full {
                assert(i <= full2.len());
            }
        } else {
            assert(u == t && i <= acked);
        }
    }
    assert forall|v: (NodeId, Term), u: Term, i: int|
        #![trigger h2.voter_log[v], open_entry(c2, h2, u, i)]
        h2.votes.contains_key(v) && u < v.1 && open_entry(c2, h2, u, i) && i <= h2.ack(
            v.0,
            u,
        ) implies agree(h2.written[u], h2.voter_log[v], i) by {
        assert(h.own(u, i));
        lemma_open_shrinks(c, h, c2, h2, u, i);
        assert(vote_inv(c, h, v));
        assert(agree(h.written[u], h.voter_log[v], i));
    }
    assert forall|u: Term| #[trigger] h2.written.contains_key(u) implies h2.ack(h.leader[u], u)
        == h.ack(h.leader[u], u) by {
        assert(term_inv(c, h, u));
    }
    lemma_one_node(c, h, c2, h2, n);
}

} // verus!
