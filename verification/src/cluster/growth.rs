//! The history only grows, and what holds of it goes on to hold.
use vstd::prelude::*;

use crate::cluster::Cluster;
use crate::cluster::history::{
    ack_inv, ackers, able, acks_kept, acks_kept_by_voters, agree, candidate_inv, decided, electors,
    inv, leaders_complete, leads_in, majority, message_inv, node_inv, open_entry, settled_prefix,
    term_inv, term_of, vote_inv, History,
};
use crate::log::LogView;
use crate::message::{LogEntryView, MessageView, NodeId, Term};
use crate::node::{NodeView, RoleView};

verus! {

// ── Majorities ──────────────────────────────────────────────────────────────

/// Majorities of two sets of members that differ in one node at most have a member in common.
proof fn lemma_majorities_meet(
    one: Set<NodeId>,
    members: Set<NodeId>,
    other: Set<NodeId>,
    others: Set<NodeId>,
    node: NodeId,
) -> (both: NodeId)
    requires
        members.finite(),
        others == members || others == members.insert(node),
        majority(one, members),
        majority(other, others),
    ensures
        one.contains(both),
        other.contains(both),
{
    let a = one.intersect(members);
    let b = other.intersect(others);
    vstd::set_lib::lemma_len_subset(a, members);
    vstd::set_lib::lemma_len_subset(b, others);
    if a.disjoint(b) {
        vstd::set_lib::lemma_set_disjoint_lens(a, b);
        assert(a.union(b).subset_of(others));
        vstd::set_lib::lemma_len_subset(a.union(b), others);
    }
    choose|both: NodeId| a.contains(both) && b.contains(both)
}

/// Two quorums have a member in common, also when one is from before the change and the other
/// from after it.
pub proof fn lemma_quorums_meet(c: Cluster, one: Set<NodeId>, other: Set<NodeId>) -> (both: NodeId)
    requires
        c.configured(),
        c.is_quorum(one),
        c.is_quorum(other),
    ensures
        one.contains(both),
        other.contains(both),
{
    let before = c.voters;
    let after = c.changed();
    let node = match c.changing {
        Some(node) => node,
        None => 0,
    };
    assert(after == before || after == before.insert(node) || before == after.insert(node)) by {
        if after != before && after != before.insert(node) {
            assert(after =~= before.remove(node));
            if !before.contains(node) {
                assert(after =~= before);
            }
            assert(before =~= after.insert(node));
        }
    }
    if majority(one, before) && majority(other, before) {
        lemma_majorities_meet(one, before, other, before, node)
    } else if majority(one, after) && majority(other, after) {
        lemma_majorities_meet(one, after, other, after, node)
    } else if after == before || after == before.insert(node) {
        if majority(one, before) {
            lemma_majorities_meet(one, before, other, after, node)
        } else {
            lemma_majorities_meet(other, before, one, after, node)
        }
    } else {
        if majority(one, after) {
            lemma_majorities_meet(one, after, other, before, node)
        } else {
            lemma_majorities_meet(other, after, one, before, node)
        }
    }
}

/// More nodes make a quorum as well.
pub proof fn lemma_quorum_extends(c: Cluster, some: Set<NodeId>, more: Set<NodeId>)
    requires
        c.configured(),
        some.subset_of(more),
        c.is_quorum(some),
    ensures
        c.is_quorum(more),
{
    vstd::set_lib::lemma_len_subset(some.intersect(c.voters), more.intersect(c.voters));
    vstd::set_lib::lemma_len_subset(some.intersect(c.changed()), more.intersect(c.changed()));
}

/// A majority of what one node takes for the members is a quorum.
pub proof fn lemma_own_quorum(c: Cluster, s: NodeView, some: Set<NodeId>)
    requires
        s.members == c.voters || s.members == c.changed(),
        some.subset_of(s.members),
        some.len() >= s.quorum(),
    ensures
        c.is_quorum(some),
{
    assert(some.intersect(s.members) =~= some);
}

// ── Growth ──────────────────────────────────────────────────────────────────

/// The later state and history go on from the earlier ones: nothing recorded is taken back, and a
/// node acknowledges entries of a term only before it moves on to a later one.
pub open spec fn grows(c: Cluster, h: History, c2: Cluster, h2: History) -> bool {
    &&& c2.nodes.dom() == c.nodes.dom()
    &&& c2.voters == c.voters
    &&& c2.changing == c.changing
    &&& h2.started == h.started
    &&& forall|n: NodeId|
        #![trigger c2.nodes[n]]
        #![trigger c.nodes[n]]
        c.nodes.contains_key(n) ==> c2.nodes[n].term >= c.nodes[n].term && (leads_in(
            c2,
            n,
            c2.nodes[n].term,
        ) ==> leads_in(c, n, c2.nodes[n].term) || !h.leader.contains_key(c2.nodes[n].term))
    &&& forall|t: Term| #[trigger]
        h.leader.contains_key(t) ==> h2.leader.contains_key(t) && h2.leader[t] == h.leader[t]
    &&& forall|t: Term| #[trigger]
        h.written.contains_key(t) ==> h2.written.contains_key(t) && agree(
            h.written[t],
            h2.written[t],
            h.written[t].len() as int,
        )
    &&& forall|k: (NodeId, Term)| #[trigger]
        h.votes.contains_key(k) ==> h2.votes.contains_key(k) && h2.votes[k] == h.votes[k]
            && h2.voter_log.contains_key(k) && h2.voter_log[k] == h.voter_log[k]
    &&& forall|k: (NodeId, Term)| #[trigger]
        h.candidate_log.contains_key(k) ==> h2.candidate_log.contains_key(k)
            && h2.candidate_log[k] == h.candidate_log[k] && h2.candidate_members[k]
            == h.candidate_members[k]
    &&& forall|f: NodeId, t: Term| #[trigger] h2.ack(f, t) >= h.ack(f, t)
    &&& forall|f: NodeId, t: Term| #[trigger]
        h2.ack(f, t) > h.ack(f, t) ==> c.nodes.contains_key(f) && c.nodes[f].term <= t
}

pub proof fn lemma_traced_grows(c: Cluster, h: History, c2: Cluster, h2: History, log: Seq<LogEntryView>)
    requires
        grows(c, h, c2, h2),
        h.traced(log),
    ensures
        h2.traced(log),
{
    assert forall|j: int| 0 <= j < log.len() implies h2.written.contains_key(
        (#[trigger] log[j]).term,
    ) && agree(log, h2.written[log[j].term], j + 1) by {
        assert(h.written.contains_key(log[j].term));
        assert(agree(log, h.written[log[j].term], j + 1));
    }
}

pub proof fn lemma_decided_grows(c: Cluster, h: History, c2: Cluster, h2: History, t: Term, i: int)
    requires
        c.configured(),
        grows(c, h, c2, h2),
        decided(c, h, t, i),
    ensures
        decided(c2, h2, t, i),
{
    assert(h2.written[t][i - 1] == h.written[t][i - 1]);
    let before = ackers(c, h, t, i);
    let after = ackers(c2, h2, t, i);
    assert(before.subset_of(after)) by {
        assert forall|f: NodeId| before.contains(f) implies after.contains(f) by {
            assert(h2.ack(f, t) >= h.ack(f, t));
        }
    }
    lemma_quorum_extends(c, before, after);
}

pub proof fn lemma_settled_grows(
    c: Cluster,
    h: History,
    c2: Cluster,
    h2: History,
    log: Seq<LogEntryView>,
    log2: Seq<LogEntryView>,
    k: int,
    t: Term,
    t2: Term,
)
    requires
        c.configured(),
        grows(c, h, c2, h2),
        settled_prefix(c, h, log, k, t),
        agree(log, log2, k),
        t <= t2,
    ensures
        settled_prefix(c2, h2, log2, k, t2),
{
    if k != 0 {
        let (u, n) = choose|u: Term, n: int|
            #[trigger] decided(c, h, u, n) && u <= t && k <= n && agree(log, h.written[u], k);
        lemma_decided_grows(c, h, c2, h2, u, n);
        assert(agree(log2, h2.written[u], k));
    }
}

pub proof fn lemma_open_shrinks(c: Cluster, h: History, c2: Cluster, h2: History, t: Term, i: int)
    requires
        c.configured(),
        grows(c, h, c2, h2),
        h.own(t, i),
        open_entry(c2, h2, t, i),
    ensures
        open_entry(c, h, t, i),
{
    let before = able(c, h, t, i);
    let after = able(c2, h2, t, i);
    assert(after.subset_of(before)) by {
        assert forall|f: NodeId| after.contains(f) implies before.contains(f) by {
            assert(c.nodes.contains_key(f));
            assert(c2.nodes[f].term >= c.nodes[f].term);
            assert(h2.ack(f, t) >= h.ack(f, t));
        }
    }
    lemma_quorum_extends(c, after, before);
}

pub proof fn lemma_decided_is_open(c: Cluster, h: History, t: Term, i: int)
    requires
        c.configured(),
        decided(c, h, t, i),
    ensures
        open_entry(c, h, t, i),
{
    let some = ackers(c, h, t, i);
    let more = able(c, h, t, i);
    assert(some.subset_of(more));
    lemma_quorum_extends(c, some, more);
}

pub proof fn lemma_message_grows(
    c: Cluster,
    h: History,
    c2: Cluster,
    h2: History,
    to: NodeId,
    message: MessageView,
)
    requires
        c.configured(),
        h.leader.dom() == h.written.dom(),
        grows(c, h, c2, h2),
        message_inv(c, h, to, message),
    ensures
        message_inv(c2, h2, to, message),
{
    match message {
        MessageView::AppendEntries { from, msg } => {
            let log = h.written[msg.term];
            let log2 = h2.written[msg.term];
            assert(h.leader.dom().contains(msg.term));
            assert(agree(log, log2, log.len() as int));
            lemma_settled_grows(
                c,
                h,
                c2,
                h2,
                log,
                log2,
                msg.leader_commit as int,
                msg.term,
                msg.term,
            );
            if msg.prev_log_index > 0 {
                assert(log2[msg.prev_log_index - 1] == log[msg.prev_log_index - 1]);
            }
            assert forall|j: int| 0 <= j < msg.entries.len() implies #[trigger] msg.entries[j]
                == log2[msg.prev_log_index + j] by {
                assert(log2[msg.prev_log_index + j] == log[msg.prev_log_index + j]);
            }
        },
        MessageView::InstallSnapshot { from, msg } => {
            let log = h.written[msg.term];
            let log2 = h2.written[msg.term];
            assert(h.leader.dom().contains(msg.term));
            assert(agree(log, log2, log.len() as int));
            let last = msg.snapshot.last_index;
            lemma_settled_grows(c, h, c2, h2, log, log2, last as int, msg.term, msg.term);
            assert(log2[last - 1] == log[last - 1]);
        },
        MessageView::AppendEntriesResponse { from, msg } => {
            assert(h2.ack(from, msg.term) >= h.ack(from, msg.term));
        },
        MessageView::InstallSnapshotResponse { from, msg } => {
            assert(h2.ack(from, msg.term) >= h.ack(from, msg.term));
        },
        _ => {},
    }
}

pub proof fn lemma_node_grows(c: Cluster, h: History, c2: Cluster, h2: History, n: NodeId, s: NodeView)
    requires
        c.configured(),
        grows(c, h, c2, h2),
        node_inv(c, h, n, s),
        h2.full[n] == h.full[n],
        h2.leader.contains_key(s.term) && h2.leader[s.term] == n ==> h.leader.contains_key(s.term)
            && h2.written[s.term] == h.written[s.term],
    ensures
        node_inv(c2, h2, n, s),
{
    let full = h.full[n];
    lemma_traced_grows(c, h, c2, h2, full);
    assert(agree(full, full, s.commit as int));
    lemma_settled_grows(c, h, c2, h2, full, full, s.commit as int, s.term, s.term);
    if let RoleView::Candidate { votes } = s.role {
        assert forall|v: NodeId| #[trigger] votes.contains(v) implies h2.votes.contains_key(
            (v, s.term),
        ) && h2.votes[(v, s.term)] == n by {
            assert(h.votes.contains_key((v, s.term)));
        }
    }
    if let RoleView::Leader { next, matched } = s.role {
        assert forall|p: NodeId| #[trigger] matched.contains_key(p) implies matched[p] <= h2.ack(
            p,
            s.term,
        ) by {
            assert(h2.ack(p, s.term) >= h.ack(p, s.term));
        }
    }
}

pub proof fn lemma_term_grows(c: Cluster, h: History, c2: Cluster, h2: History, t: Term)
    requires
        c.configured(),
        grows(c, h, c2, h2),
        term_inv(c, h, t),
        h2.written[t] == h.written[t],
        h2.ack(h.leader[t], t) == h.ack(h.leader[t], t),
    ensures
        term_inv(c2, h2, t),
{
    lemma_traced_grows(c, h, c2, h2, h.written[t]);
    let before = electors(c, h, t);
    let after = electors(c2, h2, t);
    assert(before.subset_of(after)) by {
        assert forall|f: NodeId| before.contains(f) implies after.contains(f) by {
            assert(h.votes.contains_key((f, t)));
        }
    }
    lemma_quorum_extends(c, before, after);
    assert(c2.nodes[h.leader[t]].term >= c.nodes[h.leader[t]].term);
}

/// A step at one node: what has to be shown of it.
pub proof fn lemma_one_node(c: Cluster, h: History, c2: Cluster, h2: History, n: NodeId)
    requires
        inv(c, h),
        grows(c, h, c2, h2),
        c.nodes.contains_key(n),
        forall|m: (NodeId, MessageView)| #[trigger]
            c2.sent.contains(m) ==> c.sent.contains(m) || message_inv(c, h, m.0, m.1),
        h2.full.dom() == h.full.dom(),
        h2.leader.dom() == h2.written.dom(),
        forall|m: NodeId|
            #![trigger c2.nodes[m]]
            m != n && c.nodes.contains_key(m) ==> c2.nodes[m] == c.nodes[m] && h2.full[m]
                == h.full[m],
        node_inv(c2, h2, n, c2.nodes[n]),
        forall|t: Term| #[trigger]
            h2.written.contains_key(t) ==> {
                ||| h.written.contains_key(t) && h2.written[t] == h.written[t] && h2.ack(
                    h.leader[t],
                    t,
                ) == h.ack(h.leader[t], t)
                ||| h2.leader[t] == n && term_inv(c2, h2, t)
            },
        forall|k: (NodeId, Term)| #[trigger]
            h2.votes.contains_key(k) ==> h.votes.contains_key(k) || vote_inv(c2, h2, k),
        c2.nodes[n].term == c.nodes[n].term && c.nodes[n].voted_for is Some
            ==> c2.nodes[n].voted_for == c.nodes[n].voted_for,
        forall|k: (NodeId, Term)| #[trigger]
            h2.candidate_log.contains_key(k) ==> h.candidate_log.contains_key(k) || candidate_inv(
                c2,
                h2,
                k,
            ),
        forall|f: NodeId, t: Term| #[trigger]
            h2.ack(f, t) > h.ack(f, t) ==> ack_inv(c2, h2, f, t),
        acks_kept(c2, h2),
        acks_kept_by_voters(c2, h2),
        leaders_complete(c2, h2),
    ensures
        inv(c2, h2),
{
    assert forall|m: NodeId| #[trigger] c2.nodes.contains_key(m) implies node_inv(
        c2,
        h2,
        m,
        c2.nodes[m],
    ) by {
        if m != n {
            assert(c.nodes.contains_key(m));
            let s = c.nodes[m];
            if h2.leader.contains_key(s.term) {
                assert(h2.leader.dom().contains(s.term));
                assert(h2.written.contains_key(s.term));
                if h.written.contains_key(s.term) {
                    assert(h.written.dom().contains(s.term));
                    assert(h.leader.contains_key(s.term));
                }
            }
            lemma_node_grows(c, h, c2, h2, m, s);
        }
    }
    assert forall|m: (NodeId, MessageView)| #[trigger] c2.sent.contains(m) implies message_inv(
        c2,
        h2,
        m.0,
        m.1,
    ) by {
        if c.sent.contains(m) {
            assert(message_inv(c, h, m.0, m.1));
        }
        lemma_message_grows(c, h, c2, h2, m.0, m.1);
    }
    assert forall|t: Term| #[trigger] h2.written.contains_key(t) implies term_inv(c2, h2, t) by {
        if h.written.contains_key(t) && h2.written[t] == h.written[t] && h2.ack(h.leader[t], t)
            == h.ack(h.leader[t], t) {
            lemma_term_grows(c, h, c2, h2, t);
        }
    }
    assert forall|k: (NodeId, Term)| #[trigger] h2.votes.contains_key(k) implies vote_inv(
        c2,
        h2,
        k,
    ) by {
        if h.votes.contains_key(k) {
            assert(vote_inv(c, h, k));
            lemma_traced_grows(c, h, c2, h2, h.voter_log[k]);
            assert(c2.nodes[k.0].term >= c.nodes[k.0].term);
            assert(h.candidate_log.contains_key((h.votes[k], k.1)));
        }
    }
    assert forall|k: (NodeId, Term)| #[trigger]
        h2.candidate_log.contains_key(k) implies candidate_inv(c2, h2, k) by {
        if h.candidate_log.contains_key(k) {
            assert(candidate_inv(c, h, k));
            lemma_traced_grows(c, h, c2, h2, h.candidate_log[k]);
            assert(c2.nodes[k.0].term >= c.nodes[k.0].term);
        }
    }
    assert forall|f: NodeId, t: Term| #[trigger] h2.acks.contains_key((f, t)) implies ack_inv(
        c2,
        h2,
        f,
        t,
    ) by {
        assert(h2.ack(f, t) >= h.ack(f, t));
        if h2.ack(f, t) == h.ack(f, t) && h.ack(f, t) > 0 {
            assert(h.acks.contains_key((f, t)));
            assert(ack_inv(c, h, f, t));
            assert(h.written.contains_key(t));
            assert(c2.nodes[f].term >= c.nodes[f].term);
        }
    }
}

/// As long as the logs of the leaders do not grow, what may be committed only becomes less.
pub proof fn lemma_leaders_stay_complete(c: Cluster, h: History, c2: Cluster, h2: History)
    requires
        c.configured(),
        leaders_complete(c, h),
        grows(c, h, c2, h2),
        h2.written == h.written,
    ensures
        leaders_complete(c2, h2),
{
    assert forall|t: Term, u: Term, i: int|
        #![trigger h2.written[u], open_entry(c2, h2, t, i)]
        t < u && h2.written.contains_key(u) && open_entry(c2, h2, t, i) implies agree(
        h2.written[t],
        h2.written[u],
        i,
    ) by {
        assert(h.own(t, i));
        lemma_open_shrinks(c, h, c2, h2, t, i);
        assert(agree(h.written[t], h.written[u], i));
    }
}

pub proof fn lemma_grows_on(
    c: Cluster,
    h: History,
    c2: Cluster,
    h2: History,
    c3: Cluster,
    h3: History,
)
    requires
        grows(c, h, c2, h2),
        grows(c2, h2, c3, h3),
    ensures
        grows(c, h, c3, h3),
{
    assert forall|n: NodeId|
        #![trigger c3.nodes[n]]
        #![trigger c.nodes[n]]
        c.nodes.contains_key(n) implies c3.nodes[n].term >= c.nodes[n].term && (leads_in(
        c3,
        n,
        c3.nodes[n].term,
    ) ==> leads_in(c, n, c3.nodes[n].term) || !h.leader.contains_key(c3.nodes[n].term)) by {
        assert(c2.nodes[n].term >= c.nodes[n].term);
        if h.leader.contains_key(c3.nodes[n].term) {
            assert(h2.leader.contains_key(c3.nodes[n].term));
        }
    }
    assert forall|t: Term| #[trigger] h.written.contains_key(t) implies h3.written.contains_key(t)
        && agree(h.written[t], h3.written[t], h.written[t].len() as int) by {
        assert(h2.written.contains_key(t));
    }
    assert forall|t: Term| #[trigger] h.leader.contains_key(t) implies h3.leader.contains_key(t)
        && h3.leader[t] == h.leader[t] by {
        assert(h2.leader.contains_key(t));
    }
    assert forall|k: (NodeId, Term)| #[trigger] h.votes.contains_key(k) implies h3.votes.contains_key(
        k,
    ) && h3.votes[k] == h.votes[k] && h3.voter_log.contains_key(k) && h3.voter_log[k]
        == h.voter_log[k] by {
        assert(h2.votes.contains_key(k));
    }
    assert forall|k: (NodeId, Term)| #[trigger] h.candidate_log.contains_key(k) implies
        h3.candidate_log.contains_key(k) && h3.candidate_log[k] == h.candidate_log[k]
        && h3.candidate_members[k] == h.candidate_members[k] by {
        assert(h2.candidate_log.contains_key(k));
    }
    assert forall|f: NodeId, t: Term| #[trigger] h3.ack(f, t) >= h.ack(f, t) by {
        assert(h2.ack(f, t) >= h.ack(f, t));
    }
    assert forall|f: NodeId, t: Term| #[trigger] h3.ack(f, t) > h.ack(f, t) implies
        c.nodes.contains_key(f) && c.nodes[f].term <= t by {
        assert(h2.ack(f, t) >= h.ack(f, t));
        if h3.ack(f, t) > h2.ack(f, t) {
            assert(c2.nodes[f].term >= c.nodes[f].term);
        }
    }
}

// ── Small steps ─────────────────────────────────────────────────────────────

pub open spec fn with_node(c: Cluster, n: NodeId, s: NodeView) -> Cluster {
    Cluster { nodes: c.nodes.insert(n, s), ..c }
}

/// A change at a node that leaves its vote and its log alone, except that it may move on to a
/// later term.
pub proof fn lemma_touch(c: Cluster, h: History, n: NodeId, s: NodeView)
    requires
        inv(c, h),
        c.nodes.contains_key(n),
        node_inv(c, h, n, s),
        s.term >= c.nodes[n].term,
        s.term == c.nodes[n].term ==> s.voted_for == c.nodes[n].voted_for,
        s.role is Leader ==> leads_in(c, n, s.term),
    ensures
        inv(with_node(c, n, s), h),
        grows(c, h, with_node(c, n, s), h),
{
    let c2 = with_node(c, n, s);
    assert(c2.nodes.dom() =~= c.nodes.dom());
    assert(grows(c, h, c2, h)) by {
        assert forall|t: Term| #[trigger] h.written.contains_key(t) implies agree(
            h.written[t],
            h.written[t],
            h.written[t].len() as int,
        ) by {}
        assert forall|k: (NodeId, Term)| #[trigger]
            h.votes.contains_key(k) implies h.voter_log.contains_key(k) by {
            assert(vote_inv(c, h, k));
        }
    }
    lemma_node_grows(c, h, c2, h, n, s);
    lemma_leaders_stay_complete(c, h, c2, h);
    assert forall|f: NodeId, t: Term, i: int|
        #![trigger h.full[f], open_entry(c2, h, t, i)]
        c2.nodes.contains_key(f) && open_entry(c2, h, t, i) && i <= h.ack(f, t) implies agree(
        h.written[t],
        h.full[f],
        i,
    ) by {
        lemma_open_shrinks(c, h, c2, h, t, i);
    }
    assert forall|k: (NodeId, Term), t: Term, i: int|
        #![trigger h.voter_log[k], open_entry(c2, h, t, i)]
        h.votes.contains_key(k) && t < k.1 && open_entry(c2, h, t, i) && i <= h.ack(
            k.0,
            t,
        ) implies agree(h.written[t], h.voter_log[k], i) by {
        lemma_open_shrinks(c, h, c2, h, t, i);
    }
    lemma_one_node(c, h, c2, h, n);
}

/// Messages that the invariant allows are sent.
pub proof fn lemma_send(c: Cluster, h: History, n: NodeId, messages: Set<(NodeId, MessageView)>)
    requires
        inv(c, h),
        c.nodes.contains_key(n),
        forall|m: (NodeId, MessageView)| #[trigger]
            messages.contains(m) ==> message_inv(c, h, m.0, m.1),
    ensures
        inv(Cluster { sent: c.sent.union(messages), ..c }, h),
        grows(c, h, Cluster { sent: c.sent.union(messages), ..c }, h),
{
    let c2 = Cluster { sent: c.sent.union(messages), ..c };
    assert(grows(c, h, c2, h)) by {
        assert forall|t: Term| #[trigger] h.written.contains_key(t) implies agree(
            h.written[t],
            h.written[t],
            h.written[t].len() as int,
        ) by {}
        assert forall|k: (NodeId, Term)| #[trigger]
            h.votes.contains_key(k) implies h.voter_log.contains_key(k) by {
            assert(vote_inv(c, h, k));
        }
    }
    assert(node_inv(c, h, n, c.nodes[n]));
    lemma_node_grows(c, h, c2, h, n, c.nodes[n]);
    lemma_leaders_stay_complete(c, h, c2, h);
    assert forall|f: NodeId, t: Term, i: int|
        #![trigger h.full[f], open_entry(c2, h, t, i)]
        c2.nodes.contains_key(f) && open_entry(c2, h, t, i) && i <= h.ack(f, t) implies agree(
        h.written[t],
        h.full[f],
        i,
    ) by {
        lemma_open_shrinks(c, h, c2, h, t, i);
    }
    assert forall|k: (NodeId, Term), t: Term, i: int|
        #![trigger h.voter_log[k], open_entry(c2, h, t, i)]
        h.votes.contains_key(k) && t < k.1 && open_entry(c2, h, t, i) && i <= h.ack(
            k.0,
            t,
        ) implies agree(h.written[t], h.voter_log[k], i) by {
        lemma_open_shrinks(c, h, c2, h, t, i);
    }
    lemma_one_node(c, h, c2, h, n);
}

/// What a log shows of the whole.
pub proof fn lemma_shows(log: LogView, full: Seq<LogEntryView>)
    requires
        log.shows(full),
    ensures
        log.last_index() == full.len(),
        log.last_term() == term_of(full, full.len() as int),
        forall|i: int|
            log.base <= i <= full.len() ==> #[trigger] log.term_at(i) == Some(term_of(full, i)),
        forall|i: int| log.has(i) ==> #[trigger] log.at(i) == full[i - 1],
        forall|i: int| #[trigger] log.term_at(i) is Some ==> log.base <= i <= full.len(),
{
}

} // verus!
