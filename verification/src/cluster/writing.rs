//! A leader that writes an entry keeps the invariant: it has everything that may be committed.
use vstd::prelude::*;

use crate::cluster::Cluster;
use crate::cluster::growth::{
    grows, lemma_one_node, lemma_open_shrinks, lemma_quorum_extends, lemma_quorums_meet,
    lemma_settled_grows, lemma_term_grows, lemma_traced_grows, with_node,
};
use crate::cluster::history::{
    ack_inv, able, agree, candidate_inv, changes_one, concerns_one, electors, inv, membership_inv,
    node_inv, open_entry, plain, rising, role_inv, term_inv, term_of, terms_within, vote_inv,
    History,
};
use crate::message::{EntryType, LogEntryView, NodeId, Term};
use crate::node::{NodeView, RoleView};

verus! {

/// Nothing that nobody else has acknowledged can become committed in a term that a majority has
/// left for a later election.
pub proof fn lemma_superseded(c: Cluster, h: History, t: Term, u: Term, i: int)
    requires
        c.configured(),
        c.is_quorum(electors(c, h, u)),
        forall|v: NodeId| #[trigger]
            electors(c, h, u).contains(v) ==> c.nodes[v].term > t && h.ack(v, t) < i,
    ensures
        !open_entry(c, h, t, i),
{
    if open_entry(c, h, t, i) {
        let one = able(c, h, t, i);
        let other = electors(c, h, u);
        let v = lemma_quorums_meet(c, one, other);
        assert(other.contains(v));
    }
}

/// A candidate that a majority voted for has everything that may be committed.
pub proof fn lemma_winner_complete(
    c: Cluster,
    h: History,
    n: NodeId,
    t: Term,
    voters: Set<NodeId>,
    u: Term,
    i: int,
)
    requires
        inv(c, h),
        c.nodes.contains_key(n),
        c.is_quorum(voters),
        forall|v: NodeId| #[trigger]
            voters.contains(v) ==> h.votes.contains_key((v, t)) && h.votes[(v, t)] == n,
        h.candidate_log.contains_key((n, t)),
        terms_below(h.candidate_log[(n, t)], t),
        u < t,
        open_entry(c, h, u, i),
    ensures
        agree(h.written[u], h.candidate_log[(n, t)], i),
{
    let stood = h.candidate_log[(n, t)];
    let some = able(c, h, u, i);
    let f = lemma_quorums_meet(c, some, voters);
    let k = (f, t);
    assert(h.votes.contains_key(k));
    assert(vote_inv(c, h, k));
    assert(h.ack(f, u) >= i);
    let held = h.voter_log[k];
    assert(agree(h.written[u], held, i));
    assert(candidate_inv(c, h, (n, t)));
    // The voter's log ends in term `u` or later, and so does the candidate's.
    let a = term_of(stood, stood.len() as int);
    let b = term_of(held, held.len() as int);
    assert(h.own(u, i));
    assert(held[i - 1].term == u);
    lemma_rising(c, h, held);
    assert(b >= u);
    assert(a >= b);
    assert(term_inv(c, h, u));
    let last = stood.len() - 1;
    assert(stood.len() > 0);
    assert(h.written.contains_key(stood[last].term));
    assert(agree(stood, h.written[a], stood.len() as int));
    if a > u {
        assert(agree(h.written[u], h.written[a], i));
        assert(term_inv(c, h, a));
        // An entry of a later term stands behind the one in question.
        if stood.len() < i {
            assert(h.written[a][last].term <= h.written[a][i - 1].term);
        }
        assert(agree(h.written[u], stood, i));
    } else {
        assert(a == u && b == u);
        assert(stood.len() >= held.len() >= i);
        assert(agree(h.written[u], stood, i));
    }
}

pub open spec fn terms_below(log: Seq<LogEntryView>, term: Term) -> bool {
    forall|j: int| 0 <= j < log.len() ==> (#[trigger] log[j]).term < term
}

/// The terms in a log never go down.
pub proof fn lemma_rising(c: Cluster, h: History, log: Seq<LogEntryView>)
    requires
        inv(c, h),
        h.traced(log),
    ensures
        rising(log),
{
    assert forall|j: int, k: int| 0 <= j <= k < log.len() implies (#[trigger] log[j]).term <= (
    #[trigger] log[k]).term by {
        let t = log[k].term;
        assert(h.written.contains_key(t));
        assert(term_inv(c, h, t));
        assert(log[j] == h.written[t][j]);
    }
}

pub open spec fn writing_recorded(h: History, n: NodeId, t: Term, entry: LogEntryView) -> History {
    let log = h.full[n].push(entry);
    History {
        full: h.full.insert(n, log),
        leader: h.leader.insert(t, n),
        written: h.written.insert(t, log),
        acks: h.acks.insert((n, t), log.len()),
        ..h
    }
}

/// The node leads its term, or has just been elected to.
pub open spec fn may_write(c: Cluster, h: History, n: NodeId) -> bool {
    let t = c.nodes[n].term;
    ||| c.nodes[n].role is Leader && h.leader.contains_key(t) && h.leader[t] == n
    ||| {
        &&& !h.leader.contains_key(t)
        &&& t > h.started
        &&& h.candidate_log.contains_key((n, t))
        &&& h.candidate_log[(n, t)] == h.full[n]
        &&& terms_below(h.full[n], t)
        &&& exists|voters: Set<NodeId>| #[trigger]
            c.is_quorum(voters) && (forall|v: NodeId| #[trigger]
                voters.contains(v) ==> h.votes.contains_key((v, t)) && h.votes[(v, t)] == n)
    }
}

/// What a leader knows of its peers.
pub open spec fn leads(c: Cluster, h: History, n: NodeId, s: NodeView, end: nat) -> bool {
    &&& s.role matches RoleView::Leader { next, matched }
    &&& next.dom().subset_of(c.nodes.dom())
    &&& matched.dom().subset_of(c.nodes.dom())
    &&& matched.contains_key(n) ==> matched[n] == 0
    &&& s.peers().subset_of(matched.dom())
    &&& forall|p: NodeId| #[trigger] next.contains_key(p) ==> next[p] <= end
    &&& forall|p: NodeId| #[trigger] matched.contains_key(p) ==> matched[p] <= h.ack(p, s.term)
}

/// A leader writes an entry of its own.
pub proof fn lemma_write(c: Cluster, h: History, n: NodeId, entry: LogEntryView, s: NodeView)
    requires
        inv(c, h),
        c.nodes.contains_key(n),
        may_write(c, h, n),
        entry.term == c.nodes[n].term,
        entry.index == h.full[n].len() + 1,
        entry.entry_type == EntryType::ConfChange ==> concerns_one(c, entry.command),
        h.full[n].len() + 1 < u64::MAX,
        s.term == c.nodes[n].term,
        s.voted_for == c.nodes[n].voted_for,
        s.id == n,
        membership_inv(c, s),
        s.max_entries > 0,
        s.log.shows(h.full[n].push(entry)),
        s.log.base <= s.applied <= s.commit,
        s.commit == c.nodes[n].commit,
        leads(c, h, n, s, h.full[n].len() + 2),
    ensures
        inv(with_node(c, n, s), writing_recorded(h, n, s.term, entry)),
        grows(c, h, with_node(c, n, s), writing_recorded(h, n, s.term, entry)),
{
    let t = s.term;
    let c2 = with_node(c, n, s);
    let h2 = writing_recorded(h, n, t, entry);
    let before = c.nodes[n];
    let full = h.full[n];
    let full2 = full.push(entry);
    let i2 = full2.len() as int;
    assert(node_inv(c, h, n, before));
    assert(c2.nodes.dom() =~= c.nodes.dom());
    assert(h2.full.dom() =~= c.nodes.dom());
    assert(h2.leader.dom() =~= h2.written.dom());
    assert(h.leader.contains_key(t) <==> h.written.contains_key(t)) by {
        assert(h.leader.dom().contains(t) <==> h.written.dom().contains(t));
    }
    if h.written.contains_key(t) {
        assert(term_inv(c, h, t));
    }
    assert(h.ack(n, t) <= full.len()) by {
        if h.ack(n, t) > 0 {
            assert(h.acks.contains_key((n, t)));
            assert(ack_inv(c, h, n, t));
        }
    }
    assert(grows(c, h, c2, h2)) by {
        assert forall|u: Term| #[trigger]
            h.written.contains_key(u) implies h2.written.contains_key(u) && agree(
            h.written[u],
            h2.written[u],
            h.written[u].len() as int,
        ) by {}
        assert forall|v: (NodeId, Term)| #[trigger]
            h.votes.contains_key(v) implies h2.voter_log.contains_key(v) by {
            assert(vote_inv(c, h, v));
        }
        assert forall|f: NodeId, u: Term| #[trigger] h2.ack(f, u) >= h.ack(f, u) by {}
        assert forall|f: NodeId, u: Term| #[trigger] h2.ack(f, u) > h.ack(f, u) implies
            c.nodes.contains_key(f) && c.nodes[f].term <= u by {}
    }
    // The new log.
    lemma_traced_grows(c, h, c2, h2, full);
    assert(h2.traced(full2)) by {
        assert forall|j: int| 0 <= j < full2.len() implies h2.written.contains_key(
            (#[trigger] full2[j]).term,
        ) && agree(full2, h2.written[full2[j].term], j + 1) by {
            if j < full.len() {
                assert(full2[j] == full[j]);
                assert(agree(full, h2.written[full[j].term], j + 1));
            }
        }
    }
    lemma_rising(c, h, full);
    assert(rising(full2)) by {
        assert forall|j: int, k: int| 0 <= j <= k < full2.len() implies (#[trigger] full2[j]).term
            <= (#[trigger] full2[k]).term by {
            if k < full.len() {
                assert(full[j].term <= full[k].term);
            } else if j < full.len() {
                assert(full[j].term <= before.term);
            }
        }
    }
    assert(plain(full2) && changes_one(c2, full2)) by {
        assert forall|j: int| 0 <= j < full2.len() implies (#[trigger] full2[j]).index == j + 1 && (
        full2[j].entry_type == EntryType::ConfChange ==> concerns_one(
            c2,
            full2[j].command,
        )) by {
            if j < full.len() {
                assert(full[j].index == j + 1);
                assert(full2[j] == full[j]);
            }
        }
    }
    assert(terms_within(full2, t)) by {
        assert forall|j: int| 0 <= j < full2.len() implies (#[trigger] full2[j]).term <= t by {
            if j < full.len() {
                assert(full[j].term <= before.term);
            }
        }
    }
    lemma_settled_grows(c, h, c2, h2, full, full2, s.commit as int, t, t);
    // The term.
    assert(term_inv(c2, h2, t)) by {
        let after = electors(c2, h2, t);
        if h.leader.contains_key(t) {
            assert(electors(c, h, t).subset_of(after));
            lemma_quorum_extends(c, electors(c, h, t), after);
        } else {
            let voters = choose|voters: Set<NodeId>| #[trigger]
                c.is_quorum(voters) && (forall|v: NodeId| #[trigger]
                    voters.contains(v) ==> h.votes.contains_key((v, t)) && h.votes[(v, t)] == n);
            assert(voters.subset_of(after)) by {
                assert forall|v: NodeId| voters.contains(v) implies after.contains(v) by {
                    assert(vote_inv(c, h, (v, t)));
                }
            }
            lemma_quorum_extends(c, voters, after);
        }
    }
    assert(role_inv(c2, h2, n, s)) by {
        let matched = s.role->matched;
        assert forall|p: NodeId| #[trigger] matched.contains_key(p) implies matched[p] <= h2.ack(
            p,
            t,
        ) by {
            assert(h2.ack(p, t) >= h.ack(p, t));
        }
    }
    assert(node_inv(c2, h2, n, s));
    // Acknowledgements.
    assert forall|f: NodeId, u: Term| #[trigger] h2.ack(f, u) > h.ack(f, u) implies ack_inv(
        c2,
        h2,
        f,
        u,
    ) by {}
    assert forall|f: NodeId, u: Term, i: int|
        #![trigger h2.full[f], open_entry(c2, h2, u, i)]
        c2.nodes.contains_key(f) && open_entry(c2, h2, u, i) && i <= h2.ack(f, u) implies agree(
        h2.written[u],
        h2.full[f],
        i,
    ) by {
        lemma_new_entry_only(c, h, n, entry, s, u, i);
        if h.own(u, i) {
            lemma_open_shrinks(c, h, c2, h2, u, i);
            if f == n && u == t {
                assert(h2.written[t] == full2);
            } else {
                assert(agree(h.written[u], h.full[f], i));
            }
        } else {
            if f != n {
                lemma_ack_within(c, h, f, t);
            }
        }
    }
    assert forall|v: (NodeId, Term), u: Term, i: int|
        #![trigger h2.voter_log[v], open_entry(c2, h2, u, i)]
        h2.votes.contains_key(v) && u < v.1 && open_entry(c2, h2, u, i) && i <= h2.ack(
            v.0,
            u,
        ) implies agree(h2.written[u], h2.voter_log[v], i) by {
        lemma_new_entry_only(c, h, n, entry, s, u, i);
        assert(vote_inv(c, h, v));
        if v.0 == n && u == t {
            assert(c.nodes[n].term >= v.1);
        } else {
            lemma_ack_within(c, h, v.0, u);
            assert(h.own(u, i));
            lemma_open_shrinks(c, h, c2, h2, u, i);
            assert(agree(h.written[u], h.voter_log[v], i));
        }
    }
    assert forall|u: Term, w: Term, i: int|
        #![trigger h2.written[w], open_entry(c2, h2, u, i)]
        u < w && h2.written.contains_key(w) && open_entry(c2, h2, u, i) implies agree(
        h2.written[u],
        h2.written[w],
        i,
    ) by {
        lemma_new_entry_only(c, h, n, entry, s, u, i);
        if h.own(u, i) {
            lemma_open_shrinks(c, h, c2, h2, u, i);
            if w == t && !h.written.contains_key(t) {
                let voters = choose|voters: Set<NodeId>| #[trigger]
                    c.is_quorum(voters) && (forall|v: NodeId| #[trigger]
                        voters.contains(v) ==> h.votes.contains_key((v, t)) && h.votes[(v, t)]
                            == n);
                lemma_winner_complete(c, h, n, t, voters, u, i);
                assert(agree(h.written[u], full, i));
            } else {
                assert(agree(h.written[u], h.written[w], i));
            }
            assert(agree(h.written[u], h2.written[w], i));
            assert(agree(h2.written[u], h2.written[w], i));
        } else {
            assert(u == t && i == i2);
            assert(h.written.contains_key(w));
            assert(term_inv(c, h, w));
            assert forall|v: NodeId| #[trigger] electors(c2, h2, w).contains(v) implies
                c2.nodes[v].term > t && h2.ack(v, t) < i by {
                assert(h.votes.contains_key((v, w)));
                assert(vote_inv(c, h, (v, w)));
                assert(v != n);
                lemma_ack_within(c, h, v, t);
            }
            lemma_term_grows(c, h, c2, h2, w);
            lemma_superseded(c2, h2, t, w, i);
        }
    }
    lemma_one_node(c, h, c2, h2, n);
}

/// What is acknowledged was written.
pub proof fn lemma_ack_within(c: Cluster, h: History, f: NodeId, t: Term)
    requires
        inv(c, h),
    ensures
        h.ack(f, t) > 0 ==> h.written.contains_key(t) && h.ack(f, t) <= h.written[t].len()
            && c.nodes.contains_key(f) && c.nodes[f].term >= t,
{
    if h.ack(f, t) > 0 {
        assert(h.acks.contains_key((f, t)));
        assert(ack_inv(c, h, f, t));
    }
}

/// The only own entry that a leader gains is the one it writes.
pub proof fn lemma_new_entry_only(
    c: Cluster,
    h: History,
    n: NodeId,
    entry: LogEntryView,
    s: NodeView,
    u: Term,
    i: int,
)
    requires
        inv(c, h),
        c.nodes.contains_key(n),
        may_write(c, h, n),
        s.term == c.nodes[n].term,
    ensures
        ({
            let h2 = writing_recorded(h, n, s.term, entry);
            h2.own(u, i) ==> h.own(u, i) || u == s.term && i == h.full[n].len() + 1
        }),
{
    let t = s.term;
    let h2 = writing_recorded(h, n, t, entry);
    if h2.own(u, i) && u == t && i <= h.full[n].len() {
        assert(h2.written[t][i - 1] == h.full[n][i - 1]);
        assert(h.leader.dom().contains(t) <==> h.written.dom().contains(t));
    }
}

} // verus!
