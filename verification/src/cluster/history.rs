//! What holds in every state of a run.
//!
//! The invariant speaks of a history that no state shows by itself: the whole logs of the nodes,
//! what each leader wrote in its term, who voted for whom and with which log, and how far each
//! node has acknowledged the log of a leader.
use vstd::prelude::*;

use crate::cluster::Cluster;
use crate::conf_change::conf_change_decoded;
use crate::log::LogView;
use crate::message::{EntryType, LogEntryView, MessageView, NodeId, Term};
use crate::node::{NodeView, RoleView};

verus! {

pub ghost struct History {
    /// The whole log of each node, with what snapshots cover.
    pub full: Map<NodeId, Seq<LogEntryView>>,
    /// Who was elected in a term.
    pub leader: Map<Term, NodeId>,
    /// The whole log of the leader of a term, as far as it got in that term.
    pub written: Map<Term, Seq<LogEntryView>>,
    /// Whom a node voted for in a term.
    pub votes: Map<(NodeId, Term), NodeId>,
    /// The log of the voter when it voted.
    pub voter_log: Map<(NodeId, Term), Seq<LogEntryView>>,
    /// The log that a candidate stood for election with.
    pub candidate_log: Map<(NodeId, Term), Seq<LogEntryView>>,
    /// The members that the candidate knew of.
    pub candidate_members: Map<(NodeId, Term), Set<NodeId>>,
    /// The term in which the nodes started. Nobody is elected in it.
    pub started: Term,
    /// How far a node has acknowledged the log of the leader of a term.
    pub acks: Map<(NodeId, Term), nat>,
}

// ── Logs ────────────────────────────────────────────────────────────────────

/// Two logs hold the same first `n` entries.
pub open spec fn agree(a: Seq<LogEntryView>, b: Seq<LogEntryView>, n: int) -> bool {
    &&& 0 <= n <= a.len()
    &&& n <= b.len()
    &&& forall|j: int|
        #![trigger a[j]]
        #![trigger b[j]]
        0 <= j < n ==> a[j] == b[j]
}

/// The term at a position; 0 below the first entry.
pub open spec fn term_of(log: Seq<LogEntryView>, index: int) -> Term {
    if 0 < index <= log.len() {
        log[index - 1].term
    } else {
        0
    }
}

/// Every entry stands at the position it names.
pub open spec fn plain(log: Seq<LogEntryView>) -> bool {
    forall|j: int| 0 <= j < log.len() ==> (#[trigger] log[j]).index == j + 1
}

/// What changes the membership concerns the one node.
pub open spec fn changes_one(c: Cluster, log: Seq<LogEntryView>) -> bool {
    forall|j: int|
        0 <= j < log.len() && (#[trigger] log[j]).entry_type == EntryType::ConfChange
            ==> concerns_one(c, log[j].command)
}

pub open spec fn concerns_one(c: Cluster, command: Seq<u8>) -> bool {
    match conf_change_decoded(command) {
        Some(cmd) => c.changing == Some(cmd.node_id),
        None => true,
    }
}

pub open spec fn terms_within(log: Seq<LogEntryView>, term: Term) -> bool {
    forall|j: int| 0 <= j < log.len() ==> (#[trigger] log[j]).term <= term
}

pub open spec fn rising(log: Seq<LogEntryView>) -> bool {
    forall|j: int, k: int|
        0 <= j <= k < log.len() ==> (#[trigger] log[j]).term <= (#[trigger] log[k]).term
}

/// The first log is at least as complete as the second.
pub open spec fn as_complete(one: Seq<LogEntryView>, other: Seq<LogEntryView>) -> bool {
    let a = term_of(one, one.len() as int);
    let b = term_of(other, other.len() as int);
    a > b || a == b && one.len() >= other.len()
}

impl LogView {
    /// The log shows `full` from its base on.
    pub open spec fn shows(self, full: Seq<LogEntryView>) -> bool {
        &&& self.base <= full.len() < u64::MAX
        &&& self.base_term == term_of(full, self.base as int)
        &&& self.entries == full.skip(self.base as int)
    }
}

impl History {
    pub open spec fn ack(self, f: NodeId, t: Term) -> nat {
        if self.acks.contains_key((f, t)) {
            self.acks[(f, t)]
        } else {
            0
        }
    }

    /// Whatever precedes an entry in this log preceded it in the log of the leader that wrote it.
    pub open spec fn traced(self, log: Seq<LogEntryView>) -> bool {
        forall|j: int|
            0 <= j < log.len() ==> self.written.contains_key((#[trigger] log[j]).term) && agree(
                log,
                self.written[log[j].term],
                j + 1,
            )
    }

    /// The leader of the term wrote an entry of its own at the position.
    pub open spec fn own(self, t: Term, i: int) -> bool {
        &&& self.written.contains_key(t)
        &&& 0 < i <= self.written[t].len()
        &&& self.written[t][i - 1].term == t
    }
}

// ── Majorities ──────────────────────────────────────────────────────────────

/// More than half of the members are among these nodes.
pub open spec fn majority(some: Set<NodeId>, members: Set<NodeId>) -> bool {
    some.intersect(members).len() >= members.len() / 2 + 1
}

impl Cluster {
    /// These nodes can elect or commit: before the change takes effect, or after.
    pub open spec fn is_quorum(self, some: Set<NodeId>) -> bool {
        majority(some, self.voters) || majority(some, self.changed())
    }
}

/// The nodes that have acknowledged the entry, or still can.
pub open spec fn able(c: Cluster, h: History, t: Term, i: int) -> Set<NodeId> {
    c.nodes.dom().filter(|f: NodeId| c.nodes[f].term <= t || h.ack(f, t) >= i)
}

/// The nodes that have acknowledged the entry.
pub open spec fn ackers(c: Cluster, h: History, t: Term, i: int) -> Set<NodeId> {
    c.nodes.dom().filter(|f: NodeId| h.ack(f, t) >= i)
}

/// The nodes that voted for the leader of the term.
pub open spec fn electors(c: Cluster, h: History, t: Term) -> Set<NodeId> {
    c.nodes.dom().filter(
        |f: NodeId| h.votes.contains_key((f, t)) && h.votes[(f, t)] == h.leader[t],
    )
}

/// A leader's own entry that is committed or can still become so.
pub open spec fn open_entry(c: Cluster, h: History, t: Term, i: int) -> bool {
    h.own(t, i) && c.is_quorum(able(c, h, t, i))
}

/// A leader's own entry that a majority has acknowledged.
pub open spec fn decided(c: Cluster, h: History, t: Term, i: int) -> bool {
    h.own(t, i) && c.is_quorum(ackers(c, h, t, i))
}

/// The first `k` entries of a log are committed, as is known in term `t`.
pub open spec fn settled_prefix(c: Cluster, h: History, log: Seq<LogEntryView>, k: int, t: Term) -> bool {
    k <= log.len() && (k == 0 || exists|u: Term, n: int|
        #[trigger] decided(c, h, u, n) && u <= t && k <= n && agree(log, h.written[u], k))
}

// ── The invariant ───────────────────────────────────────────────────────────

pub open spec fn role_inv(c: Cluster, h: History, n: NodeId, s: NodeView) -> bool {
    let full = h.full[n];
    match s.role {
        RoleView::Follower { .. } => true,
        RoleView::Candidate { votes } => {
            &&& s.term > h.started
            &&& votes.subset_of(s.members)
            &&& h.candidate_members[(n, s.term)] == s.members
            &&& forall|v: NodeId| #[trigger]
                votes.contains(v) ==> h.votes.contains_key((v, s.term)) && h.votes[(v, s.term)]
                    == n
            &&& h.candidate_log.contains_key((n, s.term))
            &&& h.candidate_log[(n, s.term)] == full
            &&& forall|j: int| 0 <= j < full.len() ==> (#[trigger] full[j]).term < s.term
            &&& !(h.leader.contains_key(s.term) && h.leader[s.term] == n)
        },
        RoleView::Leader { next, matched } => {
            &&& s.term > h.started
            &&& h.leader.contains_key(s.term)
            &&& h.leader[s.term] == n
            &&& next.dom().subset_of(c.nodes.dom())
            &&& matched.dom().subset_of(c.nodes.dom())
            &&& matched.contains_key(n) ==> matched[n] == 0
            &&& s.peers().subset_of(matched.dom())
            &&& forall|p: NodeId| #[trigger]
                next.contains_key(p) ==> next[p] <= full.len() + 1
            &&& forall|p: NodeId| #[trigger]
                matched.contains_key(p) ==> matched[p] <= h.ack(p, s.term)
        },
    }
}

/// A node goes by the members with the one node or without it, and is one of those that it goes
/// by if it votes.
pub open spec fn membership_inv(c: Cluster, s: NodeView) -> bool {
    &&& s.members == c.voters || s.members == c.changed()
    &&& s.is_voter ==> s.members.contains(s.id)
    &&& s.role !is Follower ==> s.is_voter
}

pub open spec fn node_inv(c: Cluster, h: History, n: NodeId, s: NodeView) -> bool {
    let full = h.full[n];
    &&& s.id == n
    &&& membership_inv(c, s)
    &&& s.max_entries > 0
    &&& s.log.shows(full)
    &&& plain(full)
    &&& changes_one(c, full)
    &&& h.traced(full)
    &&& terms_within(full, s.term)
    &&& s.log.base <= s.applied <= s.commit
    &&& settled_prefix(c, h, full, s.commit as int, s.term)
    &&& s.term >= h.started
    &&& s.voted_for is Some && s.term > h.started ==> h.votes.contains_key((n, s.term)) && h.votes[(n, s.term)]
        == s.voted_for->0
    &&& h.leader.contains_key(s.term) && h.leader[s.term] == n ==> h.written[s.term] == full
    &&& role_inv(c, h, n, s)
}

/// The node leads the term.
pub open spec fn leads_in(c: Cluster, n: NodeId, t: Term) -> bool {
    c.nodes[n].role is Leader && c.nodes[n].term == t
}

pub open spec fn message_inv(c: Cluster, h: History, to: NodeId, message: MessageView) -> bool {
    c.nodes.contains_key(to) && match message {
        MessageView::RequestVote { from, msg } => {
            &&& c.nodes.contains_key(from)
            &&& msg.term > h.started
            &&& h.candidate_log.contains_key((from, msg.term))
            &&& h.candidate_members[(from, msg.term)].contains(to)
            &&& msg.last_log_index == h.candidate_log[(from, msg.term)].len()
            &&& msg.last_log_term == term_of(
                h.candidate_log[(from, msg.term)],
                h.candidate_log[(from, msg.term)].len() as int,
            )
        },
        MessageView::RequestVoteResponse { from, msg } => {
            &&& c.nodes.contains_key(from)
            &&& msg.vote_granted ==> h.votes.contains_key((from, msg.term)) && h.votes[(
                from,
                msg.term,
            )] == to
        },
        MessageView::AppendEntries { from, msg } => {
            let log = h.written[msg.term];
            &&& h.leader.contains_key(msg.term)
            &&& h.leader[msg.term] == from
            &&& msg.prev_log_index + msg.entries.len() <= log.len()
            &&& msg.prev_log_term == term_of(log, msg.prev_log_index as int)
            &&& forall|j: int|
                0 <= j < msg.entries.len() ==> #[trigger] msg.entries[j]
                    == log[msg.prev_log_index + j]
            &&& settled_prefix(c, h, log, msg.leader_commit as int, msg.term)
            &&& msg.entries.len() == 0 ==> msg.leader_commit <= msg.prev_log_index
        },
        MessageView::AppendEntriesResponse { from, msg } => {
            &&& c.nodes.contains_key(from)
            &&& to == from && msg.success ==> !leads_in(c, to, msg.term)
            &&& msg.success ==> h.leader.contains_key(msg.term) && h.leader[msg.term] == to
                && msg.match_index <= h.ack(from, msg.term)
        },
        MessageView::InstallSnapshot { from, msg } => {
            let log = h.written[msg.term];
            &&& h.leader.contains_key(msg.term)
            &&& h.leader[msg.term] == from
            &&& msg.snapshot.last_index > 0
            &&& msg.snapshot.last_term == term_of(log, msg.snapshot.last_index as int)
            &&& settled_prefix(c, h, log, msg.snapshot.last_index as int, msg.term)
        },
        MessageView::InstallSnapshotResponse { from, msg } => {
            &&& c.nodes.contains_key(from)
            &&& to == from && msg.success ==> !leads_in(c, to, msg.term)
            &&& msg.success ==> h.leader.contains_key(msg.term) && h.leader[msg.term] == to && 0
                < msg.last_index <= h.ack(from, msg.term)
        },
        _ => false,
    }
}

pub open spec fn term_inv(c: Cluster, h: History, t: Term) -> bool {
    let log = h.written[t];
    let l = h.leader[t];
    &&& h.leader.contains_key(t)
    &&& c.nodes.contains_key(l)
    &&& c.nodes[l].term >= t
    &&& 0 < log.len() < u64::MAX
    &&& log[log.len() - 1].term == t
    &&& t > 0
    &&& plain(log)
    &&& changes_one(c, log)
    &&& h.traced(log)
    &&& rising(log)
    &&& terms_within(log, t)
    &&& h.ack(l, t) == log.len()
    &&& c.is_quorum(electors(c, h, t))
}

pub open spec fn vote_inv(c: Cluster, h: History, k: (NodeId, Term)) -> bool {
    let chosen = (h.votes[k], k.1);
    &&& c.nodes.contains_key(k.0)
    &&& c.nodes[k.0].term >= k.1
    &&& k.1 > h.started && c.nodes[k.0].term == k.1 ==> c.nodes[k.0].voted_for == Some(h.votes[k])
    &&& h.voter_log.contains_key(k)
    &&& h.traced(h.voter_log[k])
    &&& h.candidate_log.contains_key(chosen)
    &&& h.candidate_members[chosen].contains(k.0)
    &&& as_complete(h.candidate_log[chosen], h.voter_log[k])
}

pub open spec fn candidate_inv(c: Cluster, h: History, k: (NodeId, Term)) -> bool {
    &&& c.nodes.contains_key(k.0)
    &&& c.nodes[k.0].term >= k.1
    &&& h.traced(h.candidate_log[k])
}

pub open spec fn ack_inv(c: Cluster, h: History, f: NodeId, t: Term) -> bool {
    h.ack(f, t) > 0 ==> {
        &&& c.nodes.contains_key(f)
        &&& c.nodes[f].term >= t
        &&& h.written.contains_key(t)
        &&& h.ack(f, t) <= h.written[t].len()
    }
}

/// What a node has acknowledged and may be committed, it still holds.
pub open spec fn acks_kept(c: Cluster, h: History) -> bool {
    forall|f: NodeId, t: Term, i: int|
        #![trigger h.full[f], open_entry(c, h, t, i)]
        c.nodes.contains_key(f) && open_entry(c, h, t, i) && i <= h.ack(f, t) ==> agree(
            h.written[t],
            h.full[f],
            i,
        )
}

/// What a node had acknowledged in earlier terms and may be committed, it held when it voted.
pub open spec fn acks_kept_by_voters(c: Cluster, h: History) -> bool {
    forall|k: (NodeId, Term), t: Term, i: int|
        #![trigger h.voter_log[k], open_entry(c, h, t, i)]
        h.votes.contains_key(k) && t < k.1 && open_entry(c, h, t, i) && i <= h.ack(k.0, t)
            ==> agree(h.written[t], h.voter_log[k], i)
}

/// What may be committed, every later leader has.
pub open spec fn leaders_complete(c: Cluster, h: History) -> bool {
    forall|t: Term, u: Term, i: int|
        #![trigger h.written[u], open_entry(c, h, t, i)]
        t < u && h.written.contains_key(u) && open_entry(c, h, t, i) ==> agree(
            h.written[t],
            h.written[u],
            i,
        )
}

pub open spec fn inv(c: Cluster, h: History) -> bool {
    &&& c.configured()
    &&& h.full.dom() == c.nodes.dom()
    &&& h.leader.dom() == h.written.dom()
    &&& forall|n: NodeId| #[trigger] c.nodes.contains_key(n) ==> node_inv(c, h, n, c.nodes[n])
    &&& forall|m: (NodeId, MessageView)| #[trigger]
        c.sent.contains(m) ==> message_inv(c, h, m.0, m.1)
    &&& forall|t: Term| #[trigger] h.written.contains_key(t) ==> term_inv(c, h, t)
    &&& forall|k: (NodeId, Term)| #[trigger] h.votes.contains_key(k) ==> vote_inv(c, h, k)
    &&& forall|k: (NodeId, Term)| #[trigger]
        h.candidate_log.contains_key(k) ==> candidate_inv(c, h, k)
    &&& forall|f: NodeId, t: Term| #[trigger] h.acks.contains_key((f, t)) ==> ack_inv(c, h, f, t)
    &&& acks_kept(c, h)
    &&& acks_kept_by_voters(c, h)
    &&& leaders_complete(c, h)
}

} // verus!
