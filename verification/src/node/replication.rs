//! Log replication: proposals, AppendEntries and InstallSnapshot on both sides, and the commit
//! index.
use vstd::prelude::*;

use crate::message::{
    clone_entries, entry_views, AppendEntries, AppendEntriesResponse, EntryType, InstallSnapshot,
    InstallSnapshotResponse, LogEntry, LogIndex, Message, NodeId,
};
use crate::node::listing::keys_of;
use crate::node::model::{enumerates, holders, lemma_enumerates_nothing, NodeView, ReadyView};
use crate::node::{RaftNode, Role};

verus! {

broadcast use vstd::std_specs::hash::group_hash_axioms;

proof fn lemma_broadcast_push(node: NodeView, order: Seq<NodeId>, p: NodeId)
    requires
        node.role is Leader,
    ensures
        node.broadcast(order.push(p)) == (if node.role->next[p] > node.log.base {
            node.broadcast(order).send(p, node.append_message(node.role->next[p]))
        } else {
            let sent = node.broadcast(order);
            NodeView {
                ready: ReadyView {
                    snapshot_to_send: sent.ready.snapshot_to_send.push(p),
                    ..sent.ready
                },
                ..sent
            }
        }),
{
    reveal(Seq::filter);
    assert(order.push(p).drop_last() =~= order);
    let next = node.role->next;
    let reached = |q: NodeId| next[q] > node.log.base;
    let sent = |q: NodeId| (q, node.append_message(next[q]));
    let longer = order.push(p).filter(reached).map_values(sent);
    if next[p] > node.log.base {
        assert(longer =~= order.filter(reached).map_values(sent).push(sent(p)));
    }
    assert(node.broadcast(order.push(p)).ready =~= if next[p] > node.log.base {
        node.broadcast(order).send(p, node.append_message(next[p])).ready
    } else {
        ReadyView {
            snapshot_to_send: node.broadcast(order).ready.snapshot_to_send.push(p),
            ..node.broadcast(order).ready
        }
    });
}

/// How many of the positions reach `index`.
spec fn reaching(positions: Seq<LogIndex>, index: int) -> nat
    decreases positions.len(),
{
    if positions.len() == 0 {
        0
    } else {
        reaching(positions.drop_last(), index) + (if positions.last() >= index {
            1nat
        } else {
            0nat
        })
    }
}

proof fn lemma_reaching_push(positions: Seq<LogIndex>, added: LogIndex, index: int)
    ensures
        reaching(positions.push(added), index) == reaching(positions, index) + (if added >= index {
            1nat
        } else {
            0nat
        }),
{
    assert(positions.push(added).drop_last() =~= positions);
}

/// Between `index` and the smallest position that reaches it, the count does not change.
proof fn lemma_reaching_step(positions: Seq<LogIndex>, index: int) -> (least: LogIndex)
    requires
        reaching(positions, index) > 0,
    ensures
        positions.contains(least),
        least >= index,
        reaching(positions, least as int) == reaching(positions, index),
        forall|i: int| 0 <= i < positions.len() && positions[i] >= index ==> positions[i] >= least,
    decreases positions.len(),
{
    let rest = positions.drop_last();
    let last = positions.last();
    if reaching(rest, index) > 0 {
        let least = lemma_reaching_step(rest, index);
        let i = choose|i: int| 0 <= i < rest.len() && rest[i] == least;
        assert(positions[i] == least);
        if last >= index && last < least {
            lemma_reaching_none_between(rest, index, last, least);
            assert(positions[positions.len() - 1] == last);
            assert forall|i: int| 0 <= i < positions.len() && positions[i] >= index implies positions[i]
                >= last by {
                if i < rest.len() {
                    assert(rest[i] == positions[i]);
                }
            }
            last
        } else {
            assert forall|i: int| 0 <= i < positions.len() && positions[i] >= index implies positions[i]
                >= least by {
                if i < rest.len() {
                    assert(rest[i] == positions[i]);
                }
            }
            least
        }
    } else {
        assert(positions[positions.len() - 1] == last);
        lemma_reaching_zero(rest, index, last as int);
        assert forall|i: int| 0 <= i < positions.len() && positions[i] >= index implies positions[i]
            >= last by {
            if i < rest.len() {
                lemma_reaching_member(rest, i, index);
            }
        }
        last
    }
}

proof fn lemma_reaching_none_between(
    positions: Seq<LogIndex>,
    low: int,
    middle: LogIndex,
    high: LogIndex,
)
    requires
        low <= middle <= high,
        forall|i: int| 0 <= i < positions.len() && positions[i] >= low ==> positions[i] >= high,
    ensures
        reaching(positions, middle as int) == reaching(positions, low),
    decreases positions.len(),
{
    if positions.len() > 0 {
        assert forall|i: int| 0 <= i < positions.drop_last().len() && positions.drop_last()[i]
            >= low implies positions.drop_last()[i] >= high by {
            assert(positions[i] == positions.drop_last()[i]);
        }
        assert(positions[positions.len() - 1] == positions.last());
        lemma_reaching_none_between(positions.drop_last(), low, middle, high);
    }
}

proof fn lemma_reaching_zero(positions: Seq<LogIndex>, low: int, high: int)
    requires
        reaching(positions, low) == 0,
        low <= high,
    ensures
        reaching(positions, high) == 0,
    decreases positions.len(),
{
    if positions.len() > 0 {
        lemma_reaching_zero(positions.drop_last(), low, high);
    }
}

proof fn lemma_reaching_member(positions: Seq<LogIndex>, i: int, index: int)
    requires
        0 <= i < positions.len(),
        positions[i] >= index,
    ensures
        reaching(positions, index) > 0,
    decreases positions.len(),
{
    if i < positions.len() - 1 {
        assert(positions.drop_last()[i] == positions[i]);
        lemma_reaching_member(positions.drop_last(), i, index);
    }
}

fn count_reaching(positions: &Vec<LogIndex>, index: LogIndex) -> (count: usize)
    ensures
        count == reaching(positions@, index as int),
{
    let mut count: usize = 0;
    let mut i: usize = 0;
    while i < positions.len()
        invariant
            count <= i <= positions@.len(),
            count == reaching(positions@.take(i as int), index as int),
        decreases positions@.len() - i,
    {
        proof {
            assert(positions@.take(i + 1) =~= positions@.take(i as int).push(positions@[i as int]));
            lemma_reaching_push(positions@.take(i as int), positions@[i as int], index as int);
        }
        if positions[i] >= index {
            count += 1;
        }
        i += 1;
    }
    assert(positions@.take(i as int) =~= positions@);
    count
}

/// No two positions are the highest that a majority holds.
pub proof fn lemma_quorum_index_unique(node: NodeView, index: LogIndex)
    requires
        node.is_quorum_index(index),
    ensures
        node.quorum_index() == index,
{
    let chosen = node.quorum_index();
    assert(node.is_quorum_index(chosen));
    assert(node.acks(chosen as int) >= node.quorum());
    assert(node.acks(index as int) >= node.quorum());
}

/// Every leader has a position that a majority holds: the start of the log at the least.
proof fn lemma_start_is_held(node: NodeView)
    requires
        node.valid(),
        node.role is Leader,
    ensures
        node.acks(0) >= node.quorum(),
{
    let matched = node.role->matched;
    let held = holders(matched, node.members, 0);
    assert(node.peers().subset_of(held));
    vstd::set_lib::lemma_len_subset(node.peers(), held);
}

impl RaftNode {
    pub(crate) fn propose(&mut self, command: Vec<u8>) -> (order: Ghost<Seq<NodeId>>)
        requires
            old(self).wf(),
            old(self)@.log.last_index() + 1 < u64::MAX,
            old(self)@.reaches(old(self)@.log.last_index() + 1),
        ensures
            final(self).wf(),
            enumerates(order@, old(self)@.followed()),
            final(self)@ == old(self)@.propose(command@, order@),
    {
        if !self.is_leader() {
            proof {
                lemma_enumerates_nothing();
            }
            return Ghost(Seq::empty());
        }
        self.append_own(EntryType::Normal, command)
    }

    pub(crate) fn append_own(&mut self, entry_type: EntryType, command: Vec<u8>) -> (order: Ghost<
        Seq<NodeId>,
    >)
        requires
            old(self).wf(),
            old(self)@.log.last_index() + 1 < u64::MAX,
            old(self)@.reaches(old(self)@.log.last_index() + 1),
        ensures
            final(self).wf(),
            enumerates(order@, old(self)@.followed()),
            final(self)@ == old(self)@.append_own(entry_type, command@, order@),
    {
        let entry = LogEntry {
            index: self.log.last_index() + 1,
            term: self.current_term,
            entry_type,
            command,
        };
        self.pending_ready.push_persist(entry.clone());
        self.log.append(entry);
        self.broadcast_append_entries()
    }

    /// The AppendEntries that continues a peer's log at `next`.
    fn append_message(&self, next: LogIndex) -> (message: Message)
        requires
            self.wf(),
            self@.log.base < next <= self@.log.last_index() + 1,
        ensures
            message@ == self@.append_message(next),
    {
        let tail = self.log.entries_from(next);
        let entries = if tail.len() <= self.config.max_entries_per_append {
            clone_entries(tail)
        } else {
            let head = vstd::slice::slice_subrange(tail, 0, self.config.max_entries_per_append);
            assert(entry_views(head@) =~= entry_views(tail@).take(
                self.config.max_entries_per_append as int,
            ));
            clone_entries(head)
        };
        let prev_log_term = match self.log.term_at(next - 1) {
            Some(term) => term,
            None => 0,
        };
        Message::AppendEntries {
            from: self.id,
            msg: AppendEntries {
                term: self.current_term,
                leader_id: self.id,
                prev_log_index: next - 1,
                prev_log_term,
                entries,
                leader_commit: self.commit_index,
            },
        }
    }

    pub(crate) fn broadcast_append_entries(&mut self) -> (order: Ghost<Seq<NodeId>>)
        requires
            old(self).wf(),
            old(self)@.reaches(old(self)@.log.last_index()),
        ensures
            final(self).wf(),
            enumerates(order@, old(self)@.followed()),
            final(self)@ == old(self)@.broadcast(order@),
    {
        let peers = match &self.role {
            Role::Leader { next_index, .. } => keys_of(next_index),
            _ => {
                proof {
                    lemma_enumerates_nothing();
                }
                return Ghost(Seq::empty());
            },
        };
        let ghost start = self@;
        let mut i: usize = 0;
        assert(start.broadcast(Seq::empty()) == start) by {
            reveal(Seq::filter);
            assert(start.broadcast(Seq::empty()).ready =~= start.ready);
        }
        assert(peers@.take(0) =~= Seq::empty());
        while i < peers.len()
            invariant
                i <= peers@.len(),
                start.role is Leader,
                start.valid(),
                start.reaches(start.log.last_index()),
                peers@.to_set() == start.role->next.dom(),
                self.log.wf(),
                self@ == start.broadcast(peers@.take(i as int)),
            decreases peers@.len() - i,
        {
            let peer = peers[i];
            assert(peers@.to_set().contains(peer));
            proof {
                lemma_broadcast_push(start, peers@.take(i as int), peer);
                assert(peers@.take(i + 1) =~= peers@.take(i as int).push(peer));
            }
            let next = match &self.role {
                Role::Leader { next_index, .. } => match next_index.get(&peer) {
                    Some(next) => *next,
                    None => 1,
                },
                _ => 1,
            };
            assert(next == start.role->next[peer]);
            // A position inside the compacted log cannot be continued with entries.
            if next <= self.log.snapshot_index() {
                self.pending_ready.snapshot_to_send.push(peer);
            } else {
                let message = self.append_message(next);
                self.send(peer, message);
            }
            i += 1;
        }
        assert(peers@.take(i as int) =~= peers@);
        Ghost(peers@)
    }

    // ── The follower's side ───────────────────────────────────────────────

    /// Where the leader should continue after a rejected AppendEntries.
    fn conflict_hint(&self, prev: LogIndex) -> (hint: LogIndex)
        requires
            self.wf(),
        ensures
            hint == self@.conflict_hint(prev),
    {
        let base = self.log.snapshot_index();
        let last = self.log.last_index();
        let wanted = if prev > last {
            last + 1
        } else if prev <= base {
            base + 1
        } else {
            let mut start = prev;
            while start > base + 1 && self.log.term_at(start - 1) == self.log.term_at(start)
                invariant
                    self.wf(),
                    base == self@.log.base,
                    base < start <= self@.log.last_index(),
                    self@.log.run_start(prev as int) == self@.log.run_start(start as int),
                decreases start,
            {
                start -= 1;
            }
            start
        };
        if wanted <= self.commit_index {
            self.commit_index + 1
        } else {
            wanted
        }
    }

    /// How many of the leading entries the log already holds behind `prev`.
    fn held(&self, prev: LogIndex, entries: &Vec<LogEntry>) -> (held: usize)
        requires
            self.wf(),
            self@.log.base <= prev <= self@.log.last_index(),
            prev + entries@.len() < u64::MAX,
        ensures
            held == self@.log.held(prev as int, entry_views(entries@)),
            held <= entries@.len(),
            prev + held <= self@.log.last_index(),
    {
        let ghost views = entry_views(entries@);
        let mut held: usize = 0;
        assert(views.skip(0) =~= views);
        while held < entries.len()
            invariant_except_break
                self@.log.held(prev as int, views) == held + self@.log.held(
                    prev + held,
                    views.skip(held as int),
                ),
            invariant
                self.wf(),
                self@.log.base <= prev,
                prev + entries@.len() < u64::MAX,
                held <= entries@.len(),
                views == entry_views(entries@),
                prev + held <= self@.log.last_index(),
            ensures
                held == self@.log.held(prev as int, views),
            decreases entries@.len() - held,
        {
            assert(views.skip(held as int)[0] == entries@[held as int]@);
            if self.log.term_at(prev + 1 + held as u64) != Some(entries[held].term) {
                break;
            }
            assert(views.skip(held as int).skip(1) =~= views.skip(held + 1));
            held += 1;
        }
        held
    }

    fn merge(&mut self, prev: LogIndex, entries: Vec<LogEntry>)
        requires
            old(self).wf(),
            old(self)@.role is Follower,
            old(self)@.log.base <= prev <= old(self)@.log.last_index(),
            prev + entries@.len() < u64::MAX,
        ensures
            final(self).wf(),
            final(self)@ == old(self)@.merge(prev, entry_views(entries@)),
    {
        let ghost views = entry_views(entries@);
        let held = self.held(prev, &entries);
        if held < entries.len() {
            let mut entries = entries;
            let added = entries.split_off(held);
            assert(entry_views(added@) =~= views.skip(held as int));
            let mut copy = clone_entries(added.as_slice());
            let ghost persisted = self.pending_ready.entries_to_persist@;
            let ghost copied = copy@;
            self.pending_ready.entries_to_persist.append(&mut copy);
            assert(entry_views(self.pending_ready.entries_to_persist@) =~= entry_views(persisted)
                + entry_views(copied));
            self.log.truncate_and_append(prev + 1 + held as u64, added);
            proof {
                self.log.lemma_last_index_bounded();
            }
        }
    }

    fn reply_append(&mut self, to: NodeId, success: bool, match_index: LogIndex)
        ensures
            final(self)@ == old(self)@.reply_append(to, success, match_index),
            final(self).log == old(self).log,
    {
        self.send(
            to,
            Message::AppendEntriesResponse {
                from: self.id,
                msg: AppendEntriesResponse { term: self.current_term, success, match_index },
            },
        );
    }

    fn follow_commit(&mut self, leader_commit: LogIndex, vouched: LogIndex, timeout: u32)
        requires
            old(self).wf(),
            old(self)@.may_draw(timeout),
            vouched < u64::MAX,
        ensures
            final(self).wf(),
            ({
                let target = if leader_commit < vouched {
                    leader_commit
                } else {
                    vouched
                };
                final(self)@ == if target > old(self)@.commit {
                    old(self)@.commit_to(target, timeout)
                } else {
                    old(self)@
                }
            }),
    {
        let target = if leader_commit < vouched {
            leader_commit
        } else {
            vouched
        };
        if target > self.commit_index {
            self.commit_to(target, timeout);
        }
    }

    pub(crate) fn handle_append_entries(&mut self, from: NodeId, msg: AppendEntries, timeout: u32)
        requires
            old(self).wf(),
            old(self)@.may_draw(timeout),
            msg.prev_log_index + msg.entries@.len() < u64::MAX,
        ensures
            final(self).wf(),
            final(self)@ == old(self)@.handle_append_entries(from, msg@, timeout),
    {
        if msg.term < self.current_term {
            self.reply_append(from, false, 0);
            return;
        }
        self.become_follower(msg.term, Some(from), timeout);

        // Consistency check
        if self.log.term_at(msg.prev_log_index) != Some(msg.prev_log_term) {
            let hint = self.conflict_hint(msg.prev_log_index);
            self.reply_append(from, false, hint);
            return;
        }
        let replicated = msg.prev_log_index + msg.entries.len() as u64;
        let bare = msg.entries.len() == 0;
        self.merge(msg.prev_log_index, msg.entries);
        let vouched = if bare {
            self.log.last_index()
        } else {
            replicated
        };
        self.follow_commit(msg.leader_commit, vouched, timeout);
        self.reply_append(from, true, replicated);
    }

    fn reply_install(&mut self, to: NodeId, success: bool, last_index: LogIndex)
        ensures
            final(self)@ == old(self)@.reply_install(to, success, last_index),
            final(self).log == old(self).log,
    {
        self.send(
            to,
            Message::InstallSnapshotResponse {
                from: self.id,
                msg: InstallSnapshotResponse { term: self.current_term, success, last_index },
            },
        );
    }

    pub(crate) fn handle_install_snapshot(
        &mut self,
        from: NodeId,
        msg: InstallSnapshot,
        timeout: u32,
    )
        requires
            old(self).wf(),
            old(self)@.may_draw(timeout),
            msg.snapshot.last_index < u64::MAX,
            msg.term >= old(self)@.term && msg.snapshot.last_index > old(self)@.commit
                ==> msg.snapshot.last_index >= old(self)@.log.base,
        ensures
            final(self).wf(),
            final(self)@ == old(self)@.handle_install_snapshot(from, msg@, timeout),
    {
        if msg.term < self.current_term {
            self.reply_install(from, false, 0);
            return;
        }
        self.become_follower(msg.term, Some(from), timeout);
        let last_index = msg.snapshot.last_index;
        // Only a snapshot that is newer than what we have replaces anything.
        if last_index > self.commit_index {
            self.log.compact(last_index, msg.snapshot.last_term);
            self.commit_index = last_index;
            self.last_applied = last_index;
            self.emit_hard_state();
            self.pending_ready.snapshot_to_apply = Some(msg.snapshot);
        }
        self.reply_install(from, true, last_index);
    }

    // ── Responses to the leader ───────────────────────────────────────────

    fn credit(&mut self, from: NodeId, index: LogIndex)
        requires
            old(self).wf(),
            old(self)@.role is Leader,
            index < u64::MAX,
        ensures
            final(self).wf(),
            final(self)@ == old(self)@.credit(from, index),
    {
        if let Role::Leader { next_index, match_index } = &mut self.role {
            match_index.insert(from, index);
            next_index.insert(from, index + 1);
        }
    }

    fn back_off(&mut self, from: NodeId, hint: LogIndex)
        requires
            old(self).wf(),
            old(self)@.role is Leader,
        ensures
            final(self).wf(),
            final(self)@ == old(self)@.back_off(from, hint),
    {
        if let Role::Leader { next_index, .. } = &mut self.role {
            let current = match next_index.get(&from) {
                Some(next) => *next,
                None => 1,
            };
            let lower = if hint < current {
                hint
            } else {
                current
            };
            next_index.insert(
                from,
                if lower < 1 {
                    1
                } else {
                    lower
                },
            );
        }
    }

    pub(crate) fn handle_append_entries_response(
        &mut self,
        from: NodeId,
        msg: AppendEntriesResponse,
        timeout: u32,
    )
        requires
            old(self).wf(),
            old(self)@.may_draw(timeout),
            old(self)@.role is Leader && msg.term == old(self)@.term && msg.success
                ==> msg.match_index < u64::MAX,
        ensures
            final(self).wf(),
            final(self)@ == old(self)@.handle_append_entries_response(from, msg, timeout),
    {
        if msg.term > self.current_term {
            self.become_follower(msg.term, None, timeout);
            return;
        }
        if msg.term < self.current_term || !self.is_leader() {
            return;
        }
        if msg.success {
            self.credit(from, msg.match_index);
            self.advance_commit_index(timeout);
        } else {
            self.back_off(from, msg.match_index);
        }
    }

    pub(crate) fn handle_install_snapshot_response(
        &mut self,
        from: NodeId,
        msg: InstallSnapshotResponse,
        timeout: u32,
    )
        requires
            old(self).wf(),
            old(self)@.may_draw(timeout),
            old(self)@.role is Leader && msg.term == old(self)@.term && msg.success
                ==> msg.last_index < u64::MAX,
        ensures
            final(self).wf(),
            final(self)@ == old(self)@.handle_install_snapshot_response(from, msg, timeout),
    {
        if msg.term > self.current_term {
            self.become_follower(msg.term, None, timeout);
            return;
        }
        if msg.term < self.current_term || !msg.success || !self.is_leader() {
            return;
        }
        let installed = if msg.last_index == 0 {
            self.log.snapshot_index()
        } else {
            msg.last_index
        };
        self.credit(from, installed);
        self.advance_commit_index(timeout);
    }

    // ── Commit ────────────────────────────────────────────────────────────

    /// The positions that the voting members are known to hold, the leader's own included. Peers
    /// that are replicated to before their addition is applied do not count.
    fn held_positions(&self) -> (positions: Vec<LogIndex>)
        requires
            self.wf(),
            self@.role is Leader,
        ensures
            forall|index: int| #[trigger] reaching(positions@, index) == self@.acks(index),
    {
        let mut positions: Vec<LogIndex> = Vec::new();
        if let Role::Leader { match_index, .. } = &self.role {
            let peers = keys_of(match_index);
            let ghost matched = match_index@;
            let ghost members = self.membership@;
            let mut i: usize = 0;
            proof {
                assert forall|index: int| #[trigger] reaching(positions@, index) == peers@.take(
                    0,
                ).to_set().filter(|p: NodeId| members.contains(p) && matched[p] >= index).len() by {
                    assert(peers@.take(0).to_set().filter(
                        |p: NodeId| members.contains(p) && matched[p] >= index,
                    ) =~= Set::empty());
                }
            }
            while i < peers.len()
                invariant
                    i <= peers@.len(),
                    members == self.membership@,
                    matched == match_index@,
                    enumerates(peers@, matched.dom()),
                    forall|index: int| #[trigger]
                        reaching(positions@, index) == peers@.take(i as int).to_set().filter(
                            |p: NodeId| members.contains(p) && matched[p] >= index,
                        ).len(),
                decreases peers@.len() - i,
            {
                let peer = peers[i];
                assert(peers@.to_set().contains(peer));
                let ghost before = positions@;
                let ghost seen = peers@.take(i as int).to_set();
                assert(!seen.contains(peer)) by {
                    if seen.contains(peer) {
                        let j = choose|j: int|
                            0 <= j < peers@.take(i as int).len() && peers@.take(i as int)[j] == peer;
                        assert(peers@[j] == peers@[i as int]);
                    }
                }
                assert(peers@.take(i + 1).to_set() =~= seen.insert(peer)) by {
                    assert(peers@.take(i + 1) =~= peers@.take(i as int).push(peer));
                    peers@.take(i as int).lemma_push_to_set_commute(peer);
                }
                if self.membership.contains(&peer) {
                    if let Some(position) = match_index.get(&peer) {
                        positions.push(*position);
                    }
                }
                proof {
                    assert forall|index: int| #[trigger] reaching(positions@, index) == peers@.take(
                        i + 1,
                    ).to_set().filter(
                        |p: NodeId| members.contains(p) && matched[p] >= index,
                    ).len() by {
                        let holds = |p: NodeId| members.contains(p) && matched[p] >= index;
                        assert(seen.finite());
                        if members.contains(peer) {
                            lemma_reaching_push(before, matched[peer], index);
                        }
                        assert(reaching(before, index) == seen.filter(holds).len());
                        if holds(peer) {
                            assert(seen.insert(peer).filter(holds) =~= seen.filter(holds).insert(
                                peer,
                            ));
                        } else {
                            assert(seen.insert(peer).filter(holds) =~= seen.filter(holds));
                        }
                    }
                }
                i += 1;
            }
            assert(peers@.take(i as int) =~= peers@);
            let ghost before = positions@;
            let last = self.log.last_index();
            positions.push(last);
            proof {
                assert forall|index: int| #[trigger]
                    reaching(positions@, index) == self@.acks(index) by {
                    lemma_reaching_push(before, last, index);
                    assert(reaching(before, index) == holders(matched, members, index).len());
                }
            }
        }
        positions
    }

    /// The highest position that a majority holds.
    fn quorum_index(&self) -> (index: LogIndex)
        requires
            self.wf(),
            self@.role is Leader,
        ensures
            index == self@.quorum_index(),
            self@.is_quorum_index(index),
    {
        let quorum = self.membership.len() / 2 + 1;
        let positions = self.held_positions();
        let mut best: LogIndex = 0;
        let mut i: usize = 0;
        proof {
            lemma_start_is_held(self@);
            assert(reaching(positions@, 0) == self@.acks(0));
        }
        while i < positions.len()
            invariant
                i <= positions@.len(),
                quorum == self@.quorum(),
                reaching(positions@, best as int) >= quorum,
                forall|j: int|
                    0 <= j < i && positions@[j] > best ==> reaching(
                        positions@,
                        positions@[j] as int,
                    ) < quorum,
            decreases positions@.len() - i,
        {
            if positions[i] > best && count_reaching(&positions, positions[i]) >= quorum {
                best = positions[i];
            }
            i += 1;
        }
        proof {
            assert(self@.acks(best as int) == reaching(positions@, best as int));
            assert forall|higher: int| higher > best implies #[trigger] self@.acks(higher)
                < self@.quorum() by {
                assert(self@.acks(higher) == reaching(positions@, higher));
                if reaching(positions@, higher) >= quorum {
                    let least = lemma_reaching_step(positions@, higher);
                    let j = choose|j: int| 0 <= j < positions@.len() && positions@[j] == least;
                    assert(positions@[j] > best);
                }
            }
            lemma_quorum_index_unique(self@, best);
        }
        best
    }

    pub(crate) fn advance_commit_index(&mut self, timeout: u32)
        requires
            old(self).wf(),
            old(self)@.may_draw(timeout),
        ensures
            final(self).wf(),
            final(self)@ == old(self)@.advance_commit(timeout),
    {
        if !self.is_leader() {
            return;
        }
        let index = self.quorum_index();
        if index > self.commit_index && self.log.term_at(index) == Some(self.current_term) {
            self.commit_to(index, timeout);
        }
    }

    pub(crate) fn commit_to(&mut self, index: LogIndex, timeout: u32)
        requires
            old(self).wf(),
            old(self)@.may_draw(timeout),
            index < u64::MAX,
        ensures
            final(self).wf(),
            final(self)@ == old(self)@.commit_to(index, timeout),
    {
        self.commit_index = index;
        self.emit_hard_state();
        self.apply_committed(timeout);
    }

    pub(crate) fn apply_committed(&mut self, timeout: u32)
        requires
            old(self).wf(),
            old(self)@.may_draw(timeout),
        ensures
            final(self).wf(),
            final(self)@ == old(self)@.apply_committed(timeout),
    {
        while self.last_applied < self.commit_index
            invariant
                self.wf(),
                self@.may_draw(timeout),
                self@.apply_committed(timeout) == old(self)@.apply_committed(timeout),
            decreases self.commit_index - self.last_applied,
        {
            self.apply_next(timeout);
        }
    }

    fn apply_next(&mut self, timeout: u32)
        requires
            old(self).wf(),
            old(self)@.may_draw(timeout),
            old(self)@.applied < old(self)@.commit,
        ensures
            final(self).wf(),
            final(self)@ == old(self)@.apply_next(timeout),
            final(self)@.may_draw(timeout),
            final(self)@.commit == old(self)@.commit,
            final(self)@.applied == old(self)@.applied + 1,
    {
        self.last_applied += 1;
        if self.last_applied <= self.log.last_index() {
            let entry = {
                let entries = self.log.entries_from(self.last_applied);
                assert(entry_views(entries@).len() == entries@.len());
                assert(entry_views(entries@)[0] == self@.log.at(self@.applied as int));
                entries[0].clone()
            };
            if let EntryType::ConfChange = entry.entry_type {
                if entry.command.len() > 0 {
                    self.apply_conf_change_entry(entry.command.as_slice(), timeout);
                }
            }
            self.pending_ready.push_apply(entry);
        }
    }
}

} // verus!
