//! Whole clusters in memory: the network loses, reorders and repeats messages, and nodes crash.
use std::collections::BTreeMap;

use raft_kv::config::Config;
use raft_kv::events::Event;
use raft_kv::handle::{NodeHandle, NodeHandleConfig, PeerSnapshot, SNAPSHOTS_KEPT};
use raft_kv::kv::{Command, KvStore};
use raft_kv::message::{ConfChangeOp, LogEntry, Message, NodeId};
use raft_kv::node::{Ready, Role};
use raft_kv::replay::WalReplay;
use raft_kv::snapshot::{SnapshotFile, SnapshotStore};
use raft_kv::wal::{marker, Wal, WalRecord};

struct Peer {
    handle: NodeHandle,
    log: Vec<u8>,
    snapshots: Vec<SnapshotFile>,
    events: Vec<Event>,
    /// Writes that somebody waits for, by their index.
    waiting: BTreeMap<u64, Vec<u8>>,
    /// Writes that were acknowledged.
    acknowledged: Vec<(u64, Vec<u8>)>,
}

/// A node that is not among the voters starts as a learner.
fn start(id: NodeId, voters: &[NodeId], replay: WalReplay, threshold: u64) -> NodeHandle {
    let peers = voters.iter().copied().filter(|m| *m != id).collect();
    let config = NodeHandleConfig {
        raft: Config::new(id, peers),
        replay,
        kv: KvStore::default(),
        snapshots: SnapshotStore::new("data".to_string()),
        compaction_threshold: threshold,
    };
    if voters.contains(&id) {
        NodeHandle::new(config)
    } else {
        NodeHandle::new_learner(config)
    }
}

impl Peer {
    fn append(&mut self, records: &[WalRecord]) {
        let bytes = Wal::open(&self.log).unwrap().wal.append_batch(records);
        self.log.extend(bytes);
    }

    fn rewrite(&mut self, records: &[WalRecord]) {
        let mut wal = Wal::open(&self.log).unwrap().wal;
        self.log = wal.rewrite(records);
    }

    fn compact(&mut self, index: u64) {
        let Some(snapshot) = self.handle.try_compact(index) else {
            return;
        };
        self.snapshots.push(self.handle.snapshots.save(&snapshot));
        let records = self.handle.rotate(&snapshot);
        self.rewrite(&records);
        let names: Vec<String> = self.snapshots.iter().map(|f| f.path.clone()).collect();
        let doomed = self.handle.snapshots.prune(&names, SNAPSHOTS_KEPT);
        self.snapshots.retain(|f| !doomed.contains(&f.path));
        self.handle.finish_compaction(snapshot);
    }

    /// What a restart would find.
    fn replay(&self) -> WalReplay {
        let mut replay = WalReplay::default();
        for record in Wal::open(&self.log).unwrap().records {
            replay.push(record);
        }
        if let Some(snapshot) = self.handle.snapshots.load_latest(&self.snapshots) {
            replay.adopt(snapshot);
        }
        replay
    }

    /// Hands a message to the node and carries out what it asks for. Returns what to send.
    fn step(&mut self, message: Message) -> Vec<(NodeId, Message)> {
        assert!(self.handle.node.accepts(&message));
        let ready = self.handle.step(message);
        self.take_in(ready)
    }

    /// Asks the node for a write, if it leads.
    fn propose(&mut self, command: Vec<u8>) -> Vec<(NodeId, Message)> {
        match self.handle.propose(command.clone()) {
            Some((index, ready)) => {
                self.waiting.insert(index, command);
                self.take_in(ready)
            }
            None => vec![],
        }
    }

    fn take_in(&mut self, ready: Ready) -> Vec<(NodeId, Message)> {
        let left = self.handle.persist(&ready);
        self.append(&left.records);
        self.events.extend(left.events);
        for index in left.committed {
            let command = self.waiting.remove(&index).unwrap();
            self.acknowledged.push((index, command));
        }
        for index in left.dropped {
            self.waiting.remove(&index).unwrap();
        }
        if self.handle.drain_if_lost_leadership(&ready) {
            self.waiting.clear();
        }
        if let Some(index) = left.compact {
            self.compact(index);
        }
        if let Some(snapshot) = left.snapshot {
            let installed = self.handle.apply_snapshot(snapshot.clone()).unwrap();
            self.snapshots.push(self.handle.snapshots.save(&snapshot));
            self.rewrite(&installed.records);
            self.events.push(installed.event);
        }
        let mut messages = ready.messages;
        for peer in ready.snapshot_to_send {
            if let PeerSnapshot::Take(index) = self.handle.snapshot_for_peers() {
                self.compact(index);
            }
            let snapshot = self.handle.last_snapshot.clone().unwrap();
            messages.push((peer, self.handle.install_message(snapshot).unwrap()));
        }
        messages
    }
}

struct Cluster {
    members: Vec<NodeId>,
    /// The voters that the cluster started with.
    voters: Vec<NodeId>,
    threshold: u64,
    peers: BTreeMap<NodeId, Peer>,
    network: Vec<(NodeId, Message)>,
    /// Nodes that nothing reaches.
    down: Vec<NodeId>,
    /// Who was seen leading in which term.
    leaders: BTreeMap<u64, NodeId>,
    seed: u64,
}

impl Cluster {
    fn new(members: &[NodeId], threshold: u64, seed: u64) -> Cluster {
        Cluster::with_learners(members, members, threshold, seed)
    }

    fn with_learners(
        members: &[NodeId],
        voters: &[NodeId],
        threshold: u64,
        seed: u64,
    ) -> Cluster {
        let mut peers = BTreeMap::new();
        for id in members {
            peers.insert(
                *id,
                Peer {
                    handle: start(*id, voters, WalReplay::default(), threshold),
                    log: marker(),
                    snapshots: vec![],
                    events: vec![],
                    waiting: BTreeMap::new(),
                    acknowledged: vec![],
                },
            );
        }
        Cluster {
            members: members.to_vec(),
            voters: voters.to_vec(),
            threshold,
            peers,
            network: vec![],
            down: vec![],
            leaders: BTreeMap::new(),
            seed,
        }
    }

    fn random(&mut self, below: usize) -> usize {
        self.seed = self.seed.wrapping_mul(6364136223846793005).wrapping_add(1442695040888963407);
        ((self.seed >> 33) as usize) % below
    }

    fn node(&self, id: NodeId) -> &NodeHandle {
        &self.peers[&id].handle
    }

    fn step(&mut self, id: NodeId, message: Message) {
        let sent = self.peers.get_mut(&id).unwrap().step(message);
        self.network.extend(sent);
        let node = &self.node(id).node;
        if node.is_leader() {
            let term = node.current_term;
            let known = *self.leaders.entry(term).or_insert(id);
            assert_eq!(known, id, "term {term} has two leaders");
        }
    }

    /// Delivers what is in the network in some order; some of it twice, some of it never.
    fn deliver(&mut self, lossy: bool) {
        while !self.network.is_empty() {
            let pick = self.random(self.network.len());
            let (to, message) = self.network.swap_remove(pick);
            if self.down.contains(&to) || lossy && self.random(8) == 0 {
                continue;
            }
            if lossy && self.random(8) == 0 {
                self.step(to, message.clone());
            }
            self.step(to, message);
        }
    }

    fn tick(&mut self, lossy: bool) {
        for id in self.members.clone() {
            if !self.down.contains(&id) {
                self.step(id, Message::Tick);
            }
        }
        self.deliver(lossy);
    }

    fn leader(&self) -> Option<NodeId> {
        let leading = |id: &&NodeId| !self.down.contains(id) && self.node(**id).is_leader();
        self.members
            .iter()
            .filter(leading)
            .max_by_key(|id| self.node(**id).node.current_term)
            .copied()
    }

    /// Runs the clocks until somebody leads whom everybody follows.
    fn elect(&mut self) -> NodeId {
        for _ in 0..2000 {
            self.tick(false);
            if let Some(leader) = self.leader() {
                let up = self.members.iter().filter(|id| !self.down.contains(id));
                if up.clone().all(|id| self.node(*id).leader_id() == Some(leader)) {
                    return leader;
                }
            }
        }
        panic!("no leader in 2000 ticks");
    }

    fn write(&mut self, leader: NodeId, key: &str, value: &str) {
        let command = Command::Put {
            key: key.to_string(),
            value: value.to_string(),
        };
        let sent = self.peers.get_mut(&leader).unwrap().propose(command.encode());
        self.network.extend(sent);
    }

    fn change(&mut self, leader: NodeId, op: ConfChangeOp, node_id: NodeId) {
        self.step(
            leader,
            Message::ProposeConfChange {
                op,
                node_id,
                raft_addr: None,
                http_addr: None,
            },
        );
    }

    fn crash(&mut self, id: NodeId) {
        let replay = self.peers[&id].replay();
        let handle = start(id, &self.voters, replay, self.threshold);
        let peer = self.peers.get_mut(&id).unwrap();
        peer.handle = handle;
        peer.waiting.clear();
    }

    /// Everything that is committed and still in some log, by index.
    fn check_history(&self) {
        let mut history: BTreeMap<u64, &LogEntry> = BTreeMap::new();
        for id in &self.members {
            let node = &self.node(*id).node;
            let base = node.log.snapshot_index();
            for entry in node.log.entries_from(base + 1) {
                if entry.index <= node.commit_index {
                    let known = *history.entry(entry.index).or_insert(entry);
                    assert_eq!(known, entry, "two entries are committed at one index");
                }
            }
        }
        for peer in self.peers.values() {
            for (index, command) in &peer.acknowledged {
                if let Some(entry) = history.get(index) {
                    assert_eq!(&entry.command, command, "an acknowledged write is lost");
                }
            }
        }
    }

    fn describe(&self) -> String {
        let mut text = String::new();
        for id in &self.members {
            let node = &self.node(*id).node;
            text += &format!(
                "node {id}: term {}, {:?}, base {}, last {}, commit {}\n",
                node.current_term,
                node.role,
                node.log.snapshot_index(),
                node.log.last_index(),
                node.commit_index
            );
        }
        text
    }

    /// What a crash would leave of each node is what the node has.
    fn check_disks(&self) {
        for peer in self.peers.values() {
            let node = &peer.handle.node;
            let replay = peer.replay();
            assert_eq!(replay.term, node.current_term);
            assert_eq!(replay.voted_for, node.voted_for);
            assert_eq!(replay.commit, node.commit_index);
            assert_eq!(replay.snapshot_index(), node.log.snapshot_index());
            let base = node.log.snapshot_index();
            assert_eq!(replay.entries.as_slice(), node.log.entries_from(base + 1));
        }
    }
}

fn pairs(handle: &NodeHandle) -> Vec<(String, String)> {
    handle.kv.scan_prefix("")
}

#[test]
fn writes_reach_every_node_in_the_same_order() {
    let mut cluster = Cluster::new(&[1, 2, 3], 0, 7);
    let leader = cluster.elect();
    for i in 0..20 {
        cluster.write(leader, &format!("k{}", i % 5), &i.to_string());
        cluster.deliver(false);
    }
    for _ in 0..6 {
        cluster.tick(false);
    }
    let expected = cluster.peers[&leader].events.clone();
    assert_eq!(expected.len(), 20);
    assert_eq!(
        expected[7],
        Event::Put {
            key: "k2".to_string(),
            value: "7".to_string()
        }
    );
    for id in [1, 2, 3] {
        assert_eq!(cluster.peers[&id].events, expected);
        assert_eq!(cluster.node(id).kv.get("k4"), Some("19"));
        assert_eq!(pairs(cluster.node(id)).len(), 5);
    }
    cluster.check_history();
    cluster.check_disks();
}

#[test]
fn a_lossy_network_and_crashes_break_no_promise() {
    for seed in 0..20 {
        let mut cluster = Cluster::new(&[1, 2, 3, 4, 5], 9, seed);
        let mut written: u64 = 0;
        for round in 0..120 {
            cluster.tick(true);
            if let Some(leader) = cluster.leader() {
                cluster.write(leader, &format!("k{}", written % 7), &written.to_string());
                written += 1;
            }
            if round % 10 == 9 {
                let id = 1 + cluster.random(5) as u64;
                cluster.crash(id);
            }
            cluster.check_history();
            cluster.check_disks();
        }
        cluster.elect();
        for _ in 0..40 {
            cluster.tick(false);
        }
        let leader = cluster.leader().unwrap();
        let expected = pairs(cluster.node(leader));
        assert!(written > 0);
        assert!(cluster.peers.values().any(|peer| !peer.acknowledged.is_empty()));
        let committed = cluster.node(leader).node.commit_index;
        let mut caught_up = 0;
        for id in [1, 2, 3, 4, 5] {
            assert!(cluster.node(id).node.commit_index <= committed);
            if cluster.node(id).node.commit_index == committed {
                caught_up += 1;
                assert_eq!(pairs(cluster.node(id)), expected, "seed {seed}, node {id}");
            }
        }
        assert!(caught_up >= 3, "{}", cluster.describe());
        cluster.check_history();
        cluster.check_disks();
    }
}

#[test]
fn a_new_leader_has_what_the_old_one_committed() {
    let mut cluster = Cluster::new(&[1, 2, 3], 0, 3);
    let old = cluster.elect();
    cluster.write(old, "a", "1");
    cluster.deliver(false);
    let committed = cluster.node(old).node.commit_index;
    assert_eq!(committed, 2, "the no-op and the write");

    cluster.down = vec![old];
    let new = cluster.elect();
    assert_ne!(new, old);
    assert!(cluster.node(new).node.current_term > cluster.node(old).node.current_term);
    let log = &cluster.node(new).node.log;
    assert!(log.last_index() >= committed);
    assert_eq!(
        log.entries_from(1)[..committed as usize],
        cluster.node(old).node.log.entries_from(1)[..committed as usize]
    );
}

#[test]
fn a_leader_that_is_cut_off_commits_nothing_and_is_overruled() {
    let mut cluster = Cluster::new(&[1, 2, 3], 0, 11);
    let old = cluster.elect();
    cluster.write(old, "a", "1");
    cluster.deliver(false);
    let before = cluster.node(old).node.commit_index;

    cluster.down = vec![old];
    let stale = Command::Put {
        key: "a".to_string(),
        value: "stale".to_string(),
    };
    let lost = cluster.peers.get_mut(&old).unwrap().step(Message::Propose {
        command: stale.encode(),
    });
    assert_eq!(lost.len(), 2, "both peers are addressed, nobody hears it");
    let new = cluster.elect();
    cluster.write(new, "a", "2");
    cluster.deliver(false);
    assert_eq!(cluster.node(old).node.commit_index, before);

    cluster.down = vec![];
    cluster.elect();
    for _ in 0..6 {
        cluster.tick(false);
    }
    for id in [1, 2, 3] {
        assert_eq!(cluster.node(id).kv.get("a"), Some("2"));
    }
    cluster.check_history();
}

#[test]
fn the_read_index_of_a_settled_leader_covers_every_commit() {
    let mut cluster = Cluster::new(&[1, 2, 3], 0, 5);
    for round in 0..3 {
        let leader = cluster.elect();
        cluster.write(leader, "round", &round.to_string());
        cluster.deliver(false);
        let node = &cluster.node(leader).node;
        assert_eq!(
            node.log.term_at(node.commit_index),
            Some(node.current_term),
            "the leader has committed in its own term"
        );
        let index = cluster.node(leader).read_index_if_leader().unwrap();
        for id in [1, 2, 3] {
            assert!(cluster.node(id).node.commit_index <= index);
        }
        assert!(cluster.node(leader).has_applied(index));
        assert_eq!(
            cluster.node(leader).kv.get("round"),
            Some(round.to_string().as_str())
        );
        // Have somebody else lead the next round.
        cluster.down = vec![leader];
        cluster.elect();
        cluster.down = vec![];
    }
}

#[test]
fn a_node_that_missed_a_compaction_is_brought_back_by_a_snapshot() {
    let mut cluster = Cluster::new(&[1, 2, 3], 5, 13);
    let leader = cluster.elect();
    let behind = if leader == 1 { 2 } else { 1 };
    cluster.down = vec![behind];
    for i in 0..12 {
        cluster.write(leader, &format!("k{i:02}"), &i.to_string());
        cluster.deliver(false);
    }
    let base = cluster.node(leader).node.log.snapshot_index();
    assert!(base > 0, "the log was compacted");
    assert!(cluster.node(behind).node.log.last_index() < base);

    cluster.down = vec![];
    for _ in 0..60 {
        cluster.tick(false);
    }
    assert!(cluster.peers[&behind].events.contains(&Event::SnapshotApplied));
    let leader = cluster.elect();
    for _ in 0..6 {
        cluster.tick(false);
    }
    assert_eq!(pairs(cluster.node(behind)), pairs(cluster.node(leader)));
    assert_eq!(pairs(cluster.node(behind)).len(), 12);
    cluster.check_disks();
}

#[test]
fn a_learner_is_added_and_then_counts_towards_a_majority() {
    let mut cluster = Cluster::with_learners(&[1, 2, 3, 4], &[1, 2, 3], 0, 17);
    for _ in 0..40 {
        cluster.step(4, Message::Tick);
    }
    assert_eq!(cluster.node(4).node.current_term, 0, "a learner does not stand for election");
    let leader = loop {
        cluster.tick(false);
        if let Some(leader) = cluster.leader() {
            break leader;
        }
    };
    cluster.write(leader, "a", "1");
    cluster.deliver(false);
    cluster.change(leader, ConfChangeOp::Add, 4);
    let index = cluster.node(leader).node.log.last_index();
    cluster.deliver(false);
    for _ in 0..12 {
        cluster.tick(false);
    }
    for id in [1, 2, 3, 4] {
        let node = &cluster.node(id).node;
        assert!(node.last_applied >= index);
        assert!(node.membership.contains(&4));
        assert!(node.is_voter);
        assert_eq!(cluster.node(id).kv.get("a"), Some("1"));
    }

    // Three of four have to agree now.
    let others: Vec<NodeId> = [1, 2, 3].into_iter().filter(|id| *id != leader).collect();
    cluster.down = others.clone();
    cluster.write(leader, "a", "2");
    cluster.deliver(false);
    assert_eq!(cluster.node(leader).kv.get("a"), Some("1"), "two of four commit nothing");
    cluster.down = vec![others[0]];
    for _ in 0..6 {
        cluster.tick(false);
    }
    assert_eq!(cluster.node(leader).kv.get("a"), Some("2"));
    cluster.check_history();
}

#[test]
fn a_cluster_that_is_stopped_goes_on_with_other_voters() {
    let mut cluster = Cluster::new(&[1, 2, 3], 0, 23);
    let leader = cluster.elect();
    for i in 0..4 {
        cluster.write(leader, &format!("k{i}"), "before");
        cluster.deliver(false);
    }
    for _ in 0..8 {
        cluster.tick(false);
    }
    // Everything is folded into a snapshot, on every node.
    for peer in cluster.peers.values_mut() {
        let index = peer.handle.applied;
        assert_eq!(index, peer.handle.node.log.last_index());
        peer.compact(index);
        assert_eq!(peer.handle.node.log.snapshot_index(), index);
    }

    // A new node is started from a copy of what the others have.
    let mut later = Cluster::with_learners(&[1, 2, 3, 4, 5], &[1, 2, 3, 4], 0, 29);
    for id in [1, 2, 3, 4, 5] {
        let source = cluster.peers.get(&id).unwrap_or(&cluster.peers[&leader]);
        let peer = later.peers.get_mut(&id).unwrap();
        peer.log = source.log.clone();
        peer.snapshots = source
            .snapshots
            .iter()
            .map(|file| SnapshotFile {
                index: file.index,
                path: file.path.clone(),
                contents: file.contents.clone(),
            })
            .collect();
        peer.handle = start(id, &[1, 2, 3, 4], source.replay(), 0);
        assert_eq!(peer.handle.node.current_term, cluster.node(leader).node.current_term);
        assert_eq!(peer.handle.kv.get("k3"), Some("before"));
    }
    let leader = loop {
        later.tick(false);
        if let Some(leader) = later.leader() {
            break leader;
        }
    };
    later.write(leader, "k4", "after");
    later.change(leader, ConfChangeOp::Add, 5);
    for _ in 0..20 {
        later.tick(false);
    }
    for id in [1, 2, 3, 4, 5] {
        assert_eq!(pairs(later.node(id)).len(), 5);
        assert_eq!(later.node(id).node.membership.len(), 5);
    }
    later.check_history();
    later.check_disks();
}

#[test]
fn a_leader_that_is_removed_steps_down_and_the_rest_go_on() {
    let mut cluster = Cluster::new(&[1, 2, 3], 0, 19);
    let old = cluster.elect();
    cluster.write(old, "a", "1");
    cluster.deliver(false);
    let term = cluster.node(old).node.current_term;
    cluster.change(old, ConfChangeOp::Remove, old);
    cluster.deliver(false);
    let node = &cluster.node(old).node;
    assert!(!node.is_leader() && !node.is_voter);
    assert_eq!(node.current_term, term);
    assert!(!node.membership.contains(&old));

    cluster.down = vec![old];
    let new = cluster.elect();
    assert_ne!(new, old);
    cluster.write(new, "a", "2");
    cluster.deliver(false);
    for _ in 0..6 {
        cluster.tick(false);
    }
    for id in [1, 2, 3] {
        if id != old {
            assert_eq!(cluster.node(id).kv.get("a"), Some("2"));
            assert_eq!(cluster.node(id).node.membership.len(), 2);
        }
    }
    cluster.check_history();
}

#[test]
fn changes_that_concern_one_node_break_no_promise() {
    for seed in 0..16 {
        let voters: &[NodeId] = if seed % 2 == 0 { &[1, 2, 3] } else { &[1, 2, 3, 4] };
        let mut cluster = Cluster::with_learners(&[1, 2, 3, 4], voters, 9, 100 + seed);
        let mut proposed = 0;
        let mut written: u64 = 0;
        for round in 0..160 {
            cluster.tick(true);
            if let Some(leader) = cluster.leader() {
                if round >= 30 && round % 12 == 0 {
                    // Now and then the same change is asked for twice.
                    let op = if cluster.random(2) == 0 {
                        ConfChangeOp::Add
                    } else {
                        ConfChangeOp::Remove
                    };
                    cluster.change(leader, op, 4);
                    proposed += 1;
                } else {
                    cluster.write(leader, &format!("k{}", written % 5), &written.to_string());
                    written += 1;
                }
            }
            if round % 10 == 9 {
                let id = 1 + cluster.random(4) as u64;
                cluster.crash(id);
            }
            cluster.check_history();
            cluster.check_disks();
            for (id, peer) in &cluster.peers {
                let node = &peer.handle.node;
                let known: Vec<NodeId> = (1..5).filter(|m| node.membership.contains(m)).collect();
                assert!(known == [1, 2, 3] || known == [1, 2, 3, 4]);
                if node.is_leader() {
                    assert!(node.is_voter && known.contains(id));
                }
            }
        }
        assert!(proposed > 1 && written > 0, "seed {seed}");
        let known = cluster.peers.values().map(|p| p.handle.node.commit_index).max().unwrap();
        for peer in cluster.peers.values() {
            let node = &peer.handle.node;
            assert!(node.commit_index <= known);
            for other in cluster.peers.values() {
                if other.handle.node.commit_index == node.commit_index {
                    assert_eq!(pairs(&other.handle), pairs(&peer.handle), "seed {seed}");
                }
            }
        }
    }
}

#[test]
fn a_candidate_of_a_split_vote_does_not_lead() {
    let mut cluster = Cluster::new(&[1, 2], 0, 1);
    // Both stand for election in the same term: each has voted for itself.
    for id in [1, 2] {
        let peer = cluster.peers.get_mut(&id).unwrap();
        while peer.handle.node.current_term == 0 {
            let sent = peer.step(Message::Tick);
            cluster.network.extend(sent);
        }
    }
    cluster.deliver(false);
    for id in [1, 2] {
        let node = &cluster.node(id).node;
        assert_eq!(node.current_term, 1);
        assert_eq!(node.voted_for, Some(id));
        assert!(matches!(node.role, Role::Candidate { .. }));
    }
}
