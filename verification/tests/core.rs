//! The log, membership changes, elections, replication and the wire, beyond single scenarios.
use raft_kv::config::Config;
use raft_kv::log::RaftLog;
use raft_kv::message::{
    AppendEntries, AppendEntriesResponse, ConfChangeCmd, ConfChangeOp, EntryType, HardState,
    InstallSnapshot, InstallSnapshotResponse, LogEntry, Message, RequestVote, RequestVoteResponse,
    Snapshot,
};
use raft_kv::node::{RaftNode, Ready, Restore, Role};
use raft_kv::text::{is_before, parse_number, starts_with, to_decimal};
use raft_kv::wire::{Rpc, RpcReply};

fn entry(index: u64, term: u64) -> LogEntry {
    LogEntry {
        index,
        term,
        entry_type: EntryType::Normal,
        command: format!("e{index}").into_bytes(),
    }
}

fn node(id: u64, peers: Vec<u64>) -> RaftNode {
    RaftNode::new(Config::new(id, peers))
}

fn append(from: u64, term: u64, prev: (u64, u64), entries: Vec<LogEntry>, commit: u64) -> Message {
    Message::AppendEntries {
        from,
        msg: AppendEntries {
            term,
            leader_id: from,
            prev_log_index: prev.0,
            prev_log_term: prev.1,
            entries,
            leader_commit: commit,
        },
    }
}

fn vote(from: u64, term: u64) -> Message {
    Message::RequestVoteResponse {
        from,
        msg: RequestVoteResponse {
            term,
            vote_granted: true,
        },
    }
}

fn ack(from: u64, term: u64, match_index: u64) -> Message {
    Message::AppendEntriesResponse {
        from,
        msg: AppendEntriesResponse {
            term,
            success: true,
            match_index,
        },
    }
}

fn candidate(id: u64, peers: Vec<u64>) -> RaftNode {
    let mut n = node(id, peers);
    while !matches!(n.role, Role::Candidate { .. }) {
        n.step(Message::Tick);
    }
    n
}

fn leader(peers: Vec<u64>) -> RaftNode {
    let mut n = candidate(1, peers.clone());
    let term = n.current_term;
    for peer in peers {
        if !n.is_leader() {
            n.step(vote(peer, term));
        }
    }
    assert!(n.is_leader());
    n
}

fn append_reply(ready: &Ready) -> AppendEntriesResponse {
    match &ready.messages[0].1 {
        Message::AppendEntriesResponse { msg, .. } => *msg,
        other => panic!("unexpected {other:?}"),
    }
}

#[test]
fn an_empty_log_starts_at_zero() {
    let log = RaftLog::new();
    assert_eq!((log.last_index(), log.last_term()), (0, 0));
    assert_eq!(log.snapshot_index(), 0);
    assert_eq!(log.term_at(0), Some(0));
    assert_eq!(log.term_at(1), None);
    assert!(log.entries_from(1).is_empty());
}

#[test]
fn a_compacted_log_knows_its_base_and_its_tail() {
    let mut log = RaftLog::default();
    for i in 1..=5 {
        log.append(entry(i, i));
    }
    log.compact(3, 3);
    assert_eq!(log.snapshot_index(), 3);
    assert_eq!(log.last_index(), 5);
    assert_eq!(log.term_at(2), None);
    assert_eq!(log.term_at(3), Some(3));
    assert_eq!(log.term_at(4), Some(4));
    assert_eq!(log.entries_from(4).len(), 2);
    assert_eq!(log.entries_from(3)[0].index, 3, "the sentinel");
    log.truncate_and_append(5, vec![entry(5, 9), entry(6, 9)]);
    assert_eq!(log.last_index(), 6);
    assert_eq!(log.last_term(), 9);
    log.compact(100, 9);
    assert_eq!((log.snapshot_index(), log.last_index()), (100, 100));
    assert_eq!(log.last_term(), 9);
    log.restore(7, 2, vec![entry(8, 3)]);
    assert_eq!((log.last_index(), log.last_term()), (8, 3));
}

#[test]
fn a_membership_change_round_trips_as_json() {
    let cmd = ConfChangeCmd {
        op: ConfChangeOp::Add,
        node_id: 4,
        raft_addr: Some("four:7".to_string()),
        http_addr: None,
    };
    let bytes = cmd.encode();
    assert_eq!(
        bytes,
        b"{\"op\":\"Add\",\"node_id\":4,\"raft_addr\":\"four:7\"}"
    );
    assert_eq!(ConfChangeCmd::decode(&bytes), Some(cmd));
    assert_eq!(
        ConfChangeCmd::decode(b"{\"op\":\"Remove\",\"node_id\":4,\"raft_addr\":null}"),
        Some(ConfChangeCmd {
            op: ConfChangeOp::Remove,
            node_id: 4,
            raft_addr: None,
            http_addr: None
        })
    );
    assert_eq!(
        ConfChangeCmd::decode(b"{\"op\":\"Swap\",\"node_id\":4}"),
        None
    );
    assert_eq!(ConfChangeCmd::decode(b"{\"op\":\"Add\"}"), None);
    assert_eq!(
        ConfChangeCmd::decode(b"{\"op\":\"Add\",\"node_id\":-4}"),
        None
    );
    assert_eq!(ConfChangeCmd::decode(b"junk"), None);
}

#[test]
fn an_election_fires_between_one_and_two_timeouts() {
    for _ in 0..50 {
        let mut n = node(1, vec![2, 3]);
        let mut ticks = 0;
        while n.current_term == 0 {
            n.step(Message::Tick);
            ticks += 1;
        }
        assert!((10..=19).contains(&ticks), "fired after {ticks} ticks");
    }
}

#[test]
fn an_election_timeout_given_is_the_one_that_counts() {
    let mut n = node(1, vec![2, 3]);
    n.step_with(append(2, 1, (0, 0), vec![], 0), 12);
    for _ in 0..11 {
        assert!(n.step_with(Message::Tick, 15).hard_state.is_none());
    }
    let ready = n.step_with(Message::Tick, 15);
    assert_eq!(
        ready.hard_state,
        Some(HardState {
            term: 2,
            voted_for: Some(1),
            commit: 0
        })
    );
    assert_eq!(n.election_timeout, 15);
}

#[test]
fn a_learner_never_starts_an_election() {
    let mut n = RaftNode::new_learner(Config::new(4, vec![1, 2, 3]));
    for _ in 0..100 {
        let ready = n.step(Message::Tick);
        assert!(ready.messages.is_empty());
        assert!(ready.hard_state.is_none());
    }
    assert_eq!(n.current_term, 0);
}

#[test]
fn a_learner_becomes_a_voter_when_its_addition_is_applied() {
    let mut n = RaftNode::new_learner(Config::new(4, vec![1, 2, 3]));
    let add = ConfChangeCmd {
        op: ConfChangeOp::Add,
        node_id: 4,
        raft_addr: None,
        http_addr: None,
    };
    let change = LogEntry {
        index: 1,
        term: 1,
        entry_type: EntryType::ConfChange,
        command: add.encode(),
    };
    let ready = n.step(append(1, 1, (0, 0), vec![change], 1));
    assert!(n.is_voter);
    assert_eq!(ready.membership_change, Some(add));
    assert_eq!(ready.entries_to_apply.len(), 1);
}

#[test]
fn a_vote_needs_a_complete_log() {
    let request = |term, last_log_term, last_log_index| Message::RequestVote {
        from: 2,
        msg: RequestVote {
            term,
            candidate_id: 2,
            last_log_index,
            last_log_term,
        },
    };
    let granted = |last_log_term, last_log_index| {
        let mut n = node(1, vec![2, 3]);
        n.log.append(entry(1, 1));
        n.log.append(entry(2, 3));
        let ready = n.step(request(5, last_log_term, last_log_index));
        match &ready.messages[0].1 {
            Message::RequestVoteResponse { msg, .. } => {
                assert_eq!(msg.term, 5);
                msg.vote_granted
            }
            other => panic!("unexpected {other:?}"),
        }
    };
    assert!(granted(3, 2));
    assert!(granted(4, 1));
    assert!(granted(3, 9));
    assert!(!granted(3, 1));
    assert!(!granted(2, 9));
}

#[test]
fn granting_the_same_vote_again_reports_nothing_new() {
    let mut n = node(1, vec![2, 3]);
    let request = Message::RequestVote {
        from: 2,
        msg: RequestVote {
            term: 1,
            candidate_id: 2,
            last_log_index: 0,
            last_log_term: 0,
        },
    };
    assert!(n.step(request.clone()).hard_state.is_some());
    let again = n.step(request);
    assert!(again.hard_state.is_none(), "nothing durable changed");
    assert!(matches!(
        &again.messages[0].1,
        Message::RequestVoteResponse { msg, .. } if msg.vote_granted
    ));
}

#[test]
fn a_vote_from_an_old_term_does_not_count() {
    let mut n = candidate(1, vec![2, 3]);
    let term = n.current_term;
    n.step(vote(2, term - 1));
    assert!(!n.is_leader());
    n.step(vote(2, term));
    assert!(n.is_leader());
}

#[test]
fn a_leader_commits_when_a_majority_holds_an_entry_of_its_term() {
    let mut n = leader(vec![2, 3, 4, 5]);
    let term = n.current_term;
    assert_eq!(n.log.last_index(), 1);
    n.step(ack(2, term, 1));
    assert_eq!(n.commit_index, 0, "two of five");
    let ready = n.step(ack(3, term, 1));
    assert_eq!(n.commit_index, 1, "three of five");
    assert_eq!(ready.entries_to_apply.len(), 1);
    assert_eq!(ready.hard_state.unwrap().commit, 1);
}

#[test]
fn entries_of_an_earlier_term_are_not_committed_by_counting() {
    let mut n = node(1, vec![2, 3]);
    n.log.append(entry(1, 1));
    n.current_term = 1;
    while !matches!(n.role, Role::Candidate { .. }) {
        n.step(Message::Tick);
    }
    let term = n.current_term;
    n.step(vote(2, term));
    assert_eq!(n.log.last_index(), 2);
    n.step(ack(2, term, 1));
    assert_eq!(n.commit_index, 0, "entry 1 is of an earlier term");
    n.step(ack(2, term, 2));
    assert_eq!(n.commit_index, 2, "the no-op commits both");
    assert_eq!(n.last_applied, 2);
}

#[test]
fn a_stale_acknowledgement_is_ignored() {
    let mut n = leader(vec![2, 3]);
    n.step(ack(2, n.current_term - 1, 1));
    assert_eq!(n.commit_index, 0);
}

#[test]
fn a_follower_acknowledges_exactly_what_the_message_covers() {
    let mut n = node(2, vec![1, 3]);
    for i in 1..=5 {
        n.log.append(entry(i, 1));
    }
    let ready = n.step(append(1, 1, (1, 1), vec![entry(2, 1)], 0));
    let reply = append_reply(&ready);
    assert!(reply.success);
    assert_eq!(reply.match_index, 2, "not the unverified tail behind it");
    assert_eq!(n.log.last_index(), 5);
    assert!(ready.entries_to_persist.is_empty());
}

#[test]
fn delivering_the_same_entries_twice_changes_nothing() {
    let mut n = node(2, vec![1, 3]);
    let message = append(1, 1, (0, 0), vec![entry(1, 1), entry(2, 1)], 1);
    let first = n.step(message.clone());
    assert_eq!(first.entries_to_persist.len(), 2);
    assert_eq!(first.entries_to_apply.len(), 1);
    let second = n.step(message);
    assert!(second.entries_to_persist.is_empty());
    assert!(second.entries_to_apply.is_empty());
    assert!(second.hard_state.is_none());
    assert_eq!(append_reply(&second), append_reply(&first));
}

#[test]
fn only_the_new_suffix_is_persisted() {
    let mut n = node(2, vec![1, 3]);
    n.step(append(1, 1, (0, 0), vec![entry(1, 1), entry(2, 1)], 0));
    let ready = n.step(append(
        1,
        2,
        (0, 0),
        vec![entry(1, 1), entry(2, 2), entry(3, 2)],
        0,
    ));
    let persisted: Vec<(u64, u64)> = ready
        .entries_to_persist
        .iter()
        .map(|e| (e.index, e.term))
        .collect();
    assert_eq!(persisted, vec![(2, 2), (3, 2)]);
    assert_eq!(n.log.term_at(2), Some(2));
}

#[test]
fn entries_are_applied_in_order_and_once() {
    let mut n = node(2, vec![1, 3]);
    let entries: Vec<LogEntry> = (1..=4).map(|i| entry(i, 1)).collect();
    let applied = |ready: &Ready| -> Vec<u64> {
        ready.entries_to_apply.iter().map(|e| e.index).collect()
    };
    let ready = n.step(append(1, 1, (0, 0), entries, 2));
    assert_eq!(applied(&ready), vec![1, 2]);
    let ready = n.step(append(1, 1, (4, 1), vec![], 9));
    assert_eq!(applied(&ready), vec![3, 4], "clamped to the log");
    assert_eq!(n.commit_index, 4);
}

#[test]
fn a_message_of_an_old_term_is_refused() {
    let mut n = node(2, vec![1, 3]);
    n.step(append(1, 5, (0, 0), vec![], 0));
    let ready = n.step(append(3, 4, (0, 0), vec![entry(1, 4)], 0));
    let reply = append_reply(&ready);
    assert_eq!((reply.term, reply.success, reply.match_index), (5, false, 0));
    assert_eq!(n.log.last_index(), 0);
    assert_eq!(n.leader_id(), Some(1));
    let ready = n.step(Message::InstallSnapshot {
        from: 3,
        msg: InstallSnapshot {
            term: 4,
            leader_id: 3,
            snapshot: Snapshot {
                last_index: 9,
                last_term: 4,
                data: vec![],
            },
        },
    });
    assert!(ready.snapshot_to_apply.is_none());
    assert!(matches!(
        &ready.messages[0].1,
        Message::InstallSnapshotResponse { msg, .. } if !msg.success
    ));
}

#[test]
fn a_snapshot_that_is_already_covered_is_acknowledged_and_left_alone() {
    let mut n = node(2, vec![1, 3]);
    n.step(append(
        1,
        1,
        (0, 0),
        (1..=5).map(|i| entry(i, 1)).collect(),
        5,
    ));
    let ready = n.step(Message::InstallSnapshot {
        from: 1,
        msg: InstallSnapshot {
            term: 1,
            leader_id: 1,
            snapshot: Snapshot {
                last_index: 3,
                last_term: 1,
                data: vec![],
            },
        },
    });
    assert!(ready.snapshot_to_apply.is_none());
    assert_eq!(n.log.snapshot_index(), 0);
    assert!(matches!(
        &ready.messages[0].1,
        Message::InstallSnapshotResponse { msg, .. } if msg.success && msg.last_index == 3
    ));
}

#[test]
fn a_peer_behind_the_compacted_log_is_listed_for_a_snapshot() {
    let mut n = leader(vec![2, 3]);
    let term = n.current_term;
    n.step(ack(2, term, 1));
    n.log.compact(1, term);
    if let Role::Leader { next_index, .. } = &mut n.role {
        next_index.insert(3, 1);
        next_index.insert(2, 2);
    }
    let ready = n.step(Message::Propose { command: vec![1] });
    assert_eq!(ready.snapshot_to_send, vec![3]);
    assert_eq!(ready.messages.len(), 1);
    assert_eq!(ready.messages[0].0, 2);
}

#[test]
fn an_append_carries_no_more_entries_than_configured() {
    let mut n = leader(vec![2, 3]);
    let term = n.current_term;
    n.config.max_entries_per_append = 2;
    for i in 2..=6 {
        n.log.append(entry(i, term));
    }
    for _ in 0..3 {
        for (_, message) in n.step(Message::Tick).messages {
            match message {
                Message::AppendEntries { msg, .. } => {
                    assert_eq!(msg.prev_log_index, 0);
                    assert_eq!(msg.entries.len(), 2);
                }
                other => panic!("unexpected {other:?}"),
            }
        }
    }
}

#[test]
fn a_leader_sends_heartbeats_on_time() {
    let mut n = leader(vec![2, 3]);
    let mut sent = vec![];
    for _ in 0..6 {
        sent.push(n.step(Message::Tick).messages.len());
    }
    assert_eq!(sent, vec![0, 0, 2, 0, 0, 2]);
}

fn conf_change(op: ConfChangeOp, node_id: u64) -> Message {
    Message::ProposeConfChange {
        op,
        node_id,
        raft_addr: None,
        http_addr: None,
    }
}

#[test]
fn one_membership_change_at_a_time() {
    let mut n = leader(vec![2, 3]);
    let term = n.current_term;
    let ready = n.step(conf_change(ConfChangeOp::Add, 4));
    assert_eq!(ready.entries_to_persist.len(), 1);
    assert_eq!(ready.messages.len(), 3, "the new node is replicated to at once");
    assert!(n.pending_conf_change);
    assert!(!n.membership.contains(&4), "but it does not count yet");
    let ready = n.step(conf_change(ConfChangeOp::Remove, 2));
    assert!(ready.entries_to_persist.is_empty(), "a change is in flight");

    let ready = n.step(ack(2, term, 2));
    assert_eq!(n.commit_index, 2);
    assert!(n.membership.contains(&4));
    assert!(!n.pending_conf_change);
    assert_eq!(ready.membership_change.unwrap().node_id, 4);
    let ready = n.step(conf_change(ConfChangeOp::Remove, 2));
    assert_eq!(ready.entries_to_persist.len(), 1);
}

#[test]
fn a_node_that_is_not_yet_a_member_does_not_count_towards_a_majority() {
    let mut n = leader(vec![2, 3]);
    let term = n.current_term;
    n.step(conf_change(ConfChangeOp::Add, 4));
    n.step(ack(4, term, 2));
    assert_eq!(n.commit_index, 0);
}

#[test]
fn a_removed_leader_steps_down() {
    let mut n = leader(vec![2, 3]);
    let term = n.current_term;
    n.step(conf_change(ConfChangeOp::Remove, 1));
    n.step(ack(2, term, 2));
    n.step(ack(3, term, 2));
    assert!(!n.is_leader());
    assert!(!n.is_voter);
    assert!(!n.membership.contains(&1));
    assert_eq!(n.leader_id(), None);
}

#[test]
fn a_follower_drops_proposals() {
    let mut n = node(1, vec![2, 3]);
    let ready = n.step(Message::Propose { command: vec![1] });
    assert!(ready.entries_to_persist.is_empty());
    assert_eq!(n.log.last_index(), 0);
    let ready = n.step(conf_change(ConfChangeOp::Add, 4));
    assert!(ready.entries_to_persist.is_empty());
}

#[test]
fn messages_beyond_the_number_range_are_not_accepted() {
    let mut n = node(1, vec![2, 3]);
    assert!(n.accepts(&Message::Tick));
    assert!(n.accepts(&append(2, u64::MAX, (0, 0), vec![entry(1, 1)], 0)));
    assert!(!n.accepts(&append(2, 1, (u64::MAX - 1, 0), vec![entry(1, 1)], 0)));
    n.restore(Restore {
        term: u64::MAX,
        ..Default::default()
    });
    while n.accepts(&Message::Tick) {
        n.step(Message::Tick);
    }
    assert_eq!(n.election_ticks + 1, n.election_timeout);
    let n = leader(vec![2, 3]);
    assert!(!n.accepts(&ack(2, n.current_term, u64::MAX)));
    assert!(n.accepts(&ack(2, n.current_term, 1)));
    assert!(n.accepts(&ack(2, n.current_term - 1, u64::MAX)));
    assert!(!n.accepts(&Message::InstallSnapshotResponse {
        from: 2,
        msg: InstallSnapshotResponse {
            term: n.current_term,
            success: true,
            last_index: u64::MAX
        }
    }));
}

#[test]
fn a_peer_that_is_ahead_of_its_leader_cannot_be_contacted() {
    let mut n = leader(vec![2, 3]);
    assert_eq!(n.log.last_index(), 1);
    let term = n.current_term;
    let proposal = Message::Propose { command: vec![1] };
    n.step(ack(2, term, 2));
    assert_eq!(n.commit_index, 1, "nothing is committed that the log does not hold");
    assert!(n.accepts(&proposal), "the entry brings the log to where the peer stands");
    n.step(ack(2, term, 3));
    assert!(!n.accepts(&proposal));
    assert!(!n.accepts(&conf_change(ConfChangeOp::Add, 4)));
    while n.accepts(&Message::Tick) {
        n.step(Message::Tick);
    }
    assert_eq!(n.heartbeat_ticks + 1, n.config.heartbeat_timeout);
    // A later answer puts it right.
    n.step(ack(2, term, 1));
    assert!(n.accepts(&proposal) && n.accepts(&Message::Tick));
}

#[test]
fn requests_cross_the_wire_unchanged() {
    let mut conf = entry(3, 2);
    conf.entry_type = EntryType::ConfChange;
    let messages = [
        append(1, 2, (2, 1), vec![conf, entry(4, 2)], 2),
        Message::RequestVote {
            from: 1,
            msg: RequestVote {
                term: 2,
                candidate_id: 1,
                last_log_index: 4,
                last_log_term: 2,
            },
        },
        Message::InstallSnapshot {
            from: 1,
            msg: InstallSnapshot {
                term: 2,
                leader_id: 1,
                snapshot: Snapshot {
                    last_index: 4,
                    last_term: 2,
                    data: vec![1, 2, 3],
                },
            },
        },
    ];
    for message in messages {
        let rpc = Rpc::from_message(message.clone()).expect("a request");
        assert_eq!(rpc.into_message(), message);
    }
    assert!(Rpc::from_message(Message::Tick).is_none());
    assert!(Rpc::from_message(vote(1, 1)).is_none());
}

#[test]
fn replies_carry_the_peer_that_sent_them() {
    let reply = RpcReply::from_message(&ack(2, 3, 4)).unwrap();
    assert_eq!(reply.into_message(9), ack(9, 3, 4));
    let reply = RpcReply::from_message(&vote(2, 3)).unwrap();
    assert_eq!(reply.into_message(2), vote(2, 3));
    let installed = Message::InstallSnapshotResponse {
        from: 2,
        msg: InstallSnapshotResponse {
            term: 1,
            success: true,
            last_index: 8,
        },
    };
    let reply = RpcReply::from_message(&installed).unwrap();
    assert_eq!(reply.into_message(2), installed);
    assert!(RpcReply::from_message(&Message::Tick).is_none());
}

#[test]
fn decimal_numbers_read_and_write_like_the_standard_library() {
    for n in [0u64, 7, 10, 99, 100, 12_345_678_901, u64::MAX] {
        assert_eq!(to_decimal(n), n.to_string());
    }
    for text in ["0", "42", "+42", "007", "18446744073709551615", "18446744073709551616", "", "+", "-1", "4 2", "x"] {
        assert_eq!(parse_number(text), text.parse::<u64>().ok(), "{text}");
    }
}

#[test]
fn texts_compare_like_the_standard_library() {
    let texts = ["", "a", "ab", "b", "\u{e9}", "\u{ffff}", "\u{10000}", "a\u{10000}"];
    for a in texts {
        for b in texts {
            assert_eq!(is_before(a, b), a < b, "{a:?} {b:?}");
            assert_eq!(starts_with(a, b), a.starts_with(b), "{a:?} {b:?}");
        }
    }
}

#[test]
fn a_learner_gives_its_vote_to_nobody() {
    let mut n = RaftNode::new_learner(Config::new(3, vec![1, 2]));
    let request = Message::RequestVote {
        from: 1,
        msg: RequestVote {
            term: 4,
            candidate_id: 1,
            last_log_index: 9,
            last_log_term: 3,
        },
    };
    let ready = n.step(request);
    assert_eq!(n.current_term, 4, "the term is adopted all the same");
    assert_eq!(n.voted_for, None);
    assert!(matches!(
        &ready.messages[0].1,
        Message::RequestVoteResponse { msg, .. } if msg.term == 4 && !msg.vote_granted
    ));
}

#[test]
fn a_follower_commits_only_what_a_message_vouches_for() {
    let mut n = node(1, vec![2, 3]);
    n.step(append(2, 1, (0, 0), vec![entry(1, 1), entry(2, 1), entry(3, 1)], 0));
    // A new leader has confirmed the first entry only: the rest of the log may yet be replaced.
    n.step(append(3, 2, (0, 0), vec![entry(1, 1)], 3));
    assert_eq!(n.commit_index, 1);
    // A late message with an earlier commit index takes nothing back.
    let ready = n.step(append(3, 2, (0, 0), vec![entry(1, 1)], 0));
    assert_eq!(n.commit_index, 1);
    assert!(ready.hard_state.is_none());
    // A heartbeat vouches for the log as it is.
    n.step(append(3, 2, (3, 1), vec![], 2));
    assert_eq!(n.commit_index, 2);
}
