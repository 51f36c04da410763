//! The embedding facade, the HTTP decisions, the command line and the client.
use std::collections::HashMap;

use raft_kv::cli::{parse_peer, NodeConfig};
use raft_kv::client::{kv_url, scan_lines, scan_url, status_url, value_line};
use raft_kv::config::{build_raft_config, Config};
use raft_kv::embedded::{
    is_out_of_space, needs_migration, write_outcome, MigrationStep, RaftKv, RaftKvError,
    RaftKvOptions, StepOutcome, Waited,
};
use raft_kv::handle::{NodeHandle, NodeHandleConfig};
use raft_kv::http::{
    commit_reply, conf_change_reply, kv_delete, kv_get, kv_path, kv_put, kv_scan,
    redirect_to_leader, status, Reply,
};
use raft_kv::kv::{Command, KvStore};
use raft_kv::message::{AppendEntries, Message, RequestVoteResponse, Snapshot};
use raft_kv::node::Role;
use raft_kv::replay::WalReplay;
use raft_kv::snapshot::SnapshotStore;
use raft_kv::wal::{Codec, Wal};

fn handle() -> NodeHandle {
    let mut handle = NodeHandle::new(NodeHandleConfig {
        raft: Config::new(1, vec![2, 3]),
        replay: WalReplay::default(),
        kv: KvStore::default(),
        snapshots: SnapshotStore::new("data".to_string()),
        compaction_threshold: 0,
    });
    handle.register_peers(
        HashMap::new(),
        HashMap::from([(2, "node2:8080".to_string())]),
    );
    handle
}

fn follower_of(leader: u64) -> NodeHandle {
    let mut handle = handle();
    handle.step(Message::AppendEntries {
        from: leader,
        msg: AppendEntries {
            term: 1,
            leader_id: leader,
            prev_log_index: 0,
            prev_log_term: 0,
            entries: vec![],
            leader_commit: 0,
        },
    });
    handle
}

fn leader() -> NodeHandle {
    let mut handle = handle();
    while !matches!(handle.node.role, Role::Candidate { .. }) {
        handle.tick();
    }
    handle.step(Message::RequestVoteResponse {
        from: 2,
        msg: RequestVoteResponse {
            term: handle.node.current_term,
            vote_granted: true,
        },
    });
    handle
}

#[test]
fn nonzero_timeouts_override_the_defaults() {
    let cfg = build_raft_config(1, vec![2, 3], 200, 25);
    assert_eq!(cfg.election_timeout, 200);
    assert_eq!(cfg.heartbeat_timeout, 25);
}

#[test]
fn zero_timeouts_keep_the_builtin_defaults() {
    let default = Config::new(1, vec![2, 3]);
    let cfg = build_raft_config(1, vec![2, 3], 0, 0);
    assert_eq!(cfg.election_timeout, default.election_timeout);
    assert_eq!(cfg.heartbeat_timeout, default.heartbeat_timeout);
}

#[test]
fn each_timeout_overrides_independently() {
    let default = Config::new(1, vec![2, 3]);
    let cfg = build_raft_config(1, vec![2, 3], 200, 0);
    assert_eq!(cfg.election_timeout, 200);
    assert_eq!(cfg.heartbeat_timeout, default.heartbeat_timeout);
}

#[test]
fn the_default_config() {
    let cfg = Config::new(1, vec![2, 3]);
    assert_eq!(cfg.election_timeout, 10);
    assert_eq!(cfg.heartbeat_timeout, 3);
    assert_eq!(cfg.max_entries_per_append, 100);
    assert_eq!(cfg.clone().peers, vec![2, 3]);
}

#[test]
fn options_give_the_raft_config_and_the_log_name() {
    let options = RaftKvOptions {
        id: 12,
        raft_addr: "127.0.0.1:7001".to_string(),
        peers: HashMap::from([(2, "b".to_string()), (3, "c".to_string())]),
        app_addrs: HashMap::new(),
        data_dir: "data".to_string(),
        learner: false,
        election_timeout: 40,
        heartbeat_timeout: 0,
        compaction_threshold: 0,
    };
    let cfg = options.raft_config();
    let mut peers = cfg.peers.clone();
    peers.sort();
    assert_eq!((cfg.id, peers), (12, vec![2, 3]));
    assert_eq!((cfg.election_timeout, cfg.heartbeat_timeout), (40, 3));
    assert_eq!(options.wal_name(), "node-12.wal");
}

#[test]
fn a_follower_refuses_writes_and_names_the_leader() {
    let mut node = RaftKv {
        handle: follower_of(2),
    };
    match node.put("a".to_string(), "1".to_string()) {
        Err(RaftKvError::NotLeader {
            leader_id,
            leader_addr,
        }) => {
            assert_eq!(leader_id, Some(2));
            assert_eq!(leader_addr.as_deref(), Some("node2:8080"));
        }
        _ => panic!("a follower must refuse"),
    }
    assert!(matches!(
        node.delete("a".to_string()),
        Err(RaftKvError::NotLeader { .. })
    ));
    assert!(matches!(
        node.read_index(),
        Err(RaftKvError::NotLeader { .. })
    ));
    let status = node.status();
    assert_eq!((status.id, status.is_leader), (1, false));
    assert_eq!(status.leader_id, Some(2));
    assert_eq!(status.leader_addr.as_deref(), Some("node2:8080"));
}

#[test]
fn a_leader_accepts_writes_and_serves_reads() {
    let mut node = RaftKv { handle: leader() };
    assert!(node.is_leader());
    let (index, ready) = node.put("a".to_string(), "1".to_string()).unwrap();
    assert_eq!(index, 2);
    assert_eq!(
        ready.entries_to_persist[0].command,
        b"{\"Set\":{\"key\":\"a\",\"value\":\"1\"}}"
    );
    assert_eq!(node.read_index().unwrap(), 0);
    node.handle.kv.set("a".to_string(), "1".to_string());
    assert_eq!(node.get("a", true).unwrap(), Some("1".to_string()));
    assert_eq!(node.get("b", true).unwrap(), None);
    assert!(matches!(node.get("a", false), Err(RaftKvError::Timeout)));
    assert_eq!(node.get_local("a"), Some("1".to_string()));
    assert_eq!(node.scan_prefix("", true).unwrap().len(), 1);
    assert!(matches!(
        node.scan_prefix("", false),
        Err(RaftKvError::Timeout)
    ));
    assert_eq!(
        node.scan_prefix_local("a"),
        vec![("a".to_string(), "1".to_string())]
    );
}

#[test]
fn the_outcome_of_a_wait_is_the_outcome_of_the_write() {
    assert!(write_outcome(Waited::Committed).is_ok());
    assert!(matches!(
        write_outcome(Waited::Dropped),
        Err(RaftKvError::ProposalDropped)
    ));
    assert!(matches!(
        write_outcome(Waited::TimedOut),
        Err(RaftKvError::Timeout)
    ));
}

#[test]
fn errors_read_as_documented() {
    let not_leader = |leader_id| RaftKvError::NotLeader {
        leader_id,
        leader_addr: None,
    };
    assert_eq!(
        not_leader(Some(2)).message(),
        "not the leader (leader id: Some(2))"
    );
    assert_eq!(
        not_leader(None).message(),
        "not the leader (leader id: None)"
    );
    assert_eq!(
        RaftKvError::ProposalDropped.message(),
        "proposal dropped: leadership lost before commit"
    );
    assert_eq!(
        RaftKvError::Timeout.message(),
        "timed out waiting for quorum"
    );
}

#[test]
fn a_migration_recovers_from_a_full_volume_once() {
    assert_eq!(MigrationStep::SaveSnapshot.next(StepOutcome::Failed), MigrationStep::Failed);
    assert_eq!(MigrationStep::SetAside.next(StepOutcome::Succeeded), MigrationStep::Rewrite);
    assert_eq!(MigrationStep::Rewrite.next(StepOutcome::Succeeded), MigrationStep::Done);
    assert_eq!(MigrationStep::Rewrite.next(StepOutcome::OutOfSpace), MigrationStep::DropLegacy);
    assert_eq!(MigrationStep::DropLegacy.next(StepOutcome::Succeeded), MigrationStep::RewriteAgain);
    assert_eq!(MigrationStep::RewriteAgain.next(StepOutcome::OutOfSpace), MigrationStep::Failed);
    assert_eq!(MigrationStep::RewriteAgain.next(StepOutcome::Succeeded), MigrationStep::Done);
    assert_eq!(MigrationStep::Rewrite.next(StepOutcome::Failed), MigrationStep::PutBack);
    assert_eq!(MigrationStep::PutBack.next(StepOutcome::Succeeded), MigrationStep::Failed);
    assert!(is_out_of_space(Some(28)));
    assert!(!is_out_of_space(Some(2)));
    assert!(!is_out_of_space(None));
}

#[test]
fn a_migration_saves_the_snapshot_only_if_it_is_news() {
    let mut replay = WalReplay::default();
    assert_eq!(
        MigrationStep::first(&replay, None),
        MigrationStep::SetAside
    );
    replay.adopt(Snapshot {
        last_index: 5,
        last_term: 1,
        data: vec![],
    });
    assert_eq!(
        MigrationStep::first(&replay, None),
        MigrationStep::SaveSnapshot
    );
    assert_eq!(
        MigrationStep::first(&replay, Some(4)),
        MigrationStep::SaveSnapshot
    );
    assert_eq!(
        MigrationStep::first(&replay, Some(5)),
        MigrationStep::SetAside
    );
    let current = Wal {
        codec: Codec::PostcardV2,
    };
    let legacy = Wal {
        codec: Codec::LegacyJson,
    };
    assert!(!needs_migration(&current, &replay));
    assert!(needs_migration(&legacy, &replay));
}

#[test]
fn a_redirect_keeps_path_and_query() {
    let handle = follower_of(2);
    let redirect = |path: &str| match redirect_to_leader(&handle, path) {
        Reply::Redirect(url) => url,
        other => panic!("expected a redirect, got {other:?}"),
    };
    assert_eq!(redirect(&kv_path("city")), "http://node2:8080/kv/city");
    assert_eq!(redirect("/kv/a%2Fb"), "http://node2:8080/kv/a%2Fb");
    assert_eq!(redirect("/kv?prefix=c"), "http://node2:8080/kv?prefix=c");
    assert_eq!(redirect("/kv"), "http://node2:8080/kv");
    assert_eq!(redirect("/cluster/add"), "http://node2:8080/cluster/add");
    // A leader without a known address, and no leader at all.
    assert!(matches!(
        redirect_to_leader(&follower_of(3), "/kv"),
        Reply::Unavailable("no leader")
    ));
    let alone = self::handle();
    assert!(matches!(
        redirect_to_leader(&alone, "/kv"),
        Reply::Unavailable("no leader")
    ));
}

#[test]
fn reads_answer_with_the_value_or_not_found_or_time_out() {
    let mut handle = leader();
    handle.kv.set("a".to_string(), "1".to_string());
    handle.kv.set("b".to_string(), "2".to_string());
    assert!(matches!(kv_get(&handle, "a", true), Reply::Value(v) if v == "1"));
    assert!(matches!(kv_get(&handle, "z", true), Reply::NotFound));
    assert!(matches!(
        kv_get(&handle, "a", false),
        Reply::Unavailable("read timeout")
    ));
    assert!(matches!(kv_scan(&handle, &None, true), Reply::Pairs(p) if p.len() == 2));
    assert!(
        matches!(kv_scan(&handle, &Some("b".to_string()), true), Reply::Pairs(p) if p.len() == 1)
    );
    assert!(matches!(
        kv_scan(&handle, &None, false),
        Reply::Unavailable("read timeout")
    ));
}

#[test]
fn a_put_body_has_to_be_text() {
    assert_eq!(
        kv_put("k".to_string(), "v\u{e9}".as_bytes().to_vec()),
        Some(Command::Put {
            key: "k".to_string(),
            value: "v\u{e9}".to_string()
        })
    );
    assert_eq!(kv_put("k".to_string(), vec![0xFF]), None);
    assert_eq!(
        kv_delete("k".to_string()),
        Command::Delete {
            key: "k".to_string()
        }
    );
}

#[test]
fn waits_are_answered_by_how_they_end() {
    assert!(matches!(commit_reply(Waited::Committed), Reply::Done));
    assert!(matches!(
        commit_reply(Waited::Dropped),
        Reply::Unavailable("proposal dropped")
    ));
    assert!(matches!(
        commit_reply(Waited::TimedOut),
        Reply::Unavailable("proposal timeout")
    ));
    assert!(matches!(conf_change_reply(Waited::Committed), Reply::Done));
    assert!(matches!(
        conf_change_reply(Waited::Dropped),
        Reply::Unavailable("conf change dropped")
    ));
    assert!(matches!(
        conf_change_reply(Waited::TimedOut),
        Reply::Unavailable("conf change timeout")
    ));
}

#[test]
fn the_status_body_is_json() {
    assert_eq!(
        status(&follower_of(2)),
        b"{\"is_leader\":false,\"leader_id\":2}"
    );
    assert_eq!(status(&handle()), b"{\"is_leader\":false,\"leader_id\":null}");
    assert_eq!(status(&leader()), b"{\"is_leader\":true,\"leader_id\":1}");
}

#[test]
fn a_peer_is_an_id_and_an_address() {
    assert_eq!(
        parse_peer("2=127.0.0.1:7002"),
        Ok((2, "127.0.0.1:7002".to_string()))
    );
    assert_eq!(parse_peer("2=a=b"), Ok((2, "a=b".to_string())));
    assert_eq!(parse_peer("7="), Ok((7, String::new())));
    assert_eq!(
        parse_peer("127.0.0.1:7002"),
        Err("expected id=addr, got '127.0.0.1:7002'".to_string())
    );
    assert_eq!(parse_peer("x=y"), Err("invalid node id: x".to_string()));
    assert_eq!(parse_peer("=y"), Err("invalid node id: ".to_string()));
    assert_eq!(
        parse_peer("18446744073709551616=y"),
        Err("invalid node id: 18446744073709551616".to_string())
    );
    assert_eq!(
        parse_peer("18446744073709551615=y"),
        Ok((u64::MAX, "y".to_string()))
    );
}

#[test]
fn the_last_address_of_a_peer_counts() {
    let config = NodeConfig {
        id: 1,
        grpc_addr: "a".to_string(),
        http_addr: "b".to_string(),
        peers: vec![
            (2, "old".to_string()),
            (3, "three".to_string()),
            (2, "new".to_string()),
        ],
        http_peers: vec![(2, "http".to_string())],
        data_dir: "data".to_string(),
        learner: false,
    };
    let peers = config.peers();
    assert_eq!(peers.len(), 2);
    assert_eq!(peers[&2], "new");
    assert_eq!(config.peers_map()[&3], "three");
    assert_eq!(config.http_peers_map()[&2], "http");
}

#[test]
fn client_urls() {
    let addr = "http://127.0.0.1:8001";
    assert_eq!(kv_url(addr, "hello"), "http://127.0.0.1:8001/kv/hello");
    assert_eq!(
        scan_url(addr, "a b/\u{e9}~-_."),
        "http://127.0.0.1:8001/kv?prefix=a%20b%2F%C3%A9~-_."
    );
    assert_eq!(scan_url(addr, ""), "http://127.0.0.1:8001/kv?prefix=");
    assert_eq!(status_url(addr), "http://127.0.0.1:8001/status");
}

#[test]
fn client_output() {
    assert_eq!(scan_lines(&[]), vec!["(empty)"]);
    assert_eq!(
        scan_lines(&[
            ("a".to_string(), "1".to_string()),
            ("b".to_string(), "2".to_string())
        ]),
        vec!["a = 1", "b = 2"]
    );
    assert_eq!(value_line(None), "(not found)");
    assert_eq!(value_line(Some("world".to_string())), "world");
}
