# raft_kv

A key-value store that is replicated with Raft, written in Verus: the consensus algorithm, the
store, the write-ahead log, the snapshots and everything that the node decides are verified; the
sockets, the disk and the clock are ordinary Rust around them.

## Layout

`src/` is the library. Nothing in it waits or does I/O.

| Module | What it is |
|--------|------------|
| `node` | The Raft state machine: a message in, a `Ready` out. `node::model` is the same machine as mathematics, and every operation is stated in its terms; `node::laws` says what holds whatever the messages are. |
| `log`, `message`, `config`, `conf_change` | The Raft log, the messages, the tuning knobs, and membership changes as log entries. |
| `cluster` | Nodes on a network that loses, delays, repeats and reorders messages, with crashes and compactions. `cluster::laws`, `cluster::reads`, `cluster::writes` and `cluster::stops` hold of every run. |
| `kv`, `events` | The store that committed entries are applied to, and the stream of changes that a watcher sees. |
| `wal`, `replay`, `snapshot` | The files: what is written, what is read back, what a torn or damaged file costs, and the state that a node restarts from. |
| `handle` | The node with its store and its bookkeeping, as a host drives it. `handle::laws` covers durability, compaction and restarts. |
| `embedded`, `http`, `client`, `cli`, `wire` | The decisions of the facade, the HTTP API, the command-line client, the command line and the RPC format. |
| `json`, `text` | JSON documents as plain values, and decimal numbers and text order. |

`app/` is the program: `raft_kv serve` runs a node with its gRPC and HTTP servers, `raft_kv client`
talks to one. `tests/` runs the library, whole clusters included, with disks and network in memory.

## What is promised

* A term has at most one leader (`law_one_leader_per_term`).
* Logs that agree on one entry agree on everything before it (`law_logs_match`).
* What is committed is in the log of every later leader (`law_leaders_have_what_is_committed`), and
  all nodes apply one and the same history (`law_one_history`, `law_steps_apply_the_history`).
* A write that is acknowledged is in that history, at the index and in the term in which it was
  accepted; an entry of another leader is never taken for it
  (`law_acknowledged_write_is_in_the_history`).
* A read at the leader waits for everything that any node knew to be committed, once the leader has
  committed an entry of its own term and as long as nobody is in a later term
  (`law_read_index_is_current`), and so for every write that was acknowledged before
  (`law_reads_see_acknowledged_writes`).
* A crash costs nothing that was made durable (`law_steps_are_durable`, `law_recovery_is_a_step`),
  and a torn log file costs the record that was being written (`law_torn_tail_is_dropped`).

The promises about clusters hold of every run in which the membership changes concern a single node:
it may be added, having started as a learner, and removed, any number of times, and a change that got
lost may be asked for again. With changes that concern two nodes they can fail: a node goes by the
members that it knows of until it has applied a change, and after two such changes a majority of what
it knows need not meet a majority of what the others know. A cluster that is stopped when its nodes
have the same snapshot can be started again with the voters of that time, and go on with changes that
concern another node (`law_history_goes_on`).

They leave out one kind of delivery: a snapshot that reaches a node whose log already holds the last
entry that the snapshot covers, and more behind it. Installing it would drop entries that the node
has acknowledged.

## What is trusted

`serde_json` reads and writes documents, `postcard` the records of the log, `crc32fast` computes
checksums, `urlencoding` encodes queries, `rand` draws election timeouts, and the standard library
reads UTF-8. Every such call stands in a function of its own, behind a contract that its doc comment
puts into words.
