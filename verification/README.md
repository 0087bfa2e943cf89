# murmur

A distributed, strongly consistent key/value store. Every write is a command
that a leader appends to a replicated log, that a majority of nodes stores, and
that each node then applies to its own copy of the data, so that all replicas
hold identical data and a committed write survives the loss of a minority of
nodes. Reads go through the same log. The nodes agree on the log by Raft, which
is proved safe here: whatever messages the network loses, delays, repeats or
reorders, and whenever nodes crash and restart. Saves are taken to succeed. One
that fails is reported, and the proof does not cover what follows.

## Layout

`src/` is the verified library. It touches no clock, disk or network: whoever
drives it hands in times, messages and answers, and is told what to do next.

| Path | What lives there |
|------|------------------|
| `src/raft/types.rs` | Terms, roles, and the `Log` with its snapshot offset and all index arithmetic. |
| `src/raft/rpc.rs` | RequestVote, AppendEntries and InstallSnapshot as plain values. |
| `src/raft/model.rs` | A node as a mathematical value, and how each event changes it. |
| `src/raft/consensus.rs` | The consensus state machine: elections, pre-votes, replication, commit, snapshots. Its contracts are the transitions of the model. |
| `src/raft/storage.rs` | What a node persists, its byte form, and the storage trait. |
| `src/raft/config.rs`, `clock.rs` | Membership, timing, points in time. |
| `src/raft/node.rs` | What a live node does next: ticks, heartbeats, what to send a peer. |
| `src/raft/transport.rs` | Wire messages to logical ones and back, and the inbound service. |
| `src/raft/cluster.rs` | A whole cluster over a network that loses, repeats and reorders messages, with nodes that crash. |
| `src/raft/safety.rs` | What such a cluster promises: one leader per term, matching logs, complete leaders, state-machine safety, repair, snapshots that show what is committed. It speaks of whole logs, of what was compacted away too. |
| `src/raft/induction.rs` | Why: the facts that hold of every state that a run can reach. |
| `src/raft/life.rs` | One node through any calls, in any order. |
| `src/raft/laws.rs` | Promises that one node keeps by itself: its votes, terms, cursors and timers. |
| `src/command.rs`, `wire.rs` | Commands as log entries carry them: a Protocol Buffers message. |
| `src/app/` | The replicated state machine: dedup table, key directory, snapshots, receipts, replies; `laws.rs` states exactly-once, identical replicas and the rest. |
| `src/clerk.rs` | The client's decisions: stamps, retries, round robin. |
| `src/codec.rs` | The byte form of persistent state and snapshots. |
| `src/store.rs`, `status.rs`, `proto.rs` | Store errors, gRPC codes, wire messages. |

`app/` is the ordinary Rust around it: the node daemon, the client CLI, the
benchmark, gRPC, files, and the Sable engine that holds the data.

`tests/` run the library, among them whole clusters under random faults.

## What is trusted

The wire format is read and written by `prost`, behind the small functions at the
end of `src/wire.rs`; election timeouts and client ids are drawn by `fastrand`,
behind `random_in` in `src/raft/config.rs`. What is assumed of each stands above
it.
