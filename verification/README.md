# ds_raft

A Raft server for a replicated counter, run over MPI.

- `src/` is the library, verified with Verus:
  - `raft_server/log_entry.rs`: the log (`Log`, the `RaftList` trait) with
    the operations that AppendEntries uses, and the laws of accepting entries
    (log matching, idempotence).
  - `raft_server/rpc.rs`: the RequestVote and AppendEntries messages.
  - `raft_server/server.rs`: `RaftServer`, its leader bookkeeping, and the
    decisions of the server loop: starting an election, becoming leader,
    a leader's replication round, answering requests, taking in responses.
- `app/` is the program: MPI transport, threads, timers, JSON encoding and
  the persistence file.
- `tests/` exercises the library on concrete values.
