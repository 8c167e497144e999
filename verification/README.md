# rustyraftlab

A Raft consensus library written in Verus: every executable function in `src/`
carries a contract that Verus proves, except one small trusted call of
`std::str::from_utf8` (its contract is stated, not proved).

## Layout

- `src/state_machine.rs`: client commands, their byte encoding and decoding, and the
  in-memory key-value state machine. A state machine is viewed as the sequence of
  commands it applied; its store is always the replay of that sequence.
- `src/storage.rs`: the write or delete that a command asks of a persistent store.
- `src/raft/`: one Raft server. `model.rs` states every operation (RequestVote,
  AppendEntries and their responses, election and heartbeat timers, proposals,
  commit and apply) as a function on the node's value; `node.rs` implements them and
  is proved to follow the model; `laws.rs` holds properties of single operations
  and `outcomes.rs` spells out each RPC handler's effect field by field.
- `src/simulator/`: a deterministic multi-node cluster with partitions, crashes and
  restarts, message delays and drops. `model.rs` states each simulator operation,
  `safety.rs` keeps the invariant that the node operations need,
  `election.rs`, `matching.rs` and `history.rs` prove the cluster-wide laws, and
  `proposal.rs` follows what a proposal does to the proposer's log, and `quiet.rs`
  what a run without faults keeps.
- `app/`: the RocksDB-backed storage engine, which performs the operations of
  `src/storage.rs` on disk.
- `tests/`: executable tests.

## Laws proved

The cluster-wide laws below cover a simulator built by `Simulator::new` and driven
through its operations. `Simulator::node_mut` changes a node directly; afterwards
neither the simulator's validity (`wf`) nor its consistent history is promised, so
the laws say nothing of a simulator once `node_mut` was used (some scenario tests
use it on purpose).

- Election safety: no two nodes are leaders of the same term, in any simulator
  built by `Simulator::new` and driven through its operations.
- Log matching: in such a simulator, two logs holding entries of the same term at
  the same index are identical up to that index.
- Entries of a term come from its leader: a leader holds every entry of its term
  that any node holds, with the same log up to it.
- Per node: an AppendEntries request succeeds exactly when the receiver's log holds
  an entry of the request's previous term at its previous index, and what it then
  does to the log, commit index and applied commands; terms never decrease, a vote once cast in a term is kept, a vote is
  granted to one candidate per term, a leader's log only grows while it leads,
  applied commands are never undone, a leader commits only entries of its term
  stored on a majority, and accepted entries land at their indices.
- One AppendEntries catches up a follower whose log agrees with the leader's below
  its next index: the follower's log then extends the leader's whole log.
- After an accepted AppendEntries the log ends right after the request's entries
  when one of them conflicts with an entry already there, and otherwise keeps every
  old entry and is as long as the longer of the old log and the request's reach.
- A new simulator has no leader and equal state machines. A successful proposal
  never moves the clock, and adds exactly one entry, of the leader's term, to the
  proposer's log when nothing but that node's replication traffic is in flight.
- Without faults (no partition, crash, delay or drop), at most one live node leads
  whenever the cluster is settled (nothing in flight, every node in one term);
  `new` settles the cluster, and a tick or a proposal keeps it settled whenever it
  delivers everything it sent (`quiet.rs`).
- Commands: decoding an encoded command gives it back, and only canonical
  encodings decode; state machines that applied the same commands hold stores with
  the same contents.

## Not a law here

Agreement of committed entries across nodes is not proved, and does not hold in
general: a successful AppendEntries response does not say how far it acknowledges,
and the leader counts it as matching its whole current log. With a message delay a
leader can therefore commit an entry that no majority stores; the test
`delayed_acknowledgement_can_commit_an_entry_a_majority_lacks` shows a run where
two live nodes then hold different committed entries.

Nor does "at most one live leader" hold under faults: behind a partition an old
leader keeps its role while a newer one is elected. The law above is stated for
runs without faults only.
