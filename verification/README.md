# raft_engine

The Raft algorithm of one node, as a verified library. The engine performs no I/O: it takes
events (a node starts, a candidate asks for a vote, a leader sends entries, a snapshot was
made), updates its own state, and queues commands by which a runtime stores, sends and applies
what has to be stored, sent and applied.

- `engine`: the engine and its operations. Each operation states the new state of the engine
  as a function of the old one.
- `handler`: the work on votes, logs, snapshots, replication and following, each on the part
  of the engine that it needs.
- `raft_state`, `log_id_list`, `membership`, `progress`, `leader`, `command`, `message`,
  `entry`, `vote`, `log_id`, `node_set`, `node`, `config`: the data that the engine works on,
  with the mathematical view of each type.
- `view`: the view of the engine and of its parts.
- `validity`: what holds of every state, and that every step keeps it.
- `request`: what a request to append entries shows, and whether it fits the state. Here stand
  the tests by which a caller finds out whether a state is valid and a request fits it.
- `leadership`: what holds of a node while it leads.
- `commit`: how far a leader commits when it appends entries.
- `history`: the events, and what no sequence of events ever undoes.
- `runtime`: what a runtime has stored that executes the commands, and that it keeps up with
  the engine.
- `laws`: what can be relied on in answers to requests, snapshots and stepping down.
