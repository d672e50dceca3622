# convex_cluster

The coordination logic of a partitioned, replicated database, verified with
Verus: which partition owns a table, who belongs to the cluster and is alive,
how commits travel through the replicated log, how a Raft group keeps a
partition's replicas alike, and which subscriptions a write invalidates.

- `src/` is the library. It holds no I/O: each function takes what was read and
  says what to do next. Where a decision alternates with I/O, it is a state
  machine with a `step` from an event to an action.
- `app/` performs the I/O: NATS, gRPC, raft-rs and raft-engine, the clock, and
  the JSON shapes of what nodes exchange.
- `tests/` runs the library with the crates that it calls.

The modules fall into these groups:

- placement and membership: `partition`, `node_addresses`, `membership`,
  `membership_store`, `table_number_allocator`, `retry`
- the replicated log: `commit_delta`, `delta_envelope`, `nats_distributed_log`,
  `selective_delivery`, `interest_tracker`, `replica`
- Raft: `raft_node`, `raft_run`, `raft_partition`, `raft_configuration`,
  `raft_storage`, `raft_snapshot`, `raft_state_machine`, `raft_transport`
- checkpoints and the genesis: `checkpoint`, `checkpoint_proto`,
  `snapshot_checkpointer`, `cluster_genesis`
- subscriptions: `read_set`, `invalidation`, `invalidation_registry`,
  `invalidation_history`, `subscription_invalidation`
- calls between nodes: `owner_read`, `candidates`, `grpc_auth`, `commit_client`
- workers: `worker_handles`, `scheduled_and_cron_authority`
- foundations: `text`, `ordered`, `big_endian`, `wire`, `json`, `digest`
