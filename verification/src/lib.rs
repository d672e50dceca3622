//! Cluster coordination logic for a partitioned, replicated database.

pub mod big_endian;
pub mod candidates;
pub mod checkpoint;
pub mod checkpoint_proto;
pub mod cluster_genesis;
pub mod commit_client;
pub mod commit_delta;
pub mod delta_envelope;
pub mod digest;
pub mod grpc_auth;
pub mod interest_tracker;
pub mod invalidation;
pub mod invalidation_history;
pub mod invalidation_registry;
pub mod json;
pub mod membership;
pub mod membership_store;
pub mod nats_distributed_log;
pub mod node_addresses;
pub mod ordered;
pub mod owner_read;
pub mod partition;
pub mod raft_configuration;
pub mod raft_node;
pub mod raft_partition;
pub mod raft_run;
pub mod raft_snapshot;
pub mod raft_state_machine;
pub mod raft_storage;
pub mod raft_transport;
pub mod read_set;
pub mod replica;
pub mod retry;
pub mod scheduled_and_cron_authority;
pub mod selective_delivery;
pub mod snapshot_checkpointer;
pub mod subscription_invalidation;
pub mod table_number_allocator;
pub mod text;
pub mod wire;
pub mod worker_handles;
