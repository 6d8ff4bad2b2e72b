//! The processing cluster: three replicas that agree on a log of order outcomes.

pub mod log_entry;
pub mod message;
pub mod frames;
pub mod wal;
pub mod wal_laws;
pub mod config;
pub mod witness_client;
pub mod raft_model;
pub mod leader_election;
pub mod raft_laws;
pub mod conduct;
pub mod isolation;
pub mod cluster;
pub mod safety;
pub mod commitment;
pub mod replication;
pub mod packets;
pub mod results;
