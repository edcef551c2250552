//! Sharded, replicated vector search.

pub mod address;
pub mod aggregator;
pub mod cli;
pub mod cluster;
pub mod collection;
pub mod failover;
pub mod gather;
pub mod log;
pub mod message;
pub mod metrics;
pub mod network;
pub mod node;
pub mod raft;
pub mod ranking;
pub mod record;
pub mod router;
pub mod search;
pub mod sharding;
pub mod similarity;
pub mod spike;
pub mod spread;
pub mod store;
pub mod text;
pub mod topk;
