//! The verified core of a tool that archives, restores, clones and streams
//! Kafka topics.

pub mod archive;
pub mod assignment;
pub mod client_config;
pub mod compression;
pub mod config;
pub mod dump;
pub mod execution;
pub mod failure;
pub mod kafka_consumer_groups;
pub mod kafka_identity;
pub mod layout;
pub mod metadata;
pub mod partition_list;
pub mod partition_loop;
pub mod reconcile;
pub mod records;
pub mod registry;
pub mod restore;
pub mod state;
pub mod status;
pub mod text;
pub mod text_map;
pub mod topic_admin;
pub mod topics;
pub mod transfers;
pub mod wire;
