//! A single-process compressed key-value cache with an advisory slot
//! partitioning scheme: values are stored zstd-compressed, and a fixed
//! keyspace of slots is assigned deterministically to the sorted list of
//! cluster node addresses.

pub mod cluster;
pub mod codec;
pub mod commands;
pub mod config;
pub mod errors;
pub mod slots;
pub mod store;
