//! Membership/gossip core of a cluster node: a subscriber registry backed by
//! an open-addressing hash table, a logical clock advanced by signed messages,
//! and a pool of reusable message batches fed by a network reader.

pub mod errors;
pub mod data;
pub mod hasht;
pub mod gossip;
pub mod reader;
