//! Replicated-log consensus engine and supporting verified containers and
//! algorithms.
//!
//! The heart of the crate is [`raft`]: a single-leader consensus core (leader
//! election, log replication, commit-index advancement) written as pure state
//! transitions with full functional contracts, plus machine-checked safety
//! arguments in [`raft_safety`]. The remaining modules are verified versions
//! of the containers and algorithms the surrounding tooling uses.

pub mod raft;
pub mod raft_safety;
pub mod sorting;
pub mod blog;
pub mod chat;
pub mod pkg;
pub mod linked_list;
pub mod bst;
pub mod graph;
pub mod http;
pub mod strutil;
pub mod huffman;
pub mod text;
pub mod hashmap;
pub mod query;
