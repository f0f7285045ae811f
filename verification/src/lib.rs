//! Core of a pessimistic proof: verified state-transition checking for a
//! multi-network bridge settlement layer.
//!
//! A network's committed state (its local exit tree, balance ledger and
//! nullifier set) is advanced by one batch of bridge activity at a time.
//! The transition verifier checks the batch against the state and either
//! produces the new state together with a public output, or a typed error.

pub mod bridge_exit;
pub mod keccak;
pub mod laws;
pub mod ledger;
pub mod local_exit_tree;
pub mod nullifier;
pub mod output;
pub mod state;
pub mod transition;
pub mod u256;

pub use keccak::Digest;
