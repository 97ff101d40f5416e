//! A hierarchical grow-only counter that replicas merge without
//! coordination, with Merkle proofs over its nodes and a byte encoding for
//! durable storage.
//!
//! - [`keys`]: the order of names, and lists kept in that order.
//! - [`gcounter`]: the grow-only counter and the laws of its merge.
//! - [`tree`]: the model of the hierarchical counter, a mapping from paths
//!   to counts, and the laws of merging stated over it.
//! - [`node`]: the tree of counters itself, with `increment` and `merge`.
//! - [`hashing`]: the SHA-256 hash of a node.
//! - [`merkle`]: the Merkle tree over the leaves of a node, and inclusion
//!   proofs.
//! - [`codec`]: the bytes of a hierarchical counter, written and read.
//! - [`persistence`]: what is computed when a counter is stored and loaded.
//! - [`fetch`]: what is computed around a request sent by the host.
//! - [`slice`]: a byte buffer that is borrowed or shared.
pub mod codec;
pub mod fetch;
pub mod gcounter;
pub mod hashing;
pub mod keys;
pub mod merkle;
pub mod node;
pub mod persistence;
pub mod slice;
pub mod tree;
