//! Bounded, content-addressed block storage.
//!
//! The library is the logical core of a node's block-storage layer: a
//! bounded-capacity store of opaque block payloads, keyed by a
//! caller-supplied content hash and indexed by a two-dimensional logical
//! clock (a [`slot::Slot`]).  It answers range queries over slots and,
//! whenever an insertion pushes the store over its capacity, prunes the
//! entries occupying the logically oldest slots until the capacity
//! invariant holds again.
//!
//! The store itself is a pure state machine: durable persistence, the
//! request channel that serializes concurrent callers, and the background
//! flush task are thin layers that an embedding program places around it.
//! Each mutating operation reports the entries it evicted so that such a
//! layer can mirror the store's contents onto disk.  Beside it stand the
//! bounded write-back cache ([`cache`]), the store's governing laws
//! ([`laws`]), and the peer-list rules ([`peers`]) that accompany the
//! storage layer in a node.

pub mod cache;
pub mod laws;
pub mod peers;
pub mod seq_facts;
pub mod slot;
pub mod store;
