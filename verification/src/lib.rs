//! Durable storage for log-structured CRDT documents.
//!
//! A document's state is an append-only log of immutable change records,
//! each keyed by an actor identifier and a per-actor sequence number, plus
//! an optional compacted snapshot. This crate provides the storage contract
//! for that data (the [`Persister`] trait), several backends implementing
//! it, and a document wrapper that keeps an automerge document and its
//! persistent storage in step.
//!
//! A RocksDB-backed variant is out of scope: that storage engine is a
//! native C++ library this crate cannot build or call, and its role — an
//! embedded ordered key-value store with prefix scans — is filled by the
//! sled backend, whose key scheme and accounting it would share.

pub mod autocommit;
pub mod blobstore;
pub mod changestore;
pub mod document;
pub mod engine;
pub mod fscache;
pub mod keys;
pub mod kv;
pub mod laws;
pub mod localstore;
pub mod mem;
pub mod model;
pub mod persister;
mod sizes;
pub mod sledstore;

pub use autocommit::DocumentError;
pub use autocommit::PersistentAutoCommit;
pub use document::PersistentAutomerge;
pub use document::TransactionError;
pub use fscache::FsPersisterCache;
pub use localstore::LocalStoragePersister;
pub use localstore::LocalStoragePersisterError;
pub use mem::MemoryPersister;
pub use sledstore::SledPersister;
pub use sledstore::SledPersisterError;
pub use persister::Persister;
pub use persister::PersisterView;
pub use sizes::StoredSizes;
