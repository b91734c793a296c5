//! Core of a log-structured-merge storage engine: the immutable sorted
//! string table (SSTable) format with its block-meta index, and an
//! optimistic multi-version concurrency control transaction layer with
//! snapshot reads and conflict-checked commits.

pub mod codec;
pub mod engine;
pub mod fingerprint;
pub mod keys;
pub mod local_store;
pub mod pairs;
pub mod table;
pub mod txn;

pub use codec::BlockMeta;
pub use engine::StorageEngine;
pub use keys::KeyBound;
pub use keys::KeyOrdering;
pub use local_store::TxnLocalIterator;
pub use table::FileObject;
pub use table::SsTable;
pub use txn::Transaction;
pub use txn::TxnIterator;
