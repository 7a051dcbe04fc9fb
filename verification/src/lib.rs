//! A tiny, embeddable, ACID compliant key/value store.
//!
//! The store is an ordered map from string keys to typed values with
//! single-writer transactions, a rollback journal, and an append-only
//! operation log for durability.

pub mod data;
pub mod database;
pub mod error;
pub mod persist;
pub mod store;
pub mod transaction;

pub use data::Data;
pub use database::Config;
pub use database::Database;
pub use database::PendingIo;
pub use error::Error;
pub use error::ErrorKind;
pub use persist::MemoryStore;
pub use persist::PersistType;
pub use persist::SyncPolicy;
pub use store::StoreMap;
pub use transaction::Transaction;
