//! In-process key/value caching with time-to-live (TTL) expiration,
//! accelerated by a probabilistic membership pre-filter.
//!
//! The crate offers two cache backends over string keys and values:
//! [`DistributedHashTable`] (a plain associative cache) and [`BTreeCache`]
//! (the same contract plus ordered range and boundary queries). Both consult
//! a [`BloomFilter`] before touching their index, expire entries lazily on
//! read, and never shrink the filter, so the filter remains a superset
//! oracle of every key ever inserted.
//!
//! Clock-dependent operations come in two forms: `get`, `insert`, and their
//! relatives read the system clock themselves, while the `*_at` variants
//! take the current time in milliseconds as an argument and carry the exact
//! contracts.

mod clock;
pub mod btree_cache;
pub mod entry;
pub mod filter;
pub mod hash_table;
pub mod hashing;
pub mod order;
pub mod policy;
pub mod sizing;
pub mod store;

pub use btree_cache::BTreeCache;
pub use entry::Entry;
pub use filter::BloomFilter;
pub use filter::FilterError;
pub use hash_table::DistributedHashTable;
