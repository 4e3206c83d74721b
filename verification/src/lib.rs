//! An in-memory cache from keys to values with S3-FIFO admission and eviction
//! (Yang et al., "FIFO Queues are All You Need for Cache Eviction", SOSP '23).
//!
//! New keys enter a small probation queue. A key that leaves probation without
//! having been read is dropped and remembered in a ghost queue, which holds keys
//! only; a key that comes back while it is remembered goes to the main queue
//! instead. Every live entry carries a small frequency counter that lookups
//! raise and that the main queue's eviction scan lowers.
//!
//! - [`model`] holds the mathematical state of a cache and its transitions.
//! - [`upkeep`] proves that the transitions keep the invariant of the model.
//! - [`laws`] proves what follows for every cache.
//! - [`cache`] holds the executable cache, whose operations are proved to
//!   follow the model step by step.
//! - [`table`] and [`ghost_queue`] hold the entry table and the ghost queue.
//! - [`key_ring`], [`key_index`] and the first part of [`ghost_queue`] bind the
//!   collections of the `ringbuf`, `hashbrown` and `indexmap` crates, whose
//!   behaviour is taken on trust.
pub mod cache;
pub mod entry;
pub mod ghost_queue;
pub mod key_index;
pub mod key_ring;
pub mod laws;
pub mod model;
pub mod table;
pub mod upkeep;

pub use cache::Cache;
pub use entry::Entry;
pub use ghost_queue::GhostQueue;
pub use table::EntryTable;
