//! A fixed-capacity key/value cache with least-recently-used eviction.
//!
//! The cache keeps at most `capacity` entries. Every lookup or insertion
//! of a key makes it the most recently used; when an insertion would
//! exceed the capacity, the least recently used entry is evicted first.
//!
//! The behaviour of every operation is stated over two mathematical
//! views of the cache: `entries()`, the map from key values to stored
//! values, and `order()`, the sequence of key values from least to most
//! recently used.

pub mod cache;
pub mod key;

pub use cache::LRUCache;
pub use key::Key;
