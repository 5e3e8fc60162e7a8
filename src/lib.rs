//! A fixed-capacity least-recently-used cache whose operations are verified
//! against a model made of a recency sequence and a key-to-value store.
pub mod cache;
pub mod laws;
pub mod shared;
pub mod test_utils;

pub use cache::{ConfigError, LruCache};
pub use shared::SharedLruCache;
