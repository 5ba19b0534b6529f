//! A partitioned, append-only message log: segments with offset and time
//! indexes, a hot ring cache, consumer offsets, and a thin topic registry.

pub mod cache;
pub mod error;
pub mod index;
pub mod message;
pub mod partition;
pub mod segment;

pub use error::Error;
