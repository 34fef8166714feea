//! Total logical size of a set of filesystem paths.
//!
//! The crate sums the byte sizes of a collection of paths, expanding
//! directories recursively while counting each physically distinct object
//! (identified by device and inode number) exactly once, even when it is
//! reachable through several names or through symbolic links.

pub mod engine;
pub mod format;
pub mod identity;
pub mod queue;
pub mod resolve;
pub mod shared_channel;
