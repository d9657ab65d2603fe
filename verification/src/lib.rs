//! A log-structured, append-only key-value storage engine.
//!
//! Every mutation is recorded as one encoded command in the active log
//! segment; an in-memory index maps each live key to the position of the
//! `Put` record that last wrote it, and compaction rewrites the live
//! records into a fresh segment to reclaim space.  The segment bytes are
//! held by the engine itself; reading them from disk and mirroring
//! appends back to disk is the caller's concern.

pub mod codec;
pub mod error;
pub mod index;
pub mod moves;
pub mod protocol;
pub mod segment;
pub mod store;

pub use codec::Command;
pub use error::MyError;
pub use moves::Move;
pub use protocol::RedisMessage;
pub use segment::Segment;
pub use store::KvStore;
