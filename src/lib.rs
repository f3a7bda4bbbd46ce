//! A persistent key-value store built on an append-only command log.
//!
//! Every change is written to the log as a length-prefixed record; an
//! in-memory index maps each live key to the offset of its latest `Put`
//! record and is rebuilt by replaying the log.
pub mod codec;
pub mod error;
pub mod index;
pub mod log;
pub mod store;

pub use codec::{decode, encode, Command, CommandModel};
pub use error::Error;
pub use store::KvStore;
