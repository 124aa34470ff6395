//! A peer-to-peer synchronization protocol for a store of content-addressed,
//! dependency-linked changes.
//!
//! Two peers each hold a directed acyclic graph of immutable changes. The
//! protocol discovers which changes each side lacks and delivers them, using
//! a bloom-filter summary of "what I already have" so that mostly-synced
//! peers exchange little more than the new changes themselves.

pub mod bloom;
pub mod change;
pub mod codec;
pub mod doc;
pub mod error;
pub mod hash;
pub mod laws;
pub mod leb;
pub mod state;
pub mod sync;

pub use bloom::BloomFilter;
pub use change::Change;
pub use codec::Message;
pub use doc::Automerge;
pub use error::{ApplyError, ReadMessageError};
pub use hash::ChangeHash;
pub use state::{Have, State};
