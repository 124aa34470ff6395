//! The typed errors of the protocol: what the wire codec can reject and
//! what the change store can refuse to apply.

use vstd::prelude::*;

use crate::hash::ChangeHash;

verus! {

/// Why a byte string was rejected as a sync message.
#[derive(Debug, PartialEq)]
pub enum ReadMessageError {
    /// The first byte was not the sync-message discriminator.
    WrongType { expected_one_of: Vec<u8>, found: u8 },
    /// The input ended before a field did, or a count was unreadably large.
    NotEnoughInput,
    /// A bloom filter's declared bit count disagrees with the bytes present.
    MalformedBloom,
    /// A change's framing is shorter than its own header claims.
    MalformedChange,
}

/// The mathematical image of a `ReadMessageError`.
pub ghost enum MessageErrView {
    WrongType { expected_one_of: Seq<u8>, found: u8 },
    NotEnoughInput,
    MalformedBloom,
    MalformedChange,
}

impl View for ReadMessageError {
    type V = MessageErrView;

    open spec fn view(&self) -> MessageErrView {
        match self {
            ReadMessageError::WrongType { expected_one_of, found } => MessageErrView::WrongType {
                expected_one_of: expected_one_of@,
                found: *found,
            },
            ReadMessageError::NotEnoughInput => MessageErrView::NotEnoughInput,
            ReadMessageError::MalformedBloom => MessageErrView::MalformedBloom,
            ReadMessageError::MalformedChange => MessageErrView::MalformedChange,
        }
    }
}

/// Why the change store refused a batch of changes.
#[derive(Debug, PartialEq)]
pub enum ApplyError {
    /// A change names a dependency that is neither stored nor earlier in
    /// the same batch; the hash is the missing dependency.
    MissingDep(ChangeHash),
    /// Accepting the batch could push the store past the size whose bloom
    /// summary still fits the wire format.
    TooManyChanges,
}

} // verus!
