//! What a node has to say about the messages it handles.

use vstd::prelude::*;
use crate::hash::H256;

verus! {

/// A remark for the operator of the node.
#[derive(Clone, Copy, Debug, PartialEq, Eq)]
pub enum Note {
    /// A transfer's signature is not its owner's.
    SignatureNotVerified,
    /// A transfer is worth more than its owner has.
    NotEnoughBalance,
    /// A transfer is not the next one of its owner.
    NonceMismatch,
    /// A transfer offered to the pool was turned away.
    TransactionInvalid,
    /// A block was turned away because of its transfers.
    BlockInvalid,
    /// A block was set aside until its parent is known.
    OrphanFound,
    /// A block joined the chain, which then ended in `tail` at height `height`.
    BlockConnected { tail: H256, height: usize },
}

} // verus!
