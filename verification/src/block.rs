//! Blocks of transfers.

use vstd::prelude::*;
use crate::hash::H256;
use crate::table::Replicate;
use crate::transaction::{SignedTransaction, TransactionView};

verus! {

/// The part of a block that links it to its parent.
#[derive(Debug)]
pub struct Header {
    pub parent_hash: H256,
    pub difficulty: H256,
    /// The encoded remainder of the header. It is carried along and never read.
    pub rest: Vec<u8>,
}

/// The transfers of a block, in the order in which they take effect.
#[derive(Debug)]
pub struct Content {
    pub content: Vec<SignedTransaction>,
}

/// A block. Whoever decodes it sets its hash.
#[derive(Debug)]
pub struct Block {
    pub head: Header,
    pub content: Content,
    pub hash: H256,
}

/// What a [`Block`] holds.
#[verifier::ext_equal]
pub struct BlockView {
    pub parent_hash: H256,
    pub difficulty: H256,
    pub rest: Seq<u8>,
    pub content: Seq<TransactionView>,
    pub hash: H256,
}

impl DeepView for Block {
    type V = BlockView;

    open spec fn deep_view(&self) -> BlockView {
        BlockView {
            parent_hash: self.head.parent_hash,
            difficulty: self.head.difficulty,
            rest: self.head.rest@,
            content: self.content.content.deep_view(),
            hash: self.hash,
        }
    }
}

impl Clone for Block {
    fn clone(&self) -> (copy: Block)
        ensures
            copy.deep_view() == self.deep_view(),
    {
        let rest: Vec<u8> = self.head.rest.clone();
        assert(rest@ =~= self.head.rest@);
        let content: Vec<SignedTransaction> = self.content.content.clone();
        assert(content.deep_view() =~= self.content.content.deep_view());
        Block {
            head: Header {
                parent_hash: self.head.parent_hash,
                difficulty: self.head.difficulty,
                rest,
            },
            content: Content { content },
            hash: self.hash,
        }
    }
}

impl Replicate for Vec<Block> {
    fn replicate(&self) -> (copy: Vec<Block>) {
        let copy: Vec<Block> = self.clone();
        assert(copy.deep_view() =~= self.deep_view());
        copy
    }
}

} // verus!
