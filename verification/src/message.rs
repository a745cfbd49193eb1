//! What nodes tell each other.

use vstd::prelude::*;
use crate::block::{Block, BlockView};
use crate::hash::{H160, H256};
use crate::note::Note;
use crate::transaction::{SignedTransaction, TransactionView};

verus! {

/// A message between nodes.
#[derive(Debug)]
pub enum Message {
    Ping(String),
    Pong(String),
    /// The address of a node that came up.
    NewPeer(H160),
    /// The addresses of known nodes.
    Ack(Vec<H160>),
    /// Transfers that can be had.
    NewTransactionHashes(Vec<H256>),
    /// Transfers that are wanted.
    GetTransactions(Vec<H256>),
    Transactions(Vec<SignedTransaction>),
    /// Blocks that can be had.
    NewBlockHashes(Vec<H256>),
    /// Blocks that are wanted.
    GetBlocks(Vec<H256>),
    Blocks(Vec<Block>),
}

/// What a [`Message`] holds.
#[verifier::ext_equal]
pub enum MessageView {
    Ping(Seq<char>),
    Pong(Seq<char>),
    NewPeer(H160),
    Ack(Seq<H160>),
    NewTransactionHashes(Seq<H256>),
    GetTransactions(Seq<H256>),
    Transactions(Seq<TransactionView>),
    NewBlockHashes(Seq<H256>),
    GetBlocks(Seq<H256>),
    Blocks(Seq<BlockView>),
}

impl DeepView for Message {
    type V = MessageView;

    open spec fn deep_view(&self) -> MessageView {
        match self {
            Message::Ping(nonce) => MessageView::Ping(nonce@),
            Message::Pong(nonce) => MessageView::Pong(nonce@),
            Message::NewPeer(peer) => MessageView::NewPeer(*peer),
            Message::Ack(peers) => MessageView::Ack(peers@),
            Message::NewTransactionHashes(hashes) => MessageView::NewTransactionHashes(hashes@),
            Message::GetTransactions(hashes) => MessageView::GetTransactions(hashes@),
            Message::Transactions(txs) => MessageView::Transactions(txs.deep_view()),
            Message::NewBlockHashes(hashes) => MessageView::NewBlockHashes(hashes@),
            Message::GetBlocks(hashes) => MessageView::GetBlocks(hashes@),
            Message::Blocks(blocks) => MessageView::Blocks(blocks.deep_view()),
        }
    }
}

/// What a node does in answer to a message: it writes `reply` to the peer that
/// sent the message, then sends `broadcast` to every peer.
#[derive(Debug)]
pub struct Outcome {
    pub reply: Option<Message>,
    pub broadcast: Option<Message>,
    pub notes: Vec<Note>,
}

/// What an [`Outcome`] holds.
#[verifier::ext_equal]
pub struct OutcomeView {
    pub reply: Option<MessageView>,
    pub broadcast: Option<MessageView>,
    pub notes: Seq<Note>,
}

impl DeepView for Outcome {
    type V = OutcomeView;

    open spec fn deep_view(&self) -> OutcomeView {
        OutcomeView {
            reply: self.reply.deep_view(),
            broadcast: self.broadcast.deep_view(),
            notes: self.notes@,
        }
    }
}

/// Nothing is sent and nothing is noted.
pub open spec fn silence() -> OutcomeView {
    OutcomeView { reply: None, broadcast: None, notes: Seq::empty() }
}

/// Only a reply is sent.
pub open spec fn replying(reply: Option<MessageView>) -> OutcomeView {
    OutcomeView { reply, ..silence() }
}

/// Only a broadcast is sent.
pub open spec fn broadcasting(broadcast: Option<MessageView>) -> OutcomeView {
    OutcomeView { broadcast, ..silence() }
}

/// The addresses are made known, if there are any.
pub open spec fn ack(peers: Seq<H160>) -> Option<MessageView> {
    if peers.len() > 0 {
        Some(MessageView::Ack(peers))
    } else {
        None
    }
}

/// The transfers are announced, if there are any.
pub open spec fn new_transaction_hashes(hashes: Seq<H256>) -> Option<MessageView> {
    if hashes.len() > 0 {
        Some(MessageView::NewTransactionHashes(hashes))
    } else {
        None
    }
}

/// The transfers are asked for, if there are any.
pub open spec fn get_transactions(hashes: Seq<H256>) -> Option<MessageView> {
    if hashes.len() > 0 {
        Some(MessageView::GetTransactions(hashes))
    } else {
        None
    }
}

/// The transfers are handed out, if there are any.
pub open spec fn transactions(txs: Seq<TransactionView>) -> Option<MessageView> {
    if txs.len() > 0 {
        Some(MessageView::Transactions(txs))
    } else {
        None
    }
}

/// The blocks are announced, if there are any.
pub open spec fn new_block_hashes(hashes: Seq<H256>) -> Option<MessageView> {
    if hashes.len() > 0 {
        Some(MessageView::NewBlockHashes(hashes))
    } else {
        None
    }
}

/// The blocks are asked for, if there are any.
pub open spec fn get_blocks(hashes: Seq<H256>) -> Option<MessageView> {
    if hashes.len() > 0 {
        Some(MessageView::GetBlocks(hashes))
    } else {
        None
    }
}

/// The blocks are handed out, if there are any.
pub open spec fn blocks(blocks: Seq<BlockView>) -> Option<MessageView> {
    if blocks.len() > 0 {
        Some(MessageView::Blocks(blocks))
    } else {
        None
    }
}

} // verus!
