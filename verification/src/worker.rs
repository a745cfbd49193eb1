//! What a worker does with one message.

use vstd::prelude::*;
use crate::blockchain::{Blockchain, ChainView};
use crate::connect::{BlockStates, State, StatesView};
use crate::hash::{H160, H256};
use crate::intake::{on_blocks, on_transactions};
use crate::inventory::{
    on_get_blocks, on_get_transactions, on_new_block_hashes, on_new_transaction_hashes,
};
use crate::ledger::{Ledger, LedgerView};
use crate::mempool::{PoolView, TxMempool};
use crate::message::{Message, MessageView, Outcome, OutcomeView};
use crate::orphan::{OrphanBuffer, OrphansView};
use crate::peers::{on_ack, on_new_peer};

verus! {

/// What a node keeps from message to message.
#[verifier::ext_equal]
pub struct Node {
    pub chain: ChainView,
    pub orphans: OrphansView,
    pub pool: PoolView,
    /// The accounts as they were before the first block.
    pub init: LedgerView,
    /// The ledger that each block left.
    pub states: StatesView,
}

impl Node {
    /// The chain and the buffer are well-formed.
    pub open spec fn wf(self) -> bool {
        &&& self.chain.wf()
        &&& crate::orphan::orphans_wf(self.orphans)
    }

    /// The part that changes when blocks join the chain, with nothing noted.
    pub open spec fn state(self) -> State {
        State { chain: self.chain, states: self.states, pool: self.pool, notes: Seq::empty() }
    }
}

/// A message may take a node from `pre` to `post` with this outcome.
pub open spec fn handled(pre: Node, msg: MessageView, post: Node, outcome: OutcomeView) -> bool {
    match msg {
        MessageView::Ping(_) | MessageView::Pong(_) => {
            &&& post == pre
            &&& outcome == crate::message::silence()
        },
        MessageView::NewPeer(peer) => {
            &&& post == Node { init: crate::peers::introduced(pre.init, seq![peer]), ..pre }
            &&& exists|peers: Seq<H160>|
                crate::table::is_walk(peers, post.init.dom()) && outcome
                    == #[trigger] crate::message::broadcasting(crate::message::ack(peers))
        },
        MessageView::Ack(peers) => {
            let init = crate::peers::introduced(pre.init, peers);
            &&& post == Node { init, states: pre.states.insert(pre.chain.tail, init), ..pre }
            &&& outcome == crate::message::broadcasting(
                crate::message::ack(crate::peers::newcomers(pre.init, peers)),
            )
        },
        MessageView::NewTransactionHashes(hashes) => {
            &&& post == pre
            &&& outcome == crate::message::replying(
                crate::message::get_transactions(
                    crate::inventory::unknown(hashes, pre.pool.dom()),
                ),
            )
        },
        MessageView::GetTransactions(hashes) => {
            &&& post == pre
            &&& outcome == crate::message::replying(
                crate::message::transactions(
                    crate::inventory::found_transactions(hashes, pre.pool),
                ),
            )
        },
        MessageView::Transactions(txs) => {
            let ledger = pre.states[pre.chain.tail];
            &&& post == Node { pool: crate::intake::pooled(pre.pool, ledger, txs), ..pre }
            &&& outcome == OutcomeView {
                reply: None,
                broadcast: crate::message::new_transaction_hashes(
                    crate::intake::admitted(ledger, txs),
                ),
                notes: crate::intake::intake_notes(ledger, txs),
            }
        },
        MessageView::NewBlockHashes(hashes) => {
            &&& post == pre
            &&& outcome == crate::message::replying(
                crate::message::get_blocks(
                    crate::inventory::unknown(hashes, pre.chain.blocks.dom()),
                ),
            )
        },
        MessageView::GetBlocks(hashes) => {
            &&& post == pre
            &&& outcome == crate::message::replying(
                crate::message::blocks(crate::inventory::found_blocks(hashes, pre.chain)),
            )
        },
        MessageView::Blocks(blocks) => {
            &&& post.init == pre.init
            &&& exists|order: Seq<H256>, missing: Seq<H256>|
                {
                    &&& crate::intake::orders_fit(
                        pre.state(),
                        pre.orphans,
                        blocks,
                        order,
                        missing,
                    )
                    &&& #[trigger] crate::intake::blocks_handled(
                        pre.state(),
                        pre.orphans,
                        blocks,
                        order,
                        missing,
                    ) == Some(
                        (
                            State { notes: outcome.notes, ..post.state() },
                            post.orphans,
                            outcome,
                        ),
                    )
                }
        },
    }
}

/// A node may be unable to handle a message: transfers came in that are not
/// checkable against the ledger in which the longest branch ends, or blocks of
/// which one cannot be judged or settled.
pub open spec fn may_fail(pre: Node, msg: MessageView) -> bool {
    match msg {
        MessageView::Transactions(txs) => {
            ||| !pre.states.contains_key(pre.chain.tail)
            ||| !crate::ledger::all_checkable(pre.states[pre.chain.tail], txs)
        },
        MessageView::Blocks(blocks) => {
            exists|order: Seq<H256>, missing: Seq<H256>|
                crate::intake::orders_fit(pre.state(), pre.orphans, blocks, order, missing)
                    && #[trigger] crate::intake::blocks_handled(
                    pre.state(),
                    pre.orphans,
                    blocks,
                    order,
                    missing,
                ) is None
        },
        _ => false,
    }
}

/// Handles one message. `None` where that fails, after which what the node
/// keeps is no longer of use.
pub fn handle(
    msg: Message,
    chain: &mut Blockchain,
    orphans: &mut OrphanBuffer,
    pool: &mut TxMempool,
    init_state: &mut Ledger,
    states: &mut BlockStates,
) -> (outcome: Option<Outcome>)
    ensures
        ({
            let pre = Node {
                chain: old(chain)@,
                orphans: old(orphans)@,
                pool: old(pool)@,
                init: old(init_state)@,
                states: old(states)@,
            };
            let post = Node {
                chain: final(chain)@,
                orphans: final(orphans)@,
                pool: final(pool)@,
                init: final(init_state)@,
                states: final(states)@,
            };
            &&& pre.wf()
            &&& post.wf()
            &&& match outcome {
                Some(done) => {
                    &&& handled(pre, msg.deep_view(), post, done.deep_view())
                    &&& msg is Transactions ==> !may_fail(pre, msg.deep_view())
                },
                None => may_fail(pre, msg.deep_view()),
            }
        }),
{
    proof {
        use_type_invariant(&*chain);
        use_type_invariant(&*orphans);
    }
    let outcome: Option<Outcome> = match msg {
        Message::Ping(_) => Some(Outcome { reply: None, broadcast: None, notes: Vec::new() }),
        Message::Pong(_) => Some(Outcome { reply: None, broadcast: None, notes: Vec::new() }),
        Message::NewPeer(peer) => Some(on_new_peer(peer, init_state)),
        Message::Ack(peers) => Some(on_ack(peers, chain, init_state, states)),
        Message::NewTransactionHashes(hashes) => Some(on_new_transaction_hashes(hashes, pool)),
        Message::GetTransactions(hashes) => Some(on_get_transactions(hashes, pool)),
        Message::Transactions(txs) => on_transactions(txs, chain, states, pool),
        Message::NewBlockHashes(hashes) => Some(on_new_block_hashes(hashes, chain)),
        Message::GetBlocks(hashes) => Some(on_get_blocks(hashes, chain)),
        Message::Blocks(blocks) => on_blocks(blocks, chain, orphans, states, pool),
    };
    proof {
        use_type_invariant(&*chain);
        use_type_invariant(&*orphans);
    }
    outcome
}

} // verus!
