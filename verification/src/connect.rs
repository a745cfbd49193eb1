//! How a block whose parent is known joins the chain.

use vstd::prelude::*;
use crate::block::{Block, BlockView};
use crate::blockchain::{Blockchain, ChainView};
use crate::hash::H256;
use crate::ledger::{check_transactions, settle, Basis, Ledger, LedgerView};
use crate::mempool::{PoolView, TxMempool};
use crate::note::Note;
use crate::table::Table;

verus! {

/// The ledger that each block left.
pub type BlockStates = Table<H256, Ledger>;

/// The contents of [`BlockStates`].
pub type StatesView = Map<H256, LedgerView>;

/// What changes when blocks join the chain.
#[verifier::ext_equal]
pub struct State {
    pub chain: ChainView,
    pub states: StatesView,
    pub pool: PoolView,
    pub notes: Seq<Note>,
}

/// The chain, the ledgers, the pool and the notes, seen together.
pub open spec fn gather(
    chain: &Blockchain,
    states: &BlockStates,
    pool: &TxMempool,
    notes: &Vec<Note>,
) -> State {
    State { chain: chain@, states: states@, pool: pool@, notes: notes@ }
}

/// The chain, the ledgers and the pool, with nothing noted.
pub open spec fn unnoted(chain: &Blockchain, states: &BlockStates, pool: &TxMempool) -> State {
    State { chain: chain@, states: states@, pool: pool@, notes: Seq::empty() }
}

/// The transfers of a block may be paid out of the ledger that its parent left.
pub open spec fn accepts(states: StatesView, block: BlockView) -> bool {
    crate::ledger::all_admissible(states[block.parent_hash], block.content)
}

/// What becomes of the state when a block is put on top of its parent. A block
/// with a transfer that may not be paid changes nothing but the notes.
///
/// `None` stands for a block that cannot be judged or settled: its parent left
/// no ledger, a transfer is not checkable or cannot be paid, or the block in
/// which the longest branch then ends has no ledger.
pub open spec fn connected(s: State, block: BlockView, basis: Basis) -> Option<State> {
    let ledger = s.states[block.parent_hash];
    let notes = s.notes + crate::ledger::all_complaints(ledger, block.content);
    if !s.states.contains_key(block.parent_hash) || !crate::ledger::all_checkable(
        ledger,
        block.content,
    ) {
        None
    } else if !accepts(s.states, block) {
        Some(State { notes, ..s })
    } else {
        match crate::ledger::settled(ledger, block.content, basis) {
            None => None,
            Some(after) => {
                let chain = s.chain.with(block);
                let states = s.states.insert(block.hash, after);
                let height = chain.height_of(chain.tail);
                if !states.contains_key(chain.tail) {
                    None
                } else {
                    Some(
                        State {
                            chain,
                            states,
                            pool: crate::mempool::without(s.pool, block.content),
                            notes: notes.push(Note::BlockConnected { tail: chain.tail, height }),
                        },
                    )
                }
            },
        }
    }
}

/// Puts a block on top of its parent. Says whether the block was accepted;
/// `None` where it cannot be judged or settled, after which the chain, the
/// ledgers and the pool are no longer of use.
pub fn connect_block(
    block: &Block,
    basis: Basis,
    chain: &mut Blockchain,
    states: &mut BlockStates,
    pool: &mut TxMempool,
    notes: &mut Vec<Note>,
) -> (accepted: Option<bool>)
    requires
        old(chain)@.blocks.contains_key(block.deep_view().parent_hash),
    ensures
        match connected(
            gather(old(chain), old(states), old(pool), old(notes)),
            block.deep_view(),
            basis,
        ) {
            Some(after) => {
                &&& accepted == Some(accepts(old(states)@, block.deep_view()))
                &&& gather(final(chain), final(states), final(pool), final(notes)) == after
            },
            None => accepted is None,
        },
{
    let ledger: Ledger = match states.get(&block.head.parent_hash) {
        None => {
            return None;
        },
        Some(parent) => match check_transactions(parent, &block.content.content, notes) {
            None => {
                return None;
            },
            Some(ok) => {
                if !ok {
                    return Some(false);
                }
                match settle(parent, &block.content.content, basis) {
                    None => {
                        return None;
                    },
                    Some(ledger) => ledger,
                }
            },
        },
    };
    chain.insert(block);
    pool.pop_all(&block.content.content);
    states.insert(block.hash, ledger);
    let tail: H256 = chain.tail();
    if !states.contains_key(&tail) {
        return None;
    }
    notes.push(Note::BlockConnected { tail, height: chain.height() });
    Some(true)
}

} // verus!
