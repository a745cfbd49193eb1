//! How nodes find out which transfers and blocks they lack, and hand them out.

use vstd::prelude::*;
use crate::block::{Block, BlockView};
use crate::blockchain::{Blockchain, ChainView};
use crate::hash::H256;
use crate::mempool::{PoolView, TxMempool};
use crate::message::{Message, Outcome};
use crate::transaction::{SignedTransaction, TransactionView};

verus! {

/// Those of the hashes that are not known, in order.
pub open spec fn unknown(hashes: Seq<H256>, known: Set<H256>) -> Seq<H256> {
    hashes.filter(|h: H256| !known.contains(h))
}

/// Those of the hashes that are known, in order.
pub open spec fn recognised(hashes: Seq<H256>, known: Set<H256>) -> Seq<H256> {
    hashes.filter(|h: H256| known.contains(h))
}

/// Those of the transfers asked for that wait, in the order of the question.
pub open spec fn found_transactions(hashes: Seq<H256>, pool: PoolView) -> Seq<TransactionView> {
    recognised(hashes, pool.dom()).map_values(|h: H256| pool[h])
}

/// Those of the blocks asked for that are known, in the order of the question.
pub open spec fn found_blocks(hashes: Seq<H256>, chain: ChainView) -> Seq<BlockView> {
    recognised(hashes, chain.blocks.dom()).map_values(|h: H256| chain.blocks[h].0)
}

proof fn lemma_unknown_step(hashes: Seq<H256>, known: Set<H256>, i: int)
    requires
        0 <= i < hashes.len(),
    ensures
        unknown(hashes.take(i + 1), known) == if known.contains(hashes[i]) {
            unknown(hashes.take(i), known)
        } else {
            unknown(hashes.take(i), known).push(hashes[i])
        },
{
    reveal(Seq::filter);
    assert(hashes.take(i + 1).drop_last() =~= hashes.take(i));
}

proof fn lemma_recognised_step(hashes: Seq<H256>, known: Set<H256>, i: int)
    requires
        0 <= i < hashes.len(),
    ensures
        recognised(hashes.take(i + 1), known) == if known.contains(hashes[i]) {
            recognised(hashes.take(i), known).push(hashes[i])
        } else {
            recognised(hashes.take(i), known)
        },
{
    reveal(Seq::filter);
    assert(hashes.take(i + 1).drop_last() =~= hashes.take(i));
}

proof fn lemma_of_nothing(known: Set<H256>)
    ensures
        unknown(Seq::empty(), known) == Seq::<H256>::empty(),
        recognised(Seq::empty(), known) == Seq::<H256>::empty(),
{
    reveal(Seq::filter);
}

/// Transfers were announced: the peer is asked for those that do not wait here.
pub fn on_new_transaction_hashes(hashes: Vec<H256>, pool: &TxMempool) -> (outcome: Outcome)
    ensures
        outcome.deep_view() == crate::message::replying(
            crate::message::get_transactions(unknown(hashes@, pool@.dom())),
        ),
{
    let mut wanted: Vec<H256> = Vec::new();
    let mut i: usize = 0;
    proof {
        assert(hashes@.take(0) =~= Seq::empty());
        lemma_of_nothing(pool@.dom());
    }
    while i < hashes.len()
        invariant
            i <= hashes@.len(),
            wanted@ == unknown(hashes@.take(i as int), pool@.dom()),
        decreases hashes@.len() - i,
    {
        proof {
            lemma_unknown_step(hashes@, pool@.dom(), i as int);
        }
        if !pool.contains(&hashes[i]) {
            wanted.push(hashes[i]);
        }
        i = i + 1;
    }
    assert(hashes@.take(hashes@.len() as int) =~= hashes@);
    let reply: Option<Message> = if wanted.len() > 0 {
        Some(Message::GetTransactions(wanted))
    } else {
        None
    };
    Outcome { reply, broadcast: None, notes: Vec::new() }
}

/// Transfers are wanted: the peer gets those that wait here.
pub fn on_get_transactions(hashes: Vec<H256>, pool: &TxMempool) -> (outcome: Outcome)
    ensures
        outcome.deep_view() == crate::message::replying(
            crate::message::transactions(found_transactions(hashes@, pool@)),
        ),
{
    let mut found: Vec<SignedTransaction> = Vec::new();
    let mut i: usize = 0;
    proof {
        assert(hashes@.take(0) =~= Seq::empty());
        lemma_of_nothing(pool@.dom());
        assert(found.deep_view() =~= found_transactions(hashes@.take(0), pool@));
    }
    while i < hashes.len()
        invariant
            i <= hashes@.len(),
            found.deep_view() == found_transactions(hashes@.take(i as int), pool@),
        decreases hashes@.len() - i,
    {
        let ghost before = found.deep_view();
        proof {
            lemma_recognised_step(hashes@, pool@.dom(), i as int);
        }
        match pool.get(&hashes[i]) {
            Some(tx) => {
                found.push(tx.clone());
                assert(found.deep_view() =~= before.push(tx.deep_view()));
                assert(found.deep_view() =~= found_transactions(hashes@.take(i + 1), pool@));
            },
            None => {},
        }
        i = i + 1;
    }
    assert(hashes@.take(hashes@.len() as int) =~= hashes@);
    let reply: Option<Message> = if found.len() > 0 {
        Some(Message::Transactions(found))
    } else {
        None
    };
    Outcome { reply, broadcast: None, notes: Vec::new() }
}

/// Blocks were announced: the peer is asked for those that are not known.
pub fn on_new_block_hashes(hashes: Vec<H256>, chain: &Blockchain) -> (outcome: Outcome)
    ensures
        outcome.deep_view() == crate::message::replying(
            crate::message::get_blocks(unknown(hashes@, chain@.blocks.dom())),
        ),
{
    let mut wanted: Vec<H256> = Vec::new();
    let mut i: usize = 0;
    proof {
        assert(hashes@.take(0) =~= Seq::empty());
        lemma_of_nothing(chain@.blocks.dom());
    }
    while i < hashes.len()
        invariant
            i <= hashes@.len(),
            wanted@ == unknown(hashes@.take(i as int), chain@.blocks.dom()),
        decreases hashes@.len() - i,
    {
        proof {
            lemma_unknown_step(hashes@, chain@.blocks.dom(), i as int);
        }
        if !chain.contains(&hashes[i]) {
            wanted.push(hashes[i]);
        }
        i = i + 1;
    }
    assert(hashes@.take(hashes@.len() as int) =~= hashes@);
    let reply: Option<Message> = if wanted.len() > 0 {
        Some(Message::GetBlocks(wanted))
    } else {
        None
    };
    Outcome { reply, broadcast: None, notes: Vec::new() }
}

/// Blocks are wanted: the peer gets those that are known.
pub fn on_get_blocks(hashes: Vec<H256>, chain: &Blockchain) -> (outcome: Outcome)
    ensures
        outcome.deep_view() == crate::message::replying(
            crate::message::blocks(found_blocks(hashes@, chain@)),
        ),
{
    let mut found: Vec<Block> = Vec::new();
    let mut i: usize = 0;
    proof {
        assert(hashes@.take(0) =~= Seq::empty());
        lemma_of_nothing(chain@.blocks.dom());
        assert(found.deep_view() =~= found_blocks(hashes@.take(0), chain@));
    }
    while i < hashes.len()
        invariant
            i <= hashes@.len(),
            found.deep_view() == found_blocks(hashes@.take(i as int), chain@),
        decreases hashes@.len() - i,
    {
        let ghost before = found.deep_view();
        proof {
            lemma_recognised_step(hashes@, chain@.blocks.dom(), i as int);
        }
        match chain.get(&hashes[i]) {
            Some(block) => {
                found.push(block.clone());
                assert(found.deep_view() =~= before.push(block.deep_view()));
                assert(found.deep_view() =~= found_blocks(hashes@.take(i + 1), chain@));
            },
            None => {},
        }
        i = i + 1;
    }
    assert(hashes@.take(hashes@.len() as int) =~= hashes@);
    let reply: Option<Message> = if found.len() > 0 {
        Some(Message::Blocks(found))
    } else {
        None
    };
    Outcome { reply, broadcast: None, notes: Vec::new() }
}

} // verus!
