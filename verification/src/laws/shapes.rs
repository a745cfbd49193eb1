//! What numbers, addresses, branches and views are.

use vstd::prelude::*;
use crate::block::{Block, BlockView};
use crate::blockchain::{Blockchain, ChainView};
use crate::connect::BlockStates;
use crate::hash::H256;
use crate::mempool::{PoolView, TxMempool};
use crate::note::Note;
use crate::transaction::TransactionView;

verus! {

/// Two different byte strings of one length differ at a first place.
proof fn lemma_first_difference(a: Seq<u8>, b: Seq<u8>) -> (at: int)
    requires
        a.len() == b.len(),
        a != b,
    ensures
        0 <= at < a.len(),
        a.take(at) == b.take(at),
        a[at] != b[at],
    decreases a.len(),
{
    if a.len() == 0 {
        assert(a =~= b);
        0
    } else if a.drop_last() == b.drop_last() {
        assert(a =~= a.drop_last().push(a.last()));
        assert(b =~= b.drop_last().push(b.last()));
        assert(a.take(a.len() - 1) =~= a.drop_last());
        assert(b.take(a.len() - 1) =~= b.drop_last());
        a.len() - 1
    } else {
        let at = lemma_first_difference(a.drop_last(), b.drop_last());
        assert(a.drop_last().take(at) =~= a.take(at));
        assert(b.drop_last().take(at) =~= b.take(at));
        at
    }
}

/// Byte strings of one length compare as numbers as they do byte by byte, from
/// the front: the first place where they differ decides.
pub proof fn law_value_orders(a: Seq<u8>, b: Seq<u8>)
    requires
        a.len() == b.len(),
    ensures
        crate::hash::be_value(a) <= crate::hash::be_value(b) <==> a == b || exists|at: int|
            0 <= at < a.len() && a.take(at) == b.take(at) && #[trigger] a[at] < #[trigger] b[at],
        crate::hash::be_value(a) == crate::hash::be_value(b) <==> a == b,
{
    if a != b {
        let at = lemma_first_difference(a, b);
        if a[at] < b[at] {
            crate::hash::lemma_first_difference_decides(a, b, at);
        } else {
            crate::hash::lemma_first_difference_decides(b, a, at);
            if exists|i: int|
                0 <= i < a.len() && a.take(i) == b.take(i) && #[trigger] a[i] < #[trigger] b[i] {
                let i = choose|i: int|
                    0 <= i < a.len() && a.take(i) == b.take(i) && #[trigger] a[i]
                        < #[trigger] b[i];
                crate::hash::lemma_first_difference_decides(a, b, i);
            }
        }
    }
}

/// Hashes compare as numbers as their bytes do from the front.
pub proof fn law_hash_orders(a: H256, b: H256)
    ensures
        a.value() <= b.value() <==> a.bytes@ == b.bytes@ || exists|at: int|
            0 <= at < 32 && a.bytes@.take(at) == b.bytes@.take(at) && #[trigger] a.bytes@[at]
                < #[trigger] b.bytes@[at],
{
    law_value_orders(a.bytes@, b.bytes@);
}

/// The paying account of a transfer is named by the last 20 of the 32 bytes of
/// the digest of its public key.
pub proof fn law_owner_bytes(tx: TransactionView, i: int)
    requires
        tx.wf(),
        0 <= i < 20,
    ensures
        crate::hash::sha256_digest(tx.public_key).len() == 32 ==> tx.owner.bytes@[i]
            == crate::hash::sha256_digest(tx.public_key)[i + 12],
{
}

/// A branch leads from a block of height 0 over parents to its tip, one step
/// up each time.
pub proof fn law_branch_climbs(chain: ChainView, tip: H256)
    requires
        chain.wf(),
        chain.blocks.contains_key(tip),
    ensures
        ({
            let branch = chain.branch(tip);
            &&& branch.len() == chain.blocks[tip].1 + 1
            &&& branch.last() == tip
            &&& forall|i: int|
                0 <= i < branch.len() ==> {
                    &&& chain.blocks.contains_key(#[trigger] branch[i])
                    &&& chain.blocks[branch[i]].1 == i
                }
            &&& forall|i: int|
                0 < i < branch.len() ==> chain.blocks[#[trigger] branch[i]].0.parent_hash
                    == branch[i - 1]
        }),
    decreases chain.blocks[tip].1,
{
    chain.lemma_branch(tip);
    if chain.blocks[tip].1 > 0 {
        let parent = chain.blocks[tip].0.parent_hash;
        law_branch_climbs(chain, parent);
        assert(chain.branch(tip) == chain.branch(parent).push(tip));
    }
}

/// No known block stands higher than the one in which the longest branch ends,
/// every block is known under its own hash, and below every one that is not
/// at height 0 stands its parent.
pub proof fn law_longest_branch(chain: ChainView, h: H256)
    requires
        chain.wf(),
        chain.blocks.contains_key(h),
    ensures
        chain.blocks.contains_key(chain.tail),
        chain.blocks[h].1 <= chain.blocks[chain.tail].1,
        chain.blocks[h].0.hash == h,
        chain.blocks[h].1 > 0 ==> {
            &&& chain.blocks.contains_key(chain.blocks[h].0.parent_hash)
            &&& chain.blocks[chain.blocks[h].0.parent_hash].1 + 1 == chain.blocks[h].1
        },
{
}

/// A block that joins a chain stands one above its parent, moves the end of
/// the longest branch where it made that longer, and changes nothing else; one
/// whose hash is known changes nothing.
pub proof fn law_insertion(chain: ChainView, block: BlockView)
    requires
        chain.blocks[block.parent_hash].1 < usize::MAX,
    ensures
        ({
            let after = chain.with(block);
            let height = chain.blocks[block.parent_hash].1 + 1;
            &&& after.diff == chain.diff
            &&& chain.blocks.contains_key(block.hash) ==> after == chain
            &&& !chain.blocks.contains_key(block.hash) ==> {
                &&& after.blocks == chain.blocks.insert(block.hash, (block, height as usize))
                &&& after.tail == if height > chain.blocks[chain.tail].1 {
                    block.hash
                } else {
                    chain.tail
                }
            }
        }),
{
}

/// Taking transfers out of the pool takes out what waits under their hashes,
/// and nothing else.
pub proof fn law_removal(pool: PoolView, txs: Seq<TransactionView>, h: H256)
    ensures
        ({
            let after = crate::mempool::without(pool, txs);
            &&& after.contains_key(h) <==> pool.contains_key(h) && forall|i: int|
                0 <= i < txs.len() ==> (#[trigger] txs[i]).hash != h
            &&& after.contains_key(h) ==> after[h] == pool[h]
        }),
{
    assert(crate::mempool::without(pool, txs).contains_key(h) <==> pool.contains_key(h)
        && !crate::mempool::has_hash(txs, h));
}

/// A walk over a set names each of its elements once and nothing else.
pub proof fn law_walk<K>(keys: Seq<K>, dom: Set<K>)
    ensures
        crate::table::is_walk(keys, dom) <==> keys.no_duplicates() && forall|k: K|
            #[trigger] keys.contains(k) <==> dom.contains(k),
{
    if crate::table::is_walk(keys, dom) {
        assert forall|k: K| #[trigger] keys.contains(k) <==> dom.contains(k) by {
            assert(keys.contains(k) <==> keys.to_set().contains(k));
        }
    }
    if keys.no_duplicates() && forall|k: K| #[trigger] keys.contains(k) <==> dom.contains(k) {
        assert(keys.to_set() =~= dom);
    }
}

/// What is seen of a block is all of it.
pub proof fn law_block_is_seen(block: Block)
    ensures
        block.deep_view().hash == block.hash,
        block.deep_view().parent_hash == block.head.parent_hash,
        block.deep_view().difficulty == block.head.difficulty,
        block.deep_view().rest == block.head.rest@,
        block.deep_view().content.len() == block.content.content@.len(),
        forall|i: int|
            0 <= i < block.content.content@.len() ==> #[trigger] block.deep_view().content[i]
                == block.content.content@[i].deep_view(),
{
}

/// What is seen of the chain, the ledgers, the pool and the notes together is
/// what is seen of each.
pub proof fn law_state_is_seen(
    chain: &Blockchain,
    states: &BlockStates,
    pool: &TxMempool,
    notes: &Vec<Note>,
)
    ensures
        ({
            let s = crate::connect::gather(chain, states, pool, notes);
            s.chain == chain@ && s.states == states@ && s.pool == pool@ && s.notes == notes@
        }),
        ({
            let s = crate::connect::unnoted(chain, states, pool);
            s.chain == chain@ && s.states == states@ && s.pool == pool@ && s.notes.len() == 0
        }),
{
}

} // verus!
