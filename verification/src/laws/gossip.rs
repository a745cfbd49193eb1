//! How what one node says fits what another one asks.

use vstd::prelude::*;
use crate::blockchain::ChainView;
use crate::hash::{H160, H256};
use crate::ledger::LedgerView;
use crate::mempool::PoolView;
use crate::message::{MessageView, OutcomeView};
use crate::transaction::TransactionView;
use crate::worker::Node;

verus! {

/// What is asked for and what is recognised part the hashes in two.
pub proof fn law_unknown_or_recognised(hashes: Seq<H256>, known: Set<H256>, h: H256)
    requires
        hashes.contains(h),
    ensures
        crate::inventory::unknown(hashes, known).contains(h) <==> !known.contains(h),
        crate::inventory::recognised(hashes, known).contains(h) <==> known.contains(h),
{
    broadcast use vstd::seq_lib::group_filter_ensures;

    let i = choose|i: int| 0 <= i < hashes.len() && hashes[i] == h;
    let lacking = |x: H256| !known.contains(x);
    let there = |x: H256| known.contains(x);
    assert(crate::inventory::unknown(hashes, known) == hashes.filter(lacking));
    assert(crate::inventory::recognised(hashes, known) == hashes.filter(there));
    if known.contains(h) {
        assert(there(hashes[i]));
        assert(hashes.filter(there).contains(hashes[i]));
    } else {
        assert(lacking(hashes[i]));
        assert(hashes.filter(lacking).contains(hashes[i]));
    }
}

proof fn lemma_unknown_empty(hashes: Seq<H256>, known: Set<H256>)
    requires
        forall|i: int| 0 <= i < hashes.len() ==> known.contains(#[trigger] hashes[i]),
    ensures
        crate::inventory::unknown(hashes, known) == Seq::<H256>::empty(),
    decreases hashes.len(),
{
    reveal(Seq::filter);
    if hashes.len() > 0 {
        let first = hashes.drop_last();
        assert forall|i: int| 0 <= i < first.len() implies known.contains(#[trigger] first[i]) by {
            assert(first[i] == hashes[i]);
        }
        lemma_unknown_empty(first, known);
        assert(known.contains(hashes[hashes.len() - 1]));
    }
}

/// A node to which only blocks are announced that it knows says nothing.
pub proof fn law_known_blocks_silence(
    pre: Node,
    hashes: Seq<H256>,
    post: Node,
    outcome: OutcomeView,
)
    requires
        forall|i: int|
            0 <= i < hashes.len() ==> pre.chain.blocks.contains_key(#[trigger] hashes[i]),
        crate::worker::handled(pre, MessageView::NewBlockHashes(hashes), post, outcome),
    ensures
        post == pre,
        outcome == crate::message::silence(),
{
    lemma_unknown_empty(hashes, pre.chain.blocks.dom());
}

/// A node to which only transfers are announced that wait there says nothing.
pub proof fn law_known_transactions_silence(
    pre: Node,
    hashes: Seq<H256>,
    post: Node,
    outcome: OutcomeView,
)
    requires
        forall|i: int| 0 <= i < hashes.len() ==> pre.pool.contains_key(#[trigger] hashes[i]),
        crate::worker::handled(pre, MessageView::NewTransactionHashes(hashes), post, outcome),
    ensures
        post == pre,
        outcome == crate::message::silence(),
{
    lemma_unknown_empty(hashes, pre.pool.dom());
}

proof fn lemma_recognised_all(hashes: Seq<H256>, known: Set<H256>)
    requires
        forall|i: int| 0 <= i < hashes.len() ==> known.contains(#[trigger] hashes[i]),
    ensures
        crate::inventory::recognised(hashes, known) == hashes,
    decreases hashes.len(),
{
    reveal(Seq::filter);
    if hashes.len() > 0 {
        let first = hashes.drop_last();
        assert forall|i: int| 0 <= i < first.len() implies known.contains(#[trigger] first[i]) by {
            assert(first[i] == hashes[i]);
        }
        lemma_recognised_all(first, known);
        assert(known.contains(hashes[hashes.len() - 1]));
        assert(first.push(hashes.last()) =~= hashes);
    }
}

proof fn lemma_unknown_among(hashes: Seq<H256>, known: Set<H256>, there: Set<H256>)
    requires
        forall|i: int| 0 <= i < hashes.len() ==> there.contains(#[trigger] hashes[i]),
    ensures
        forall|i: int|
            0 <= i < crate::inventory::unknown(hashes, known).len() ==> there.contains(
                #[trigger] crate::inventory::unknown(hashes, known)[i],
            ),
    decreases hashes.len(),
{
    reveal(Seq::filter);
    if hashes.len() > 0 {
        let first = hashes.drop_last();
        assert forall|i: int| 0 <= i < first.len() implies there.contains(#[trigger] first[i]) by {
            assert(first[i] == hashes[i]);
        }
        lemma_unknown_among(first, known, there);
        assert(there.contains(hashes[hashes.len() - 1]));
        let before = crate::inventory::unknown(first, known);
        let after = crate::inventory::unknown(hashes, known);
        assert forall|i: int| 0 <= i < after.len() implies there.contains(#[trigger] after[i]) by {
            if i < before.len() {
                assert(after[i] == before[i]);
            }
        }
    }
}

/// A node that announced blocks it knows answers the request that comes back
/// with just the blocks that the other node lacks, in the announced order.
pub proof fn law_blocks_answered(holder: ChainView, asker: ChainView, hashes: Seq<H256>)
    requires
        forall|i: int| 0 <= i < hashes.len() ==> holder.blocks.contains_key(#[trigger] hashes[i]),
    ensures
        crate::inventory::found_blocks(
            crate::inventory::unknown(hashes, asker.blocks.dom()),
            holder,
        ) == crate::inventory::unknown(hashes, asker.blocks.dom()).map_values(
            |h: H256| holder.blocks[h].0,
        ),
{
    lemma_unknown_among(hashes, asker.blocks.dom(), holder.blocks.dom());
    lemma_recognised_all(
        crate::inventory::unknown(hashes, asker.blocks.dom()),
        holder.blocks.dom(),
    );
}

/// A node that announced transfers that wait there answers the request that
/// comes back with just the transfers that the other node lacks, in the
/// announced order.
pub proof fn law_transactions_answered(holder: PoolView, asker: PoolView, hashes: Seq<H256>)
    requires
        forall|i: int| 0 <= i < hashes.len() ==> holder.contains_key(#[trigger] hashes[i]),
    ensures
        crate::inventory::found_transactions(
            crate::inventory::unknown(hashes, asker.dom()),
            holder,
        ) == crate::inventory::unknown(hashes, asker.dom()).map_values(|h: H256| holder[h]),
{
    lemma_unknown_among(hashes, asker.dom(), holder.dom());
    lemma_recognised_all(crate::inventory::unknown(hashes, asker.dom()), holder.dom());
}

proof fn lemma_pooled(pool: PoolView, ledger: LedgerView, txs: Seq<TransactionView>)
    ensures
        pool.dom().subset_of(crate::intake::pooled(pool, ledger, txs).dom()),
        forall|h: H256| #[trigger]
            crate::intake::pooled(pool, ledger, txs).contains_key(h) ==> {
                ||| pool.contains_key(h) && crate::intake::pooled(pool, ledger, txs)[h] == pool[h]
                ||| exists|j: int|
                    0 <= j < txs.len() && (#[trigger] txs[j]).hash == h && crate::intake::admits(
                        ledger,
                        txs[j],
                    ) && crate::intake::pooled(pool, ledger, txs)[h] == txs[j]
            },
        forall|i: int|
            0 <= i < txs.len() && crate::intake::admits(ledger, #[trigger] txs[i])
                ==> crate::intake::pooled(pool, ledger, txs).contains_key(txs[i].hash),
        forall|i: int|
            0 <= i < txs.len() && crate::intake::admits(ledger, #[trigger] txs[i]) ==> exists|
                j: int,
            |
                0 <= j < txs.len() && (#[trigger] txs[j]).hash == txs[i].hash
                    && crate::intake::admits(ledger, txs[j]) && crate::intake::pooled(
                    pool,
                    ledger,
                    txs,
                )[txs[i].hash] == txs[j],
    decreases txs.len(),
{
    if txs.len() > 0 {
        let first = txs.drop_last();
        let last = txs.last();
        let n = txs.len() - 1;
        let before = crate::intake::pooled(pool, ledger, first);
        let after = crate::intake::pooled(pool, ledger, txs);
        lemma_pooled(pool, ledger, first);
        assert(txs[n] == last);
        assert forall|h: H256| #[trigger] after.contains_key(h) implies {
            ||| pool.contains_key(h) && after[h] == pool[h]
            ||| exists|j: int|
                0 <= j < txs.len() && (#[trigger] txs[j]).hash == h && crate::intake::admits(
                    ledger,
                    txs[j],
                ) && after[h] == txs[j]
        } by {
            if !(crate::intake::admits(ledger, last) && last.hash == h) {
                assert(before.contains_key(h));
                if !(pool.contains_key(h) && before[h] == pool[h]) {
                    let j = choose|j: int|
                        0 <= j < first.len() && (#[trigger] first[j]).hash == h
                            && crate::intake::admits(ledger, first[j]) && before[h] == first[j];
                    assert(txs[j] == first[j]);
                }
            }
        }
        assert forall|i: int|
            0 <= i < txs.len() && crate::intake::admits(ledger, #[trigger] txs[i]) implies
            after.contains_key(txs[i].hash) by {
            if i < n {
                assert(first[i] == txs[i]);
            }
        }
        assert forall|i: int|
            0 <= i < txs.len() && crate::intake::admits(
                ledger,
                #[trigger] txs[i],
            ) implies exists|j: int|
            0 <= j < txs.len() && (#[trigger] txs[j]).hash == txs[i].hash && crate::intake::admits(
                ledger,
                txs[j],
            ) && after[txs[i].hash] == txs[j] by {
            if crate::intake::admits(ledger, last) && last.hash == txs[i].hash {
                assert(after[txs[i].hash] == txs[n]);
            } else {
                assert(first[i] == txs[i]);
                let j = choose|j: int|
                    0 <= j < first.len() && (#[trigger] first[j]).hash == first[i].hash
                        && crate::intake::admits(ledger, first[j]) && before[first[i].hash]
                        == first[j];
                assert(txs[j] == first[j]);
            }
        }
    }
}

/// A transfer that came in and may be paid can be had afterwards under its
/// hash: what is handed out is a transfer of the same message with that hash
/// that may be paid.
pub proof fn law_admitted_can_be_had(
    pre: Node,
    txs: Seq<TransactionView>,
    post: Node,
    outcome: OutcomeView,
    i: int,
)
    requires
        crate::worker::handled(pre, MessageView::Transactions(txs), post, outcome),
        0 <= i < txs.len(),
        crate::intake::admits(pre.states[pre.chain.tail], txs[i]),
    ensures
        exists|j: int|
            {
                &&& 0 <= j < txs.len()
                &&& (#[trigger] txs[j]).hash == txs[i].hash
                &&& crate::intake::admits(pre.states[pre.chain.tail], txs[j])
                &&& crate::inventory::found_transactions(seq![txs[i].hash], post.pool)
                    == seq![txs[j]]
            },
{
    let ledger = pre.states[pre.chain.tail];
    let h = txs[i].hash;
    lemma_pooled(pre.pool, ledger, txs);
    let j = choose|j: int|
        0 <= j < txs.len() && (#[trigger] txs[j]).hash == h && crate::intake::admits(ledger, txs[j])
            && post.pool[h] == txs[j];
    assert(seq![h][0] == h);
    lemma_recognised_all(seq![h], post.pool.dom());
    assert(crate::inventory::found_transactions(seq![h], post.pool) =~= seq![txs[j]]);
}

/// Nothing joins the pool but transfers that may be paid out of the ledger in
/// which the longest branch ends, whatever message comes in.
pub proof fn law_pool_admits(pre: Node, msg: MessageView, post: Node, outcome: OutcomeView, h: H256)
    requires
        pre.wf(),
        crate::worker::handled(pre, msg, post, outcome),
        post.pool.contains_key(h),
    ensures
        pre.pool.contains_key(h) && pre.pool[h] == post.pool[h]
            || crate::intake::admits(pre.states[pre.chain.tail], post.pool[h]),
{
    if let MessageView::Transactions(txs) = msg {
        lemma_pooled(pre.pool, pre.states[pre.chain.tail], txs);
    }
    if let MessageView::Blocks(blocks) = msg {
        crate::laws::node::lemma_blocks_shrink_pool(pre, blocks, post, outcome);
    }
}

/// A block that the chain holds can be had under its hash.
pub proof fn law_known_block_can_be_had(pre: Node, h: H256, post: Node, outcome: OutcomeView)
    requires
        pre.chain.blocks.contains_key(h),
        crate::worker::handled(pre, MessageView::GetBlocks(seq![h]), post, outcome),
    ensures
        outcome == crate::message::replying(
            Some(MessageView::Blocks(seq![pre.chain.blocks[h].0])),
        ),
{
    assert(seq![h][0] == h);
    lemma_recognised_all(seq![h], pre.chain.blocks.dom());
    assert(crate::inventory::found_blocks(seq![h], pre.chain) =~= seq![pre.chain.blocks[h].0]);
}

/// Accounts that are made known a second time are not passed on again, and
/// change nothing.
pub proof fn law_ack_settles(ledger: LedgerView, peers: Seq<H160>)
    ensures
        crate::peers::newcomers(crate::peers::introduced(ledger, peers), peers)
            == Seq::<H160>::empty(),
        crate::peers::introduced(crate::peers::introduced(ledger, peers), peers)
            == crate::peers::introduced(ledger, peers),
{
    let after = crate::peers::introduced(ledger, peers);
    crate::peers::lemma_newcomers(after, peers);
    let fresh = crate::peers::newcomers(after, peers);
    if fresh.len() > 0 {
        assert(fresh.contains(fresh[0]));
    }
    assert(fresh =~= Seq::<H160>::empty());
    assert(crate::peers::introduced(after, peers) =~= after);
}

/// It makes no difference whether accounts are made known in one message or
/// in two.
pub proof fn law_acks_add_up(ledger: LedgerView, first: Seq<H160>, second: Seq<H160>)
    ensures
        crate::peers::introduced(crate::peers::introduced(ledger, first), second)
            == crate::peers::introduced(ledger, first + second),
{
    assert forall|a: H160| (first + second).contains(a) <==> first.contains(a) || second.contains(
        a,
    ) by {
        if first.contains(a) {
            let i = choose|i: int| 0 <= i < first.len() && first[i] == a;
            assert((first + second)[i] == a);
        }
        if second.contains(a) {
            let i = choose|i: int| 0 <= i < second.len() && second[i] == a;
            assert((first + second)[first.len() + i] == a);
        }
    }
    assert(crate::peers::introduced(crate::peers::introduced(ledger, first), second)
        =~= crate::peers::introduced(ledger, first + second));
}

} // verus!
