//! What stays and what may only grow while blocks join the chain.

use vstd::prelude::*;
use crate::block::BlockView;
use crate::blockchain::ChainView;
use crate::connect::{State, StatesView};
use crate::hash::H256;
use crate::ledger::Basis;
use crate::orphan::OrphansView;

verus! {

/// `after` is a chain that `before` can have grown into: every block is still
/// there, at its height, the difficulty is the same, and the longest branch is
/// at least as long.
pub open spec fn chain_grows(before: ChainView, after: ChainView) -> bool {
    &&& before.blocks.submap_of(after.blocks)
    &&& after.diff == before.diff
    &&& before.height_of(before.tail) <= after.height_of(after.tail)
    &&& after.blocks.contains_key(after.tail)
}

/// The chain grows, blocks that had a ledger have one, transfers leave the
/// pool but none joins it, and what was noted stays noted.
pub open spec fn grows(before: State, after: State) -> bool {
    &&& chain_grows(before.chain, after.chain)
    &&& before.states.dom().subset_of(after.states.dom())
    &&& after.pool.submap_of(before.pool)
    &&& before.notes.is_prefix_of(after.notes)
}

pub(crate) proof fn lemma_submap<K, V>(a: Map<K, V>, b: Map<K, V>, k: K)
    requires
        a.submap_of(b),
        a.contains_key(k),
    ensures
        b.contains_key(k),
        a[k] == b[k],
{
    assert(a.dom().contains(k) ==> b.dom().contains(k));
}

pub(crate) proof fn lemma_grows_refl(s: State)
    requires
        s.chain.blocks.contains_key(s.chain.tail),
    ensures
        grows(s, s),
{
}

pub(crate) proof fn lemma_grows_trans(a: State, b: State, c: State)
    requires
        grows(a, b),
        grows(b, c),
    ensures
        grows(a, c),
{
    assert forall|h: H256| #[trigger] a.chain.blocks.contains_key(h) implies
        c.chain.blocks.contains_key(h) && c.chain.blocks[h] == a.chain.blocks[h] by {
        lemma_submap(a.chain.blocks, b.chain.blocks, h);
        lemma_submap(b.chain.blocks, c.chain.blocks, h);
    }
    assert forall|h: H256| #[trigger] c.pool.contains_key(h) implies a.pool.contains_key(h)
        && a.pool[h] == c.pool[h] by {
        lemma_submap(c.pool, b.pool, h);
        lemma_submap(b.pool, a.pool, h);
    }
    assert forall|i: int| 0 <= i < a.notes.len() implies a.notes[i] == c.notes[i] by {
        assert(a.notes[i] == b.notes[i]);
        assert(b.notes[i] == c.notes[i]);
    }
    assert(a.notes =~= c.notes.take(a.notes.len() as int));
}

/// Putting a block on top of its parent only lets the state grow.
pub proof fn law_connecting_grows(s: State, block: BlockView, basis: Basis)
    requires
        s.chain.blocks.contains_key(s.chain.tail),
        crate::connect::connected(s, block, basis) is Some,
    ensures
        grows(s, crate::connect::connected(s, block, basis)->0),
{
    let t = crate::connect::connected(s, block, basis)->0;
    assert(s.notes.is_prefix_of(t.notes)) by {
        assert(s.notes =~= t.notes.take(s.notes.len() as int));
    }
}

/// Putting blocks on top of their parents only lets the state grow.
pub proof fn law_connecting_all_grows(s: State, blocks: Seq<BlockView>)
    requires
        s.chain.blocks.contains_key(s.chain.tail),
        crate::orphan::all_connected(s, blocks) is Some,
    ensures
        grows(s, crate::orphan::all_connected(s, blocks)->0),
    decreases blocks.len(),
{
    if blocks.len() > 0 {
        law_connecting_all_grows(s, blocks.drop_last());
        let before = crate::orphan::all_connected(s, blocks.drop_last())->0;
        law_connecting_grows(before, blocks.last(), Basis::Parent);
        lemma_grows_trans(s, before, crate::orphan::all_connected(s, blocks)->0);
    } else {
        lemma_grows_refl(s);
    }
}

/// Going through the waiting blocks only lets the state grow.
pub proof fn law_sweeping_grows(s: State, orphans: OrphansView, order: Seq<H256>)
    requires
        s.chain.blocks.contains_key(s.chain.tail),
        crate::orphan::swept(s, orphans, order) is Some,
    ensures
        grows(s, (crate::orphan::swept(s, orphans, order)->0).0),
    decreases order.len(),
{
    if order.len() > 0 {
        law_sweeping_grows(s, orphans, order.drop_last());
        let (before, left) = crate::orphan::swept(s, orphans, order.drop_last())->0;
        let key = order.last();
        if before.chain.blocks.contains_key(key) && left.contains_key(key) {
            law_connecting_all_grows(before, left[key]);
            lemma_grows_trans(s, before, crate::orphan::all_connected(before, left[key])->0);
        }
    } else {
        lemma_grows_refl(s);
    }
}

/// Going through the waiting blocks in any order takes whole lists out of the
/// buffer and leaves the others untouched. What waited for a block that was
/// known beforehand waits no longer, and whatever was taken out waited for a
/// block that is known afterwards.
pub proof fn law_sweeping_empties(
    s: State,
    orphans: OrphansView,
    order: Seq<H256>,
)
    requires
        s.chain.blocks.contains_key(s.chain.tail),
        crate::orphan::swept(s, orphans, order) is Some,
    ensures
        ({
            let (after, left) = crate::orphan::swept(s, orphans, order)->0;
            &&& left.submap_of(orphans)
            &&& forall|key: H256|
                order.contains(key) && s.chain.blocks.contains_key(key)
                    ==> !#[trigger] left.contains_key(key)
            &&& forall|key: H256| #[trigger]
                orphans.contains_key(key) && !left.contains_key(key)
                    ==> after.chain.blocks.contains_key(key)
        }),
    decreases order.len(),
{
    if order.len() > 0 {
        let first = order.drop_last();
        let key = order.last();
        law_sweeping_empties(s, orphans, first);
        law_sweeping_grows(s, orphans, first);
        let (before, rest) = crate::orphan::swept(s, orphans, first)->0;
        let (after, left) = crate::orphan::swept(s, orphans, order)->0;
        if before.chain.blocks.contains_key(key) && rest.contains_key(key) {
            law_connecting_all_grows(before, rest[key]);
        }
        assert forall|k: H256| #[trigger] left.contains_key(k) implies orphans.contains_key(k)
            && left[k] == orphans[k] by {
            lemma_submap(rest, orphans, k);
        }
        assert forall|k: H256| order.contains(k) && s.chain.blocks.contains_key(k) implies
            !#[trigger] left.contains_key(k) by {
            if k != key {
                let i = choose|i: int| 0 <= i < order.len() && order[i] == k;
                assert(first[i] == k);
                assert(first.contains(k));
                assert(!rest.contains_key(k));
            }
        }
        assert forall|k: H256| #[trigger]
            orphans.contains_key(k) && !left.contains_key(k) implies after.chain.blocks.contains_key(
            k,
        ) by {
            if rest.contains_key(k) {
                assert(k == key);
            } else {
                assert(before.chain.blocks.contains_key(k));
            }
            if before.chain.blocks.contains_key(key) && rest.contains_key(key) {
                lemma_submap(before.chain.blocks, after.chain.blocks, k);
            }
        }
    }
}

/// Where no waiting block's parent is known, going through them in any order
/// changes nothing.
pub proof fn law_sweeping_settles(s: State, orphans: OrphansView, order: Seq<H256>)
    requires
        forall|key: H256| #[trigger]
            orphans.contains_key(key) ==> !s.chain.blocks.contains_key(key),
    ensures
        crate::orphan::swept(s, orphans, order) == Some((s, orphans)),
    decreases order.len(),
{
    if order.len() > 0 {
        law_sweeping_settles(s, orphans, order.drop_last());
    }
}

/// An accepted block is known afterwards, has a ledger, and none of its
/// transfers waits.
pub proof fn law_accepted_joins(s: State, block: BlockView, basis: Basis)
    requires
        crate::connect::connected(s, block, basis) is Some,
        crate::connect::accepts(s.states, block),
    ensures
        ({
            let after = crate::connect::connected(s, block, basis)->0;
            &&& after.chain.blocks.contains_key(block.hash)
            &&& !s.chain.blocks.contains_key(block.hash) ==> after.chain.blocks[block.hash].0
                == block
            &&& Some(after.states[block.hash]) == crate::ledger::settled(
                s.states[block.parent_hash],
                block.content,
                basis,
            )
            &&& forall|i: int|
                0 <= i < block.content.len() ==> !after.pool.contains_key(
                    (#[trigger] block.content[i]).hash,
                )
        }),
{
    let after = crate::connect::connected(s, block, basis)->0;
    assert forall|i: int| 0 <= i < block.content.len() implies !after.pool.contains_key(
        (#[trigger] block.content[i]).hash,
    ) by {
        assert(crate::mempool::has_hash(block.content, block.content[i].hash));
    }
}

/// A block with a transfer that may not be paid changes nothing but the notes.
pub proof fn law_refused_leaves(s: State, block: BlockView, basis: Basis)
    requires
        crate::connect::connected(s, block, basis) is Some,
        !crate::connect::accepts(s.states, block),
    ensures
        ({
            let after = crate::connect::connected(s, block, basis)->0;
            after.chain == s.chain && after.states == s.states && after.pool == s.pool
        }),
{
}

/// Whether a block is accepted, what speaks against it and what ledger it
/// leaves rest on the ledger of its parent alone.
pub proof fn law_parent_decides(a: State, b: State, block: BlockView, basis: Basis)
    requires
        a.states.contains_key(block.parent_hash),
        b.states.contains_key(block.parent_hash),
        a.states[block.parent_hash] == b.states[block.parent_hash],
        crate::connect::connected(a, block, basis) is Some,
        crate::connect::connected(b, block, basis) is Some,
    ensures
        crate::connect::accepts(a.states, block) == crate::connect::accepts(b.states, block),
        crate::connect::accepts(a.states, block) ==> (crate::connect::connected(
            a,
            block,
            basis,
        )->0).states[block.hash] == (crate::connect::connected(b, block, basis)->0).states[block.hash],
{
}

/// When the blocks that wait for a known block are put on top of it, all that
/// are acceptable to the ledger of that block are known afterwards, and each
/// whose hash no other of them has left the ledger that its transfers make of
/// that one. (A block that is its own parent would replace that ledger.)
pub proof fn law_valid_children_join(s: State, key: H256, blocks: Seq<BlockView>, i: int)
    requires
        s.chain.blocks.contains_key(s.chain.tail),
        forall|j: int|
            0 <= j < blocks.len() ==> (#[trigger] blocks[j]).parent_hash == key && blocks[j].hash
                != key,
        crate::orphan::all_connected(s, blocks) is Some,
        0 <= i < blocks.len(),
        crate::connect::accepts(s.states, blocks[i]),
    ensures
        ({
            let after = crate::orphan::all_connected(s, blocks)->0;
            &&& after.chain.blocks.contains_key(blocks[i].hash)
            &&& after.states.contains_key(blocks[i].hash)
            &&& (forall|j: int|
                0 <= j < blocks.len() && j != i ==> (#[trigger] blocks[j]).hash != blocks[i].hash)
                ==> Some(after.states[blocks[i].hash]) == crate::ledger::settled(
                s.states[key],
                blocks[i].content,
                Basis::Parent,
            )
        }),
    decreases blocks.len(),
{
    let first = blocks.drop_last();
    let before = crate::orphan::all_connected(s, first)->0;
    assert forall|j: int| 0 <= j < first.len() implies (#[trigger] first[j]).parent_hash == key
        && first[j].hash != key by {
        assert(first[j] == blocks[j]);
    }
    law_connecting_all_grows(s, first);
    law_connecting_grows(before, blocks.last(), Basis::Parent);
    if i == blocks.len() - 1 {
        lemma_ledger_stays(s, key, first);
        law_accepted_joins(before, blocks.last(), Basis::Parent);
    } else {
        assert(first[i] == blocks[i]);
        law_valid_children_join(s, key, first, i);
        if forall|j: int|
            0 <= j < blocks.len() && j != i ==> (#[trigger] blocks[j]).hash != blocks[i].hash {
            assert forall|j: int| 0 <= j < first.len() && j != i implies (#[trigger] first[j]).hash
                != first[i].hash by {
                assert(first[j] == blocks[j]);
            }
            assert(blocks[blocks.len() - 1].hash != blocks[i].hash);
        }
    }
}

pub(crate) proof fn lemma_ledger_stays(s: State, key: H256, blocks: Seq<BlockView>)
    requires
        forall|j: int| 0 <= j < blocks.len() ==> (#[trigger] blocks[j]).hash != key,
        crate::orphan::all_connected(s, blocks) is Some,
    ensures
        (crate::orphan::all_connected(s, blocks)->0).states[key] == s.states[key],
    decreases blocks.len(),
{
    if blocks.len() > 0 {
        let first = blocks.drop_last();
        assert forall|j: int| 0 <= j < first.len() implies (#[trigger] first[j]).hash != key by {
            assert(first[j] == blocks[j]);
        }
        lemma_ledger_stays(s, key, first);
        assert(blocks[blocks.len() - 1].hash != key);
    }
}

/// A block that is set aside waits behind those that waited for the same
/// parent, and everything else waits as before.
pub proof fn law_orphan_waits(orphans: OrphansView, block: BlockView)
    ensures
        ({
            let after = crate::orphan::with_orphan(orphans, block);
            &&& after.contains_key(block.parent_hash)
            &&& after[block.parent_hash].last() == block
            &&& orphans.contains_key(block.parent_hash) ==> after[block.parent_hash].drop_last()
                == orphans[block.parent_hash]
            &&& after.remove(block.parent_hash) == orphans.remove(block.parent_hash)
        }),
{
    let after = crate::orphan::with_orphan(orphans, block);
    if orphans.contains_key(block.parent_hash) {
        assert(after[block.parent_hash].drop_last() =~= orphans[block.parent_hash]);
    }
    assert(after.remove(block.parent_hash) =~= orphans.remove(block.parent_hash));
}

/// None of the waiting blocks has the given hash.
pub open spec fn not_waiting(orphans: OrphansView, hash: H256) -> bool {
    forall|k: H256, j: int|
        orphans.contains_key(k) && 0 <= j < orphans[k].len() ==> (
        #[trigger] orphans[k][j]).hash != hash
}

/// No other waiting block has the hash of this one.
pub open spec fn alone(orphans: OrphansView, key: H256, i: int) -> bool {
    forall|k: H256, j: int|
        orphans.contains_key(k) && 0 <= j < orphans[k].len() && (k != key || j != i) ==> (
        #[trigger] orphans[k][j]).hash != orphans[key][i].hash
}

/// Going through other hashes leaves what waits for `key`, and the ledger of
/// the block `key`, as they are.
pub(crate) proof fn lemma_sweeping_others(
    s: State,
    orphans: OrphansView,
    order: Seq<H256>,
    key: H256,
)
    requires
        s.chain.blocks.contains_key(s.chain.tail),
        not_waiting(orphans, key),
        crate::orphan::swept(s, orphans, order) is Some,
    ensures
        ({
            let (after, left) = crate::orphan::swept(s, orphans, order)->0;
            &&& after.states[key] == s.states[key]
            &&& !order.contains(key) && orphans.contains_key(key) ==> left.contains_key(key)
        }),
    decreases order.len(),
{
    if order.len() > 0 {
        let first = order.drop_last();
        let k = order.last();
        lemma_sweeping_others(s, orphans, first, key);
        law_sweeping_empties(s, orphans, first);
        let (before, left) = crate::orphan::swept(s, orphans, first)->0;
        if before.chain.blocks.contains_key(k) && left.contains_key(k) {
            lemma_submap(left, orphans, k);
            assert forall|j: int| 0 <= j < left[k].len() implies (#[trigger] left[k][j]).hash
                != key by {
                assert(orphans[k][j] == left[k][j]);
            }
            lemma_ledger_stays(before, key, left[k]);
        }
        if !order.contains(key) {
            assert(order[order.len() - 1] == k);
            if first.contains(key) {
                let i = choose|i: int| 0 <= i < first.len() && first[i] == key;
                assert(order[i] == key);
            }
        }
    }
}

/// When the waiting blocks are gone through in any order, every child of a
/// known block that is acceptable to the ledger of that block is known
/// afterwards, and left the ledger that its transfers make of that one where
/// no other waiting block has its hash. (A waiting block with the hash of that
/// known block would replace the ledger.)
pub proof fn law_children_found(
    s: State,
    orphans: OrphansView,
    order: Seq<H256>,
    key: H256,
    i: int,
)
    requires
        s.chain.blocks.contains_key(s.chain.tail),
        crate::orphan::orphans_wf(orphans),
        not_waiting(orphans, key),
        crate::orphan::swept(s, orphans, order) is Some,
        order.contains(key),
        s.chain.blocks.contains_key(key),
        orphans.contains_key(key),
        0 <= i < orphans[key].len(),
        crate::connect::accepts(s.states, orphans[key][i]),
    ensures
        ({
            let after = (crate::orphan::swept(s, orphans, order)->0).0;
            &&& after.chain.blocks.contains_key(orphans[key][i].hash)
            &&& after.states.contains_key(orphans[key][i].hash)
            &&& alone(orphans, key, i) ==> Some(after.states[orphans[key][i].hash])
                == crate::ledger::settled(s.states[key], orphans[key][i].content, Basis::Parent)
        }),
    decreases order.len(),
{
    let first = order.drop_last();
    let k = order.last();
    let (before, left) = crate::orphan::swept(s, orphans, first)->0;
    law_sweeping_grows(s, orphans, first);
    law_sweeping_empties(s, orphans, first);
    if before.chain.blocks.contains_key(k) && left.contains_key(k) {
        law_connecting_all_grows(before, left[k]);
    }
    if first.contains(key) {
        law_children_found(s, orphans, first, key, i);
        if before.chain.blocks.contains_key(k) && left.contains_key(k) && alone(orphans, key, i) {
            assert(k != key);
            lemma_submap(left, orphans, k);
            assert forall|j: int| 0 <= j < left[k].len() implies (#[trigger] left[k][j]).hash
                != orphans[key][i].hash by {
                assert(orphans[k][j] == left[k][j]);
            }
            lemma_ledger_stays(before, orphans[key][i].hash, left[k]);
        }
    } else {
        let at = choose|j: int| 0 <= j < order.len() && order[j] == key;
        if at < first.len() {
            assert(first[at] == key);
        }
        assert(k == key);
        lemma_sweeping_others(s, orphans, first, key);
        let waiting = left[key];
        lemma_submap(left, orphans, key);
        assert forall|j: int| 0 <= j < waiting.len() implies (#[trigger] waiting[j]).parent_hash
            == key && waiting[j].hash != key by {
            assert(orphans[key][j] == waiting[j]);
        }
        if alone(orphans, key, i) {
            assert forall|j: int| 0 <= j < waiting.len() && j != i implies (
            #[trigger] waiting[j]).hash != waiting[i].hash by {
                assert(orphans[key][j] == waiting[j]);
            }
        }
        law_valid_children_join(before, key, waiting, i);
    }
}

/// Every known block left a ledger.
pub open spec fn covered(chain: ChainView, states: StatesView) -> bool {
    chain.blocks.dom().subset_of(states.dom())
}

/// Where every known block left a ledger, a block on top of a known one can be
/// judged and settled unless one of its transfers is not checkable, or all may
/// be paid and one cannot; and every known block has a ledger afterwards.
pub proof fn law_covered_connects(s: State, block: BlockView, basis: Basis)
    requires
        s.chain.blocks.contains_key(s.chain.tail),
        s.chain.blocks.contains_key(block.parent_hash),
        covered(s.chain, s.states),
    ensures
        ({
            let ledger = s.states[block.parent_hash];
            crate::connect::connected(s, block, basis) is Some <==> {
                &&& crate::ledger::all_checkable(ledger, block.content)
                &&& crate::connect::accepts(s.states, block) ==> crate::ledger::settled(
                    ledger,
                    block.content,
                    basis,
                ) is Some
            }
        }),
        crate::connect::connected(s, block, basis) matches Some(after) ==> covered(
            after.chain,
            after.states,
        ),
{
}

proof fn lemma_covered_all_connected(s: State, blocks: Seq<BlockView>)
    requires
        covered(s.chain, s.states),
        crate::orphan::all_connected(s, blocks) is Some,
    ensures
        ({
            let after = crate::orphan::all_connected(s, blocks)->0;
            covered(after.chain, after.states)
        }),
    decreases blocks.len(),
{
    if blocks.len() > 0 {
        lemma_covered_all_connected(s, blocks.drop_last());
    }
}

/// Going through the waiting blocks leaves every known block with a ledger.
pub proof fn law_sweeping_covers(s: State, orphans: OrphansView, order: Seq<H256>)
    requires
        covered(s.chain, s.states),
        crate::orphan::swept(s, orphans, order) is Some,
    ensures
        ({
            let after = (crate::orphan::swept(s, orphans, order)->0).0;
            covered(after.chain, after.states)
        }),
    decreases order.len(),
{
    if order.len() > 0 {
        law_sweeping_covers(s, orphans, order.drop_last());
        let (before, left) = crate::orphan::swept(s, orphans, order.drop_last())->0;
        let key = order.last();
        if before.chain.blocks.contains_key(key) && left.contains_key(key) {
            lemma_covered_all_connected(before, left[key]);
        }
    }
}

} // verus!
