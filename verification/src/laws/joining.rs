//! How blocks join the chain, one by one and out of the buffer.

use vstd::prelude::*;
use crate::block::BlockView;
use crate::connect::State;
use crate::hash::{H160, H256};
use crate::ledger::Basis;
use crate::note::Note;
use crate::orphan::OrphansView;

verus! {

/// A block can be put on top of its parent just where the parent left a ledger
/// in which every owner has an account and, if all of its transfers may be
/// paid, they go through and the block in which the longest branch then ends
/// has a ledger.
pub proof fn law_connectable(s: State, block: BlockView, basis: Basis)
    requires
        s.chain.blocks.contains_key(block.parent_hash),
        s.chain.height_of(block.parent_hash) < usize::MAX,
    ensures
        crate::connect::connected(s, block, basis) is Some <==> {
            let ledger = s.states[block.parent_hash];
            let moves = !s.chain.blocks.contains_key(block.hash) && s.chain.height_of(
                block.parent_hash,
            ) + 1 > s.chain.height_of(s.chain.tail);
            &&& s.states.contains_key(block.parent_hash)
            &&& forall|i: int|
                0 <= i < block.content.len() ==> ledger.contains_key(
                    (#[trigger] block.content[i]).owner,
                )
            &&& (forall|i: int|
                0 <= i < block.content.len() ==> {
                    &&& (#[trigger] block.content[i]).verified
                    &&& ledger[block.content[i].owner].1 >= block.content[i].transaction.value
                    &&& ledger[block.content[i].owner].0 + 1 == block.content[i].transaction.nonce
                }) ==> {
                &&& basis == Basis::Running ==> forall|n: int|
                    0 <= n < block.content.len() ==> #[trigger] crate::laws::accounts::runs(
                        ledger,
                        block.content,
                        n,
                    )
                &&& basis == Basis::Parent ==> forall|n: int|
                    0 <= n < block.content.len() ==> #[trigger] crate::laws::accounts::stands(
                        ledger,
                        block.content,
                        n,
                    )
                &&& moves || s.chain.tail == block.hash || s.states.contains_key(s.chain.tail)
            }
        },
{
    let ledger = s.states[block.parent_hash];
    crate::laws::accounts::law_all_payable(ledger, block.content);
    crate::laws::accounts::law_running_settles(ledger, block.content);
    crate::laws::accounts::law_parent_settles(ledger, block.content);
    assert(crate::connect::accepts(s.states, block) == crate::ledger::all_admissible(
        ledger,
        block.content,
    ));
}

/// A block with a transfer that has no valid signature, exceeds its owner's
/// balance or has not the next nonce changes nothing; what speaks against its
/// transfers is noted, and that is at least one thing.
pub proof fn law_bad_block_leaves(s: State, block: BlockView, basis: Basis, i: int)
    requires
        crate::connect::connected(s, block, basis) is Some,
        0 <= i < block.content.len(),
        ({
            let ledger = s.states[block.parent_hash];
            ||| !block.content[i].verified
            ||| ledger[block.content[i].owner].1 < block.content[i].transaction.value
            ||| ledger[block.content[i].owner].0 + 1 != block.content[i].transaction.nonce
        }),
    ensures
        ({
            let after = crate::connect::connected(s, block, basis)->0;
            let ledger = s.states[block.parent_hash];
            &&& after.chain == s.chain
            &&& after.states == s.states
            &&& after.pool == s.pool
            &&& after.notes == s.notes + crate::ledger::all_complaints(ledger, block.content)
            &&& after.notes.len() > s.notes.len()
        }),
{
    let ledger = s.states[block.parent_hash];
    crate::laws::accounts::law_all_payable(ledger, block.content);
    crate::laws::accounts::law_refusal_is_noted(ledger, block.content);
}

/// A block whose transfers have valid signatures, do not exceed their owners'
/// balances and have the next nonces joins: it stands one above its parent,
/// the longest branch ends in it where that made it longer, its transfers wait
/// no longer and everything else does, and just that is noted.
pub proof fn law_good_block_stands(s: State, block: BlockView, basis: Basis)
    requires
        s.chain.height_of(block.parent_hash) < usize::MAX,
        crate::connect::connected(s, block, basis) is Some,
        ({
            let ledger = s.states[block.parent_hash];
            forall|i: int|
                0 <= i < block.content.len() ==> {
                    &&& (#[trigger] block.content[i]).verified
                    &&& ledger[block.content[i].owner].1 >= block.content[i].transaction.value
                    &&& ledger[block.content[i].owner].0 + 1 == block.content[i].transaction.nonce
                }
        }),
    ensures
        ({
            let after = crate::connect::connected(s, block, basis)->0;
            let height = s.chain.height_of(block.parent_hash) + 1;
            &&& after.chain.diff == s.chain.diff
            &&& s.chain.blocks.contains_key(block.hash) ==> after.chain == s.chain
            &&& !s.chain.blocks.contains_key(block.hash) ==> {
                &&& after.chain.blocks == s.chain.blocks.insert(
                    block.hash,
                    (block, height as usize),
                )
                &&& after.chain.tail == if height > s.chain.height_of(s.chain.tail) {
                    block.hash
                } else {
                    s.chain.tail
                }
            }
            &&& after.states.dom() == s.states.dom().insert(block.hash)
            &&& forall|h: H256| h != block.hash ==> #[trigger] after.states[h] == s.states[h]
            &&& forall|h: H256| #[trigger]
                after.pool.contains_key(h) <==> s.pool.contains_key(h) && forall|i: int|
                    0 <= i < block.content.len() ==> (#[trigger] block.content[i]).hash != h
            &&& forall|h: H256| #[trigger]
                after.pool.contains_key(h) ==> after.pool[h] == s.pool[h]
            &&& after.notes == s.notes.push(
                Note::BlockConnected {
                    tail: after.chain.tail,
                    height: after.chain.blocks[after.chain.tail].1,
                },
            )
        }),
{
    let ledger = s.states[block.parent_hash];
    let after = crate::connect::connected(s, block, basis)->0;
    crate::laws::accounts::law_all_payable(ledger, block.content);
    crate::laws::accounts::law_refusal_is_noted(ledger, block.content);
    assert(s.notes + Seq::<Note>::empty() =~= s.notes);
    assert(crate::ledger::all_complaints(ledger, block.content) =~= Seq::empty());
    assert(after.states.dom() =~= s.states.dom().insert(block.hash));
    assert forall|h: H256| #[trigger]
        after.pool.contains_key(h) <==> s.pool.contains_key(h) && forall|i: int|
            0 <= i < block.content.len() ==> (#[trigger] block.content[i]).hash != h by {
        assert(after.pool.contains_key(h) <==> s.pool.contains_key(h)
            && !crate::mempool::has_hash(block.content, h));
    }
}

/// The ledger that a joining block leaves has the accounts of its parent's.
/// On running balances every account has what it had, less all that it pays in
/// the block, plus all that it is paid; on the balances of the parent an
/// account that pays has what it had, less its last payment, plus all that it
/// is paid from then on.
pub proof fn law_good_block_pays(s: State, block: BlockView, basis: Basis, a: H160)
    requires
        crate::connect::connected(s, block, basis) is Some,
        s.states[block.parent_hash].contains_key(a),
        ({
            let ledger = s.states[block.parent_hash];
            forall|i: int|
                0 <= i < block.content.len() ==> {
                    &&& (#[trigger] block.content[i]).verified
                    &&& ledger[block.content[i].owner].1 >= block.content[i].transaction.value
                    &&& ledger[block.content[i].owner].0 + 1 == block.content[i].transaction.nonce
                }
        }),
    ensures
        ({
            let before = s.states[block.parent_hash];
            let after = (crate::connect::connected(s, block, basis)->0).states[block.hash];
            let last = crate::laws::accounts::last_payment(block.content, a);
            &&& after.dom() == before.dom()
            &&& basis == Basis::Running ==> after[a].1 == before[a].1
                - crate::laws::accounts::spent(block.content, a)
                + crate::laws::accounts::earned(block.content, a)
            &&& basis == Basis::Parent ==> after[a].1 == if last < 0 {
                before[a].1 + crate::laws::accounts::earned(block.content, a)
            } else {
                before[a].1 - block.content[last].transaction.value
                    + crate::laws::accounts::earned(block.content.skip(last), a)
            }
            &&& after[a].0 == if exists|i: int|
                0 <= i < block.content.len() && (#[trigger] block.content[i]).owner == a {
                before[a].0 + 1
            } else {
                before[a].0 as int
            }
        }),
{
    let ledger = s.states[block.parent_hash];
    crate::laws::accounts::law_all_payable(ledger, block.content);
    crate::laws::money::law_accounts_stay(ledger, block.content, basis);
    crate::laws::money::law_nonces_count(ledger, block.content, basis, a);
    if basis == Basis::Running {
        crate::laws::accounts::law_running_balances(ledger, block.content, a);
    } else {
        crate::laws::accounts::law_parent_balances(ledger, block.content, a);
    }
}

/// Putting two lists of blocks on top of their parents is putting on the first
/// and then the second, and a list of one block is that block, paid out of the
/// balances that its parent left.
pub proof fn law_connecting_composes(
    s: State,
    a: Seq<BlockView>,
    b: Seq<BlockView>,
    block: BlockView,
)
    ensures
        crate::orphan::all_connected(s, Seq::empty()) == Some(s),
        crate::orphan::all_connected(s, seq![block]) == crate::connect::connected(
            s,
            block,
            Basis::Parent,
        ),
        crate::orphan::all_connected(s, a + b) == match crate::orphan::all_connected(s, a) {
            Some(between) => crate::orphan::all_connected(between, b),
            None => None,
        },
    decreases b.len(),
{
    reveal_with_fuel(crate::orphan::all_connected, 2);
    assert(seq![block].drop_last() =~= Seq::empty());
    if b.len() == 0 {
        assert(a + b =~= a);
    } else {
        law_connecting_composes(s, a, b.drop_last(), block);
        assert((a + b).drop_last() =~= a + b.drop_last());
        assert((a + b).last() == b.last());
    }
}

/// Going through two lists of hashes is going through the first and then the
/// second: a block that joined on the way counts for what comes later as much
/// as one that was known from the start. Going through one hash puts all
/// blocks that wait for it on top of it, where it is known, and is nothing
/// otherwise.
pub proof fn law_sweeping_composes(
    s: State,
    orphans: OrphansView,
    a: Seq<H256>,
    b: Seq<H256>,
    key: H256,
)
    ensures
        crate::orphan::swept(s, orphans, Seq::empty()) == Some((s, orphans)),
        crate::orphan::swept(s, orphans, a + b) == match crate::orphan::swept(s, orphans, a) {
            Some((between, left)) => crate::orphan::swept(between, left, b),
            None => None,
        },
        !s.chain.blocks.contains_key(key) || !orphans.contains_key(key) ==> crate::orphan::swept(
            s,
            orphans,
            seq![key],
        ) == Some((s, orphans)),
        s.chain.blocks.contains_key(key) && orphans.contains_key(key) ==> crate::orphan::swept(
            s,
            orphans,
            seq![key],
        ) == match crate::orphan::all_connected(s, orphans[key]) {
            Some(after) => Some((after, orphans.remove(key))),
            None => None,
        },
    decreases b.len(),
{
    reveal_with_fuel(crate::orphan::swept, 2);
    assert(seq![key].drop_last() =~= Seq::empty());
    if b.len() == 0 {
        assert(a + b =~= a);
    } else {
        law_sweeping_composes(s, orphans, a, b.drop_last(), key);
        assert((a + b).drop_last() =~= a + b.drop_last());
        assert((a + b).last() == b.last());
    }
}

/// A block that joined when a list of blocks was put on top was in the list,
/// has valid signatures only, and none of its transfers waits.
proof fn lemma_joined_from(s: State, blocks: Seq<BlockView>, h: H256)
    requires
        crate::orphan::all_connected(s, blocks) is Some,
        !s.chain.blocks.contains_key(h),
        (crate::orphan::all_connected(s, blocks)->0).chain.blocks.contains_key(h),
    ensures
        ({
            let after = crate::orphan::all_connected(s, blocks)->0;
            let block = after.chain.blocks[h].0;
            &&& block.hash == h
            &&& exists|j: int| 0 <= j < blocks.len() && #[trigger] blocks[j] == block
            &&& forall|i: int|
                0 <= i < block.content.len() ==> (#[trigger] block.content[i]).verified
                    && !after.pool.contains_key(block.content[i].hash)
        }),
    decreases blocks.len(),
{
    if blocks.len() > 0 {
        let first = blocks.drop_last();
        let last = blocks.last();
        let before = crate::orphan::all_connected(s, first)->0;
        let after = crate::orphan::all_connected(s, blocks)->0;
        assert(blocks[blocks.len() - 1] == last);
        if before.chain.blocks.contains_key(h) {
            lemma_joined_from(s, first, h);
            let j = choose|j: int|
                0 <= j < first.len() && #[trigger] first[j] == before.chain.blocks[h].0;
            assert(blocks[j] == first[j]);
        } else {
            crate::laws::accounts::law_all_payable(
                before.states[last.parent_hash],
                last.content,
            );
            crate::laws::growth::law_accepted_joins(before, last, Basis::Parent);
        }
    }
}

/// The j-th block that waited for `k` is no longer in the buffer.
pub open spec fn taken_out(orphans: OrphansView, left: OrphansView, k: H256, j: int) -> bool {
    &&& orphans.contains_key(k)
    &&& 0 <= j < orphans[k].len()
    &&& !left.contains_key(k)
}

/// A block that joined the chain while the waiting blocks were gone through is
/// one that waited and waits no longer, each of its transfers has a valid
/// signature, and none of them waits.
pub proof fn law_joined_waited(s: State, orphans: OrphansView, order: Seq<H256>, h: H256)
    requires
        crate::orphan::swept(s, orphans, order) is Some,
        !s.chain.blocks.contains_key(h),
        (crate::orphan::swept(s, orphans, order)->0).0.chain.blocks.contains_key(h),
    ensures
        ({
            let (after, left) = crate::orphan::swept(s, orphans, order)->0;
            let block = after.chain.blocks[h].0;
            &&& block.hash == h
            &&& exists|k: H256, j: int| #[trigger]
                taken_out(orphans, left, k, j) && orphans[k][j] == block
            &&& forall|i: int|
                0 <= i < block.content.len() ==> (#[trigger] block.content[i]).verified
                    && !after.pool.contains_key(block.content[i].hash)
        }),
    decreases order.len(),
{
    if order.len() > 0 {
        let first = order.drop_last();
        let key = order.last();
        let (before, rest) = crate::orphan::swept(s, orphans, first)->0;
        let (after, left) = crate::orphan::swept(s, orphans, order)->0;
        lemma_left(s, orphans, first);
        let connects = before.chain.blocks.contains_key(key) && rest.contains_key(key);
        if before.chain.blocks.contains_key(h) {
            law_joined_waited(s, orphans, first, h);
            let (k, j) = choose|k: H256, j: int| #[trigger]
                taken_out(orphans, rest, k, j) && orphans[k][j] == before.chain.blocks[h].0;
            assert(taken_out(orphans, left, k, j));
            if connects {
                lemma_connecting_keeps(before, rest[key], h);
            }
        } else {
            lemma_joined_from(before, rest[key], h);
            let block = after.chain.blocks[h].0;
            let j = choose|j: int| 0 <= j < rest[key].len() && #[trigger] rest[key][j] == block;
            crate::laws::growth::lemma_submap(rest, orphans, key);
            assert(taken_out(orphans, left, key, j));
        }
    }
}

/// Going through the waiting blocks leaves the lists that it leaves as they
/// were.
pub(crate) proof fn lemma_left(s: State, orphans: OrphansView, order: Seq<H256>)
    requires
        crate::orphan::swept(s, orphans, order) is Some,
    ensures
        (crate::orphan::swept(s, orphans, order)->0).1.submap_of(orphans),
    decreases order.len(),
{
    if order.len() > 0 {
        lemma_left(s, orphans, order.drop_last());
        let rest = (crate::orphan::swept(s, orphans, order.drop_last())->0).1;
        let left = (crate::orphan::swept(s, orphans, order)->0).1;
        assert forall|k: H256| #[trigger] left.contains_key(k) implies orphans.contains_key(k)
            && left[k] == orphans[k] by {
            crate::laws::growth::lemma_submap(rest, orphans, k);
        }
    }
}

pub(crate) proof fn lemma_connecting_keeps(s: State, blocks: Seq<BlockView>, h: H256)
    requires
        crate::orphan::all_connected(s, blocks) is Some,
        s.chain.blocks.contains_key(h),
    ensures
        ({
            let after = crate::orphan::all_connected(s, blocks)->0;
            &&& after.chain.blocks.contains_key(h)
            &&& after.chain.blocks[h] == s.chain.blocks[h]
            &&& after.pool.dom().subset_of(s.pool.dom())
        }),
    decreases blocks.len(),
{
    if blocks.len() > 0 {
        lemma_connecting_keeps(s, blocks.drop_last(), h);
    }
}

/// At most one waiting block has the given hash.
pub open spec fn at_most_one(orphans: OrphansView, hash: H256) -> bool {
    forall|k: H256, j: int, l: H256, m: int|
        orphans.contains_key(k) && 0 <= j < orphans[k].len() && orphans.contains_key(l) && 0 <= m
            < orphans[l].len() && (#[trigger] orphans[k][j]).hash == hash && (
        #[trigger] orphans[l][m]).hash == hash ==> k == l && j == m
}

/// While the waiting blocks are gone through, nothing that waits has the hash
/// of a block that is known by then.
proof fn lemma_known_not_left(s: State, orphans: OrphansView, order: Seq<H256>, key: H256)
    requires
        crate::orphan::swept(s, orphans, order) is Some,
        at_most_one(orphans, key),
        s.chain.blocks.contains_key(key) ==> crate::laws::growth::not_waiting(orphans, key),
        (crate::orphan::swept(s, orphans, order)->0).0.chain.blocks.contains_key(key),
    ensures
        crate::laws::growth::not_waiting((crate::orphan::swept(s, orphans, order)->0).1, key),
{
    let (after, left) = crate::orphan::swept(s, orphans, order)->0;
    lemma_left(s, orphans, order);
    if !s.chain.blocks.contains_key(key) {
        law_joined_waited(s, orphans, order, key);
    }
    assert forall|k: H256, j: int| left.contains_key(k) && 0 <= j < left[k].len() implies (
    #[trigger] left[k][j]).hash != key by {
        crate::laws::growth::lemma_submap(left, orphans, k);
        assert(orphans[k][j] == left[k][j]);
        if !s.chain.blocks.contains_key(key) {
            let (l, m) = choose|l: H256, m: int| #[trigger]
                taken_out(orphans, left, l, m) && orphans[l][m] == after.chain.blocks[key].0;
            assert(orphans[l][m].hash == key);
        }
    }
}

/// A list of blocks lets only such a block join that the ledger of its parent
/// accepts.
proof fn lemma_refused_stays_out(s: State, key: H256, blocks: Seq<BlockView>, i: int)
    requires
        crate::orphan::all_connected(s, blocks) is Some,
        forall|j: int|
            0 <= j < blocks.len() ==> (#[trigger] blocks[j]).parent_hash == key && blocks[j].hash
                != key,
        0 <= i < blocks.len(),
        !crate::connect::accepts(s.states, blocks[i]),
        !s.chain.blocks.contains_key(blocks[i].hash),
        forall|j: int|
            0 <= j < blocks.len() && j != i ==> (#[trigger] blocks[j]).hash != blocks[i].hash,
    ensures
        !(crate::orphan::all_connected(s, blocks)->0).chain.blocks.contains_key(blocks[i].hash),
{
    let after = crate::orphan::all_connected(s, blocks)->0;
    let h = blocks[i].hash;
    if after.chain.blocks.contains_key(h) {
        let first = blocks.take(i);
        let rest = blocks.skip(i + 1);
        assert(blocks =~= first + (seq![blocks[i]] + rest));
        law_connecting_composes(s, first, seq![blocks[i]] + rest, blocks[i]);
        let before = crate::orphan::all_connected(s, first)->0;
        law_connecting_composes(before, seq![blocks[i]], rest, blocks[i]);
        let between = crate::orphan::all_connected(before, seq![blocks[i]])->0;
        if before.chain.blocks.contains_key(h) {
            lemma_joined_from(s, first, h);
            let j = choose|j: int|
                0 <= j < first.len() && #[trigger] first[j] == before.chain.blocks[h].0;
            assert(first[j] == blocks[j]);
        }
        assert forall|j: int| 0 <= j < first.len() implies (#[trigger] first[j]).hash != key by {
            assert(first[j] == blocks[j]);
        }
        crate::laws::growth::lemma_ledger_stays(s, key, first);
        assert(between.chain == before.chain);
        lemma_joined_from(between, rest, h);
        let j = choose|j: int|
            0 <= j < rest.len() && #[trigger] rest[j] == after.chain.blocks[h].0;
        assert(rest[j] == blocks[i + 1 + j]);
    }
}

/// Whatever is taken out of the buffer is accounted for, whether its parent
/// was known from the start or joined on the way: a block whose transfers have
/// valid signatures, do not exceed the balances that its parent left and have
/// the next nonces is known afterwards, with the ledger that its transfers
/// make of its parent's; any other one stays out of the chain. (Where another
/// waiting block has the hash of the parent or of the block itself, it may
/// take its place.)
pub proof fn law_nothing_is_lost(
    s: State,
    orphans: OrphansView,
    order: Seq<H256>,
    key: H256,
    i: int,
)
    requires
        s.chain.blocks.contains_key(s.chain.tail),
        crate::orphan::orphans_wf(orphans),
        crate::orphan::swept(s, orphans, order) is Some,
        at_most_one(orphans, key),
        s.chain.blocks.contains_key(key) ==> crate::laws::growth::not_waiting(orphans, key),
        orphans.contains_key(key),
        !(crate::orphan::swept(s, orphans, order)->0).1.contains_key(key),
        0 <= i < orphans[key].len(),
    ensures
        ({
            let (after, left) = crate::orphan::swept(s, orphans, order)->0;
            let block = orphans[key][i];
            let ledger = after.states[key];
            let good = forall|n: int|
                0 <= n < block.content.len() ==> {
                    &&& (#[trigger] block.content[n]).verified
                    &&& ledger[block.content[n].owner].1 >= block.content[n].transaction.value
                    &&& ledger[block.content[n].owner].0 + 1 == block.content[n].transaction.nonce
                };
            &&& after.chain.blocks.contains_key(key)
            &&& good ==> after.chain.blocks.contains_key(block.hash) && after.states.contains_key(
                block.hash,
            )
            &&& good && crate::laws::growth::alone(orphans, key, i) ==> Some(
                after.states[block.hash],
            ) == crate::ledger::settled(ledger, block.content, Basis::Parent)
            &&& !good && crate::laws::growth::alone(orphans, key, i)
                && !s.chain.blocks.contains_key(block.hash) ==> !after.chain.blocks.contains_key(
                block.hash,
            )
        }),
    decreases order.len(),
{
    if order.len() > 0 {
        let first = order.drop_last();
        let k = order.last();
        let (before, rest) = crate::orphan::swept(s, orphans, first)->0;
        let (after, left) = crate::orphan::swept(s, orphans, order)->0;
        let block = orphans[key][i];
        let h = block.hash;
        let connects = before.chain.blocks.contains_key(k) && rest.contains_key(k);
        lemma_left(s, orphans, first);
        crate::laws::growth::law_sweeping_grows(s, orphans, first);
        if connects {
            crate::laws::growth::lemma_submap(rest, orphans, k);
            crate::laws::growth::law_connecting_all_grows(before, rest[k]);
        }
        if !rest.contains_key(key) {
            law_nothing_is_lost(s, orphans, first, key, i);
            if connects {
                lemma_known_not_left(s, orphans, first, key);
                crate::laws::growth::lemma_ledger_stays(before, key, rest[k]);
                lemma_connecting_keeps(before, rest[k], key);
                if before.chain.blocks.contains_key(h) {
                    lemma_connecting_keeps(before, rest[k], h);
                }
                if crate::laws::growth::alone(orphans, key, i) {
                    assert forall|j: int| 0 <= j < rest[k].len() implies (
                    #[trigger] rest[k][j]).hash != h by {
                        assert(orphans[k][j] == rest[k][j]);
                    }
                    crate::laws::growth::lemma_ledger_stays(before, h, rest[k]);
                    if !before.chain.blocks.contains_key(h) && after.chain.blocks.contains_key(h) {
                        lemma_joined_from(before, rest[k], h);
                    }
                }
            }
        } else {
            assert(k == key && connects);
            lemma_known_not_left(s, orphans, first, key);
            let waiting = rest[key];
            assert forall|j: int| 0 <= j < waiting.len() implies (
            #[trigger] waiting[j]).parent_hash == key && waiting[j].hash != key by {
                assert(orphans[key][j] == waiting[j]);
                assert(rest[key][j] == waiting[j]);
            }
            crate::laws::growth::lemma_ledger_stays(before, key, waiting);
            lemma_connecting_keeps(before, waiting, key);
            crate::laws::accounts::law_all_payable(before.states[key], block.content);
            if crate::laws::growth::alone(orphans, key, i) {
                assert forall|j: int| 0 <= j < waiting.len() && j != i implies (
                #[trigger] waiting[j]).hash != waiting[i].hash by {
                    assert(orphans[key][j] == waiting[j]);
                }
            }
            if crate::connect::accepts(before.states, block) {
                crate::laws::growth::law_valid_children_join(before, key, waiting, i);
            } else if crate::laws::growth::alone(orphans, key, i)
                && !s.chain.blocks.contains_key(h) {
                if before.chain.blocks.contains_key(h) {
                    law_joined_waited(s, orphans, first, h);
                    let (l, m) = choose|l: H256, m: int| #[trigger]
                        taken_out(orphans, rest, l, m) && orphans[l][m] == before.chain.blocks[h].0;
                    assert(orphans[l][m].hash == h);
                }
                lemma_refused_stays_out(before, key, waiting, i);
            }
        }
    }
}

/// The accounts after a block that waited joined: those of its parent's
/// ledger, each with what the parent left it, less its last payment, plus all
/// that the block pays it from then on, and with its nonce one higher where it
/// pays.
pub proof fn law_waiting_block_pays(
    s: State,
    orphans: OrphansView,
    order: Seq<H256>,
    key: H256,
    i: int,
    a: H160,
)
    requires
        s.chain.blocks.contains_key(s.chain.tail),
        crate::orphan::orphans_wf(orphans),
        crate::orphan::swept(s, orphans, order) is Some,
        at_most_one(orphans, key),
        s.chain.blocks.contains_key(key) ==> crate::laws::growth::not_waiting(orphans, key),
        orphans.contains_key(key),
        !(crate::orphan::swept(s, orphans, order)->0).1.contains_key(key),
        0 <= i < orphans[key].len(),
        crate::laws::growth::alone(orphans, key, i),
        ({
            let ledger = (crate::orphan::swept(s, orphans, order)->0).0.states[key];
            let block = orphans[key][i];
            &&& ledger.contains_key(a)
            &&& forall|n: int|
                0 <= n < block.content.len() ==> {
                    &&& (#[trigger] block.content[n]).verified
                    &&& ledger[block.content[n].owner].1 >= block.content[n].transaction.value
                    &&& ledger[block.content[n].owner].0 + 1 == block.content[n].transaction.nonce
                }
        }),
    ensures
        ({
            let states = (crate::orphan::swept(s, orphans, order)->0).0.states;
            let block = orphans[key][i];
            let before = states[key];
            let after = states[block.hash];
            let last = crate::laws::accounts::last_payment(block.content, a);
            &&& after.dom() == before.dom()
            &&& after[a].1 == if last < 0 {
                before[a].1 + crate::laws::accounts::earned(block.content, a)
            } else {
                before[a].1 - block.content[last].transaction.value
                    + crate::laws::accounts::earned(block.content.skip(last), a)
            }
            &&& after[a].0 == if exists|n: int|
                0 <= n < block.content.len() && (#[trigger] block.content[n]).owner == a {
                before[a].0 + 1
            } else {
                before[a].0 as int
            }
        }),
{
    let block = orphans[key][i];
    let ledger = (crate::orphan::swept(s, orphans, order)->0).0.states[key];
    law_nothing_is_lost(s, orphans, order, key, i);
    crate::laws::accounts::law_all_payable(ledger, block.content);
    crate::laws::money::law_accounts_stay(ledger, block.content, Basis::Parent);
    crate::laws::money::law_nonces_count(ledger, block.content, Basis::Parent, a);
    crate::laws::accounts::law_parent_balances(ledger, block.content, a);
}

} // verus!
