//! What becomes of blocks that come in.

use vstd::prelude::*;
use crate::block::BlockView;
use crate::connect::State;
use crate::hash::{H160, H256};
use crate::intake::Intake;
use crate::ledger::Basis;
use crate::message::{MessageView, OutcomeView};
use crate::note::Note;
use crate::orphan::OrphansView;
use crate::worker::Node;

verus! {

/// Taking in two lists of blocks is taking in the first and then the second.
pub proof fn law_taking_composes(
    s: Intake,
    known: Set<H256>,
    a: Seq<BlockView>,
    b: Seq<BlockView>,
)
    ensures
        crate::intake::all_taken(s, known, Seq::empty()) == Some(s),
        crate::intake::all_taken(s, known, a + b) == match crate::intake::all_taken(
            s,
            known,
            a,
        ) {
            Some(between) => crate::intake::all_taken(between, known, b),
            None => None,
        },
    decreases b.len(),
{
    if b.len() == 0 {
        assert(a + b =~= a);
    } else {
        law_taking_composes(s, known, a, b.drop_last());
        assert((a + b).drop_last() =~= a + b.drop_last());
        assert((a + b).last() == b.last());
    }
}

/// What becomes of one block. One that was known, does not state the
/// difficulty of the chain, or has a hash above it is passed over. Any other
/// one is announced. Where its parent was not known it waits behind those that
/// wait for the same parent. Where its parent was known the buffer stays as it
/// is and the block is put on top of the parent, paid out of running balances;
/// it is noted as invalid where one of its transfers has no valid signature,
/// exceeds its owner's balance or has not the next nonce.
pub proof fn law_one_block(s: Intake, known: Set<H256>, block: BlockView)
    ensures
        ({
            let diff = s.state.chain.diff;
            let ledger = s.state.states[block.parent_hash];
            let result = crate::intake::all_taken(s, known, seq![block]);
            let fresh = !known.contains(block.hash) && block.difficulty == diff
                && crate::hash::be_value(block.hash.bytes@) <= crate::hash::be_value(diff.bytes@);
            let good = forall|i: int|
                0 <= i < block.content.len() ==> {
                    &&& (#[trigger] block.content[i]).verified
                    &&& ledger[block.content[i].owner].1 >= block.content[i].transaction.value
                    &&& ledger[block.content[i].owner].0 + 1 == block.content[i].transaction.nonce
                };
            &&& !fresh ==> result == Some(s)
            &&& fresh && !known.contains(block.parent_hash) ==> {
                &&& result is Some
                &&& result->0.announced == s.announced.push(block.hash)
                &&& result->0.state.chain == s.state.chain
                &&& result->0.state.states == s.state.states
                &&& result->0.state.pool == s.state.pool
                &&& result->0.state.notes == s.state.notes.push(Note::OrphanFound)
                &&& result->0.orphans == s.orphans.insert(
                    block.parent_hash,
                    if s.orphans.contains_key(block.parent_hash) {
                        s.orphans[block.parent_hash].push(block)
                    } else {
                        seq![block]
                    },
                )
            }
            &&& fresh && known.contains(block.parent_hash) ==> {
                let joined = crate::connect::connected(s.state, block, Basis::Running);
                &&& result is Some <==> joined is Some
                &&& joined is Some ==> {
                    &&& result->0.announced == s.announced.push(block.hash)
                    &&& result->0.orphans == s.orphans
                    &&& result->0.state.chain == joined->0.chain
                    &&& result->0.state.states == joined->0.states
                    &&& result->0.state.pool == joined->0.pool
                    &&& result->0.state.notes == if good {
                        joined->0.notes
                    } else {
                        joined->0.notes.push(Note::BlockInvalid)
                    }
                }
            }
        }),
{
    reveal_with_fuel(crate::intake::all_taken, 2);
    assert(seq![block].drop_last() =~= Seq::empty());
    assert(Seq::<BlockView>::empty().push(block) =~= seq![block]);
    crate::laws::accounts::law_all_payable(s.state.states[block.parent_hash], block.content);
}

/// The node with nothing taken in yet.
pub open spec fn untouched(pre: Node) -> Intake {
    Intake { state: pre.state(), orphans: pre.orphans, announced: Seq::empty() }
}

/// A message with blocks is handled in two steps: the blocks are taken in, and
/// the hashes that are waited for then are gone through once, each of them
/// once. The accounts from before the first block stay as they are.
pub proof fn law_blocks_in_two_steps(
    pre: Node,
    blocks: Seq<BlockView>,
    post: Node,
    outcome: OutcomeView,
) -> (steps: (Intake, Seq<H256>))
    requires
        crate::worker::handled(pre, MessageView::Blocks(blocks), post, outcome),
    ensures
        crate::intake::all_taken(
            Intake {
                state: State {
                    chain: pre.chain,
                    states: pre.states,
                    pool: pre.pool,
                    notes: Seq::empty(),
                },
                orphans: pre.orphans,
                announced: Seq::empty(),
            },
            pre.chain.blocks.dom(),
            blocks,
        ) == Some(steps.0),
        steps.1.no_duplicates(),
        forall|h: H256| #[trigger] steps.1.contains(h) <==> steps.0.orphans.contains_key(h),
        crate::orphan::swept(steps.0.state, steps.0.orphans, steps.1) == Some(
            (
                State {
                    chain: post.chain,
                    states: post.states,
                    pool: post.pool,
                    notes: outcome.notes,
                },
                post.orphans,
            ),
        ),
        outcome.broadcast == if steps.0.announced.len() > 0 {
            Some(MessageView::NewBlockHashes(steps.0.announced))
        } else {
            None
        },
        post.init == pre.init,
{
    let (order, missing) = choose|order: Seq<H256>, missing: Seq<H256>|
        {
            &&& crate::intake::orders_fit(pre.state(), pre.orphans, blocks, order, missing)
            &&& #[trigger] crate::intake::blocks_handled(
                pre.state(),
                pre.orphans,
                blocks,
                order,
                missing,
            ) == Some((State { notes: outcome.notes, ..post.state() }, post.orphans, outcome))
        };
    let mid = crate::intake::all_taken(untouched(pre), pre.chain.blocks.dom(), blocks)->0;
    assert forall|h: H256| #[trigger] order.contains(h) <==> mid.orphans.contains_key(h) by {
        assert(order.contains(h) <==> order.to_set().contains(h));
    }
    (mid, order)
}

/// A message with blocks may be more than a node can handle just where the
/// blocks cannot be taken in, or the hashes that are waited for then cannot be
/// gone through in some order.
pub proof fn law_blocks_fail(pre: Node, blocks: Seq<BlockView>)
    ensures
        crate::worker::may_fail(pre, MessageView::Blocks(blocks)) <==> {
            let mid = crate::intake::all_taken(
                Intake {
                    state: State {
                        chain: pre.chain,
                        states: pre.states,
                        pool: pre.pool,
                        notes: Seq::empty(),
                    },
                    orphans: pre.orphans,
                    announced: Seq::empty(),
                },
                pre.chain.blocks.dom(),
                blocks,
            );
            ||| mid is None
            ||| exists|order: Seq<H256>|
                order.no_duplicates() && order.to_set() == mid->0.orphans.dom()
                    && #[trigger] crate::orphan::swept(
                    mid->0.state,
                    mid->0.orphans,
                    order,
                ) is None
        },
{
    let nothing = Seq::<H256>::empty();
    let mid = crate::intake::all_taken(untouched(pre), pre.chain.blocks.dom(), blocks);
    if mid is None {
        assert(crate::intake::blocks_handled(
            pre.state(),
            pre.orphans,
            blocks,
            nothing,
            nothing,
        ) is None);
    } else if exists|order: Seq<H256>|
        order.no_duplicates() && order.to_set() == mid->0.orphans.dom()
            && #[trigger] crate::orphan::swept(mid->0.state, mid->0.orphans, order) is None {
        let order = choose|order: Seq<H256>|
            order.no_duplicates() && order.to_set() == mid->0.orphans.dom()
                && #[trigger] crate::orphan::swept(mid->0.state, mid->0.orphans, order) is None;
        assert(crate::intake::orders_fit(pre.state(), pre.orphans, blocks, order, nothing));
        assert(crate::intake::blocks_handled(
            pre.state(),
            pre.orphans,
            blocks,
            order,
            nothing,
        ) is None);
    }
    if crate::worker::may_fail(pre, MessageView::Blocks(blocks)) && mid is Some {
        let (order, missing) = choose|order: Seq<H256>, missing: Seq<H256>|
            crate::intake::orders_fit(pre.state(), pre.orphans, blocks, order, missing)
                && #[trigger] crate::intake::blocks_handled(
                pre.state(),
                pre.orphans,
                blocks,
                order,
                missing,
            ) is None;
        assert(crate::orphan::swept(mid->0.state, mid->0.orphans, order) is None);
    }
}

/// What is announced when blocks were taken in: the hash of each block that
/// was not known, states the difficulty of the chain and has a hash that is,
/// read as a number, at most that.
proof fn lemma_announced(s: Intake, known: Set<H256>, blocks: Seq<BlockView>)
    requires
        crate::intake::all_taken(s, known, blocks) is Some,
    ensures
        ({
            let after = crate::intake::all_taken(s, known, blocks)->0;
            let diff = s.state.chain.diff;
            &&& after.state.chain.diff == diff
            &&& after.announced == s.announced + blocks.filter(
                |b: BlockView|
                    !known.contains(b.hash) && b.difficulty == diff && crate::hash::be_value(
                        b.hash.bytes@,
                    ) <= crate::hash::be_value(diff.bytes@),
            ).map_values(|b: BlockView| b.hash)
        }),
    decreases blocks.len(),
{
    reveal(Seq::filter);
    let diff = s.state.chain.diff;
    let after = crate::intake::all_taken(s, known, blocks)->0;
    if blocks.len() > 0 {
        lemma_announced(s, known, blocks.drop_last());
    }
    assert(after.announced =~= s.announced + blocks.filter(
        |b: BlockView|
            !known.contains(b.hash) && b.difficulty == diff && crate::hash::be_value(b.hash.bytes@)
                <= crate::hash::be_value(diff.bytes@),
    ).map_values(|b: BlockView| b.hash));
}

/// Every hash that is announced when blocks were taken in is, read as a number,
/// at most the difficulty.
pub(crate) proof fn lemma_announced_work(s: Intake, known: Set<H256>, blocks: Seq<BlockView>)
    requires
        s.announced.len() == 0,
        crate::intake::all_taken(s, known, blocks) is Some,
    ensures
        ({
            let announced = (crate::intake::all_taken(s, known, blocks)->0).announced;
            forall|j: int|
                0 <= j < announced.len() ==> crate::hash::be_value((#[trigger] announced[j]).bytes@)
                    <= crate::hash::be_value(s.state.chain.diff.bytes@)
        }),
    decreases blocks.len(),
{
    if blocks.len() > 0 {
        lemma_announced(s, known, blocks.drop_last());
        lemma_announced_work(s, known, blocks.drop_last());
        let before = (crate::intake::all_taken(s, known, blocks.drop_last())->0).announced;
        let announced = (crate::intake::all_taken(s, known, blocks)->0).announced;
        assert forall|j: int| 0 <= j < announced.len() implies crate::hash::be_value(
            (#[trigger] announced[j]).bytes@,
        ) <= crate::hash::be_value(s.state.chain.diff.bytes@) by {
            if j < before.len() {
                assert(announced[j] == before[j]);
            }
        }
    }
}

/// A block that joined while blocks were taken in is one of them that was not
/// known, shows work, has a parent that was known and valid signatures only;
/// none of its transfers waits.
proof fn lemma_taken_joined(s: Intake, known: Set<H256>, blocks: Seq<BlockView>, h: H256)
    requires
        crate::intake::all_taken(s, known, blocks) is Some,
        !s.state.chain.blocks.contains_key(h),
        (crate::intake::all_taken(s, known, blocks)->0).state.chain.blocks.contains_key(h),
    ensures
        ({
            let after = crate::intake::all_taken(s, known, blocks)->0;
            let block = after.state.chain.blocks[h].0;
            let diff = s.state.chain.diff;
            &&& block.hash == h
            &&& exists|i: int| 0 <= i < blocks.len() && #[trigger] blocks[i] == block
            &&& !known.contains(h)
            &&& known.contains(block.parent_hash)
            &&& block.difficulty == diff
            &&& crate::hash::be_value(h.bytes@) <= crate::hash::be_value(diff.bytes@)
            &&& forall|i: int|
                0 <= i < block.content.len() ==> (#[trigger] block.content[i]).verified
                    && !after.state.pool.contains_key(block.content[i].hash)
        }),
    decreases blocks.len(),
{
    if blocks.len() > 0 {
        let first = blocks.drop_last();
        let last = blocks.last();
        let before = crate::intake::all_taken(s, known, first)->0;
        lemma_announced(s, known, first);
        assert(blocks[blocks.len() - 1] == last);
        if before.state.chain.blocks.contains_key(h) {
            lemma_taken_joined(s, known, first, h);
            let i = choose|i: int|
                0 <= i < first.len() && #[trigger] first[i] == before.state.chain.blocks[h].0;
            assert(blocks[i] == first[i]);
        } else {
            crate::laws::accounts::law_all_payable(
                before.state.states[last.parent_hash],
                last.content,
            );
            crate::laws::growth::law_accepted_joins(before.state, last, Basis::Running);
        }
    }
}

/// What waits for a block after blocks were taken in: what waited before, and
/// behind it those of the new ones that show work and whose parent it is,
/// where it was not known.
proof fn lemma_taken_waits(s: Intake, known: Set<H256>, blocks: Seq<BlockView>, k: H256)
    requires
        crate::intake::all_taken(s, known, blocks) is Some,
    ensures
        ({
            let after = crate::intake::all_taken(s, known, blocks)->0;
            let diff = s.state.chain.diff;
            let aside = blocks.filter(
                |b: BlockView|
                    b.parent_hash == k && !known.contains(k) && !known.contains(b.hash)
                        && b.difficulty == diff && crate::hash::be_value(b.hash.bytes@)
                        <= crate::hash::be_value(diff.bytes@),
            );
            &&& after.orphans.contains_key(k) <==> s.orphans.contains_key(k) || aside.len() > 0
            &&& after.orphans.contains_key(k) ==> after.orphans[k] == (if s.orphans.contains_key(
                k,
            ) {
                s.orphans[k]
            } else {
                Seq::empty()
            }) + aside
        }),
    decreases blocks.len(),
{
    reveal(Seq::filter);
    lemma_announced(s, known, blocks);
    if blocks.len() > 0 {
        lemma_announced(s, known, blocks.drop_last());
        lemma_taken_waits(s, known, blocks.drop_last(), k);
    }
    let after = crate::intake::all_taken(s, known, blocks)->0;
    let diff = s.state.chain.diff;
    let aside = blocks.filter(
        |b: BlockView|
            b.parent_hash == k && !known.contains(k) && !known.contains(b.hash) && b.difficulty
                == diff && crate::hash::be_value(b.hash.bytes@) <= crate::hash::be_value(
                diff.bytes@,
            ),
    );
    if after.orphans.contains_key(k) {
        assert(after.orphans[k] =~= (if s.orphans.contains_key(k) {
            s.orphans[k]
        } else {
            Seq::empty()
        }) + aside);
    }
}

/// Announced are, in their order, the hashes of the blocks that were not known,
/// state the difficulty of the chain and have a hash that, read as a number
/// with the most significant byte first, is at most the difficulty read the
/// same way. No other hash is announced.
pub proof fn law_work_is_announced(
    pre: Node,
    blocks: Seq<BlockView>,
    post: Node,
    outcome: OutcomeView,
)
    requires
        crate::worker::handled(pre, MessageView::Blocks(blocks), post, outcome),
    ensures
        ({
            let announced = blocks.filter(
                |b: BlockView|
                    !pre.chain.blocks.contains_key(b.hash) && b.difficulty == pre.chain.diff
                        && crate::hash::be_value(b.hash.bytes@) <= crate::hash::be_value(
                        pre.chain.diff.bytes@,
                    ),
            ).map_values(|b: BlockView| b.hash);
            outcome.broadcast == if announced.len() > 0 {
                Some(MessageView::NewBlockHashes(announced))
            } else {
                None
            }
        }),
        forall|i: int|
            0 <= i < blocks.len() && !pre.chain.blocks.contains_key((#[trigger] blocks[i]).hash)
                && blocks[i].difficulty == pre.chain.diff && crate::hash::be_value(
                blocks[i].hash.bytes@,
            ) <= crate::hash::be_value(pre.chain.diff.bytes@) ==> {
                &&& outcome.broadcast matches Some(MessageView::NewBlockHashes(hashes))
                &&& hashes.contains(blocks[i].hash)
            },
        outcome.broadcast matches Some(MessageView::NewBlockHashes(hashes)) ==> forall|j: int|
            0 <= j < hashes.len() ==> {
                &&& crate::hash::be_value((#[trigger] hashes[j]).bytes@) <= crate::hash::be_value(
                    pre.chain.diff.bytes@,
                )
                &&& !pre.chain.blocks.contains_key(hashes[j])
            },
{
    broadcast use vstd::seq_lib::group_filter_ensures;

    let (mid, order) = law_blocks_in_two_steps(pre, blocks, post, outcome);
    let known = pre.chain.blocks.dom();
    let diff = pre.chain.diff;
    lemma_announced(untouched(pre), known, blocks);
    let shows = |b: BlockView|
        !known.contains(b.hash) && b.difficulty == diff && crate::hash::be_value(b.hash.bytes@)
            <= crate::hash::be_value(diff.bytes@);
    let stated = |b: BlockView|
        !pre.chain.blocks.contains_key(b.hash) && b.difficulty == pre.chain.diff
            && crate::hash::be_value(b.hash.bytes@) <= crate::hash::be_value(pre.chain.diff.bytes@);
    assert(shows =~= stated);
    let fresh = blocks.filter(shows);
    let announced = fresh.map_values(|b: BlockView| b.hash);
    assert(mid.announced =~= announced);
    assert forall|i: int|
        0 <= i < blocks.len() && !pre.chain.blocks.contains_key((#[trigger] blocks[i]).hash)
            && blocks[i].difficulty == pre.chain.diff && crate::hash::be_value(
            blocks[i].hash.bytes@,
        ) <= crate::hash::be_value(pre.chain.diff.bytes@) implies announced.contains(
        blocks[i].hash,
    ) by {
        assert(shows(blocks[i]));
        assert(fresh.contains(blocks[i]));
        let j = choose|j: int| 0 <= j < fresh.len() && fresh[j] == blocks[i];
        assert(announced[j] == blocks[i].hash);
    }
    assert forall|j: int| 0 <= j < announced.len() implies crate::hash::be_value(
        (#[trigger] announced[j]).bytes@,
    ) <= crate::hash::be_value(pre.chain.diff.bytes@) && !pre.chain.blocks.contains_key(
        announced[j],
    ) by {
        assert(shows(fresh[j]));
    }
}

/// A block that a message let into the chain came with the message or waited
/// beforehand, under its hash and with valid signatures only, and none of its
/// transfers waits. One that came with the message states the difficulty of
/// the chain, and its hash, read as a number, is at most that.
pub proof fn law_new_blocks(
    pre: Node,
    msg: MessageView,
    post: Node,
    outcome: OutcomeView,
    h: H256,
)
    requires
        crate::worker::handled(pre, msg, post, outcome),
        post.chain.blocks.contains_key(h),
        !pre.chain.blocks.contains_key(h),
    ensures
        ({
            let block = post.chain.blocks[h].0;
            &&& block.hash == h
            &&& forall|i: int|
                0 <= i < block.content.len() ==> (#[trigger] block.content[i]).verified
                    && !post.pool.contains_key(block.content[i].hash)
            &&& {
                ||| exists|k: H256, j: int|
                    pre.orphans.contains_key(k) && 0 <= j < pre.orphans[k].len()
                        && #[trigger] pre.orphans[k][j] == block
                ||| {
                    &&& msg matches MessageView::Blocks(blocks) && blocks.contains(block)
                    &&& block.difficulty == pre.chain.diff
                    &&& crate::hash::be_value(h.bytes@) <= crate::hash::be_value(
                        pre.chain.diff.bytes@,
                    )
                }
            }
        }),
{
    if let MessageView::Blocks(blocks) = msg {
        let (mid, order) = law_blocks_in_two_steps(pre, blocks, post, outcome);
        let start = untouched(pre);
        let known = pre.chain.blocks.dom();
        let block = post.chain.blocks[h].0;
        if mid.state.chain.blocks.contains_key(h) {
            lemma_taken_joined(start, known, blocks, h);
            lemma_sweeping_keeps(mid.state, mid.orphans, order, h);
            let i = choose|i: int| 0 <= i < blocks.len() && #[trigger] blocks[i] == block;
            assert(blocks.contains(blocks[i]));
        } else {
            crate::laws::joining::law_joined_waited(mid.state, mid.orphans, order, h);
            let (k, j) = choose|k: H256, j: int| #[trigger]
                crate::laws::joining::taken_out(mid.orphans, post.orphans, k, j)
                    && mid.orphans[k][j] == block;
            lemma_waiting_source(start, known, blocks, k, j);
        }
    }
}

/// A block that waits after blocks were taken in waited before, or is one of
/// them that was not known and shows work.
proof fn lemma_waiting_source(
    s: Intake,
    known: Set<H256>,
    blocks: Seq<BlockView>,
    k: H256,
    j: int,
)
    requires
        crate::intake::all_taken(s, known, blocks) is Some,
        (crate::intake::all_taken(s, known, blocks)->0).orphans.contains_key(k),
        0 <= j < (crate::intake::all_taken(s, known, blocks)->0).orphans[k].len(),
    ensures
        ({
            let block = (crate::intake::all_taken(s, known, blocks)->0).orphans[k][j];
            let diff = s.state.chain.diff;
            ||| s.orphans.contains_key(k) && j < s.orphans[k].len() && s.orphans[k][j] == block
            ||| {
                &&& blocks.contains(block)
                &&& !known.contains(block.hash)
                &&& block.parent_hash == k
                &&& !known.contains(k)
                &&& block.difficulty == diff
                &&& crate::hash::be_value(block.hash.bytes@) <= crate::hash::be_value(diff.bytes@)
            }
        }),
{
    lemma_taken_waits(s, known, blocks, k);
    let diff = s.state.chain.diff;
    let test = |b: BlockView|
        b.parent_hash == k && !known.contains(k) && !known.contains(b.hash) && b.difficulty == diff
            && crate::hash::be_value(b.hash.bytes@) <= crate::hash::be_value(diff.bytes@);
    let aside = blocks.filter(test);
    let n = if s.orphans.contains_key(k) {
        s.orphans[k].len() as int
    } else {
        0
    };
    if j >= n {
        broadcast use vstd::seq_lib::group_filter_ensures;

        assert(test(aside[j - n]));
        lemma_filter_from(blocks, test, j - n);
    }
}

proof fn lemma_filter_from(all: Seq<BlockView>, test: spec_fn(BlockView) -> bool, i: int)
    requires
        0 <= i < all.filter(test).len(),
    ensures
        all.contains(all.filter(test)[i]),
    decreases all.len(),
{
    reveal(Seq::filter);
    if all.len() > 0 {
        let first = all.drop_last();
        if i < first.filter(test).len() {
            lemma_filter_from(first, test, i);
            let j = choose|j: int| 0 <= j < first.len() && first[j] == first.filter(test)[i];
            assert(all[j] == first[j]);
        } else {
            assert(all[all.len() - 1] == all.last());
        }
    }
}

/// Going through the waiting blocks keeps every known block and lets no
/// transfer join the pool.
proof fn lemma_sweeping_keeps(s: State, orphans: OrphansView, order: Seq<H256>, h: H256)
    requires
        crate::orphan::swept(s, orphans, order) is Some,
        s.chain.blocks.contains_key(h),
    ensures
        ({
            let after = (crate::orphan::swept(s, orphans, order)->0).0;
            &&& after.chain.blocks.contains_key(h)
            &&& after.chain.blocks[h] == s.chain.blocks[h]
            &&& after.pool.dom().subset_of(s.pool.dom())
        }),
    decreases order.len(),
{
    if order.len() > 0 {
        lemma_sweeping_keeps(s, orphans, order.drop_last(), h);
        let (before, rest) = crate::orphan::swept(s, orphans, order.drop_last())->0;
        let key = order.last();
        if before.chain.blocks.contains_key(key) && rest.contains_key(key) {
            crate::laws::joining::lemma_connecting_keeps(before, rest[key], h);
        }
    }
}

/// What waits for a block in the end: what waited for it before the message,
/// and behind it, in their order, the blocks of the message that were not
/// known, show work and have it as their parent. Nothing waits for a block that
/// was known before the message, and whatever is waited for no longer is known.
pub proof fn law_buffer(
    pre: Node,
    blocks: Seq<BlockView>,
    post: Node,
    outcome: OutcomeView,
    k: H256,
)
    requires
        pre.wf(),
        crate::worker::handled(pre, MessageView::Blocks(blocks), post, outcome),
    ensures
        ({
            let aside = blocks.filter(
                |b: BlockView|
                    b.parent_hash == k && !pre.chain.blocks.contains_key(b.hash) && b.difficulty
                        == pre.chain.diff && crate::hash::be_value(b.hash.bytes@)
                        <= crate::hash::be_value(pre.chain.diff.bytes@),
            );
            &&& post.orphans.contains_key(k) ==> {
                &&& !pre.chain.blocks.contains_key(k)
                &&& post.orphans[k] == (if pre.orphans.contains_key(k) {
                    pre.orphans[k]
                } else {
                    Seq::empty()
                }) + aside
                &&& post.orphans[k].len() > 0
            }
            &&& (pre.orphans.contains_key(k) || aside.len() > 0) && !post.orphans.contains_key(k)
                ==> post.chain.blocks.contains_key(k)
        }),
{
    let (mid, order) = law_blocks_in_two_steps(pre, blocks, post, outcome);
    let start = untouched(pre);
    let known = pre.chain.blocks.dom();
    let diff = pre.chain.diff;
    crate::laws::node::law_taking_grows(start, known, blocks);
    crate::laws::growth::law_sweeping_empties(mid.state, mid.orphans, order);
    crate::laws::growth::law_sweeping_grows(mid.state, mid.orphans, order);
    lemma_taken_waits(start, known, blocks, k);
    if pre.chain.blocks.contains_key(k) {
        crate::laws::growth::lemma_submap(pre.chain.blocks, mid.state.chain.blocks, k);
        crate::laws::growth::lemma_submap(mid.state.chain.blocks, post.chain.blocks, k);
        if post.orphans.contains_key(k) {
            crate::laws::growth::lemma_submap(post.orphans, mid.orphans, k);
            assert(order.contains(k));
        }
    } else {
        let narrow = |b: BlockView|
            b.parent_hash == k && !known.contains(k) && !known.contains(b.hash) && b.difficulty
                == diff && crate::hash::be_value(b.hash.bytes@) <= crate::hash::be_value(
                diff.bytes@,
            );
        let stated = |b: BlockView|
            b.parent_hash == k && !pre.chain.blocks.contains_key(b.hash) && b.difficulty
                == pre.chain.diff && crate::hash::be_value(b.hash.bytes@) <= crate::hash::be_value(
                pre.chain.diff.bytes@,
            );
        assert(narrow =~= stated);
        if post.orphans.contains_key(k) {
            crate::laws::growth::lemma_submap(post.orphans, mid.orphans, k);
        }
    }
    if post.orphans.contains_key(k) {
        assert(mid.orphans.contains_key(k));
        assert(pre.orphans.contains_key(k) ==> pre.orphans[k].len() > 0);
    }
}

/// Where every waiting block states the difficulty of the chain and has a hash
/// that is, read as a number, at most that, so it is after any message, and so
/// is every block that joined the chain.
pub proof fn law_work_is_kept(pre: Node, msg: MessageView, post: Node, outcome: OutcomeView)
    requires
        pre.wf(),
        crate::worker::handled(pre, msg, post, outcome),
        forall|k: H256, j: int|
            pre.orphans.contains_key(k) && 0 <= j < pre.orphans[k].len() ==> {
                &&& (#[trigger] pre.orphans[k][j]).difficulty == pre.chain.diff
                &&& crate::hash::be_value(pre.orphans[k][j].hash.bytes@) <= crate::hash::be_value(
                    pre.chain.diff.bytes@,
                )
            },
    ensures
        post.chain.diff == pre.chain.diff,
        forall|k: H256, j: int|
            post.orphans.contains_key(k) && 0 <= j < post.orphans[k].len() ==> {
                &&& (#[trigger] post.orphans[k][j]).difficulty == pre.chain.diff
                &&& crate::hash::be_value(post.orphans[k][j].hash.bytes@) <= crate::hash::be_value(
                    pre.chain.diff.bytes@,
                )
            },
        forall|h: H256| #[trigger]
            post.chain.blocks.contains_key(h) && !pre.chain.blocks.contains_key(h) ==> {
                &&& post.chain.blocks[h].0.difficulty == pre.chain.diff
                &&& crate::hash::be_value(h.bytes@) <= crate::hash::be_value(
                    pre.chain.diff.bytes@,
                )
            },
{
    crate::laws::node::law_knowledge_grows(pre, msg, post, outcome);
    assert forall|h: H256| #[trigger]
        post.chain.blocks.contains_key(h) && !pre.chain.blocks.contains_key(h) implies {
        &&& post.chain.blocks[h].0.difficulty == pre.chain.diff
        &&& crate::hash::be_value(h.bytes@) <= crate::hash::be_value(pre.chain.diff.bytes@)
    } by {
        law_new_blocks(pre, msg, post, outcome, h);
    }
    if let MessageView::Blocks(blocks) = msg {
        let (mid, order) = law_blocks_in_two_steps(pre, blocks, post, outcome);
        crate::laws::joining::lemma_left(mid.state, mid.orphans, order);
        assert forall|k: H256, j: int|
            post.orphans.contains_key(k) && 0 <= j < post.orphans[k].len() implies {
            &&& (#[trigger] post.orphans[k][j]).difficulty == pre.chain.diff
            &&& crate::hash::be_value(post.orphans[k][j].hash.bytes@) <= crate::hash::be_value(
                pre.chain.diff.bytes@,
            )
        } by {
            crate::laws::growth::lemma_submap(post.orphans, mid.orphans, k);
            lemma_waiting_source(untouched(pre), pre.chain.blocks.dom(), blocks, k, j);
        }
    }
}

/// The longest branch ends elsewhere only where it has become longer.
pub proof fn law_tail_moves_up(pre: Node, msg: MessageView, post: Node, outcome: OutcomeView)
    requires
        pre.wf(),
        crate::worker::handled(pre, msg, post, outcome),
    ensures
        post.chain.tail == pre.chain.tail || post.chain.blocks[post.chain.tail].1
            > pre.chain.blocks[pre.chain.tail].1,
{
    if let MessageView::Blocks(blocks) = msg {
        let (mid, order) = law_blocks_in_two_steps(pre, blocks, post, outcome);
        crate::laws::node::law_taking_grows(untouched(pre), pre.chain.blocks.dom(), blocks);
        lemma_taking_tail(untouched(pre), pre.chain.blocks.dom(), blocks);
        lemma_sweeping_tail(mid.state, mid.orphans, order);
    }
}

proof fn lemma_connecting_tail(s: State, blocks: Seq<BlockView>)
    requires
        s.chain.blocks.contains_key(s.chain.tail),
        crate::orphan::all_connected(s, blocks) is Some,
    ensures
        ({
            let after = (crate::orphan::all_connected(s, blocks)->0).chain;
            after.tail == s.chain.tail && after.height_of(after.tail) == s.chain.height_of(
                s.chain.tail,
            ) || after.height_of(after.tail) > s.chain.height_of(s.chain.tail)
        }),
    decreases blocks.len(),
{
    if blocks.len() > 0 {
        lemma_connecting_tail(s, blocks.drop_last());
        crate::laws::growth::law_connecting_all_grows(s, blocks.drop_last());
    }
}

proof fn lemma_sweeping_tail(s: State, orphans: OrphansView, order: Seq<H256>)
    requires
        s.chain.blocks.contains_key(s.chain.tail),
        crate::orphan::swept(s, orphans, order) is Some,
    ensures
        ({
            let after = (crate::orphan::swept(s, orphans, order)->0).0.chain;
            after.tail == s.chain.tail && after.height_of(after.tail) == s.chain.height_of(
                s.chain.tail,
            ) || after.height_of(after.tail) > s.chain.height_of(s.chain.tail)
        }),
    decreases order.len(),
{
    if order.len() > 0 {
        lemma_sweeping_tail(s, orphans, order.drop_last());
        crate::laws::growth::law_sweeping_grows(s, orphans, order.drop_last());
        let (before, rest) = crate::orphan::swept(s, orphans, order.drop_last())->0;
        if before.chain.blocks.contains_key(order.last()) && rest.contains_key(order.last()) {
            lemma_connecting_tail(before, rest[order.last()]);
        }
    }
}

proof fn lemma_taking_tail(s: Intake, known: Set<H256>, blocks: Seq<BlockView>)
    requires
        s.state.chain.blocks.contains_key(s.state.chain.tail),
        crate::intake::all_taken(s, known, blocks) is Some,
    ensures
        ({
            let before = s.state.chain;
            let after = (crate::intake::all_taken(s, known, blocks)->0).state.chain;
            after.tail == before.tail && after.height_of(after.tail) == before.height_of(
                before.tail,
            ) || after.height_of(after.tail) > before.height_of(before.tail)
        }),
    decreases blocks.len(),
{
    if blocks.len() > 0 {
        lemma_taking_tail(s, known, blocks.drop_last());
        crate::laws::node::law_taking_grows(s, known, blocks.drop_last());
    }
}

/// Taking in blocks leaves the ledgers of the blocks that were known as they
/// were.
proof fn lemma_known_ledgers_stay(s: Intake, known: Set<H256>, blocks: Seq<BlockView>, h: H256)
    requires
        crate::intake::all_taken(s, known, blocks) is Some,
        known.contains(h),
    ensures
        ({
            let after = (crate::intake::all_taken(s, known, blocks)->0).state;
            &&& after.states[h] == s.state.states[h]
            &&& after.states.contains_key(h) == s.state.states.contains_key(h)
        }),
    decreases blocks.len(),
{
    if blocks.len() > 0 {
        lemma_known_ledgers_stay(s, known, blocks.drop_last(), h);
    }
}

/// What taking in blocks makes of a new one with a known parent, when all of
/// them that have its hash are the same.
proof fn lemma_arrival(s: Intake, known: Set<H256>, blocks: Seq<BlockView>, block: BlockView)
    requires
        s.state.chain.blocks.contains_key(s.state.chain.tail),
        known == s.state.chain.blocks.dom(),
        crate::intake::all_taken(s, known, blocks) is Some,
        forall|j: int|
            0 <= j < blocks.len() && (#[trigger] blocks[j]).hash == block.hash ==> blocks[j]
                == block,
        !known.contains(block.hash),
        known.contains(block.parent_hash),
        crate::intake::worked(s.state.chain.diff, block),
    ensures
        ({
            let after = (crate::intake::all_taken(s, known, blocks)->0).state;
            let good = crate::connect::accepts(s.state.states, block);
            let height = (s.state.chain.height_of(block.parent_hash) + 1) as usize;
            &&& blocks.contains(block) && good ==> {
                &&& after.chain.blocks.contains_key(block.hash)
                &&& after.chain.blocks[block.hash] == (block, height)
                &&& Some(after.states[block.hash]) == crate::ledger::settled(
                    s.state.states[block.parent_hash],
                    block.content,
                    Basis::Running,
                )
            }
            &&& !blocks.contains(block) || !good ==> {
                &&& !after.chain.blocks.contains_key(block.hash)
                &&& after.states.contains_key(block.hash) == s.state.states.contains_key(
                    block.hash,
                )
                &&& after.states[block.hash] == s.state.states[block.hash]
            }
            &&& blocks.contains(block) && !good ==> after.notes.contains(Note::BlockInvalid)
        }),
    decreases blocks.len(),
{
    if blocks.len() > 0 {
        let first = blocks.drop_last();
        let last = blocks.last();
        let before = crate::intake::all_taken(s, known, first)->0;
        let after = crate::intake::all_taken(s, known, blocks)->0;
        assert forall|j: int|
            0 <= j < first.len() && (#[trigger] first[j]).hash == block.hash implies first[j]
            == block by {
            assert(first[j] == blocks[j]);
        }
        lemma_arrival(s, known, first, block);
        lemma_announced(s, known, first);
        lemma_known_ledgers_stay(s, known, first, block.parent_hash);
        crate::laws::node::law_taking_grows(s, known, first);
        crate::laws::node::lemma_taken_grows(before, known, last);
        crate::laws::growth::lemma_submap(
            s.state.chain.blocks,
            before.state.chain.blocks,
            block.parent_hash,
        );
        assert(blocks[blocks.len() - 1] == last);
        if first.contains(block) {
            let j = choose|j: int| 0 <= j < first.len() && first[j] == block;
            assert(blocks[j] == block);
        }
        if blocks.contains(block) && last != block {
            let j = choose|j: int| 0 <= j < blocks.len() && blocks[j] == block;
            assert(first[j] == block);
        }
        if before.state.notes.contains(Note::BlockInvalid) {
            let j = choose|j: int|
                0 <= j < before.state.notes.len() && before.state.notes[j] == Note::BlockInvalid;
            assert(after.state.notes[j] == Note::BlockInvalid);
        }
        if last == block {
            assert(crate::connect::accepts(before.state.states, block)
                == crate::connect::accepts(s.state.states, block));
            if !crate::connect::accepts(s.state.states, block) {
                assert(after.state.notes[after.state.notes.len() - 1] == Note::BlockInvalid);
            }
        }
    }
}

/// A block that was not known, states the difficulty of the chain, has a hash
/// that is at most that, and has a known parent in whose ledger all of its
/// transfers have valid signatures, enough behind them and the next nonces, is
/// known once the message was handled, whatever else the message held. It
/// stands one above its parent, and it left a ledger in which every account
/// has what the parent left it, less all that it pays in the block, plus all
/// that it is paid, with its nonce one higher where it pays. (Where a
/// different block with the same hash comes along or waits, that one may take
/// its place.)
pub proof fn law_good_block_arrives(
    pre: Node,
    blocks: Seq<BlockView>,
    post: Node,
    outcome: OutcomeView,
    i: int,
    a: H160,
)
    requires
        pre.wf(),
        crate::worker::handled(pre, MessageView::Blocks(blocks), post, outcome),
        0 <= i < blocks.len(),
        !pre.chain.blocks.contains_key(blocks[i].hash),
        blocks[i].difficulty == pre.chain.diff,
        crate::hash::be_value(blocks[i].hash.bytes@) <= crate::hash::be_value(
            pre.chain.diff.bytes@,
        ),
        pre.chain.blocks.contains_key(blocks[i].parent_hash),
        pre.chain.height_of(blocks[i].parent_hash) < usize::MAX,
        ({
            let ledger = pre.states[blocks[i].parent_hash];
            forall|n: int|
                0 <= n < blocks[i].content.len() ==> {
                    &&& (#[trigger] blocks[i].content[n]).verified
                    &&& ledger[blocks[i].content[n].owner].1
                        >= blocks[i].content[n].transaction.value
                    &&& ledger[blocks[i].content[n].owner].0 + 1
                        == blocks[i].content[n].transaction.nonce
                }
        }),
    ensures
        post.chain.blocks.contains_key(blocks[i].hash),
        (forall|j: int|
            0 <= j < blocks.len() && (#[trigger] blocks[j]).hash == blocks[i].hash ==> blocks[j]
                == blocks[i]) ==> {
            &&& post.chain.blocks[blocks[i].hash].0 == blocks[i]
            &&& post.chain.blocks[blocks[i].hash].1 == pre.chain.blocks[blocks[i].parent_hash].1
                + 1
        },
        crate::laws::growth::not_waiting(pre.orphans, blocks[i].hash) && (forall|j: int|
            0 <= j < blocks.len() && (#[trigger] blocks[j]).hash == blocks[i].hash ==> blocks[j]
                == blocks[i]) ==> {
            let before = pre.states[blocks[i].parent_hash];
            let after = post.states[blocks[i].hash];
            &&& post.states.contains_key(blocks[i].hash)
            &&& after.dom() == before.dom()
            &&& before.contains_key(a) ==> {
                &&& after[a].1 == before[a].1 - crate::laws::accounts::spent(blocks[i].content, a)
                    + crate::laws::accounts::earned(blocks[i].content, a)
                &&& after[a].0 == if exists|n: int|
                    0 <= n < blocks[i].content.len() && (#[trigger] blocks[i].content[n]).owner
                        == a {
                    before[a].0 + 1
                } else {
                    before[a].0 as int
                }
            }
        },
{
    let (mid, order) = law_blocks_in_two_steps(pre, blocks, post, outcome);
    let start = untouched(pre);
    let known = pre.chain.blocks.dom();
    let block = blocks[i];
    let ledger = pre.states[block.parent_hash];
    crate::laws::accounts::law_all_payable(ledger, block.content);
    if crate::intake::all_taken(start, known, blocks.take(i)) is None {
        law_taking_composes(start, known, blocks.take(i), blocks.skip(i));
        assert(blocks.take(i) + blocks.skip(i) =~= blocks);
    }
    lemma_known_ledgers_stay(start, known, blocks.take(i), block.parent_hash);
    crate::laws::node::lemma_good_block_taken(start, known, blocks, i);
    crate::laws::node::law_taking_grows(start, known, blocks);
    lemma_sweeping_keeps(mid.state, mid.orphans, order, block.hash);
    if forall|j: int|
        0 <= j < blocks.len() && (#[trigger] blocks[j]).hash == block.hash ==> blocks[j] == block {
        assert(blocks.contains(block));
        lemma_arrival(start, known, blocks, block);
        if crate::laws::growth::not_waiting(pre.orphans, block.hash) {
            crate::laws::node::lemma_taken_not_waiting(start, known, blocks, block.hash);
            crate::laws::growth::lemma_sweeping_others(
                mid.state,
                mid.orphans,
                order,
                block.hash,
            );
            crate::laws::growth::law_sweeping_grows(mid.state, mid.orphans, order);
            crate::laws::money::law_accounts_stay(ledger, block.content, Basis::Running);
            lemma_has_ledger(start, known, blocks, block.hash);
            if ledger.contains_key(a) {
                crate::laws::accounts::law_running_balances(ledger, block.content, a);
                crate::laws::money::law_nonces_count(ledger, block.content, Basis::Running, a);
            }
        }
    }
}

/// A block that joined while blocks were taken in has a ledger.
proof fn lemma_has_ledger(s: Intake, known: Set<H256>, blocks: Seq<BlockView>, h: H256)
    requires
        crate::intake::all_taken(s, known, blocks) is Some,
        !s.state.chain.blocks.contains_key(h),
        (crate::intake::all_taken(s, known, blocks)->0).state.chain.blocks.contains_key(h),
    ensures
        (crate::intake::all_taken(s, known, blocks)->0).state.states.contains_key(h),
    decreases blocks.len(),
{
    if blocks.len() > 0 {
        let before = crate::intake::all_taken(s, known, blocks.drop_last())->0;
        if before.state.chain.blocks.contains_key(h) {
            lemma_has_ledger(s, known, blocks.drop_last(), h);
        }
    }
}

/// A block of a message with a known parent and a transfer that has no valid
/// signature, exceeds what the parent left its owner, or has not the next
/// nonce stays out of the chain, leaves no ledger, and is noted as invalid.
/// (Where a different block with the same hash comes along or waits, that one
/// may join.)
pub proof fn law_bad_block_stays_out(
    pre: Node,
    blocks: Seq<BlockView>,
    post: Node,
    outcome: OutcomeView,
    i: int,
    n: int,
)
    requires
        pre.wf(),
        crate::worker::handled(pre, MessageView::Blocks(blocks), post, outcome),
        0 <= i < blocks.len(),
        forall|j: int|
            0 <= j < blocks.len() && (#[trigger] blocks[j]).hash == blocks[i].hash ==> blocks[j]
                == blocks[i],
        crate::laws::growth::not_waiting(pre.orphans, blocks[i].hash),
        !pre.chain.blocks.contains_key(blocks[i].hash),
        blocks[i].difficulty == pre.chain.diff,
        crate::hash::be_value(blocks[i].hash.bytes@) <= crate::hash::be_value(
            pre.chain.diff.bytes@,
        ),
        pre.chain.blocks.contains_key(blocks[i].parent_hash),
        0 <= n < blocks[i].content.len(),
        ({
            let ledger = pre.states[blocks[i].parent_hash];
            let tx = blocks[i].content[n];
            ||| !tx.verified
            ||| ledger[tx.owner].1 < tx.transaction.value
            ||| ledger[tx.owner].0 + 1 != tx.transaction.nonce
        }),
    ensures
        !post.chain.blocks.contains_key(blocks[i].hash),
        post.states.contains_key(blocks[i].hash) == pre.states.contains_key(blocks[i].hash),
        post.states[blocks[i].hash] == pre.states[blocks[i].hash],
        outcome.notes.contains(Note::BlockInvalid),
{
    let (mid, order) = law_blocks_in_two_steps(pre, blocks, post, outcome);
    let start = untouched(pre);
    let known = pre.chain.blocks.dom();
    let block = blocks[i];
    crate::laws::accounts::law_all_payable(pre.states[block.parent_hash], block.content);
    assert(blocks.contains(block));
    lemma_arrival(start, known, blocks, block);
    crate::laws::node::law_taking_grows(start, known, blocks);
    crate::laws::node::lemma_taken_not_waiting(start, known, blocks, block.hash);
    crate::laws::growth::lemma_sweeping_others(mid.state, mid.orphans, order, block.hash);
    crate::laws::growth::law_sweeping_grows(mid.state, mid.orphans, order);
    lemma_ledger_stays_absent(mid.state, mid.orphans, order, block.hash);
    if post.chain.blocks.contains_key(block.hash) {
        crate::laws::joining::law_joined_waited(mid.state, mid.orphans, order, block.hash);
        let (k, j) = choose|k: H256, j: int| #[trigger]
            crate::laws::joining::taken_out(mid.orphans, post.orphans, k, j) && mid.orphans[k][j]
                == post.chain.blocks[block.hash].0;
        assert(mid.orphans[k][j].hash == block.hash);
    }
    let at = choose|at: int|
        0 <= at < mid.state.notes.len() && mid.state.notes[at] == Note::BlockInvalid;
    assert(outcome.notes[at] == Note::BlockInvalid);
}

/// A hash that no waiting block has gets no ledger while they are gone through.
proof fn lemma_ledger_stays_absent(s: State, orphans: OrphansView, order: Seq<H256>, hash: H256)
    requires
        crate::orphan::swept(s, orphans, order) is Some,
        crate::laws::growth::not_waiting(orphans, hash),
    ensures
        (crate::orphan::swept(s, orphans, order)->0).0.states.contains_key(hash)
            == s.states.contains_key(hash),
    decreases order.len(),
{
    if order.len() > 0 {
        lemma_ledger_stays_absent(s, orphans, order.drop_last(), hash);
        crate::laws::joining::lemma_left(s, orphans, order.drop_last());
        let (before, rest) = crate::orphan::swept(s, orphans, order.drop_last())->0;
        let key = order.last();
        if before.chain.blocks.contains_key(key) && rest.contains_key(key) {
            crate::laws::growth::lemma_submap(rest, orphans, key);
            assert forall|j: int| 0 <= j < rest[key].len() implies (#[trigger] rest[key][j]).hash
                != hash by {
                assert(orphans[key][j] == rest[key][j]);
            }
            lemma_no_ledger_from(before, rest[key], hash);
        }
    }
}

proof fn lemma_no_ledger_from(s: State, blocks: Seq<BlockView>, hash: H256)
    requires
        crate::orphan::all_connected(s, blocks) is Some,
        forall|j: int| 0 <= j < blocks.len() ==> (#[trigger] blocks[j]).hash != hash,
    ensures
        (crate::orphan::all_connected(s, blocks)->0).states.contains_key(hash)
            == s.states.contains_key(hash),
    decreases blocks.len(),
{
    if blocks.len() > 0 {
        let first = blocks.drop_last();
        assert forall|j: int| 0 <= j < first.len() implies (#[trigger] first[j]).hash != hash by {
            assert(first[j] == blocks[j]);
        }
        lemma_no_ledger_from(s, first, hash);
        assert(blocks[blocks.len() - 1].hash != hash);
    }
}

/// The hash names one block at most among those that wait and those of the
/// message, and none that waits where it is known.
pub open spec fn names_one(pre: Node, blocks: Seq<BlockView>, key: H256) -> bool {
    &&& crate::laws::joining::at_most_one(pre.orphans, key)
    &&& forall|i: int, j: int|
        0 <= i < blocks.len() && 0 <= j < blocks.len() && (#[trigger] blocks[i]).hash == key && (
        #[trigger] blocks[j]).hash == key ==> i == j
    &&& pre.chain.blocks.contains_key(key) || (exists|i: int|
        0 <= i < blocks.len() && (#[trigger] blocks[i]).hash == key)
        ==> crate::laws::growth::not_waiting(pre.orphans, key)
}

proof fn lemma_names_one(pre: Node, blocks: Seq<BlockView>, key: H256)
    requires
        pre.wf(),
        crate::intake::all_taken(untouched(pre), pre.chain.blocks.dom(), blocks) is Some,
        names_one(pre, blocks, key),
    ensures
        ({
            let mid = crate::intake::all_taken(untouched(pre), pre.chain.blocks.dom(), blocks)->0;
            &&& crate::laws::joining::at_most_one(mid.orphans, key)
            &&& mid.state.chain.blocks.contains_key(key) ==> crate::laws::growth::not_waiting(
                mid.orphans,
                key,
            )
            &&& (forall|i: int| 0 <= i < blocks.len() ==> (#[trigger] blocks[i]).hash != key) ==> {
                &&& mid.state.chain.blocks.contains_key(key) == pre.chain.blocks.contains_key(key)
                &&& crate::laws::growth::not_waiting(pre.orphans, key)
                    ==> crate::laws::growth::not_waiting(mid.orphans, key)
            }
        }),
    decreases blocks.len(),
{
    if blocks.len() > 0 {
        let first = blocks.drop_last();
        let last = blocks.last();
        let known = pre.chain.blocks.dom();
        let before = crate::intake::all_taken(untouched(pre), known, first)->0;
        let mid = crate::intake::all_taken(untouched(pre), known, blocks)->0;
        assert(blocks[blocks.len() - 1] == last);
        assert forall|i: int, j: int|
            0 <= i < first.len() && 0 <= j < first.len() && (#[trigger] first[i]).hash == key && (
            #[trigger] first[j]).hash == key implies i == j by {
            assert(first[i] == blocks[i] && first[j] == blocks[j]);
        }
        if exists|i: int| 0 <= i < first.len() && (#[trigger] first[i]).hash == key {
            let i = choose|i: int| 0 <= i < first.len() && (#[trigger] first[i]).hash == key;
            assert(blocks[i].hash == key);
        }
        lemma_names_one(pre, first, key);
        crate::laws::node::law_taking_grows(untouched(pre), known, first);
        if forall|i: int| 0 <= i < blocks.len() ==> (#[trigger] blocks[i]).hash != key {
            assert forall|i: int| 0 <= i < first.len() implies (#[trigger] first[i]).hash
                != key by {
                assert(first[i] == blocks[i]);
            }
        }
        assert forall|k: H256, j: int|
            mid.orphans.contains_key(k) && 0 <= j < mid.orphans[k].len() implies {
            ||| before.orphans.contains_key(k) && j < before.orphans[k].len()
                && before.orphans[k][j] == #[trigger] mid.orphans[k][j]
            ||| mid.orphans[k][j] == last && k == last.parent_hash && j == mid.orphans[k].len() - 1
        } by {}
        if last.hash == key {
            assert forall|i: int| 0 <= i < first.len() implies (#[trigger] first[i]).hash
                != key by {
                if first[i].hash == key {
                    assert(blocks[i].hash == key);
                    assert(i == blocks.len() - 1);
                }
            }
            assert(crate::laws::growth::not_waiting(before.orphans, key));
            assert forall|k: H256, j: int, l: H256, m: int|
                mid.orphans.contains_key(k) && 0 <= j < mid.orphans[k].len()
                    && mid.orphans.contains_key(l) && 0 <= m < mid.orphans[l].len() && (
                #[trigger] mid.orphans[k][j]).hash == key && (#[trigger] mid.orphans[l][m]).hash
                    == key implies k == l && j == m by {
                if before.orphans.contains_key(k) && j < before.orphans[k].len() {
                    assert(before.orphans[k][j] == mid.orphans[k][j]);
                }
                if before.orphans.contains_key(l) && m < before.orphans[l].len() {
                    assert(before.orphans[l][m] == mid.orphans[l][m]);
                }
            }
            if mid.state.chain.blocks.contains_key(key) {
                assert forall|k: H256, j: int|
                    mid.orphans.contains_key(k) && 0 <= j < mid.orphans[k].len() implies (
                #[trigger] mid.orphans[k][j]).hash != key by {
                    if before.orphans.contains_key(k) && j < before.orphans[k].len() {
                        assert(before.orphans[k][j] == mid.orphans[k][j]);
                    }
                }
            }
        } else {
            assert forall|k: H256, j: int, l: H256, m: int|
                mid.orphans.contains_key(k) && 0 <= j < mid.orphans[k].len()
                    && mid.orphans.contains_key(l) && 0 <= m < mid.orphans[l].len() && (
                #[trigger] mid.orphans[k][j]).hash == key && (#[trigger] mid.orphans[l][m]).hash
                    == key implies k == l && j == m by {
                assert(before.orphans[k][j] == mid.orphans[k][j]);
                assert(before.orphans[l][m] == mid.orphans[l][m]);
            }
            if crate::laws::growth::not_waiting(before.orphans, key) {
                assert forall|k: H256, j: int|
                    mid.orphans.contains_key(k) && 0 <= j < mid.orphans[k].len() implies (
                #[trigger] mid.orphans[k][j]).hash != key by {
                    if before.orphans.contains_key(k) && j < before.orphans[k].len() {
                        assert(before.orphans[k][j] == mid.orphans[k][j]);
                    }
                }
            }
        }
    }
}

/// No block is lost: one that waited before the message, or came with it as a
/// new one that shows work and whose parent was not known, waits afterwards,
/// or its parent is known by then and the block is known too, unless one of
/// its transfers has no valid signature, exceeds what the parent left its
/// owner, or has not the next nonce. (That is stated of blocks whose parent's
/// hash names one block only.)
pub proof fn law_no_block_is_lost(
    pre: Node,
    blocks: Seq<BlockView>,
    post: Node,
    outcome: OutcomeView,
    block: BlockView,
)
    requires
        pre.wf(),
        crate::worker::handled(pre, MessageView::Blocks(blocks), post, outcome),
        names_one(pre, blocks, block.parent_hash),
        ({
            ||| pre.orphans.contains_key(block.parent_hash)
                && pre.orphans[block.parent_hash].contains(block)
            ||| {
                &&& blocks.contains(block)
                &&& !pre.chain.blocks.contains_key(block.hash)
                &&& block.difficulty == pre.chain.diff
                &&& crate::hash::be_value(block.hash.bytes@) <= crate::hash::be_value(
                    pre.chain.diff.bytes@,
                )
                &&& !pre.chain.blocks.contains_key(block.parent_hash)
            }
        }),
    ensures
        ({
            let ledger = post.states[block.parent_hash];
            let good = forall|n: int|
                0 <= n < block.content.len() ==> {
                    &&& (#[trigger] block.content[n]).verified
                    &&& ledger[block.content[n].owner].1 >= block.content[n].transaction.value
                    &&& ledger[block.content[n].owner].0 + 1 == block.content[n].transaction.nonce
                };
            ||| post.orphans.contains_key(block.parent_hash)
                && post.orphans[block.parent_hash].contains(block)
            ||| post.chain.blocks.contains_key(block.parent_hash) && (good
                ==> post.chain.blocks.contains_key(block.hash) && post.states.contains_key(
                block.hash,
            ))
        }),
{
    let (mid, order) = law_blocks_in_two_steps(pre, blocks, post, outcome);
    let start = untouched(pre);
    let known = pre.chain.blocks.dom();
    let key = block.parent_hash;
    let diff = pre.chain.diff;
    crate::laws::node::law_taking_grows(start, known, blocks);
    crate::laws::joining::lemma_left(mid.state, mid.orphans, order);
    lemma_taken_waits(start, known, blocks, key);
    lemma_names_one(pre, blocks, key);
    lemma_waiting_wf(start, known, blocks);
    let test = |b: BlockView|
        b.parent_hash == key && !known.contains(key) && !known.contains(b.hash) && b.difficulty
            == diff && crate::hash::be_value(b.hash.bytes@) <= crate::hash::be_value(diff.bytes@);
    let aside = blocks.filter(test);
    let before = if pre.orphans.contains_key(key) {
        pre.orphans[key]
    } else {
        Seq::empty()
    };
    assert(mid.orphans.contains_key(key) && mid.orphans[key].contains(block)) by {
        broadcast use vstd::seq_lib::group_filter_ensures;

        if before.contains(block) {
            let j = choose|j: int| 0 <= j < before.len() && before[j] == block;
            assert(mid.orphans[key][j] == block);
        } else {
            let i = choose|i: int| 0 <= i < blocks.len() && blocks[i] == block;
            assert(test(blocks[i]));
            assert(aside.contains(blocks[i]));
            let j = choose|j: int| 0 <= j < aside.len() && aside[j] == block;
            assert(mid.orphans[key][before.len() + j] == block);
        }
    }
    let at = choose|at: int| 0 <= at < mid.orphans[key].len() && mid.orphans[key][at] == block;
    if post.orphans.contains_key(key) {
        crate::laws::growth::lemma_submap(post.orphans, mid.orphans, key);
    } else {
        crate::laws::joining::law_nothing_is_lost(mid.state, mid.orphans, order, key, at);
    }
}

/// Taking in blocks keeps the buffer well-formed.
proof fn lemma_waiting_wf(s: Intake, known: Set<H256>, blocks: Seq<BlockView>)
    requires
        crate::orphan::orphans_wf(s.orphans),
        crate::intake::all_taken(s, known, blocks) is Some,
    ensures
        crate::orphan::orphans_wf((crate::intake::all_taken(s, known, blocks)->0).orphans),
    decreases blocks.len(),
{
    if blocks.len() > 0 {
        lemma_waiting_wf(s, known, blocks.drop_last());
        let before = (crate::intake::all_taken(s, known, blocks.drop_last())->0).orphans;
        let after = (crate::intake::all_taken(s, known, blocks)->0).orphans;
        assert forall|key: H256| #[trigger] after.contains_key(key) implies {
            &&& after[key].len() > 0
            &&& forall|i: int|
                0 <= i < after[key].len() ==> (#[trigger] after[key][i]).parent_hash == key
        } by {
            assert(before.contains_key(key) || key == blocks.last().parent_hash);
            if before.contains_key(key) {
                assert forall|i: int| 0 <= i < after[key].len() implies (
                #[trigger] after[key][i]).parent_hash == key by {
                    if i < before[key].len() {
                        assert(before[key][i] == after[key][i]);
                    }
                }
            }
        }
    }
}

/// The transfer with the given hash is one of those of a block that is known
/// and has valid signatures only.
pub open spec fn settled_in(
    block: BlockView,
    known: Map<H256, (BlockView, usize)>,
    tx_hash: H256,
) -> bool {
    &&& known.contains_key(block.hash)
    &&& exists|n: int| 0 <= n < block.content.len() && (#[trigger] block.content[n]).hash == tx_hash
    &&& forall|n: int| 0 <= n < block.content.len() ==> (#[trigger] block.content[n]).verified
}

proof fn lemma_departed(s: State, block: BlockView, basis: Basis, h: H256)
    requires
        crate::connect::connected(s, block, basis) is Some,
        s.pool.contains_key(h),
        !(crate::connect::connected(s, block, basis)->0).pool.contains_key(h),
    ensures
        settled_in(block, (crate::connect::connected(s, block, basis)->0).chain.blocks, h),
{
    crate::laws::accounts::law_all_payable(s.states[block.parent_hash], block.content);
    assert(crate::mempool::has_hash(block.content, h));
}

proof fn lemma_connecting_departs(s: State, blocks: Seq<BlockView>, h: H256)
    requires
        crate::orphan::all_connected(s, blocks) is Some,
        s.pool.contains_key(h),
        !(crate::orphan::all_connected(s, blocks)->0).pool.contains_key(h),
    ensures
        exists|j: int|
            0 <= j < blocks.len() && settled_in(
                #[trigger] blocks[j],
                (crate::orphan::all_connected(s, blocks)->0).chain.blocks,
                h,
            ),
    decreases blocks.len(),
{
    if blocks.len() > 0 {
        let first = blocks.drop_last();
        let before = crate::orphan::all_connected(s, first)->0;
        assert(blocks[blocks.len() - 1] == blocks.last());
        if before.pool.contains_key(h) {
            lemma_departed(before, blocks.last(), Basis::Parent, h);
        } else {
            lemma_connecting_departs(s, first, h);
            let j = choose|j: int|
                0 <= j < first.len() && settled_in(#[trigger] first[j], before.chain.blocks, h);
            assert(blocks[j] == first[j]);
        }
    }
}

proof fn lemma_sweeping_departs(s: State, orphans: OrphansView, order: Seq<H256>, h: H256)
    requires
        crate::orphan::swept(s, orphans, order) is Some,
        s.pool.contains_key(h),
        !(crate::orphan::swept(s, orphans, order)->0).0.pool.contains_key(h),
    ensures
        exists|k: H256, j: int|
            orphans.contains_key(k) && 0 <= j < orphans[k].len() && settled_in(
                #[trigger] orphans[k][j],
                (crate::orphan::swept(s, orphans, order)->0).0.chain.blocks,
                h,
            ),
    decreases order.len(),
{
    if order.len() > 0 {
        let first = order.drop_last();
        let key = order.last();
        let (before, rest) = crate::orphan::swept(s, orphans, first)->0;
        let after = (crate::orphan::swept(s, orphans, order)->0).0;
        crate::laws::joining::lemma_left(s, orphans, first);
        if before.pool.contains_key(h) {
            lemma_connecting_departs(before, rest[key], h);
            crate::laws::growth::lemma_submap(rest, orphans, key);
            let j = choose|j: int|
                0 <= j < rest[key].len() && settled_in(
                    #[trigger] rest[key][j],
                    after.chain.blocks,
                    h,
                );
            assert(settled_in(orphans[key][j], after.chain.blocks, h));
        } else {
            lemma_sweeping_departs(s, orphans, first, h);
            let (k, j) = choose|k: H256, j: int|
                orphans.contains_key(k) && 0 <= j < orphans[k].len() && settled_in(
                    #[trigger] orphans[k][j],
                    before.chain.blocks,
                    h,
                );
            if before.chain.blocks.contains_key(key) && rest.contains_key(key) {
                crate::laws::joining::lemma_connecting_keeps(
                    before,
                    rest[key],
                    orphans[k][j].hash,
                );
            }
            assert(settled_in(orphans[k][j], after.chain.blocks, h));
        }
    }
}

proof fn lemma_taking_departs(s: Intake, known: Set<H256>, blocks: Seq<BlockView>, h: H256)
    requires
        crate::intake::all_taken(s, known, blocks) is Some,
        s.state.pool.contains_key(h),
        !(crate::intake::all_taken(s, known, blocks)->0).state.pool.contains_key(h),
    ensures
        exists|j: int|
            0 <= j < blocks.len() && settled_in(
                #[trigger] blocks[j],
                (crate::intake::all_taken(s, known, blocks)->0).state.chain.blocks,
                h,
            ),
    decreases blocks.len(),
{
    if blocks.len() > 0 {
        let first = blocks.drop_last();
        let before = crate::intake::all_taken(s, known, first)->0;
        assert(blocks[blocks.len() - 1] == blocks.last());
        if before.state.pool.contains_key(h) {
            lemma_departed(before.state, blocks.last(), Basis::Running, h);
        } else {
            lemma_taking_departs(s, known, first, h);
            let j = choose|j: int|
                0 <= j < first.len() && settled_in(
                    #[trigger] first[j],
                    before.state.chain.blocks,
                    h,
                );
            assert(blocks[j] == first[j]);
        }
    }
}

/// What waits in the pool after a message with blocks waited there before, and
/// a transfer leaves the pool only by way of a block that came with the message
/// or waited, has valid signatures only, and is known afterwards.
pub proof fn law_transfers_leave(
    pre: Node,
    blocks: Seq<BlockView>,
    post: Node,
    outcome: OutcomeView,
    h: H256,
)
    requires
        pre.wf(),
        crate::worker::handled(pre, MessageView::Blocks(blocks), post, outcome),
    ensures
        post.pool.contains_key(h) ==> pre.pool.contains_key(h) && post.pool[h] == pre.pool[h],
        pre.pool.contains_key(h) && !post.pool.contains_key(h) ==> exists|block: BlockView|
            {
                &&& #[trigger] settled_in(block, post.chain.blocks, h)
                &&& blocks.contains(block) || exists|k: H256, j: int|
                    pre.orphans.contains_key(k) && 0 <= j < pre.orphans[k].len()
                        && #[trigger] pre.orphans[k][j] == block
            },
{
    let (mid, order) = law_blocks_in_two_steps(pre, blocks, post, outcome);
    let start = untouched(pre);
    let known = pre.chain.blocks.dom();
    crate::laws::node::lemma_blocks_shrink_pool(pre, blocks, post, outcome);
    if post.pool.contains_key(h) {
        crate::laws::growth::lemma_submap(post.pool, pre.pool, h);
    }
    if pre.pool.contains_key(h) && !post.pool.contains_key(h) {
        if mid.state.pool.contains_key(h) {
            lemma_sweeping_departs(mid.state, mid.orphans, order, h);
            let (k, j) = choose|k: H256, j: int|
                mid.orphans.contains_key(k) && 0 <= j < mid.orphans[k].len() && settled_in(
                    #[trigger] mid.orphans[k][j],
                    post.chain.blocks,
                    h,
                );
            lemma_waiting_source(start, known, blocks, k, j);
            let block = mid.orphans[k][j];
            assert(settled_in(block, post.chain.blocks, h));
            if !blocks.contains(block) {
                assert(pre.orphans[k][j] == block);
            }
        } else {
            lemma_taking_departs(start, known, blocks, h);
            let j = choose|j: int|
                0 <= j < blocks.len() && settled_in(
                    #[trigger] blocks[j],
                    mid.state.chain.blocks,
                    h,
                );
            lemma_sweeping_keeps(mid.state, mid.orphans, order, blocks[j].hash);
            assert(settled_in(blocks[j], post.chain.blocks, h));
            assert(blocks.contains(blocks[j]));
        }
    }
}

/// The peer that sent blocks is asked for each block that is waited for in the
/// end, once, and for nothing else.
pub proof fn law_missing_are_asked_for(
    pre: Node,
    blocks: Seq<BlockView>,
    post: Node,
    outcome: OutcomeView,
)
    requires
        crate::worker::handled(pre, MessageView::Blocks(blocks), post, outcome),
    ensures
        match outcome.reply {
            None => forall|k: H256| !post.orphans.contains_key(k),
            Some(MessageView::GetBlocks(hashes)) => {
                &&& hashes.len() > 0
                &&& hashes.no_duplicates()
                &&& forall|k: H256| #[trigger] hashes.contains(k) <==> post.orphans.contains_key(k)
            },
            _ => false,
        },
{
    crate::laws::node::law_blocks_answer(pre, blocks, post, outcome);
    let missing = choose|missing: Seq<H256>|
        crate::table::is_walk(missing, post.orphans.dom()) && outcome.reply
            == #[trigger] crate::message::get_blocks(missing);
    assert forall|k: H256| #[trigger] missing.contains(k) <==> post.orphans.contains_key(k) by {
        assert(missing.contains(k) <==> missing.to_set().contains(k));
    }
    if missing.len() == 0 {
        assert forall|k: H256| !post.orphans.contains_key(k) by {
            assert(missing.contains(k) <==> post.orphans.contains_key(k));
        }
    }
}

} // verus!
