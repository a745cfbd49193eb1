//! What every message keeps.

use vstd::prelude::*;
use crate::block::BlockView;
use crate::blockchain::ChainView;
use crate::connect::State;
use crate::hash::{H160, H256};
use crate::intake::Intake;
use crate::ledger::Basis;
use crate::message::{MessageView, OutcomeView};
use crate::orphan::OrphansView;
use crate::worker::Node;

verus! {

/// Taking in one block only lets the state grow.
pub(crate) proof fn lemma_taken_grows(s: Intake, known: Set<H256>, block: BlockView)
    requires
        s.state.chain.blocks.contains_key(s.state.chain.tail),
        crate::intake::taken(s, known, block) is Some,
    ensures
        ({
            let after = crate::intake::taken(s, known, block)->0;
            &&& crate::laws::growth::grows(s.state, after.state)
            &&& s.announced.is_prefix_of(after.announced)
        }),
{
    let after = crate::intake::taken(s, known, block)->0;
    if crate::connect::connected(s.state, block, Basis::Running) is Some {
        crate::laws::growth::law_connecting_grows(s.state, block, Basis::Running);
    }
    assert(s.state.notes =~= after.state.notes.take(s.state.notes.len() as int));
    assert(s.announced =~= after.announced.take(s.announced.len() as int));
}

/// Taking in blocks only lets the state grow, and leaves every known block
/// with a ledger where every known block had one.
pub proof fn law_taking_grows(s: Intake, known: Set<H256>, blocks: Seq<BlockView>)
    requires
        s.state.chain.blocks.contains_key(s.state.chain.tail),
        crate::intake::all_taken(s, known, blocks) is Some,
    ensures
        ({
            let after = crate::intake::all_taken(s, known, blocks)->0;
            &&& crate::laws::growth::grows(s.state, after.state)
            &&& crate::laws::growth::covered(s.state.chain, s.state.states)
                ==> crate::laws::growth::covered(after.state.chain, after.state.states)
        }),
    decreases blocks.len(),
{
    if blocks.len() > 0 {
        law_taking_grows(s, known, blocks.drop_last());
        let before = crate::intake::all_taken(s, known, blocks.drop_last())->0;
        let after = crate::intake::all_taken(s, known, blocks)->0;
        lemma_taken_grows(before, known, blocks.last());
        crate::laws::growth::lemma_grows_trans(s.state, before.state, after.state);
    } else {
        crate::laws::growth::lemma_grows_refl(s.state);
    }
}

/// What a node knows only grows, whatever message it handles: accounts stay as
/// they were entered, blocks stay in the chain, the longest branch does not
/// become shorter, and a block that left a ledger has one.
pub proof fn law_knowledge_grows(
    pre: Node,
    msg: MessageView,
    post: Node,
    outcome: OutcomeView,
)
    requires
        pre.wf(),
        crate::worker::handled(pre, msg, post, outcome),
    ensures
        pre.init.submap_of(post.init),
        crate::laws::growth::chain_grows(pre.chain, post.chain),
        pre.states.dom().subset_of(post.states.dom()),
{
    if let MessageView::Blocks(blocks) = msg {
        lemma_blocks_grow(pre, blocks, post, outcome);
    }
}

proof fn lemma_blocks_grow(pre: Node, blocks: Seq<BlockView>, post: Node, outcome: OutcomeView)
    requires
        pre.wf(),
        crate::worker::handled(pre, MessageView::Blocks(blocks), post, outcome),
    ensures
        crate::laws::growth::grows(pre.state(), State { notes: outcome.notes, ..post.state() }),
{
    let (order, missing) = choose|order: Seq<H256>, missing: Seq<H256>|
        {
            &&& crate::intake::orders_fit(pre.state(), pre.orphans, blocks, order, missing)
            &&& #[trigger] crate::intake::blocks_handled(
                pre.state(),
                pre.orphans,
                blocks,
                order,
                missing,
            ) == Some((State { notes: outcome.notes, ..post.state() }, post.orphans, outcome))
        };
    let start = Intake { state: pre.state(), orphans: pre.orphans, announced: Seq::empty() };
    let intake = crate::intake::all_taken(start, pre.chain.blocks.dom(), blocks)->0;
    law_taking_grows(start, pre.chain.blocks.dom(), blocks);
    crate::laws::growth::law_sweeping_grows(intake.state, intake.orphans, order);
    crate::laws::growth::lemma_grows_trans(
        pre.state(),
        intake.state,
        State { notes: outcome.notes, ..post.state() },
    );
}

/// A message with blocks lets no transfer join the pool.
pub(crate) proof fn lemma_blocks_shrink_pool(
    pre: Node,
    blocks: Seq<BlockView>,
    post: Node,
    outcome: OutcomeView,
)
    requires
        pre.wf(),
        crate::worker::handled(pre, MessageView::Blocks(blocks), post, outcome),
    ensures
        post.pool.submap_of(pre.pool),
{
    lemma_blocks_grow(pre, blocks, post, outcome);
}

/// Where every known block left a ledger, that is so after any message.
pub proof fn law_ledgers_cover(pre: Node, msg: MessageView, post: Node, outcome: OutcomeView)
    requires
        pre.wf(),
        crate::laws::growth::covered(pre.chain, pre.states),
        crate::worker::handled(pre, msg, post, outcome),
    ensures
        crate::laws::growth::covered(post.chain, post.states),
{
    if let MessageView::Blocks(blocks) = msg {
        let (order, missing) = choose|order: Seq<H256>, missing: Seq<H256>|
            {
                &&& crate::intake::orders_fit(pre.state(), pre.orphans, blocks, order, missing)
                &&& #[trigger] crate::intake::blocks_handled(
                    pre.state(),
                    pre.orphans,
                    blocks,
                    order,
                    missing,
                ) == Some(
                    (State { notes: outcome.notes, ..post.state() }, post.orphans, outcome),
                )
            };
        let start = Intake { state: pre.state(), orphans: pre.orphans, announced: Seq::empty() };
        let intake = crate::intake::all_taken(start, pre.chain.blocks.dom(), blocks)->0;
        law_taking_grows(start, pre.chain.blocks.dom(), blocks);
        crate::laws::growth::law_sweeping_covers(intake.state, intake.orphans, order);
    }
}

/// Once accounts are made known to a node that knows only its first block,
/// every known block has a ledger.
pub proof fn law_ack_covers(pre: Node, peers: Seq<H160>, post: Node, outcome: OutcomeView)
    requires
        pre.chain.blocks.dom() == set![pre.chain.tail],
        crate::worker::handled(pre, MessageView::Ack(peers), post, outcome),
    ensures
        crate::laws::growth::covered(post.chain, post.states),
        post.states[post.chain.tail] == post.init,
{
}

/// Every block above the first shows work.
pub open spec fn chain_worked(chain: ChainView) -> bool {
    forall|h: H256| #[trigger]
        chain.blocks.contains_key(h) && chain.height_of(h) > 0 ==> crate::intake::worked(
            chain.diff,
            chain.blocks[h].0,
        )
}

/// Every waiting block shows work.
pub open spec fn orphans_worked(diff: H256, orphans: OrphansView) -> bool {
    forall|key: H256, i: int|
        orphans.contains_key(key) && 0 <= i < orphans[key].len() ==> crate::intake::worked(
            diff,
            #[trigger] orphans[key][i],
        )
}

proof fn lemma_worked_connected(s: State, block: BlockView, basis: Basis)
    requires
        chain_worked(s.chain),
        crate::intake::worked(s.chain.diff, block),
        crate::connect::connected(s, block, basis) is Some,
    ensures
        chain_worked((crate::connect::connected(s, block, basis)->0).chain),
        (crate::connect::connected(s, block, basis)->0).chain.diff == s.chain.diff,
{
    let after = (crate::connect::connected(s, block, basis)->0).chain;
    assert forall|h: H256| #[trigger]
        after.blocks.contains_key(h) && after.height_of(h) > 0 implies crate::intake::worked(
        after.diff,
        after.blocks[h].0,
    ) by {
        if after.blocks[h].0 != block {
            assert(s.chain.blocks.contains_key(h));
        }
    }
}

proof fn lemma_worked_all_connected(s: State, blocks: Seq<BlockView>)
    requires
        chain_worked(s.chain),
        forall|i: int|
            0 <= i < blocks.len() ==> crate::intake::worked(s.chain.diff, #[trigger] blocks[i]),
        crate::orphan::all_connected(s, blocks) is Some,
    ensures
        chain_worked((crate::orphan::all_connected(s, blocks)->0).chain),
        (crate::orphan::all_connected(s, blocks)->0).chain.diff == s.chain.diff,
    decreases blocks.len(),
{
    if blocks.len() > 0 {
        let first = blocks.drop_last();
        assert forall|i: int| 0 <= i < first.len() implies crate::intake::worked(
            s.chain.diff,
            #[trigger] first[i],
        ) by {
            assert(first[i] == blocks[i]);
        }
        lemma_worked_all_connected(s, first);
        assert(blocks[blocks.len() - 1] == blocks.last());
        lemma_worked_connected(
            crate::orphan::all_connected(s, first)->0,
            blocks.last(),
            Basis::Parent,
        );
    }
}

/// Going through the waiting blocks lets no block without work into the chain.
pub proof fn law_sweeping_keeps_work(s: State, orphans: OrphansView, order: Seq<H256>)
    requires
        chain_worked(s.chain),
        orphans_worked(s.chain.diff, orphans),
        crate::orphan::swept(s, orphans, order) is Some,
    ensures
        ({
            let (after, left) = crate::orphan::swept(s, orphans, order)->0;
            &&& after.chain.diff == s.chain.diff
            &&& chain_worked(after.chain)
            &&& orphans_worked(after.chain.diff, left)
        }),
    decreases order.len(),
{
    if order.len() > 0 {
        let key = order.last();
        law_sweeping_keeps_work(s, orphans, order.drop_last());
        let (before, left) = crate::orphan::swept(s, orphans, order.drop_last())->0;
        if before.chain.blocks.contains_key(key) && left.contains_key(key) {
            assert forall|i: int| 0 <= i < left[key].len() implies crate::intake::worked(
                before.chain.diff,
                #[trigger] left[key][i],
            ) by {}
            lemma_worked_all_connected(before, left[key]);
            let rest = left.remove(key);
            assert forall|k: H256, i: int|
                rest.contains_key(k) && 0 <= i < rest[k].len() implies crate::intake::worked(
                before.chain.diff,
                #[trigger] rest[k][i],
            ) by {
                assert(left[k][i] == rest[k][i]);
            }
        }
    }
}

/// Taking in blocks lets none without work into the chain or the buffer.
pub proof fn law_taking_keeps_work(s: Intake, known: Set<H256>, blocks: Seq<BlockView>)
    requires
        chain_worked(s.state.chain),
        orphans_worked(s.state.chain.diff, s.orphans),
        crate::intake::all_taken(s, known, blocks) is Some,
    ensures
        ({
            let after = crate::intake::all_taken(s, known, blocks)->0;
            &&& after.state.chain.diff == s.state.chain.diff
            &&& chain_worked(after.state.chain)
            &&& orphans_worked(after.state.chain.diff, after.orphans)
        }),
    decreases blocks.len(),
{
    if blocks.len() > 0 {
        let block = blocks.last();
        law_taking_keeps_work(s, known, blocks.drop_last());
        let before = crate::intake::all_taken(s, known, blocks.drop_last())->0;
        let diff = before.state.chain.diff;
        if !known.contains(block.hash) && crate::intake::worked(diff, block) {
            if known.contains(block.parent_hash) {
                lemma_worked_connected(before.state, block, Basis::Running);
            } else {
                let after = crate::orphan::with_orphan(before.orphans, block);
                assert forall|k: H256, i: int|
                    after.contains_key(k) && 0 <= i < after[k].len() implies crate::intake::worked(
                    diff,
                    #[trigger] after[k][i],
                ) by {
                    if k != block.parent_hash || i < after[k].len() - 1 {
                        assert(before.orphans.contains_key(k));
                        assert(before.orphans[k][i] == after[k][i]);
                    }
                }
            }
        }
    }
}

/// No message lets a block without work into the chain, or lets one wait.
pub proof fn law_work_required(pre: Node, msg: MessageView, post: Node, outcome: OutcomeView)
    requires
        chain_worked(pre.chain),
        orphans_worked(pre.chain.diff, pre.orphans),
        crate::worker::handled(pre, msg, post, outcome),
    ensures
        post.chain.diff == pre.chain.diff,
        chain_worked(post.chain),
        orphans_worked(post.chain.diff, post.orphans),
{
    if let MessageView::Blocks(blocks) = msg {
        let (order, missing) = choose|order: Seq<H256>, missing: Seq<H256>|
            {
                &&& crate::intake::orders_fit(pre.state(), pre.orphans, blocks, order, missing)
                &&& #[trigger] crate::intake::blocks_handled(
                    pre.state(),
                    pre.orphans,
                    blocks,
                    order,
                    missing,
                ) == Some(
                    (State { notes: outcome.notes, ..post.state() }, post.orphans, outcome),
                )
            };
        let start = Intake { state: pre.state(), orphans: pre.orphans, announced: Seq::empty() };
        let intake = crate::intake::all_taken(start, pre.chain.blocks.dom(), blocks)->0;
        law_taking_keeps_work(start, pre.chain.blocks.dom(), blocks);
        law_sweeping_keeps_work(intake.state, intake.orphans, order);
    }
}

/// The hashes of those of the blocks that were not known and show work.
pub open spec fn fresh_work(diff: H256, known: Set<H256>, blocks: Seq<BlockView>) -> Seq<H256> {
    blocks.filter(
        |block: BlockView| !known.contains(block.hash) && crate::intake::worked(diff, block),
    ).map_values(|block: BlockView| block.hash)
}

/// Announced are the blocks that were not known and show work, in order,
/// whether they were accepted, refused or set aside.
pub proof fn law_announced(s: Intake, known: Set<H256>, blocks: Seq<BlockView>)
    requires
        crate::intake::all_taken(s, known, blocks) is Some,
    ensures
        ({
            let after = crate::intake::all_taken(s, known, blocks)->0;
            &&& after.state.chain.diff == s.state.chain.diff
            &&& after.announced == s.announced + fresh_work(s.state.chain.diff, known, blocks)
        }),
    decreases blocks.len(),
{
    reveal(Seq::filter);
    let diff = s.state.chain.diff;
    if blocks.len() > 0 {
        law_announced(s, known, blocks.drop_last());
        let before = crate::intake::all_taken(s, known, blocks.drop_last())->0;
        let after = crate::intake::all_taken(s, known, blocks)->0;
        assert(after.announced =~= s.announced + fresh_work(diff, known, blocks));
    } else {
        assert(s.announced =~= s.announced + fresh_work(diff, known, blocks));
    }
}

/// A message with blocks that are all known, or show no work, tells the node
/// nothing: it only goes through the waiting blocks once more.
pub proof fn law_stale_blocks_pass(s: Intake, known: Set<H256>, blocks: Seq<BlockView>)
    requires
        forall|i: int|
            0 <= i < blocks.len() ==> known.contains((#[trigger] blocks[i]).hash)
                || !crate::intake::worked(s.state.chain.diff, blocks[i]),
    ensures
        crate::intake::all_taken(s, known, blocks) == Some(s),
    decreases blocks.len(),
{
    if blocks.len() > 0 {
        let first = blocks.drop_last();
        assert forall|i: int| 0 <= i < first.len() implies known.contains(
            (#[trigger] first[i]).hash,
        ) || !crate::intake::worked(s.state.chain.diff, first[i]) by {
            assert(first[i] == blocks[i]);
        }
        law_stale_blocks_pass(s, known, first);
        assert(blocks[blocks.len() - 1] == blocks.last());
    }
}

/// What a message with blocks makes the node send: it asks the peer for just
/// the blocks that are waited for in the end, and announces just the blocks
/// that were not known and show work.
pub proof fn law_blocks_answer(
    pre: Node,
    blocks: Seq<BlockView>,
    post: Node,
    outcome: OutcomeView,
)
    requires
        crate::worker::handled(pre, MessageView::Blocks(blocks), post, outcome),
    ensures
        exists|missing: Seq<H256>|
            crate::table::is_walk(missing, post.orphans.dom()) && outcome.reply
                == #[trigger] crate::message::get_blocks(missing),
        outcome.broadcast == crate::message::new_block_hashes(
            fresh_work(pre.chain.diff, pre.chain.blocks.dom(), blocks),
        ),
{
    let (order, missing) = choose|order: Seq<H256>, missing: Seq<H256>|
        {
            &&& crate::intake::orders_fit(pre.state(), pre.orphans, blocks, order, missing)
            &&& #[trigger] crate::intake::blocks_handled(
                pre.state(),
                pre.orphans,
                blocks,
                order,
                missing,
            ) == Some((State { notes: outcome.notes, ..post.state() }, post.orphans, outcome))
        };
    let known = pre.chain.blocks.dom();
    let start = Intake { state: pre.state(), orphans: pre.orphans, announced: Seq::empty() };
    law_announced(start, known, blocks);
    let intake = crate::intake::all_taken(start, known, blocks)->0;
    assert(intake.announced =~= fresh_work(pre.chain.diff, known, blocks));
    assert(outcome.reply == crate::message::get_blocks(missing));
}

/// A new block of a message that shows work and whose parent was known joins
/// the chain where the ledger that the parent has at that point accepts it.
pub(crate) proof fn lemma_good_block_taken(
    s: Intake,
    known: Set<H256>,
    blocks: Seq<BlockView>,
    i: int,
)
    requires
        s.state.chain.blocks.contains_key(s.state.chain.tail),
        crate::intake::all_taken(s, known, blocks) is Some,
        0 <= i < blocks.len(),
        !known.contains(blocks[i].hash),
        crate::intake::worked(s.state.chain.diff, blocks[i]),
        known.contains(blocks[i].parent_hash),
        crate::connect::accepts(
            (crate::intake::all_taken(s, known, blocks.take(i))->0).state.states,
            blocks[i],
        ),
    ensures
        ({
            let before = crate::intake::all_taken(s, known, blocks.take(i))->0;
            let after = crate::intake::all_taken(s, known, blocks)->0;
            &&& after.state.chain.blocks.contains_key(blocks[i].hash)
            &&& !before.state.chain.blocks.contains_key(blocks[i].hash)
                ==> after.state.chain.blocks[blocks[i].hash].0 == blocks[i]
            &&& (forall|j: int|
                i < j < blocks.len() ==> (#[trigger] blocks[j]).hash != blocks[i].hash) ==> Some(
                after.state.states[blocks[i].hash],
            ) == crate::ledger::settled(
                before.state.states[blocks[i].parent_hash],
                blocks[i].content,
                Basis::Running,
            )
            &&& after.announced.contains(blocks[i].hash)
        }),
    decreases blocks.len(),
{
    let first = blocks.drop_last();
    let before = crate::intake::all_taken(s, known, first)->0;
    let after = crate::intake::all_taken(s, known, blocks)->0;
    law_taking_grows(s, known, first);
    law_announced(s, known, first);
    if i == blocks.len() - 1 {
        assert(blocks.take(i) =~= first);
        crate::laws::growth::law_accepted_joins(before.state, blocks[i], Basis::Running);
        assert(after.announced[before.announced.len() as int] == blocks[i].hash);
    } else {
        assert(first.take(i) =~= blocks.take(i));
        assert(first[i] == blocks[i]);
        lemma_good_block_taken(s, known, first, i);
        lemma_taken_grows(before, known, blocks.last());
        crate::laws::growth::lemma_submap(
            before.state.chain.blocks,
            after.state.chain.blocks,
            blocks[i].hash,
        );
        let at = choose|at: int|
            0 <= at < before.announced.len() && before.announced[at] == blocks[i].hash;
        assert(after.announced[at] == blocks[i].hash);
        if forall|j: int| i < j < blocks.len() ==> (#[trigger] blocks[j]).hash != blocks[i].hash {
            assert forall|j: int| i < j < first.len() implies (#[trigger] first[j]).hash
                != first[i].hash by {
                assert(first[j] == blocks[j]);
            }
            assert(blocks[blocks.len() - 1].hash != blocks[i].hash);
        }
    }
}

/// Where no waiting block has the given hash, and those of a message that have
/// it lie on top of a known block, none waits after these were taken in.
pub(crate) proof fn lemma_taken_not_waiting(
    s: Intake,
    known: Set<H256>,
    blocks: Seq<BlockView>,
    hash: H256,
)
    requires
        crate::intake::all_taken(s, known, blocks) is Some,
        crate::laws::growth::not_waiting(s.orphans, hash),
        forall|j: int|
            0 <= j < blocks.len() && (#[trigger] blocks[j]).hash == hash ==> known.contains(
                blocks[j].parent_hash,
            ),
    ensures
        crate::laws::growth::not_waiting(
            (crate::intake::all_taken(s, known, blocks)->0).orphans,
            hash,
        ),
    decreases blocks.len(),
{
    if blocks.len() > 0 {
        let first = blocks.drop_last();
        let block = blocks.last();
        assert forall|j: int|
            0 <= j < first.len() && (#[trigger] first[j]).hash == hash implies known.contains(
            first[j].parent_hash,
        ) by {
            assert(first[j] == blocks[j]);
        }
        lemma_taken_not_waiting(s, known, first, hash);
        let before = (crate::intake::all_taken(s, known, first)->0).orphans;
        let after = (crate::intake::all_taken(s, known, blocks)->0).orphans;
        assert(blocks[blocks.len() - 1] == block);
        assert forall|k: H256, j: int| after.contains_key(k) && 0 <= j < after[k].len() implies (
        #[trigger] after[k][j]).hash != hash by {
            if before.contains_key(k) && j < before[k].len() {
                assert(before[k][j] == after[k][j]);
            } else {
                assert(after[k][j] == block);
            }
        }
    }
}

/// Every block of a message that is new and shows work, whose parent was known
/// before the message, and that the ledger of its parent accepts at the point
/// where the block is looked at, is known once the message was handled, and is
/// announced. It is the block itself that is kept, unless one with the same
/// hash came before it, and the ledger that its transfers make of that of its
/// parent, unless another block of the message or one that waits has its hash.
pub proof fn law_good_block_joins(
    pre: Node,
    blocks: Seq<BlockView>,
    post: Node,
    outcome: OutcomeView,
    i: int,
)
    requires
        pre.wf(),
        crate::worker::handled(pre, MessageView::Blocks(blocks), post, outcome),
        0 <= i < blocks.len(),
        !pre.chain.blocks.contains_key(blocks[i].hash),
        crate::intake::worked(pre.chain.diff, blocks[i]),
        pre.chain.blocks.contains_key(blocks[i].parent_hash),
        crate::connect::accepts(
            (crate::intake::all_taken(
                Intake { state: pre.state(), orphans: pre.orphans, announced: Seq::empty() },
                pre.chain.blocks.dom(),
                blocks.take(i),
            )->0).state.states,
            blocks[i],
        ),
    ensures
        post.chain.blocks.contains_key(blocks[i].hash),
        (forall|j: int| 0 <= j < i ==> (#[trigger] blocks[j]).hash != blocks[i].hash)
            ==> post.chain.blocks[blocks[i].hash].0 == blocks[i],
        crate::laws::growth::not_waiting(pre.orphans, blocks[i].hash) && (forall|j: int|
            0 <= j < blocks.len() && j != i ==> (#[trigger] blocks[j]).hash != blocks[i].hash)
            ==> Some(post.states[blocks[i].hash]) == crate::ledger::settled(
            (crate::intake::all_taken(
                Intake { state: pre.state(), orphans: pre.orphans, announced: Seq::empty() },
                pre.chain.blocks.dom(),
                blocks.take(i),
            )->0).state.states[blocks[i].parent_hash],
            blocks[i].content,
            Basis::Running,
        ),
        outcome.broadcast matches Some(MessageView::NewBlockHashes(hashes)) && hashes.contains(
            blocks[i].hash,
        ),
{
    let (order, missing) = choose|order: Seq<H256>, missing: Seq<H256>|
        {
            &&& crate::intake::orders_fit(pre.state(), pre.orphans, blocks, order, missing)
            &&& #[trigger] crate::intake::blocks_handled(
                pre.state(),
                pre.orphans,
                blocks,
                order,
                missing,
            ) == Some((State { notes: outcome.notes, ..post.state() }, post.orphans, outcome))
        };
    let known = pre.chain.blocks.dom();
    let hash = blocks[i].hash;
    let start = Intake { state: pre.state(), orphans: pre.orphans, announced: Seq::empty() };
    lemma_good_block_taken(start, known, blocks, i);
    let intake = crate::intake::all_taken(start, known, blocks)->0;
    law_taking_grows(start, known, blocks);
    crate::laws::growth::law_sweeping_grows(intake.state, intake.orphans, order);
    crate::laws::growth::lemma_submap(intake.state.chain.blocks, post.chain.blocks, hash);
    if forall|j: int| 0 <= j < i ==> (#[trigger] blocks[j]).hash != hash {
        lemma_only_its_own_hash(start, known, blocks, i, hash);
    }
    if crate::laws::growth::not_waiting(pre.orphans, hash) && (forall|j: int|
        0 <= j < blocks.len() && j != i ==> (#[trigger] blocks[j]).hash != hash) {
        lemma_taken_not_waiting(start, known, blocks, hash);
        crate::laws::growth::lemma_sweeping_others(intake.state, intake.orphans, order, hash);
    }
    assert(intake.announced.len() > 0);
}

/// A hash that is not known and that none of the first blocks has is not known
/// after those were taken in.
pub(crate) proof fn lemma_only_its_own_hash(
    s: Intake,
    known: Set<H256>,
    blocks: Seq<BlockView>,
    n: int,
    hash: H256,
)
    requires
        0 <= n <= blocks.len(),
        crate::intake::all_taken(s, known, blocks) is Some,
        !s.state.chain.blocks.contains_key(hash),
        forall|j: int| 0 <= j < n ==> (#[trigger] blocks[j]).hash != hash,
    ensures
        crate::intake::all_taken(s, known, blocks.take(n)) is Some,
        !(crate::intake::all_taken(
            s,
            known,
            blocks.take(n),
        )->0).state.chain.blocks.contains_key(hash),
    decreases blocks.len(),
{
    let first = blocks.drop_last();
    if n < blocks.len() {
        assert(first.take(n) =~= blocks.take(n));
        assert forall|j: int| 0 <= j < n implies (#[trigger] first[j]).hash != hash by {
            assert(first[j] == blocks[j]);
        }
        lemma_only_its_own_hash(s, known, first, n, hash);
    } else {
        assert(blocks.take(n) =~= blocks);
        if n > 0 {
            assert forall|j: int| 0 <= j < n - 1 implies (#[trigger] first[j]).hash != hash by {
                assert(first[j] == blocks[j]);
            }
            assert(first.take(n - 1) =~= first);
            lemma_only_its_own_hash(s, known, first, n - 1, hash);
            assert(blocks[n - 1].hash != hash);
        }
    }
}

/// The block waits for its parent.
pub open spec fn waits(orphans: OrphansView, block: BlockView) -> bool {
    &&& orphans.contains_key(block.parent_hash)
    &&& orphans[block.parent_hash].contains(block)
}

/// Setting a block aside, it waits, and so does what waited before.
proof fn lemma_waits(orphans: OrphansView, block: BlockView, other: BlockView)
    ensures
        waits(crate::orphan::with_orphan(orphans, block), block),
        waits(orphans, other) ==> waits(crate::orphan::with_orphan(orphans, block), other),
{
    let after = crate::orphan::with_orphan(orphans, block);
    let list = after[block.parent_hash];
    assert(list[list.len() - 1] == block);
    if waits(orphans, other) && other.parent_hash == block.parent_hash {
        let old_list = orphans[other.parent_hash];
        let at = choose|at: int| 0 <= at < old_list.len() && old_list[at] == other;
        assert(list[at] == other);
    }
}

/// A new block of a message that shows work and whose parent was not known is
/// set aside.
proof fn lemma_orphan_taken(s: Intake, known: Set<H256>, blocks: Seq<BlockView>, i: int)
    requires
        crate::intake::all_taken(s, known, blocks) is Some,
        0 <= i < blocks.len(),
        !known.contains(blocks[i].hash),
        crate::intake::worked(s.state.chain.diff, blocks[i]),
        !known.contains(blocks[i].parent_hash),
    ensures
        waits((crate::intake::all_taken(s, known, blocks)->0).orphans, blocks[i]),
    decreases blocks.len(),
{
    let first = blocks.drop_last();
    let before = crate::intake::all_taken(s, known, first)->0;
    law_announced(s, known, first);
    lemma_waits(before.orphans, blocks.last(), blocks[i]);
    if i < blocks.len() - 1 {
        assert(first[i] == blocks[i]);
        lemma_orphan_taken(s, known, first, i);
    }
}

/// Every block of a message that is new and shows work, and whose parent is
/// known neither before nor after the message, waits for its parent once the
/// message was handled, and the parent is among the blocks that the peer is
/// asked for, which are just those that are waited for.
pub proof fn law_orphan_requested(
    pre: Node,
    blocks: Seq<BlockView>,
    post: Node,
    outcome: OutcomeView,
    i: int,
)
    requires
        pre.wf(),
        crate::worker::handled(pre, MessageView::Blocks(blocks), post, outcome),
        0 <= i < blocks.len(),
        !pre.chain.blocks.contains_key(blocks[i].hash),
        crate::intake::worked(pre.chain.diff, blocks[i]),
        !pre.chain.blocks.contains_key(blocks[i].parent_hash),
        !post.chain.blocks.contains_key(blocks[i].parent_hash),
    ensures
        waits(post.orphans, blocks[i]),
        outcome.reply matches Some(MessageView::GetBlocks(hashes)) && crate::table::is_walk(
            hashes,
            post.orphans.dom(),
        ) && hashes.contains(blocks[i].parent_hash),
{
    let (order, missing) = choose|order: Seq<H256>, missing: Seq<H256>|
        {
            &&& crate::intake::orders_fit(pre.state(), pre.orphans, blocks, order, missing)
            &&& #[trigger] crate::intake::blocks_handled(
                pre.state(),
                pre.orphans,
                blocks,
                order,
                missing,
            ) == Some((State { notes: outcome.notes, ..post.state() }, post.orphans, outcome))
        };
    let known = pre.chain.blocks.dom();
    let parent = blocks[i].parent_hash;
    let start = Intake { state: pre.state(), orphans: pre.orphans, announced: Seq::empty() };
    lemma_orphan_taken(start, known, blocks, i);
    let intake = crate::intake::all_taken(start, known, blocks)->0;
    law_taking_grows(start, known, blocks);
    crate::laws::growth::law_sweeping_empties(intake.state, intake.orphans, order);
    assert(post.orphans.contains_key(parent));
    crate::laws::growth::lemma_submap(post.orphans, intake.orphans, parent);
    assert(missing.to_set().contains(parent));
    assert(missing.contains(parent));
    assert(missing.len() > 0);
}

/// A message other than blocks leads to one state only, and one other than
/// blocks and new peers to one outcome only.
pub proof fn law_one_outcome(
    pre: Node,
    msg: MessageView,
    post: Node,
    outcome: OutcomeView,
    other_post: Node,
    other_outcome: OutcomeView,
)
    requires
        msg !is Blocks,
        crate::worker::handled(pre, msg, post, outcome),
        crate::worker::handled(pre, msg, other_post, other_outcome),
    ensures
        post == other_post,
        msg !is NewPeer ==> outcome == other_outcome,
{
}

/// Only transfers and blocks that come in can be more than a node can handle.
pub proof fn law_only_deliveries_fail(pre: Node, msg: MessageView)
    requires
        crate::worker::may_fail(pre, msg),
    ensures
        msg is Transactions || msg is Blocks,
{
}

} // verus!
