//! How a node takes in transfers and blocks that a peer hands it.

use vstd::prelude::*;
use crate::block::{Block, BlockView};
use crate::blockchain::Blockchain;
use crate::connect::{connect_block, BlockStates, State};
use crate::hash::{Key, H256};
use crate::ledger::{check_transaction, Basis, LedgerView};
use crate::mempool::{PoolView, TxMempool};
use crate::message::{Message, Outcome, OutcomeView};
use crate::note::Note;
use crate::orphan::{OrphanBuffer, OrphansView};
use crate::transaction::{SignedTransaction, TransactionView};

verus! {

/// A transfer may be paid out of `ledger`.
pub open spec fn admits(ledger: LedgerView, tx: TransactionView) -> bool {
    crate::ledger::admissible(ledger[tx.owner], tx.transaction, tx.verified)
}

/// The pool in which those of the transfers wait too that may be paid.
pub open spec fn pooled(pool: PoolView, ledger: LedgerView, txs: Seq<TransactionView>) -> PoolView
    decreases txs.len(),
{
    if txs.len() == 0 {
        pool
    } else {
        let before = pooled(pool, ledger, txs.drop_last());
        if admits(ledger, txs.last()) {
            before.insert(txs.last().hash, txs.last())
        } else {
            before
        }
    }
}

/// The hashes of those of the transfers that may be paid, in order.
pub open spec fn admitted(ledger: LedgerView, txs: Seq<TransactionView>) -> Seq<H256> {
    txs.filter(|tx: TransactionView| admits(ledger, tx)).map_values(|tx: TransactionView| tx.hash)
}

/// What speaks against the transfers, one after the other, and that those
/// against which something speaks were turned away.
pub open spec fn intake_notes(ledger: LedgerView, txs: Seq<TransactionView>) -> Seq<Note>
    decreases txs.len(),
{
    if txs.len() == 0 {
        Seq::empty()
    } else {
        let tx = txs.last();
        let before = intake_notes(ledger, txs.drop_last()) + crate::ledger::complaints(
            ledger[tx.owner],
            tx.transaction,
            tx.verified,
        );
        if admits(ledger, tx) {
            before
        } else {
            before.push(Note::TransactionInvalid)
        }
    }
}

proof fn lemma_admitted_step(ledger: LedgerView, txs: Seq<TransactionView>, i: int)
    requires
        0 <= i < txs.len(),
    ensures
        admitted(ledger, txs.take(i + 1)) == if admits(ledger, txs[i]) {
            admitted(ledger, txs.take(i)).push(txs[i].hash)
        } else {
            admitted(ledger, txs.take(i))
        },
{
    reveal(Seq::filter);
    assert(txs.take(i + 1).drop_last() =~= txs.take(i));
    assert(admitted(ledger, txs.take(i + 1)) =~= if admits(ledger, txs[i]) {
        admitted(ledger, txs.take(i)).push(txs[i].hash)
    } else {
        admitted(ledger, txs.take(i))
    });
}

/// Transfers came in: those that may be paid out of the ledger that the last
/// block of the longest branch left are let wait and announced.
///
/// `None` where that block left no ledger or a transfer is not checkable,
/// after which the pool is no longer of use.
pub fn on_transactions(
    txs: Vec<SignedTransaction>,
    chain: &Blockchain,
    states: &BlockStates,
    pool: &mut TxMempool,
) -> (outcome: Option<Outcome>)
    ensures
        outcome is Some <==> states@.contains_key(chain@.tail) && crate::ledger::all_checkable(
            states@[chain@.tail],
            txs.deep_view(),
        ),
        outcome matches Some(done) ==> {
            let ledger = states@[chain@.tail];
            &&& final(pool)@ == pooled(old(pool)@, ledger, txs.deep_view())
            &&& done.deep_view() == OutcomeView {
                reply: None,
                broadcast: crate::message::new_transaction_hashes(
                    admitted(ledger, txs.deep_view()),
                ),
                notes: intake_notes(ledger, txs.deep_view()),
            }
            &&& forall|i: int|
                0 <= i < txs.deep_view().len() ==> {
                    let tx = #[trigger] txs.deep_view()[i];
                    tx.verified && ledger[tx.owner].1 >= tx.transaction.value
                        && ledger[tx.owner].0 + 1 == tx.transaction.nonce
                        ==> final(pool)@.contains_key(tx.hash)
                }
        },
{
    let tail: H256 = chain.tail();
    let ledger = match states.get(&tail) {
        Some(ledger) => ledger,
        None => {
            return None;
        },
    };
    let ghost all = txs.deep_view();
    let mut verified: Vec<H256> = Vec::new();
    let mut notes: Vec<Note> = Vec::new();
    let mut i: usize = 0;
    proof {
        reveal(Seq::filter);
        assert(all.take(0) =~= Seq::empty());
        assert(verified@ =~= admitted(ledger@, all.take(0)));
    }
    while i < txs.len()
        invariant
            i <= txs@.len(),
            all == txs.deep_view(),
            states@.contains_key(chain@.tail),
            ledger@ == states@[chain@.tail],
            crate::ledger::all_checkable(ledger@, all.take(i as int)),
            pool@ == pooled(old(pool)@, ledger@, all.take(i as int)),
            verified@ == admitted(ledger@, all.take(i as int)),
            notes@ == intake_notes(ledger@, all.take(i as int)),
        decreases txs@.len() - i,
    {
        let ghost next = all.take(i + 1);
        assert(all[i as int] == txs@[i as int].deep_view());
        assert(next =~= all.take(i as int).push(all[i as int]));
        assert(next.drop_last() =~= all.take(i as int));
        proof {
            lemma_admitted_step(ledger@, all, i as int);
        }
        match check_transaction(ledger, &txs[i], &mut notes) {
            None => {
                return None;
            },
            Some(ok) => {
                if ok {
                    pool.push_tx(&txs[i]);
                    verified.push(txs[i].hash());
                } else {
                    notes.push(Note::TransactionInvalid);
                }
            },
        }
        i = i + 1;
    }
    assert(all.take(all.len() as int) =~= all);
    proof {
        assert forall|i: int| 0 <= i < all.len() implies {
            let tx = #[trigger] all[i];
            tx.verified && ledger@[tx.owner].1 >= tx.transaction.value && ledger@[tx.owner].0 + 1
                == tx.transaction.nonce ==> pool@.contains_key(tx.hash)
        } by {
            crate::laws::replies::lemma_pool_after(old(pool)@, ledger@, all, all[i].hash);
        }
    }
    let broadcast: Option<Message> = if verified.len() > 0 {
        Some(Message::NewTransactionHashes(verified))
    } else {
        None
    };
    Some(Outcome { reply: None, broadcast, notes })
}

/// A block states the difficulty of the chain, and its hash is at most that.
pub open spec fn worked(diff: H256, block: BlockView) -> bool {
    &&& diff == block.difficulty
    &&& block.hash.value() <= block.difficulty.value()
}

/// What changes while blocks come in.
#[verifier::ext_equal]
pub struct Intake {
    pub state: State,
    pub orphans: OrphansView,
    /// The hashes that are to be announced.
    pub announced: Seq<H256>,
}

/// What becomes of one block that came in, when the blocks with the hashes in
/// `known` were known before the message.
///
/// A known block and one that shows no work are passed over. Every other one
/// is announced; it is put on top of its parent where that was known, and set
/// aside otherwise.
pub open spec fn taken(s: Intake, known: Set<H256>, block: BlockView) -> Option<Intake> {
    if known.contains(block.hash) || !worked(s.state.chain.diff, block) {
        Some(s)
    } else {
        let announced = s.announced.push(block.hash);
        if known.contains(block.parent_hash) {
            match crate::connect::connected(s.state, block, Basis::Running) {
                None => None,
                Some(state) => {
                    let notes = if crate::connect::accepts(s.state.states, block) {
                        state.notes
                    } else {
                        state.notes.push(Note::BlockInvalid)
                    };
                    Some(Intake { state: State { notes, ..state }, orphans: s.orphans, announced })
                },
            }
        } else {
            Some(
                Intake {
                    state: State { notes: s.state.notes.push(Note::OrphanFound), ..s.state },
                    orphans: crate::orphan::with_orphan(s.orphans, block),
                    announced,
                },
            )
        }
    }
}

/// What becomes of the blocks that came in, one after the other.
pub open spec fn all_taken(s: Intake, known: Set<H256>, blocks: Seq<BlockView>) -> Option<Intake>
    decreases blocks.len(),
{
    if blocks.len() == 0 {
        Some(s)
    } else {
        match all_taken(s, known, blocks.drop_last()) {
            None => None,
            Some(before) => taken(before, known, blocks.last()),
        }
    }
}

proof fn lemma_all_taken_prefix(s: Intake, known: Set<H256>, blocks: Seq<BlockView>, n: int)
    requires
        0 <= n <= blocks.len(),
        all_taken(s, known, blocks.take(n)) is None,
    ensures
        all_taken(s, known, blocks) is None,
    decreases blocks.len(),
{
    if n == blocks.len() {
        assert(blocks.take(n) =~= blocks);
    } else {
        assert(blocks.drop_last().take(n) =~= blocks.take(n));
        lemma_all_taken_prefix(s, known, blocks.drop_last(), n);
    }
}

/// For each block, whether it is known and whether its parent is.
fn standing(blocks: &Vec<Block>, chain: &Blockchain) -> (standing: Vec<(bool, bool)>)
    ensures
        standing@.len() == blocks@.len(),
        forall|i: int|
            0 <= i < blocks@.len() ==> #[trigger] standing@[i] == (
                chain@.blocks.contains_key(blocks.deep_view()[i].hash),
                chain@.blocks.contains_key(blocks.deep_view()[i].parent_hash),
            ),
{
    let mut standing: Vec<(bool, bool)> = Vec::new();
    let mut i: usize = 0;
    while i < blocks.len()
        invariant
            i <= blocks@.len(),
            standing@.len() == i,
            forall|j: int|
                0 <= j < i ==> #[trigger] standing@[j] == (
                    chain@.blocks.contains_key(blocks.deep_view()[j].hash),
                    chain@.blocks.contains_key(blocks.deep_view()[j].parent_hash),
                ),
        decreases blocks@.len() - i,
    {
        standing.push(
            (chain.contains(&blocks[i].hash), chain.contains(&blocks[i].head.parent_hash)),
        );
        i = i + 1;
    }
    standing
}

/// Takes in blocks, without looking for blocks that waited for them. Gives the
/// hashes to be announced; `None` where a block cannot be judged or settled,
/// after which the chain, the ledgers and the pool are no longer of use.
pub fn take_blocks(
    blocks: &Vec<Block>,
    chain: &mut Blockchain,
    orphans: &mut OrphanBuffer,
    states: &mut BlockStates,
    pool: &mut TxMempool,
    notes: &mut Vec<Note>,
) -> (announced: Option<Vec<H256>>)
    ensures
        match all_taken(
            Intake {
                state: crate::connect::gather(old(chain), old(states), old(pool), old(notes)),
                orphans: old(orphans)@,
                announced: Seq::empty(),
            },
            old(chain)@.blocks.dom(),
            blocks.deep_view(),
        ) {
            Some(after) => {
                &&& announced matches Some(announced)
                &&& after == Intake {
                    state: crate::connect::gather(
                        final(chain),
                        final(states),
                        final(pool),
                        final(notes),
                    ),
                    orphans: final(orphans)@,
                    announced: announced@,
                }
            },
            None => announced is None,
        },
        announced matches Some(announced) ==> forall|j: int|
            0 <= j < announced@.len() ==> crate::hash::be_value((#[trigger] announced@[j]).bytes@)
                <= crate::hash::be_value(old(chain)@.diff.bytes@),
{
    let ghost start = Intake {
        state: crate::connect::gather(chain, states, pool, notes),
        orphans: orphans@,
        announced: Seq::empty(),
    };
    let ghost known = chain@.blocks.dom();
    let ghost all = blocks.deep_view();
    let standing: Vec<(bool, bool)> = standing(blocks, chain);
    let mut announced: Vec<H256> = Vec::new();
    let mut i: usize = 0;
    while i < blocks.len()
        invariant
            i <= blocks@.len(),
            all == blocks.deep_view(),
            start == (Intake {
                state: crate::connect::gather(old(chain), old(states), old(pool), old(notes)),
                orphans: old(orphans)@,
                announced: Seq::empty(),
            }),
            known == old(chain)@.blocks.dom(),
            standing@.len() == blocks@.len(),
            forall|j: int|
                0 <= j < blocks@.len() ==> #[trigger] standing@[j] == (
                    known.contains(all[j].hash),
                    known.contains(all[j].parent_hash),
                ),
            known.subset_of(chain@.blocks.dom()),
            all_taken(start, known, all.take(i as int)) == Some(
                Intake {
                    state: crate::connect::gather(chain, states, pool, notes),
                    orphans: orphans@,
                    announced: announced@,
                },
            ),
        decreases blocks@.len() - i,
    {
        let ghost next = all.take(i + 1);
        assert(next.drop_last() =~= all.take(i as int));
        assert(next.last() == all[i as int]);
        assert(all[i as int] == blocks@[i as int].deep_view());
        let block: &Block = &blocks[i];
        if !standing[i].0 && chain.diff().same(&block.head.difficulty) && block.hash.le(
            &block.head.difficulty,
        ) {
            announced.push(block.hash);
            if standing[i].1 {
                match connect_block(block, Basis::Running, chain, states, pool, notes) {
                    None => {
                        proof {
                            lemma_all_taken_prefix(start, known, all, i + 1);
                        }
                        return None;
                    },
                    Some(accepted) => {
                        if !accepted {
                            notes.push(Note::BlockInvalid);
                        }
                    },
                }
            } else {
                orphans.addOrphan(block);
                notes.push(Note::OrphanFound);
            }
        }
        i = i + 1;
    }
    assert(all.take(all.len() as int) =~= all);
    proof {
        crate::laws::delivery::lemma_announced_work(start, known, all);
        assert(start.state.chain.diff == old(chain)@.diff);
        assert((all_taken(start, known, all)->0).announced == announced@);
        assert forall|j: int| 0 <= j < announced@.len() implies crate::hash::be_value(
            (#[trigger] announced@[j]).bytes@,
        ) <= crate::hash::be_value(old(chain)@.diff.bytes@) by {}
    }
    Some(announced)
}

/// What a message with blocks leads to when the blocks that are waited for
/// after they were taken in are looked for in the order `order`, and those
/// that are waited for in the end are asked for in the order `missing`.
pub open spec fn blocks_handled(
    s: State,
    orphans: OrphansView,
    blocks: Seq<BlockView>,
    order: Seq<H256>,
    missing: Seq<H256>,
) -> Option<(State, OrphansView, OutcomeView)> {
    match all_taken(
        Intake { state: s, orphans, announced: Seq::empty() },
        s.chain.blocks.dom(),
        blocks,
    ) {
        None => None,
        Some(intake) => match crate::orphan::swept(intake.state, intake.orphans, order) {
            None => None,
            Some((after, left)) => Some(
                (
                    after,
                    left,
                    OutcomeView {
                        reply: crate::message::get_blocks(missing),
                        broadcast: crate::message::new_block_hashes(intake.announced),
                        notes: after.notes,
                    },
                ),
            ),
        },
    }
}

/// The orders fit the message: the first lists what is waited for once the
/// blocks were taken in, the second what is waited for in the end.
pub open spec fn orders_fit(
    s: State,
    orphans: OrphansView,
    blocks: Seq<BlockView>,
    order: Seq<H256>,
    missing: Seq<H256>,
) -> bool {
    match all_taken(
        Intake { state: s, orphans, announced: Seq::empty() },
        s.chain.blocks.dom(),
        blocks,
    ) {
        None => true,
        Some(intake) => {
            &&& crate::table::is_walk(order, intake.orphans.dom())
            &&& match crate::orphan::swept(intake.state, intake.orphans, order) {
                None => true,
                Some((_, left)) => crate::table::is_walk(missing, left.dom()),
            }
        },
    }
}

/// Blocks came in: they are taken in, blocks that waited for them follow, the
/// peer is asked for the blocks that are still waited for, and the new ones
/// are announced.
///
/// `None` where a block cannot be judged or settled, after which the chain,
/// the ledgers and the pool are no longer of use.
pub fn on_blocks(
    blocks: Vec<Block>,
    chain: &mut Blockchain,
    orphans: &mut OrphanBuffer,
    states: &mut BlockStates,
    pool: &mut TxMempool,
) -> (outcome: Option<Outcome>)
    ensures
        exists|order: Seq<H256>, missing: Seq<H256>|
            {
                &&& orders_fit(
                    crate::connect::unnoted(old(chain), old(states), old(pool)),
                    old(orphans)@,
                    blocks.deep_view(),
                    order,
                    missing,
                )
                &&& match #[trigger] blocks_handled(
                    crate::connect::unnoted(old(chain), old(states), old(pool)),
                    old(orphans)@,
                    blocks.deep_view(),
                    order,
                    missing,
                ) {
                    Some((after, left, done)) => {
                        &&& outcome.deep_view() == Some(done)
                        &&& after == State {
                            chain: final(chain)@,
                            states: final(states)@,
                            pool: final(pool)@,
                            notes: done.notes,
                        }
                        &&& final(orphans)@ == left
                    },
                    None => outcome is None,
                }
            },
{
    let ghost before = crate::connect::unnoted(chain, states, pool);
    let ghost waiting = orphans@;
    let ghost nothing = Seq::<H256>::empty();
    let mut notes: Vec<Note> = Vec::new();
    let announced: Vec<H256> = match take_blocks(
        &blocks,
        chain,
        orphans,
        states,
        pool,
        &mut notes,
    ) {
        Some(announced) => announced,
        None => {
            assert(blocks_handled(before, waiting, blocks.deep_view(), nothing, nothing) is None);
            return None;
        },
    };
    let order: Vec<H256> = orphans.missing();
    if !orphans.sweep_in_order(&order, chain, states, pool, &mut notes) {
        assert(blocks_handled(before, waiting, blocks.deep_view(), order@, nothing) is None);
        return None;
    }
    let missing: Vec<H256> = orphans.missing();
    let ghost handled = blocks_handled(
        before,
        waiting,
        blocks.deep_view(),
        order@,
        missing@,
    );
    let reply: Option<Message> = if missing.len() > 0 {
        Some(Message::GetBlocks(missing))
    } else {
        None
    };
    let broadcast: Option<Message> = if announced.len() > 0 {
        Some(Message::NewBlockHashes(announced))
    } else {
        None
    };
    let outcome = Outcome { reply, broadcast, notes };
    assert(handled matches Some((_, _, done)) && done == outcome.deep_view());
    Some(outcome)
}

} // verus!
