//! Blocks that wait for their parents.

use vstd::prelude::*;
use crate::block::{Block, BlockView};
use crate::blockchain::Blockchain;
use crate::connect::{connect_block, BlockStates, State};
use crate::hash::H256;
use crate::ledger::Basis;
use crate::mempool::TxMempool;
use crate::note::Note;
use crate::table::Table;

verus! {

/// The contents of an [`OrphanBuffer`].
pub type OrphansView = Map<H256, Seq<BlockView>>;

/// Blocks whose parents are not known, by the hashes of their parents.
#[derive(Debug)]
pub struct OrphanBuffer {
    buf: Table<H256, Vec<Block>>,
}

impl View for OrphanBuffer {
    type V = OrphansView;

    closed spec fn view(&self) -> OrphansView {
        self.buf@
    }
}

impl Clone for OrphanBuffer {
    fn clone(&self) -> (copy: OrphanBuffer)
        ensures
            copy@ == self@,
    {
        proof {
            use_type_invariant(self);
        }
        OrphanBuffer { buf: self.buf.clone() }
    }
}

/// Under each hash wait children of the block with that hash, at least one.
pub open spec fn orphans_wf(orphans: OrphansView) -> bool {
    forall|key: H256| #[trigger]
        orphans.contains_key(key) ==> {
            &&& orphans[key].len() > 0
            &&& forall|i: int|
                0 <= i < orphans[key].len() ==> (#[trigger] orphans[key][i]).parent_hash == key
        }
}

/// The buffer with one more block in it, behind those that wait for the same
/// parent.
pub open spec fn with_orphan(orphans: OrphansView, block: BlockView) -> OrphansView {
    let waiting = if orphans.contains_key(block.parent_hash) {
        orphans[block.parent_hash]
    } else {
        Seq::empty()
    };
    orphans.insert(block.parent_hash, waiting.push(block))
}

/// What becomes of the state when the blocks are put on top of their parents,
/// one after the other; `None` where one of them cannot be judged or settled.
pub open spec fn all_connected(s: State, blocks: Seq<BlockView>) -> Option<State>
    decreases blocks.len(),
{
    if blocks.len() == 0 {
        Some(s)
    } else {
        match all_connected(s, blocks.drop_last()) {
            None => None,
            Some(before) => crate::connect::connected(before, blocks.last(), Basis::Parent),
        }
    }
}

proof fn lemma_all_connected_prefix(s: State, blocks: Seq<BlockView>, n: int)
    requires
        0 <= n <= blocks.len(),
        all_connected(s, blocks.take(n)) is None,
    ensures
        all_connected(s, blocks) is None,
    decreases blocks.len(),
{
    if n == blocks.len() {
        assert(blocks.take(n) =~= blocks);
    } else {
        assert(blocks.drop_last().take(n) =~= blocks.take(n));
        lemma_all_connected_prefix(s, blocks.drop_last(), n);
    }
}

/// What becomes of the state and the buffer when the hashes in `order` are
/// gone through once: where the block with that hash is known by then, the
/// blocks that wait for it are taken out of the buffer and put on top of it.
pub open spec fn swept(s: State, orphans: OrphansView, order: Seq<H256>) -> Option<
    (State, OrphansView),
>
    decreases order.len(),
{
    if order.len() == 0 {
        Some((s, orphans))
    } else {
        match swept(s, orphans, order.drop_last()) {
            None => None,
            Some((before, left)) => {
                let key = order.last();
                if before.chain.blocks.contains_key(key) && left.contains_key(key) {
                    match all_connected(before, left[key]) {
                        None => None,
                        Some(after) => Some((after, left.remove(key))),
                    }
                } else {
                    Some((before, left))
                }
            },
        }
    }
}

proof fn lemma_swept_prefix(s: State, orphans: OrphansView, order: Seq<H256>, n: int)
    requires
        0 <= n <= order.len(),
        swept(s, orphans, order.take(n)) is None,
    ensures
        swept(s, orphans, order) is None,
    decreases order.len(),
{
    if n == order.len() {
        assert(order.take(n) =~= order);
    } else {
        assert(order.drop_last().take(n) =~= order.take(n));
        lemma_swept_prefix(s, orphans, order.drop_last(), n);
    }
}

/// Puts the blocks on top of their common parent, one after the other.
fn connect_all(
    blocks: &Vec<Block>,
    chain: &mut Blockchain,
    states: &mut BlockStates,
    pool: &mut TxMempool,
    notes: &mut Vec<Note>,
    Ghost(key): Ghost<H256>,
) -> (ok: bool)
    requires
        old(chain)@.blocks.contains_key(key),
        forall|i: int|
            0 <= i < blocks@.len() ==> (#[trigger] blocks.deep_view()[i]).parent_hash == key,
    ensures
        match all_connected(
            crate::connect::gather(old(chain), old(states), old(pool), old(notes)),
            blocks.deep_view(),
        ) {
            Some(after) => ok && crate::connect::gather(
                final(chain),
                final(states),
                final(pool),
                final(notes),
            ) == after,
            None => !ok,
        },
{
    let ghost start = crate::connect::gather(chain, states, pool, notes);
    let ghost all = blocks.deep_view();
    let mut i: usize = 0;
    while i < blocks.len()
        invariant
            i <= blocks@.len(),
            start == crate::connect::gather(old(chain), old(states), old(pool), old(notes)),
            all == blocks.deep_view(),
            forall|j: int| 0 <= j < blocks@.len() ==> (#[trigger] all[j]).parent_hash == key,
            chain@.blocks.contains_key(key),
            all_connected(start, all.take(i as int)) == Some(
                crate::connect::gather(chain, states, pool, notes),
            ),
        decreases blocks@.len() - i,
    {
        let ghost next = all.take(i + 1);
        assert(next.drop_last() =~= all.take(i as int));
        assert(next.last() == all[i as int]);
        assert(all[i as int] == blocks@[i as int].deep_view());
        let done: Option<bool> = connect_block(
            &blocks[i],
            Basis::Parent,
            chain,
            states,
            pool,
            notes,
        );
        if done.is_none() {
            proof {
                lemma_all_connected_prefix(start, all, i + 1);
            }
            return false;
        }
        i = i + 1;
    }
    assert(all.take(all.len() as int) =~= all);
    true
}

impl OrphanBuffer {
    /// The buffer is well-formed at all times.
    #[verifier::type_invariant]
    pub open spec fn inv(self) -> bool {
        orphans_wf(self@)
    }

    /// The empty buffer.
    pub fn new() -> (buffer: OrphanBuffer)
        ensures
            buffer@ == Map::<H256, Seq<BlockView>>::empty(),
    {
        OrphanBuffer { buf: Table::new() }
    }

    /// Takes out the blocks that wait for the block `key`.
    fn take(&mut self, key: &H256) -> (waiting: Option<Vec<Block>>)
        ensures
            final(self)@ == old(self)@.remove(*key),
            match waiting {
                Some(waiting) => {
                    &&& old(self)@.contains_key(*key)
                    &&& old(self)@[*key] == waiting.deep_view()
                    &&& forall|i: int|
                        0 <= i < waiting@.len() ==> (
                        #[trigger] waiting.deep_view()[i]).parent_hash == *key
                },
                None => !old(self)@.contains_key(*key),
            },
    {
        proof {
            use_type_invariant(&*self);
        }
        let mut buf: Table<H256, Vec<Block>> = Table::new();
        std::mem::swap(&mut buf, &mut self.buf);
        let waiting: Option<Vec<Block>> = buf.remove(key);
        self.buf = buf;
        waiting
    }

    /// Lets a block wait for its parent.
    #[allow(non_snake_case)]
    pub fn addOrphan(&mut self, block: &Block)
        ensures
            final(self)@ == with_orphan(old(self)@, block.deep_view()),
    {
        let ghost before = self@;
        let parent: H256 = block.head.parent_hash;
        proof {
            use_type_invariant(&*self);
        }
        let mut waiting: Vec<Block> = match self.take(&parent) {
            Some(waiting) => waiting,
            None => Vec::new(),
        };
        let ghost first = waiting.deep_view();
        assert(!before.contains_key(parent) ==> first =~= Seq::empty());
        waiting.push(block.clone());
        assert(waiting.deep_view() =~= first.push(block.deep_view()));
        let mut buf: Table<H256, Vec<Block>> = Table::new();
        std::mem::swap(&mut buf, &mut self.buf);
        buf.insert(parent, waiting);
        proof {
            assert(buf@ =~= with_orphan(before, block.deep_view()));
            assert forall|key: H256| #[trigger] buf@.contains_key(key) implies {
                &&& buf@[key].len() > 0
                &&& forall|i: int|
                    0 <= i < buf@[key].len() ==> (#[trigger] buf@[key][i]).parent_hash == key
            } by {
                if key != parent {
                    assert(before.contains_key(key));
                }
            }
        }
        self.buf = buf;
    }

    /// The hashes of the blocks that are waited for, once each.
    pub fn missing(&self) -> (hashes: Vec<H256>)
        ensures
            crate::table::is_walk(hashes@, self@.dom()),
    {
        self.buf.keys()
    }

    /// Goes through the hashes in `order` once and puts the blocks that wait
    /// for a known block on top of it. The result is `false` where a block
    /// cannot be judged or settled, after which the chain, the ledgers and the
    /// pool are no longer of use.
    pub fn sweep_in_order(
        &mut self,
        order: &Vec<H256>,
        chain: &mut Blockchain,
        states: &mut BlockStates,
        pool: &mut TxMempool,
        notes: &mut Vec<Note>,
    ) -> (ok: bool)
        ensures
            match swept(
                crate::connect::gather(old(chain), old(states), old(pool), old(notes)),
                old(self)@,
                order@,
            ) {
                Some((after, left)) => {
                    &&& ok
                    &&& crate::connect::gather(
                        final(chain),
                        final(states),
                        final(pool),
                        final(notes),
                    ) == after
                    &&& final(self)@ == left
                },
                None => !ok,
            },
            ok ==> forall|h: H256| #[trigger]
                final(chain)@.blocks.contains_key(h) && !old(chain)@.blocks.contains_key(h) ==> {
                    let block = final(chain)@.blocks[h].0;
                    &&& block.hash == h
                    &&& exists|k: H256, j: int| #[trigger]
                        crate::laws::joining::taken_out(old(self)@, final(self)@, k, j) && old(
                            self,
                        )@[k][j] == block
                    &&& forall|i: int|
                        0 <= i < block.content.len() ==> (#[trigger] block.content[i]).verified
                },
    {
        let ghost start = crate::connect::gather(chain, states, pool, notes);
        let mut i: usize = 0;
        while i < order.len()
            invariant
                i <= order@.len(),
                start == crate::connect::gather(old(chain), old(states), old(pool), old(notes)),
                swept(start, old(self)@, order@.take(i as int)) == Some(
                    (crate::connect::gather(chain, states, pool, notes), self@),
                ),
            decreases order@.len() - i,
        {
            let ghost next = order@.take(i + 1);
            let ghost before = self@;
            assert(next.drop_last() =~= order@.take(i as int));
            let key: H256 = order[i];
            assert(next.last() == key);
            if chain.contains(&key) {
                match self.take(&key) {
                    Some(blocks) => {
                        let ok: bool = connect_all(&blocks, chain, states, pool, notes, Ghost(key));
                        if !ok {
                            proof {
                                lemma_swept_prefix(start, old(self)@, order@, i + 1);
                            }
                            return false;
                        }
                    },
                    None => {
                        assert(self@ =~= before);
                    },
                }
            }
            i = i + 1;
        }
        assert(order@.take(order@.len() as int) =~= order@);
        proof {
            assert forall|h: H256| #[trigger]
                chain@.blocks.contains_key(h) && !old(chain)@.blocks.contains_key(h) implies {
                let block = chain@.blocks[h].0;
                &&& block.hash == h
                &&& exists|k: H256, j: int| #[trigger]
                    crate::laws::joining::taken_out(old(self)@, self@, k, j) && old(self)@[k][j]
                        == block
                &&& forall|i: int|
                    0 <= i < block.content.len() ==> (#[trigger] block.content[i]).verified
            } by {
                crate::laws::joining::law_joined_waited(start, old(self)@, order@, h);
            }
        }
        true
    }

    /// Goes once through the hashes that are waited for, in some order. Gives
    /// the notes; `None` where a block cannot be judged or settled, after which
    /// the chain, the ledgers and the pool are no longer of use.
    pub fn sweep(
        &mut self,
        chain: &mut Blockchain,
        states: &mut BlockStates,
        pool: &mut TxMempool,
    ) -> (notes: Option<Vec<Note>>)
        ensures
            exists|order: Seq<H256>|
                {
                    &&& crate::table::is_walk(order, old(self)@.dom())
                    &&& match #[trigger] swept(
                        crate::connect::unnoted(old(chain), old(states), old(pool)),
                        old(self)@,
                        order,
                    ) {
                        Some((after, left)) => {
                            &&& notes matches Some(notes)
                            &&& crate::connect::gather(
                                final(chain),
                                final(states),
                                final(pool),
                                &notes,
                            ) == after
                            &&& final(self)@ == left
                        },
                        None => notes is None,
                    }
                },
    {
        let order: Vec<H256> = self.missing();
        let mut notes: Vec<Note> = Vec::new();
        assert(crate::connect::gather(chain, states, pool, &notes) == crate::connect::unnoted(
            chain,
            states,
            pool,
        ));
        if self.sweep_in_order(&order, chain, states, pool, &mut notes) {
            Some(notes)
        } else {
            None
        }
    }

    /// Goes once through the hashes that are waited for, in some order, and
    /// puts the blocks that wait for a known block on top of it. Gives the
    /// notes.
    #[allow(non_snake_case)]
    pub fn findChild(
        &mut self,
        curr_chain: &mut Blockchain,
        current_block_state: &mut BlockStates,
        current_pool: &mut TxMempool,
    ) -> (notes: Vec<Note>)
        requires
            forall|order: Seq<H256>|
                crate::table::is_walk(order, old(self)@.dom()) ==> (#[trigger] swept(
                    crate::connect::unnoted(
                        old(curr_chain),
                        old(current_block_state),
                        old(current_pool),
                    ),
                    old(self)@,
                    order,
                )) is Some,
        ensures
            exists|order: Seq<H256>|
                crate::table::is_walk(order, old(self)@.dom()) && #[trigger] swept(
                    crate::connect::unnoted(
                        old(curr_chain),
                        old(current_block_state),
                        old(current_pool),
                    ),
                    old(self)@,
                    order,
                ) == Some(
                    (
                        crate::connect::gather(
                            final(curr_chain),
                            final(current_block_state),
                            final(current_pool),
                            &notes,
                        ),
                        final(self)@,
                    ),
                ),
    {
        match self.sweep(curr_chain, current_block_state, current_pool) {
            Some(notes) => notes,
            None => {
                assert(false);
                Vec::new()
            },
        }
    }
}

} // verus!
