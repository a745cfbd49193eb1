//! The tree of known blocks and its longest branch.

use vstd::prelude::*;
use crate::block::{Block, BlockView, Content, Header};
use crate::hash::H256;
use crate::table::Table;

verus! {

/// The known blocks, each with its height above the first one. `tail` is the
/// last block of the longest branch.
#[derive(Debug)]
pub struct Blockchain {
    chain: Table<H256, (Block, usize)>,
    tail: H256,
    diff: H256,
}

/// The contents of a [`Blockchain`].
#[verifier::ext_equal]
pub struct ChainView {
    pub blocks: Map<H256, (BlockView, usize)>,
    pub tail: H256,
    pub diff: H256,
}

impl View for Blockchain {
    type V = ChainView;

    closed spec fn view(&self) -> ChainView {
        ChainView { blocks: self.chain@, tail: self.tail, diff: self.diff }
    }
}

impl ChainView {
    /// The height of a known block.
    pub open spec fn height_of(self, hash: H256) -> usize {
        self.blocks[hash].1
    }

    /// Every block stands under its hash, one above its parent unless it is the
    /// first, and none stands above the tail.
    pub open spec fn wf(self) -> bool {
        &&& self.blocks.dom().finite()
        &&& self.blocks.contains_key(self.tail)
        &&& forall|h: H256| #[trigger]
            self.blocks.contains_key(h) ==> {
                &&& self.blocks[h].0.hash == h
                &&& self.height_of(h) <= self.height_of(self.tail)
                &&& self.height_of(h) > 0 ==> {
                    &&& self.blocks.contains_key(self.blocks[h].0.parent_hash)
                    &&& self.height_of(self.blocks[h].0.parent_hash) + 1 == self.height_of(h)
                }
            }
    }

    /// The chain with `block` put on top of its parent. The tail moves to it
    /// where that makes the longest branch longer. A block whose hash is known
    /// changes nothing.
    pub open spec fn with(self, block: BlockView) -> ChainView {
        if self.blocks.contains_key(block.hash) {
            self
        } else {
            let height = (self.height_of(block.parent_hash) + 1) as usize;
            ChainView {
                blocks: self.blocks.insert(block.hash, (block, height)),
                tail: if height > self.height_of(self.tail) {
                    block.hash
                } else {
                    self.tail
                },
                diff: self.diff,
            }
        }
    }

    /// The hashes from the block `height` steps below `hash` up to `hash`.
    pub open spec fn path(self, hash: H256, height: nat) -> Seq<H256>
        decreases height,
    {
        if height == 0 {
            seq![hash]
        } else {
            self.path(self.blocks[hash].0.parent_hash, (height - 1) as nat).push(hash)
        }
    }

    /// The hashes from the first block up to `hash`.
    pub open spec fn branch(self, hash: H256) -> Seq<H256> {
        self.path(hash, self.height_of(hash) as nat)
    }

    /// The branch of a known block has, at each place, a known block of that
    /// height.
    pub proof fn lemma_branch(self, hash: H256)
        requires
            self.wf(),
            self.blocks.contains_key(hash),
        ensures
            self.branch(hash).len() == self.height_of(hash) + 1,
            forall|i: int|
                0 <= i < self.branch(hash).len() ==> {
                    &&& self.blocks.contains_key(#[trigger] self.branch(hash)[i])
                    &&& self.height_of(self.branch(hash)[i]) == i
                },
        decreases self.height_of(hash),
    {
        if self.height_of(hash) > 0 {
            let parent = self.blocks[hash].0.parent_hash;
            self.lemma_branch(parent);
            assert(self.branch(hash) == self.branch(parent).push(hash));
        }
    }

    /// There are more blocks than any block is high.
    pub proof fn lemma_height_bound(self, hash: H256)
        requires
            self.wf(),
            self.blocks.contains_key(hash),
        ensures
            self.height_of(hash) < self.blocks.dom().len(),
    {
        self.lemma_branch(hash);
        let branch = self.branch(hash);
        assert(branch.no_duplicates()) by {
            assert forall|i: int, j: int|
                0 <= i < branch.len() && 0 <= j < branch.len() && i != j implies branch[i]
                != branch[j] by {
                assert(self.height_of(branch[i]) == i);
                assert(self.height_of(branch[j]) == j);
            }
        }
        branch.unique_seq_to_set();
        assert(branch.to_set().subset_of(self.blocks.dom()));
        vstd::set_lib::lemma_len_subset(branch.to_set(), self.blocks.dom());
    }

    /// A chain stays well-formed when a block joins that has its parent there.
    pub proof fn lemma_with_wf(self, block: BlockView)
        requires
            self.wf(),
            self.blocks.contains_key(block.parent_hash),
            self.height_of(block.parent_hash) < usize::MAX,
        ensures
            self.with(block).wf(),
    {
        let after = self.with(block);
        if !self.blocks.contains_key(block.hash) {
            assert forall|h: H256| #[trigger] after.blocks.contains_key(h) implies {
                &&& after.blocks[h].0.hash == h
                &&& after.height_of(h) <= after.height_of(after.tail)
                &&& after.height_of(h) > 0 ==> {
                    &&& after.blocks.contains_key(after.blocks[h].0.parent_hash)
                    &&& after.height_of(after.blocks[h].0.parent_hash) + 1 == after.height_of(h)
                }
            } by {
                if h != block.hash {
                    assert(self.blocks.contains_key(h));
                }
                assert(self.blocks.contains_key(self.tail));
            }
        }
    }
}

impl Blockchain {
    /// The chain is well-formed at all times.
    #[verifier::type_invariant]
    pub open spec fn inv(self) -> bool {
        self@.wf()
    }

    /// The chain that consists of its first block. `diff` is the difficulty
    /// that blocks must state.
    pub fn new(genesis: Block, diff: H256) -> (chain: Blockchain)
        ensures
            chain@.wf(),
            chain@.blocks == Map::<H256, (BlockView, usize)>::empty().insert(
                genesis.deep_view().hash,
                (genesis.deep_view(), 0usize),
            ),
            chain@.tail == genesis.deep_view().hash,
            chain@.diff == diff,
    {
        let tail: H256 = genesis.hash;
        let mut chain: Table<H256, (Block, usize)> = Table::new();
        chain.insert(tail, (genesis, 0));
        let ghost made = ChainView { blocks: chain@, tail, diff };
        assert(made.wf());
        Blockchain { chain, tail, diff }
    }

    /// The last block of the longest branch.
    pub fn tail(&self) -> (tail: H256)
        ensures
            tail == self@.tail,
    {
        self.tail
    }

    /// The difficulty that blocks must state.
    pub fn diff(&self) -> (diff: H256)
        ensures
            diff == self@.diff,
    {
        self.diff
    }

    /// Whether a block with the given hash is known.
    pub fn contains(&self, hash: &H256) -> (r: bool)
        ensures
            r == self@.blocks.contains_key(*hash),
    {
        self.chain.contains_key(hash)
    }

    /// The known block with the given hash.
    pub fn get(&self, hash: &H256) -> (block: Option<&Block>)
        ensures
            match block {
                Some(block) => self@.blocks.contains_key(*hash) && self@.blocks[*hash].0
                    == block.deep_view(),
                None => !self@.blocks.contains_key(*hash),
            },
    {
        match self.chain.get(hash) {
            Some(entry) => Some(&entry.0),
            None => None,
        }
    }

    /// The height of the last block of the longest branch.
    pub fn height(&self) -> (height: usize)
        ensures
            height == self@.height_of(self@.tail),
    {
        proof {
            use_type_invariant(self);
        }
        match self.chain.get(&self.tail) {
            Some(entry) => entry.1,
            None => {
                assert(false);
                0
            },
        }
    }

    /// Puts a block on top of its parent.
    pub fn insert(&mut self, block: &Block)
        requires
            old(self)@.blocks.contains_key(block.deep_view().parent_hash),
        ensures
            final(self)@ == old(self)@.with(block.deep_view()),
            final(self)@.wf(),
    {
        proof {
            use_type_invariant(&*self);
        }
        if self.chain.contains_key(&block.hash) {
            return;
        }
        let ghost before = self@;
        let below: usize = match self.chain.get(&block.head.parent_hash) {
            Some(entry) => entry.1,
            None => {
                assert(false);
                0
            },
        };
        let _known: usize = self.chain.len();
        proof {
            before.lemma_height_bound(block.deep_view().parent_hash);
            before.lemma_with_wf(block.deep_view());
        }
        let height: usize = below + 1;
        let tail: H256 = if height > self.height() {
            block.hash
        } else {
            self.tail
        };
        let mut chain: Table<H256, (Block, usize)> = self.stand_in();
        std::mem::swap(&mut chain, &mut self.chain);
        chain.insert(block.hash, (block.clone(), height));
        let ghost after = ChainView { blocks: chain@, tail, diff: self.diff };
        assert(after == before.with(block.deep_view()));
        *self = Blockchain { chain, tail, diff: self.diff };
    }

    /// A chain of one block with the hash of the tail. It takes the place of
    /// the blocks while they are worked on.
    fn stand_in(&self) -> (chain: Table<H256, (Block, usize)>)
        ensures
            (ChainView { blocks: chain@, tail: self@.tail, diff: self@.diff }).wf(),
    {
        let head = Header { parent_hash: self.tail, difficulty: self.diff, rest: Vec::new() };
        let content = Content { content: Vec::new() };
        let mut chain: Table<H256, (Block, usize)> = Table::new();
        chain.insert(self.tail, (Block { head, content, hash: self.tail }, 0));
        chain
    }

    /// The hashes from the first block up to the given one.
    pub fn branch(&self, tip: &H256) -> (path: Vec<H256>)
        requires
            self@.blocks.contains_key(*tip),
        ensures
            path@ == self@.branch(*tip),
    {
        proof {
            use_type_invariant(self);
        }
        let mut newest_first: Vec<H256> = Vec::new();
        let mut at: H256 = *tip;
        let mut height: usize = match self.chain.get(tip) {
            Some(entry) => entry.1,
            None => {
                assert(false);
                0
            },
        };
        assert(self@.branch(at) + newest_first@.reverse() =~= self@.branch(*tip));
        while height > 0
            invariant
                self@.wf(),
                self@.blocks.contains_key(at),
                height == self@.height_of(at),
                self@.branch(at) + newest_first@.reverse() == self@.branch(*tip),
            decreases height,
        {
            let ghost before = newest_first@;
            newest_first.push(at);
            proof {
                let parent = self@.blocks[at].0.parent_hash;
                assert(self@.branch(at) == self@.branch(parent).push(at));
                assert(newest_first@.reverse() =~= seq![at] + before.reverse());
                assert(self@.branch(parent) + newest_first@.reverse() =~= self@.branch(at)
                    + before.reverse());
            }
            match self.chain.get(&at) {
                Some(entry) => {
                    at = entry.0.head.parent_hash;
                    height = height - 1;
                },
                None => {
                    assert(false);
                    height = 0;
                },
            }
        }
        newest_first.push(at);
        assert(newest_first@.reverse() =~= self@.branch(*tip));
        let mut path: Vec<H256> = Vec::new();
        let mut left: usize = newest_first.len();
        while left > 0
            invariant
                left <= newest_first@.len(),
                path@ == newest_first@.skip(left as int).reverse(),
            decreases left,
        {
            left = left - 1;
            path.push(newest_first[left]);
            assert(newest_first@.skip(left as int) =~= seq![newest_first@[left as int]]
                + newest_first@.skip(left + 1));
            assert(path@ =~= newest_first@.skip(left as int).reverse());
        }
        assert(newest_first@.skip(0) =~= newest_first@);
        path
    }

    /// The hashes of the longest branch, from the first block up to the tail.
    pub fn all_blocks_in_longest_chain(&self) -> (path: Vec<H256>)
        ensures
            path@ == self@.branch(self@.tail),
    {
        proof {
            use_type_invariant(self);
        }
        self.branch(&self.tail)
    }
}

} // verus!
