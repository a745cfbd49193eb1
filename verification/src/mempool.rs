//! Transfers that wait to be put into a block.

use vstd::prelude::*;
use crate::hash::H256;
use crate::table::Table;
use crate::transaction::{SignedTransaction, TransactionView};

verus! {

/// The contents of a [`TxMempool`].
pub type PoolView = Map<H256, TransactionView>;

/// The waiting transfers, by their hashes.
#[derive(Debug)]
pub struct TxMempool {
    map: Table<H256, SignedTransaction>,
}

impl View for TxMempool {
    type V = PoolView;

    closed spec fn view(&self) -> PoolView {
        self.map@
    }
}

/// One of the transfers has the given hash.
pub open spec fn has_hash(txs: Seq<TransactionView>, hash: H256) -> bool {
    exists|i: int| 0 <= i < txs.len() && (#[trigger] txs[i]).hash == hash
}

/// The pool without the given transfers.
pub open spec fn without(pool: PoolView, txs: Seq<TransactionView>) -> PoolView {
    pool.remove_keys(Set::new(|h: H256| has_hash(txs, h)))
}

impl TxMempool {
    /// The empty pool.
    pub fn new() -> (pool: TxMempool)
        ensures
            pool@ == Map::<H256, TransactionView>::empty(),
    {
        TxMempool { map: Table::new() }
    }

    /// The waiting transfer with the given hash.
    pub fn get(&self, hash: &H256) -> (tx: Option<&SignedTransaction>)
        ensures
            match tx {
                Some(tx) => self@.contains_key(*hash) && self@[*hash] == tx.deep_view(),
                None => !self@.contains_key(*hash),
            },
    {
        self.map.get(hash)
    }

    /// Whether a transfer with the given hash waits.
    pub fn contains(&self, hash: &H256) -> (r: bool)
        ensures
            r == self@.contains_key(*hash),
    {
        self.map.contains_key(hash)
    }

    /// Lets a transfer wait.
    pub fn push_tx(&mut self, tx: &SignedTransaction)
        ensures
            final(self)@ == old(self)@.insert(tx.deep_view().hash, tx.deep_view()),
    {
        self.map.insert(tx.hash(), tx.clone());
    }

    /// Lets a transfer wait no longer.
    pub fn pop_tx(&mut self, tx: &SignedTransaction)
        ensures
            final(self)@ == old(self)@.remove(tx.deep_view().hash),
    {
        let _ = self.map.remove(&tx.hash());
    }

    /// Lets none of the given transfers wait any longer.
    pub fn pop_all(&mut self, txs: &Vec<SignedTransaction>)
        ensures
            final(self)@ == without(old(self)@, txs.deep_view()),
    {
        let ghost all = txs.deep_view();
        let mut i: usize = 0;
        assert(self@ =~= without(old(self)@, all.take(0)));
        while i < txs.len()
            invariant
                i <= txs@.len(),
                all == txs.deep_view(),
                self@ == without(old(self)@, all.take(i as int)),
            decreases txs@.len() - i,
        {
            let ghost done = all.take(i as int);
            let ghost next = all.take(i + 1);
            self.pop_tx(&txs[i]);
            proof {
                let hash = all[i as int].hash;
                assert(next =~= done.push(all[i as int]));
                assert(next[i as int].hash == hash);
                assert forall|h: H256| #[trigger]
                    has_hash(next, h) <==> (h == hash || has_hash(done, h)) by {
                    if has_hash(done, h) {
                        let j = choose|j: int| 0 <= j < done.len() && (#[trigger] done[j]).hash == h;
                        assert(next[j].hash == h);
                    }
                }
                assert(self@ =~= without(old(self)@, next));
            }
            i = i + 1;
        }
        assert(all.take(all.len() as int) =~= all);
    }
}

} // verus!
