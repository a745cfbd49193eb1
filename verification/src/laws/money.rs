//! What the transfers of a block do to accounts.

use vstd::prelude::*;
use crate::block::BlockView;
use crate::connect::State;
use crate::hash::H160;
use crate::ledger::{Basis, LedgerView};
use crate::note::Note;
use crate::transaction::{Transaction, TransactionView};

verus! {

/// The balances of the given accounts together.
pub open spec fn total_of(ledger: LedgerView, accounts: Set<H160>) -> int
    decreases accounts.len(),
    when accounts.finite()
{
    if accounts.len() == 0 {
        0
    } else {
        let a = accounts.choose();
        ledger[a].1 + total_of(ledger, accounts.remove(a))
    }
}

/// All balances together.
pub open spec fn total(ledger: LedgerView) -> int {
    total_of(ledger, ledger.dom())
}

/// Any account can be counted first.
proof fn lemma_total_split(ledger: LedgerView, accounts: Set<H160>, a: H160)
    requires
        accounts.finite(),
        accounts.contains(a),
    ensures
        total_of(ledger, accounts) == ledger[a].1 + total_of(ledger, accounts.remove(a)),
    decreases accounts.len(),
{
    let b = accounts.choose();
    if a != b {
        lemma_total_split(ledger, accounts.remove(b), a);
        lemma_total_split(ledger, accounts.remove(a), b);
        assert(accounts.remove(a).remove(b) =~= accounts.remove(b).remove(a));
    }
}

/// Accounts that are not counted do not matter.
proof fn lemma_total_frame(ledger: LedgerView, other: LedgerView, accounts: Set<H160>)
    requires
        accounts.finite(),
        forall|a: H160| accounts.contains(a) ==> #[trigger] ledger[a] == other[a],
    ensures
        total_of(ledger, accounts) == total_of(other, accounts),
    decreases accounts.len(),
{
    if accounts.len() > 0 {
        let a = accounts.choose();
        assert(ledger[a] == other[a]);
        lemma_total_frame(ledger, other, accounts.remove(a));
    }
}

/// Setting one account changes the total by what it changes the balance.
proof fn lemma_total_set(ledger: LedgerView, a: H160, account: (u32, u32))
    requires
        ledger.dom().finite(),
        ledger.contains_key(a),
    ensures
        total(ledger.insert(a, account)) == total(ledger) - ledger[a].1 + account.1,
{
    let after = ledger.insert(a, account);
    let others = ledger.dom().remove(a);
    assert(after.dom() =~= ledger.dom());
    lemma_total_split(ledger, ledger.dom(), a);
    lemma_total_split(after, ledger.dom(), a);
    lemma_total_frame(ledger, after, others);
}

/// A transfer makes or destroys as much money as the balance out of which it
/// is paid exceeds or falls short of the balance that the owner has.
pub proof fn law_transfer_total(ledger: LedgerView, owner: H160, funds: u32, tx: Transaction)
    requires
        ledger.dom().finite(),
        ledger.contains_key(owner),
        crate::ledger::transferred(ledger, owner, funds, tx) is Some,
    ensures
        total(crate::ledger::transferred(ledger, owner, funds, tx)->0) == total(ledger) + funds
            - ledger[owner].1,
{
    let paid = ledger.insert(owner, (tx.nonce, (funds - tx.value) as u32));
    let account = paid[tx.address];
    lemma_total_set(ledger, owner, (tx.nonce, (funds - tx.value) as u32));
    assert(paid.dom() =~= ledger.dom());
    lemma_total_set(paid, tx.address, (account.0, (account.1 + tx.value) as u32));
}

/// The transfers of a block neither open nor close accounts.
pub proof fn law_accounts_stay(parent: LedgerView, txs: Seq<TransactionView>, basis: Basis)
    requires
        crate::ledger::settled(parent, txs, basis) is Some,
    ensures
        (crate::ledger::settled(parent, txs, basis)->0).dom() == parent.dom(),
    decreases txs.len(),
{
    if txs.len() > 0 {
        law_accounts_stay(parent, txs.drop_last(), basis);
        let running = crate::ledger::settled(parent, txs.drop_last(), basis)->0;
        assert(running.contains_key(txs.last().owner));
        assert((crate::ledger::settled(parent, txs, basis)->0).dom() =~= parent.dom());
    }
}

/// How much the balances out of which the transfers are paid exceed, taken
/// together, the balances that the preceding transfers left.
pub open spec fn drift(parent: LedgerView, txs: Seq<TransactionView>, basis: Basis) -> int
    decreases txs.len(),
{
    if txs.len() == 0 {
        0
    } else {
        let owner = txs.last().owner;
        let running = crate::ledger::settled(parent, txs.drop_last(), basis)->0;
        let funds = crate::ledger::funds_of(parent, running, basis, owner)->0;
        drift(parent, txs.drop_last(), basis) + funds - running[owner].1
    }
}

/// The transfers of a block change the total by their drift.
pub proof fn law_settled_total(parent: LedgerView, txs: Seq<TransactionView>, basis: Basis)
    requires
        parent.dom().finite(),
        crate::ledger::settled(parent, txs, basis) is Some,
    ensures
        total(crate::ledger::settled(parent, txs, basis)->0) == total(parent) + drift(
            parent,
            txs,
            basis,
        ),
    decreases txs.len(),
{
    if txs.len() > 0 {
        let first = txs.drop_last();
        let tx = txs.last();
        law_settled_total(parent, first, basis);
        law_accounts_stay(parent, first, basis);
        let running = crate::ledger::settled(parent, first, basis)->0;
        let funds = crate::ledger::funds_of(parent, running, basis, tx.owner)->0;
        law_transfer_total(running, tx.owner, funds, tx.transaction);
    }
}

/// A block whose transfers are paid out of running balances neither makes nor
/// destroys money.
pub proof fn law_running_conserves(parent: LedgerView, txs: Seq<TransactionView>)
    requires
        parent.dom().finite(),
        crate::ledger::settled(parent, txs, Basis::Running) is Some,
    ensures
        total(crate::ledger::settled(parent, txs, Basis::Running)->0) == total(parent),
{
    lemma_no_drift(parent, txs);
    law_settled_total(parent, txs, Basis::Running);
}

proof fn lemma_no_drift(parent: LedgerView, txs: Seq<TransactionView>)
    requires
        crate::ledger::settled(parent, txs, Basis::Running) is Some,
    ensures
        drift(parent, txs, Basis::Running) == 0,
    decreases txs.len(),
{
    if txs.len() > 0 {
        lemma_no_drift(parent, txs.drop_last());
    }
}

/// No sender of the block took part in an earlier transfer of it.
pub open spec fn senders_untouched(txs: Seq<TransactionView>) -> bool {
    forall|i: int, j: int|
        0 <= i < j < txs.len() ==> {
            &&& (#[trigger] txs[i]).owner != (#[trigger] txs[j]).owner
            &&& txs[i].transaction.address != txs[j].owner
        }
}

/// Where no sender of a block took part in an earlier transfer of it, it makes
/// no difference which balances its transfers are paid out of.
pub proof fn law_bases_agree(parent: LedgerView, txs: Seq<TransactionView>)
    requires
        senders_untouched(txs),
    ensures
        crate::ledger::settled(parent, txs, Basis::Parent) == crate::ledger::settled(
            parent,
            txs,
            Basis::Running,
        ),
    decreases txs.len(),
{
    if txs.len() > 0 {
        let first = txs.drop_last();
        assert forall|i: int, j: int| 0 <= i < j < first.len() implies {
            &&& (#[trigger] first[i]).owner != (#[trigger] first[j]).owner
            &&& first[i].transaction.address != first[j].owner
        } by {
            assert(first[i] == txs[i] && first[j] == txs[j]);
        }
        law_bases_agree(parent, first);
        if crate::ledger::settled(parent, first, Basis::Running) is Some {
            assert forall|i: int| 0 <= i < first.len() implies (#[trigger] first[i]).owner
                != txs.last().owner && first[i].transaction.address != txs.last().owner by {
                assert(first[i] == txs[i]);
                assert(txs[i].owner != txs[txs.len() - 1].owner);
            }
            lemma_bystander(parent, first, Basis::Running, txs.last().owner);
        }
    }
}

/// An account that takes part in no transfer stays as it is.
proof fn lemma_bystander(parent: LedgerView, txs: Seq<TransactionView>, basis: Basis, a: H160)
    requires
        crate::ledger::settled(parent, txs, basis) is Some,
        forall|i: int|
            0 <= i < txs.len() ==> (#[trigger] txs[i]).owner != a && txs[i].transaction.address
                != a,
    ensures
        ({
            let after = crate::ledger::settled(parent, txs, basis)->0;
            &&& after.contains_key(a) == parent.contains_key(a)
            &&& after.contains_key(a) ==> after[a] == parent[a]
        }),
    decreases txs.len(),
{
    if txs.len() > 0 {
        let first = txs.drop_last();
        assert forall|i: int| 0 <= i < first.len() implies (#[trigger] first[i]).owner != a
            && first[i].transaction.address != a by {
            assert(first[i] == txs[i]);
        }
        lemma_bystander(parent, first, basis, a);
        assert(txs[txs.len() - 1].owner != a);
    }
}

/// The account pays one of the transfers.
pub open spec fn pays(txs: Seq<TransactionView>, a: H160) -> bool {
    exists|i: int| 0 <= i < txs.len() && (#[trigger] txs[i]).owner == a
}

/// After an accepted block, the nonce of every account that paid is one more
/// than before, and every other nonce is as it was.
pub proof fn law_nonces_count(
    parent: LedgerView,
    txs: Seq<TransactionView>,
    basis: Basis,
    a: H160,
)
    requires
        crate::ledger::all_admissible(parent, txs),
        crate::ledger::settled(parent, txs, basis) is Some,
        parent.contains_key(a),
    ensures
        (crate::ledger::settled(parent, txs, basis)->0)[a].0 == parent[a].0 + (if pays(txs, a) {
            1int
        } else {
            0
        }),
    decreases txs.len(),
{
    if txs.len() > 0 {
        let first = txs.drop_last();
        let tx = txs.last();
        assert forall|i: int| 0 <= i < first.len() implies crate::ledger::admissible(
            parent[(#[trigger] first[i]).owner],
            first[i].transaction,
            first[i].verified,
        ) by {
            assert(first[i] == txs[i]);
        }
        law_nonces_count(parent, first, basis, a);
        law_accounts_stay(parent, first, basis);
        assert(txs[txs.len() - 1] == tx);
        if pays(first, a) {
            let i = choose|i: int| 0 <= i < first.len() && (#[trigger] first[i]).owner == a;
            assert(txs[i].owner == a);
        }
        if pays(txs, a) && tx.owner != a {
            let i = choose|i: int| 0 <= i < txs.len() && (#[trigger] txs[i]).owner == a;
            assert(first[i].owner == a);
        }
    }
}

/// A transfer of an accepted block cannot be paid again out of the ledger that
/// the block left: its nonce is used up.
pub proof fn law_no_double_spend(
    parent: LedgerView,
    txs: Seq<TransactionView>,
    basis: Basis,
    i: int,
)
    requires
        crate::ledger::all_checkable(parent, txs),
        crate::ledger::all_admissible(parent, txs),
        crate::ledger::settled(parent, txs, basis) is Some,
        0 <= i < txs.len(),
    ensures
        ({
            let account = (crate::ledger::settled(parent, txs, basis)->0)[txs[i].owner];
            let tx = txs[i].transaction;
            &&& account.0 == tx.nonce
            &&& !crate::ledger::admissible(account, tx, txs[i].verified)
            &&& crate::ledger::complaints(account, tx, txs[i].verified).contains(
                Note::NonceMismatch,
            )
        }),
{
    let owner = txs[i].owner;
    assert(crate::ledger::checkable(parent, txs[i]));
    law_nonces_count(parent, txs, basis, owner);
    assert(pays(txs, owner));
    assert(crate::ledger::admissible(parent[owner], txs[i].transaction, txs[i].verified));
    let account = (crate::ledger::settled(parent, txs, basis)->0)[owner];
    let notes = crate::ledger::complaints(account, txs[i].transaction, txs[i].verified);
    assert(notes[notes.len() - 1] == Note::NonceMismatch);
}

/// Transfers signed with the same key are paid from the same account.
pub proof fn law_key_decides_owner(a: TransactionView, b: TransactionView)
    ensures
        a.wf() && b.wf() && a.public_key == b.public_key ==> a.owner == b.owner,
{
    if a.wf() && b.wf() && a.public_key == b.public_key {
        assert(a.owner.bytes =~= b.owner.bytes);
    }
}

/// A block that is put on top of its parent when it comes in leaves as much
/// money as its parent left.
pub proof fn law_incoming_block_conserves(s: State, block: BlockView)
    requires
        s.states[block.parent_hash].dom().finite(),
        crate::connect::connected(s, block, Basis::Running) is Some,
        crate::connect::accepts(s.states, block),
    ensures
        total((crate::connect::connected(s, block, Basis::Running)->0).states[block.hash])
            == total(s.states[block.parent_hash]),
{
    law_running_conserves(s.states[block.parent_hash], block.content);
}

/// A block that waited for its parent leaves as much money as its parent left,
/// changed by the drift of its transfers.
pub proof fn law_waiting_block_drifts(s: State, block: BlockView)
    requires
        s.states[block.parent_hash].dom().finite(),
        crate::connect::connected(s, block, Basis::Parent) is Some,
        crate::connect::accepts(s.states, block),
    ensures
        total((crate::connect::connected(s, block, Basis::Parent)->0).states[block.hash])
            == total(s.states[block.parent_hash]) + drift(
            s.states[block.parent_hash],
            block.content,
            Basis::Parent,
        ),
{
    law_settled_total(s.states[block.parent_hash], block.content, Basis::Parent);
}

/// A block that repeats a transfer of its parent is not accepted.
pub proof fn law_replay_refused(
    s: State,
    block: BlockView,
    basis: Basis,
    child: BlockView,
    i: int,
    j: int,
)
    requires
        crate::connect::connected(s, block, basis) is Some,
        crate::connect::accepts(s.states, block),
        child.parent_hash == block.hash,
        0 <= i < block.content.len(),
        0 <= j < child.content.len(),
        child.content[j] == block.content[i],
    ensures
        !crate::connect::accepts(
            (crate::connect::connected(s, block, basis)->0).states,
            child,
        ),
{
    law_no_double_spend(s.states[block.parent_hash], block.content, basis, i);
    let after = (crate::connect::connected(s, block, basis)->0).states;
    if crate::connect::accepts(after, child) {
        assert(crate::ledger::admissible(
            after[child.parent_hash][child.content[j].owner],
            child.content[j].transaction,
            child.content[j].verified,
        ));
    }
}

} // verus!
