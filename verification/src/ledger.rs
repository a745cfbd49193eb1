//! Account balances, and how transfers are checked against them and change them.

use vstd::prelude::*;
use crate::hash::{Key, H160};
use crate::note::Note;
use crate::table::{Replicate, Table};
use crate::transaction::{SignedTransaction, Transaction, TransactionView};

verus! {

/// The nonce and the balance of every known account.
pub type Ledger = Table<H160, (u32, u32)>;

/// The contents of a [`Ledger`].
pub type LedgerView = Map<H160, (u32, u32)>;

impl Replicate for (u32, u32) {
    fn replicate(&self) -> (copy: (u32, u32)) {
        *self
    }
}

/// The account from which a transfer is paid is known.
pub open spec fn checkable(ledger: LedgerView, tx: TransactionView) -> bool {
    ledger.contains_key(tx.owner)
}

/// A transfer may be paid from an account with this nonce and balance: its
/// signature is the owner's, the balance suffices, and its nonce is the next.
pub open spec fn admissible(account: (u32, u32), tx: Transaction, verified: bool) -> bool {
    &&& verified
    &&& account.1 >= tx.value
    &&& account.0 + 1 == tx.nonce
}

/// What speaks against paying a transfer from an account: the signature, the
/// balance and the nonce, in this order.
pub open spec fn complaints(account: (u32, u32), tx: Transaction, verified: bool) -> Seq<Note> {
    let signature = if verified {
        Seq::empty()
    } else {
        seq![Note::SignatureNotVerified]
    };
    let balance = if account.1 >= tx.value {
        Seq::empty()
    } else {
        seq![Note::NotEnoughBalance]
    };
    let nonce = if account.0 + 1 == tx.nonce {
        Seq::empty()
    } else {
        seq![Note::NonceMismatch]
    };
    signature + balance + nonce
}

/// Whether a transfer may be paid from an account with the given nonce and
/// balance. What speaks against it is added to `notes`.
pub fn check_account(
    account: (u32, u32),
    tx: &Transaction,
    verified: bool,
    notes: &mut Vec<Note>,
) -> (ok: bool)
    ensures
        ok == admissible(account, *tx, verified),
        ok <==> verified && account.1 >= tx.value && account.0 + 1 == tx.nonce,
        final(notes)@ == old(notes)@ + complaints(account, *tx, verified),
{
    let mut ok: bool = true;
    if !verified {
        ok = false;
        notes.push(Note::SignatureNotVerified);
    }
    if account.1 < tx.value {
        ok = false;
        notes.push(Note::NotEnoughBalance);
    }
    if tx.nonce == 0 || account.0 != tx.nonce - 1 {
        ok = false;
        notes.push(Note::NonceMismatch);
    }
    assert(notes@ =~= old(notes)@ + complaints(account, *tx, verified));
    ok
}

/// Whether a transfer may be paid out of `ledger`; `None` where it is not
/// checkable. What speaks against it is added to `notes`.
pub fn check_transaction(
    ledger: &Ledger,
    tx: &SignedTransaction,
    notes: &mut Vec<Note>,
) -> (verdict: Option<bool>)
    ensures
        verdict is Some <==> checkable(ledger@, tx.deep_view()),
        verdict is Some <==> ledger@.contains_key(tx.deep_view().owner),
        verdict == Some(true) ==> tx.deep_view().verified,
        match verdict {
            Some(ok) => {
                let account = ledger@[tx.deep_view().owner];
                let transfer = tx.deep_view().transaction;
                let verified = tx.deep_view().verified;
                &&& ok == admissible(account, transfer, verified)
                &&& final(notes)@ == old(notes)@ + complaints(account, transfer, verified)
            },
            None => final(notes)@ == old(notes)@,
        },
{
    let transfer: Transaction = tx.transaction();
    let owner: H160 = tx.owner();
    match ledger.get(&owner) {
        Some(account) => Some(check_account(*account, &transfer, tx.verified(), notes)),
        None => None,
    }
}

/// Every transfer is checkable.
pub open spec fn all_checkable(ledger: LedgerView, txs: Seq<TransactionView>) -> bool {
    forall|i: int| 0 <= i < txs.len() ==> checkable(ledger, #[trigger] txs[i])
}

/// Every transfer may be paid out of `ledger`, each taken by itself.
pub open spec fn all_admissible(ledger: LedgerView, txs: Seq<TransactionView>) -> bool {
    forall|i: int|
        0 <= i < txs.len() ==> admissible(
            ledger[(#[trigger] txs[i]).owner],
            txs[i].transaction,
            txs[i].verified,
        )
}

/// What speaks against the transfers, one after the other.
pub open spec fn all_complaints(ledger: LedgerView, txs: Seq<TransactionView>) -> Seq<Note>
    decreases txs.len(),
{
    if txs.len() == 0 {
        Seq::empty()
    } else {
        let tx = txs.last();
        all_complaints(ledger, txs.drop_last()) + complaints(
            ledger[tx.owner],
            tx.transaction,
            tx.verified,
        )
    }
}

/// Whether every transfer may be paid out of `ledger`; `None` where one of
/// them is not checkable. What speaks against them is added to `notes`.
pub fn check_transactions(
    ledger: &Ledger,
    txs: &Vec<SignedTransaction>,
    notes: &mut Vec<Note>,
) -> (verdict: Option<bool>)
    ensures
        verdict is Some <==> all_checkable(ledger@, txs.deep_view()),
        verdict matches Some(ok) ==> {
            &&& ok == all_admissible(ledger@, txs.deep_view())
            &&& ok <==> forall|i: int|
                0 <= i < txs.deep_view().len() ==> {
                    let tx = #[trigger] txs.deep_view()[i];
                    &&& tx.verified
                    &&& ledger@[tx.owner].1 >= tx.transaction.value
                    &&& ledger@[tx.owner].0 + 1 == tx.transaction.nonce
                }
            &&& final(notes)@ == old(notes)@ + all_complaints(ledger@, txs.deep_view())
        },
{
    let ghost all = txs.deep_view();
    let mut ok: bool = true;
    let mut i: usize = 0;
    assert(notes@ =~= old(notes)@ + all_complaints(ledger@, all.take(0)));
    while i < txs.len()
        invariant
            i <= txs@.len(),
            all == txs.deep_view(),
            all_checkable(ledger@, all.take(i as int)),
            ok == all_admissible(ledger@, all.take(i as int)),
            notes@ == old(notes)@ + all_complaints(ledger@, all.take(i as int)),
        decreases txs@.len() - i,
    {
        let ghost done = all.take(i as int);
        let ghost next = all.take(i + 1);
        let ghost so_far = notes@;
        assert(next =~= done.push(all[i as int]));
        assert(next.drop_last() =~= done);
        assert(all[i as int] == txs@[i as int].deep_view());
        match check_transaction(ledger, &txs[i], notes) {
            None => {
                return None;
            },
            Some(fine) => {
                assert(notes@ =~= old(notes)@ + all_complaints(ledger@, next));
                proof {
                    if all_admissible(ledger@, next) {
                        assert forall|j: int| 0 <= j < done.len() implies admissible(
                            ledger@[(#[trigger] done[j]).owner],
                            done[j].transaction,
                            done[j].verified,
                        ) by {
                            assert(next[j] == done[j]);
                        }
                        assert(next[i as int] == all[i as int]);
                    }
                }
                ok = ok && fine;
            },
        }
        i = i + 1;
    }
    assert(all.take(all.len() as int) =~= all);
    proof {
        crate::laws::accounts::law_all_payable(ledger@, all);
    }
    Some(ok)
}

/// The ledger after `owner` paid the transfer out of a balance of `funds`;
/// `None` where `funds` do not suffice, the recipient is not known, or its
/// balance would not fit.
pub open spec fn transferred(
    ledger: LedgerView,
    owner: H160,
    funds: u32,
    tx: Transaction,
) -> Option<LedgerView> {
    if funds < tx.value {
        None
    } else {
        let paid = ledger.insert(owner, (tx.nonce, (funds - tx.value) as u32));
        if !paid.contains_key(tx.address) {
            None
        } else {
            let (nonce, balance) = paid[tx.address];
            if balance + tx.value > u32::MAX {
                None
            } else {
                Some(paid.insert(tx.address, (nonce, (balance + tx.value) as u32)))
            }
        }
    }
}

/// Pays a transfer out of a balance of `funds`. Where it cannot be paid, the
/// ledger stays as it is and the result is `false`.
pub fn transfer(ledger: &mut Ledger, owner: H160, funds: u32, tx: &Transaction) -> (ok: bool)
    ensures
        match transferred(old(ledger)@, owner, funds, *tx) {
            Some(after) => ok && final(ledger)@ == after,
            None => !ok && final(ledger)@ == old(ledger)@,
        },
{
    if funds < tx.value {
        return false;
    }
    let sender: (u32, u32) = (tx.nonce, funds - tx.value);
    let recipient: (u32, u32) = if owner.same(&tx.address) {
        sender
    } else {
        match ledger.get(&tx.address) {
            Some(account) => *account,
            None => {
                return false;
            },
        }
    };
    if recipient.1 > u32::MAX - tx.value {
        return false;
    }
    ledger.insert(owner, sender);
    ledger.insert(tx.address, (recipient.0, recipient.1 + tx.value));
    true
}

/// The balance out of which the transfers of a block are paid.
#[derive(Clone, Copy, Debug, PartialEq, Eq)]
pub enum Basis {
    /// The balance that the parent block left.
    Parent,
    /// The balance that the preceding transfers of the block left.
    Running,
}

/// The balance out of which `owner` pays.
pub open spec fn funds_of(
    parent: LedgerView,
    running: LedgerView,
    basis: Basis,
    owner: H160,
) -> Option<u32> {
    let source = match basis {
        Basis::Parent => parent,
        Basis::Running => running,
    };
    if source.contains_key(owner) {
        Some(source[owner].1)
    } else {
        None
    }
}

/// The ledger that the transfers make of `parent`, taken in order; `None`
/// where one of them cannot be paid.
pub open spec fn settled(
    parent: LedgerView,
    txs: Seq<TransactionView>,
    basis: Basis,
) -> Option<LedgerView>
    decreases txs.len(),
{
    if txs.len() == 0 {
        Some(parent)
    } else {
        match settled(parent, txs.drop_last(), basis) {
            None => None,
            Some(running) => match funds_of(parent, running, basis, txs.last().owner) {
                None => None,
                Some(funds) => transferred(
                    running,
                    txs.last().owner,
                    funds,
                    txs.last().transaction,
                ),
            },
        }
    }
}

/// Where the first transfers cannot be paid, all together cannot.
proof fn lemma_unsettled_prefix(
    parent: LedgerView,
    txs: Seq<TransactionView>,
    basis: Basis,
    n: int,
)
    requires
        0 <= n <= txs.len(),
        settled(parent, txs.take(n), basis) is None,
    ensures
        settled(parent, txs, basis) is None,
    decreases txs.len(),
{
    if n == txs.len() {
        assert(txs.take(n) =~= txs);
    } else {
        assert(txs.drop_last().take(n) =~= txs.take(n));
        lemma_unsettled_prefix(parent, txs.drop_last(), basis, n);
    }
}

/// Applies the transfers of a block to the ledger that its parent left.
pub fn settle(parent: &Ledger, txs: &Vec<SignedTransaction>, basis: Basis) -> (ledger: Option<
    Ledger,
>)
    ensures
        ledger.deep_view() == settled(parent@, txs.deep_view(), basis),
        ledger matches Some(ledger) ==> {
            &&& ledger@.dom() == parent@.dom()
            &&& basis == Basis::Running ==> forall|a: H160|
                parent@.contains_key(a) ==> (#[trigger] ledger@[a]).1 == parent@[a].1
                    - crate::laws::accounts::spent(txs.deep_view(), a)
                    + crate::laws::accounts::earned(txs.deep_view(), a)
        },
{
    let ghost all = txs.deep_view();
    let mut ledger: Ledger = parent.clone();
    let mut i: usize = 0;
    while i < txs.len()
        invariant
            i <= txs@.len(),
            all == txs.deep_view(),
            settled(parent@, all.take(i as int), basis) == Some(ledger@),
        decreases txs@.len() - i,
    {
        let ghost next = all.take(i + 1);
        assert(next.drop_last() =~= all.take(i as int));
        assert(next.last() == txs@[i as int].deep_view());
        let owner: H160 = txs[i].owner();
        let tx: Transaction = txs[i].transaction();
        let account: Option<&(u32, u32)> = match basis {
            Basis::Parent => parent.get(&owner),
            Basis::Running => ledger.get(&owner),
        };
        let funds: u32 = match account {
            Some(account) => account.1,
            None => {
                proof {
                    lemma_unsettled_prefix(parent@, all, basis, i + 1);
                }
                return None;
            },
        };
        if !transfer(&mut ledger, owner, funds, &tx) {
            proof {
                lemma_unsettled_prefix(parent@, all, basis, i + 1);
            }
            return None;
        }
        i = i + 1;
    }
    assert(all.take(all.len() as int) =~= all);
    proof {
        crate::laws::money::law_accounts_stay(parent@, all, basis);
        if basis == Basis::Running {
            assert forall|a: H160| parent@.contains_key(a) implies (#[trigger] ledger@[a]).1
                == parent@[a].1 - crate::laws::accounts::spent(all, a)
                + crate::laws::accounts::earned(all, a) by {
                crate::laws::accounts::law_running_balances(parent@, all, a);
            }
        }
    }
    Some(ledger)
}

} // verus!
