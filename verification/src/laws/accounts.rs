//! Which transfers may be paid, and who has the money afterwards.

use vstd::prelude::*;
use crate::hash::H160;
use crate::ledger::{Basis, LedgerView};
use crate::note::Note;
use crate::transaction::{Transaction, TransactionView};

verus! {

/// A transfer may be paid from an account just where its signature is the
/// owner's, the balance is at least its value, and its nonce is one more than
/// that of the account.
pub proof fn law_payable(account: (u32, u32), tx: Transaction, verified: bool)
    ensures
        crate::ledger::admissible(account, tx, verified) <==> {
            &&& verified
            &&& account.1 >= tx.value
            &&& account.0 + 1 == tx.nonce
        },
{
}

/// All transfers of a list may be paid just where each of them has a valid
/// signature, a balance behind it that is at least its value, and the nonce
/// that follows that of its account. Whether they can be checked at all rests
/// on nothing but that their owners have accounts.
pub proof fn law_all_payable(ledger: LedgerView, txs: Seq<TransactionView>)
    ensures
        crate::ledger::all_checkable(ledger, txs) <==> forall|i: int|
            0 <= i < txs.len() ==> ledger.contains_key((#[trigger] txs[i]).owner),
        crate::ledger::all_admissible(ledger, txs) <==> forall|i: int|
            0 <= i < txs.len() ==> {
                &&& (#[trigger] txs[i]).verified
                &&& ledger[txs[i].owner].1 >= txs[i].transaction.value
                &&& ledger[txs[i].owner].0 + 1 == txs[i].transaction.nonce
            },
{
    let good = forall|i: int|
        0 <= i < txs.len() ==> {
            &&& (#[trigger] txs[i]).verified
            &&& ledger[txs[i].owner].1 >= txs[i].transaction.value
            &&& ledger[txs[i].owner].0 + 1 == txs[i].transaction.nonce
        };
    if crate::ledger::all_admissible(ledger, txs) {
        assert forall|i: int| 0 <= i < txs.len() implies {
            &&& (#[trigger] txs[i]).verified
            &&& ledger[txs[i].owner].1 >= txs[i].transaction.value
            &&& ledger[txs[i].owner].0 + 1 == txs[i].transaction.nonce
        } by {
            law_payable(ledger[txs[i].owner], txs[i].transaction, txs[i].verified);
        }
    }
    if good {
        assert forall|i: int| 0 <= i < txs.len() implies crate::ledger::admissible(
            ledger[(#[trigger] txs[i]).owner],
            txs[i].transaction,
            txs[i].verified,
        ) by {
            law_payable(ledger[txs[i].owner], txs[i].transaction, txs[i].verified);
        }
    }
    if crate::ledger::all_checkable(ledger, txs) {
        assert forall|i: int| 0 <= i < txs.len() implies ledger.contains_key(
            (#[trigger] txs[i]).owner,
        ) by {
            assert(crate::ledger::checkable(ledger, txs[i]));
        }
    }
}

/// What is noted of a transfer: each of the three complaints just where it
/// applies, once, and in the order signature, balance, nonce.
pub proof fn law_complaints(account: (u32, u32), tx: Transaction, verified: bool)
    ensures
        ({
            let notes = crate::ledger::complaints(account, tx, verified);
            &&& notes.contains(Note::SignatureNotVerified) <==> !verified
            &&& notes.contains(Note::NotEnoughBalance) <==> account.1 < tx.value
            &&& notes.contains(Note::NonceMismatch) <==> account.0 + 1 != tx.nonce
            &&& notes.no_duplicates()
            &&& forall|k: int|
                0 <= k < notes.len() ==> {
                    ||| #[trigger] notes[k] == Note::SignatureNotVerified && k == 0
                    ||| notes[k] == Note::NotEnoughBalance && k <= 1
                    ||| notes[k] == Note::NonceMismatch && k == notes.len() - 1
                }
        }),
{
    let notes = crate::ledger::complaints(account, tx, verified);
    if !verified {
        assert(notes[0] == Note::SignatureNotVerified);
    }
    if account.1 < tx.value {
        assert(notes[if verified {
            0
        } else {
            1
        }] == Note::NotEnoughBalance);
    }
    if account.0 + 1 != tx.nonce {
        assert(notes[notes.len() - 1] == Note::NonceMismatch);
    }
}

/// What is noted of two lists of transfers is noted of them one after the
/// other, and what is noted of one transfer is what speaks against it.
pub proof fn law_complaints_add_up(
    ledger: LedgerView,
    a: Seq<TransactionView>,
    b: Seq<TransactionView>,
    tx: TransactionView,
)
    ensures
        crate::ledger::all_complaints(ledger, a + b) == crate::ledger::all_complaints(ledger, a)
            + crate::ledger::all_complaints(ledger, b),
        crate::ledger::all_complaints(ledger, seq![tx]) == crate::ledger::complaints(
            ledger[tx.owner],
            tx.transaction,
            tx.verified,
        ),
    decreases b.len(),
{
    reveal_with_fuel(crate::ledger::all_complaints, 2);
    assert(seq![tx].drop_last() =~= Seq::empty());
    assert(crate::ledger::all_complaints(ledger, seq![tx]) =~= crate::ledger::complaints(
        ledger[tx.owner],
        tx.transaction,
        tx.verified,
    ));
    if b.len() == 0 {
        assert(a + b =~= a);
        assert(crate::ledger::all_complaints(ledger, a) + Seq::<Note>::empty()
            =~= crate::ledger::all_complaints(ledger, a));
    } else {
        law_complaints_add_up(ledger, a, b.drop_last(), tx);
        assert((a + b).drop_last() =~= a + b.drop_last());
        assert((a + b).last() == b.last());
        assert(crate::ledger::all_complaints(ledger, a + b) =~= crate::ledger::all_complaints(
            ledger,
            a,
        ) + crate::ledger::all_complaints(ledger, b));
    }
}

/// Something speaks against a list of transfers just where not all of them may
/// be paid.
pub proof fn law_refusal_is_noted(ledger: LedgerView, txs: Seq<TransactionView>)
    ensures
        crate::ledger::all_complaints(ledger, txs).len() == 0 <==> forall|i: int|
            0 <= i < txs.len() ==> {
                &&& (#[trigger] txs[i]).verified
                &&& ledger[txs[i].owner].1 >= txs[i].transaction.value
                &&& ledger[txs[i].owner].0 + 1 == txs[i].transaction.nonce
            },
    decreases txs.len(),
{
    if txs.len() > 0 {
        let first = txs.drop_last();
        law_refusal_is_noted(ledger, first);
        assert(txs[txs.len() - 1] == txs.last());
        if forall|i: int|
            0 <= i < txs.len() ==> {
                &&& (#[trigger] txs[i]).verified
                &&& ledger[txs[i].owner].1 >= txs[i].transaction.value
                &&& ledger[txs[i].owner].0 + 1 == txs[i].transaction.nonce
            } {
            assert forall|i: int| 0 <= i < first.len() implies {
                &&& (#[trigger] first[i]).verified
                &&& ledger[first[i].owner].1 >= first[i].transaction.value
                &&& ledger[first[i].owner].0 + 1 == first[i].transaction.nonce
            } by {
                assert(first[i] == txs[i]);
            }
        }
        if crate::ledger::all_complaints(ledger, txs).len() == 0 {
            assert forall|i: int| 0 <= i < txs.len() implies {
                &&& (#[trigger] txs[i]).verified
                &&& ledger[txs[i].owner].1 >= txs[i].transaction.value
                &&& ledger[txs[i].owner].0 + 1 == txs[i].transaction.nonce
            } by {
                if i < first.len() {
                    assert(first[i] == txs[i]);
                }
            }
        }
    }
}

/// A transfer out of a balance of `funds` goes through just where the funds
/// suffice, the recipient has an account or is the owner, and its balance
/// fits. It takes its value from the owner and gives it to the recipient, sets
/// the owner's nonce, and leaves every other account as it was.
pub proof fn law_transfer(
    ledger: LedgerView,
    owner: H160,
    funds: u32,
    tx: Transaction,
    a: H160,
)
    ensures
        crate::ledger::transferred(ledger, owner, funds, tx) is Some <==> {
            &&& funds >= tx.value
            &&& owner != tx.address ==> ledger.contains_key(tx.address) && ledger[tx.address].1
                + tx.value <= u32::MAX
        },
        crate::ledger::transferred(ledger, owner, funds, tx) matches Some(after) ==> {
            &&& after.dom() == ledger.dom().insert(owner)
            &&& after[owner].0 == tx.nonce
            &&& after[owner].1 == funds - (if owner == tx.address {
                0
            } else {
                tx.value as int
            })
            &&& owner != tx.address ==> {
                &&& after[tx.address].0 == ledger[tx.address].0
                &&& after[tx.address].1 == ledger[tx.address].1 + tx.value
            }
            &&& a != owner && a != tx.address ==> after[a] == ledger[a]
        },
{
    if crate::ledger::transferred(ledger, owner, funds, tx) is Some {
        let after = crate::ledger::transferred(ledger, owner, funds, tx)->0;
        assert(after.dom() =~= ledger.dom().insert(owner));
    }
}

/// Where the transfers of a block are paid out of running balances, every
/// account ends with what it had, less the values of all transfers that it
/// owns, plus the values of all transfers addressed to it.
pub proof fn law_running_balances(parent: LedgerView, txs: Seq<TransactionView>, a: H160)
    requires
        crate::ledger::settled(parent, txs, Basis::Running) is Some,
        parent.contains_key(a),
    ensures
        ({
            let after = crate::ledger::settled(parent, txs, Basis::Running)->0;
            &&& after.contains_key(a)
            &&& after[a].1 == parent[a].1 - txs.fold_left(
                0int,
                |sum: int, tx: TransactionView|
                    if tx.owner == a {
                        sum + tx.transaction.value
                    } else {
                        sum
                    },
            ) + txs.fold_left(
                0int,
                |sum: int, tx: TransactionView|
                    if tx.transaction.address == a {
                        sum + tx.transaction.value
                    } else {
                        sum
                    },
            )
        }),
    decreases txs.len(),
{
    if txs.len() > 0 {
        let first = txs.drop_last();
        let tx = txs.last();
        law_running_balances(parent, first, a);
        crate::laws::money::law_accounts_stay(parent, first, Basis::Running);
        let running = crate::ledger::settled(parent, first, Basis::Running)->0;
        law_transfer(running, tx.owner, running[tx.owner].1, tx.transaction, a);
    }
}

/// The values of the transfers that the account owns, taken together.
pub open spec fn spent(txs: Seq<TransactionView>, a: H160) -> int {
    txs.fold_left(
        0int,
        |sum: int, tx: TransactionView|
            if tx.owner == a {
                sum + tx.transaction.value
            } else {
                sum
            },
    )
}

/// The values of the transfers addressed to the account, taken together.
pub open spec fn earned(txs: Seq<TransactionView>, a: H160) -> int {
    txs.fold_left(
        0int,
        |sum: int, tx: TransactionView|
            if tx.transaction.address == a {
                sum + tx.transaction.value
            } else {
                sum
            },
    )
}

/// The n-th transfer can be paid out of running balances: its owner and its
/// recipient have accounts, what the preceding transfers left the owner is
/// enough, and the recipient's balance fits.
pub open spec fn runs(parent: LedgerView, txs: Seq<TransactionView>, n: int) -> bool {
    let done = txs.take(n);
    let next = txs.take(n + 1);
    let tx = txs[n].transaction;
    &&& parent.contains_key(txs[n].owner)
    &&& parent.contains_key(tx.address)
    &&& parent[txs[n].owner].1 - spent(done, txs[n].owner) + earned(done, txs[n].owner) >= tx.value
    &&& parent[tx.address].1 - spent(next, tx.address) + earned(next, tx.address) <= u32::MAX
}

/// The transfers of a block go through on running balances just where each of
/// them can be paid when its turn comes.
pub proof fn law_running_settles(parent: LedgerView, txs: Seq<TransactionView>)
    ensures
        crate::ledger::settled(parent, txs, Basis::Running) is Some <==> forall|n: int|
            0 <= n < txs.len() ==> #[trigger] runs(parent, txs, n),
    decreases txs.len(),
{
    if txs.len() > 0 {
        let first = txs.drop_last();
        let tx = txs.last();
        let m = txs.len() - 1;
        law_running_settles(parent, first);
        assert forall|n: int| 0 <= n < m implies runs(parent, first, n) == #[trigger] runs(
            parent,
            txs,
            n,
        ) by {
            assert(first.take(n) =~= txs.take(n));
            assert(first.take(n + 1) =~= txs.take(n + 1));
        }
        assert(txs.take(m) =~= first);
        assert(txs.take(m + 1) =~= txs);
        if crate::ledger::settled(parent, first, Basis::Running) is Some {
            let running = crate::ledger::settled(parent, first, Basis::Running)->0;
            crate::laws::money::law_accounts_stay(parent, first, Basis::Running);
            law_transfer(
                running,
                tx.owner,
                running[tx.owner].1,
                tx.transaction,
                tx.owner,
            );
            if parent.contains_key(tx.owner) {
                law_running_balances(parent, first, tx.owner);
            }
            if parent.contains_key(tx.transaction.address) {
                law_running_balances(parent, first, tx.transaction.address);
            }
            assert(runs(parent, txs, m) == (crate::ledger::settled(
                parent,
                txs,
                Basis::Running,
            ) is Some));
            assert forall|n: int| 0 <= n < m implies #[trigger] runs(parent, txs, n) by {
                assert(runs(parent, first, n));
            }
        } else {
            let n = choose|n: int| 0 <= n < m && !#[trigger] runs(parent, first, n);
            assert(!runs(parent, txs, n));
        }
    }
}

/// The place of the last transfer that the account owns, or -1.
pub open spec fn last_payment(txs: Seq<TransactionView>, a: H160) -> int
    decreases txs.len(),
{
    if txs.len() == 0 {
        -1
    } else if txs.last().owner == a {
        txs.len() - 1
    } else {
        last_payment(txs.drop_last(), a)
    }
}

/// The last payment is a transfer that the account owns, and it owns none
/// after it.
pub proof fn law_last_payment(txs: Seq<TransactionView>, a: H160)
    ensures
        -1 <= last_payment(txs, a) < txs.len(),
        last_payment(txs, a) >= 0 ==> txs[last_payment(txs, a)].owner == a,
        forall|i: int| last_payment(txs, a) < i < txs.len() ==> (#[trigger] txs[i]).owner != a,
    decreases txs.len(),
{
    if txs.len() > 0 && txs.last().owner != a {
        let first = txs.drop_last();
        law_last_payment(first, a);
        assert forall|i: int| last_payment(txs, a) < i < txs.len() implies (
        #[trigger] txs[i]).owner != a by {
            if i < first.len() {
                assert(first[i] == txs[i]);
            }
        }
    }
}

/// Where the transfers of a block are paid out of the balances that its parent
/// left, an account that pays ends with what the parent left it, less its last
/// payment, plus all that was addressed to it from that transfer on. One that
/// does not pay ends with what it had, plus all that was addressed to it.
pub proof fn law_parent_balances(parent: LedgerView, txs: Seq<TransactionView>, a: H160)
    requires
        crate::ledger::settled(parent, txs, Basis::Parent) is Some,
        parent.contains_key(a),
    ensures
        ({
            let after = crate::ledger::settled(parent, txs, Basis::Parent)->0;
            let last = last_payment(txs, a);
            &&& after.contains_key(a)
            &&& last < 0 ==> after[a].1 == parent[a].1 + earned(txs, a)
            &&& last >= 0 ==> after[a].1 == parent[a].1 - txs[last].transaction.value + earned(
                txs.skip(last),
                a,
            )
        }),
    decreases txs.len(),
{
    law_last_payment(txs, a);
    if txs.len() > 0 {
        let first = txs.drop_last();
        let tx = txs.last();
        let last = last_payment(txs, a);
        law_parent_balances(parent, first, a);
        crate::laws::money::law_accounts_stay(parent, first, Basis::Parent);
        let running = crate::ledger::settled(parent, first, Basis::Parent)->0;
        law_transfer(running, tx.owner, parent[tx.owner].1, tx.transaction, a);
        if last >= 0 {
            let tail = txs.skip(last);
            assert(tail.last() == tx);
            if tx.owner == a {
                assert(tail.drop_last() =~= Seq::empty());
                reveal_with_fuel(Seq::fold_left, 2);
            } else {
                assert(tail.drop_last() =~= first.skip(last));
            }
        }
    }
}

/// The balance of an account after the first transfers of a block were paid
/// out of the balances that its parent left.
pub open spec fn parent_balance(parent: LedgerView, txs: Seq<TransactionView>, a: H160) -> int {
    let last = last_payment(txs, a);
    if last < 0 {
        parent[a].1 + earned(txs, a)
    } else {
        parent[a].1 - txs[last].transaction.value + earned(txs.skip(last), a)
    }
}

/// The n-th transfer can be paid out of the balance that the parent left.
pub open spec fn stands(parent: LedgerView, txs: Seq<TransactionView>, n: int) -> bool {
    let tx = txs[n].transaction;
    &&& parent.contains_key(txs[n].owner)
    &&& parent.contains_key(tx.address)
    &&& parent[txs[n].owner].1 >= tx.value
    &&& parent_balance(parent, txs.take(n + 1), tx.address) <= u32::MAX
}

/// The transfers of a block go through on the balances that its parent left
/// just where each of them can be paid by itself and the recipient's balance
/// fits each time.
pub proof fn law_parent_settles(parent: LedgerView, txs: Seq<TransactionView>)
    ensures
        crate::ledger::settled(parent, txs, Basis::Parent) is Some <==> forall|n: int|
            0 <= n < txs.len() ==> #[trigger] stands(parent, txs, n),
    decreases txs.len(),
{
    if txs.len() > 0 {
        let first = txs.drop_last();
        let tx = txs.last();
        let m = txs.len() - 1;
        let to = tx.transaction.address;
        law_parent_settles(parent, first);
        assert forall|n: int| 0 <= n < m implies stands(parent, first, n) == #[trigger] stands(
            parent,
            txs,
            n,
        ) by {
            assert(first.take(n + 1) =~= txs.take(n + 1));
        }
        assert(txs.take(m + 1) =~= txs);
        if crate::ledger::settled(parent, first, Basis::Parent) is Some {
            let running = crate::ledger::settled(parent, first, Basis::Parent)->0;
            crate::laws::money::law_accounts_stay(parent, first, Basis::Parent);
            law_transfer(running, tx.owner, parent[tx.owner].1, tx.transaction, to);
            law_last_payment(txs, to);
            if parent.contains_key(to) {
                law_parent_balances(parent, first, to);
                let last = last_payment(txs, to);
                if last >= 0 {
                    let tail = txs.skip(last);
                    assert(tail.last() == tx);
                    if tx.owner == to {
                        assert(tail.drop_last() =~= Seq::empty());
                        reveal_with_fuel(Seq::fold_left, 2);
                    } else {
                        assert(tail.drop_last() =~= first.skip(last));
                    }
                }
            }
            assert(stands(parent, txs, m) == (crate::ledger::settled(
                parent,
                txs,
                Basis::Parent,
            ) is Some));
            assert forall|n: int| 0 <= n < m implies #[trigger] stands(parent, txs, n) by {
                assert(stands(parent, first, n));
            }
        } else {
            let n = choose|n: int| 0 <= n < m && !#[trigger] stands(parent, first, n);
            assert(!stands(parent, txs, n));
        }
    }
}

/// After the transfers of a block, an account that pays has the nonce of its
/// last payment, and every other one the nonce that it had.
pub proof fn law_nonces_set(
    parent: LedgerView,
    txs: Seq<TransactionView>,
    basis: Basis,
    a: H160,
)
    requires
        crate::ledger::settled(parent, txs, basis) is Some,
        parent.contains_key(a),
    ensures
        ({
            let after = crate::ledger::settled(parent, txs, basis)->0;
            &&& forall|i: int|
                0 <= i < txs.len() && (#[trigger] txs[i]).owner == a && (forall|j: int|
                    i < j < txs.len() ==> (#[trigger] txs[j]).owner != a) ==> after[a].0
                    == txs[i].transaction.nonce
            &&& (forall|i: int| 0 <= i < txs.len() ==> (#[trigger] txs[i]).owner != a)
                ==> after[a].0 == parent[a].0
        }),
    decreases txs.len(),
{
    if txs.len() > 0 {
        let first = txs.drop_last();
        let tx = txs.last();
        let after = crate::ledger::settled(parent, txs, basis)->0;
        law_nonces_set(parent, first, basis, a);
        crate::laws::money::law_accounts_stay(parent, first, basis);
        let running = crate::ledger::settled(parent, first, basis)->0;
        let funds = crate::ledger::funds_of(parent, running, basis, tx.owner)->0;
        law_transfer(running, tx.owner, funds, tx.transaction, a);
        assert(txs[txs.len() - 1] == tx);
        assert forall|i: int|
            0 <= i < txs.len() && (#[trigger] txs[i]).owner == a && (forall|j: int|
                i < j < txs.len() ==> (#[trigger] txs[j]).owner != a) implies after[a].0
            == txs[i].transaction.nonce by {
            if i < first.len() {
                assert(first[i] == txs[i]);
                assert(tx.owner != a);
                assert forall|j: int| i < j < first.len() implies (#[trigger] first[j]).owner
                    != a by {
                    assert(first[j] == txs[j]);
                }
            }
        }
        if forall|i: int| 0 <= i < txs.len() ==> (#[trigger] txs[i]).owner != a {
            assert forall|i: int| 0 <= i < first.len() implies (#[trigger] first[i]).owner != a by {
                assert(first[i] == txs[i]);
            }
        }
    }
}

} // verus!
