//! What each message other than blocks changes and what is said in answer.

use vstd::prelude::*;
use crate::hash::{H160, H256};
use crate::ledger::LedgerView;
use crate::message::{MessageView, OutcomeView};
use crate::note::Note;
use crate::transaction::TransactionView;
use crate::worker::Node;

verus! {

/// A ping or a pong changes nothing and is not answered.
pub proof fn law_ping_passes(pre: Node, msg: MessageView, post: Node, outcome: OutcomeView)
    requires
        msg is Ping || msg is Pong,
        crate::worker::handled(pre, msg, post, outcome),
    ensures
        post == pre,
        outcome.reply is None,
        outcome.broadcast is None,
        outcome.notes.len() == 0,
{
}

/// A new peer gets an account with nonce 0 and a balance of 100 unless it has
/// one; every other account and everything else stays as it is. All peers are
/// told of every account, once each.
pub proof fn law_peer_is_entered(
    pre: Node,
    peer: H160,
    post: Node,
    outcome: OutcomeView,
    a: H160,
)
    requires
        crate::worker::handled(pre, MessageView::NewPeer(peer), post, outcome),
    ensures
        post.chain == pre.chain && post.orphans == pre.orphans && post.pool == pre.pool
            && post.states == pre.states,
        post.init.contains_key(a) <==> pre.init.contains_key(a) || a == peer,
        pre.init.contains_key(a) ==> post.init[a] == pre.init[a],
        !pre.init.contains_key(peer) ==> post.init[peer] == (0u32, 100u32),
        outcome.reply is None,
        outcome.notes.len() == 0,
        outcome.broadcast matches Some(MessageView::Ack(peers)) && peers.no_duplicates() && (
        peers.contains(a) <==> post.init.contains_key(a)),
{
    assert(seq![peer][0] == peer);
    assert(seq![peer].contains(a) <==> a == peer);
    let peers = choose|peers: Seq<H160>|
        crate::table::is_walk(peers, post.init.dom()) && outcome
            == #[trigger] crate::message::broadcasting(crate::message::ack(peers));
    assert(peers.to_set().contains(peer));
    assert(peers.contains(a) <==> peers.to_set().contains(a));
}

/// Peers that are made known get accounts with nonce 0 and a balance of 100
/// unless they have one; every other account stays as it is. The block in
/// which the longest branch ends leaves the accounts that result, and every
/// other ledger and everything else stays as it is. The peers that got an
/// account are passed on, once each, in the order in which they were first
/// named; nothing is sent where there are none.
pub proof fn law_peers_are_entered(
    pre: Node,
    peers: Seq<H160>,
    post: Node,
    outcome: OutcomeView,
    a: H160,
    h: H256,
)
    requires
        crate::worker::handled(pre, MessageView::Ack(peers), post, outcome),
    ensures
        post.chain == pre.chain && post.orphans == pre.orphans && post.pool == pre.pool,
        post.init.contains_key(a) <==> pre.init.contains_key(a) || peers.contains(a),
        pre.init.contains_key(a) ==> post.init[a] == pre.init[a],
        !pre.init.contains_key(a) && peers.contains(a) ==> post.init[a] == (0u32, 100u32),
        post.states.contains_key(pre.chain.tail) && post.states[pre.chain.tail] == post.init,
        h != pre.chain.tail ==> post.states.contains_key(h) == pre.states.contains_key(h)
            && post.states[h] == pre.states[h],
        outcome.reply is None,
        outcome.notes.len() == 0,
        match outcome.broadcast {
            None => peers.contains(a) ==> pre.init.contains_key(a),
            Some(MessageView::Ack(fresh)) => {
                &&& fresh.len() > 0
                &&& fresh.no_duplicates()
                &&& fresh.contains(a) <==> peers.contains(a) && !pre.init.contains_key(a)
                &&& forall|i: int, j: int, y: int|
                    #![trigger fresh[i], fresh[j], peers[y]]
                    0 <= i < j < fresh.len() && 0 <= y < peers.len() && fresh[j] == peers[y]
                        ==> peers.take(y).contains(fresh[i])
            },
            _ => false,
        },
{
    crate::peers::lemma_newcomers(pre.init, peers);
    lemma_newcomers_in_order(pre.init, peers);
    let fresh = crate::peers::newcomers(pre.init, peers);
    if peers.contains(a) && !pre.init.contains_key(a) {
        assert(fresh.contains(a));
        assert(fresh.len() > 0);
    }
}

/// Of two newcomers, the one that comes first was named before the other was
/// named at all.
proof fn lemma_newcomers_in_order(ledger: LedgerView, peers: Seq<H160>)
    ensures
        ({
            let fresh = crate::peers::newcomers(ledger, peers);
            forall|i: int, j: int, y: int|
                #![trigger fresh[i], fresh[j], peers[y]]
                0 <= i < j < fresh.len() && 0 <= y < peers.len() && fresh[j] == peers[y]
                    ==> peers.take(y).contains(fresh[i])
        }),
    decreases peers.len(),
{
    if peers.len() > 0 {
        let first = peers.drop_last();
        let before = crate::peers::newcomers(ledger, first);
        let fresh = crate::peers::newcomers(ledger, peers);
        lemma_newcomers_in_order(ledger, first);
        crate::peers::lemma_newcomers(ledger, first);
        crate::peers::lemma_newcomers(ledger, peers);
        assert forall|i: int, j: int, y: int|
            #![trigger fresh[i], fresh[j], peers[y]]
            0 <= i < j < fresh.len() && 0 <= y < peers.len() && fresh[j]
                == peers[y] implies peers.take(y).contains(fresh[i]) by {
            assert(fresh[i] == before[i]);
            assert(peers.take(y) =~= first.take(y));
            if y < first.len() {
                assert(first[y] == peers[y]);
                assert(first.contains(first[y]));
                assert(fresh.contains(fresh[j]));
                assert(before.contains(fresh[j]));
                if j < before.len() {
                    assert(before[j] == first[y]);
                } else {
                    let m = choose|m: int| 0 <= m < before.len() && before[m] == fresh[j];
                    assert(fresh[m] == fresh[j]);
                }
            } else {
                assert(before.contains(before[i]));
                assert(first.take(y) =~= first);
            }
        }
    }
}

/// Announced transfers that do not wait here are asked for, as often and in
/// the order in which they were named, and nothing is said where all wait.
pub proof fn law_unknown_transfers_are_asked_for(
    pre: Node,
    hashes: Seq<H256>,
    post: Node,
    outcome: OutcomeView,
)
    requires
        crate::worker::handled(pre, MessageView::NewTransactionHashes(hashes), post, outcome),
    ensures
        post == pre,
        outcome.broadcast is None,
        outcome.notes.len() == 0,
        ({
            let wanted = hashes.filter(|h: H256| !pre.pool.contains_key(h));
            outcome.reply == if wanted.len() > 0 {
                Some(MessageView::GetTransactions(wanted))
            } else {
                None
            }
        }),
{
    let stated = |h: H256| !pre.pool.contains_key(h);
    let known = pre.pool.dom();
    let used = |h: H256| !known.contains(h);
    assert(stated =~= used);
}

/// Announced blocks that are not known are asked for, as often and in the
/// order in which they were named, and nothing is said where all are known.
pub proof fn law_unknown_blocks_are_asked_for(
    pre: Node,
    hashes: Seq<H256>,
    post: Node,
    outcome: OutcomeView,
)
    requires
        crate::worker::handled(pre, MessageView::NewBlockHashes(hashes), post, outcome),
    ensures
        post == pre,
        outcome.broadcast is None,
        outcome.notes.len() == 0,
        ({
            let wanted = hashes.filter(|h: H256| !pre.chain.blocks.contains_key(h));
            outcome.reply == if wanted.len() > 0 {
                Some(MessageView::GetBlocks(wanted))
            } else {
                None
            }
        }),
{
    let stated = |h: H256| !pre.chain.blocks.contains_key(h);
    let known = pre.chain.blocks.dom();
    let used = |h: H256| !known.contains(h);
    assert(stated =~= used);
}

/// Whoever asks for transfers gets those that wait here, as often and in the
/// order in which they were asked for, and nothing where none waits.
pub proof fn law_transfers_are_handed_out(
    pre: Node,
    hashes: Seq<H256>,
    post: Node,
    outcome: OutcomeView,
)
    requires
        crate::worker::handled(pre, MessageView::GetTransactions(hashes), post, outcome),
    ensures
        post == pre,
        outcome.broadcast is None,
        outcome.notes.len() == 0,
        ({
            let found = hashes.filter(|h: H256| pre.pool.contains_key(h)).map_values(
                |h: H256| pre.pool[h],
            );
            outcome.reply == if found.len() > 0 {
                Some(MessageView::Transactions(found))
            } else {
                None
            }
        }),
{
    let stated = |h: H256| pre.pool.contains_key(h);
    let known = pre.pool.dom();
    let used = |h: H256| known.contains(h);
    assert(stated =~= used);
}

/// Whoever asks for blocks gets those that are known, as often and in the
/// order in which they were asked for, and nothing where none is known.
pub proof fn law_blocks_are_handed_out(
    pre: Node,
    hashes: Seq<H256>,
    post: Node,
    outcome: OutcomeView,
)
    requires
        crate::worker::handled(pre, MessageView::GetBlocks(hashes), post, outcome),
    ensures
        post == pre,
        outcome.broadcast is None,
        outcome.notes.len() == 0,
        ({
            let found = hashes.filter(|h: H256| pre.chain.blocks.contains_key(h)).map_values(
                |h: H256| pre.chain.blocks[h].0,
            );
            outcome.reply == if found.len() > 0 {
                Some(MessageView::Blocks(found))
            } else {
                None
            }
        }),
{
    let stated = |h: H256| pre.chain.blocks.contains_key(h);
    let known = pre.chain.blocks.dom();
    let used = |h: H256| known.contains(h);
    assert(stated =~= used);
    let chain = pre.chain;
    assert(crate::inventory::found_blocks(hashes, pre.chain) =~= hashes.filter(stated).map_values(
        |h: H256| pre.chain.blocks[h].0,
    ));
}

/// The pool after transfers came in: a transfer waits under its hash where it
/// may be paid and none after it with the same hash may; everything else waits
/// as before.
pub(crate) proof fn lemma_pool_after(
    pool: Map<H256, TransactionView>,
    ledger: LedgerView,
    txs: Seq<TransactionView>,
    h: H256,
)
    ensures
        ({
            let after = crate::intake::pooled(pool, ledger, txs);
            &&& forall|i: int|
                0 <= i < txs.len() && (#[trigger] txs[i]).hash == h && txs[i].verified
                    && ledger[txs[i].owner].1 >= txs[i].transaction.value
                    && ledger[txs[i].owner].0 + 1 == txs[i].transaction.nonce
                    ==> after.contains_key(h)
            &&& forall|i: int|
                0 <= i < txs.len() && (#[trigger] txs[i]).hash == h && txs[i].verified
                    && ledger[txs[i].owner].1 >= txs[i].transaction.value
                    && ledger[txs[i].owner].0 + 1 == txs[i].transaction.nonce && (forall|j: int|
                    i < j < txs.len() && (#[trigger] txs[j]).hash == h ==> {
                        ||| !txs[j].verified
                        ||| ledger[txs[j].owner].1 < txs[j].transaction.value
                        ||| ledger[txs[j].owner].0 + 1 != txs[j].transaction.nonce
                    }) ==> after[h] == txs[i]
            &&& (forall|i: int|
                0 <= i < txs.len() && (#[trigger] txs[i]).hash == h ==> {
                    ||| !txs[i].verified
                    ||| ledger[txs[i].owner].1 < txs[i].transaction.value
                    ||| ledger[txs[i].owner].0 + 1 != txs[i].transaction.nonce
                }) ==> after.contains_key(h) == pool.contains_key(h) && after[h] == pool[h]
        }),
    decreases txs.len(),
{
    if txs.len() > 0 {
        let first = txs.drop_last();
        let last = txs.last();
        let before = crate::intake::pooled(pool, ledger, first);
        let after = crate::intake::pooled(pool, ledger, txs);
        lemma_pool_after(pool, ledger, first, h);
        assert(txs[txs.len() - 1] == last);
        assert forall|i: int|
            0 <= i < txs.len() && (#[trigger] txs[i]).hash == h && txs[i].verified
                && ledger[txs[i].owner].1 >= txs[i].transaction.value && ledger[txs[i].owner].0 + 1
                == txs[i].transaction.nonce implies after.contains_key(h) by {
            if i < first.len() {
                assert(first[i] == txs[i]);
            }
        }
        assert forall|i: int|
            0 <= i < txs.len() && (#[trigger] txs[i]).hash == h && txs[i].verified
                && ledger[txs[i].owner].1 >= txs[i].transaction.value && ledger[txs[i].owner].0 + 1
                == txs[i].transaction.nonce && (forall|j: int|
                i < j < txs.len() && (#[trigger] txs[j]).hash == h ==> {
                    ||| !txs[j].verified
                    ||| ledger[txs[j].owner].1 < txs[j].transaction.value
                    ||| ledger[txs[j].owner].0 + 1 != txs[j].transaction.nonce
                }) implies after[h] == txs[i] by {
            if i < first.len() {
                assert(first[i] == txs[i]);
                assert forall|j: int|
                    i < j < first.len() && (#[trigger] first[j]).hash == h implies {
                    ||| !first[j].verified
                    ||| ledger[first[j].owner].1 < first[j].transaction.value
                    ||| ledger[first[j].owner].0 + 1 != first[j].transaction.nonce
                } by {
                    assert(first[j] == txs[j]);
                }
            }
        }
        if forall|i: int|
            0 <= i < txs.len() && (#[trigger] txs[i]).hash == h ==> {
                ||| !txs[i].verified
                ||| ledger[txs[i].owner].1 < txs[i].transaction.value
                ||| ledger[txs[i].owner].0 + 1 != txs[i].transaction.nonce
            } {
            assert forall|i: int| 0 <= i < first.len() && (#[trigger] first[i]).hash == h implies {
                ||| !first[i].verified
                ||| ledger[first[i].owner].1 < first[i].transaction.value
                ||| ledger[first[i].owner].0 + 1 != first[i].transaction.nonce
            } by {
                assert(first[i] == txs[i]);
            }
        }
    }
}

/// Transfers that come in are held against the ledger that the block in which
/// the longest branch ends left. Each with a valid signature, a balance behind
/// it that is at least its value, and the nonce that follows that of its
/// account waits afterwards and is announced, in their order. The others are
/// not announced, and of what waited before nothing is lost or replaced but by
/// such a transfer with the same hash. Nothing else changes.
pub proof fn law_payable_transfers_wait(
    pre: Node,
    txs: Seq<TransactionView>,
    post: Node,
    outcome: OutcomeView,
    h: H256,
)
    requires
        crate::worker::handled(pre, MessageView::Transactions(txs), post, outcome),
    ensures
        post.chain == pre.chain && post.orphans == pre.orphans && post.init == pre.init
            && post.states == pre.states,
        outcome.reply is None,
        ({
            let ledger = pre.states[pre.chain.tail];
            let announced = txs.filter(
                |tx: TransactionView|
                    tx.verified && ledger[tx.owner].1 >= tx.transaction.value
                        && ledger[tx.owner].0 + 1 == tx.transaction.nonce,
            ).map_values(|tx: TransactionView| tx.hash);
            &&& outcome.broadcast == if announced.len() > 0 {
                Some(MessageView::NewTransactionHashes(announced))
            } else {
                None
            }
            &&& forall|i: int|
                0 <= i < txs.len() && (#[trigger] txs[i]).verified && ledger[txs[i].owner].1
                    >= txs[i].transaction.value && ledger[txs[i].owner].0 + 1
                    == txs[i].transaction.nonce ==> {
                    &&& post.pool.contains_key(txs[i].hash)
                    &&& outcome.broadcast matches Some(MessageView::NewTransactionHashes(hashes))
                    &&& hashes.contains(txs[i].hash)
                }
            &&& forall|i: int|
                0 <= i < txs.len() && (#[trigger] txs[i]).hash == h && txs[i].verified
                    && ledger[txs[i].owner].1 >= txs[i].transaction.value
                    && ledger[txs[i].owner].0 + 1 == txs[i].transaction.nonce && (forall|j: int|
                    i < j < txs.len() && (#[trigger] txs[j]).hash == h ==> {
                        ||| !txs[j].verified
                        ||| ledger[txs[j].owner].1 < txs[j].transaction.value
                        ||| ledger[txs[j].owner].0 + 1 != txs[j].transaction.nonce
                    }) ==> post.pool[h] == txs[i]
            &&& (forall|i: int|
                0 <= i < txs.len() && (#[trigger] txs[i]).hash == h ==> {
                    ||| !txs[i].verified
                    ||| ledger[txs[i].owner].1 < txs[i].transaction.value
                    ||| ledger[txs[i].owner].0 + 1 != txs[i].transaction.nonce
                }) ==> {
                &&& post.pool.contains_key(h) == pre.pool.contains_key(h)
                &&& post.pool[h] == pre.pool[h]
                &&& outcome.broadcast matches Some(MessageView::NewTransactionHashes(hashes))
                    ==> !hashes.contains(h)
            }
        }),
{
    broadcast use vstd::seq_lib::group_filter_ensures;

    let ledger = pre.states[pre.chain.tail];
    let stated = |tx: TransactionView|
        tx.verified && ledger[tx.owner].1 >= tx.transaction.value && ledger[tx.owner].0 + 1
            == tx.transaction.nonce;
    let used = |tx: TransactionView| crate::intake::admits(ledger, tx);
    assert(stated =~= used);
    let payable = txs.filter(stated);
    let announced = payable.map_values(|tx: TransactionView| tx.hash);
    assert(crate::intake::admitted(ledger, txs) =~= announced);
    lemma_pool_after(pre.pool, ledger, txs, h);
    assert forall|i: int|
        0 <= i < txs.len() && (#[trigger] txs[i]).verified && ledger[txs[i].owner].1
            >= txs[i].transaction.value && ledger[txs[i].owner].0 + 1
            == txs[i].transaction.nonce implies post.pool.contains_key(txs[i].hash)
        && announced.contains(txs[i].hash) by {
        lemma_pool_after(pre.pool, ledger, txs, txs[i].hash);
        assert(stated(txs[i]));
        assert(payable.contains(txs[i]));
        let j = choose|j: int| 0 <= j < payable.len() && payable[j] == txs[i];
        assert(announced[j] == txs[i].hash);
    }
    if announced.contains(h) {
        let j = choose|j: int| 0 <= j < announced.len() && announced[j] == h;
        assert(stated(payable[j]));
        lemma_filter_from(txs, stated, j);
        let i = choose|i: int| 0 <= i < txs.len() && txs[i] == payable[j];
        assert(txs[i].hash == h);
    }
}

proof fn lemma_filter_from(
    all: Seq<TransactionView>,
    test: spec_fn(TransactionView) -> bool,
    i: int,
)
    requires
        0 <= i < all.filter(test).len(),
    ensures
        all.contains(all.filter(test)[i]),
    decreases all.len(),
{
    reveal(Seq::filter);
    if all.len() > 0 {
        let first = all.drop_last();
        if i < first.filter(test).len() {
            lemma_filter_from(first, test, i);
            let j = choose|j: int| 0 <= j < first.len() && first[j] == first.filter(test)[i];
            assert(all[j] == first[j]);
        } else {
            assert(all[all.len() - 1] == all.last());
        }
    }
}

proof fn lemma_intake_notes(ledger: LedgerView, a: Seq<TransactionView>, b: Seq<TransactionView>)
    ensures
        crate::intake::intake_notes(ledger, a + b) == crate::intake::intake_notes(ledger, a)
            + crate::intake::intake_notes(ledger, b),
    decreases b.len(),
{
    let whole = crate::intake::intake_notes(ledger, a + b);
    let parts = crate::intake::intake_notes(ledger, a) + crate::intake::intake_notes(ledger, b);
    if b.len() == 0 {
        assert(a + b =~= a);
    } else {
        lemma_intake_notes(ledger, a, b.drop_last());
        assert((a + b).drop_last() =~= a + b.drop_last());
        assert((a + b).last() == b.last());
    }
    assert(whole =~= parts);
}

/// What is noted of transfers that came in is noted of them one after the
/// other: it makes no difference whether they come in one message or in two.
/// Of no transfers nothing is noted.
pub proof fn law_transfer_notes_add_up(
    pre: Node,
    a: Seq<TransactionView>,
    b: Seq<TransactionView>,
    between: Node,
    first: OutcomeView,
    post: Node,
    second: OutcomeView,
    at_once: Node,
    whole: OutcomeView,
)
    requires
        crate::worker::handled(pre, MessageView::Transactions(a), between, first),
        crate::worker::handled(between, MessageView::Transactions(b), post, second),
        crate::worker::handled(pre, MessageView::Transactions(a + b), at_once, whole),
    ensures
        whole.notes == first.notes + second.notes,
        a.len() == 0 ==> first.notes.len() == 0,
{
    lemma_intake_notes(pre.states[pre.chain.tail], a, b);
}

/// What is noted of a transfer that came in: that its signature is not valid,
/// that it exceeds its owner's balance, that it has not the next nonce, as far
/// as that is so, and, if anything is, that it was turned away.
pub proof fn law_transfer_is_noted(
    pre: Node,
    tx: TransactionView,
    post: Node,
    outcome: OutcomeView,
)
    requires
        crate::worker::handled(pre, MessageView::Transactions(seq![tx]), post, outcome),
    ensures
        ({
            let account = pre.states[pre.chain.tail][tx.owner];
            let signature = if tx.verified {
                Seq::empty()
            } else {
                seq![Note::SignatureNotVerified]
            };
            let balance = if account.1 >= tx.transaction.value {
                Seq::empty()
            } else {
                seq![Note::NotEnoughBalance]
            };
            let nonce = if account.0 + 1 == tx.transaction.nonce {
                Seq::empty()
            } else {
                seq![Note::NonceMismatch]
            };
            let against = signature + balance + nonce;
            outcome.notes == if against.len() == 0 {
                Seq::empty()
            } else {
                against.push(Note::TransactionInvalid)
            }
        }),
{
    let ledger = pre.states[pre.chain.tail];
    reveal_with_fuel(crate::intake::intake_notes, 2);
    assert(seq![tx].drop_last() =~= Seq::empty());
    assert(outcome.notes == crate::intake::intake_notes(ledger, seq![tx]));
    let account = ledger[tx.owner];
    let signature = if tx.verified {
        Seq::empty()
    } else {
        seq![Note::SignatureNotVerified]
    };
    let balance = if account.1 >= tx.transaction.value {
        Seq::empty()
    } else {
        seq![Note::NotEnoughBalance]
    };
    let nonce = if account.0 + 1 == tx.transaction.nonce {
        Seq::empty()
    } else {
        seq![Note::NonceMismatch]
    };
    let against = signature + balance + nonce;
    assert(outcome.notes =~= if against.len() == 0 {
        Seq::empty()
    } else {
        against.push(Note::TransactionInvalid)
    });
}

/// Transfers are more than a node can handle just where the block in which the
/// longest branch ends left no ledger, or one of their owners has no account
/// there.
pub proof fn law_transfers_fail(pre: Node, txs: Seq<TransactionView>)
    ensures
        crate::worker::may_fail(pre, MessageView::Transactions(txs)) <==> {
            ||| !pre.states.contains_key(pre.chain.tail)
            ||| exists|i: int|
                0 <= i < txs.len() && !pre.states[pre.chain.tail].contains_key(
                    (#[trigger] txs[i]).owner,
                )
        },
{
    crate::laws::accounts::law_all_payable(pre.states[pre.chain.tail], txs);
}

} // verus!
