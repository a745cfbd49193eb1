//! How nodes learn of each other before the first block.

use vstd::prelude::*;
use crate::blockchain::Blockchain;
use crate::connect::BlockStates;
use crate::hash::H160;
use crate::ledger::{Ledger, LedgerView};
use crate::message::{Message, Outcome};

verus! {

/// The balance with which every account starts.
pub const INITIAL_BALANCE: u32 = 100;

/// The ledger in which the given peers have accounts too. An account that is
/// there already stays as it is.
pub open spec fn introduced(ledger: LedgerView, peers: Seq<H160>) -> LedgerView {
    Map::new(
        |a: H160| ledger.contains_key(a) || peers.contains(a),
        |a: H160|
            if ledger.contains_key(a) {
                ledger[a]
            } else {
                (0u32, INITIAL_BALANCE)
            },
    )
}

/// The given peers that have no account yet, each where it is first named.
pub open spec fn newcomers(ledger: LedgerView, peers: Seq<H160>) -> Seq<H160>
    decreases peers.len(),
{
    if peers.len() == 0 {
        Seq::empty()
    } else {
        let before = newcomers(ledger, peers.drop_last());
        if ledger.contains_key(peers.last()) || before.contains(peers.last()) {
            before
        } else {
            before.push(peers.last())
        }
    }
}

/// The newcomers are the named peers without an account, once each.
pub proof fn lemma_newcomers(ledger: LedgerView, peers: Seq<H160>)
    ensures
        newcomers(ledger, peers).no_duplicates(),
        forall|a: H160| #[trigger]
            newcomers(ledger, peers).contains(a) <==> peers.contains(a) && !ledger.contains_key(a),
    decreases peers.len(),
{
    if peers.len() > 0 {
        let first = peers.drop_last();
        let last = peers.last();
        let before = newcomers(ledger, first);
        lemma_newcomers(ledger, first);
        assert(peers =~= first.push(last));
        assert forall|a: H160| peers.contains(a) <==> (first.contains(a) || a == last) by {
            if first.contains(a) {
                let i = choose|i: int| 0 <= i < first.len() && first[i] == a;
                assert(peers[i] == a);
            }
            if a == last {
                assert(peers[peers.len() - 1] == a);
            }
        }
        assert forall|a: H160| before.push(last).contains(a) <==> (before.contains(a) || a
            == last) by {
            if before.contains(a) {
                let i = choose|i: int| 0 <= i < before.len() && before[i] == a;
                assert(before.push(last)[i] == a);
            }
            if a == last {
                assert(before.push(last)[before.len() as int] == a);
            }
        }
        assert forall|a: H160| #[trigger]
            newcomers(ledger, peers).contains(a) <==> peers.contains(a) && !ledger.contains_key(
                a,
            ) by {
            assert(before.contains(a) <==> first.contains(a) && !ledger.contains_key(a));
            assert(before.contains(last) <==> first.contains(last) && !ledger.contains_key(last));
            assert(peers.contains(a) <==> (first.contains(a) || a == last));
            assert(before.push(last).contains(a) <==> (before.contains(a) || a == last));
        }
    }
}

/// A node came up: it gets an account, and everyone is told of all accounts.
pub fn on_new_peer(peer: H160, init_state: &mut Ledger) -> (outcome: Outcome)
    ensures
        final(init_state)@ == introduced(old(init_state)@, seq![peer]),
        exists|peers: Seq<H160>|
            crate::table::is_walk(peers, final(init_state)@.dom()) && outcome.deep_view()
                == #[trigger] crate::message::broadcasting(crate::message::ack(peers)),
{
    assert(seq![peer].contains(peer)) by {
        assert(seq![peer][0] == peer);
    }
    if !init_state.contains_key(&peer) {
        init_state.insert(peer, (0, INITIAL_BALANCE));
    }
    assert(init_state@ =~= introduced(old(init_state)@, seq![peer]));
    let peers: Vec<H160> = init_state.keys();
    let ghost list = peers@;
    assert(list.to_set().contains(peer));
    let outcome = Outcome { reply: None, broadcast: Some(Message::Ack(peers)), notes: Vec::new() };
    assert(outcome.deep_view() == crate::message::broadcasting(crate::message::ack(list)));
    outcome
}

/// Accounts were made known: the new ones are entered and passed on, and the
/// block in which the chain ends leaves the ledger that results.
pub fn on_ack(
    peers: Vec<H160>,
    chain: &Blockchain,
    init_state: &mut Ledger,
    states: &mut BlockStates,
) -> (outcome: Outcome)
    ensures
        final(init_state)@ == introduced(old(init_state)@, peers@),
        final(states)@ == old(states)@.insert(chain@.tail, final(init_state)@),
        outcome.deep_view() == crate::message::broadcasting(
            crate::message::ack(newcomers(old(init_state)@, peers@)),
        ),
{
    let ghost known = init_state@;
    let mut fresh: Vec<H160> = Vec::new();
    let mut i: usize = 0;
    assert(init_state@ =~= introduced(known, peers@.take(0)));
    while i < peers.len()
        invariant
            i <= peers@.len(),
            init_state@ == introduced(known, peers@.take(i as int)),
            fresh@ == newcomers(known, peers@.take(i as int)),
        decreases peers@.len() - i,
    {
        let peer: H160 = peers[i];
        let ghost done = peers@.take(i as int);
        let ghost next = peers@.take(i + 1);
        proof {
            assert(next =~= done.push(peer));
            assert(next.drop_last() =~= done);
            lemma_newcomers(known, done);
            assert forall|a: H160| next.contains(a) <==> (done.contains(a) || a == peer) by {
                if done.contains(a) {
                    let j = choose|j: int| 0 <= j < done.len() && done[j] == a;
                    assert(next[j] == a);
                }
                if a == peer {
                    assert(next[i as int] == a);
                }
            }
        }
        if !init_state.contains_key(&peer) {
            init_state.insert(peer, (0, INITIAL_BALANCE));
            fresh.push(peer);
        }
        assert(init_state@ =~= introduced(known, next));
        i = i + 1;
    }
    assert(peers@.take(peers@.len() as int) =~= peers@);
    states.insert(chain.tail(), init_state.clone());
    let broadcast: Option<Message> = if fresh.len() > 0 {
        Some(Message::Ack(fresh))
    } else {
        None
    };
    Outcome { reply: None, broadcast, notes: Vec::new() }
}

} // verus!
