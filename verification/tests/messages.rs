use chain_worker::block::{Block, Content, Header};
use chain_worker::blockchain::Blockchain;
use chain_worker::connect::BlockStates;
use chain_worker::hash::{owner_address, H160, H256};
use chain_worker::intake::{on_blocks, on_transactions, take_blocks};
use chain_worker::inventory::{
    on_get_blocks, on_get_transactions, on_new_block_hashes, on_new_transaction_hashes,
};
use chain_worker::ledger::Ledger;
use chain_worker::mempool::TxMempool;
use chain_worker::message::{Message, Outcome};
use chain_worker::note::Note;
use chain_worker::orphan::OrphanBuffer;
use chain_worker::peers::{on_ack, on_new_peer, INITIAL_BALANCE};
use chain_worker::table::Table;
use chain_worker::transaction::{SignedTransaction, Transaction};
use chain_worker::worker::handle;

fn h(n: u8) -> H256 {
    let mut bytes = [0u8; 32];
    bytes[31] = n;
    H256 { bytes }
}

fn owner(n: u8) -> H160 {
    owner_address(&vec![n])
}

fn pay(from: u8, to: u8, value: u32, nonce: u32, hash: u8) -> SignedTransaction {
    SignedTransaction::new(
        Transaction { address: owner(to), value, nonce },
        vec![hash],
        vec![from],
        h(hash),
        true,
    )
}

fn block(hash: u8, parent: u8, content: Vec<SignedTransaction>) -> Block {
    Block {
        head: Header { parent_hash: h(parent), difficulty: h(200), rest: vec![hash] },
        content: Content { content },
        hash: h(hash),
    }
}

struct Fixture {
    chain: Blockchain,
    orphans: OrphanBuffer,
    pool: TxMempool,
    init: Ledger,
    states: BlockStates,
}

impl Fixture {
    fn bare() -> Fixture {
        Fixture {
            chain: Blockchain::new(block(0, 0, vec![]), h(200)),
            orphans: OrphanBuffer::new(),
            pool: TxMempool::new(),
            init: Table::new(),
            states: Table::new(),
        }
    }

    fn ready() -> Fixture {
        let mut node = Fixture::bare();
        node.send(Message::Ack(vec![owner(1), owner(2), owner(3)]));
        node
    }

    fn send(&mut self, msg: Message) -> Outcome {
        self.try_send(msg).expect("the message can be handled")
    }

    fn try_send(&mut self, msg: Message) -> Option<Outcome> {
        handle(
            msg,
            &mut self.chain,
            &mut self.orphans,
            &mut self.pool,
            &mut self.init,
            &mut self.states,
        )
    }
}

fn is_silent(outcome: &Outcome) -> bool {
    outcome.reply.is_none() && outcome.broadcast.is_none() && outcome.notes.is_empty()
}

fn tx_hashes(message: &Option<Message>) -> Vec<H256> {
    match message {
        Some(Message::NewTransactionHashes(hashes)) => hashes.clone(),
        Some(Message::GetTransactions(hashes)) => hashes.clone(),
        Some(Message::Transactions(txs)) => txs.iter().map(|tx| tx.hash()).collect(),
        None => vec![],
        _ => panic!("another message"),
    }
}

fn block_hashes(message: &Option<Message>) -> Vec<H256> {
    match message {
        Some(Message::NewBlockHashes(hashes)) => hashes.clone(),
        Some(Message::GetBlocks(hashes)) => hashes.clone(),
        Some(Message::Blocks(blocks)) => blocks.iter().map(|b| b.hash).collect(),
        None => vec![],
        _ => panic!("another message"),
    }
}

fn acked(message: &Option<Message>) -> Vec<H160> {
    match message {
        Some(Message::Ack(peers)) => peers.clone(),
        None => vec![],
        _ => panic!("another message"),
    }
}

#[test]
fn ping_and_pong_are_silent() {
    let mut node = Fixture::ready();
    assert!(is_silent(&node.send(Message::Ping("7".to_string()))));
    assert!(is_silent(&node.send(Message::Pong("7".to_string()))));
}

#[test]
fn new_peer_gets_an_account_and_all_are_told() {
    let mut init: Ledger = Table::new();
    init.insert(owner(2), (3, 5));
    let outcome = on_new_peer(owner(1), &mut init);
    assert_eq!(init.get(&owner(1)), Some(&(0, 100)));
    assert_eq!(init.get(&owner(2)), Some(&(3, 5)));
    let mut peers = acked(&outcome.broadcast);
    peers.sort_by_key(|a| a.bytes);
    let mut expected = vec![owner(1), owner(2)];
    expected.sort_by_key(|a| a.bytes);
    assert_eq!(peers, expected);
    assert!(outcome.reply.is_none());
    let again = on_new_peer(owner(2), &mut init);
    assert_eq!(acked(&again.broadcast).len(), 2);
    assert_eq!(init.get(&owner(2)), Some(&(3, 5)));
}

#[test]
fn ack_enters_newcomers_once_and_passes_them_on() {
    let chain = Blockchain::new(block(0, 0, vec![]), h(200));
    let mut init: Ledger = Table::new();
    let mut states: BlockStates = Table::new();
    init.insert(owner(2), (3, 5));
    let peers = vec![owner(1), owner(2), owner(1), owner(3)];
    let outcome = on_ack(peers.clone(), &chain, &mut init, &mut states);
    assert_eq!(acked(&outcome.broadcast), vec![owner(1), owner(3)]);
    assert_eq!(init.len(), 3);
    assert_eq!(init.get(&owner(3)), Some(&(0, INITIAL_BALANCE)));
    assert_eq!(states.get(&h(0)).unwrap().get(&owner(2)), Some(&(3, 5)));
    assert_eq!(states.get(&h(0)).unwrap().len(), 3);
    let again = on_ack(peers, &chain, &mut init, &mut states);
    assert!(is_silent(&again));
    assert_eq!(init.len(), 3);
}

#[test]
fn acks_in_two_messages_add_up() {
    let mut one = Fixture::bare();
    let mut two = Fixture::bare();
    one.send(Message::Ack(vec![owner(1), owner(2), owner(3)]));
    two.send(Message::Ack(vec![owner(1)]));
    two.send(Message::Ack(vec![owner(2), owner(3)]));
    for n in 1..4 {
        assert_eq!(one.init.get(&owner(n)), two.init.get(&owner(n)));
        assert_eq!(
            one.states.get(&h(0)).unwrap().get(&owner(n)),
            two.states.get(&h(0)).unwrap().get(&owner(n))
        );
    }
}

#[test]
fn unknown_transfers_are_asked_for() {
    let mut pool = TxMempool::new();
    pool.push_tx(&pay(1, 2, 1, 1, 50));
    let outcome = on_new_transaction_hashes(vec![h(51), h(50), h(52), h(51)], &pool);
    assert!(matches!(outcome.reply, Some(Message::GetTransactions(_))));
    assert_eq!(tx_hashes(&outcome.reply), vec![h(51), h(52), h(51)]);
    assert!(outcome.broadcast.is_none());
    assert!(is_silent(&on_new_transaction_hashes(vec![h(50)], &pool)));
    assert!(is_silent(&on_new_transaction_hashes(vec![], &pool)));
}

#[test]
fn waiting_transfers_are_handed_out() {
    let mut pool = TxMempool::new();
    pool.push_tx(&pay(1, 2, 7, 1, 50));
    pool.push_tx(&pay(2, 1, 8, 1, 51));
    let outcome = on_get_transactions(vec![h(51), h(60), h(50)], &pool);
    match outcome.reply {
        Some(Message::Transactions(txs)) => {
            assert_eq!(txs.len(), 2);
            assert_eq!(txs[0].transaction().value, 8);
            assert_eq!(txs[1].transaction().value, 7);
            assert_eq!(txs[1].signature(), &vec![50]);
        }
        _ => panic!("transfers were expected"),
    }
    assert!(is_silent(&on_get_transactions(vec![h(60)], &pool)));
}

#[test]
fn unknown_blocks_are_asked_for_and_known_ones_handed_out() {
    let mut chain = Blockchain::new(block(0, 0, vec![]), h(200));
    chain.insert(&block(1, 0, vec![pay(1, 2, 1, 1, 50)]));
    let outcome = on_new_block_hashes(vec![h(1), h(2), h(0), h(3)], &chain);
    assert!(matches!(outcome.reply, Some(Message::GetBlocks(_))));
    assert_eq!(block_hashes(&outcome.reply), vec![h(2), h(3)]);
    assert!(is_silent(&on_new_block_hashes(vec![h(1), h(0)], &chain)));
    let outcome = on_get_blocks(vec![h(5), h(1), h(0), h(1)], &chain);
    assert!(matches!(outcome.reply, Some(Message::Blocks(_))));
    assert_eq!(block_hashes(&outcome.reply), vec![h(1), h(0), h(1)]);
    assert!(is_silent(&on_get_blocks(vec![h(5)], &chain)));
}

#[test]
fn payable_transfers_wait_and_are_announced() {
    let mut node = Fixture::ready();
    let unsigned = SignedTransaction::new(
        Transaction { address: owner(2), value: 1, nonce: 1 },
        vec![],
        vec![1],
        h(52),
        false,
    );
    let outcome = node.send(Message::Transactions(vec![
        pay(1, 2, 5, 1, 50),
        pay(1, 2, 101, 1, 51),
        unsigned,
        pay(2, 1, 5, 2, 53),
        pay(3, 1, 100, 1, 54),
    ]));
    assert!(matches!(outcome.broadcast, Some(Message::NewTransactionHashes(_))));
    assert_eq!(tx_hashes(&outcome.broadcast), vec![h(50), h(54)]);
    assert_eq!(
        outcome.notes,
        vec![
            Note::NotEnoughBalance,
            Note::TransactionInvalid,
            Note::SignatureNotVerified,
            Note::TransactionInvalid,
            Note::NonceMismatch,
            Note::TransactionInvalid,
        ]
    );
    assert!(node.pool.contains(&h(50)));
    assert!(!node.pool.contains(&h(51)));
    assert!(!node.pool.contains(&h(53)));
}

#[test]
fn admitted_transfer_can_be_had() {
    let mut node = Fixture::ready();
    node.send(Message::Transactions(vec![pay(1, 2, 5, 1, 50)]));
    let outcome = node.send(Message::GetTransactions(vec![h(50)]));
    assert_eq!(tx_hashes(&outcome.reply), vec![h(50)]);
    assert!(is_silent(&node.send(Message::NewTransactionHashes(vec![h(50)]))));
}

#[test]
fn transfers_that_are_not_checkable_fail() {
    let mut node = Fixture::ready();
    assert!(node.try_send(Message::Transactions(vec![pay(9, 1, 1, 1, 50)])).is_none());
    let mut pool = TxMempool::new();
    let bare = Fixture::bare();
    assert!(on_transactions(vec![], &bare.chain, &bare.states, &mut pool).is_none());
}

#[test]
fn transfer_with_nonce_zero_is_refused() {
    let mut node = Fixture::ready();
    let outcome = node.send(Message::Transactions(vec![pay(1, 2, 1, 0, 50), pay(2, 1, 1, 1, 51)]));
    assert_eq!(outcome.notes, vec![Note::NonceMismatch, Note::TransactionInvalid]);
    assert_eq!(tx_hashes(&outcome.broadcast), vec![h(51)]);
    assert!(!node.pool.contains(&h(50)));
    assert!(node.pool.contains(&h(51)));
}

#[test]
fn block_with_nonce_zero_is_refused() {
    let mut node = Fixture::ready();
    node.send(Message::Transactions(vec![pay(2, 1, 5, 1, 51)]));
    let bad = block(1, 0, vec![pay(2, 1, 5, 1, 51), pay(1, 2, 1, 0, 50)]);
    let outcome = node.send(Message::Blocks(vec![bad]));
    assert_eq!(outcome.notes, vec![Note::NonceMismatch, Note::BlockInvalid]);
    assert!(outcome.reply.is_none());
    assert!(!node.chain.contains(&h(1)));
    assert!(!node.states.contains_key(&h(1)));
    assert!(node.pool.contains(&h(51)));
    assert_eq!(node.states.get(&h(0)).unwrap().get(&owner(2)), Some(&(0, 100)));
}

#[test]
fn good_blocks_join_whatever_else_comes() {
    let mut node = Fixture::ready();
    let outcome = node.send(Message::Blocks(vec![
        block(9, 8, vec![]),
        block(1, 0, vec![pay(1, 2, 500, 1, 50)]),
        block(2, 0, vec![pay(1, 2, 5, 1, 51)]),
        block(201, 0, vec![]),
        block(3, 0, vec![pay(1, 2, 6, 1, 52)]),
    ]));
    assert_eq!(block_hashes(&outcome.broadcast), vec![h(9), h(1), h(2), h(3)]);
    for (n, balance) in [(2, 105), (3, 106)] {
        assert!(node.chain.contains(&h(n)));
        assert_eq!(node.states.get(&h(n)).unwrap().get(&owner(2)), Some(&(0, balance)));
    }
    assert!(!node.chain.contains(&h(1)));
}

#[test]
fn every_orphan_of_a_message_waits_and_only_missing_parents_are_asked_for() {
    let mut node = Fixture::ready();
    node.send(Message::Blocks(vec![block(11, 10, vec![])]));
    let outcome = node.send(Message::Blocks(vec![
        block(21, 20, vec![]),
        block(2, 1, vec![]),
        block(12, 10, vec![]),
        block(1, 0, vec![]),
    ]));
    let mut asked = block_hashes(&outcome.reply);
    asked.sort_by_key(|k| k.bytes);
    assert_eq!(asked, vec![h(10), h(20)]);
    assert!(node.chain.contains(&h(2)));
    let outcome = node.send(Message::Blocks(vec![block(10, 0, vec![]), block(20, 0, vec![])]));
    assert!(outcome.reply.is_none());
    for n in [11, 12, 21] {
        assert!(node.chain.contains(&h(n)));
    }
}

#[test]
fn block_on_a_known_parent_joins_and_is_announced() {
    let mut node = Fixture::ready();
    node.send(Message::Transactions(vec![pay(1, 2, 5, 1, 50)]));
    let outcome = node.send(Message::Blocks(vec![block(1, 0, vec![pay(1, 2, 5, 1, 50)])]));
    assert!(matches!(outcome.broadcast, Some(Message::NewBlockHashes(_))));
    assert_eq!(block_hashes(&outcome.broadcast), vec![h(1)]);
    assert!(outcome.reply.is_none());
    assert_eq!(outcome.notes, vec![Note::BlockConnected { tail: h(1), height: 1 }]);
    assert_eq!(node.chain.tail(), h(1));
    assert!(!node.pool.contains(&h(50)));
    assert_eq!(node.states.get(&h(1)).unwrap().get(&owner(2)), Some(&(0, 105)));
    let had = node.send(Message::GetBlocks(vec![h(1)]));
    assert_eq!(block_hashes(&had.reply), vec![h(1)]);
    assert!(is_silent(&node.send(Message::NewBlockHashes(vec![h(1)]))));
    let refused = node.send(Message::Transactions(vec![pay(1, 2, 5, 1, 50)]));
    assert_eq!(refused.notes, vec![Note::NonceMismatch, Note::TransactionInvalid]);
}

#[test]
fn running_balance_pays_in_an_incoming_block() {
    let mut node = Fixture::ready();
    node.send(Message::Blocks(vec![block(
        1,
        0,
        vec![pay(1, 2, 60, 1, 50), pay(1, 3, 30, 1, 51), pay(2, 3, 100, 1, 52)],
    )]));
    let ledger = node.states.get(&h(1)).unwrap();
    assert_eq!(ledger.get(&owner(1)), Some(&(1, 10)));
    assert_eq!(ledger.get(&owner(2)), Some(&(1, 60)));
    assert_eq!(ledger.get(&owner(3)), Some(&(0, 230)));
}

#[test]
fn incoming_block_that_overspends_in_sum_fails() {
    let mut node = Fixture::ready();
    let spent = block(1, 0, vec![pay(1, 2, 60, 1, 50), pay(1, 3, 60, 1, 51)]);
    assert!(node.try_send(Message::Blocks(vec![spent])).is_none());
}

#[test]
fn block_without_work_is_passed_over() {
    let mut node = Fixture::ready();
    let mut other = block(1, 0, vec![]);
    other.head.difficulty = h(199);
    let outcome = node.send(Message::Blocks(vec![block(201, 0, vec![]), other]));
    assert!(is_silent(&outcome));
    assert!(!node.chain.contains(&h(201)));
    assert!(!node.chain.contains(&h(1)));
    let edge = node.send(Message::Blocks(vec![block(200, 0, vec![])]));
    assert_eq!(block_hashes(&edge.broadcast), vec![h(200)]);
}

#[test]
fn known_block_is_passed_over() {
    let mut node = Fixture::ready();
    node.send(Message::Blocks(vec![block(1, 0, vec![])]));
    assert!(is_silent(&node.send(Message::Blocks(vec![block(1, 0, vec![]), block(0, 0, vec![])]))));
    assert_eq!(node.chain.height(), 1);
}

#[test]
fn refused_block_is_announced_all_the_same() {
    let mut node = Fixture::ready();
    let outcome = node.send(Message::Blocks(vec![block(1, 0, vec![pay(1, 2, 500, 1, 50)])]));
    assert_eq!(outcome.notes, vec![Note::NotEnoughBalance, Note::BlockInvalid]);
    assert_eq!(block_hashes(&outcome.broadcast), vec![h(1)]);
    assert!(!node.chain.contains(&h(1)));
    assert!(node.orphans.missing().is_empty());
}

#[test]
fn orphan_waits_and_its_parent_is_asked_for() {
    let mut node = Fixture::ready();
    let outcome = node.send(Message::Blocks(vec![block(2, 1, vec![])]));
    assert_eq!(outcome.notes, vec![Note::OrphanFound]);
    assert_eq!(block_hashes(&outcome.reply), vec![h(1)]);
    assert!(matches!(outcome.reply, Some(Message::GetBlocks(_))));
    assert_eq!(block_hashes(&outcome.broadcast), vec![h(2)]);
    assert!(!node.chain.contains(&h(2)));
    let outcome = node.send(Message::Blocks(vec![block(1, 0, vec![])]));
    assert!(outcome.reply.is_none());
    assert_eq!(
        outcome.notes,
        vec![
            Note::BlockConnected { tail: h(1), height: 1 },
            Note::BlockConnected { tail: h(2), height: 2 },
        ]
    );
    assert_eq!(node.chain.all_blocks_in_longest_chain(), vec![h(0), h(1), h(2)]);
    assert!(node.orphans.missing().is_empty());
}

#[test]
fn parent_in_the_same_message_counts_as_unknown_at_first() {
    let mut node = Fixture::ready();
    let outcome = node.send(Message::Blocks(vec![block(1, 0, vec![]), block(2, 1, vec![])]));
    assert_eq!(
        outcome.notes,
        vec![
            Note::BlockConnected { tail: h(1), height: 1 },
            Note::OrphanFound,
            Note::BlockConnected { tail: h(2), height: 2 },
        ]
    );
    assert!(outcome.reply.is_none());
    assert_eq!(block_hashes(&outcome.broadcast), vec![h(1), h(2)]);
}

#[test]
fn blocks_are_taken_in_before_the_sweep() {
    let mut node = Fixture::ready();
    let mut notes = Vec::new();
    let announced = take_blocks(
        &vec![block(1, 0, vec![]), block(2, 1, vec![])],
        &mut node.chain,
        &mut node.orphans,
        &mut node.states,
        &mut node.pool,
        &mut notes,
    );
    assert_eq!(announced, Some(vec![h(1), h(2)]));
    assert_eq!(node.orphans.missing(), vec![h(1)]);
    assert!(!node.chain.contains(&h(2)));
}

#[test]
fn blocks_that_cannot_be_judged_fail() {
    let mut node = Fixture::ready();
    let stranger = block(1, 0, vec![pay(9, 2, 1, 1, 50)]);
    assert!(node.try_send(Message::Blocks(vec![stranger])).is_none());
    let mut node = Fixture::ready();
    let nowhere = block(1, 0, vec![pay(1, 9, 1, 1, 50)]);
    assert!(node.try_send(Message::Blocks(vec![nowhere])).is_none());
    let mut bare = Fixture::bare();
    assert!(on_blocks(
        vec![block(1, 0, vec![])],
        &mut bare.chain,
        &mut bare.orphans,
        &mut bare.states,
        &mut bare.pool,
    )
    .is_none());
}

#[test]
fn announcement_and_request_fit() {
    let mut holder = Fixture::ready();
    let mut asker = Fixture::ready();
    let announced = holder.send(Message::Blocks(vec![block(1, 0, vec![]), block(2, 0, vec![])]));
    asker.send(Message::Blocks(vec![block(2, 0, vec![])]));
    let request = asker.send(announced.broadcast.unwrap());
    assert_eq!(block_hashes(&request.reply), vec![h(1)]);
    let answer = holder.send(request.reply.unwrap());
    assert_eq!(block_hashes(&answer.reply), vec![h(1)]);
    asker.send(answer.reply.unwrap());
    assert!(asker.chain.contains(&h(1)));
}

#[test]
fn nothing_known_is_forgotten() {
    let mut node = Fixture::ready();
    node.send(Message::Blocks(vec![block(1, 0, vec![])]));
    node.send(Message::NewPeer(owner(7)));
    node.send(Message::Blocks(vec![block(2, 0, vec![]), block(3, 1, vec![])]));
    for n in 0..4 {
        assert!(node.chain.contains(&h(n)));
        assert!(node.states.contains_key(&h(n)));
    }
    assert_eq!(node.init.get(&owner(1)), Some(&(0, 100)));
    assert_eq!(node.chain.height(), 2);
}

#[test]
fn announced_transfers_are_answered() {
    let mut holder = Fixture::ready();
    let mut asker = Fixture::ready();
    asker.send(Message::Transactions(vec![pay(2, 1, 5, 1, 51)]));
    let announced = holder.send(Message::Transactions(vec![
        pay(1, 2, 5, 1, 50),
        pay(2, 1, 5, 1, 51),
        pay(3, 1, 5, 1, 52),
    ]));
    let request = asker.send(announced.broadcast.unwrap());
    assert_eq!(tx_hashes(&request.reply), vec![h(50), h(52)]);
    let answer = holder.send(request.reply.unwrap());
    assert_eq!(tx_hashes(&answer.reply), vec![h(50), h(52)]);
    asker.send(answer.reply.unwrap());
    for n in 50..53 {
        assert!(asker.pool.contains(&h(n)));
    }
}

#[test]
fn same_key_means_same_owner() {
    assert_eq!(pay(1, 2, 5, 1, 50).owner(), pay(1, 3, 9, 4, 51).owner());
    assert_ne!(pay(1, 2, 5, 1, 50).owner(), pay(2, 2, 5, 1, 50).owner());
}
