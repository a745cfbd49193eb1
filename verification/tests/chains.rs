use chain_worker::block::{Block, Content, Header};
use chain_worker::blockchain::Blockchain;
use chain_worker::connect::{connect_block, BlockStates};
use chain_worker::hash::{owner_address, H160, H256};
use chain_worker::ledger::{Basis, Ledger};
use chain_worker::mempool::TxMempool;
use chain_worker::note::Note;
use chain_worker::orphan::OrphanBuffer;
use chain_worker::table::Table;
use chain_worker::transaction::{SignedTransaction, Transaction};

fn h(n: u8) -> H256 {
    let mut bytes = [0u8; 32];
    bytes[31] = n;
    H256 { bytes }
}

fn owner(n: u8) -> H160 {
    owner_address(&vec![n])
}

fn pay(from: u8, to: u8, value: u32, nonce: u32, hash: u8) -> SignedTransaction {
    SignedTransaction::new(
        Transaction { address: owner(to), value, nonce },
        vec![],
        vec![from],
        h(hash),
        true,
    )
}

fn block(hash: u8, parent: u8, content: Vec<SignedTransaction>) -> Block {
    Block {
        head: Header { parent_hash: h(parent), difficulty: h(200), rest: vec![hash, parent] },
        content: Content { content },
        hash: h(hash),
    }
}

fn genesis_only() -> (Blockchain, BlockStates, TxMempool) {
    let chain = Blockchain::new(block(0, 0, vec![]), h(200));
    let mut ledger: Ledger = Table::new();
    ledger.insert(owner(1), (0, 100));
    ledger.insert(owner(2), (0, 100));
    let mut states: BlockStates = Table::new();
    states.insert(h(0), ledger);
    (chain, states, TxMempool::new())
}

#[test]
fn tail_follows_the_longest_branch() {
    let (mut chain, _, _) = genesis_only();
    assert_eq!(chain.tail(), h(0));
    assert_eq!(chain.height(), 0);
    assert_eq!(chain.all_blocks_in_longest_chain(), vec![h(0)]);
    chain.insert(&block(1, 0, vec![]));
    chain.insert(&block(2, 0, vec![]));
    assert_eq!(chain.tail(), h(1));
    chain.insert(&block(3, 2, vec![]));
    assert_eq!(chain.tail(), h(3));
    assert_eq!(chain.height(), 2);
    assert_eq!(chain.all_blocks_in_longest_chain(), vec![h(0), h(2), h(3)]);
    assert_eq!(chain.branch(&h(1)), vec![h(0), h(1)]);
    assert_eq!(chain.diff(), h(200));
}

#[test]
fn known_hash_is_not_replaced() {
    let (mut chain, _, _) = genesis_only();
    chain.insert(&block(1, 0, vec![]));
    chain.insert(&block(1, 1, vec![]));
    assert_eq!(chain.height(), 1);
    assert_eq!(chain.get(&h(1)).unwrap().head.parent_hash, h(0));
    assert_eq!(chain.get(&h(1)).unwrap().head.rest, vec![1, 0]);
    assert!(chain.get(&h(9)).is_none());
    assert!(chain.contains(&h(1)));
}

#[test]
fn pool_holds_transfers_by_hash() {
    let mut pool = TxMempool::new();
    pool.push_tx(&pay(1, 2, 5, 1, 50));
    pool.push_tx(&pay(2, 1, 6, 1, 51));
    assert_eq!(pool.get(&h(50)).unwrap().transaction().value, 5);
    assert!(pool.contains(&h(51)));
    pool.pop_tx(&pay(1, 2, 5, 1, 50));
    assert!(!pool.contains(&h(50)));
    pool.pop_all(&vec![pay(2, 1, 6, 1, 51), pay(2, 1, 6, 1, 52)]);
    assert!(pool.get(&h(51)).is_none());
}

#[test]
fn accepted_block_joins_with_its_ledger() {
    let (mut chain, mut states, mut pool) = genesis_only();
    let mut notes = Vec::new();
    pool.push_tx(&pay(1, 2, 30, 1, 50));
    pool.push_tx(&pay(2, 1, 1, 1, 51));
    let b = block(1, 0, vec![pay(1, 2, 30, 1, 50)]);
    assert_eq!(
        connect_block(&b, Basis::Running, &mut chain, &mut states, &mut pool, &mut notes),
        Some(true)
    );
    assert_eq!(notes, vec![Note::BlockConnected { tail: h(1), height: 1 }]);
    assert_eq!(states.get(&h(1)).unwrap().get(&owner(1)), Some(&(1, 70)));
    assert_eq!(states.get(&h(1)).unwrap().get(&owner(2)), Some(&(0, 130)));
    assert_eq!(states.get(&h(0)).unwrap().get(&owner(1)), Some(&(0, 100)));
    assert!(!pool.contains(&h(50)));
    assert!(pool.contains(&h(51)));
}

#[test]
fn replayed_transfer_spoils_the_child() {
    let (mut chain, mut states, mut pool) = genesis_only();
    let mut notes = Vec::new();
    let b = block(1, 0, vec![pay(1, 2, 30, 1, 50)]);
    let child = block(2, 1, vec![pay(1, 2, 30, 1, 50)]);
    connect_block(&b, Basis::Parent, &mut chain, &mut states, &mut pool, &mut notes);
    notes.clear();
    assert_eq!(
        connect_block(&child, Basis::Parent, &mut chain, &mut states, &mut pool, &mut notes),
        Some(false)
    );
    assert_eq!(notes, vec![Note::NonceMismatch]);
    assert!(!chain.contains(&h(2)));
    assert!(!states.contains_key(&h(2)));
}

#[test]
fn block_without_ledger_below_cannot_be_judged() {
    let (mut chain, _, mut pool) = genesis_only();
    let mut states: BlockStates = Table::new();
    let mut notes = Vec::new();
    let b = block(1, 0, vec![]);
    assert_eq!(
        connect_block(&b, Basis::Running, &mut chain, &mut states, &mut pool, &mut notes),
        None
    );
}

#[test]
fn tail_without_ledger_stops_the_worker() {
    let (mut chain, mut states, mut pool) = genesis_only();
    let mut notes = Vec::new();
    chain.insert(&block(1, 0, vec![]));
    chain.insert(&block(2, 1, vec![]));
    assert_eq!(
        connect_block(
            &block(3, 0, vec![]),
            Basis::Running,
            &mut chain,
            &mut states,
            &mut pool,
            &mut notes
        ),
        None
    );
}

#[test]
fn orphans_wait_in_the_order_of_arrival() {
    let mut buffer = OrphanBuffer::new();
    assert!(buffer.missing().is_empty());
    buffer.addOrphan(&block(5, 4, vec![]));
    buffer.addOrphan(&block(6, 4, vec![]));
    buffer.addOrphan(&block(8, 7, vec![]));
    let mut missing = buffer.missing();
    missing.sort_by_key(|k| k.bytes);
    assert_eq!(missing, vec![h(4), h(7)]);
    let copy = buffer.clone();
    assert_eq!(copy.missing().len(), 2);
}

#[test]
fn children_of_a_known_block_are_found() {
    let (mut chain, mut states, mut pool) = genesis_only();
    let mut buffer = OrphanBuffer::new();
    buffer.addOrphan(&block(1, 0, vec![pay(1, 2, 10, 1, 50)]));
    buffer.addOrphan(&block(2, 0, vec![pay(1, 2, 500, 1, 51)]));
    buffer.addOrphan(&block(9, 8, vec![]));
    pool.push_tx(&pay(1, 2, 10, 1, 50));
    let notes = buffer.findChild(&mut chain, &mut states, &mut pool);
    assert_eq!(
        notes,
        vec![Note::BlockConnected { tail: h(1), height: 1 }, Note::NotEnoughBalance]
    );
    assert!(chain.contains(&h(1)));
    assert!(!chain.contains(&h(2)));
    assert_eq!(buffer.missing(), vec![h(8)]);
    assert_eq!(states.get(&h(1)).unwrap().get(&owner(2)), Some(&(0, 110)));
    assert!(!pool.contains(&h(50)));
    assert!(buffer.findChild(&mut chain, &mut states, &mut pool).is_empty());
    assert_eq!(buffer.missing(), vec![h(8)]);
}

#[test]
fn waiting_block_pays_out_of_the_parent_ledger() {
    let (mut chain, mut states, mut pool) = genesis_only();
    let mut buffer = OrphanBuffer::new();
    buffer.addOrphan(&block(1, 0, vec![pay(1, 2, 80, 1, 50), pay(1, 2, 70, 1, 51)]));
    buffer.findChild(&mut chain, &mut states, &mut pool);
    assert_eq!(states.get(&h(1)).unwrap().get(&owner(1)), Some(&(1, 30)));
    assert_eq!(states.get(&h(1)).unwrap().get(&owner(2)), Some(&(0, 250)));
}

#[test]
fn waiting_block_with_nonce_zero_is_refused() {
    let (mut chain, mut states, mut pool) = genesis_only();
    let good = pay(2, 1, 5, 1, 51);
    pool.push_tx(&good);
    let mut buffer = OrphanBuffer::new();
    buffer.addOrphan(&block(1, 0, vec![good, pay(1, 2, 1, 0, 50)]));
    let notes = buffer.findChild(&mut chain, &mut states, &mut pool);
    assert_eq!(notes, vec![Note::NonceMismatch]);
    assert!(!chain.contains(&h(1)));
    assert_eq!(chain.tail(), h(0));
    assert_eq!(states.len(), 1);
    assert_eq!(states.get(&h(0)).unwrap().get(&owner(2)), Some(&(0, 100)));
    assert!(pool.contains(&h(51)));
    assert!(buffer.missing().is_empty());
}

#[test]
fn one_sweep_goes_through_the_hashes_once() {
    let (mut chain, mut states, mut pool) = genesis_only();
    let mut notes = Vec::new();
    let mut buffer = OrphanBuffer::new();
    buffer.addOrphan(&block(1, 0, vec![]));
    buffer.addOrphan(&block(2, 1, vec![]));
    let mut other = buffer.clone();
    let forward = vec![h(0), h(1)];
    assert!(buffer.sweep_in_order(&forward, &mut chain, &mut states, &mut pool, &mut notes));
    assert!(buffer.missing().is_empty());
    assert_eq!(chain.tail(), h(2));
    let (mut chain, mut states, mut pool) = genesis_only();
    let backward = vec![h(1), h(0), h(77)];
    assert!(other.sweep_in_order(&backward, &mut chain, &mut states, &mut pool, &mut notes));
    assert_eq!(other.missing(), vec![h(1)]);
    assert_eq!(chain.tail(), h(1));
    assert_eq!(other.sweep(&mut chain, &mut states, &mut pool).unwrap().len(), 1);
    assert_eq!(chain.tail(), h(2));
}

#[test]
fn waiting_block_that_cannot_be_judged_stops_the_sweep() {
    let (mut chain, mut states, mut pool) = genesis_only();
    let mut buffer = OrphanBuffer::new();
    buffer.addOrphan(&block(1, 0, vec![pay(9, 2, 1, 1, 50)]));
    assert!(buffer.sweep(&mut chain, &mut states, &mut pool).is_none());
    let (mut chain, mut states, mut pool) = genesis_only();
    let mut buffer = OrphanBuffer::new();
    buffer.addOrphan(&block(1, 0, vec![pay(1, 9, 1, 1, 50)]));
    assert!(buffer.sweep(&mut chain, &mut states, &mut pool).is_none());
}
