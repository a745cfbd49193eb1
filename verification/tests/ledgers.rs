use chain_worker::hash::{owner_address, H160, H256};
use chain_worker::hash::Key;
use chain_worker::ledger::{
    check_account, check_transaction, check_transactions, settle, transfer, Basis, Ledger,
};
use chain_worker::note::Note;
use chain_worker::table::Table;
use chain_worker::transaction::{SignedTransaction, Transaction};

fn h(n: u8) -> H256 {
    let mut bytes = [0u8; 32];
    bytes[31] = n;
    H256 { bytes }
}

fn owner(n: u8) -> H160 {
    owner_address(&vec![n])
}

fn pay(from: u8, to: H160, value: u32, nonce: u32) -> SignedTransaction {
    SignedTransaction::new(
        Transaction { address: to, value, nonce },
        vec![7, 7],
        vec![from],
        h(from),
        true,
    )
}

fn three() -> Ledger {
    let mut ledger: Ledger = Table::new();
    ledger.insert(owner(1), (0, 100));
    ledger.insert(owner(2), (4, 50));
    ledger.insert(owner(3), (0, 0));
    ledger
}

fn sum(ledger: &Ledger) -> u64 {
    ledger.keys().iter().map(|k| ledger.get(k).unwrap().1 as u64).sum()
}

#[test]
fn address_of_the_empty_key() {
    assert_eq!(
        owner_address(&vec![]).bytes,
        [
            0x99, 0x6f, 0xb9, 0x24, 0x27, 0xae, 0x41, 0xe4, 0x64, 0x9b, 0x93, 0x4c, 0xa4, 0x95,
            0x99, 0x1b, 0x78, 0x52, 0xb8, 0x55,
        ]
    );
}

#[test]
fn address_of_a_key() {
    assert_eq!(
        owner_address(&b"abc".to_vec()).bytes,
        [
            0x5d, 0xae, 0x22, 0x23, 0xb0, 0x03, 0x61, 0xa3, 0x96, 0x17, 0x7a, 0x9c, 0xb4, 0x10,
            0xff, 0x61, 0xf2, 0x00, 0x15, 0xad,
        ]
    );
}

#[test]
fn owner_follows_from_the_key() {
    let tx = SignedTransaction::new(
        Transaction { address: owner(2), value: 3, nonce: 1 },
        vec![1, 2, 3],
        b"abc".to_vec(),
        h(9),
        false,
    );
    assert_eq!(tx.owner(), owner_address(&b"abc".to_vec()));
    assert_eq!(tx.hash(), h(9));
    assert_eq!(tx.transaction().value, 3);
    assert_eq!(tx.signature(), &vec![1, 2, 3]);
    assert_eq!(tx.public_key(), &b"abc".to_vec());
    assert!(!tx.verified());
    let copy = tx.clone();
    assert_eq!(copy.owner(), tx.owner());
    assert_eq!(copy.public_key(), tx.public_key());
}

#[test]
fn address_is_the_end_of_the_hash() {
    let mut bytes = [0u8; 32];
    for i in 0..32 {
        bytes[i] = i as u8;
    }
    let address = H160::from_hash(&H256 { bytes });
    assert_eq!(address.bytes[0], 12);
    assert_eq!(address.bytes[19], 31);
    assert_eq!(H256::from_digest(&bytes.to_vec()), H256 { bytes });
}

#[test]
fn hashes_compare_as_numbers() {
    let mut high = [0u8; 32];
    high[0] = 1;
    let high = H256 { bytes: high };
    assert!(h(255).le(&high));
    assert!(!high.le(&h(255)));
    assert!(h(3).le(&h(3)));
    assert!(h(3).le(&h(4)));
    assert!(!h(4).le(&h(3)));
    assert!(h(4).same(&h(4)));
    assert!(!h(4).same(&high));
}

#[test]
fn table_keeps_one_entry_per_key() {
    let mut table: Table<H256, (u32, u32)> = Table::new();
    assert_eq!(table.len(), 0);
    assert!(table.get(&h(1)).is_none());
    table.insert(h(1), (1, 1));
    table.insert(h(2), (2, 2));
    table.insert(h(1), (3, 3));
    assert_eq!(table.len(), 2);
    assert_eq!(table.get(&h(1)), Some(&(3, 3)));
    assert_eq!(table.get(&h(2)), Some(&(2, 2)));
    let mut keys = table.keys();
    keys.sort_by_key(|k| k.bytes);
    assert_eq!(keys, vec![h(1), h(2)]);
    let copy = table.clone();
    assert_eq!(table.remove(&h(1)), Some((3, 3)));
    assert_eq!(table.remove(&h(1)), None);
    assert!(!table.contains_key(&h(1)));
    assert_eq!(copy.get(&h(1)), Some(&(3, 3)));
}

#[test]
fn every_complaint_is_noted() {
    let tx = Transaction { address: owner(2), value: 10, nonce: 3 };
    let mut notes = Vec::new();
    assert!(check_account((2, 10), &tx, true, &mut notes));
    assert_eq!(notes, vec![]);
    assert!(!check_account((3, 9), &tx, false, &mut notes));
    assert_eq!(
        notes,
        vec![Note::SignatureNotVerified, Note::NotEnoughBalance, Note::NonceMismatch]
    );
    notes.clear();
    assert!(!check_account((2, 9), &tx, true, &mut notes));
    assert_eq!(notes, vec![Note::NotEnoughBalance]);
    notes.clear();
    assert!(!check_account((1, 10), &tx, true, &mut notes));
    assert_eq!(notes, vec![Note::NonceMismatch]);
}

#[test]
fn only_an_unknown_owner_is_not_checkable() {
    let ledger = three();
    let mut notes = Vec::new();
    assert_eq!(check_transaction(&ledger, &pay(9, owner(1), 1, 1), &mut notes), None);
    assert!(notes.is_empty());
    assert_eq!(check_transaction(&ledger, &pay(1, owner(2), 1, 1), &mut notes), Some(true));
    assert!(notes.is_empty());
    assert_eq!(check_transaction(&ledger, &pay(1, owner(2), 101, 1), &mut notes), Some(false));
    assert_eq!(notes, vec![Note::NotEnoughBalance]);
}

#[test]
fn nonce_zero_is_never_the_next() {
    let ledger = three();
    let mut notes = Vec::new();
    assert_eq!(check_transaction(&ledger, &pay(1, owner(2), 1, 0), &mut notes), Some(false));
    assert_eq!(notes, vec![Note::NonceMismatch]);
    notes.clear();
    let tx = Transaction { address: owner(2), value: 1, nonce: 0 };
    assert!(!check_account((u32::MAX, 10), &tx, true, &mut notes));
    assert_eq!(notes, vec![Note::NonceMismatch]);
    notes.clear();
    let last = Transaction { address: owner(2), value: 1, nonce: u32::MAX };
    assert!(check_account((u32::MAX - 1, 10), &last, true, &mut notes));
    assert!(notes.is_empty());
    let mixed = vec![pay(1, owner(2), 1, 1), pay(2, owner(1), 1, 0)];
    assert_eq!(check_transactions(&ledger, &mixed, &mut notes), Some(false));
    assert_eq!(notes, vec![Note::NonceMismatch]);
}

#[test]
fn transfers_of_a_block_are_checked_one_by_one() {
    let ledger = three();
    let mut notes = Vec::new();
    let good = vec![pay(1, owner(2), 60, 1), pay(1, owner(3), 60, 1), pay(2, owner(1), 50, 5)];
    assert_eq!(check_transactions(&ledger, &good, &mut notes), Some(true));
    assert!(notes.is_empty());
    let bad = vec![pay(1, owner(2), 60, 2), pay(2, owner(3), 51, 5)];
    assert_eq!(check_transactions(&ledger, &bad, &mut notes), Some(false));
    assert_eq!(notes, vec![Note::NonceMismatch, Note::NotEnoughBalance]);
    let unknown = vec![pay(1, owner(2), 60, 2), pay(8, owner(3), 1, 1)];
    assert_eq!(check_transactions(&ledger, &unknown, &mut notes), None);
    assert_eq!(check_transactions(&ledger, &vec![], &mut notes), Some(true));
}

#[test]
fn transfer_moves_money_and_sets_the_nonce() {
    let mut ledger = three();
    let tx = Transaction { address: owner(2), value: 30, nonce: 1 };
    assert!(transfer(&mut ledger, owner(1), 100, &tx));
    assert_eq!(ledger.get(&owner(1)), Some(&(1, 70)));
    assert_eq!(ledger.get(&owner(2)), Some(&(4, 80)));
    assert_eq!(ledger.get(&owner(3)), Some(&(0, 0)));
    assert_eq!(sum(&ledger), 150);
}

#[test]
fn transfer_to_oneself_counts_the_nonce_only() {
    let mut ledger = three();
    let tx = Transaction { address: owner(1), value: 30, nonce: 1 };
    assert!(transfer(&mut ledger, owner(1), 100, &tx));
    assert_eq!(ledger.get(&owner(1)), Some(&(1, 100)));
}

#[test]
fn transfer_that_cannot_be_paid_changes_nothing() {
    let mut ledger = three();
    let dear = Transaction { address: owner(2), value: 101, nonce: 1 };
    assert!(!transfer(&mut ledger, owner(1), 100, &dear));
    let nowhere = Transaction { address: owner(9), value: 1, nonce: 1 };
    assert!(!transfer(&mut ledger, owner(1), 100, &nowhere));
    ledger.insert(owner(3), (0, u32::MAX));
    let brimming = Transaction { address: owner(3), value: 1, nonce: 1 };
    assert!(!transfer(&mut ledger, owner(1), 100, &brimming));
    assert_eq!(ledger.get(&owner(1)), Some(&(0, 100)));
    assert_eq!(ledger.get(&owner(3)), Some(&(0, u32::MAX)));
}

#[test]
fn running_balances_conserve_money() {
    let parent = three();
    let txs = vec![pay(1, owner(2), 60, 1), pay(1, owner(3), 30, 1), pay(2, owner(1), 110, 5)];
    let after = settle(&parent, &txs, Basis::Running).unwrap();
    assert_eq!(after.get(&owner(1)), Some(&(1, 120)));
    assert_eq!(after.get(&owner(2)), Some(&(5, 0)));
    assert_eq!(after.get(&owner(3)), Some(&(0, 30)));
    assert_eq!(sum(&after), sum(&parent));
    assert_eq!(after.len(), parent.len());
    let spent = vec![pay(1, owner(2), 60, 1), pay(1, owner(3), 60, 1)];
    assert!(settle(&parent, &spent, Basis::Running).is_none());
}

#[test]
fn parent_balances_can_drift() {
    let parent = three();
    let txs = vec![pay(1, owner(2), 60, 1), pay(1, owner(3), 60, 1)];
    let after = settle(&parent, &txs, Basis::Parent).unwrap();
    assert_eq!(after.get(&owner(1)), Some(&(1, 40)));
    assert_eq!(after.get(&owner(2)), Some(&(4, 110)));
    assert_eq!(after.get(&owner(3)), Some(&(0, 60)));
    assert_eq!(sum(&after), sum(&parent) + 60);
}

#[test]
fn bases_agree_when_senders_are_untouched() {
    let parent = three();
    let txs = vec![pay(1, owner(3), 60, 1), pay(2, owner(1), 50, 5)];
    let running = settle(&parent, &txs, Basis::Running).unwrap();
    let from_parent = settle(&parent, &txs, Basis::Parent).unwrap();
    for n in 1..4 {
        assert_eq!(running.get(&owner(n)), from_parent.get(&owner(n)));
    }
    assert_eq!(running.get(&owner(1)), Some(&(1, 90)));
}

#[test]
fn settled_transfer_cannot_be_paid_again() {
    let parent = three();
    let txs = vec![pay(1, owner(2), 10, 1)];
    for basis in [Basis::Running, Basis::Parent] {
        let after = settle(&parent, &txs, basis).unwrap();
        let mut notes = Vec::new();
        assert_eq!(check_transaction(&after, &txs[0], &mut notes), Some(false));
        assert_eq!(notes, vec![Note::NonceMismatch]);
        assert_eq!(after.get(&owner(2)).unwrap().0, 4);
    }
}
