use atlas_txn_sender::retry_order::stable_order;
use atlas_txn_sender::transaction::{Header, VersionedTransaction};
use atlas_txn_sender::transaction_store::{
    get_signature, retry_step, transactions_to_remove, TransactionData, TransactionStore,
};
use solana_sdk::signature::Signature;
use std::time::Instant;

fn queued(n: u8, retry_count: usize, max_retries: usize) -> TransactionData {
    TransactionData {
        wire_transaction: vec![n, n],
        versioned_transaction: VersionedTransaction {
            signatures: vec![[n; 64], [0u8; 64]],
            header: Header {
                num_required_signatures: 2,
                num_readonly_signed_accounts: 0,
                num_readonly_unsigned_accounts: 0,
            },
            account_keys: vec![],
            recent_blockhash: [0u8; 32],
            instructions: vec![],
            address_table_lookups: None,
        },
        sent_at: Instant::now(),
        retry_count,
        max_retries,
        request_metadata: None,
    }
}

fn signature(n: u8) -> String {
    Signature::from([n; 64]).to_string()
}

fn entry(key: &str, retry_count: usize) -> (String, usize) {
    (key.to_string(), retry_count)
}

#[test]
fn signature_is_the_first_one() {
    assert_eq!(get_signature(&queued(5, 0, 0)), Some(signature(5)));
    let mut unsigned = queued(5, 0, 0);
    unsigned.versioned_transaction.signatures.clear();
    assert_eq!(get_signature(&unsigned), None);
}

#[test]
fn removal_gives_back_what_was_added() {
    let mut store = TransactionStore::new();
    assert_eq!(store.len(), 0);
    store.add_transaction(queued(1, 3, 9));
    store.add_transaction(queued(2, 4, 8));
    assert_eq!(store.len(), 2);
    let removed = store.remove_transaction(&signature(1)).unwrap();
    assert_eq!(removed.wire_transaction, vec![1, 1]);
    assert_eq!(removed.retry_count, 3);
    assert_eq!(removed.max_retries, 9);
    assert_eq!(store.len(), 1);
    assert!(store.remove_transaction(&signature(1)).is_none());
}

#[test]
fn transaction_without_signatures_is_not_stored() {
    let mut store = TransactionStore::new();
    let mut unsigned = queued(5, 0, 0);
    unsigned.versioned_transaction.signatures.clear();
    store.add_transaction(unsigned);
    assert_eq!(store.len(), 0);
}

#[test]
fn later_transaction_replaces_one_with_the_same_signature() {
    let mut store = TransactionStore::new();
    store.add_transaction(queued(1, 3, 9));
    store.add_transaction(queued(1, 5, 9));
    assert_eq!(store.len(), 1);
    assert_eq!(store.remove_transaction(&signature(1)).unwrap().retry_count, 5);
}

#[test]
fn retry_step_counts_until_the_maximum() {
    let mut transaction = queued(1, 0, 1);
    let step = retry_step(&mut transaction);
    assert_eq!(step.wire_transaction, vec![1, 1]);
    assert_eq!(step.reached_max_retries, None);
    assert_eq!(transaction.retry_count, 1);
    let step = retry_step(&mut transaction);
    assert_eq!(step.wire_transaction, vec![1, 1]);
    assert_eq!(step.reached_max_retries, Some(signature(1)));
    assert_eq!(transaction.retry_count, 1);
}

#[test]
fn order_is_stable() {
    assert_eq!(stable_order(&vec![3, 1, 2, 1, 3, 0]), vec![5, 1, 3, 2, 0, 4]);
    assert!(stable_order(&vec![]).is_empty());
    assert_eq!(stable_order(&vec![0; 5]), vec![0, 1, 2, 3, 4]);
}

#[test]
fn most_retried_entries_go_first() {
    let entries = vec![entry("a", 2), entry("b", 0), entry("c", 2), entry("d", 1)];
    assert_eq!(transactions_to_remove(&entries, 0), vec!["d", "a", "c"]);
    assert_eq!(transactions_to_remove(&entries, 1), vec!["a", "c"]);
    assert_eq!(transactions_to_remove(&entries, 2), vec!["c"]);
    assert!(transactions_to_remove(&entries, 3).is_empty());
}

#[test]
fn queue_within_its_limit_is_left_alone() {
    let mut store = TransactionStore::new();
    store.add_transaction(queued(1, 0, 9));
    store.add_transaction(queued(2, 1, 9));
    assert_eq!(store.shed_transactions(None), None);
    assert_eq!(store.shed_transactions(Some(2)), None);
    assert_eq!(store.len(), 2);
}

#[test]
fn queue_over_its_limit_loses_the_most_retried() {
    let mut store = TransactionStore::new();
    for n in 0..6 {
        store.add_transaction(queued(n, n as usize, 9));
    }
    assert_eq!(store.shed_transactions(Some(2)), Some(4));
    assert_eq!(store.len(), 3);
    for n in 0..3 {
        assert!(store.remove_transaction(&signature(n)).is_some());
    }
    assert_eq!(store.len(), 0);
}

#[test]
fn round_hands_out_every_transaction_once() {
    let mut store = TransactionStore::new();
    store.add_transaction(queued(1, 0, 2));
    store.add_transaction(queued(2, 2, 2));
    store.add_transaction(queued(3, 5, 2));
    let (mut wires, mut spent) = store.count_retries();
    wires.sort();
    spent.sort();
    let mut expected = vec![signature(2), signature(3)];
    expected.sort();
    assert_eq!(wires, vec![vec![1, 1], vec![2, 2], vec![3, 3]]);
    assert_eq!(spent, expected);
    assert_eq!(store.len(), 3);
    store.remove_transactions(&spent);
    assert_eq!(store.len(), 1);
    assert_eq!(store.remove_transaction(&signature(1)).unwrap().retry_count, 1);
}
