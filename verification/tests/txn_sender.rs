use atlas_txn_sender::contact::ContactInfo;
use atlas_txn_sender::priority::PriorityDetails;
use atlas_txn_sender::transaction::{Header, Instruction, VersionedTransaction};
use atlas_txn_sender::transaction_store::{RequestMetadata, TransactionData};
use atlas_txn_sender::txn_sender::{
    describe_transaction, pays_enough, SendDecision, TrackedTransaction, TxnSender, TxnSenderImpl,
    ValidatorUpdate,
};
use solana_sdk::compute_budget::ComputeBudgetInstruction;
use solana_sdk::pubkey::Pubkey;
use solana_sdk::signature::Signature;
use std::time::Instant;

fn priced(n: u8, micro_lamports: u64, max_retries: usize) -> TransactionData {
    let call = |data: Vec<u8>| Instruction { program_id_index: 1, accounts: vec![], data };
    TransactionData {
        wire_transaction: vec![n; 3],
        versioned_transaction: VersionedTransaction {
            signatures: vec![[n; 64]],
            header: Header {
                num_required_signatures: 1,
                num_readonly_signed_accounts: 0,
                num_readonly_unsigned_accounts: 1,
            },
            account_keys: vec![[1u8; 32], solana_sdk::compute_budget::id().to_bytes()],
            recent_blockhash: [0u8; 32],
            instructions: vec![
                call(ComputeBudgetInstruction::set_compute_unit_limit(100_000).data),
                call(ComputeBudgetInstruction::set_compute_unit_price(micro_lamports).data),
            ],
            address_table_lookups: None,
        },
        sent_at: Instant::now(),
        retry_count: 0,
        max_retries,
        request_metadata: Some(RequestMetadata { api_key: "key".to_string() }),
    }
}

fn signature(n: u8) -> String {
    Signature::from([n; 64]).to_string()
}

fn node(n: u8, tpu: Option<&str>) -> ContactInfo {
    ContactInfo {
        pubkey: Pubkey::from([n; 32]).to_string(),
        tpu: tpu.map(|address| address.to_string()),
        tpu_quic: None,
    }
}

fn accepted(decision: SendDecision) -> TrackedTransaction {
    match decision {
        SendDecision::Accepted { record, .. } => record,
        SendDecision::Dropped { .. } => panic!("dropped"),
    }
}

#[test]
fn transaction_that_pays_enough_is_sent_to_all_validators() {
    let mut sender = TxnSenderImpl::new(2, None);
    let nodes = vec![node(1, Some("10.0.0.1:1")), node(2, None)];
    sender.update_validator_info(Some(&nodes), &vec![[1u8; 32], [2u8; 32]]);
    match sender.send_transaction(priced(9, 300_000, 4), 30_000) {
        SendDecision::Accepted { record, sends } => {
            assert_eq!(record.signature, signature(9));
            assert_eq!(
                record.details,
                PriorityDetails { fee: 30_000, cu_limit: 100_000, priority: 300_000 }
            );
            assert_eq!(record.priority_fees_enabled, "true");
            assert_eq!(record.api_key, "key");
            assert_eq!(sends.len(), 2);
            assert_eq!(sends[0].peer, "10.0.0.1:1");
            assert_eq!(sends[0].wire_transaction, vec![9, 9, 9]);
            assert_eq!(sends[1].peer, "");
            assert_eq!(sends[1].wire_transaction, vec![9, 9, 9]);
        }
        SendDecision::Dropped { .. } => panic!("dropped"),
    }
    assert_eq!(sender.retry_transactions().queue_length, 1);
}

#[test]
fn transaction_that_pays_too_little_is_dropped() {
    let mut sender = TxnSenderImpl::new(2, None);
    match sender.send_transaction(priced(9, 299_990, 4), 30_000) {
        SendDecision::Dropped { signature: text, min_fee, fee } => {
            assert_eq!(text, signature(9));
            assert_eq!(min_fee, 30_000);
            assert_eq!(fee, 29_999);
        }
        SendDecision::Accepted { .. } => panic!("accepted"),
    }
    assert_eq!(sender.retry_transactions().queue_length, 0);
}

#[test]
fn fee_decides() {
    let details = PriorityDetails { fee: 30_000, cu_limit: 1, priority: 1 };
    assert!(pays_enough(&details, 30_000));
    assert!(!pays_enough(&details, 30_001));
}

#[test]
fn record_names_an_unknown_sender_none() {
    let mut data = priced(1, 0, 0);
    data.request_metadata = None;
    let details = PriorityDetails { fee: 0, cu_limit: 7, priority: 0 };
    let record = describe_transaction(&data, "text".to_string(), details);
    assert_eq!(record.signature, "text");
    assert_eq!(record.priority_fees_enabled, "false");
    assert_eq!(record.api_key, "none");
    assert_eq!(record.sent_at, data.sent_at);
    assert_eq!(record.details, details);
}

#[test]
fn transaction_without_signatures_is_not_followed() {
    let mut sender = TxnSenderImpl::new(2, None);
    let mut data = priced(1, 0, 0);
    data.versioned_transaction.signatures.clear();
    assert!(sender.track_transaction(&data).is_none());
    assert_eq!(sender.retry_transactions().queue_length, 0);
}

#[test]
fn transaction_is_retried_until_its_maximum() {
    let mut sender = TxnSenderImpl::new(2, None);
    accepted(sender.send_transaction(priced(9, 0, 2), 0));
    for _ in 0..2 {
        let round = sender.retry_transactions();
        assert_eq!(round.queue_length, 1);
        assert_eq!(round.dropped, None);
        assert_eq!(round.wire_transactions, vec![vec![9, 9, 9]]);
        assert!(round.reached_max_retries.is_empty());
    }
    let round = sender.retry_transactions();
    assert_eq!(round.wire_transactions, vec![vec![9, 9, 9]]);
    assert_eq!(round.reached_max_retries, vec![signature(9)]);
    let round = sender.retry_transactions();
    assert_eq!(round.queue_length, 0);
    assert!(round.wire_transactions.is_empty());
}

#[test]
fn round_sheds_down_to_one_above_the_limit() {
    let mut sender = TxnSenderImpl::new(2, Some(1));
    accepted(sender.send_transaction(priced(1, 0, 9), 0));
    assert_eq!(sender.retry_transactions().dropped, None);
    accepted(sender.send_transaction(priced(2, 0, 9), 0));
    accepted(sender.send_transaction(priced(3, 0, 9), 0));
    let round = sender.retry_transactions();
    assert_eq!(round.queue_length, 3);
    assert_eq!(round.dropped, Some(2));
    let mut wires = round.wire_transactions;
    wires.sort();
    assert_eq!(wires, vec![vec![2, 2, 2], vec![3, 3, 3]]);
}

#[test]
fn transaction_lives_as_long_in_a_limited_queue_that_keeps_it() {
    let mut sender = TxnSenderImpl::new(2, Some(1));
    accepted(sender.send_transaction(priced(9, 0, 2), 0));
    for n in 1..3 {
        accepted(sender.send_transaction(priced(n, 0, 0), 0));
        let round = sender.retry_transactions();
        assert_eq!(round.dropped, Some(1));
        assert!(round.wire_transactions.contains(&vec![9, 9, 9]));
        assert_eq!(round.reached_max_retries, vec![signature(n)]);
    }
    let round = sender.retry_transactions();
    assert_eq!(round.wire_transactions, vec![vec![9, 9, 9]]);
    assert_eq!(round.reached_max_retries, vec![signature(9)]);
    assert_eq!(sender.retry_transactions().queue_length, 0);
}

#[test]
fn interval_in_seconds_does_not_bear_on_a_round() {
    let rounds = [1, 600].map(|seconds| {
        let mut sender = TxnSenderImpl::new(seconds, Some(5));
        accepted(sender.send_transaction(priced(9, 0, 0), 0));
        let round = sender.retry_transactions();
        (round.queue_length, round.dropped, round.wire_transactions, round.reached_max_retries)
    });
    assert_eq!(rounds[0], rounds[1]);
    assert_eq!(rounds[0].2, vec![vec![9, 9, 9]]);
}

#[test]
fn report_on_a_queued_transaction_bins_its_counters() {
    let mut sender = TxnSenderImpl::new(2, None);
    let record = accepted(sender.send_transaction(priced(9, 0, 7), 0));
    for _ in 0..3 {
        sender.retry_transactions();
    }
    let report = sender.finish_tracking(&record, true);
    assert_eq!(report.landed, "true");
    assert_eq!(report.retries_tag, "2_5");
    assert_eq!(report.max_retries_tag, "5_10");
    assert_eq!(sender.retry_transactions().queue_length, 0);
}

#[test]
fn report_on_a_transaction_that_left_the_queue() {
    let mut sender = TxnSenderImpl::new(2, None);
    let record = accepted(sender.send_transaction(priced(9, 0, 0), 0));
    sender.retry_transactions();
    let report = sender.finish_tracking(&record, false);
    assert_eq!(report.landed, "false");
    assert_eq!(report.retries_tag, "none");
    assert_eq!(report.max_retries_tag, "none");
}

#[test]
fn counters_are_cut_to_32_bits() {
    let mut sender = TxnSenderImpl::new(2, None);
    let record = accepted(sender.send_transaction(priced(9, 0, 0xffff_ffff), 0));
    let report = sender.finish_tracking(&record, true);
    assert_eq!(report.retries_tag, "0_1");
    assert_eq!(report.max_retries_tag, "-inf_0");
}

#[test]
fn validators_are_looked_up_among_the_nodes() {
    let mut sender = TxnSenderImpl::new(2, None);
    let nodes = vec![node(3, Some("c")), node(2, Some("b")), node(1, Some("a"))];
    let update = sender.update_validator_info(Some(&nodes), &vec![[1u8; 32], [3u8; 32]]);
    assert_eq!(update, Some(ValidatorUpdate { found: 2, incomplete: false }));
    assert_eq!(sender.get_tpu_addresses(), vec!["c", "a"]);
    let update = sender.update_validator_info(None, &vec![[2u8; 32]]);
    assert_eq!(update, None);
    assert_eq!(sender.get_tpu_addresses(), vec!["c", "a"]);
    let update = sender.update_validator_info(Some(&nodes), &vec![[2u8; 32], [9u8; 32]]);
    assert_eq!(update, Some(ValidatorUpdate { found: 1, incomplete: true }));
    assert_eq!(sender.get_tpu_addresses(), vec!["b"]);
    assert_eq!(sender.send_to_tpu_peers(&vec![1])[0].peer, "b");
}

#[test]
fn background_update_replaces_the_list() {
    let mut infos = vec![];
    let nodes = vec![node(1, Some("a"))];
    TxnSenderImpl::update_validator_info_task(&mut infos, Some(&nodes), &vec![[1u8; 32]]);
    assert_eq!(infos.len(), 1);
    assert_eq!(infos[0].pubkey, [1u8; 32]);
    assert_eq!(infos[0].tpu_address, "a");
    TxnSenderImpl::update_validator_info_task(&mut infos, None, &vec![]);
    assert_eq!(infos.len(), 1);
    TxnSenderImpl::update_validator_info_task(&mut infos, Some(&nodes), &vec![]);
    assert!(infos.is_empty());
}
