use atlas_txn_sender::priority::{
    compute_priority_details, details_of_instructions, PriorityDetails,
};
use atlas_txn_sender::transaction::{
    sanitize, Header, Instruction, TableLookup, VersionedTransaction,
};
use solana_sdk::compute_budget::ComputeBudgetInstruction;

const PAYER: u8 = 0;
const PROGRAM: u8 = 1;
const BUDGET: u8 = 2;

fn call(program_id_index: u8, data: Vec<u8>) -> Instruction {
    Instruction { program_id_index, accounts: vec![PAYER], data }
}

fn limit(units: u32) -> Instruction {
    call(BUDGET, ComputeBudgetInstruction::set_compute_unit_limit(units).data)
}

fn price(micro_lamports: u64) -> Instruction {
    call(BUDGET, ComputeBudgetInstruction::set_compute_unit_price(micro_lamports).data)
}

fn transaction(instructions: Vec<Instruction>) -> VersionedTransaction {
    VersionedTransaction {
        signatures: vec![[7u8; 64]],
        header: Header {
            num_required_signatures: 1,
            num_readonly_signed_accounts: 0,
            num_readonly_unsigned_accounts: 2,
        },
        account_keys: vec![[1u8; 32], [2u8; 32], solana_sdk::compute_budget::id().to_bytes()],
        recent_blockhash: [3u8; 32],
        instructions,
        address_table_lookups: None,
    }
}

fn details(fee: u64, cu_limit: u32, priority: u64) -> PriorityDetails {
    PriorityDetails { fee, cu_limit, priority }
}

#[test]
fn fee_is_price_times_limit() {
    let tx = transaction(vec![limit(100_000), price(1_000_000), call(PROGRAM, vec![9])]);
    assert_eq!(compute_priority_details(&tx), details(100_000, 100_000, 1_000_000));
}

#[test]
fn fee_without_limit_goes_by_the_default() {
    let tx = transaction(vec![price(500_000), call(PROGRAM, vec![9])]);
    assert_eq!(compute_priority_details(&tx), details(100_000, 200_000, 500_000));
}

#[test]
fn no_price_means_no_fee() {
    let tx = transaction(vec![limit(50_000), call(PROGRAM, vec![9])]);
    assert_eq!(compute_priority_details(&tx), details(0, 50_000, 0));
    assert_eq!(compute_priority_details(&transaction(vec![])), details(0, 200_000, 0));
}

#[test]
fn limit_is_capped() {
    let tx = transaction(vec![limit(2_000_000), price(1_000_000)]);
    assert_eq!(compute_priority_details(&tx), details(1_400_000, 1_400_000, 1_000_000));
    let tx = transaction(vec![limit(1_400_000)]);
    assert_eq!(compute_priority_details(&tx), details(0, 1_400_000, 0));
}

#[test]
fn deprecated_request_pays_its_additional_fee() {
    let request =
        ComputeBudgetInstruction::RequestUnitsDeprecated { units: 100_000, additional_fee: 5 };
    let tx = transaction(vec![call(BUDGET, request.pack().unwrap())]);
    assert_eq!(compute_priority_details(&tx), details(5, 200_000, 50));
}

#[test]
fn data_size_limit_is_supported() {
    let data = ComputeBudgetInstruction::set_loaded_accounts_data_size_limit(1_000).data;
    let tx = transaction(vec![call(BUDGET, data), limit(10), price(1_000_000)]);
    assert_eq!(compute_priority_details(&tx), details(10, 10, 1_000_000));
}

#[test]
fn refused_instruction_hides_the_ones_behind_it() {
    let tx = transaction(vec![limit(10_000), price(1), price(2), limit(30_000)]);
    assert_eq!(compute_priority_details(&tx), details(0, 10_000, 0));
    let tx = transaction(vec![limit(10_000), limit(30_000), price(1)]);
    assert_eq!(compute_priority_details(&tx), details(0, 30_000, 0));
    let tx = transaction(vec![call(BUDGET, vec![77]), limit(30_000)]);
    assert_eq!(compute_priority_details(&tx), details(0, 200_000, 0));
}

#[test]
fn bad_heap_request_is_refused_after_the_whole_walk() {
    let heap = ComputeBudgetInstruction::request_heap_frame(1).data;
    let tx = transaction(vec![call(BUDGET, heap), price(1_000_000), limit(30_000)]);
    assert_eq!(compute_priority_details(&tx), details(0, 30_000, 0));
}

#[test]
fn limit_is_read_from_every_program() {
    let tx = transaction(vec![call(PROGRAM, vec![2, 0x10, 0x27, 0, 0, 99])]);
    assert_eq!(compute_priority_details(&tx), details(0, 10_000, 0));
    let tx = transaction(vec![call(PROGRAM, vec![2, 0x10, 0x27, 0])]);
    assert_eq!(compute_priority_details(&tx), details(0, 200_000, 0));
}

#[test]
fn details_with_given_fee() {
    let instructions = vec![limit(7), limit(8), limit(9)];
    assert_eq!(details_of_instructions(&instructions, Some((4, 5)), 0), details(4, 9, 5));
    assert_eq!(details_of_instructions(&instructions, None, 1), details(0, 8, 0));
    assert_eq!(details_of_instructions(&instructions, None, 3), details(0, 200_000, 0));
}

#[test]
fn unfit_transaction_has_no_fee() {
    let mut tx = transaction(vec![limit(10_000), price(1_000_000)]);
    tx.instructions[0].program_id_index = 3;
    assert_eq!(compute_priority_details(&tx), details(0, 200_000, 0));
}

#[test]
fn legacy_message_is_checked() {
    let fit = || transaction(vec![price(1)]);
    assert!(sanitize(&fit()));
    let mut tx = fit();
    tx.header.num_readonly_unsigned_accounts = 3;
    assert!(!sanitize(&tx));
    let mut tx = fit();
    tx.header.num_readonly_signed_accounts = 1;
    assert!(!sanitize(&tx));
    let mut tx = fit();
    tx.instructions[0].program_id_index = PAYER;
    assert!(!sanitize(&tx));
    let mut tx = fit();
    tx.instructions[0].accounts = vec![3];
    assert!(!sanitize(&tx));
    let mut tx = fit();
    tx.signatures.push([8u8; 64]);
    assert!(!sanitize(&tx));
    let mut tx = fit();
    tx.signatures.clear();
    assert!(!sanitize(&tx));
    let mut tx = fit();
    tx.account_keys.extend(vec![[5u8; 32]; 300]);
    assert!(sanitize(&tx));
}

#[test]
fn version_zero_message_is_checked() {
    let lookup = |writable: Vec<u8>, readonly: Vec<u8>| TableLookup {
        account_key: [6u8; 32],
        writable_indexes: writable,
        readonly_indexes: readonly,
    };
    let fit = || {
        let mut tx = transaction(vec![price(1)]);
        tx.address_table_lookups = Some(vec![lookup(vec![0], vec![4])]);
        tx
    };
    assert!(sanitize(&fit()));
    let mut tx = fit();
    tx.instructions[0].accounts = vec![4];
    assert!(sanitize(&tx));
    tx.instructions[0].accounts = vec![5];
    assert!(!sanitize(&tx));
    let mut tx = fit();
    tx.instructions[0].program_id_index = 3;
    assert!(!sanitize(&tx));
    let mut tx = fit();
    tx.address_table_lookups = Some(vec![lookup(vec![], vec![])]);
    assert!(!sanitize(&tx));
    let mut tx = fit();
    tx.address_table_lookups = Some(vec![lookup(vec![0; 253], vec![])]);
    assert!(sanitize(&tx));
    tx.address_table_lookups = Some(vec![lookup(vec![0; 253], vec![1])]);
    assert!(!sanitize(&tx));
    let mut tx = fit();
    tx.signatures.clear();
    assert!(!sanitize(&tx));
}
