//! Transactions, as the sender reads them.
use solana_sdk::instruction::CompiledInstruction;
use solana_sdk::message::v0::{Message, MessageAddressTableLookup};
use solana_sdk::message::{MessageHeader, VersionedMessage};
use solana_sdk::pubkey::Pubkey;
use solana_sdk::signature::Signature;
use vstd::prelude::*;
use vstd::slice::slice_to_vec;

verus! {

/// How the account keys of a message divide into signers and read-only accounts.
#[derive(Clone, Copy)]
pub struct Header {
    pub num_required_signatures: u8,
    pub num_readonly_signed_accounts: u8,
    pub num_readonly_unsigned_accounts: u8,
}

/// An instruction of a message; accounts are given by their index.
pub struct Instruction {
    pub program_id_index: u8,
    pub accounts: Vec<u8>,
    pub data: Vec<u8>,
}

/// The content of an [`Instruction`].
pub struct InstructionView {
    pub program_id_index: u8,
    pub accounts: Seq<u8>,
    pub data: Seq<u8>,
}

impl View for Instruction {
    type V = InstructionView;

    open spec fn view(&self) -> InstructionView {
        InstructionView {
            program_id_index: self.program_id_index,
            accounts: self.accounts@,
            data: self.data@,
        }
    }
}

/// The accounts that a message loads from one address lookup table.
pub struct TableLookup {
    pub account_key: [u8; 32],
    pub writable_indexes: Vec<u8>,
    pub readonly_indexes: Vec<u8>,
}

/// The content of a [`TableLookup`].
pub struct TableLookupView {
    pub account_key: [u8; 32],
    pub writable_indexes: Seq<u8>,
    pub readonly_indexes: Seq<u8>,
}

impl View for TableLookup {
    type V = TableLookupView;

    open spec fn view(&self) -> TableLookupView {
        TableLookupView {
            account_key: self.account_key,
            writable_indexes: self.writable_indexes@,
            readonly_indexes: self.readonly_indexes@,
        }
    }
}

/// The contents of a list of instructions.
pub open spec fn instruction_views(instructions: Seq<Instruction>) -> Seq<InstructionView> {
    instructions.map_values(|ix: Instruction| ix@)
}

/// The contents of a list of lookups.
pub open spec fn lookup_views(lookups: Seq<TableLookup>) -> Seq<TableLookupView> {
    lookups.map_values(|lookup: TableLookup| lookup@)
}

impl Clone for Instruction {
    fn clone(&self) -> (copy: Self)
        ensures
            copy@ == self@,
    {
        Instruction {
            program_id_index: self.program_id_index,
            accounts: copy_all(&self.accounts),
            data: copy_all(&self.data),
        }
    }
}

impl Clone for TableLookup {
    fn clone(&self) -> (copy: Self)
        ensures
            copy@ == self@,
    {
        TableLookup {
            account_key: self.account_key,
            writable_indexes: copy_all(&self.writable_indexes),
            readonly_indexes: copy_all(&self.readonly_indexes),
        }
    }
}

/// Copies a list of plain values.
pub fn copy_all<T: Copy>(values: &Vec<T>) -> (copy: Vec<T>)
    ensures
        copy@ == values@,
{
    slice_to_vec(values.as_slice())
}

/// Copies a list of instructions.
fn clone_instructions(instructions: &Vec<Instruction>) -> (copy: Vec<Instruction>)
    ensures
        instruction_views(copy@) == instruction_views(instructions@),
{
    let mut copy: Vec<Instruction> = Vec::new();
    let mut i: usize = 0;
    while i < instructions.len()
        invariant
            i <= instructions@.len(),
            copy@.len() == i,
            forall|j: int| 0 <= j < i ==> (#[trigger] copy@[j])@ == instructions@[j]@,
        decreases instructions@.len() - i,
    {
        copy.push(instructions[i].clone());
        i = i + 1;
    }
    assert(instruction_views(copy@) =~= instruction_views(instructions@));
    copy
}

/// Copies a list of lookups.
fn clone_lookups(lookups: &Vec<TableLookup>) -> (copy: Vec<TableLookup>)
    ensures
        lookup_views(copy@) == lookup_views(lookups@),
{
    let mut copy: Vec<TableLookup> = Vec::new();
    let mut i: usize = 0;
    while i < lookups.len()
        invariant
            i <= lookups@.len(),
            copy@.len() == i,
            forall|j: int| 0 <= j < i ==> (#[trigger] copy@[j])@ == lookups@[j]@,
        decreases lookups@.len() - i,
    {
        copy.push(lookups[i].clone());
        i = i + 1;
    }
    assert(lookup_views(copy@) =~= lookup_views(lookups@));
    copy
}

/// A signed transaction with a legacy or a version 0 message.
pub struct VersionedTransaction {
    pub signatures: Vec<[u8; 64]>,
    pub header: Header,
    /// The account keys that the message itself holds.
    pub account_keys: Vec<[u8; 32]>,
    pub recent_blockhash: [u8; 32],
    pub instructions: Vec<Instruction>,
    /// `None` in a legacy message; the lookups of a version 0 message.
    pub address_table_lookups: Option<Vec<TableLookup>>,
}

/// The content of a [`VersionedTransaction`].
pub struct VersionedTransactionView {
    pub signatures: Seq<[u8; 64]>,
    pub header: Header,
    pub account_keys: Seq<[u8; 32]>,
    pub recent_blockhash: [u8; 32],
    pub instructions: Seq<InstructionView>,
    pub address_table_lookups: Option<Seq<TableLookupView>>,
}

impl View for VersionedTransaction {
    type V = VersionedTransactionView;

    open spec fn view(&self) -> VersionedTransactionView {
        VersionedTransactionView {
            signatures: self.signatures@,
            header: self.header,
            account_keys: self.account_keys@,
            recent_blockhash: self.recent_blockhash,
            instructions: instruction_views(self.instructions@),
            address_table_lookups: match self.address_table_lookups {
                Some(lookups) => Some(lookup_views(lookups@)),
                None => None,
            },
        }
    }
}

/// The number of accounts that the lookups load.
pub open spec fn looked_up_accounts(lookups: Seq<TableLookupView>) -> nat
    decreases lookups.len(),
{
    if lookups.len() == 0 {
        0
    } else {
        looked_up_accounts(lookups.drop_last()) + lookups.last().writable_indexes.len()
            + lookups.last().readonly_indexes.len()
    }
}

/// The number of accounts that an instruction can name: the message's own keys and the ones that
/// its lookups load.
pub open spec fn account_count(tx: VersionedTransactionView) -> nat {
    match tx.address_table_lookups {
        Some(lookups) => tx.account_keys.len() + looked_up_accounts(lookups),
        None => tx.account_keys.len(),
    }
}

/// Whether the indexes and counts of a transaction fit together:
/// - the signers and the read-only unsigned accounts do not overlap,
/// - the account that pays the fee signs and is writable,
/// - each lookup loads an account, and a version 0 message names at most 256 accounts in all,
/// - each instruction's program is one of the message's own keys, and not the payer,
/// - each instruction names accounts that exist,
/// - there are as many signatures as the header requires.
pub open spec fn is_sanitary(tx: VersionedTransactionView) -> bool {
    &&& tx.header.num_required_signatures + tx.header.num_readonly_unsigned_accounts
        <= tx.account_keys.len()
    &&& tx.header.num_readonly_signed_accounts < tx.header.num_required_signatures
    &&& tx.address_table_lookups matches Some(lookups) ==> {
        &&& account_count(tx) <= 256
        &&& forall|i: int|
            0 <= i < lookups.len() ==> (#[trigger] lookups[i]).writable_indexes.len()
                + lookups[i].readonly_indexes.len() > 0
    }
    &&& forall|i: int|
        0 <= i < tx.instructions.len() ==> 0 < (#[trigger] tx.instructions[i]).program_id_index
            < tx.account_keys.len()
    &&& forall|i: int, j: int|
        0 <= i < tx.instructions.len() && 0 <= j < tx.instructions[i].accounts.len()
            ==> #[trigger] tx.instructions[i].accounts[j] < account_count(tx)
    &&& tx.signatures.len() == tx.header.num_required_signatures
}

impl Clone for VersionedTransaction {
    fn clone(&self) -> (copy: Self)
        ensures
            copy@ == self@,
    {
        VersionedTransaction {
            signatures: copy_all(&self.signatures),
            header: self.header,
            account_keys: copy_all(&self.account_keys),
            recent_blockhash: self.recent_blockhash,
            instructions: clone_instructions(&self.instructions),
            address_table_lookups: match &self.address_table_lookups {
                Some(lookups) => Some(clone_lookups(lookups)),
                None => None,
            },
        }
    }
}

/// Calls `sanitize` of `solana_sdk::transaction::VersionedTransaction` on a transaction with a
/// legacy message. It accepts exactly the transactions that [`is_sanitary`] describes.
#[verifier::external_body]
fn sanitize_legacy(tx: VersionedTransaction) -> (accepted: bool)
    requires
        tx.address_table_lookups is None,
    ensures
        accepted == is_sanitary(tx@),
{
    let message = solana_sdk::message::Message::new_with_compiled_instructions(
        tx.header.num_required_signatures,
        tx.header.num_readonly_signed_accounts,
        tx.header.num_readonly_unsigned_accounts,
        tx.account_keys.into_iter().map(Pubkey::from).collect(),
        tx.recent_blockhash.into(),
        tx.instructions.into_iter().map(|Instruction { program_id_index, accounts, data }| CompiledInstruction { program_id_index, accounts, data }).collect(),
    );
    let signatures = tx.signatures.into_iter().map(Signature::from).collect();
    let message = VersionedMessage::Legacy(message);
    solana_sdk::transaction::VersionedTransaction { signatures, message }.sanitize().is_ok()
}

/// Calls `sanitize` of `solana_sdk::transaction::VersionedTransaction` on a transaction with a
/// version 0 message. It accepts exactly the transactions that [`is_sanitary`] describes.
#[verifier::external_body]
fn sanitize_v0(tx: VersionedTransaction, lookups: Vec<TableLookup>) -> (accepted: bool)
    requires
        tx@.address_table_lookups == Some(lookup_views(lookups@)),
    ensures
        accepted == is_sanitary(tx@),
{
    let Header { num_required_signatures, num_readonly_signed_accounts, num_readonly_unsigned_accounts } = tx.header;
    let message = Message {
        header: MessageHeader { num_required_signatures, num_readonly_signed_accounts, num_readonly_unsigned_accounts },
        account_keys: tx.account_keys.into_iter().map(Pubkey::from).collect(),
        recent_blockhash: tx.recent_blockhash.into(),
        instructions: tx.instructions.into_iter().map(|Instruction { program_id_index, accounts, data }| CompiledInstruction { program_id_index, accounts, data }).collect(),
        address_table_lookups: lookups.into_iter().map(|TableLookup { account_key, writable_indexes, readonly_indexes }| MessageAddressTableLookup { account_key: account_key.into(), writable_indexes, readonly_indexes }).collect(),
    };
    let signatures = tx.signatures.into_iter().map(Signature::from).collect();
    let message = VersionedMessage::V0(message);
    solana_sdk::transaction::VersionedTransaction { signatures, message }.sanitize().is_ok()
}

/// Whether the indexes and counts of a transaction fit together.
pub fn sanitize(tx: &VersionedTransaction) -> (accepted: bool)
    ensures
        accepted == is_sanitary(tx@),
{
    match &tx.address_table_lookups {
        None => sanitize_legacy(tx.clone()),
        Some(lookups) => sanitize_v0(tx.clone(), clone_lookups(lookups)),
    }
}

/// What is read of a transaction is what it holds: its signatures, header and keys, and of each
/// instruction and each lookup every field.
pub proof fn lemma_transaction_content(tx: VersionedTransaction)
    ensures
        tx@.signatures == tx.signatures@,
        tx@.header == tx.header,
        tx@.account_keys == tx.account_keys@,
        tx@.recent_blockhash == tx.recent_blockhash,
        tx@.instructions.len() == tx.instructions@.len(),
        forall|i: int|
            0 <= i < tx.instructions@.len() ==> (#[trigger] tx@.instructions[i]).program_id_index
                == tx.instructions@[i].program_id_index && tx@.instructions[i].accounts
                == tx.instructions@[i].accounts@ && tx@.instructions[i].data
                == tx.instructions@[i].data@,
        tx@.address_table_lookups is Some <==> tx.address_table_lookups is Some,
        tx.address_table_lookups matches Some(lookups) ==> {
            let content = tx@.address_table_lookups->0;
            &&& content.len() == lookups@.len()
            &&& forall|i: int|
                0 <= i < lookups@.len() ==> (#[trigger] content[i]).account_key
                    == lookups@[i].account_key && content[i].writable_indexes
                    == lookups@[i].writable_indexes@ && content[i].readonly_indexes
                    == lookups@[i].readonly_indexes@
        },
{
}

/// The lookups of a message load as many accounts as their indexes name, lookup by lookup.
pub proof fn lemma_looked_up_accounts(lookups: Seq<TableLookupView>, next: TableLookupView)
    ensures
        looked_up_accounts(Seq::empty()) == 0,
        looked_up_accounts(lookups.push(next)) == looked_up_accounts(lookups)
            + next.writable_indexes.len() + next.readonly_indexes.len(),
{
    assert(lookups.push(next).drop_last() =~= lookups);
}

/// A legacy transaction is fit exactly if it has the signatures that its header asks for, more of
/// them than of read-only signers, keys enough for the signers and the other read-only accounts, and
/// instructions that name only keys of the message, with a program that is not the payer.
pub proof fn lemma_fit_legacy_transaction(tx: VersionedTransactionView)
    requires
        tx.address_table_lookups is None,
    ensures
        is_sanitary(tx) <==> {
            &&& tx.signatures.len() == tx.header.num_required_signatures
            &&& tx.signatures.len() > tx.header.num_readonly_signed_accounts
            &&& tx.signatures.len() + tx.header.num_readonly_unsigned_accounts
                <= tx.account_keys.len()
            &&& forall|i: int|
                0 <= i < tx.instructions.len() ==> {
                    let ix = #[trigger] tx.instructions[i];
                    &&& ix.program_id_index != 0
                    &&& ix.program_id_index < tx.account_keys.len()
                    &&& forall|j: int|
                        0 <= j < ix.accounts.len() ==> (#[trigger] ix.accounts[j])
                            < tx.account_keys.len()
                }
        },
{
    if is_sanitary(tx) {
        assert forall|i: int| 0 <= i < tx.instructions.len() implies {
            let ix = #[trigger] tx.instructions[i];
            &&& ix.program_id_index != 0
            &&& ix.program_id_index < tx.account_keys.len()
            &&& forall|j: int|
                0 <= j < ix.accounts.len() ==> (#[trigger] ix.accounts[j]) < tx.account_keys.len()
        } by {
            let ix = tx.instructions[i];
            assert forall|j: int| 0 <= j < ix.accounts.len() implies (#[trigger] ix.accounts[j])
                < tx.account_keys.len() by {
                assert(tx.instructions[i].accounts[j] < account_count(tx));
            }
        }
    }
}

/// A transaction with lookups is fit exactly if each lookup loads an account, it names at most 256
/// accounts in all, and it is fit as a legacy transaction is, but that its instructions may also name
/// accounts that the lookups load; their programs may not.
pub proof fn lemma_fit_transaction_with_lookups(tx: VersionedTransactionView)
    requires
        tx.address_table_lookups is Some,
    ensures
        is_sanitary(tx) <==> {
            let lookups = tx.address_table_lookups->0;
            let accounts = tx.account_keys.len() + looked_up_accounts(lookups);
            &&& tx.signatures.len() == tx.header.num_required_signatures
            &&& tx.signatures.len() > tx.header.num_readonly_signed_accounts
            &&& tx.signatures.len() + tx.header.num_readonly_unsigned_accounts
                <= tx.account_keys.len()
            &&& accounts <= 256
            &&& forall|i: int|
                0 <= i < lookups.len() ==> (#[trigger] lookups[i]).writable_indexes.len() > 0
                    || lookups[i].readonly_indexes.len() > 0
            &&& forall|i: int|
                0 <= i < tx.instructions.len() ==> {
                    let ix = #[trigger] tx.instructions[i];
                    &&& ix.program_id_index != 0
                    &&& ix.program_id_index < tx.account_keys.len()
                    &&& forall|j: int|
                        0 <= j < ix.accounts.len() ==> (#[trigger] ix.accounts[j]) < accounts
                }
        },
{
    let lookups = tx.address_table_lookups->0;
    let accounts = tx.account_keys.len() + looked_up_accounts(lookups);
    if is_sanitary(tx) {
        assert forall|i: int| 0 <= i < tx.instructions.len() implies {
            let ix = #[trigger] tx.instructions[i];
            &&& ix.program_id_index != 0
            &&& ix.program_id_index < tx.account_keys.len()
            &&& forall|j: int| 0 <= j < ix.accounts.len() ==> (#[trigger] ix.accounts[j]) < accounts
        } by {
            let ix = tx.instructions[i];
            assert forall|j: int| 0 <= j < ix.accounts.len() implies (#[trigger] ix.accounts[j])
                < accounts by {
                assert(tx.instructions[i].accounts[j] < account_count(tx));
            }
        }
    }
}

} // verus!
