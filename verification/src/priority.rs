//! What a transaction offers to pay for its priority.
use solana_program_runtime::compute_budget::{
    ComputeBudget, DEFAULT_INSTRUCTION_COMPUTE_UNIT_LIMIT, MAX_COMPUTE_UNIT_LIMIT,
};
use solana_sdk::borsh0_10::try_from_slice_unchecked;
use solana_sdk::instruction::CompiledInstruction;
use solana_sdk::pubkey::Pubkey;
use vstd::prelude::*;

use crate::transaction::{
    instruction_views, is_sanitary, sanitize, Instruction, InstructionView, VersionedTransaction,
    VersionedTransactionView,
};

verus! {

/// The fee that a transaction pays for its priority, in lamports, the compute units that it asks
/// for, and its priority, in micro-lamports per compute unit.
#[derive(Clone, Copy, Debug, PartialEq, Eq, Structural)]
pub struct PriorityDetails {
    pub fee: u64,
    pub cu_limit: u32,
    pub priority: u64,
}

/// The compute units of an instruction that asks for none.
pub open spec fn default_cu_limit() -> u32 {
    200_000
}

/// The most compute units that a transaction can have.
pub open spec fn max_cu_limit() -> u32 {
    1_400_000
}

/// Reads the constant `DEFAULT_INSTRUCTION_COMPUTE_UNIT_LIMIT` of
/// `solana_program_runtime::compute_budget`, which is 200 000.
#[verifier::external_body]
fn default_instruction_compute_unit_limit() -> (limit: u32)
    ensures
        limit == default_cu_limit(),
{
    DEFAULT_INSTRUCTION_COMPUTE_UNIT_LIMIT
}

/// Reads the constant `MAX_COMPUTE_UNIT_LIMIT` of `solana_program_runtime::compute_budget`, which
/// is 1 400 000.
#[verifier::external_body]
fn max_compute_unit_limit() -> (limit: u32)
    ensures
        limit == max_cu_limit(),
{
    MAX_COMPUTE_UNIT_LIMIT
}

/// An instruction of the compute budget program.
#[derive(Clone, Copy, Debug, PartialEq, Eq, Structural)]
pub enum ComputeBudgetInstruction {
    RequestUnitsDeprecated { units: u32, additional_fee: u32 },
    RequestHeapFrame(u32),
    SetComputeUnitLimit(u32),
    SetComputeUnitPrice(u64),
    SetLoadedAccountsDataSizeLimit(u32),
}

/// The little-endian number in four bytes of `data`.
pub open spec fn le_u32(data: Seq<u8>, at: int) -> u32 {
    (data[at] + 0x100 * data[at + 1] + 0x1_0000 * data[at + 2] + 0x100_0000 * data[at + 3]) as u32
}

/// The little-endian number in eight bytes of `data`.
pub open spec fn le_u64(data: Seq<u8>, at: int) -> u64 {
    (le_u32(data, at) + 0x1_0000_0000 * le_u32(data, at + 4)) as u64
}

/// The compute budget instruction that a byte string begins with: one byte tells the variant, and
/// the variant's numbers follow in little-endian order. Bytes after them do not matter.
pub open spec fn decoded(data: Seq<u8>) -> Option<ComputeBudgetInstruction> {
    if data.len() >= 9 && data[0] == 0 {
        Some(
            ComputeBudgetInstruction::RequestUnitsDeprecated {
                units: le_u32(data, 1),
                additional_fee: le_u32(data, 5),
            },
        )
    } else if data.len() >= 5 && data[0] == 1 {
        Some(ComputeBudgetInstruction::RequestHeapFrame(le_u32(data, 1)))
    } else if data.len() >= 5 && data[0] == 2 {
        Some(ComputeBudgetInstruction::SetComputeUnitLimit(le_u32(data, 1)))
    } else if data.len() >= 9 && data[0] == 3 {
        Some(ComputeBudgetInstruction::SetComputeUnitPrice(le_u64(data, 1)))
    } else if data.len() >= 5 && data[0] == 4 {
        Some(ComputeBudgetInstruction::SetLoadedAccountsDataSizeLimit(le_u32(data, 1)))
    } else {
        None
    }
}

/// Calls `solana_sdk::borsh0_10::try_from_slice_unchecked`, which reads an instruction of the
/// compute budget program from the start of a byte string in borsh format and does not mind bytes
/// that are left over. [`decoded`] says what it reads; `None` stands for its error.
#[verifier::external_body]
fn decode_instruction(data: &Vec<u8>) -> (instruction: Option<ComputeBudgetInstruction>)
    ensures
        instruction == decoded(data@),
{
    match try_from_slice_unchecked(data).ok()? {
        solana_sdk::compute_budget::ComputeBudgetInstruction::RequestUnitsDeprecated { units, additional_fee } => Some(ComputeBudgetInstruction::RequestUnitsDeprecated { units, additional_fee }),
        solana_sdk::compute_budget::ComputeBudgetInstruction::RequestHeapFrame(bytes) => Some(ComputeBudgetInstruction::RequestHeapFrame(bytes)),
        solana_sdk::compute_budget::ComputeBudgetInstruction::SetComputeUnitLimit(units) => Some(ComputeBudgetInstruction::SetComputeUnitLimit(units)),
        solana_sdk::compute_budget::ComputeBudgetInstruction::SetComputeUnitPrice(price) => Some(ComputeBudgetInstruction::SetComputeUnitPrice(price)),
        solana_sdk::compute_budget::ComputeBudgetInstruction::SetLoadedAccountsDataSizeLimit(bytes) => Some(ComputeBudgetInstruction::SetLoadedAccountsDataSizeLimit(bytes)),
    }
}

/// Which programs are called with which bytes.
pub open spec fn invocations(programs: Seq<[u8; 32]>, instructions: Seq<InstructionView>) -> Seq<
    (Seq<u8>, Seq<u8>),
> {
    Seq::new(instructions.len(), |i: int| (programs[i]@, instructions[i].data))
}

/// What the compute budget makes of a list of calls, given which of two optional instructions it
/// supports: the fee and the priority, where it accepts the list, and how many calls at the end of
/// the list it has not read.
pub uninterp spec fn budget_outcome(
    calls: Seq<(Seq<u8>, Seq<u8>)>,
    support_request_units_deprecated: bool,
    support_set_loaded_accounts_data_size_limit: bool,
) -> (Option<(u64, u64)>, nat);

/// Calls `process_instructions` of `solana_program_runtime::compute_budget::ComputeBudget`, then
/// `get_fee` and `get_priority` of what it returns. It reads the calls in turn, and only the
/// program and the bytes of each; it stops at the first one that it refuses and otherwise reads
/// them all. The outcome depends on the calls and the two flags alone; [`budget_outcome`] names
/// it.
#[verifier::external_body]
fn process_instructions(
    programs: &Vec<[u8; 32]>,
    instructions: &Vec<Instruction>,
    compute_unit_limit: u32,
    support_request_units_deprecated: bool,
    support_set_loaded_accounts_data_size_limit: bool,
) -> (outcome: (Option<(u64, u64)>, usize))
    requires
        programs@.len() == instructions@.len(),
    ensures
        budget_outcome(
            invocations(programs@, instruction_views(instructions@)),
            support_request_units_deprecated,
            support_set_loaded_accounts_data_size_limit,
        ) == (outcome.0, outcome.1 as nat),
        outcome.1 <= instructions@.len(),
        outcome.0 is Some ==> outcome.1 == 0,
{
    let calls: Vec<(Pubkey, CompiledInstruction)> = programs.iter().zip(instructions.iter()).map(|(program, ix)| (Pubkey::from(*program), CompiledInstruction::new_from_raw_parts(ix.program_id_index, ix.data.clone(), ix.accounts.clone()))).collect();
    let mut unread = calls.iter();
    let details = ComputeBudget::new(u64::from(compute_unit_limit)).process_instructions(
        unread.by_ref().map(|call| (&call.0, &call.1)),
        support_request_units_deprecated,
        support_set_loaded_accounts_data_size_limit,
    );
    (details.ok().map(|details| (details.get_fee(), details.get_priority())), unread.len())
}

/// The compute units that a list of instructions asks for: those of the last instruction whose
/// bytes set a limit, up to the maximum, or the default.
pub open spec fn requested_cu_limit(instructions: Seq<InstructionView>) -> u32
    decreases instructions.len(),
{
    if instructions.len() == 0 {
        default_cu_limit()
    } else {
        match decoded(instructions.last().data) {
            Some(ComputeBudgetInstruction::SetComputeUnitLimit(units)) => if units
                < max_cu_limit() {
                units
            } else {
                max_cu_limit()
            },
            _ => requested_cu_limit(instructions.drop_last()),
        }
    }
}

/// The details of a list of instructions, given its fee and priority, where it has them, and the
/// number of instructions at its end that do not count.
pub open spec fn details_given(
    instructions: Seq<InstructionView>,
    fee_and_priority: Option<(u64, u64)>,
    unread: nat,
) -> PriorityDetails {
    let cu_limit = requested_cu_limit(instructions.take(instructions.len() - unread));
    match fee_and_priority {
        Some((fee, priority)) => PriorityDetails { fee, cu_limit, priority },
        None => PriorityDetails { fee: 0, cu_limit, priority: 0 },
    }
}

/// The programs that the instructions of a transaction call.
pub open spec fn called_programs(tx: VersionedTransactionView) -> Seq<[u8; 32]> {
    tx.instructions.map_values(
        |ix: InstructionView| tx.account_keys[ix.program_id_index as int],
    )
}

/// The details of a transaction. Where the compute budget accepts its instructions, all of them count
/// for the limit; otherwise those that were read. A transaction whose indexes do not fit together has
/// no fee and no priority, and the default limit.
pub open spec fn priority_details(tx: VersionedTransactionView) -> PriorityDetails {
    if is_sanitary(tx) {
        let outcome = budget_outcome(
            invocations(called_programs(tx), tx.instructions),
            true,
            true,
        );
        match outcome.0 {
            Some((fee, priority)) => PriorityDetails {
                fee,
                cu_limit: requested_cu_limit(tx.instructions),
                priority,
            },
            None => details_given(tx.instructions, None, outcome.1),
        }
    } else {
        PriorityDetails { fee: 0, cu_limit: default_cu_limit(), priority: 0 }
    }
}

/// The details of a list of instructions, given its fee and priority, where it has them, and the
/// number of instructions at its end that do not count.
pub fn details_of_instructions(
    instructions: &Vec<Instruction>,
    fee_and_priority: Option<(u64, u64)>,
    unread: usize,
) -> (details: PriorityDetails)
    requires
        unread <= instructions@.len(),
    ensures
        details == details_given(instruction_views(instructions@), fee_and_priority, unread as nat),
{
    let read: usize = instructions.len() - unread;
    let ghost views = instruction_views(instructions@);
    let mut cu_limit: u32 = default_instruction_compute_unit_limit();
    let mut i: usize = 0;
    while i < read
        invariant
            i <= read <= instructions@.len(),
            views == instruction_views(instructions@),
            cu_limit == requested_cu_limit(views.take(i as int)),
        decreases read - i,
    {
        assert(views.take(i + 1).drop_last() =~= views.take(i as int));
        if let Some(ComputeBudgetInstruction::SetComputeUnitLimit(units)) = decode_instruction(
            &instructions[i].data,
        ) {
            let max: u32 = max_compute_unit_limit();
            cu_limit = if units < max {
                units
            } else {
                max
            };
        }
        i = i + 1;
    }
    match fee_and_priority {
        Some((fee, priority)) => PriorityDetails { fee, cu_limit, priority },
        None => PriorityDetails { fee: 0, cu_limit, priority: 0 },
    }
}

/// Computes the details of a transaction.
pub fn compute_priority_details(transaction: &VersionedTransaction) -> (details: PriorityDetails)
    ensures
        details == priority_details(transaction@),
        is_sanitary(transaction@) && budget_outcome(
            invocations(called_programs(transaction@), transaction@.instructions),
            true,
            true,
        ).0 is Some ==> details.cu_limit == requested_cu_limit(transaction@.instructions),
        is_sanitary(transaction@) ==> match budget_outcome(
            Seq::new(
                transaction@.instructions.len(),
                |i: int|
                    (
                        transaction@.account_keys[transaction@.instructions[i].program_id_index as int]@,
                        transaction@.instructions[i].data,
                    ),
            ),
            true,
            true,
        ).0 {
            Some((fee, priority)) => details.fee == fee && details.priority == priority,
            None => details.fee == 0 && details.priority == 0,
        },
        !is_sanitary(transaction@) ==> details.fee == 0 && details.priority == 0
            && details.cu_limit == 200_000,
{
    proof {
        lemma_priority_details(transaction@);
    }
    if !sanitize(transaction) {
        return PriorityDetails {
            fee: 0,
            cu_limit: default_instruction_compute_unit_limit(),
            priority: 0,
        };
    }
    let mut programs: Vec<[u8; 32]> = Vec::new();
    let mut i: usize = 0;
    while i < transaction.instructions.len()
        invariant
            i <= transaction.instructions@.len(),
            is_sanitary(transaction@),
            programs@ == called_programs(transaction@).take(i as int),
        decreases transaction.instructions@.len() - i,
    {
        assert(transaction@.instructions[i as int] == transaction.instructions@[i as int]@);
        programs.push(
            transaction.account_keys[transaction.instructions[i].program_id_index as usize],
        );
        i = i + 1;
    }
    assert(programs@ =~= called_programs(transaction@));
    let (fee_and_priority, unread) = process_instructions(
        &programs,
        &transaction.instructions,
        default_instruction_compute_unit_limit(),
        true,
        true,
    );
    assert(transaction@.instructions.take(transaction@.instructions.len() as int)
        =~= transaction@.instructions);
    details_of_instructions(&transaction.instructions, fee_and_priority, unread)
}

/// No transaction is credited with more compute units than it can have.
pub proof fn lemma_cu_limit_bounded(tx: VersionedTransactionView)
    ensures
        priority_details(tx).cu_limit <= max_cu_limit(),
{
    let outcome = budget_outcome(invocations(called_programs(tx), tx.instructions), true, true);
    lemma_requested_cu_limit_bounded(tx.instructions);
    lemma_requested_cu_limit_bounded(
        tx.instructions.take(tx.instructions.len() - outcome.1),
    );
}

proof fn lemma_requested_cu_limit_bounded(instructions: Seq<InstructionView>)
    ensures
        requested_cu_limit(instructions) <= max_cu_limit(),
    decreases instructions.len(),
{
    if instructions.len() > 0 {
        lemma_requested_cu_limit_bounded(instructions.drop_last());
    }
}

/// The fee and the priority of a fit transaction are those that the compute budget gives for what its
/// instructions call, program by program and in their order; where it refuses them, and of a
/// transaction that is not fit, both are zero.
pub proof fn lemma_priority_details(tx: VersionedTransactionView)
    ensures
        ({
            let calls = Seq::new(
                tx.instructions.len(),
                |i: int|
                    (
                        tx.account_keys[tx.instructions[i].program_id_index as int]@,
                        tx.instructions[i].data,
                    ),
            );
            let details = priority_details(tx);
            &&& is_sanitary(tx) ==> match budget_outcome(calls, true, true).0 {
                Some((fee, priority)) => details.fee == fee && details.priority == priority,
                None => details.fee == 0 && details.priority == 0,
            }
            &&& !is_sanitary(tx) ==> details.fee == 0 && details.priority == 0 && details.cu_limit
                == 200_000
        }),
{
    let calls = Seq::new(
        tx.instructions.len(),
        |i: int|
            (
                tx.account_keys[tx.instructions[i].program_id_index as int]@,
                tx.instructions[i].data,
            ),
    );
    assert(invocations(called_programs(tx), tx.instructions) =~= calls);
}

/// Whether the bytes of an instruction set a limit: a two, and four bytes for the number.
pub open spec fn sets_limit(data: Seq<u8>) -> bool {
    data.len() >= 5 && data[0] == 2
}

/// The limit that bytes set, the lowest byte first.
pub open spec fn limit_set(data: Seq<u8>) -> int {
    data[1] + 256 * data[2] + 65_536 * data[3] + 16_777_216 * data[4]
}

/// Whether `i` is the last of the first `read` instructions that sets a limit, -1 where none does.
pub open spec fn is_last_to_set(instructions: Seq<InstructionView>, read: int, i: int) -> bool {
    &&& -1 <= i < read
    &&& i >= 0 ==> sets_limit(instructions[i].data)
    &&& forall|j: int| i < j < read ==> !sets_limit((#[trigger] instructions[j]).data)
}

/// `limit` is what the first `read` instructions ask for: what the last of them that sets a limit
/// sets, but at most 1 400 000, and 200 000 where none of them does.
pub open spec fn is_limit_of(instructions: Seq<InstructionView>, read: int, limit: u32) -> bool {
    exists|i: int|
        {
            &&& #[trigger] is_last_to_set(instructions, read, i)
            &&& i == -1 ==> limit == 200_000
            &&& i >= 0 && limit_set(instructions[i].data) <= 1_400_000 ==> limit == limit_set(
                instructions[i].data,
            )
            &&& i >= 0 && limit_set(instructions[i].data) > 1_400_000 ==> limit == 1_400_000
        }
}

/// The compute units that instructions ask for are those that the last one that sets a limit sets.
pub proof fn lemma_requested_cu_limit(instructions: Seq<InstructionView>)
    ensures
        is_limit_of(
            instructions,
            instructions.len() as int,
            requested_cu_limit(instructions),
        ),
    decreases instructions.len(),
{
    let n = instructions.len() as int;
    if n == 0 {
        assert(is_last_to_set(instructions, n, -1));
    } else {
        let data = instructions[n - 1].data;
        let before = instructions.drop_last();
        if sets_limit(data) {
            assert(limit_set(data) == le_u32(data, 1));
            assert(is_last_to_set(instructions, n, n - 1));
        } else {
            lemma_requested_cu_limit(before);
            let i = choose|i: int|
                {
                    &&& #[trigger] is_last_to_set(before, n - 1, i)
                    &&& i == -1 ==> requested_cu_limit(before) == 200_000
                    &&& i >= 0 && limit_set(before[i].data) <= 1_400_000 ==> requested_cu_limit(
                        before,
                    ) == limit_set(before[i].data)
                    &&& i >= 0 && limit_set(before[i].data) > 1_400_000 ==> requested_cu_limit(
                        before,
                    ) == 1_400_000
                };
            assert forall|j: int| i < j < n implies !sets_limit((#[trigger] instructions[j]).data) by {
                if j < n - 1 {
                    assert(before[j] == instructions[j]);
                }
            }
            assert(is_last_to_set(instructions, n, i));
        }
    }
}

/// The limit of a list of instructions is what those of them ask for that were read, whether or not it
/// has a fee and a priority; and these are the given ones, or zero where there are none.
pub proof fn lemma_details_given(
    instructions: Seq<InstructionView>,
    fee_and_priority: Option<(u64, u64)>,
    unread: nat,
)
    requires
        unread <= instructions.len(),
    ensures
        ({
            let details = details_given(instructions, fee_and_priority, unread);
            &&& is_limit_of(instructions, instructions.len() - unread, details.cu_limit)
            &&& fee_and_priority is Some ==> (details.fee, details.priority) == fee_and_priority->0
            &&& fee_and_priority is None ==> details.fee == 0 && details.priority == 0
        }),
{
    let read = instructions.take(instructions.len() - unread);
    lemma_requested_cu_limit(read);
    lemma_limit_of_prefix(instructions, read.len() as int, requested_cu_limit(read));
}

/// Only the instructions that were read bear on the limit.
proof fn lemma_limit_of_prefix(instructions: Seq<InstructionView>, read: int, limit: u32)
    requires
        0 <= read <= instructions.len(),
        is_limit_of(instructions.take(read), read, limit),
    ensures
        is_limit_of(instructions, read, limit),
{
    let prefix = instructions.take(read);
    let i = choose|i: int|
        {
            &&& #[trigger] is_last_to_set(prefix, read, i)
            &&& i == -1 ==> limit == 200_000
            &&& i >= 0 && limit_set(prefix[i].data) <= 1_400_000 ==> limit == limit_set(
                prefix[i].data,
            )
            &&& i >= 0 && limit_set(prefix[i].data) > 1_400_000 ==> limit == 1_400_000
        };
    assert forall|j: int| i < j < read implies !sets_limit((#[trigger] instructions[j]).data) by {
        assert(prefix[j] == instructions[j]);
    }
    assert(is_last_to_set(instructions, read, i));
}

/// The limit of a fit transaction is what its instructions ask for: all of them where the compute
/// budget accepts them, otherwise those that it has read.
pub proof fn lemma_cu_limit(tx: VersionedTransactionView)
    requires
        is_sanitary(tx),
    ensures
        ({
            let calls = Seq::new(
                tx.instructions.len(),
                |i: int|
                    (
                        tx.account_keys[tx.instructions[i].program_id_index as int]@,
                        tx.instructions[i].data,
                    ),
            );
            let outcome = budget_outcome(calls, true, true);
            let limit = priority_details(tx).cu_limit;
            let n = tx.instructions.len() as int;
            &&& outcome.0 is Some ==> is_limit_of(tx.instructions, n, limit)
            &&& outcome.0 is None && outcome.1 <= n ==> is_limit_of(
                tx.instructions,
                n - outcome.1,
                limit,
            )
        }),
{
    let calls = Seq::new(
        tx.instructions.len(),
        |i: int|
            (
                tx.account_keys[tx.instructions[i].program_id_index as int]@,
                tx.instructions[i].data,
            ),
    );
    let outcome = budget_outcome(calls, true, true);
    assert(invocations(called_programs(tx), tx.instructions) =~= calls);
    lemma_requested_cu_limit(tx.instructions);
    if outcome.0 is None && outcome.1 <= tx.instructions.len() {
        lemma_details_given(tx.instructions, None, outcome.1);
    }
}

} // verus!
