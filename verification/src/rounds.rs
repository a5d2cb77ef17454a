//! What retry rounds do to the queue over time.
use vstd::prelude::*;

use crate::transaction_store::{
    hands_out, is_queue, is_shed_to, lemma_spent_signatures, lists_keys, spent_signatures,
    TransactionDataView,
};
use crate::txn_sender::{
    is_retry_round, is_round_with, makes_round, RetryRoundView, TxnSenderView,
};

verus! {

/// No transaction has been retried more often than it may be.
pub open spec fn is_within_max_retries(queue: Map<Seq<char>, TransactionDataView>) -> bool {
    forall|key: Seq<char>| #[trigger]
        queue.contains_key(key) ==> queue[key].retry_count <= queue[key].max_retries
}

/// A round sends each transaction that shedding left in the queue, and as many as these are. A queue
/// that is not over its limit, or has none, is not shed.
pub proof fn lemma_retry_round(
    before: Map<Seq<char>, TransactionDataView>,
    limit: Option<usize>,
    kept: Map<Seq<char>, TransactionDataView>,
    after: Map<Seq<char>, TransactionDataView>,
    wires: Seq<Seq<u8>>,
    spent: Seq<Seq<char>>,
)
    requires
        is_queue(before),
        is_round_with(before, limit, kept, after, wires, spent),
    ensures
        is_queue(kept),
        is_queue(after),
        wires.len() == kept.len(),
        forall|key: Seq<char>| #[trigger]
            kept.contains_key(key) ==> wires.contains(kept[key].wire_transaction),
        limit is None || before.len() <= limit->0 ==> kept == before,
        exists|keys: Seq<Seq<char>>|
            {
                &&& keys.no_duplicates()
                &&& #[trigger] keys.to_set() == kept.dom()
                &&& wires.len() == keys.len()
                &&& forall|i: int|
                    0 <= i < wires.len() ==> #[trigger] wires[i] == kept[keys[i]].wire_transaction
            },
        forall|key: Seq<char>| #[trigger]
            spent.contains(key) <==> kept.contains_key(key) && kept[key].retry_count
                >= kept[key].max_retries,
        spent.no_duplicates(),
{
    let keys = choose|keys: Seq<Seq<char>>| hands_out(keys, kept, wires, spent);
    lemma_shed_is_queue(before, limit, kept);
    keys.unique_seq_to_set();
    assert(keys.to_set() =~= kept.dom());
    lemma_spent_signatures(keys, kept);
    lemma_spent_once(keys, kept);
    assert forall|key: Seq<char>| #[trigger] kept.contains_key(key) implies wires.contains(
        kept[key].wire_transaction,
    ) by {
        assert(keys.contains(key));
        let i = keys.index_of(key);
        assert(wires[i] == kept[key].wire_transaction);
    }
    assert(after.dom().subset_of(kept.dom()));
    vstd::set_lib::lemma_set_subset_finite(kept.dom(), after.dom());
    assert forall|key: Seq<char>| #[trigger] after.contains_key(key) implies after[key].is_signed()
        && after[key].signature() == key by {
        assert(kept.contains_key(key));
    }
}

/// What is picked from a list without duplicates has none.
proof fn lemma_filter_keeps_distinct(keys: Seq<Seq<char>>, picks: spec_fn(Seq<char>) -> bool)
    requires
        keys.no_duplicates(),
    ensures
        keys.filter(picks).no_duplicates(),
    decreases keys.len(),
{
    if keys.len() > 0 {
        let before = keys.drop_last();
        lemma_filter_keeps_distinct(before, picks);
        assert(keys =~= before.push(keys.last()));
        before.lemma_filter_push(keys.last(), picks);
        let picked = before.filter(picks);
        assert forall|i: int| 0 <= i < picked.len() implies #[trigger] picked[i] != keys.last() by {
            before.lemma_filter_contains_rev(picks, picked[i]);
            let k = before.index_of(picked[i]);
            assert(keys[k] != keys[keys.len() - 1]);
        }
    }
}

/// A walk through a queue reports no signature twice.
proof fn lemma_spent_once(keys: Seq<Seq<char>>, queue: Map<Seq<char>, TransactionDataView>)
    requires
        is_queue(queue),
        lists_keys(keys, queue),
    ensures
        spent_signatures(keys, queue).no_duplicates(),
{
    let is_spent = |key: Seq<char>| queue[key].is_exhausted();
    let spent_keys = keys.filter(is_spent);
    let spent = spent_signatures(keys, queue);
    lemma_filter_keeps_distinct(keys, is_spent);
    assert forall|i: int| 0 <= i < spent_keys.len() implies spent[i] == #[trigger] spent_keys[i] by {
        keys.lemma_filter_contains_rev(is_spent, spent_keys[i]);
        assert(keys.contains(spent_keys[i]));
        assert(queue.contains_key(spent_keys[i]));
    }
    assert(spent =~= spent_keys);
}

/// Shedding leaves a queue without a limit, or within it, as it is. Of a queue over its limit it leaves
/// one transaction more than the limit, each as it was, and none that has been retried more often than
/// one that goes. What is reported is by how much the queue was over its limit.
pub proof fn lemma_shedding(
    before: TxnSenderView,
    kept: Map<Seq<char>, TransactionDataView>,
    after: TxnSenderView,
    round: RetryRoundView,
)
    requires
        makes_round(before, after, round),
        is_round_with(
            before.queue,
            before.max_retry_queue_size,
            kept,
            after.queue,
            round.wire_transactions,
            round.reached_max_retries,
        ),
    ensures
        after.validators == before.validators,
        after.max_retry_queue_size == before.max_retry_queue_size,
        after.txn_send_retry_interval_seconds == before.txn_send_retry_interval_seconds,
        round.queue_length == before.queue.len(),
        before.max_retry_queue_size is None ==> kept == before.queue && round.dropped is None,
        before.max_retry_queue_size matches Some(limit) ==> {
            &&& before.queue.len() <= limit ==> kept == before.queue && round.dropped is None
            &&& before.queue.len() > limit ==> {
                &&& kept.len() == limit + 1
                &&& round.dropped is Some
                &&& round.dropped->0 == before.queue.len() - limit
                &&& forall|key: Seq<char>| #[trigger]
                    kept.contains_key(key) ==> before.queue.contains_key(key) && kept[key]
                        == before.queue[key]
                &&& forall|stays: Seq<char>, goes: Seq<char>|
                    #![trigger kept.contains_key(stays), before.queue.contains_key(goes)]
                    kept.contains_key(stays) && before.queue.contains_key(goes)
                        && !kept.contains_key(goes) ==> before.queue[stays].retry_count
                        <= before.queue[goes].retry_count
            }
        },
{
}

proof fn lemma_shed_is_queue(
    queue: Map<Seq<char>, TransactionDataView>,
    limit: Option<usize>,
    kept: Map<Seq<char>, TransactionDataView>,
)
    requires
        is_queue(queue),
        is_shed_to(queue, limit, kept),
    ensures
        is_queue(kept),
        kept.submap_of(queue),
{
    assert(kept.dom().subset_of(queue.dom()));
    vstd::set_lib::lemma_set_subset_finite(queue.dom(), kept.dom());
    assert forall|key: Seq<char>| #[trigger] kept.contains_key(key) implies kept[key].is_signed()
        && kept[key].signature() == key by {
        assert(queue.contains_key(key));
        assert(queue[key] == kept[key]);
    }
}

/// A round sends a transaction that is not shed. If it may be retried once more, then it stays in the
/// queue, with one more retry counted and nothing else changed; otherwise it is reported as exhausted
/// and leaves the queue.
pub proof fn lemma_transaction_in_round(
    before: Map<Seq<char>, TransactionDataView>,
    limit: Option<usize>,
    kept: Map<Seq<char>, TransactionDataView>,
    after: Map<Seq<char>, TransactionDataView>,
    wires: Seq<Seq<u8>>,
    spent: Seq<Seq<char>>,
    key: Seq<char>,
)
    requires
        is_queue(before),
        is_round_with(before, limit, kept, after, wires, spent),
        kept.contains_key(key),
    ensures
        before.contains_key(key),
        wires.contains(before[key].wire_transaction),
        before[key].retry_count < before[key].max_retries ==> {
            &&& after.contains_key(key)
            &&& after[key] == (TransactionDataView {
                retry_count: (before[key].retry_count + 1) as usize,
                ..before[key]
            })
            &&& !spent.contains(key)
        },
        before[key].retry_count >= before[key].max_retries ==> !after.contains_key(key)
            && spent.contains(key),
{
    let keys = choose|keys: Seq<Seq<char>>| hands_out(keys, kept, wires, spent);
    lemma_shed_is_queue(before, limit, kept);
    lemma_retry_round(before, limit, kept, after, wires, spent);
    lemma_spent_signatures(keys, kept);
    assert(before.contains_key(key) && kept[key] == before[key]);
}

/// What is shed, or was not in the queue, is not in it after the round.
pub proof fn lemma_round_adds_nothing(
    before: Map<Seq<char>, TransactionDataView>,
    limit: Option<usize>,
    kept: Map<Seq<char>, TransactionDataView>,
    after: Map<Seq<char>, TransactionDataView>,
    wires: Seq<Seq<u8>>,
    spent: Seq<Seq<char>>,
    key: Seq<char>,
)
    requires
        is_queue(before),
        is_round_with(before, limit, kept, after, wires, spent),
    ensures
        !before.contains_key(key) ==> !kept.contains_key(key),
        !kept.contains_key(key) ==> !after.contains_key(key) && !spent.contains(key),
{
    let keys = choose|keys: Seq<Seq<char>>| hands_out(keys, kept, wires, spent);
    lemma_shed_is_queue(before, limit, kept);
    lemma_spent_signatures(keys, kept);
}

/// A round never counts more retries than a transaction may have.
pub proof fn lemma_retries_stay_within_max(
    before: Map<Seq<char>, TransactionDataView>,
    limit: Option<usize>,
    after: Map<Seq<char>, TransactionDataView>,
    wires: Seq<Seq<u8>>,
    spent: Seq<Seq<char>>,
)
    requires
        is_queue(before),
        is_within_max_retries(before),
        is_retry_round(before, limit, after, wires, spent),
    ensures
        is_within_max_retries(after),
{
    let kept = choose|kept: Map<Seq<char>, TransactionDataView>|
        is_round_with(before, limit, kept, after, wires, spent);
    assert forall|key: Seq<char>| #[trigger] after.contains_key(key) implies after[key].retry_count
        <= after[key].max_retries by {
        assert(kept.contains_key(key));
        lemma_transaction_in_round(before, limit, kept, after, wires, spent, key);
    }
}

/// A round leaves at most one transaction more than the limit in the queue.
pub proof fn lemma_round_keeps_limit(
    before: Map<Seq<char>, TransactionDataView>,
    limit: usize,
    after: Map<Seq<char>, TransactionDataView>,
    wires: Seq<Seq<u8>>,
    spent: Seq<Seq<char>>,
)
    requires
        is_queue(before),
        is_retry_round(before, Some(limit), after, wires, spent),
    ensures
        after.len() <= limit + 1,
{
    let kept = choose|kept: Map<Seq<char>, TransactionDataView>|
        is_round_with(before, Some(limit), kept, after, wires, spent);
    lemma_shed_is_queue(before, Some(limit), kept);
    assert(after.dom().subset_of(kept.dom()));
    vstd::set_lib::lemma_len_subset(after.dom(), kept.dom());
}

/// One retry round in the life of a queue.
pub struct QueueRound {
    /// The queue at the start of the round.
    pub before: Map<Seq<char>, TransactionDataView>,
    /// What shedding left of it.
    pub kept: Map<Seq<char>, TransactionDataView>,
    /// The queue at the end of the round.
    pub after: Map<Seq<char>, TransactionDataView>,
    /// What the round sends.
    pub wires: Seq<Seq<u8>>,
    /// The signatures of the transactions that are sent for the last time.
    pub spent: Seq<Seq<char>>,
}

/// Whether two queues agree on a key.
pub open spec fn same_entry(
    first: Map<Seq<char>, TransactionDataView>,
    second: Map<Seq<char>, TransactionDataView>,
    key: Seq<char>,
) -> bool {
    &&& first.contains_key(key) == second.contains_key(key)
    &&& first.contains_key(key) ==> first[key] == second[key]
}

/// Consecutive retry rounds of one queue in which a key is never shed, and between which nobody
/// touches the entry of the key. The rest of the queue may change between the rounds.
pub open spec fn leave_alone(rounds: Seq<QueueRound>, limit: Option<usize>, key: Seq<char>) -> bool {
    &&& forall|i: int|
        0 <= i < rounds.len() ==> {
            let round = #[trigger] rounds[i];
            &&& is_queue(round.before)
            &&& is_round_with(
                round.before,
                limit,
                round.kept,
                round.after,
                round.wires,
                round.spent,
            )
            &&& round.before.contains_key(key) ==> round.kept.contains_key(key)
        }
    &&& forall|i: int, j: int|
        0 <= i < rounds.len() && 0 <= j < rounds.len() && j == i + 1 ==> same_entry(
            (#[trigger] rounds[i]).after,
            (#[trigger] rounds[j]).before,
            key,
        )
}

/// A transaction that is never shed, and that nobody else touches, is sent in one round more than it
/// has retries left, whatever the limit and whatever happens to other transactions. In each of these
/// rounds but the last it stays in the queue with one more retry counted and nothing else changed;
/// the last one reports it as exhausted and takes it out, and no later round sends it.
pub proof fn lemma_lifetime(
    rounds: Seq<QueueRound>,
    limit: Option<usize>,
    key: Seq<char>,
    i: int,
)
    requires
        leave_alone(rounds, limit, key),
        0 <= i < rounds.len(),
        rounds[0].before.contains_key(key),
    ensures
        ({
            let first = rounds[0].before[key];
            let left = first.retries_left();
            let round = rounds[i];
            &&& round.kept.contains_key(key) <==> i <= left
            &&& i <= left ==> {
                &&& round.before.contains_key(key)
                &&& round.before[key] == (TransactionDataView {
                    retry_count: (first.retry_count + i) as usize,
                    ..first
                })
                &&& round.wires.contains(first.wire_transaction)
            }
            &&& round.after.contains_key(key) <==> i < left
            &&& i < left ==> round.after[key] == (TransactionDataView {
                retry_count: (first.retry_count + i + 1) as usize,
                ..first
            })
            &&& round.spent.contains(key) <==> i == left
        }),
    decreases i,
{
    let round = rounds[i];
    if i > 0 {
        lemma_lifetime(rounds, limit, key, i - 1);
        assert(same_entry(rounds[i - 1].after, round.before, key));
    }
    lemma_round_adds_nothing(
        round.before,
        limit,
        round.kept,
        round.after,
        round.wires,
        round.spent,
        key,
    );
    if round.before.contains_key(key) {
        lemma_transaction_in_round(
            round.before,
            limit,
            round.kept,
            round.after,
            round.wires,
            round.spent,
            key,
        );
    }
}

/// The retry interval in seconds does not bear on a round: of two senders that differ in it alone,
/// one can make a round exactly if the other can, with the same queue after it.
pub proof fn lemma_interval_does_not_matter(
    first: TxnSenderView,
    second: TxnSenderView,
    queue: Map<Seq<char>, TransactionDataView>,
    round: RetryRoundView,
)
    requires
        second == (TxnSenderView {
            txn_send_retry_interval_seconds: second.txn_send_retry_interval_seconds,
            ..first
        }),
    ensures
        makes_round(first, (TxnSenderView { queue, ..first }), round) <==> makes_round(
            second,
            (TxnSenderView { queue, ..second }),
            round,
        ),
        is_retry_round(
            first.queue,
            first.max_retry_queue_size,
            queue,
            round.wire_transactions,
            round.reached_max_retries,
        ) <==> is_retry_round(
            second.queue,
            second.max_retry_queue_size,
            queue,
            round.wire_transactions,
            round.reached_max_retries,
        ),
{
}

} // verus!
