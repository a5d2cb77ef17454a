//! The transactions that wait for confirmation.
use dashmap::DashMap;
use vstd::prelude::*;

use crate::keys::{signature_text, signature_to_string};
use crate::retry_order::{
    is_stable_order, lemma_stable_order_complete, lemma_stable_order_place, precedes, stable_order,
};
use crate::text::{optional_text, texts};
use crate::transaction::{copy_all, VersionedTransaction, VersionedTransactionView};

verus! {

/// Who sent a transaction.
pub struct RequestMetadata {
    pub api_key: String,
}

/// A transaction together with the state of its delivery.
pub struct TransactionData {
    /// The transaction as it goes over the wire.
    pub wire_transaction: Vec<u8>,
    pub versioned_transaction: VersionedTransaction,
    /// When the transaction came in.
    pub sent_at: std::time::Instant,
    /// How often the transaction was sent again.
    pub retry_count: usize,
    pub max_retries: usize,
    pub request_metadata: Option<RequestMetadata>,
}

/// The content of a [`TransactionData`].
pub struct TransactionDataView {
    pub wire_transaction: Seq<u8>,
    pub versioned_transaction: VersionedTransactionView,
    pub sent_at: std::time::Instant,
    pub retry_count: usize,
    pub max_retries: usize,
    pub api_key: Option<Seq<char>>,
}

impl View for TransactionData {
    type V = TransactionDataView;

    open spec fn view(&self) -> TransactionDataView {
        TransactionDataView {
            wire_transaction: self.wire_transaction@,
            versioned_transaction: self.versioned_transaction@,
            sent_at: self.sent_at,
            retry_count: self.retry_count,
            max_retries: self.max_retries,
            api_key: match self.request_metadata {
                Some(metadata) => Some(metadata.api_key@),
                None => None,
            },
        }
    }
}

impl Clone for RequestMetadata {
    fn clone(&self) -> (copy: Self)
        ensures
            copy.api_key@ == self.api_key@,
    {
        RequestMetadata { api_key: self.api_key.clone() }
    }
}

impl Clone for TransactionData {
    fn clone(&self) -> (copy: Self)
        ensures
            copy@ == self@,
    {
        TransactionData {
            wire_transaction: copy_all(&self.wire_transaction),
            versioned_transaction: self.versioned_transaction.clone(),
            sent_at: self.sent_at,
            retry_count: self.retry_count,
            max_retries: self.max_retries,
            request_metadata: match &self.request_metadata {
                Some(metadata) => Some(metadata.clone()),
                None => None,
            },
        }
    }
}

impl TransactionDataView {
    /// A transaction without signatures has no name to be found by.
    pub open spec fn is_signed(self) -> bool {
        self.versioned_transaction.signatures.len() > 0
    }

    /// The text of the first signature, by which a transaction is known.
    pub open spec fn signature(self) -> Seq<char> {
        signature_text(self.versioned_transaction.signatures[0]@)
    }

    /// The transaction has been sent again as often as it may be.
    pub open spec fn is_exhausted(self) -> bool {
        self.retry_count >= self.max_retries
    }

    /// How often the transaction may still be retried.
    pub open spec fn retries_left(self) -> int {
        if self.is_exhausted() {
            0
        } else {
            self.max_retries - self.retry_count
        }
    }

    /// The transaction after one more retry was counted; an exhausted one stays as it is.
    pub open spec fn retried(self) -> TransactionDataView {
        if self.is_exhausted() {
            self
        } else {
            TransactionDataView { retry_count: (self.retry_count + 1) as usize, ..self }
        }
    }
}

/// The text of the transaction's first signature, `None` for a transaction without signatures.
pub fn get_signature(transaction: &TransactionData) -> (signature: Option<String>)
    ensures
        optional_text(signature) == (if transaction@.is_signed() {
            Some(transaction@.signature())
        } else {
            None
        }),
        signature is Some <==> transaction.versioned_transaction.signatures@.len() > 0,
        signature is Some ==> signature->0@ == signature_text(
            transaction.versioned_transaction.signatures@[0]@,
        ),
{
    if transaction.versioned_transaction.signatures.len() == 0 {
        None
    } else {
        Some(signature_to_string(&transaction.versioned_transaction.signatures[0]))
    }
}

/// What a retry round does with one transaction.
pub struct RetryStep {
    /// The bytes to send.
    pub wire_transaction: Vec<u8>,
    /// The signature of a transaction that is sent for the last time.
    pub reached_max_retries: Option<String>,
}

/// The content of a [`RetryStep`].
pub struct RetryStepView {
    pub wire_transaction: Seq<u8>,
    pub reached_max_retries: Option<Seq<char>>,
}

impl View for RetryStep {
    type V = RetryStepView;

    open spec fn view(&self) -> RetryStepView {
        RetryStepView {
            wire_transaction: self.wire_transaction@,
            reached_max_retries: optional_text(self.reached_max_retries),
        }
    }
}

/// The step that a retry round takes for a transaction.
pub open spec fn step_of(transaction: TransactionDataView) -> RetryStepView {
    RetryStepView {
        wire_transaction: transaction.wire_transaction,
        reached_max_retries: if transaction.is_exhausted() {
            Some(transaction.signature())
        } else {
            None
        },
    }
}

/// Takes a transaction's step in a retry round: its bytes are handed out, and either one more
/// retry is counted or the transaction is reported as exhausted.
pub fn retry_step(transaction: &mut TransactionData) -> (step: RetryStep)
    requires
        old(transaction)@.is_exhausted() ==> old(transaction)@.is_signed(),
    ensures
        step@ == step_of(old(transaction)@),
        final(transaction)@ == old(transaction)@.retried(),
        step.wire_transaction@ == old(transaction).wire_transaction@,
        old(transaction).retry_count < old(transaction).max_retries ==> {
            &&& step.reached_max_retries is None
            &&& final(transaction).retry_count == old(transaction).retry_count + 1
        },
        old(transaction).retry_count >= old(transaction).max_retries ==> {
            &&& step.reached_max_retries is Some
            &&& step.reached_max_retries->0@ == signature_text(
                old(transaction).versioned_transaction.signatures@[0]@,
            )
            &&& final(transaction).retry_count == old(transaction).retry_count
        },
        *final(transaction) == (TransactionData {
            retry_count: final(transaction).retry_count,
            ..*old(transaction)
        }),
{
    let wire_transaction = copy_all(&transaction.wire_transaction);
    if transaction.retry_count >= transaction.max_retries {
        let reached_max_retries = get_signature(transaction);
        RetryStep { wire_transaction, reached_max_retries }
    } else {
        transaction.retry_count = transaction.retry_count + 1;
        RetryStep { wire_transaction, reached_max_retries: None }
    }
}

/// What a map of transactions holds, by key.
pub uninterp spec fn held_transactions(transactions: DashMap<String, TransactionData>) -> Map<
    Seq<char>,
    TransactionDataView,
>;

/// Calls `DashMap::new`, which gives an empty map.
#[verifier::external_body]
fn transactions_new() -> (transactions: DashMap<String, TransactionData>)
    ensures
        held_transactions(transactions).dom() == Set::<Seq<char>>::empty(),
{
    DashMap::new()
}

/// Calls `DashMap::len`, which counts the entries of the map.
#[verifier::external_body]
fn transactions_len(transactions: &DashMap<String, TransactionData>) -> (len: usize)
    ensures
        len == held_transactions(*transactions).len(),
{
    transactions.len()
}

/// Calls `DashMap::insert`, which puts the value under the key and drops an earlier value.
#[verifier::external_body]
fn transactions_insert(
    transactions: &mut DashMap<String, TransactionData>,
    key: String,
    transaction: TransactionData,
)
    ensures
        held_transactions(*final(transactions)) == held_transactions(*old(transactions)).insert(
            key@,
            transaction@,
        ),
{
    transactions.insert(key, transaction);
}

/// Calls `DashMap::remove`, which takes the entry of the key out of the map and hands out its
/// value, or gives `None` where there is no such entry.
#[verifier::external_body]
fn transactions_remove(transactions: &mut DashMap<String, TransactionData>, key: &String) -> (removed:
    Option<TransactionData>)
    ensures
        held_transactions(*final(transactions)) == held_transactions(*old(transactions)).remove(
            key@,
        ),
        (match removed {
            Some(transaction) => held_transactions(*old(transactions)).contains_key(key@)
                && transaction@ == held_transactions(*old(transactions))[key@],
            None => !held_transactions(*old(transactions)).contains_key(key@),
        }),
{
    transactions.remove(key).map(|(_, transaction)| transaction)
}

/// `keys` lists the keys of `map`, each once, in some order.
pub open spec fn lists_keys<V>(keys: Seq<Seq<char>>, map: Map<Seq<char>, V>) -> bool {
    &&& keys.no_duplicates()
    &&& forall|key: Seq<char>| #[trigger] keys.contains(key) <==> map.contains_key(key)
}

/// The keys in a list of keys and retry counts.
pub open spec fn entry_keys(entries: Seq<(String, usize)>) -> Seq<Seq<char>> {
    entries.map_values(|entry: (String, usize)| entry.0@)
}

/// The counts in a list of keys and retry counts.
pub open spec fn entry_counts(entries: Seq<(String, usize)>) -> Seq<usize> {
    entries.map_values(|entry: (String, usize)| entry.1)
}

/// `entries` lists each transaction of the map once, with its retry count, in some order.
pub open spec fn lists_retry_counts(
    entries: Seq<(String, usize)>,
    held: Map<Seq<char>, TransactionDataView>,
) -> bool {
    &&& lists_keys(entry_keys(entries), held)
    &&& forall|i: int|
        0 <= i < entries.len() ==> (#[trigger] entries[i]).1 == held[entries[i].0@].retry_count
}

/// Calls `DashMap::iter`, which walks through the entries of the map, each once. The order of the
/// walk is left open.
#[verifier::external_body]
fn transactions_iter(transactions: &DashMap<String, TransactionData>) -> (entries: Vec<
    (String, usize),
>)
    ensures
        lists_retry_counts(entries@, held_transactions(*transactions)),
{
    transactions.iter().map(|entry| (entry.key().clone(), entry.value().retry_count)).collect()
}

/// `steps` are the steps of a walk that took every transaction of `before` through its retry step,
/// in the order of `keys`, and left `after`.
pub open spec fn walked_in_order(
    keys: Seq<Seq<char>>,
    before: Map<Seq<char>, TransactionDataView>,
    after: Map<Seq<char>, TransactionDataView>,
    steps: Seq<RetryStep>,
) -> bool {
    &&& lists_keys(keys, before)
    &&& after == before.map_values(|transaction: TransactionDataView| transaction.retried())
    &&& steps.len() == keys.len()
    &&& forall|i: int| 0 <= i < steps.len() ==> (#[trigger] steps[i])@ == step_of(before[keys[i]])
}

/// Calls `DashMap::iter_mut`, which walks through the entries of the map, each once, and gives
/// mutable access to the values; each value goes through [`retry_step`]. The order of the walk is
/// left open.
#[verifier::external_body]
fn transactions_iter_mut(transactions: &mut DashMap<String, TransactionData>) -> (steps: Vec<
    RetryStep,
>)
    requires
        forall|key: Seq<char>| #[trigger]
            held_transactions(*old(transactions)).contains_key(key) ==> held_transactions(
                *old(transactions),
            )[key].is_signed(),
    ensures
        exists|keys: Seq<Seq<char>>|
            walked_in_order(
                keys,
                held_transactions(*old(transactions)),
                held_transactions(*final(transactions)),
                steps@,
            ),
{
    transactions.iter_mut().map(|mut entry| retry_step(entry.value_mut())).collect()
}

/// The keys that load shedding takes from a listed queue: all but the first `max_size + 1` in
/// stable order of retry count.
pub open spec fn shed_keys(
    entries: Seq<(String, usize)>,
    order: Seq<usize>,
    max_size: nat,
) -> Seq<Seq<char>> {
    Seq::new(
        (entries.len() - max_size - 1) as nat,
        |i: int| entries[order[max_size + 1 + i] as int].0@,
    )
}

/// The positions of a list of keys and retry counts that go before a position: those with a smaller
/// count, and those in front of it with the same count.
pub open spec fn positions_ahead(entries: Seq<(String, usize)>, position: int) -> Set<int> {
    Set::new(
        |other: int|
            0 <= other < entries.len() && (entries[other].1 < entries[position].1 || (
            entries[other].1 == entries[position].1 && other < position)),
    )
}

/// Whether a key stands at a position that `n` others go before.
pub open spec fn has_ahead(entries: Seq<(String, usize)>, key: Seq<char>, n: int) -> bool {
    exists|position: int|
        {
            &&& 0 <= position < entries.len()
            &&& entries[position].0@ == key
            &&& (#[trigger] positions_ahead(entries, position)).len() == n
        }
}

/// The keys of the transactions to drop from a queue that is over its limit: the entries are put in
/// ascending order of retry count, entries with equal counts in their given order, and all but the
/// first `max_size + 1` are dropped.
pub fn transactions_to_remove(entries: &Vec<(String, usize)>, max_size: usize) -> (keys: Vec<String>)
    requires
        entries@.len() > max_size,
    ensures
        exists|order: Seq<usize>|
            {
                &&& is_stable_order(order, entry_counts(entries@))
                &&& texts(keys@) == #[trigger] shed_keys(entries@, order, max_size as nat)
            },
        keys@.len() == entries@.len() - max_size - 1,
        forall|k: int|
            0 <= k < keys@.len() ==> has_ahead(entries@, (#[trigger] keys@[k])@, max_size + 1 + k),
{
    let mut counts: Vec<usize> = Vec::new();
    let mut i: usize = 0;
    while i < entries.len()
        invariant
            i <= entries@.len(),
            counts@ == entry_counts(entries@).take(i as int),
        decreases entries@.len() - i,
    {
        counts.push(entries[i].1);
        i = i + 1;
    }
    assert(counts@ == entry_counts(entries@));
    let order = stable_order(&counts);
    let mut keys: Vec<String> = Vec::new();
    let mut next: usize = max_size + 1;
    while next < entries.len()
        invariant
            max_size + 1 <= next <= entries@.len(),
            is_stable_order(order@, entry_counts(entries@)),
            keys@.len() == next - max_size - 1,
            forall|j: int|
                0 <= j < keys@.len() ==> (#[trigger] keys@[j])@ == entries@[order@[max_size + 1
                    + j] as int].0@,
        decreases entries@.len() - next,
    {
        keys.push(entries[order[next]].0.clone());
        next = next + 1;
    }
    assert(texts(keys@) =~= shed_keys(entries@, order@, max_size as nat));
    assert forall|k: int| 0 <= k < keys@.len() implies has_ahead(
        entries@,
        (#[trigger] keys@[k])@,
        max_size + 1 + k,
    ) by {
        let place = max_size + 1 + k;
        let position = order@[place] as int;
        let counts = entry_counts(entries@);
        lemma_stable_order_place(order@, counts, place);
        assert(positions_ahead(entries@, position) =~= Set::new(
            |other: int|
                0 <= other < counts.len() && (counts[other] < counts[position] || (counts[other]
                    == counts[position] && other < position)),
        ));
    }
    keys
}

/// The transactions that wait for confirmation, each under the text of its first signature.
pub struct TransactionStore {
    transactions: DashMap<String, TransactionData>,
}

impl View for TransactionStore {
    type V = Map<Seq<char>, TransactionDataView>;

    closed spec fn view(&self) -> Map<Seq<char>, TransactionDataView> {
        held_transactions(self.transactions)
    }
}

/// Every transaction in the map stands under the text of its own first signature.
pub open spec fn is_keyed_by_signature(held: Map<Seq<char>, TransactionDataView>) -> bool {
    forall|key: Seq<char>| #[trigger]
        held.contains_key(key) ==> held[key].is_signed() && held[key].signature() == key
}

/// The map is finite, and every transaction in it stands under the text of its own first signature.
pub open spec fn is_queue(held: Map<Seq<char>, TransactionDataView>) -> bool {
    &&& held.dom().finite()
    &&& is_keyed_by_signature(held)
}

/// `kept` is what load shedding leaves of `held`. A queue within its limit, or without one, is left
/// alone. Of a queue over its limit, `limit + 1` transactions stay, and none of them has been
/// retried more often than one that goes.
pub open spec fn is_shed_to(
    held: Map<Seq<char>, TransactionDataView>,
    limit: Option<usize>,
    kept: Map<Seq<char>, TransactionDataView>,
) -> bool {
    if limit is Some && held.len() > limit->0 {
        &&& kept.submap_of(held)
        &&& kept.len() == limit->0 + 1
        &&& forall|stays: Seq<char>, goes: Seq<char>|
            kept.contains_key(stays) && held.contains_key(goes) && !kept.contains_key(goes)
                ==> #[trigger] held[stays].retry_count <= #[trigger] held[goes].retry_count
    } else {
        kept == held
    }
}

/// The number of dropped transactions that is reported for a queue of the given length.
pub open spec fn reported_drop(queue_length: nat, limit: Option<usize>) -> Option<nat> {
    if limit is Some && queue_length > limit->0 {
        Some((queue_length - limit->0) as nat)
    } else {
        None
    }
}

/// A listing of a queue is as long as the queue; the keys that are shed are different keys of it,
/// and none of the others has a higher retry count.
proof fn lemma_shed_keys(
    entries: Seq<(String, usize)>,
    order: Seq<usize>,
    max_size: nat,
    held: Map<Seq<char>, TransactionDataView>,
)
    requires
        lists_retry_counts(entries, held),
        is_stable_order(order, entry_counts(entries)),
        max_size < entries.len(),
    ensures
        held.dom().finite(),
        held.len() == entries.len(),
        shed_keys(entries, order, max_size).no_duplicates(),
        forall|i: int|
            0 <= i < shed_keys(entries, order, max_size).len() ==> held.contains_key(
                #[trigger] shed_keys(entries, order, max_size)[i],
            ),
        forall|stays: Seq<char>, goes: Seq<char>|
            held.contains_key(stays) && !shed_keys(entries, order, max_size).contains(stays)
                && shed_keys(entries, order, max_size).contains(goes)
                ==> #[trigger] held[stays].retry_count <= #[trigger] held[goes].retry_count,
{
    let keys = entry_keys(entries);
    let counts = entry_counts(entries);
    let shed = shed_keys(entries, order, max_size);
    keys.unique_seq_to_set();
    assert(keys.to_set() =~= held.dom());
    assert forall|i: int, j: int| 0 <= i < j < shed.len() implies shed[i] != shed[j] by {
        let a = order[max_size + 1 + i];
        let b = order[max_size + 1 + j];
        assert(precedes(counts, a as int, b as int));
        assert(keys[a as int] != keys[b as int]);
    }
    assert forall|i: int| 0 <= i < shed.len() implies held.contains_key(#[trigger] shed[i]) by {
        let a = order[max_size + 1 + i];
        assert(keys[a as int] == shed[i]);
        assert(keys.contains(shed[i]));
    }
    assert forall|stays: Seq<char>, goes: Seq<char>|
        held.contains_key(stays) && !shed.contains(stays) && shed.contains(
            goes,
        ) implies #[trigger] held[stays].retry_count <= #[trigger] held[goes].retry_count by {
        let j = shed.index_of(goes);
        let b = order[max_size + 1 + j];
        assert(entries[b as int].0@ == goes);
        assert(keys.contains(stays));
        let a = keys.index_of(stays);
        assert(entries[a].0@ == stays);
        let place = lemma_stable_order_complete(order, counts, a);
        if place > max_size {
            assert(shed[place - max_size - 1] == stays);
        }
        assert(precedes(counts, order[place] as int, order[max_size + 1 + j] as int));
    }
}

impl TransactionStore {
    /// The store's invariant.
    pub open spec fn wf(&self) -> bool {
        is_queue(self@)
    }

    /// An empty store.
    pub fn new() -> (store: Self)
        ensures
            store.wf(),
            store@ == Map::<Seq<char>, TransactionDataView>::empty(),
    {
        let store = TransactionStore { transactions: transactions_new() };
        assert(store@ =~= Map::<Seq<char>, TransactionDataView>::empty());
        store
    }

    /// The number of transactions in the store.
    pub fn len(&self) -> (len: usize)
        requires
            self.wf(),
        ensures
            len == self@.len(),
    {
        transactions_len(&self.transactions)
    }

    /// Puts a transaction under the text of its first signature. A transaction without signatures
    /// is not stored.
    pub fn add_transaction(&mut self, transaction: TransactionData)
        requires
            old(self).wf(),
        ensures
            final(self).wf(),
            final(self)@ == (if transaction@.is_signed() {
                old(self)@.insert(transaction@.signature(), transaction@)
            } else {
                old(self)@
            }),
            transaction.versioned_transaction.signatures@.len() > 0 ==> {
                let key = signature_text(transaction.versioned_transaction.signatures@[0]@);
                &&& final(self)@.contains_key(key)
                &&& final(self)@[key] == transaction@
                &&& final(self)@.remove(key) == old(self)@.remove(key)
            },
            transaction.versioned_transaction.signatures@.len() == 0 ==> final(self)@ == old(self)@,
    {
        match get_signature(&transaction) {
            Some(signature) => transactions_insert(&mut self.transactions, signature, transaction),
            None => {},
        }
    }

    /// Takes a transaction out of the store.
    pub fn remove_transaction(&mut self, signature: &String) -> (removed: Option<TransactionData>)
        requires
            old(self).wf(),
        ensures
            final(self).wf(),
            final(self)@ == old(self)@.remove(signature@),
            (match removed {
                Some(transaction) => old(self)@.contains_key(signature@) && transaction@ == old(
                    self,
                )@[signature@],
                None => !old(self)@.contains_key(signature@),
            }),
    {
        transactions_remove(&mut self.transactions, signature)
    }

    /// Takes every transaction that a list names out of the store.
    pub fn remove_transactions(&mut self, signatures: &Vec<String>)
        requires
            old(self).wf(),
        ensures
            final(self).wf(),
            final(self)@ == old(self)@.remove_keys(texts(signatures@).to_set()),
            forall|key: Seq<char>| #[trigger]
                final(self)@.contains_key(key) <==> old(self)@.contains_key(key) && forall|i: int|
                    0 <= i < signatures@.len() ==> (#[trigger] signatures@[i])@ != key,
            forall|key: Seq<char>| #[trigger]
                final(self)@.contains_key(key) ==> final(self)@[key] == old(self)@[key],
    {
        let mut i: usize = 0;
        assert(self@ =~= old(self)@.remove_keys(texts(signatures@).take(0).to_set()));
        while i < signatures.len()
            invariant
                i <= signatures@.len(),
                self.wf(),
                self@ == old(self)@.remove_keys(texts(signatures@).take(i as int).to_set()),
            decreases signatures@.len() - i,
        {
            let _ = self.remove_transaction(&signatures[i]);
            proof {
                let all = texts(signatures@);
                assert(all.take(i + 1) =~= all.take(i as int).push(all[i as int]));
                assert(all.take(i + 1).to_set() =~= all.take(i as int).to_set().insert(
                    all[i as int],
                )) by {
                    broadcast use vstd::seq_lib::group_seq_properties;

                }
                assert(self@ =~= old(self)@.remove_keys(all.take(i + 1).to_set()));
            }
            i = i + 1;
        }
        assert(texts(signatures@).take(i as int) =~= texts(signatures@));
        assert forall|key: Seq<char>| texts(signatures@).contains(key) <==> !(forall|i: int|
            0 <= i < signatures@.len() ==> (#[trigger] signatures@[i])@ != key) by {
            if texts(signatures@).contains(key) {
                let k = texts(signatures@).index_of(key);
                assert(signatures@[k]@ == key);
            }
            if exists|i: int| 0 <= i < signatures@.len() && (#[trigger] signatures@[i])@ == key {
                let k = choose|i: int|
                    0 <= i < signatures@.len() && (#[trigger] signatures@[i])@ == key;
                assert(texts(signatures@)[k] == key);
            }
        }
    }

    /// Sheds the transactions with the highest retry counts from a queue that is over its limit.
    /// Returns the number of dropped transactions to report, `None` where the queue was left alone.
    pub fn shed_transactions(&mut self, max_retry_queue_size: Option<usize>) -> (dropped: Option<usize>)
        requires
            old(self).wf(),
        ensures
            final(self).wf(),
            is_shed_to(old(self)@, max_retry_queue_size, final(self)@),
            (match dropped {
                Some(n) => reported_drop(old(self)@.len(), max_retry_queue_size) == Some(n as nat),
                None => reported_drop(old(self)@.len(), max_retry_queue_size) is None,
            }),
            max_retry_queue_size is None || old(self)@.len() <= max_retry_queue_size->0 ==> {
                &&& final(self)@ == old(self)@
                &&& dropped is None
            },
            max_retry_queue_size is Some && old(self)@.len() > max_retry_queue_size->0 ==> {
                &&& dropped is Some
                &&& dropped->0 == old(self)@.len() - max_retry_queue_size->0
                &&& final(self)@.len() == max_retry_queue_size->0 + 1
                &&& forall|key: Seq<char>| #[trigger]
                    final(self)@.contains_key(key) ==> old(self)@.contains_key(key)
                        && final(self)@[key] == old(self)@[key]
                &&& forall|stays: Seq<char>, goes: Seq<char>|
                    #![trigger final(self)@.contains_key(stays), old(self)@.contains_key(goes)]
                    final(self)@.contains_key(stays) && old(self)@.contains_key(goes)
                        && !final(self)@.contains_key(goes) ==> old(self)@[stays].retry_count
                        <= old(self)@[goes].retry_count
            },
    {
        let queue_length = self.len();
        match max_retry_queue_size {
            None => None,
            Some(max_size) => {
                if queue_length <= max_size {
                    None
                } else {
                    let entries = transactions_iter(&self.transactions);
                    let ghost held = self@;
                    proof {
                        entry_keys(entries@).unique_seq_to_set();
                        assert(entry_keys(entries@).to_set() =~= held.dom());
                    }
                    let keys = transactions_to_remove(&entries, max_size);
                    let ghost order = choose|order: Seq<usize>|
                        {
                            &&& is_stable_order(order, entry_counts(entries@))
                            &&& texts(keys@) == #[trigger] shed_keys(
                                entries@,
                                order,
                                max_size as nat,
                            )
                        };
                    proof {
                        lemma_shed_keys(entries@, order, max_size as nat, held);
                    }
                    self.remove_transactions(&keys);
                    proof {
                        let shed = texts(keys@);
                        shed.unique_seq_to_set();
                        assert(shed.to_set().subset_of(held.dom())) by {
                            assert forall|key: Seq<char>| shed.to_set().contains(key) implies
                                held.dom().contains(key) by {
                                let i = shed.index_of(key);
                                assert(held.contains_key(shed[i]));
                            }
                        }
                        held.lemma_remove_keys_len(shed.to_set());
                        let kept = self@;
                        assert forall|stays: Seq<char>, goes: Seq<char>|
                            #![trigger kept.contains_key(stays), held.contains_key(goes)]
                            kept.contains_key(stays) && held.contains_key(goes)
                                && !kept.contains_key(goes) implies held[stays].retry_count
                            <= held[goes].retry_count by {
                            assert(held.contains_key(stays) && !shed.contains(stays));
                            assert(shed.contains(goes));
                        }
                    }
                    Some(queue_length - max_size)
                }
            },
        }
    }

    /// Takes every transaction through its retry step. Returns the bytes of all transactions, and
    /// the signatures of those that are sent for the last time.
    pub fn count_retries(&mut self) -> (sends: (Vec<Vec<u8>>, Vec<String>))
        requires
            old(self).wf(),
        ensures
            final(self).wf(),
            final(self)@ == counted(old(self)@),
            final(self)@.dom() == old(self)@.dom(),
            forall|key: Seq<char>| #[trigger]
                old(self)@.contains_key(key) ==> final(self)@[key] == (TransactionDataView {
                    retry_count: if old(self)@[key].retry_count < old(self)@[key].max_retries {
                        (old(self)@[key].retry_count + 1) as usize
                    } else {
                        old(self)@[key].retry_count
                    },
                    ..old(self)@[key]
                }),
            exists|keys: Seq<Seq<char>>|
                hands_out(keys, old(self)@, byte_strings(sends.0@), texts(sends.1@)),
    {
        let ghost held = self@;
        let steps = transactions_iter_mut(&mut self.transactions);
        let ghost taken = steps@;
        let ghost after = held_transactions(self.transactions);
        assert(exists|keys: Seq<Seq<char>>| walked_in_order(keys, held, after, taken));
        let ghost keys = choose|keys: Seq<Seq<char>>| walked_in_order(keys, held, after, taken);
        assert(after == counted(held));
        let mut wire_transactions: Vec<Vec<u8>> = Vec::new();
        let mut reached_max_retries: Vec<String> = Vec::new();
        assert(keys.take(0) =~= Seq::<Seq<char>>::empty());
        assert(byte_strings(wire_transactions@) =~= sent_bytes(keys.take(0), held));
        assert(texts(reached_max_retries@) =~= spent_signatures(keys.take(0), held));
        for step in walk: steps.into_iter()
            invariant
                walk.seq() == taken,
                walked_in_order(keys, held, after, taken),
                byte_strings(wire_transactions@) == sent_bytes(keys.take(walk.index()), held),
                texts(reached_max_retries@) == spent_signatures(keys.take(walk.index()), held),
        {
            let ghost i = walk.index();
            assert(step@ == step_of(held[keys[i]]));
            proof {
                lemma_handed_out_next(keys, held, i);
                let wires = wire_transactions@;
                let spent = reached_max_retries@;
                wires.lemma_push_map_commute(|bytes: Vec<u8>| bytes@, step.wire_transaction);
                if step.reached_max_retries is Some {
                    spent.lemma_push_map_commute(
                        |text: String| text@,
                        step.reached_max_retries->0,
                    );
                }
            }
            wire_transactions.push(step.wire_transaction);
            if let Some(signature) = step.reached_max_retries {
                reached_max_retries.push(signature);
            }
        }
        proof {
            assert(keys.take(keys.len() as int) =~= keys);
            lemma_counted_is_queue(held);
        }
        let sends = (wire_transactions, reached_max_retries);
        assert(hands_out(keys, old(self)@, byte_strings(sends.0@), texts(sends.1@)));
        sends
    }
}

/// The queue after one more retry of each transaction was counted.
pub open spec fn counted(held: Map<Seq<char>, TransactionDataView>) -> Map<
    Seq<char>,
    TransactionDataView,
> {
    held.map_values(|transaction: TransactionDataView| transaction.retried())
}

/// The transactions that a retry round leaves in the queue: those that were not exhausted, with one
/// more retry counted.
pub open spec fn survivors(held: Map<Seq<char>, TransactionDataView>) -> Map<
    Seq<char>,
    TransactionDataView,
> {
    Map::new(
        |key: Seq<char>| held.contains_key(key) && !held[key].is_exhausted(),
        |key: Seq<char>| held[key].retried(),
    )
}

/// The bytes in a list of byte vectors.
pub open spec fn byte_strings(vecs: Seq<Vec<u8>>) -> Seq<Seq<u8>> {
    vecs.map_values(|bytes: Vec<u8>| bytes@)
}

/// The bytes of the transactions under the given keys.
pub open spec fn sent_bytes(
    keys: Seq<Seq<char>>,
    held: Map<Seq<char>, TransactionDataView>,
) -> Seq<Seq<u8>> {
    keys.map_values(|key: Seq<char>| held[key].wire_transaction)
}

/// The signatures of the exhausted transactions under the given keys.
pub open spec fn spent_signatures(
    keys: Seq<Seq<char>>,
    held: Map<Seq<char>, TransactionDataView>,
) -> Seq<Seq<char>> {
    keys.filter(|key: Seq<char>| held[key].is_exhausted()).map_values(
        |key: Seq<char>| held[key].signature(),
    )
}

/// `wires` are the bytes of all transactions of the queue, in the order of `keys`, and `spent` the
/// signatures of the exhausted ones among them.
pub open spec fn hands_out(
    keys: Seq<Seq<char>>,
    held: Map<Seq<char>, TransactionDataView>,
    wires: Seq<Seq<u8>>,
    spent: Seq<Seq<char>>,
) -> bool {
    &&& lists_keys(keys, held)
    &&& wires == sent_bytes(keys, held)
    &&& spent == spent_signatures(keys, held)
}

/// What one more key adds to the bytes and signatures that a walk hands out.
proof fn lemma_handed_out_next(
    keys: Seq<Seq<char>>,
    held: Map<Seq<char>, TransactionDataView>,
    i: int,
)
    requires
        0 <= i < keys.len(),
    ensures
        sent_bytes(keys.take(i + 1), held) == sent_bytes(keys.take(i), held).push(
            held[keys[i]].wire_transaction,
        ),
        spent_signatures(keys.take(i + 1), held) == (if held[keys[i]].is_exhausted() {
            spent_signatures(keys.take(i), held).push(held[keys[i]].signature())
        } else {
            spent_signatures(keys.take(i), held)
        }),
{
    let spent = |key: Seq<char>| held[key].is_exhausted();
    assert(keys.take(i + 1) =~= keys.take(i).push(keys[i]));
    keys.take(i).lemma_filter_push(keys[i], spent);
    keys.take(i).lemma_push_map_commute(
        |key: Seq<char>| held[key].wire_transaction,
        keys[i],
    );
    keys.take(i).filter(spent).lemma_push_map_commute(
        |key: Seq<char>| held[key].signature(),
        keys[i],
    );
}

/// Counting a retry of each transaction leaves a queue.
proof fn lemma_counted_is_queue(held: Map<Seq<char>, TransactionDataView>)
    requires
        is_queue(held),
    ensures
        is_queue(counted(held)),
{
    assert(counted(held).dom() =~= held.dom());
    assert forall|key: Seq<char>| #[trigger] counted(held).contains_key(key) implies counted(
        held,
    )[key].is_signed() && counted(held)[key].signature() == key by {
        assert(held.contains_key(key));
    }
}

/// The signatures that a walk reports are the keys of the exhausted transactions; without these, the
/// counted queue holds the survivors.
pub proof fn lemma_spent_signatures(
    keys: Seq<Seq<char>>,
    held: Map<Seq<char>, TransactionDataView>,
)
    requires
        lists_keys(keys, held),
        is_keyed_by_signature(held),
    ensures
        forall|key: Seq<char>| #[trigger]
            spent_signatures(keys, held).contains(key) <==> held.contains_key(key)
                && held[key].is_exhausted(),
        counted(held).remove_keys(spent_signatures(keys, held).to_set()) == survivors(held),
{
    let is_spent = |k: Seq<char>| held[k].is_exhausted();
    let spent_keys = keys.filter(is_spent);
    let spent = spent_signatures(keys, held);
    assert forall|key: Seq<char>| #[trigger] spent.contains(key) <==> held.contains_key(key)
        && held[key].is_exhausted() by {
        if spent.contains(key) {
            let i = spent.index_of(key);
            keys.lemma_filter_pred(is_spent, i);
            keys.lemma_filter_contains_rev(is_spent, spent_keys[i]);
            assert(keys.contains(spent_keys[i]));
            assert(held.contains_key(spent_keys[i]));
        }
        if held.contains_key(key) && held[key].is_exhausted() {
            assert(keys.contains(key));
            keys.lemma_filter_contains(is_spent, keys.index_of(key));
            let j = spent_keys.index_of(key);
            assert(spent[j] == key);
        }
    }
    assert(counted(held).remove_keys(spent.to_set()) =~= survivors(held));
}

/// What is read of a transaction in the queue is what it holds, field by field.
pub proof fn lemma_transaction_data_content(transaction: TransactionData)
    ensures
        transaction@.wire_transaction == transaction.wire_transaction@,
        transaction@.versioned_transaction == transaction.versioned_transaction@,
        transaction@.sent_at == transaction.sent_at,
        transaction@.retry_count == transaction.retry_count,
        transaction@.max_retries == transaction.max_retries,
        transaction@.api_key is Some <==> transaction.request_metadata is Some,
        transaction.request_metadata is Some ==> transaction@.api_key->0
            == transaction.request_metadata->0.api_key@,
{
}

/// A transaction is known by the text of the first of its signatures, however many it has; without
/// any, it is not signed.
pub proof fn lemma_first_signature(transaction: TransactionDataView)
    ensures
        transaction.is_signed() <==> transaction.versioned_transaction.signatures.len() > 0,
        transaction.signature() == signature_text(
            transaction.versioned_transaction.signatures.first()@,
        ),
{
}

} // verus!
