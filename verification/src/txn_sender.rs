//! The sender: which transactions it takes, what it sends where, and what it reports.
use vstd::array::array_as_slice;
use vstd::prelude::*;
use vstd::slice::slice_to_vec;

use crate::contact::{contact_views, ContactInfo};
use crate::keys::{key_views, signature_text, signature_to_string};
use crate::metrics::{bin_counter_to_tag, bin_tag, MAX_RETRIES_BINS, RETRY_COUNT_BINS};
use crate::priority::{compute_priority_details, priority_details, PriorityDetails};
use crate::text::texts;
use crate::transaction::copy_all;
use crate::transaction_store::{
    byte_strings, get_signature, hands_out, is_queue, is_shed_to, lemma_spent_signatures,
    reported_drop, survivors, TransactionData, TransactionDataView, TransactionStore,
};
use crate::validators::{
    find_validators, validator_views, validators_in, ValidatorInfo, ValidatorInfoView,
};

verus! {

/// The text of a truth value.
pub open spec fn bool_text(b: bool) -> Seq<char> {
    if b {
        "true"@
    } else {
        "false"@
    }
}

/// Writes a truth value.
fn bool_to_string(b: bool) -> (text: String)
    ensures
        text@ == bool_text(b),
{
    if b {
        "true".to_owned()
    } else {
        "false".to_owned()
    }
}

/// What is remembered of a transaction until its fate is known.
pub struct TrackedTransaction {
    pub signature: String,
    /// When the transaction came in.
    pub sent_at: std::time::Instant,
    pub details: PriorityDetails,
    /// `true` where the transaction pays for its priority, `false` otherwise.
    pub priority_fees_enabled: String,
    /// The key of the sender, `none` where it is not known.
    pub api_key: String,
}

/// The content of a [`TrackedTransaction`].
pub struct TrackedTransactionView {
    pub signature: Seq<char>,
    pub sent_at: std::time::Instant,
    pub details: PriorityDetails,
    pub priority_fees_enabled: Seq<char>,
    pub api_key: Seq<char>,
}

impl View for TrackedTransaction {
    type V = TrackedTransactionView;

    open spec fn view(&self) -> TrackedTransactionView {
        TrackedTransactionView {
            signature: self.signature@,
            sent_at: self.sent_at,
            details: self.details,
            priority_fees_enabled: self.priority_fees_enabled@,
            api_key: self.api_key@,
        }
    }
}

/// What is remembered of a transaction with the given signature and details.
pub open spec fn record_with(
    transaction: TransactionDataView,
    signature: Seq<char>,
    details: PriorityDetails,
) -> TrackedTransactionView {
    TrackedTransactionView {
        signature,
        sent_at: transaction.sent_at,
        details,
        priority_fees_enabled: bool_text(details.fee > 0),
        api_key: match transaction.api_key {
            Some(api_key) => api_key,
            None => "none"@,
        },
    }
}

/// What is remembered of a transaction.
pub open spec fn record_of(transaction: TransactionDataView) -> TrackedTransactionView {
    record_with(
        transaction,
        transaction.signature(),
        priority_details(transaction.versioned_transaction),
    )
}

/// Puts together what is remembered of a transaction.
pub fn describe_transaction(
    transaction_data: &TransactionData,
    signature: String,
    details: PriorityDetails,
) -> (record: TrackedTransaction)
    ensures
        record@ == record_with(transaction_data@, signature@, details),
        record.signature@ == signature@,
        record.sent_at == transaction_data.sent_at,
        record.details == details,
        details.fee > 0 ==> record.priority_fees_enabled@ == "true"@,
        details.fee == 0 ==> record.priority_fees_enabled@ == "false"@,
        (match transaction_data.request_metadata {
            Some(metadata) => record.api_key@ == metadata.api_key@,
            None => record.api_key@ == "none"@,
        }),
{
    let api_key = match &transaction_data.request_metadata {
        Some(metadata) => metadata.api_key.clone(),
        None => "none".to_owned(),
    };
    TrackedTransaction {
        signature,
        sent_at: transaction_data.sent_at,
        details,
        priority_fees_enabled: bool_to_string(details.fee > 0),
        api_key,
    }
}

/// Whether a transaction pays enough to be taken.
pub fn pays_enough(details: &PriorityDetails, min_fee: u64) -> (enough: bool)
    ensures
        enough == (details.fee >= min_fee),
{
    details.fee >= min_fee
}

/// What is reported when the fate of a transaction is known.
pub struct LandingReport {
    /// `true` where the transaction was confirmed, `false` otherwise.
    pub landed: String,
    /// The bin of the number of retries, `none` where the transaction was no longer queued.
    pub retries_tag: String,
    /// The bin of the greatest number of retries, `none` where the transaction was no longer queued.
    pub max_retries_tag: String,
}

/// The content of a [`LandingReport`].
pub struct LandingReportView {
    pub landed: Seq<char>,
    pub retries_tag: Seq<char>,
    pub max_retries_tag: Seq<char>,
}

impl View for LandingReport {
    type V = LandingReportView;

    open spec fn view(&self) -> LandingReportView {
        LandingReportView {
            landed: self.landed@,
            retries_tag: self.retries_tag@,
            max_retries_tag: self.max_retries_tag@,
        }
    }
}

/// The report on a transaction, given how it stood in the queue, if it still did. The counters are
/// taken as 32-bit numbers.
pub open spec fn landing_report(confirmed: bool, queued: Option<TransactionDataView>) -> LandingReportView {
    LandingReportView {
        landed: bool_text(confirmed),
        retries_tag: bin_tag(
            match queued {
                Some(transaction) => Some(transaction.retry_count as i32),
                None => None,
            },
            RETRY_COUNT_BINS@,
        ),
        max_retries_tag: bin_tag(
            match queued {
                Some(transaction) => Some(transaction.max_retries as i32),
                None => None,
            },
            MAX_RETRIES_BINS@,
        ),
    }
}

/// The entry of a queue under a key.
pub open spec fn queued_under(
    queue: Map<Seq<char>, TransactionDataView>,
    key: Seq<char>,
) -> Option<TransactionDataView> {
    if queue.contains_key(key) {
        Some(queue[key])
    } else {
        None
    }
}

/// A transaction to send to one peer.
pub struct PeerSend {
    /// The socket address of the peer.
    pub peer: String,
    pub wire_transaction: Vec<u8>,
}

/// The content of a [`PeerSend`].
pub struct PeerSendView {
    pub peer: Seq<char>,
    pub wire_transaction: Seq<u8>,
}

impl View for PeerSend {
    type V = PeerSendView;

    open spec fn view(&self) -> PeerSendView {
        PeerSendView { peer: self.peer@, wire_transaction: self.wire_transaction@ }
    }
}

/// The contents of a list of sends.
pub open spec fn send_views(sends: Seq<PeerSend>) -> Seq<PeerSendView> {
    sends.map_values(|send: PeerSend| send@)
}

/// The addresses of a list of validators.
pub open spec fn addresses(validators: Seq<ValidatorInfoView>) -> Seq<Seq<char>> {
    validators.map_values(|info: ValidatorInfoView| info.tpu_address)
}

/// A transaction goes to each of the addresses.
pub open spec fn sends_to(addresses: Seq<Seq<char>>, wire_transaction: Seq<u8>) -> Seq<PeerSendView> {
    addresses.map_values(|peer: Seq<char>| PeerSendView { peer, wire_transaction })
}

/// What becomes of a transaction that came in.
pub enum SendDecision {
    /// It is queued for retries and sent.
    Accepted { record: TrackedTransaction, sends: Vec<PeerSend> },
    /// It pays too little.
    Dropped { signature: String, min_fee: u64, fee: u64 },
}

/// What one retry round sends and reports.
pub struct RetryRound {
    /// The length of the queue at the start of the round.
    pub queue_length: usize,
    /// The number of dropped transactions to report, where the queue was over its limit.
    pub dropped: Option<usize>,
    /// The transactions to send.
    pub wire_transactions: Vec<Vec<u8>>,
    /// The signatures of the transactions that are sent for the last time.
    pub reached_max_retries: Vec<String>,
}

/// The content of a [`RetryRound`].
pub struct RetryRoundView {
    pub queue_length: nat,
    pub dropped: Option<nat>,
    pub wire_transactions: Seq<Seq<u8>>,
    pub reached_max_retries: Seq<Seq<char>>,
}

impl View for RetryRound {
    type V = RetryRoundView;

    open spec fn view(&self) -> RetryRoundView {
        RetryRoundView {
            queue_length: self.queue_length as nat,
            dropped: match self.dropped {
                Some(n) => Some(n as nat),
                None => None,
            },
            wire_transactions: byte_strings(self.wire_transactions@),
            reached_max_retries: texts(self.reached_max_retries@),
        }
    }
}

/// A retry round takes the queue from `before` to `after`, with `kept` in between. The queue is shed
/// to its limit, which leaves `kept`; each transaction of it is sent once; then the exhausted ones are
/// gone, and one more retry of each of the others is counted.
pub open spec fn is_round_with(
    before: Map<Seq<char>, TransactionDataView>,
    limit: Option<usize>,
    kept: Map<Seq<char>, TransactionDataView>,
    after: Map<Seq<char>, TransactionDataView>,
    wires: Seq<Seq<u8>>,
    spent: Seq<Seq<char>>,
) -> bool {
    &&& is_shed_to(before, limit, kept)
    &&& exists|keys: Seq<Seq<char>>| hands_out(keys, kept, wires, spent)
    &&& after == survivors(kept)
}

/// A retry round takes the queue from `before` to `after`.
pub open spec fn is_retry_round(
    before: Map<Seq<char>, TransactionDataView>,
    limit: Option<usize>,
    after: Map<Seq<char>, TransactionDataView>,
    wires: Seq<Seq<u8>>,
    spent: Seq<Seq<char>>,
) -> bool {
    exists|kept: Map<Seq<char>, TransactionDataView>|
        is_round_with(before, limit, kept, after, wires, spent)
}

/// What there is to report after the validators' addresses were looked up.
#[derive(Clone, Copy, Debug, PartialEq, Eq, Structural)]
pub struct ValidatorUpdate {
    /// The number of validators that were found.
    pub found: usize,
    /// Whether fewer validators were found than there are.
    pub incomplete: bool,
}

/// The state of the sender.
pub struct TxnSenderImpl {
    transaction_store: TransactionStore,
    validator_info: Vec<ValidatorInfo>,
    txn_send_retry_interval_seconds: usize,
    max_retry_queue_size: Option<usize>,
}

/// The content of a [`TxnSenderImpl`].
pub struct TxnSenderView {
    /// The transactions that wait for confirmation, by signature.
    pub queue: Map<Seq<char>, TransactionDataView>,
    /// The validators that transactions are sent to.
    pub validators: Seq<ValidatorInfoView>,
    pub txn_send_retry_interval_seconds: usize,
    pub max_retry_queue_size: Option<usize>,
}

impl View for TxnSenderImpl {
    type V = TxnSenderView;

    closed spec fn view(&self) -> TxnSenderView {
        TxnSenderView {
            queue: self.transaction_store@,
            validators: validator_views(self.validator_info@),
            txn_send_retry_interval_seconds: self.txn_send_retry_interval_seconds,
            max_retry_queue_size: self.max_retry_queue_size,
        }
    }
}

/// A retry round takes the sender from `before` to `after`. Only the queue changes.
pub open spec fn makes_round(
    before: TxnSenderView,
    after: TxnSenderView,
    round: RetryRoundView,
) -> bool {
    &&& after == (TxnSenderView { queue: after.queue, ..before })
    &&& round.queue_length == before.queue.len()
    &&& round.dropped == reported_drop(before.queue.len(), before.max_retry_queue_size)
    &&& is_retry_round(
        before.queue,
        before.max_retry_queue_size,
        after.queue,
        round.wire_transactions,
        round.reached_max_retries,
    )
}

/// One that sends transactions.
pub trait TxnSender: Send + Sync {
    /// Whether the sender can take the transaction.
    spec fn can_send(&self, transaction: TransactionDataView) -> bool;

    /// Whether the sender, asked to take a transaction, may decide so and become `after`.
    spec fn decides(
        &self,
        after: &Self,
        transaction: TransactionDataView,
        min_fee: u64,
        decision: SendDecision,
    ) -> bool;

    /// Takes a transaction, or drops it where it pays less than `min_fee`.
    fn send_transaction(&mut self, transaction_data: TransactionData, min_fee: u64) -> (decision:
        SendDecision)
        requires
            old(self).can_send(transaction_data@),
        ensures
            old(self).decides(final(self), transaction_data@, min_fee, decision),
    ;
}

impl TxnSenderImpl {
    /// The sender's invariant.
    pub open spec fn wf(&self) -> bool {
        is_queue(self@.queue)
    }

    /// A sender with an empty queue and no validators.
    pub fn new(txn_send_retry_interval_seconds: usize, max_retry_queue_size: Option<usize>) -> (sender:
        Self)
        ensures
            sender.wf(),
            sender@.queue == Map::<Seq<char>, TransactionDataView>::empty(),
            sender@.validators == Seq::<ValidatorInfoView>::empty(),
            sender@.txn_send_retry_interval_seconds == txn_send_retry_interval_seconds,
            sender@.max_retry_queue_size == max_retry_queue_size,
    {
        let sender = TxnSenderImpl {
            transaction_store: TransactionStore::new(),
            validator_info: Vec::new(),
            txn_send_retry_interval_seconds,
            max_retry_queue_size,
        };
        assert(sender@.validators =~= Seq::<ValidatorInfoView>::empty());
        sender
    }

    /// Makes one retry round.
    pub fn retry_transactions(&mut self) -> (round: RetryRound)
        requires
            old(self).wf(),
        ensures
            final(self).wf(),
            makes_round(old(self)@, final(self)@, round@),
            round.queue_length == old(self)@.queue.len(),
            round.dropped is Some <==> old(self)@.max_retry_queue_size is Some
                && round.queue_length > old(self)@.max_retry_queue_size->0,
            round.dropped is Some ==> round.dropped->0 == round.queue_length
                - old(self)@.max_retry_queue_size->0,
    {
        let queue_length: usize = self.transaction_store.len();
        let dropped = self.transaction_store.shed_transactions(self.max_retry_queue_size);
        let ghost kept = self@.queue;
        let (wire_transactions, reached_max_retries) = self.transaction_store.count_retries();
        let ghost wires = byte_strings(wire_transactions@);
        let ghost spent = texts(reached_max_retries@);
        self.transaction_store.remove_transactions(&reached_max_retries);
        proof {
            let keys = choose|keys: Seq<Seq<char>>| hands_out(keys, kept, wires, spent);
            lemma_spent_signatures(keys, kept);
            assert(is_round_with(
                old(self)@.queue,
                self.max_retry_queue_size,
                kept,
                self@.queue,
                wires,
                spent,
            ));
        }
        RetryRound { queue_length, dropped, wire_transactions, reached_max_retries }
    }

    /// Queues a transaction for retries and puts together what is to be remembered of it. A
    /// transaction without signatures is not tracked.
    pub fn track_transaction(&mut self, transaction_data: &TransactionData) -> (record: Option<
        TrackedTransaction,
    >)
        requires
            old(self).wf(),
        ensures
            final(self).wf(),
            (match record {
                Some(record) => {
                    &&& transaction_data@.is_signed()
                    &&& record@ == record_of(transaction_data@)
                    &&& final(self)@ == (TxnSenderView {
                        queue: old(self)@.queue.insert(
                            transaction_data@.signature(),
                            transaction_data@,
                        ),
                        ..old(self)@
                    })
                },
                None => !transaction_data@.is_signed() && final(self)@ == old(self)@,
            }),
    {
        match get_signature(transaction_data) {
            None => None,
            Some(signature) => {
                self.transaction_store.add_transaction(transaction_data.clone());
                let details = compute_priority_details(&transaction_data.versioned_transaction);
                Some(describe_transaction(transaction_data, signature, details))
            },
        }
    }

    /// Ends the tracking of a transaction when it is known whether it was confirmed: takes it out
    /// of the queue, and puts together the report.
    pub fn finish_tracking(&mut self, record: &TrackedTransaction, confirmed: bool) -> (report:
        LandingReport)
        requires
            old(self).wf(),
        ensures
            final(self).wf(),
            final(self)@ == (TxnSenderView {
                queue: old(self)@.queue.remove(record.signature@),
                ..old(self)@
            }),
            report@ == landing_report(
                confirmed,
                queued_under(old(self)@.queue, record.signature@),
            ),
            confirmed ==> report.landed@ == "true"@,
            !confirmed ==> report.landed@ == "false"@,
            old(self)@.queue.contains_key(record.signature@) ==> {
                let queued = old(self)@.queue[record.signature@];
                &&& report.retries_tag@ == bin_tag(
                    Some(queued.retry_count as i32),
                    seq![0i32, 1, 2, 5, 10, 25],
                )
                &&& report.max_retries_tag@ == bin_tag(
                    Some(queued.max_retries as i32),
                    seq![0i32, 1, 5, 10, 30],
                )
            },
            !old(self)@.queue.contains_key(record.signature@) ==> report.retries_tag@ == "none"@
                && report.max_retries_tag@ == "none"@,
    {
        let mut retries: Option<i32> = None;
        let mut max_retries: Option<i32> = None;
        let removed = self.transaction_store.remove_transaction(&record.signature);
        if let Some(transaction_data) = removed {
            retries = Some(#[verifier::truncate] (transaction_data.retry_count as i32));
            max_retries = Some(#[verifier::truncate] (transaction_data.max_retries as i32));
        }
        proof {
            assert(RETRY_COUNT_BINS@ =~= seq![0i32, 1, 2, 5, 10, 25]);
            assert(MAX_RETRIES_BINS@ =~= seq![0i32, 1, 5, 10, 30]);
        }
        let retry_bins: Vec<i32> = slice_to_vec(array_as_slice(&RETRY_COUNT_BINS));
        let max_bins: Vec<i32> = slice_to_vec(array_as_slice(&MAX_RETRIES_BINS));
        LandingReport {
            landed: bool_to_string(confirmed),
            retries_tag: bin_counter_to_tag(retries, &retry_bins),
            max_retries_tag: bin_counter_to_tag(max_retries, &max_bins),
        }
    }

    /// The addresses of the validators.
    pub fn get_tpu_addresses(&self) -> (peers: Vec<String>)
        ensures
            texts(peers@) == addresses(self@.validators),
            peers@.len() == self@.validators.len(),
            forall|i: int|
                0 <= i < peers@.len() ==> (#[trigger] peers@[i])@ == self@.validators[i].tpu_address,
    {
        let mut peers: Vec<String> = Vec::new();
        let mut i: usize = 0;
        while i < self.validator_info.len()
            invariant
                i <= self.validator_info@.len(),
                peers@.len() == i,
                forall|j: int|
                    0 <= j < i ==> (#[trigger] peers@[j])@ == self.validator_info@[j].tpu_address@,
            decreases self.validator_info@.len() - i,
        {
            peers.push(self.validator_info[i].tpu_address.clone());
            i = i + 1;
        }
        assert(texts(peers@) =~= addresses(self@.validators));
        peers
    }

    /// Addresses a transaction to each of the validators.
    pub fn send_to_tpu_peers(&self, wire_transaction: &Vec<u8>) -> (sends: Vec<PeerSend>)
        ensures
            send_views(sends@) == sends_to(addresses(self@.validators), wire_transaction@),
            sends@.len() == self@.validators.len(),
            forall|i: int|
                0 <= i < sends@.len() ==> (#[trigger] sends@[i]).peer@
                    == self@.validators[i].tpu_address && sends@[i].wire_transaction@
                    == wire_transaction@,
    {
        let tpu_peers = self.get_tpu_addresses();
        let ghost peers = texts(tpu_peers@);
        let ghost strings = tpu_peers@;
        let mut sends: Vec<PeerSend> = Vec::new();
        for peer in walk: tpu_peers.into_iter()
            invariant
                walk.seq() == strings,
                sends@.len() == walk.index(),
                forall|j: int|
                    0 <= j < walk.index() ==> (#[trigger] sends@[j]).peer@ == strings[j]@
                        && sends@[j].wire_transaction@ == wire_transaction@,
        {
            sends.push(PeerSend { peer, wire_transaction: copy_all(wire_transaction) });
        }
        assert(send_views(sends@) =~= sends_to(peers, wire_transaction@));
        sends
    }

    /// Replaces a list of validators by those that the cluster lists now. The list stays as it is where
    /// the cluster could not be asked.
    pub fn update_validator_info_task(
        validator_info: &mut Vec<ValidatorInfo>,
        cluster_nodes: Option<&Vec<ContactInfo>>,
        validator_pubkeys: &Vec<[u8; 32]>,
    )
        ensures
            (match cluster_nodes {
                Some(nodes) => validator_views(final(validator_info)@) == validators_in(
                    contact_views(nodes@),
                    key_views(validator_pubkeys@),
                ),
                None => final(validator_info)@ == old(validator_info)@,
            }),
    {
        if let Some(nodes) = cluster_nodes {
            *validator_info = find_validators(nodes, validator_pubkeys);
        }
    }

    /// Looks up the validators among the nodes of the cluster. Nothing changes, and nothing is
    /// reported, where the cluster could not be asked.
    pub fn update_validator_info(
        &mut self,
        cluster_nodes: Option<&Vec<ContactInfo>>,
        validator_pubkeys: &Vec<[u8; 32]>,
    ) -> (update: Option<ValidatorUpdate>)
        requires
            old(self).wf(),
        ensures
            final(self).wf(),
            (match cluster_nodes {
                Some(nodes) => {
                    let validators = validators_in(
                        contact_views(nodes@),
                        key_views(validator_pubkeys@),
                    );
                    &&& final(self)@ == (TxnSenderView { validators, ..old(self)@ })
                    &&& update is Some
                    &&& update->0.found == validators.len()
                    &&& update->0.incomplete == (validators.len() < validator_pubkeys@.len())
                },
                None => final(self)@ == old(self)@ && update is None,
            }),
    {
        Self::update_validator_info_task(&mut self.validator_info, cluster_nodes, validator_pubkeys);
        match cluster_nodes {
            Some(_) => {
                let found: usize = self.validator_info.len();
                assert(found == self@.validators.len());
                Some(ValidatorUpdate { found, incomplete: found < validator_pubkeys.len() })
            },
            None => None,
        }
    }
}

impl TxnSender for TxnSenderImpl {
    open spec fn can_send(&self, transaction: TransactionDataView) -> bool {
        self.wf() && transaction.is_signed()
    }

    /// A transaction that pays at least `min_fee` is queued under its first signature and sent to
    /// every validator; any other is dropped, and nothing changes.
    open spec fn decides(
        &self,
        after: &Self,
        transaction: TransactionDataView,
        min_fee: u64,
        decision: SendDecision,
    ) -> bool {
        &&& after.wf()
        &&& match decision {
            SendDecision::Accepted { record, sends } => {
                &&& priority_details(transaction.versioned_transaction).fee >= min_fee
                &&& record@ == record_of(transaction)
                &&& send_views(sends@) == sends_to(
                    addresses(self@.validators),
                    transaction.wire_transaction,
                )
                &&& after@ == (TxnSenderView {
                    queue: self@.queue.insert(transaction.signature(), transaction),
                    ..self@
                })
            },
            SendDecision::Dropped { signature, min_fee: required, fee } => {
                &&& fee == priority_details(transaction.versioned_transaction).fee
                &&& fee < min_fee
                &&& required == min_fee
                &&& signature@ == transaction.signature()
                &&& after@ == self@
            },
        }
    }

    fn send_transaction(&mut self, transaction_data: TransactionData, min_fee: u64) -> (decision:
        SendDecision) {
        let signature = signature_to_string(&transaction_data.versioned_transaction.signatures[0]);
        let details = compute_priority_details(&transaction_data.versioned_transaction);
        if pays_enough(&details, min_fee) {
            if let Some(record) = self.track_transaction(&transaction_data) {
                let sends = self.send_to_tpu_peers(&transaction_data.wire_transaction);
                return SendDecision::Accepted { record, sends };
            }
        }
        SendDecision::Dropped { signature, min_fee, fee: details.fee }
    }
}

/// What a sender remembers of a transaction: the text of its first signature, when it came in, what it
/// pays, whether that is anything at all, and the key of its sender, `none` where it is not known.
pub proof fn lemma_record(transaction: TransactionDataView)
    ensures
        ({
            let record = record_of(transaction);
            let details = priority_details(transaction.versioned_transaction);
            &&& record.signature == signature_text(
                transaction.versioned_transaction.signatures[0]@,
            )
            &&& record.sent_at == transaction.sent_at
            &&& record.details == details
            &&& details.fee > 0 ==> record.priority_fees_enabled == "true"@
            &&& details.fee == 0 ==> record.priority_fees_enabled == "false"@
            &&& transaction.api_key is Some ==> record.api_key == transaction.api_key->0
            &&& transaction.api_key is None ==> record.api_key == "none"@
        }),
{
}

/// What is read of a record, a report, a send or a round is what it holds, field by field.
pub proof fn lemma_outcome_contents(
    record: TrackedTransaction,
    report: LandingReport,
    send: PeerSend,
    round: RetryRound,
)
    ensures
        record@.signature == record.signature@,
        record@.sent_at == record.sent_at,
        record@.details == record.details,
        record@.priority_fees_enabled == record.priority_fees_enabled@,
        record@.api_key == record.api_key@,
        report@.landed == report.landed@,
        report@.retries_tag == report.retries_tag@,
        report@.max_retries_tag == report.max_retries_tag@,
        send@.peer == send.peer@,
        send@.wire_transaction == send.wire_transaction@,
        round@.queue_length == round.queue_length,
        round@.dropped is Some <==> round.dropped is Some,
        round.dropped is Some ==> round@.dropped->0 == round.dropped->0,
        round@.wire_transactions.len() == round.wire_transactions@.len(),
        forall|i: int|
            0 <= i < round.wire_transactions@.len() ==> #[trigger] round@.wire_transactions[i]
                == round.wire_transactions@[i]@,
        round@.reached_max_retries.len() == round.reached_max_retries@.len(),
        forall|i: int|
            0 <= i < round.reached_max_retries@.len() ==> #[trigger] round@.reached_max_retries[i]
                == round.reached_max_retries@[i]@,
{
}

/// The report on a transaction says whether it was confirmed, and names the bins of its two counters as
/// they stood in the queue; of one that has left the queue it names none.
pub proof fn lemma_landing_report(confirmed: bool, queued: Option<TransactionDataView>)
    ensures
        ({
            let report = landing_report(confirmed, queued);
            &&& confirmed ==> report.landed == "true"@
            &&& !confirmed ==> report.landed == "false"@
            &&& queued matches Some(transaction) ==> report.retries_tag == bin_tag(
                Some(transaction.retry_count as i32),
                seq![0i32, 1, 2, 5, 10, 25],
            ) && report.max_retries_tag == bin_tag(
                Some(transaction.max_retries as i32),
                seq![0i32, 1, 5, 10, 30],
            )
            &&& queued is None ==> report.retries_tag == "none"@ && report.max_retries_tag
                == "none"@
        }),
{
    assert(RETRY_COUNT_BINS@ =~= seq![0i32, 1, 2, 5, 10, 25]);
    assert(MAX_RETRIES_BINS@ =~= seq![0i32, 1, 5, 10, 30]);
}

/// A valid sender can take every signed transaction, and takes it exactly if it pays at least the least
/// fee. One that it takes stands in the queue under the text of its first signature, as it came in, and
/// goes to the address of every validator, byte for byte. Nothing else in the queue, no validator and
/// no setting changes; and nothing at all where the transaction is dropped.
pub proof fn lemma_send_decision(
    before: TxnSenderImpl,
    after: TxnSenderImpl,
    transaction: TransactionData,
    min_fee: u64,
    decision: SendDecision,
)
    requires
        before.decides(&after, transaction@, min_fee, decision),
    ensures
        before.wf() && transaction.versioned_transaction.signatures@.len() > 0 ==> before.can_send(
            transaction@,
        ),
        after.wf(),
        after@.validators == before@.validators,
        after@.txn_send_retry_interval_seconds == before@.txn_send_retry_interval_seconds,
        after@.max_retry_queue_size == before@.max_retry_queue_size,
        decision is Accepted <==> priority_details(transaction.versioned_transaction@).fee
            >= min_fee,
        ({
            let key = signature_text(transaction.versioned_transaction.signatures@[0]@);
            let details = priority_details(transaction.versioned_transaction@);
            match decision {
                SendDecision::Accepted { record, sends } => {
                    &&& after@.queue.contains_key(key)
                    &&& after@.queue[key] == transaction@
                    &&& after@.queue.remove(key) == before@.queue.remove(key)
                    &&& record.signature@ == key
                    &&& record.details == details
                    &&& record.sent_at == transaction.sent_at
                    &&& details.fee > 0 ==> record.priority_fees_enabled@ == "true"@
                    &&& details.fee == 0 ==> record.priority_fees_enabled@ == "false"@
                    &&& (match transaction.request_metadata {
                        Some(metadata) => record.api_key@ == metadata.api_key@,
                        None => record.api_key@ == "none"@,
                    })
                    &&& sends@.len() == before@.validators.len()
                    &&& forall|i: int|
                        0 <= i < sends@.len() ==> (#[trigger] sends@[i]).peer@
                            == before@.validators[i].tpu_address && sends@[i].wire_transaction@
                            == transaction.wire_transaction@
                },
                SendDecision::Dropped { signature, min_fee: required, fee } => {
                    &&& signature@ == key
                    &&& required == min_fee
                    &&& fee == details.fee
                    &&& after@.queue == before@.queue
                },
            }
        }),
{
    match decision {
        SendDecision::Accepted { record, sends } => {
            let views = send_views(sends@);
            assert(views.len() == sends@.len());
            assert forall|i: int| 0 <= i < sends@.len() implies (#[trigger] sends@[i]).peer@
                == before@.validators[i].tpu_address && sends@[i].wire_transaction@
                == transaction.wire_transaction@ by {
                assert(views[i] == sends@[i]@);
            }
            let key = transaction@.signature();
            assert(after@.queue.remove(key) =~= before@.queue.remove(key));
        },
        SendDecision::Dropped { .. } => {},
    }
}

} // verus!
