//! Delivering a transaction: to whom, and how often to try.
use vstd::prelude::*;

use crate::contact::{contact_views, ContactInfo, ContactInfoView};
use crate::transaction::copy_all;

verus! {

/// How often it is tried to deliver a transaction to one peer.
pub const SEND_TXN_RETRIES: usize = 10;

/// The milliseconds that one attempt may take.
pub const MAX_TIMEOUT_SEND_DATA: u64 = 500;

/// The milliseconds that one attempt of a retry round may take.
pub const MAX_TIMEOUT_SEND_DATA_BATCH: u64 = 500;

/// How an attempt ended.
#[derive(Clone, Copy, Debug, PartialEq, Eq, Structural)]
pub enum SendOutcome {
    /// The peer took the transaction.
    Delivered,
    /// The connection failed.
    Failed,
    /// The attempt took too long.
    TimedOut,
}

/// What there is to report of an attempt.
#[derive(Clone, Copy, Debug, PartialEq, Eq, Structural)]
pub enum SendReport {
    /// The transaction was received.
    Received,
    /// The attempt failed; whether it was the last one.
    Error { last_attempt: bool },
    /// The attempt took too long.
    Timeout,
}

/// What follows an attempt.
#[derive(Clone, Copy, Debug, PartialEq, Eq, Structural)]
pub struct SendStep {
    pub report: SendReport,
    /// The number of the next attempt; `None` where it is over.
    pub next_attempt: Option<usize>,
}

/// What follows an attempt to deliver a transaction to a peer, given the number of the attempt,
/// counted from zero.
pub open spec fn step_after(attempt: int, outcome: SendOutcome) -> SendStep {
    SendStep {
        report: match outcome {
            SendOutcome::Delivered => SendReport::Received,
            SendOutcome::Failed => SendReport::Error {
                last_attempt: attempt == SEND_TXN_RETRIES - 1,
            },
            SendOutcome::TimedOut => SendReport::Timeout,
        },
        next_attempt: if outcome == SendOutcome::Delivered || attempt + 1 >= SEND_TXN_RETRIES {
            None
        } else {
            Some((attempt + 1) as usize)
        },
    }
}

/// Decides what follows an attempt to deliver a transaction to a peer. An attempt that fails or takes
/// too long leads to the next one.
pub fn after_attempt(attempt: usize, outcome: SendOutcome) -> (step: SendStep)
    requires
        attempt < SEND_TXN_RETRIES,
    ensures
        step == step_after(attempt as int, outcome),
        outcome is Delivered ==> step.report is Received && step.next_attempt is None,
        outcome is Failed ==> step.report == (SendReport::Error { last_attempt: attempt == 9 }),
        outcome is TimedOut ==> step.report is Timeout,
        outcome !is Delivered && attempt < 9 ==> step.next_attempt is Some && step.next_attempt->0
            == attempt + 1,
        attempt == 9 ==> step.next_attempt is None,
{
    let next_attempt: Option<usize> = if attempt + 1 < SEND_TXN_RETRIES {
        Some(attempt + 1)
    } else {
        None
    };
    match outcome {
        SendOutcome::Delivered => SendStep { report: SendReport::Received, next_attempt: None },
        SendOutcome::Failed => SendStep {
            report: SendReport::Error { last_attempt: attempt == SEND_TXN_RETRIES - 1 },
            next_attempt,
        },
        SendOutcome::TimedOut => SendStep { report: SendReport::Timeout, next_attempt },
    }
}

/// What follows an attempt of a retry round to deliver a transaction to a leader, given the number of
/// the attempt, counted from zero. An attempt that takes too long is the last one.
pub open spec fn step_after_retry(attempt: int, outcome: SendOutcome) -> SendStep {
    SendStep {
        next_attempt: if outcome == SendOutcome::TimedOut {
            None
        } else {
            step_after(attempt, outcome).next_attempt
        },
        ..step_after(attempt, outcome)
    }
}

/// Decides what follows an attempt of a retry round to deliver a transaction to a leader: it is tried
/// again unless it took too long.
pub fn after_retry_attempt(attempt: usize, outcome: SendOutcome) -> (step: SendStep)
    requires
        attempt < SEND_TXN_RETRIES,
    ensures
        step == step_after_retry(attempt as int, outcome),
        outcome is Delivered ==> step.report is Received && step.next_attempt is None,
        outcome is Failed ==> step.report == (SendReport::Error { last_attempt: attempt == 9 }),
        outcome is Failed && attempt < 9 ==> step.next_attempt is Some && step.next_attempt->0
            == attempt + 1,
        outcome is TimedOut ==> step.report is Timeout && step.next_attempt is None,
        attempt == 9 ==> step.next_attempt is None,
{
    let step = after_attempt(attempt, outcome);
    match outcome {
        SendOutcome::TimedOut => SendStep { report: step.report, next_attempt: None },
        _ => step,
    }
}

/// The reports of a delivery to a peer, from the attempt with the given number on, where `outcomes`
/// says how each attempt ends.
pub open spec fn delivery_reports(attempt: int, outcomes: spec_fn(int) -> SendOutcome) -> Seq<
    SendReport,
>
    decreases SEND_TXN_RETRIES - attempt,
{
    if attempt < 0 || attempt >= SEND_TXN_RETRIES {
        Seq::empty()
    } else {
        let step = step_after(attempt, outcomes(attempt));
        seq![step.report] + (match step.next_attempt {
            Some(next) => delivery_reports(attempt + 1, outcomes),
            None => Seq::empty(),
        })
    }
}

/// A delivery to a peer is tried until an attempt succeeds, but not more often than the limit: the attempts
/// before the last one did not deliver, and the last one did unless the limit is reached. A failed
/// attempt is reported as the last one only when the limit is reached.
pub proof fn lemma_delivery(outcomes: spec_fn(int) -> SendOutcome)
    ensures
        ({
            let reports = delivery_reports(0, outcomes);
            &&& 1 <= reports.len() <= SEND_TXN_RETRIES
            &&& forall|i: int|
                0 <= i < reports.len() ==> #[trigger] reports[i] == step_after(
                    i,
                    outcomes(i),
                ).report
            &&& forall|i: int|
                0 <= i < reports.len() - 1 ==> #[trigger] reports[i] != SendReport::Received
            &&& reports.len() < SEND_TXN_RETRIES ==> reports.last() == SendReport::Received
            &&& 1 <= reports.len() <= 10
            &&& forall|i: int|
                0 <= i < reports.len() - 1 ==> #[trigger] outcomes(i) != SendOutcome::Delivered
            &&& reports.len() < 10 ==> outcomes(reports.len() - 1) == SendOutcome::Delivered
            &&& forall|i: int|
                0 <= i < reports.len() ==> match outcomes(i) {
                    SendOutcome::Delivered => #[trigger] reports[i] == SendReport::Received,
                    SendOutcome::Failed => reports[i] == (SendReport::Error {
                        last_attempt: i == 9,
                    }),
                    SendOutcome::TimedOut => reports[i] == SendReport::Timeout,
                }
        }),
{
    lemma_delivery_from(0, outcomes);
    let reports = delivery_reports(0, outcomes);
    assert forall|i: int| 0 <= i < reports.len() - 1 implies #[trigger] outcomes(i)
        != SendOutcome::Delivered by {
        assert(reports[i] != SendReport::Received);
    }
}

proof fn lemma_delivery_from(attempt: int, outcomes: spec_fn(int) -> SendOutcome)
    requires
        0 <= attempt < SEND_TXN_RETRIES,
    ensures
        ({
            let reports = delivery_reports(attempt, outcomes);
            &&& 1 <= reports.len() <= SEND_TXN_RETRIES - attempt
            &&& forall|i: int|
                0 <= i < reports.len() ==> #[trigger] reports[i] == step_after(
                    attempt + i,
                    outcomes(attempt + i),
                ).report
            &&& forall|i: int|
                0 <= i < reports.len() - 1 ==> #[trigger] reports[i] != SendReport::Received
            &&& reports.len() < SEND_TXN_RETRIES - attempt ==> reports.last()
                == SendReport::Received
        }),
    decreases SEND_TXN_RETRIES - attempt,
{
    let reports = delivery_reports(attempt, outcomes);
    let step = step_after(attempt, outcomes(attempt));
    if step.next_attempt is Some {
        let rest = delivery_reports(attempt + 1, outcomes);
        lemma_delivery_from(attempt + 1, outcomes);
        assert(reports =~= seq![step.report] + rest);
        assert forall|i: int| 0 <= i < reports.len() implies #[trigger] reports[i] == step_after(
            attempt + i,
            outcomes(attempt + i),
        ).report by {
            if i > 0 {
                assert(reports[i] == rest[i - 1]);
            }
        }
        assert forall|i: int| 0 <= i < reports.len() - 1 implies #[trigger] reports[i]
            != SendReport::Received by {
            if i > 0 {
                assert(reports[i] == rest[i - 1]);
            }
        }
        assert(reports.last() == rest.last());
    } else {
        assert(reports =~= seq![step.report]);
    }
}

/// The reports of a delivery in a retry round, from the attempt with the given number on, where
/// `outcomes` says how each attempt ends.
pub open spec fn retry_delivery_reports(attempt: int, outcomes: spec_fn(int) -> SendOutcome) -> Seq<
    SendReport,
>
    decreases SEND_TXN_RETRIES - attempt,
{
    if attempt < 0 || attempt >= SEND_TXN_RETRIES {
        Seq::empty()
    } else {
        let step = step_after_retry(attempt, outcomes(attempt));
        seq![step.report] + (match step.next_attempt {
            Some(next) => retry_delivery_reports(attempt + 1, outcomes),
            None => Seq::empty(),
        })
    }
}

/// A delivery in a retry round ends with the first attempt that delivers or takes too long, after as
/// many attempts as the limit allows at most: every attempt before the last one failed, and the last
/// one delivered or took too long unless the limit is reached.
pub proof fn lemma_retry_delivery(outcomes: spec_fn(int) -> SendOutcome)
    ensures
        ({
            let reports = retry_delivery_reports(0, outcomes);
            &&& 1 <= reports.len() <= SEND_TXN_RETRIES
            &&& forall|i: int|
                0 <= i < reports.len() ==> #[trigger] reports[i] == step_after_retry(
                    i,
                    outcomes(i),
                ).report
            &&& forall|i: int|
                0 <= i < reports.len() - 1 ==> #[trigger] outcomes(i) == SendOutcome::Failed
            &&& reports.len() < SEND_TXN_RETRIES ==> outcomes(reports.len() - 1)
                != SendOutcome::Failed
            &&& 1 <= reports.len() <= 10
            &&& reports.len() < 10 ==> outcomes(reports.len() - 1) != SendOutcome::Failed
            &&& forall|i: int|
                0 <= i < reports.len() ==> match outcomes(i) {
                    SendOutcome::Delivered => #[trigger] reports[i] == SendReport::Received,
                    SendOutcome::Failed => reports[i] == (SendReport::Error {
                        last_attempt: i == 9,
                    }),
                    SendOutcome::TimedOut => reports[i] == SendReport::Timeout,
                }
        }),
{
    lemma_retry_delivery_from(0, outcomes);
}

proof fn lemma_retry_delivery_from(attempt: int, outcomes: spec_fn(int) -> SendOutcome)
    requires
        0 <= attempt < SEND_TXN_RETRIES,
    ensures
        ({
            let reports = retry_delivery_reports(attempt, outcomes);
            &&& 1 <= reports.len() <= SEND_TXN_RETRIES - attempt
            &&& forall|i: int|
                0 <= i < reports.len() ==> #[trigger] reports[i] == step_after_retry(
                    attempt + i,
                    outcomes(attempt + i),
                ).report
            &&& forall|n: int|
                attempt <= n < attempt + reports.len() - 1 ==> #[trigger] outcomes(n)
                    == SendOutcome::Failed
            &&& reports.len() < SEND_TXN_RETRIES - attempt ==> outcomes(
                attempt + reports.len() - 1,
            ) != SendOutcome::Failed
        }),
    decreases SEND_TXN_RETRIES - attempt,
{
    let reports = retry_delivery_reports(attempt, outcomes);
    let step = step_after_retry(attempt, outcomes(attempt));
    if step.next_attempt is Some {
        let rest = retry_delivery_reports(attempt + 1, outcomes);
        lemma_retry_delivery_from(attempt + 1, outcomes);
        assert(reports =~= seq![step.report] + rest);
        assert forall|i: int| 0 <= i < reports.len() implies #[trigger] reports[i]
            == step_after_retry(attempt + i, outcomes(attempt + i)).report by {
            if i > 0 {
                assert(reports[i] == rest[i - 1]);
            }
        }
    } else {
        assert(reports =~= seq![step.report]);
    }
}

/// A leader to send to.
pub struct LeaderTarget {
    /// The number of the leader among those that can be sent to, from zero.
    pub leader_num: usize,
    /// The socket address of the leader's QUIC TPU port.
    pub tpu_quic: String,
}

/// The content of a [`LeaderTarget`].
pub struct LeaderTargetView {
    pub leader_num: int,
    pub tpu_quic: Seq<char>,
}

impl View for LeaderTarget {
    type V = LeaderTargetView;

    open spec fn view(&self) -> LeaderTargetView {
        LeaderTargetView { leader_num: self.leader_num as int, tpu_quic: self.tpu_quic@ }
    }
}

/// The contents of a list of targets.
pub open spec fn target_views(targets: Seq<LeaderTarget>) -> Seq<LeaderTargetView> {
    targets.map_values(|target: LeaderTarget| target@)
}

/// The leaders that have a QUIC address, in their order, numbered from zero.
pub open spec fn targets_of(leaders: Seq<ContactInfoView>) -> Seq<LeaderTargetView>
    decreases leaders.len(),
{
    if leaders.len() == 0 {
        Seq::empty()
    } else {
        let targets = targets_of(leaders.drop_last());
        match leaders.last().tpu_quic {
            Some(tpu_quic) => targets.push(
                LeaderTargetView { leader_num: targets.len() as int, tpu_quic },
            ),
            None => targets,
        }
    }
}

/// Picks the leaders that can be sent to.
pub fn leader_targets(leaders: &Vec<ContactInfo>) -> (targets: Vec<LeaderTarget>)
    ensures
        target_views(targets@) == targets_of(contact_views(leaders@)),
        targets@.len() == reachable(leaders@).len(),
        forall|k: int|
            0 <= k < targets@.len() ==> (#[trigger] targets@[k]).leader_num == k
                && targets@[k].tpu_quic@ == reachable(leaders@)[k].tpu_quic->0@,
{
    let ghost views = contact_views(leaders@);
    let mut targets: Vec<LeaderTarget> = Vec::new();
    let mut i: usize = 0;
    assert(target_views(targets@) =~= targets_of(views.take(0)));
    while i < leaders.len()
        invariant
            i <= leaders@.len(),
            views == contact_views(leaders@),
            target_views(targets@) == targets_of(views.take(i as int)),
        decreases leaders@.len() - i,
    {
        assert(views.take(i + 1).drop_last() =~= views.take(i as int));
        if let Some(tpu_quic) = &leaders[i].tpu_quic {
            let target = LeaderTarget { leader_num: targets.len(), tpu_quic: tpu_quic.clone() };
            proof {
                targets@.lemma_push_map_commute(|target: LeaderTarget| target@, target);
            }
            targets.push(target);
        }
        i = i + 1;
    }
    assert(views.take(i as int) =~= views);
    proof {
        lemma_targets(leaders@);
        assert forall|k: int| 0 <= k < targets@.len() implies (#[trigger] targets@[k]).leader_num
            == k && targets@[k].tpu_quic@ == reachable(leaders@)[k].tpu_quic->0@ by {
            assert(target_views(targets@)[k] == targets@[k]@);
        }
    }
    targets
}

/// The leaders that have a QUIC address, in their order.
pub open spec fn reachable(leaders: Seq<ContactInfo>) -> Seq<ContactInfo> {
    leaders.filter(|leader: ContactInfo| leader.tpu_quic is Some)
}

/// There is one target for each leader that has a QUIC address, in the order of the leaders. It has the
/// number of its place and that very address.
pub proof fn lemma_targets(leaders: Seq<ContactInfo>)
    ensures
        targets_of(contact_views(leaders)).len() == reachable(leaders).len(),
        forall|k: int|
            0 <= k < reachable(leaders).len() ==> {
                let target = #[trigger] targets_of(contact_views(leaders))[k];
                &&& target.leader_num == k
                &&& reachable(leaders)[k].tpu_quic is Some
                &&& target.tpu_quic == reachable(leaders)[k].tpu_quic->0@
            },
    decreases leaders.len(),
{
    let has_quic = |leader: ContactInfo| leader.tpu_quic is Some;
    if leaders.len() == 0 {
        assert(leaders.filter(has_quic).len() == 0) by {
            leaders.lemma_filter_len(has_quic);
        }
        assert(reachable(leaders) =~= leaders.filter(has_quic));
    } else {
        let before = leaders.drop_last();
        let last = leaders.last();
        lemma_targets(before);
        assert(contact_views(leaders).drop_last() =~= contact_views(before));
        assert(leaders =~= before.push(last));
        before.lemma_filter_push(last, has_quic);
        assert(contact_views(leaders).last() == last@);
        assert(reachable(leaders) == (if last.tpu_quic is Some {
            reachable(before).push(last)
        } else {
            reachable(before)
        }));
    }
}

/// Only the QUIC addresses of the leaders bear on the targets.
pub proof fn lemma_only_quic_addresses_matter(
    first: Seq<ContactInfoView>,
    second: Seq<ContactInfoView>,
)
    requires
        first.len() == second.len(),
        forall|i: int|
            0 <= i < first.len() ==> (#[trigger] first[i]).tpu_quic == second[i].tpu_quic,
    ensures
        targets_of(first) == targets_of(second),
    decreases first.len(),
{
    if first.len() > 0 {
        assert(first.last().tpu_quic == second.last().tpu_quic) by {
            assert(first[first.len() - 1].tpu_quic == second[second.len() - 1].tpu_quic);
        }
        assert forall|i: int| 0 <= i < first.drop_last().len() implies (
        #[trigger] first.drop_last()[i]).tpu_quic == second.drop_last()[i].tpu_quic by {
            assert(first[i].tpu_quic == second[i].tpu_quic);
        }
        lemma_only_quic_addresses_matter(first.drop_last(), second.drop_last());
    }
}

/// All attempts of a delivery together take ten times half a second at most, and no attempt is cut
/// short before half a second.
pub proof fn lemma_delivery_time(outcomes: spec_fn(int) -> SendOutcome)
    ensures
        MAX_TIMEOUT_SEND_DATA == 500,
        MAX_TIMEOUT_SEND_DATA_BATCH == 500,
        delivery_reports(0, outcomes).len() * MAX_TIMEOUT_SEND_DATA <= 5_000,
        retry_delivery_reports(0, outcomes).len() * MAX_TIMEOUT_SEND_DATA_BATCH <= 5_000,
{
    lemma_delivery(outcomes);
    lemma_retry_delivery(outcomes);
}

/// A transaction to send to one leader.
pub struct LeaderSend {
    pub target: LeaderTarget,
    pub wire_transaction: Vec<u8>,
}

/// The content of a [`LeaderSend`].
pub struct LeaderSendView {
    pub target: LeaderTargetView,
    pub wire_transaction: Seq<u8>,
}

impl View for LeaderSend {
    type V = LeaderSendView;

    open spec fn view(&self) -> LeaderSendView {
        LeaderSendView { target: self.target@, wire_transaction: self.wire_transaction@ }
    }
}

/// The contents of a list of sends to leaders.
pub open spec fn leader_send_views(sends: Seq<LeaderSend>) -> Seq<LeaderSendView> {
    sends.map_values(|send: LeaderSend| send@)
}

/// A transaction goes to each of the targets.
pub open spec fn sends_to_targets(
    targets: Seq<LeaderTargetView>,
    wire_transaction: Seq<u8>,
) -> Seq<LeaderSendView> {
    targets.map_values(|target: LeaderTargetView| LeaderSendView { target, wire_transaction })
}

/// Addresses a transaction to each of the leaders that can be sent to.
pub fn send_to_leaders(wire_transaction: &Vec<u8>, leaders: &Vec<ContactInfo>) -> (sends: Vec<
    LeaderSend,
>)
    ensures
        leader_send_views(sends@) == sends_to_targets(
            targets_of(contact_views(leaders@)),
            wire_transaction@,
        ),
        sends@.len() == reachable(leaders@).len(),
        forall|k: int|
            0 <= k < sends@.len() ==> {
                let send = #[trigger] sends@[k];
                &&& send.target.leader_num == k
                &&& send.target.tpu_quic@ == reachable(leaders@)[k].tpu_quic->0@
                &&& send.wire_transaction@ == wire_transaction@
            },
{
    let targets = leader_targets(leaders);
    let ghost all = targets@;
    let mut sends: Vec<LeaderSend> = Vec::new();
    for target in walk: targets.into_iter()
        invariant
            walk.seq() == all,
            sends@.len() == walk.index(),
            forall|j: int|
                0 <= j < walk.index() ==> (#[trigger] sends@[j]).target == all[j]
                    && sends@[j].wire_transaction@ == wire_transaction@,
    {
        sends.push(LeaderSend { target, wire_transaction: copy_all(wire_transaction) });
    }
    assert forall|k: int| 0 <= k < sends@.len() implies (#[trigger] sends@[k]).target.leader_num == k
        && sends@[k].target.tpu_quic@ == reachable(leaders@)[k].tpu_quic->0@ by {
        assert(all[k] == sends@[k].target);
    }
    assert(leader_send_views(sends@) =~= sends_to_targets(target_views(all), wire_transaction@));
    sends
}

} // verus!
