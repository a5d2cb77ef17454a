use atlas_txn_sender::contact::ContactInfo;
use atlas_txn_sender::delivery::{
    after_attempt, after_retry_attempt, leader_targets, send_to_leaders, SendOutcome, SendReport,
    SendStep, SEND_TXN_RETRIES,
};

fn leader(pubkey: &str, tpu_quic: Option<&str>) -> ContactInfo {
    ContactInfo {
        pubkey: pubkey.to_string(),
        tpu: None,
        tpu_quic: tpu_quic.map(|address| address.to_string()),
    }
}

fn deliver(
    decide: fn(usize, SendOutcome) -> SendStep,
    outcomes: &[SendOutcome],
) -> Vec<SendReport> {
    let mut reports = vec![];
    let mut attempt = Some(0);
    while let Some(i) = attempt {
        let step = decide(i, outcomes[i]);
        reports.push(step.report);
        attempt = step.next_attempt;
    }
    reports
}

#[test]
fn delivery_ends_the_attempts() {
    assert_eq!(
        after_attempt(3, SendOutcome::Delivered),
        SendStep { report: SendReport::Received, next_attempt: None }
    );
}

#[test]
fn failure_and_timeout_lead_to_the_next_attempt() {
    assert_eq!(
        after_attempt(0, SendOutcome::Failed),
        SendStep { report: SendReport::Error { last_attempt: false }, next_attempt: Some(1) }
    );
    assert_eq!(
        after_attempt(8, SendOutcome::TimedOut),
        SendStep { report: SendReport::Timeout, next_attempt: Some(9) }
    );
}

#[test]
fn tenth_attempt_is_the_last() {
    assert_eq!(SEND_TXN_RETRIES, 10);
    assert_eq!(
        after_attempt(9, SendOutcome::Failed),
        SendStep { report: SendReport::Error { last_attempt: true }, next_attempt: None }
    );
    assert_eq!(
        after_attempt(9, SendOutcome::TimedOut),
        SendStep { report: SendReport::Timeout, next_attempt: None }
    );
}

#[test]
fn delivery_stops_at_success_or_at_the_limit() {
    let mut outcomes = [SendOutcome::TimedOut; 10];
    outcomes[1] = SendOutcome::Failed;
    outcomes[2] = SendOutcome::Delivered;
    assert_eq!(
        deliver(after_attempt, &outcomes),
        vec![
            SendReport::Timeout,
            SendReport::Error { last_attempt: false },
            SendReport::Received
        ]
    );
    let reports = deliver(after_attempt, &[SendOutcome::Failed; 10]);
    assert_eq!(reports.len(), 10);
    assert_eq!(reports[8], SendReport::Error { last_attempt: false });
    assert_eq!(reports[9], SendReport::Error { last_attempt: true });
}

#[test]
fn retry_round_tries_again_unless_it_timed_out() {
    assert_eq!(
        after_retry_attempt(0, SendOutcome::TimedOut),
        SendStep { report: SendReport::Timeout, next_attempt: None }
    );
    assert_eq!(
        after_retry_attempt(0, SendOutcome::Failed),
        SendStep { report: SendReport::Error { last_attempt: false }, next_attempt: Some(1) }
    );
    assert_eq!(
        after_retry_attempt(9, SendOutcome::Failed),
        SendStep { report: SendReport::Error { last_attempt: true }, next_attempt: None }
    );
    assert_eq!(
        after_retry_attempt(4, SendOutcome::Delivered),
        SendStep { report: SendReport::Received, next_attempt: None }
    );
}

#[test]
fn retry_delivery_stops_at_success_timeout_or_the_limit() {
    let mut outcomes = [SendOutcome::Failed; 10];
    assert_eq!(deliver(after_retry_attempt, &outcomes).len(), 10);
    outcomes[2] = SendOutcome::TimedOut;
    outcomes[3] = SendOutcome::Delivered;
    assert_eq!(
        deliver(after_retry_attempt, &outcomes),
        vec![
            SendReport::Error { last_attempt: false },
            SendReport::Error { last_attempt: false },
            SendReport::Timeout
        ]
    );
    outcomes[1] = SendOutcome::Delivered;
    assert_eq!(
        deliver(after_retry_attempt, &outcomes),
        vec![SendReport::Error { last_attempt: false }, SendReport::Received]
    );
}

#[test]
fn leaders_without_quic_address_are_passed_over() {
    let leaders = vec![
        leader("a", None),
        leader("b", Some("10.0.0.1:8009")),
        leader("c", None),
        leader("d", Some("10.0.0.2:8009")),
    ];
    let targets = leader_targets(&leaders);
    assert_eq!(targets.len(), 2);
    assert_eq!(targets[0].leader_num, 0);
    assert_eq!(targets[0].tpu_quic, "10.0.0.1:8009");
    assert_eq!(targets[1].leader_num, 1);
    assert_eq!(targets[1].tpu_quic, "10.0.0.2:8009");
}

#[test]
fn transaction_goes_to_every_leader_with_a_quic_address() {
    let leaders = vec![
        leader("a", Some("10.0.0.1:8009")),
        leader("b", None),
        leader("c", Some("10.0.0.2:8009")),
    ];
    let sends = send_to_leaders(&vec![1, 2, 3], &leaders);
    assert_eq!(sends.len(), 2);
    for (i, address) in ["10.0.0.1:8009", "10.0.0.2:8009"].iter().enumerate() {
        assert_eq!(sends[i].target.leader_num, i);
        assert_eq!(sends[i].target.tpu_quic, *address);
        assert_eq!(sends[i].wire_transaction, vec![1, 2, 3]);
    }
}
