use atlas_txn_sender::contact::ContactInfo;
use atlas_txn_sender::leader_tracker::{
    _get_start_slot, get_leader_tpu_address, has_slots_for, has_start_slot, ClusterReply, LeaderTracker,
    LeaderTrackerImpl,
};
use solana_sdk::pubkey::Pubkey;

fn key(n: u8) -> [u8; 32] {
    [n; 32]
}

fn node(n: u8, tpu: Option<&str>) -> ContactInfo {
    ContactInfo {
        pubkey: Pubkey::from(key(n)).to_string(),
        tpu: tpu.map(|address| address.to_string()),
        tpu_quic: None,
    }
}

fn named(name: &str, tpu: Option<&str>) -> ContactInfo {
    ContactInfo {
        pubkey: name.to_string(),
        tpu: tpu.map(|address| address.to_string()),
        tpu_quic: None,
    }
}

fn strings(names: &[&str]) -> Vec<String> {
    names.iter().map(|name| name.to_string()).collect()
}

fn pubkeys(leaders: Vec<ContactInfo>) -> Vec<String> {
    leaders.into_iter().map(|leader| leader.pubkey).collect()
}

#[test]
fn start_slot_is_four_slots_per_leader_away() {
    assert_eq!(_get_start_slot(100, 0), 100);
    assert_eq!(_get_start_slot(100, 3), 112);
    assert_eq!(_get_start_slot(100, -5), 80);
    assert_eq!(_get_start_slot(20, -5), 0);
}

#[test]
fn start_slot_has_to_fit() {
    assert!(has_start_slot(20, -5));
    assert!(!has_start_slot(19, -5));
    assert!(has_start_slot(u64::MAX - 4, 1));
    assert!(!has_start_slot(u64::MAX - 3, 1));
    assert!(!has_start_slot(0, i64::MAX));
    assert!(!has_start_slot(u64::MAX, i64::MIN));
    assert!(!has_start_slot(u64::MAX, i64::MIN / 4));
}

#[test]
fn slot_never_goes_back() {
    let mut tracker = LeaderTrackerImpl::new(2, 1);
    assert_eq!(tracker.cur_slot(), 0);
    assert_eq!(tracker.leader_offset(), 1);
    tracker.poll_slot(Some(10));
    assert_eq!(tracker.cur_slot(), 14);
    tracker.poll_slot(Some(5));
    assert_eq!(tracker.cur_slot(), 14);
    tracker.poll_slot(None);
    assert_eq!(tracker.cur_slot(), 14);
    tracker.poll_slot(Some(11));
    assert_eq!(tracker.cur_slot(), 15);
}

#[test]
fn learns_the_leaders_that_the_cluster_lists() {
    let mut tracker = LeaderTrackerImpl::new(3, 0);
    tracker.poll_slot(Some(100));
    let reply = ClusterReply::Fetched {
        slot_leaders: vec![key(1), key(1), key(9), key(2), key(2)],
        cluster_nodes: vec![node(2, Some("2:1")), node(1, Some("1:1")), node(3, None)],
    };
    let (outcome, seconds) = tracker.poll_slot_leaders(100, reply);
    assert!(outcome.is_ok());
    assert_eq!(seconds, 60);
    assert_eq!(
        pubkeys(tracker.get_leaders()),
        vec![Pubkey::from(key(1)).to_string(), Pubkey::from(key(2)).to_string()]
    );
}

#[test]
fn last_node_with_a_key_counts() {
    let mut tracker = LeaderTrackerImpl::new(1, 0);
    tracker.record_slot_leaders(
        0,
        &strings(&["a"]),
        vec![named("a", Some("old")), named("a", Some("new"))],
    );
    assert_eq!(get_leader_tpu_address(&tracker, "a"), Some("new".to_string()));
}

#[test]
fn failed_requests_change_nothing() {
    let mut tracker = LeaderTrackerImpl::new(1, 0);
    tracker.record_slot_leaders(0, &strings(&["a"]), vec![named("a", None)]);
    let (outcome, seconds) =
        tracker.poll_slot_leaders(0, ClusterReply::NoSlotLeaders("down".to_string()));
    assert_eq!(outcome.err().unwrap().message, "Error getting slot leaders: down");
    assert_eq!(seconds, 1);
    let (outcome, seconds) =
        tracker.poll_slot_leaders(0, ClusterReply::NoClusterNodes("busy".to_string()));
    assert_eq!(outcome.err().unwrap().message, "Error getting cluster nodes: busy");
    assert_eq!(seconds, 1);
    assert_eq!(pubkeys(tracker.get_leaders()), strings(&["a"]));
}

#[test]
fn past_slots_are_forgotten() {
    let mut tracker = LeaderTrackerImpl::new(4, 0);
    tracker.record_slot_leaders(
        10,
        &strings(&["a", "b", "c"]),
        vec![named("a", Some("1")), named("b", Some("2")), named("c", Some("3"))],
    );
    tracker.poll_slot(Some(11));
    tracker.clean_up_slot_leaders();
    assert_eq!(get_leader_tpu_address(&tracker, "a"), None);
    assert_eq!(get_leader_tpu_address(&tracker, "b"), Some("2".to_string()));
    assert_eq!(pubkeys(tracker.get_leaders()), strings(&["b", "c"]));
}

#[test]
fn pass_forgets_learned_leaders_of_past_slots() {
    let mut tracker = LeaderTrackerImpl::new(4, 0);
    tracker.poll_slot(Some(1));
    let reply = ClusterReply::Fetched {
        slot_leaders: vec![key(1), key(2)],
        cluster_nodes: vec![node(1, Some("1:1")), node(2, Some("2:1"))],
    };
    assert!(tracker.poll_slot_leaders_once(0, reply).is_ok());
    let first = Pubkey::from(key(1)).to_string();
    let second = Pubkey::from(key(2)).to_string();
    assert_eq!(get_leader_tpu_address(&tracker, &first), None);
    assert_eq!(get_leader_tpu_address(&tracker, &second), Some("2:1".to_string()));
}

#[test]
fn leaders_are_different_and_in_slot_order() {
    let mut tracker = LeaderTrackerImpl::new(2, 0);
    tracker.record_slot_leaders(
        0,
        &strings(&["b", "b", "a", "a", "c"]),
        vec![named("a", None), named("b", None), named("c", None)],
    );
    assert_eq!(pubkeys(tracker.get_leaders()), strings(&["b", "a"]));
}

#[test]
fn search_ends_after_four_slots_per_leader() {
    let mut tracker = LeaderTrackerImpl::new(1, 0);
    tracker.record_slot_leaders(3, &strings(&["a"]), vec![named("a", None)]);
    assert_eq!(pubkeys(tracker.get_leaders()), strings(&["a"]));
    let mut tracker = LeaderTrackerImpl::new(1, 0);
    tracker.record_slot_leaders(4, &strings(&["a"]), vec![named("a", None)]);
    assert!(tracker.get_leaders().is_empty());
    let mut tracker = LeaderTrackerImpl::new(0, 0);
    tracker.record_slot_leaders(0, &strings(&["a"]), vec![named("a", None)]);
    assert!(tracker.get_leaders().is_empty());
}

#[test]
fn leader_met_again_keeps_its_place_with_its_latest_address() {
    let mut tracker = LeaderTrackerImpl::new(3, 0);
    tracker.record_slot_leaders(0, &strings(&["a"]), vec![named("a", Some("old"))]);
    tracker.record_slot_leaders(
        1,
        &strings(&["b", "a"]),
        vec![named("a", Some("new")), named("b", Some("b"))],
    );
    let leaders = tracker.get_leaders();
    assert_eq!(leaders.len(), 2);
    assert_eq!(leaders[0].pubkey, "a");
    assert_eq!(leaders[0].tpu, Some("new".to_string()));
    assert_eq!(leaders[1].pubkey, "b");
    assert_eq!(get_leader_tpu_address(&tracker, "a"), Some("old".to_string()));
}

#[test]
fn unknown_leader_or_leader_without_address_has_none() {
    let mut tracker = LeaderTrackerImpl::new(1, 0);
    tracker.record_slot_leaders(0, &strings(&["a"]), vec![named("a", None)]);
    assert_eq!(get_leader_tpu_address(&tracker, "a"), None);
    assert_eq!(get_leader_tpu_address(&tracker, "b"), None);
}

#[test]
fn only_slots_that_get_a_leader_have_to_fit() {
    let reply = |leaders: Vec<[u8; 32]>| ClusterReply::Fetched {
        slot_leaders: leaders,
        cluster_nodes: vec![node(1, Some("1:1"))],
    };
    let last = u64::MAX - 1;
    assert!(has_slots_for(last, &reply(vec![key(1), key(1)])));
    assert!(has_slots_for(last, &reply(vec![key(1), key(1), key(9), key(9)])));
    assert!(!has_slots_for(last, &reply(vec![key(1), key(1), key(9), key(1)])));
    assert!(has_slots_for(last, &ClusterReply::NoSlotLeaders("down".to_string())));
    let mut tracker = LeaderTrackerImpl::new(1, 0);
    assert!(tracker.try_poll_slot_leaders(last, reply(vec![key(9), key(9), key(1)])).is_none());
    let name = Pubkey::from(key(1)).to_string();
    assert_eq!(get_leader_tpu_address(&tracker, &name), None);
    let (outcome, seconds) =
        tracker.try_poll_slot_leaders(last, reply(vec![key(9), key(1), key(9)])).unwrap();
    assert!(outcome.is_ok());
    assert_eq!(seconds, 60);
    assert_eq!(get_leader_tpu_address(&tracker, &name), Some("1:1".to_string()));
}

#[test]
fn searched_slots_have_to_fit() {
    let mut tracker = LeaderTrackerImpl::new(2, 0);
    assert!(tracker.can_list_leaders());
    tracker.poll_slot(Some(u64::MAX - 8));
    assert!(tracker.can_list_leaders());
    assert!(tracker.get_leaders().is_empty());
    tracker.poll_slot(Some(u64::MAX - 7));
    assert!(!tracker.can_list_leaders());
    assert!(!LeaderTrackerImpl::new(usize::MAX, 0).can_list_leaders());
}

#[test]
fn search_ends_with_the_first_slot_of_the_last_leader() {
    let mut tracker = LeaderTrackerImpl::new(2, 0);
    tracker.record_slot_leaders(0, &strings(&["a", "a"]), vec![named("a", Some("1"))]);
    tracker.record_slot_leaders(1, &strings(&["a", "b"]), vec![
        named("a", Some("2")),
        named("b", Some("3")),
    ]);
    tracker.record_slot_leaders(3, &strings(&["a", "c"]), vec![
        named("a", Some("4")),
        named("c", Some("5")),
    ]);
    let leaders = tracker.get_leaders();
    assert_eq!(leaders.len(), 2);
    assert_eq!(leaders[0].pubkey, "a");
    assert_eq!(leaders[0].tpu, Some("2".to_string()));
    assert_eq!(leaders[1].pubkey, "b");
}
