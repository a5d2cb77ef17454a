use atlas_txn_sender::contact::ContactInfo;
use atlas_txn_sender::keys::{contains_key, parse_pubkeys, pubkeys_to_strings, same_key};
use atlas_txn_sender::validators::{find_validators, select_validators};
use solana_sdk::pubkey::Pubkey;

fn named(pubkey: &str, tpu: Option<&str>) -> ContactInfo {
    ContactInfo {
        pubkey: pubkey.to_string(),
        tpu: tpu.map(|address| address.to_string()),
        tpu_quic: None,
    }
}

#[test]
fn keys_are_written_and_read_in_base_58() {
    let text = "ComputeBudget111111111111111111111111111111".to_string();
    let keys = vec![solana_sdk::compute_budget::id().to_bytes()];
    assert_eq!(pubkeys_to_strings(&keys), vec![text.clone()]);
    assert_eq!(
        parse_pubkeys(&vec![text, "short".to_string(), "0OIl".to_string()]),
        vec![Some(keys[0]), None, None]
    );
}

#[test]
fn keys_are_compared_in_full() {
    let mut other = [1u8; 32];
    other[31] = 2;
    assert!(same_key(&[1u8; 32], &[1u8; 32]));
    assert!(!same_key(&[1u8; 32], &other));
    assert!(contains_key(&vec![[0u8; 32], other], &other));
    assert!(!contains_key(&vec![[0u8; 32], other], &[1u8; 32]));
    assert!(!contains_key(&vec![], &other));
}

#[test]
fn nodes_with_wanted_keys_are_picked_in_order() {
    let nodes = vec![
        named("x", Some("1")),
        named("y", Some("2")),
        named("z", None),
        named("w", Some("4")),
    ];
    let keys = vec![Some([3u8; 32]), None, Some([1u8; 32]), Some([2u8; 32])];
    let infos = select_validators(&nodes, &keys, &vec![[1u8; 32], [3u8; 32]]);
    assert_eq!(infos.len(), 2);
    assert_eq!(infos[0].pubkey, [3u8; 32]);
    assert_eq!(infos[0].tpu_address, "1");
    assert_eq!(infos[1].pubkey, [1u8; 32]);
    assert_eq!(infos[1].tpu_address, "");
}

#[test]
fn nodes_with_unreadable_keys_are_passed_over() {
    let key = Pubkey::from([7u8; 32]).to_string();
    let nodes = vec![named("no key", Some("1")), named(&key, Some("2"))];
    let infos = find_validators(&nodes, &vec![[7u8; 32]]);
    assert_eq!(infos.len(), 1);
    assert_eq!(infos[0].tpu_address, "2");
}
