use atlas_txn_sender::config::{
    collect_pubkeys, get_min_transaction_fee, get_rpc_url, get_txn_send_retry_interval,
    parse_validator_pubkeys, split_at_commas,
};
use solana_sdk::pubkey::Pubkey;

#[test]
fn min_fee_has_a_default() {
    assert_eq!(get_min_transaction_fee(None), Some(30_000));
    assert_eq!(get_min_transaction_fee(Some("45000")), Some(45_000));
    assert_eq!(get_min_transaction_fee(Some("+7")), Some(7));
    assert_eq!(get_min_transaction_fee(Some("18446744073709551615")), Some(u64::MAX));
}

#[test]
fn min_fee_refuses_what_is_no_number() {
    for text in ["", "+", "-1", " 1", "1 ", "1_000", "0x10", "18446744073709551616", "\u{0661}"] {
        assert_eq!(get_min_transaction_fee(Some(text)), None);
    }
}

#[test]
fn retry_interval_has_a_default() {
    assert_eq!(get_txn_send_retry_interval(None), Some(1_000));
    assert_eq!(get_txn_send_retry_interval(Some("0250")), Some(250));
    assert_eq!(get_txn_send_retry_interval(Some("soon")), None);
}

#[test]
fn rpc_url_has_a_default() {
    assert_eq!(get_rpc_url(None), "http://localhost:8899");
    assert_eq!(get_rpc_url(Some("http://10.0.0.1:1")), "http://10.0.0.1:1");
    assert_eq!(get_rpc_url(Some("")), "");
}

#[test]
fn splits_at_every_comma() {
    assert_eq!(split_at_commas(""), vec![""]);
    assert_eq!(split_at_commas("a"), vec!["a"]);
    assert_eq!(split_at_commas("a,b"), vec!["a", "b"]);
    assert_eq!(split_at_commas(",\u{e9},"), vec!["", "\u{e9}", ""]);
}

#[test]
fn reads_validator_keys() {
    let first = Pubkey::from([1u8; 32]);
    let second = Pubkey::from([2u8; 32]);
    let text = format!("{},{}", first, second);
    assert_eq!(parse_validator_pubkeys(&text), Ok(vec![[1u8; 32], [2u8; 32]]));
}

#[test]
fn names_the_first_bad_validator_key() {
    let key = Pubkey::from([1u8; 32]).to_string();
    let text = format!("{},bad,worse", key);
    assert_eq!(parse_validator_pubkeys(&text), Err("bad".to_string()));
    assert_eq!(parse_validator_pubkeys(""), Err("".to_string()));
    assert_eq!(parse_validator_pubkeys(&format!(" {}", key)), Err(format!(" {}", key)));
}

#[test]
fn collects_keys_up_to_the_first_gap() {
    let pieces = vec!["x".to_string(), "y".to_string(), "z".to_string()];
    let keys = vec![Some([1u8; 32]), Some([2u8; 32]), Some([3u8; 32])];
    assert_eq!(collect_pubkeys(&pieces, &keys), Ok(vec![[1u8; 32], [2u8; 32], [3u8; 32]]));
    let keys = vec![Some([1u8; 32]), None, None];
    assert_eq!(collect_pubkeys(&pieces, &keys), Err("y".to_string()));
}
