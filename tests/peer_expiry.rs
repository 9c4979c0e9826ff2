use keyless_mux::peer_expiry::{expected_alive_minutes, is_expired};

#[test]
fn expiry_compares_against_now() {
    assert!(!is_expired(None, 5));
    assert!(!is_expired(Some(10), 10));
    assert!(is_expired(Some(10), 11));
}

#[test]
fn alive_minutes_round_down() {
    assert_eq!(expected_alive_minutes(None, 0), u64::MAX);
    assert_eq!(expected_alive_minutes(Some(180_000), 0), 3);
    assert_eq!(expected_alive_minutes(Some(179_999), 0), 2);
    assert_eq!(expected_alive_minutes(Some(10), 20), 0);
}
