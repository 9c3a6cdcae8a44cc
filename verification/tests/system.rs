use nginx_auth_totp::system::{
    epoch_seconds, initialize_rng_from_time, now_unix_epoch, seed_from,
};

#[test]
fn seed_is_the_two_halves_of_the_nanoseconds() {
    assert_eq!(seed_from(0, 0), (0, 0));
    assert_eq!(seed_from(0, 1), (0, 1));
    assert_eq!(seed_from(1, 0), (0, 1_000_000_000));
    assert_eq!(seed_from(1, 5), (0, 1_000_000_005));
    let nanos: u128 = 1_700_000_000u128 * 1_000_000_000 + 123_456_789;
    assert_eq!(seed_from(1_700_000_000, 123_456_789), ((nanos >> 64) as u64, nanos as u64));
    let big: u128 = (u64::MAX as u128) * 1_000_000_000 + 999_999_999;
    assert_eq!(seed_from(u64::MAX, 999_999_999), ((big >> 64) as u64, big as u64));
    assert_eq!(seed_from(18_446_744_074, 0).0, 1);
}

#[test]
fn clock_is_close_to_the_system_time() {
    let before = std::time::SystemTime::now()
        .duration_since(std::time::UNIX_EPOCH)
        .unwrap()
        .as_secs();
    let now = now_unix_epoch();
    assert!(now >= before && now <= before + 5);
}

#[test]
fn seeding_changes_what_the_source_gives() {
    initialize_rng_from_time();
    let a = nginx_auth_totp::cookie_store::fresh_token();
    let b = nginx_auth_totp::cookie_store::fresh_token();
    assert_ne!(a, b);
}

#[test]
fn reading_before_the_epoch_counts_as_zero() {
    assert_eq!(epoch_seconds(None), 0);
    assert_eq!(epoch_seconds(Some((0, 0))), 0);
    assert_eq!(epoch_seconds(Some((1_700_000_000, 999_999_999))), 1_700_000_000);
    assert_eq!(epoch_seconds(Some((u64::MAX, 5))), u64::MAX);
}
