use nginx_auth_totp::text::bytes_equal;
use nginx_auth_totp::totp::{
    code_matches, counts_next, counts_previous, key_accepts, secret_accepts_at, verify,
    verify_any_at, verify_at, TotpError,
};

const SECRET: &str = "3132333435363738393031323334353637383930";
const KEY: &[u8] = b"12345678901234567890";

fn code(step: u64) -> String {
    format!("{:06}", oath::hotp_raw(KEY, step, 6))
}

#[test]
fn code_text_is_zero_padded_to_six() {
    assert!(code_matches(0, "000000"));
    assert!(code_matches(7, "000007"));
    assert!(code_matches(42, "000042"));
    assert!(code_matches(123456, "123456"));
    assert!(code_matches(999999, "999999"));
    assert!(code_matches(100000, "100000"));
    assert!(!code_matches(7, "7"));
    assert!(!code_matches(7, "0000007"));
    assert!(!code_matches(7, "00007"));
    assert!(!code_matches(123456, "123457"));
    assert!(!code_matches(123456, ""));
    assert!(!code_matches(123456, " 123456"));
}

#[test]
fn code_text_longer_than_six_digits() {
    assert!(code_matches(1234567, "1234567"));
    assert!(!code_matches(1234567, "234567"));
    assert!(code_matches(u64::MAX, "18446744073709551615"));
}

#[test]
fn bytes_equal_compares_content() {
    assert!(bytes_equal(b"", b""));
    assert!(bytes_equal(b"abc", b"abc"));
    assert!(!bytes_equal(b"abc", b"abd"));
    assert!(!bytes_equal(b"abc", b"ab"));
    assert!(!bytes_equal(b"", b"a"));
}

#[test]
fn neighbouring_steps_count_near_the_edges() {
    assert!(counts_previous(30));
    assert!(counts_previous(35));
    assert!(!counts_previous(36));
    assert!(!counts_previous(59));
    assert!(counts_previous(60));
    assert!(!counts_previous(0));
    assert!(!counts_previous(5));
    assert!(!counts_next(0));
    assert!(!counts_next(24));
    assert!(counts_next(25));
    assert!(counts_next(29));
    assert!(!counts_next(30));
    assert!(!counts_next(u64::MAX));
    assert!(counts_next(u64::MAX - 16));
}

#[test]
fn reference_vectors_of_rfc_4226() {
    assert!(key_accepts(KEY, "755224", 10));
    assert!(key_accepts(KEY, "287082", 40));
    assert!(key_accepts(KEY, "359152", 70));
    assert!(key_accepts(KEY, "969429", 100));
    assert!(!key_accepts(KEY, "755224", 40));
}

#[test]
fn current_step_validates() {
    let now = 1_700_000_030;
    assert_eq!(now % 30, 20);
    assert_eq!(verify_at(SECRET, &code(now / 30), now), Ok(true));
}

#[test]
fn distant_step_fails() {
    let now = 1_700_000_030;
    let step = now / 30;
    for distance in 2..6 {
        let far = code(step + distance);
        if far != code(step) {
            assert_eq!(verify_at(SECRET, &far, now), Ok(false));
        }
        let past = code(step - distance);
        if past != code(step) {
            assert_eq!(verify_at(SECRET, &past, now), Ok(false));
        }
    }
}

#[test]
fn previous_step_validates_early_in_a_step_only() {
    let start = 1_700_000_010;
    assert_eq!(start % 30, 0);
    let step = start / 30;
    let previous = code(step - 1);
    assert_ne!(previous, code(step));
    assert_ne!(previous, code(step + 1));
    for offset in 0..=5 {
        assert_eq!(verify_at(SECRET, &previous, start + offset), Ok(true));
    }
    for offset in 6..30 {
        assert_eq!(verify_at(SECRET, &previous, start + offset), Ok(false));
    }
}

#[test]
fn next_step_validates_late_in_a_step_only() {
    let start = 1_700_000_010;
    let step = start / 30;
    let next = code(step + 1);
    assert_ne!(next, code(step));
    assert_ne!(next, code(step - 1));
    for offset in 0..25 {
        assert_eq!(verify_at(SECRET, &next, start + offset), Ok(false));
    }
    for offset in 25..30 {
        assert_eq!(verify_at(SECRET, &next, start + offset), Ok(true));
    }
}

#[test]
fn first_step_has_no_previous_step() {
    assert_eq!(verify_at(SECRET, &code(0), 0), Ok(true));
    assert_eq!(verify_at(SECRET, &code(0), 5), Ok(true));
    assert_eq!(verify_at(SECRET, &code(1), 25), Ok(true));
    assert_eq!(verify_at(SECRET, &code(0), 30), Ok(true));
}

#[test]
fn last_time_is_handled() {
    let now = u64::MAX;
    let step = now / 30;
    assert_eq!(verify_at(SECRET, &code(step), now), Ok(true));
}

#[test]
fn undecodable_secret_is_an_error() {
    assert_eq!(verify_at("not hex", "123456", 1_700_000_000), Err(TotpError::InvalidSecret));
    assert_eq!(verify_at("abc", "123456", 1_700_000_000), Err(TotpError::InvalidSecret));
}

#[test]
fn undecodable_secret_is_a_non_match() {
    assert_eq!(verify("zz", "123456"), Ok(false));
    assert_eq!(verify("not hex", ""), Ok(false));
    assert!(!secret_accepts_at("zz", "123456", 1_700_000_000));
    assert!(!secret_accepts_at("abc", "000000", 0));
    let now = 1_700_000_030;
    assert!(secret_accepts_at(SECRET, &code(now / 30), now));
    assert!(!secret_accepts_at(SECRET, "", now));
}

#[test]
fn secret_is_decoded_not_passed_through() {
    // The key is the decoded secret: the text of the secret itself accepts
    // nothing that the decoded key accepts.
    let now = 1_700_000_010;
    let token = code(now / 30);
    assert!(key_accepts(KEY, &token, now));
    assert_eq!(verify_at(SECRET, &token, now), Ok(true));
    assert_ne!(key_accepts(SECRET.as_bytes(), &token, now), true);
}

#[test]
fn any_of_several_secrets() {
    let now = 1_700_000_010;
    let token = code(now / 30);
    let good = SECRET.to_string();
    let other = "00".to_string();
    let broken = "xyz".to_string();
    assert!(verify_any_at(&vec![good.clone()], &token, now));
    assert!(verify_any_at(&vec![other.clone(), good.clone()], &token, now));
    assert!(verify_any_at(&vec![broken.clone(), good.clone()], &token, now));
    assert!(!verify_any_at(&vec![other.clone(), broken.clone()], &token, now));
    assert!(!verify_any_at(&vec![], &token, now));
}

#[test]
fn verify_uses_the_clock() {
    let now = std::time::SystemTime::now()
        .duration_since(std::time::UNIX_EPOCH)
        .unwrap()
        .as_secs();
    let step = now / 30;
    // One of the codes around now is accepted whatever second the call falls in.
    let accepted = [step, step + 1]
        .iter()
        .any(|s| verify(SECRET, &code(*s)) == Ok(true));
    assert!(accepted);
}
