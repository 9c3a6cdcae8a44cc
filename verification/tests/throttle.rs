use nginx_auth_totp::throttle::{
    deadline_after_attempt, penalized_deadline, wait_seconds, ThrottleController, PENALTY,
};

#[test]
fn no_wait_when_deadline_has_passed() {
    assert_eq!(wait_seconds(0, 1000), 0);
    assert_eq!(wait_seconds(1000, 1000), 0);
    assert_eq!(wait_seconds(999, 1000), 0);
}

#[test]
fn wait_until_deadline() {
    assert_eq!(wait_seconds(1008, 1000), 8);
    assert_eq!(wait_seconds(1001, 1000), 1);
    assert_eq!(wait_seconds(u64::MAX, 0), u64::MAX);
}

#[test]
fn single_failure_pushes_eight_seconds_out() {
    assert_eq!(PENALTY, 8);
    assert_eq!(penalized_deadline(0, 1000, 0), 1008);
    assert_eq!(penalized_deadline(900, 1000, 0), 1008);
}

#[test]
fn failures_compound() {
    // The deadline is ahead: the penalty and the wait come on top of it.
    assert_eq!(penalized_deadline(1008, 1000, 0), 1016);
    assert_eq!(penalized_deadline(1008, 1008, 8), 1024);
    assert_eq!(penalized_deadline(1016, 1000, 0), 1024);
    assert_eq!(penalized_deadline(1000, 1000, 0), 1008);
    assert_eq!(penalized_deadline(1001, 1000, 0), 1009);
}

#[test]
fn three_immediate_failures_give_24_seconds() {
    let first = 1_700_000_000;
    let d1 = penalized_deadline(0, first, 0);
    let d2 = penalized_deadline(d1, first, 0);
    let d3 = penalized_deadline(d2, first, 0);
    assert_eq!(d1, first + 8);
    assert_eq!(d2, first + 16);
    assert_eq!(d3, first + 24);
}

#[test]
fn deadline_saturates() {
    assert_eq!(penalized_deadline(u64::MAX, 0, 0), u64::MAX);
    assert_eq!(penalized_deadline(0, u64::MAX, 0), u64::MAX);
    assert_eq!(penalized_deadline(u64::MAX - 9, 0, 1), u64::MAX);
    assert_eq!(penalized_deadline(u64::MAX - 9, 0, 0), u64::MAX - 1);
    assert_eq!(penalized_deadline(5, 0, u64::MAX), u64::MAX);
}

#[test]
fn controller_starts_clean() {
    let throttle = ThrottleController::new();
    assert_eq!(throttle.deadline(), 0);
    assert_eq!(throttle.wait_if_needed(), 0);
}

#[test]
fn controller_penalizes_and_success_changes_nothing() {
    let throttle = ThrottleController::new();
    let before = std::time::SystemTime::now()
        .duration_since(std::time::UNIX_EPOCH)
        .unwrap()
        .as_secs();
    throttle.penalize(0);
    let d1 = throttle.deadline();
    assert!(d1 >= before + 8);
    throttle.on_success();
    assert_eq!(throttle.deadline(), d1);
    throttle.penalize(0);
    let d2 = throttle.deadline();
    assert!(d2 >= d1 + 8);
    throttle.on_success();
    throttle.penalize(0);
    let d3 = throttle.deadline();
    assert!(d3 >= d2 + 8);
    assert!(d3 >= before + 24);
    let wait = throttle.wait_if_needed();
    assert!(wait >= 23 && wait <= d3 - before);
}

#[test]
fn shared_controller_sees_the_same_deadline() {
    let throttle = ThrottleController::new();
    let other = throttle.share();
    throttle.penalize(3);
    assert_eq!(other.deadline(), throttle.deadline());
    assert!(other.deadline() > 0);
}

#[test]
fn accepted_attempt_leaves_the_deadline() {
    assert_eq!(deadline_after_attempt(0, 1000, 0, true), 0);
    assert_eq!(deadline_after_attempt(1008, 1000, 5, true), 1008);
    assert_eq!(deadline_after_attempt(u64::MAX, 0, u64::MAX, true), u64::MAX);
    assert_eq!(deadline_after_attempt(0, 1000, 0, false), 1008);
    assert_eq!(deadline_after_attempt(1008, 1000, 5, false), 1021);
    assert_eq!(deadline_after_attempt(u64::MAX, 0, 0, false), u64::MAX);
}

#[test]
fn recorded_attempts_move_the_deadline_on_failure_only() {
    let throttle = ThrottleController::new();
    throttle.record(true, 7);
    assert_eq!(throttle.deadline(), 0);
    throttle.record(false, 0);
    let first = throttle.deadline();
    assert!(first >= 8);
    throttle.record(true, 100);
    assert_eq!(throttle.deadline(), first);
    throttle.record(false, 2);
    assert_eq!(throttle.deadline(), first + 10);
}
