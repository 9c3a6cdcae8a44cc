//! The cooldown that slows repeated failed logins down.
//!
//! One deadline, a Unix time in seconds, is shared by the whole process. A
//! login attempt that arrives before it has to wait for it. Every failed
//! attempt moves it further out; a successful one leaves it alone.
use vstd::prelude::*;
use std::sync::Arc;
use std::sync::atomic::AtomicU64;
use std::sync::atomic::Ordering;
use crate::system::now_unix_epoch;

verus! {

/// Seconds that one failed attempt adds.
pub const PENALTY: u64 = 8;

/// How long an attempt at `now` has to wait for `deadline`.
pub open spec fn wait_for(deadline: u64, now: u64) -> u64 {
    if deadline > now {
        (deadline - now) as u64
    } else {
        0
    }
}

/// The deadline after a failed attempt at `now` that had waited `slept`
/// seconds, when the deadline stood at `deadline`: the later of one penalty
/// from now and one penalty plus the wait on top of the old deadline.
pub open spec fn penalized(deadline: int, now: int, slept: int) -> int {
    if now + PENALTY >= deadline + PENALTY + slept {
        now + PENALTY
    } else {
        deadline + PENALTY + slept
    }
}

/// [`penalized`], held at the largest time a `u64` can name.
pub open spec fn next_deadline(deadline: u64, now: u64, slept: u64) -> u64 {
    if penalized(deadline as int, now as int, slept as int) > u64::MAX {
        u64::MAX
    } else {
        penalized(deadline as int, now as int, slept as int) as u64
    }
}

/// The deadline after an attempt at `now` that had waited `slept` seconds,
/// when the deadline stood at `deadline`: an accepted attempt leaves it as
/// it was, a refused one moves it to [`next_deadline`].
pub open spec fn deadline_after(deadline: u64, now: u64, slept: u64, accepted: bool) -> u64 {
    if accepted {
        deadline
    } else {
        next_deadline(deadline, now, slept)
    }
}

/// Computes [`wait_for`].
pub fn wait_seconds(deadline: u64, now: u64) -> (wait: u64)
    ensures
        wait == wait_for(deadline, now),
{
    if deadline > now {
        deadline - now
    } else {
        0
    }
}

/// Computes [`next_deadline`].
pub fn penalized_deadline(deadline: u64, now: u64, slept: u64) -> (next: u64)
    ensures
        next == next_deadline(deadline, now, slept),
{
    let from_now = now.saturating_add(PENALTY);
    let from_deadline = deadline.saturating_add(PENALTY).saturating_add(slept);
    if from_now >= from_deadline {
        from_now
    } else {
        from_deadline
    }
}

/// Computes [`deadline_after`].
pub fn deadline_after_attempt(deadline: u64, now: u64, slept: u64, accepted: bool) -> (next: u64)
    ensures
        next == deadline_after(deadline, now, slept, accepted),
{
    if accepted {
        deadline
    } else {
        penalized_deadline(deadline, now, slept)
    }
}

/// An attempt never moves the deadline back, and an accepted one does not
/// move it at all.
pub proof fn lemma_attempt_keeps_deadline(deadline: u64, now: u64, slept: u64, accepted: bool)
    ensures
        deadline_after(deadline, now, slept, accepted) >= deadline,
        accepted ==> deadline_after(deadline, now, slept, accepted) == deadline,
{
}

/// A failed attempt never moves the deadline back, and leaves at least one
/// penalty between the attempt and the next one.
pub proof fn lemma_penalty_monotone(deadline: int, now: int, slept: int)
    requires
        slept >= 0,
    ensures
        penalized(deadline, now, slept) >= deadline + PENALTY,
        penalized(deadline, now, slept) >= now + PENALTY,
{
}

/// The deadline that a `u64` holds is never moved back either.
pub proof fn lemma_deadline_never_moves_back(deadline: u64, now: u64, slept: u64)
    ensures
        next_deadline(deadline, now, slept) >= deadline,
        next_deadline(deadline, now, slept) >= now,
{
}

/// Three failed attempts in a row, the first at `first`, leave the deadline
/// at least three penalties after `first`, whenever the later two come and
/// however long each had waited. Successful attempts in between change
/// nothing of this: they do not touch the deadline.
pub proof fn lemma_three_failures(
    deadline: int,
    first: int,
    second: int,
    third: int,
    slept1: int,
    slept2: int,
    slept3: int,
)
    requires
        slept1 >= 0,
        slept2 >= 0,
        slept3 >= 0,
    ensures
        penalized(
            penalized(penalized(deadline, first, slept1), second, slept2),
            third,
            slept3,
        ) >= first + 3 * PENALTY,
{
}

/// The same of the deadlines that a `u64` holds: three failures leave the
/// deadline 24 seconds after the first, wherever that is a time that a
/// `u64` can name, and at the largest time there is otherwise. Accepted
/// attempts in between leave the deadline as it is, see
/// [`lemma_attempt_keeps_deadline`].
pub proof fn lemma_three_failures_bounded(
    deadline: u64,
    first: u64,
    second: u64,
    third: u64,
    slept1: u64,
    slept2: u64,
    slept3: u64,
)
    ensures
        ({
            let d1 = next_deadline(deadline, first, slept1);
            let d2 = next_deadline(d1, second, slept2);
            let d3 = next_deadline(d2, third, slept3);
            &&& d3 >= first + 24 || d3 == u64::MAX
            &&& first + 24 <= u64::MAX ==> d3 >= first + 24
        }),
{
}

/// The shared deadline.
pub struct ThrottleController {
    deadline: Arc<AtomicU64>,
}

impl ThrottleController {
    /// A controller whose deadline lies in the past.
    pub fn new() -> ThrottleController {
        ThrottleController { deadline: Arc::new(AtomicU64::new(0)) }
    }

    /// Another handle on the same deadline: what is read and written
    /// through the one is read and written through the other.
    pub fn share(&self) -> (copy: ThrottleController)
        ensures
            copy == *self,
    {
        ThrottleController { deadline: Arc::clone(&self.deadline) }
    }

    /// The deadline as it stands. Other threads may move it at any time, so
    /// nothing is promised of the value.
    pub fn deadline(&self) -> u64 {
        self.deadline.load(Ordering::Acquire)
    }

    /// The seconds that an attempt arriving now has to wait before its
    /// credentials are looked at: [`wait_for`] of the deadline and the time
    /// as they were read. The caller does the waiting.
    pub fn wait_if_needed(&self) -> u64 {
        let deadline = self.deadline();
        let now = now_unix_epoch();
        wait_seconds(deadline, now)
    }

    /// Records an attempt that had waited `slept` seconds: the deadline
    /// becomes [`deadline_after`] of the deadline and the time as they were
    /// read. Nothing is written where that is the deadline as it was read,
    /// so an accepted attempt writes nothing. Read and write are two steps:
    /// of two failures at once the later write wins.
    pub fn record(&self, accepted: bool, slept: u64) {
        let current = self.deadline();
        let now = now_unix_epoch();
        let next = deadline_after_attempt(current, now, slept, accepted);
        if next != current {
            self.deadline.store(next, Ordering::Release);
        }
    }

    /// Records a failed attempt that had waited `slept` seconds.
    pub fn penalize(&self, slept: u64) {
        self.record(false, slept);
    }

    /// Records a successful attempt: the deadline stays as it is.
    pub fn on_success(&self) {
        self.record(true, 0);
    }
}

} // verus!
