//! The clock and the random source of the process.
//!
//! Both are outside the library's control: nothing is promised of what they
//! hand back, and every function that takes their result is verified for every
//! value of it.
use vstd::prelude::*;

verus! {

/// Nanoseconds in one second.
pub const NANOS_PER_SECOND: u32 = 1_000_000_000;

/// `random::Default`: a handle on the random source of a thread, as a value
/// that is carried.
#[verifier::external_type_specification]
#[verifier::external_body]
pub struct ExRandomSource(random::Default);

/// `std::time::SystemTime::now`, as whole seconds and the nanoseconds beyond
/// them since the Unix epoch. `None` when the clock stands before the epoch.
/// The nanoseconds are below one second, as `Duration::subsec_nanos`
/// documents; nothing else is known of the reading.
#[verifier::external_body]
fn clock() -> (reading: Option<(u64, u32)>)
    ensures
        reading matches Some((_, nanos)) ==> nanos < NANOS_PER_SECOND,
{
    std::time::SystemTime::now().duration_since(std::time::UNIX_EPOCH).ok().map(
        |d| (d.as_secs(), d.subsec_nanos()),
    )
}

/// `random::default`: a handle on the random source of the calling thread.
#[verifier::external_body]
pub(crate) fn random_source() -> random::Default {
    random::default()
}

/// `random::Source::read::<u8>`: the next byte of the source. Any byte may
/// come.
#[verifier::external_body]
pub(crate) fn random_byte(source: &mut random::Default) -> u8 {
    random::Source::read::<u8>(source)
}

/// `random::Default::seed`: restarts the source of the calling thread from
/// the two words. The source rejects a seed without a single bit set.
#[verifier::external_body]
fn seed_source(source: random::Default, high: u64, low: u64)
    requires
        high != 0 || low != 0,
{
    let _ = source.seed([high, low]);
}

/// The seed that a clock reading gives: the two halves of the nanoseconds
/// since the epoch, as a 128-bit number.
pub open spec fn seed_words(seconds: u64, nanos: u32) -> (u64, u64) {
    let total: u128 = (seconds * NANOS_PER_SECOND + nanos) as u128;
    ((total >> 64) as u64, total as u64)
}

/// Computes [`seed_words`].
pub fn seed_from(seconds: u64, nanos: u32) -> (words: (u64, u64))
    requires
        nanos < NANOS_PER_SECOND,
    ensures
        words == seed_words(seconds, nanos),
{
    assert(seconds * NANOS_PER_SECOND + nanos <= u128::MAX) by (nonlinear_arith)
        requires
            seconds <= u64::MAX,
            nanos < NANOS_PER_SECOND,
            NANOS_PER_SECOND == 1_000_000_000,
    ;
    assert(seconds * NANOS_PER_SECOND <= u128::MAX) by (nonlinear_arith)
        requires
            seconds <= u64::MAX,
            NANOS_PER_SECOND == 1_000_000_000,
    ;
    let total: u128 = (seconds as u128) * (NANOS_PER_SECOND as u128) + (nanos as u128);
    ((total >> 64) as u64, total as u64)
}

/// The whole seconds since the Unix epoch that a reading of the clock
/// stands for: those of the reading, or 0 where the clock stood before the
/// epoch and gave none.
pub open spec fn seconds_of(reading: Option<(u64, u32)>) -> u64 {
    match reading {
        Some((seconds, _)) => seconds,
        None => 0,
    }
}

/// Computes [`seconds_of`].
pub fn epoch_seconds(reading: Option<(u64, u32)>) -> (seconds: u64)
    ensures
        seconds == seconds_of(reading),
{
    match reading {
        Some((seconds, _)) => seconds,
        None => 0,
    }
}

/// The current time in whole seconds since the Unix epoch:
/// [`epoch_seconds`] of a reading of the clock. Nothing is known of the
/// reading, so nothing is promised of the time.
pub fn now_unix_epoch() -> u64 {
    epoch_seconds(clock())
}

/// Seeds the random source of the calling thread from the clock. A reading
/// that gives the all-zero seed, or no reading, leaves the source as it is.
pub fn initialize_rng_from_time() {
    match clock() {
        Some((seconds, nanos)) => {
            let (high, low) = seed_from(seconds, nanos);
            if high != 0 || low != 0 {
                seed_source(random_source(), high, low);
            }
        },
        None => {},
    }
}

} // verus!
