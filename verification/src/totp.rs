//! Acceptance of time-based one-time passwords.
//!
//! A code is the six-digit HOTP value (HMAC-SHA-1) of a shared secret and the
//! number of the 30-second step that a time falls in. A submitted code is
//! accepted if it is the code of the current step. Near the edges of a step
//! the neighbouring step counts too, so that clocks may drift a little: the
//! previous step during the first seconds of a step, the next step during its
//! last seconds.
//!
//! The HMAC and the decoding of the secret are the `oath` crate's. Their
//! results are named, not described: [`hotp_code`] and [`hex_decoded`]. The
//! release of `oath` that this library is built on computes HOTP with
//! HMAC-SHA-1 and with no other hash: a code that an authenticator makes
//! with SHA-256 or SHA-512 is not accepted.
//!
//! A secret that cannot be decoded accepts nothing. [`verify_at`] tells that
//! case apart as an error; [`verify`] and the functions over several secrets
//! treat it as a code that does not match.
use vstd::prelude::*;
use vstd::string::StringSliceAdditionalSpecFns;
use crate::system::now_unix_epoch;
use crate::text::bytes_equal;
use crate::text::decimal;
use crate::text::push_decimal;

verus! {

/// Seconds in one step.
pub const TIME_STEP: u64 = 30;

/// Digits of a code.
pub const DIGITS: u32 = 6;

/// The previous step counts while the time is at most this far into a step.
pub const EARLY_SECONDS: u64 = 5;

/// The next step counts once the time is at least this far into a step.
pub const LATE_SECONDS: u64 = 25;

/// Why a secret cannot be used.
#[derive(Clone, Copy, Debug, PartialEq, Eq, Structural)]
pub enum TotpError {
    /// The secret cannot be decoded as hexadecimal digits.
    InvalidSecret,
}

/// What `oath::from_hex` makes of a secret: the key bytes, or nothing where
/// the secret cannot be decoded.
pub uninterp spec fn hex_decoded(secret: Seq<char>) -> Option<Seq<u8>>;

/// What `oath::hotp_raw` computes from a key, a counter and a number of
/// digits.
pub uninterp spec fn hotp_code(key: Seq<u8>, counter: u64, digits: u32) -> u64;

/// `oath::from_hex`: decodes a secret written in hexadecimal digits. The
/// result depends on the text alone.
#[verifier::external_body]
fn decode_secret(secret: &str) -> (key: Option<Vec<u8>>)
    ensures
        match key {
            Some(bytes) => hex_decoded(secret@) == Some(bytes@),
            None => hex_decoded(secret@) is None,
        },
{
    match oath::from_hex(secret) {
        Ok(bytes) => Some(bytes),
        Err(_) => None,
    }
}

/// `oath::hotp_raw`: the HOTP value of a key and a counter, HMAC-SHA-1,
/// truncated to `digits` decimal digits. The crate raises ten to the power of
/// `digits` in a `u64`, so there are fewer than twenty.
#[verifier::external_body]
fn reference_code(key: &[u8], counter: u64, digits: u32) -> (code: u64)
    requires
        digits < 20,
    ensures
        code == hotp_code(key@, counter, digits),
{
    oath::hotp_raw(key, counter, digits)
}

/// The number of the step that a time falls in.
pub open spec fn step_of(time: u64) -> u64 {
    time / TIME_STEP
}

/// Whether the step before the current one counts at `time`: early in a
/// step, if there is a step before it.
pub open spec fn previous_counts(time: u64) -> bool {
    time % TIME_STEP <= EARLY_SECONDS && time >= TIME_STEP
}

/// Whether the step after the current one counts at `time`: late in a step.
pub open spec fn next_counts(time: u64) -> bool {
    time % TIME_STEP >= LATE_SECONDS
}

/// The text of a code: its decimal digits, with zeros in front up to six.
pub open spec fn code_text(code: u64) -> Seq<u8> {
    let digits = decimal(code as nat);
    if digits.len() >= DIGITS {
        digits
    } else {
        Seq::new((DIGITS - digits.len()) as nat, |i: int| 48u8) + digits
    }
}

/// Whether `token` is accepted for `key` at `time`: it is the text of the
/// code of the current step, or of a neighbouring step that counts.
pub open spec fn accepts(key: Seq<u8>, token: Seq<u8>, time: u64) -> bool {
    let step = step_of(time);
    ||| token == code_text(hotp_code(key, step, DIGITS))
    ||| previous_counts(time) && token == code_text(hotp_code(key, (step - 1) as u64, DIGITS))
    ||| next_counts(time) && token == code_text(hotp_code(key, (step + 1) as u64, DIGITS))
}

/// Whether `token` is accepted for `secret` at `time`. A secret that cannot
/// be decoded accepts nothing.
pub open spec fn secret_accepts(secret: Seq<char>, token: Seq<u8>, time: u64) -> bool {
    match hex_decoded(secret) {
        Some(key) => accepts(key, token, time),
        None => false,
    }
}

/// Whether `token` is accepted for one of the secrets at `time`.
pub open spec fn any_accepts(secrets: Seq<Seq<char>>, token: Seq<u8>, time: u64) -> bool {
    exists|i: int| 0 <= i < secrets.len() && #[trigger] secret_accepts(secrets[i], token, time)
}

/// The code of the current step is always accepted.
pub proof fn lemma_current_code_accepted(key: Seq<u8>, time: u64)
    ensures
        accepts(key, code_text(hotp_code(key, step_of(time), DIGITS)), time),
{
}

/// The code of the previous step is accepted during the first seconds of a
/// step.
pub proof fn lemma_previous_code_accepted_early(key: Seq<u8>, time: u64)
    requires
        time % TIME_STEP <= EARLY_SECONDS,
        time >= TIME_STEP,
    ensures
        accepts(key, code_text(hotp_code(key, (step_of(time) - 1) as u64, DIGITS)), time),
{
}

/// The code of the next step is accepted during the last seconds of a step.
pub proof fn lemma_next_code_accepted_late(key: Seq<u8>, time: u64)
    requires
        time % TIME_STEP >= LATE_SECONDS,
    ensures
        accepts(key, code_text(hotp_code(key, (step_of(time) + 1) as u64, DIGITS)), time),
{
}

/// Away from the edges of a step only the code of that step is accepted.
pub proof fn lemma_only_current_code_mid_step(key: Seq<u8>, token: Seq<u8>, time: u64)
    requires
        EARLY_SECONDS < time % TIME_STEP < LATE_SECONDS,
    ensures
        accepts(key, token, time) <==> token == code_text(
            hotp_code(key, step_of(time), DIGITS),
        ),
{
}

/// Nothing is accepted but the codes of the current step and its two
/// neighbours.
pub proof fn lemma_accepted_code_is_near(key: Seq<u8>, token: Seq<u8>, time: u64)
    requires
        accepts(key, token, time),
    ensures
        exists|step: u64|
            step_of(time) - 1 <= step <= step_of(time) + 1 && token == code_text(
                #[trigger] hotp_code(key, step, DIGITS),
            ),
{
    let step = step_of(time);
    if token == code_text(hotp_code(key, step, DIGITS)) {
    } else if previous_counts(time) && token == code_text(
        hotp_code(key, (step - 1) as u64, DIGITS),
    ) {
        assert(step >= 1);
    } else {
        assert(step + 1 <= u64::MAX);
    }
}

/// Whether `token` is the text of `code`.
pub fn code_matches(code: u64, token: &str) -> (same: bool)
    ensures
        same == (token.spec_bytes() == code_text(code)),
{
    let mut digits: Vec<u8> = Vec::new();
    push_decimal(code, &mut digits);
    assert(digits@ =~= decimal(code as nat));
    let mut text: Vec<u8> = Vec::new();
    while text.len() + digits.len() < 6
        invariant
            digits@ == decimal(code as nat),
            text@.len() + digits@.len() <= 6 || text@.len() == 0,
            forall|i: int| 0 <= i < text@.len() ==> text@[i] == 48u8,
        decreases 6 - text@.len(),
    {
        text.push(48);
    }
    let ghost zeros = text@;
    let mut i: usize = 0;
    while i < digits.len()
        invariant
            i <= digits@.len(),
            text@ == zeros + digits@.take(i as int),
        decreases digits@.len() - i,
    {
        text.push(digits[i]);
        proof {
            assert(text@ =~= zeros + digits@.take(i + 1));
        }
        i += 1;
    }
    proof {
        assert(digits@.take(digits@.len() as int) =~= digits@);
        if digits@.len() < 6 {
            assert(zeros =~= Seq::new((6 - digits@.len()) as nat, |i: int| 48u8));
        } else {
            assert(zeros + digits@ =~= digits@);
        }
        assert(text@ =~= code_text(code));
    }
    bytes_equal(token.as_bytes(), text.as_slice())
}

/// Whether the previous step counts at `time`.
pub fn counts_previous(time: u64) -> (counts: bool)
    ensures
        counts == previous_counts(time),
{
    time % TIME_STEP <= EARLY_SECONDS && time >= TIME_STEP
}

/// Whether the next step counts at `time`.
pub fn counts_next(time: u64) -> (counts: bool)
    ensures
        counts == next_counts(time),
{
    time % TIME_STEP >= LATE_SECONDS
}

/// Whether `token` is accepted for the decoded `key` at `time`.
pub fn key_accepts(key: &[u8], token: &str, time: u64) -> (accepted: bool)
    ensures
        accepted == accepts(key@, token.spec_bytes(), time),
{
    let step = time / TIME_STEP;
    if counts_previous(time) && code_matches(reference_code(key, step - 1, DIGITS), token) {
        return true;
    }
    if counts_next(time) && code_matches(reference_code(key, step + 1, DIGITS), token) {
        return true;
    }
    code_matches(reference_code(key, step, DIGITS), token)
}

/// Whether `token` is accepted for `secret` at `time`; an error where the
/// secret cannot be decoded.
pub fn verify_at(secret: &str, token: &str, time: u64) -> (res: Result<bool, TotpError>)
    ensures
        match hex_decoded(secret@) {
            Some(key) => res == Ok::<bool, TotpError>(accepts(key, token.spec_bytes(), time)),
            None => res == Err::<bool, TotpError>(TotpError::InvalidSecret),
        },
{
    match decode_secret(secret) {
        Some(key) => Ok(key_accepts(key.as_slice(), token, time)),
        None => Err(TotpError::InvalidSecret),
    }
}

/// Whether `token` is accepted for `secret` at `time`. A secret that cannot
/// be decoded accepts nothing.
pub fn secret_accepts_at(secret: &str, token: &str, time: u64) -> (accepted: bool)
    ensures
        accepted == secret_accepts(secret@, token.spec_bytes(), time),
{
    match verify_at(secret, token, time) {
        Ok(accepted) => accepted,
        Err(_) => false,
    }
}

/// The texts of a list of secrets.
pub open spec fn texts(secrets: Seq<String>) -> Seq<Seq<char>> {
    Seq::new(secrets.len(), |i: int| secrets[i]@)
}

/// Whether `token` is accepted for one of the secrets at `time`. A secret
/// that cannot be decoded counts as one that does not accept.
pub fn verify_any_at(secrets: &Vec<String>, token: &str, time: u64) -> (accepted: bool)
    ensures
        accepted == any_accepts(texts(secrets@), token.spec_bytes(), time),
{
    let mut i: usize = 0;
    while i < secrets.len()
        invariant
            i <= secrets@.len(),
            forall|j: int|
                0 <= j < i ==> !#[trigger] secret_accepts(
                    texts(secrets@)[j],
                    token.spec_bytes(),
                    time,
                ),
        decreases secrets@.len() - i,
    {
        let accepted = secret_accepts_at(secrets[i].as_str(), token, time);
        proof {
            assert(texts(secrets@)[i as int] == secrets@[i as int]@);
        }
        if accepted {
            assert(secret_accepts(texts(secrets@)[i as int], token.spec_bytes(), time));
            return true;
        }
        i += 1;
    }
    false
}

/// Whether `token` is accepted for one of the secrets now. The time is the
/// clock's at the moment of the call.
pub fn test_secrets(secrets: &Vec<String>, token: &str) -> (accepted: bool)
    ensures
        exists|time: u64| accepted == any_accepts(texts(secrets@), token.spec_bytes(), time),
{
    let time = now_unix_epoch();
    let accepted = verify_any_at(secrets, token, time);
    assert(accepted == any_accepts(texts(secrets@), token.spec_bytes(), time));
    accepted
}

/// Whether `token` is accepted for `secret` now: [`secret_accepts_at`] the
/// time that the clock gives at the moment of the call. A secret that cannot
/// be decoded accepts nothing: it is a code that does not match, never an
/// error.
pub fn verify(secret: &str, token: &str) -> (res: Result<bool, TotpError>)
    ensures
        exists|time: u64|
            res == Ok::<bool, TotpError>(
                #[trigger] secret_accepts(secret@, token.spec_bytes(), time),
            ),
{
    let time = now_unix_epoch();
    let accepted = secret_accepts_at(secret, token, time);
    assert(accepted == secret_accepts(secret@, token.spec_bytes(), time));
    Ok(accepted)
}

} // verus!
