//! The store of sessions.
//!
//! A session is a token of 64 bytes with the Unix time at which it ends. The
//! sessions live in an `evmap` map, which has two sides. The write side is one
//! handle, used by one thread at a time; what is written through it stays
//! pending until it is published. The read side is a handle per thread that
//! sees what was last published and never waits for a writer.
//!
//! [`SessionWriter`] is the write side with its contracts: they speak of the
//! pending and of the published sessions, two maps from a token's bytes to
//! the end times stored for it. [`SessionReader`] is the read side: what a
//! read returns depends on what other threads have published by then, so the
//! decisions that follow a read are functions of their own, such as
//! [`session_state`]. [`CookieStore`] puts both together for the request
//! handlers.
use vstd::prelude::*;
use vstd::string::StringSliceAdditionalSpecFns;
use vstd::utf8::decode_utf8;
use vstd::utf8::valid_utf8;
use std::collections::hash_map::RandomState;
use std::hash::BuildHasher;
use std::hash::Hash;
use std::sync::Arc;
use std::sync::Mutex;
use std::sync::MutexGuard;
use crate::system::now_unix_epoch;
use crate::system::random_byte;
use crate::system::random_source;
use crate::text::ascii_chars;
use crate::text::is_ascii_bytes;
use crate::text::lemma_ascii_text;
use crate::text::lossy_text;

verus! {

/// Bytes of a token.
pub const TOKEN_LENGTH: usize = 64;

/// Seconds that a session lasts.
pub const SESSION_SECONDS: u64 = 86400;

/// `evmap::ReadHandle`, as a value that is carried and handed to the
/// crate's functions; nothing is read from inside it.
#[verifier::external_type_specification]
#[verifier::external_body]
#[verifier::reject_recursive_types(K)]
#[verifier::reject_recursive_types(V)]
#[verifier::reject_recursive_types(M)]
#[verifier::reject_recursive_types(S)]
pub struct ExReadHandle<K: Eq + Hash, V, M, S: BuildHasher>(evmap::ReadHandle<K, V, M, S>);

/// The write side of the session map: an `evmap::WriteHandle`, which holds
/// the pending sessions and knows the published ones. Nothing is read from
/// inside it but through the crate's functions.
#[verifier::external_body]
pub struct SessionWriter {
    handle: evmap::WriteHandle<[u8; 64], u64, (), RandomState>,
}

/// The read handle of the session map.
type ReadSide = evmap::ReadHandle<[u8; 64], u64, (), RandomState>;

/// The sessions written through a write handle, published or not: for each
/// token the end times added for it, oldest first.
pub uninterp spec fn pending_sessions(writer: SessionWriter) -> Map<Seq<u8>, Seq<u64>>;

/// The sessions that the readers of a write handle's map see: those pending
/// when the handle last published.
pub uninterp spec fn published_sessions(writer: SessionWriter) -> Map<Seq<u8>, Seq<u64>>;

/// `std::sync::Mutex`, as a value that is carried.
#[verifier::external_type_specification]
#[verifier::external_body]
#[verifier::reject_recursive_types(T)]
pub struct ExMutex<T: ?Sized>(Mutex<T>);

/// `std::sync::MutexGuard`, as a value that is carried: while it lives, the
/// lock is held.
#[verifier::external_type_specification]
#[verifier::external_body]
#[verifier::reject_recursive_types(T)]
pub struct ExMutexGuard<'a, T: ?Sized + 'a>(MutexGuard<'a, T>);

/// `std::sync::Mutex::new`: a lock around the write side.
#[verifier::external_body]
fn new_lock(writer: SessionWriter) -> Mutex<SessionWriter> {
    Mutex::new(writer)
}

/// `std::sync::Mutex::lock`: waits until no other thread holds the write
/// side. A lock that a panicking thread has left behind is taken all the
/// same. Nothing is known of the state that the other holders have left.
#[verifier::external_body]
fn lock<'a>(writer: &'a Mutex<SessionWriter>) -> MutexGuard<'a, SessionWriter> {
    writer.lock().unwrap_or_else(|poisoned| poisoned.into_inner())
}

/// `DerefMut` of the guard: the write side, for as long as the guard is
/// borrowed.
#[verifier::external_body]
fn locked<'a, 'b>(guard: &'a mut MutexGuard<'b, SessionWriter>) -> &'a mut SessionWriter {
    std::ops::DerefMut::deref_mut(guard)
}

/// `evmap::new`: an empty map and its two handles. Nothing is pending and
/// nothing is published.
#[verifier::external_body]
fn new_map() -> (sides: (ReadSide, SessionWriter))
    ensures
        pending_sessions(sides.1) == no_sessions(),
        published_sessions(sides.1) == no_sessions(),
{
    let (reader, handle) = evmap::new();
    (reader, SessionWriter { handle })
}

/// `evmap::WriteHandle::insert`: adds a value to those of a key. The value
/// comes after the values that the key has; readers see no change.
#[verifier::external_body]
fn add_pending(writer: &mut SessionWriter, key: [u8; 64], value: u64)
    ensures
        pending_sessions(*final(writer)) == pending_sessions(*old(writer)).insert(
            key@,
            values_of(pending_sessions(*old(writer)), key@).push(value),
        ),
        published_sessions(*final(writer)) == published_sessions(*old(writer)),
{
    writer.handle.insert(key, value);
}

/// `evmap::WriteHandle::empty`: removes a key with all its values. Readers
/// see no change.
#[verifier::external_body]
fn empty_pending(writer: &mut SessionWriter, key: [u8; 64])
    ensures
        pending_sessions(*final(writer)) == pending_sessions(*old(writer)).remove(key@),
        published_sessions(*final(writer)) == published_sessions(*old(writer)),
{
    writer.handle.empty(key);
}

/// `evmap::WriteHandle::refresh`: publishes. Readers see what is pending,
/// which stays as it is.
#[verifier::external_body]
fn refresh(writer: &mut SessionWriter)
    ensures
        pending_sessions(*final(writer)) == pending_sessions(*old(writer)),
        published_sessions(*final(writer)) == pending_sessions(*old(writer)),
{
    writer.handle.refresh();
}

/// `evmap::ReadHandle::map_into`, on the read handle that a write handle
/// holds: the published keys, each once and in no stated order, each with
/// the first of its values.
#[verifier::external_body]
fn published_entries(writer: &SessionWriter) -> (entries: Vec<([u8; 64], Option<u64>)>)
    ensures
        forall|i: int|
            0 <= i < entries@.len() ==> published_sessions(*writer).dom().contains(
                (#[trigger] entries@[i]).0@,
            ) && entries@[i].1 == first_of(published_sessions(*writer)[entries@[i].0@]),
        forall|k: Seq<u8>|
            published_sessions(*writer).dom().contains(k) ==> exists|i: int|
                0 <= i < entries@.len() && (#[trigger] entries@[i]).0@ == k,
{
    writer.handle.map_into(|k, v| (*k, v.first().copied()))
}

/// `evmap::ReadHandle::get_and`: the first value that readers see for a key
/// at the moment of the call, if they see the key. Which publication that is
/// depends on the other threads.
#[verifier::external_body]
fn read_first(handle: &ReadSide, key: &[u8; 64]) -> Option<u64> {
    handle.get_and(key, |v| v.first().copied()).flatten()
}

/// `evmap::ReadHandle::map_into`: the keys that readers see at the moment of
/// the call, each with the first of its values.
#[verifier::external_body]
fn read_entries(handle: &ReadSide) -> Vec<([u8; 64], Option<u64>)> {
    handle.map_into(|k, v| (*k, v.first().copied()))
}

/// `evmap::ReadHandle::clone`: one more read handle on the same map.
#[verifier::external_body]
fn another_reader(handle: &ReadSide) -> ReadSide {
    handle.clone()
}

/// No session at all.
pub open spec fn no_sessions() -> Map<Seq<u8>, Seq<u64>> {
    Map::empty()
}

/// The values stored for a key; none where the key is absent.
pub open spec fn values_of(sessions: Map<Seq<u8>, Seq<u64>>, key: Seq<u8>) -> Seq<u64> {
    if sessions.dom().contains(key) {
        sessions[key]
    } else {
        Seq::empty()
    }
}

/// The first of a key's values, which is the end of its session.
pub open spec fn first_of(values: Seq<u64>) -> Option<u64> {
    if values.len() > 0 {
        Some(values[0])
    } else {
        None
    }
}

/// The end of the session that `sessions` holds for a key.
pub open spec fn expiry_in(sessions: Map<Seq<u8>, Seq<u64>>, key: Seq<u8>) -> Option<u64> {
    first_of(values_of(sessions, key))
}

/// What a looked-up session is worth at a given time.
#[derive(Clone, Copy, Debug, PartialEq, Eq, Structural)]
pub enum SessionState {
    /// No session was found.
    Absent,
    /// A session was found that ended before the given time.
    Expired,
    /// A session was found that has not ended.
    Valid,
}

/// The state at `now` of a session that a lookup found, or did not find.
pub open spec fn state_of(found: Option<u64>, now: u64) -> SessionState {
    match found {
        None => SessionState::Absent,
        Some(expiry) => if expiry < now {
            SessionState::Expired
        } else {
            SessionState::Valid
        },
    }
}

/// The end of a session that begins at `now`; the largest time there is,
/// where a day from `now` is beyond it.
pub open spec fn expiry_from(now: u64) -> u64 {
    if now + SESSION_SECONDS > u64::MAX {
        u64::MAX
    } else {
        (now + SESSION_SECONDS) as u64
    }
}

/// The sessions of `sessions` that have not ended at `now`.
pub open spec fn unexpired(sessions: Map<Seq<u8>, Seq<u64>>, now: u64) -> Map<Seq<u8>, Seq<u64>> {
    sessions.restrict(
        Set::new(|k: Seq<u8>| state_of(expiry_in(sessions, k), now) == SessionState::Valid),
    )
}

/// Every pending session is published as it is pending: nothing was added
/// that was not published. Pending removals there may be.
pub open spec fn pending_is_published(
    pending: Map<Seq<u8>, Seq<u64>>,
    published: Map<Seq<u8>, Seq<u64>>,
) -> bool {
    forall|k: Seq<u8>| #[trigger]
        pending.dom().contains(k) ==> published.dom().contains(k) && published[k] == pending[k]
}

/// Computes [`state_of`].
pub fn session_state(found: Option<u64>, now: u64) -> (state: SessionState)
    ensures
        state == state_of(found, now),
{
    match found {
        None => SessionState::Absent,
        Some(expiry) => if expiry < now {
            SessionState::Expired
        } else {
            SessionState::Valid
        },
    }
}

/// What a lookup at `now` means for the token: whether it has a session
/// that has not ended, which is what the caller is told, and whether it has
/// one that has ended, which is then removed.
pub fn authenticated_by(found: Option<u64>, now: u64) -> (verdict: (bool, bool))
    ensures
        verdict.0 == (state_of(found, now) == SessionState::Valid),
        verdict.1 == (state_of(found, now) == SessionState::Expired),
{
    match session_state(found, now) {
        SessionState::Valid => (true, false),
        SessionState::Expired => (false, true),
        SessionState::Absent => (false, false),
    }
}

/// Computes [`expiry_from`].
pub fn session_expiry(now: u64) -> (expiry: u64)
    ensures
        expiry == expiry_from(now),
{
    now.saturating_add(SESSION_SECONDS)
}

/// A session is valid from its beginning.
pub proof fn lemma_session_valid_at_start(now: u64)
    ensures
        state_of(Some(expiry_from(now)), now) == SessionState::Valid,
{
}

/// A session is valid exactly up to its end, whatever the order in which it
/// is asked for: once it has expired it stays expired.
pub proof fn lemma_session_valid_until_expiry(expiry: u64, now: u64, later: u64)
    requires
        now <= later,
    ensures
        state_of(Some(expiry), now) == SessionState::Valid <==> now <= expiry,
        state_of(Some(expiry), now) == SessionState::Expired ==> state_of(Some(expiry), later)
            == SessionState::Expired,
{
}

/// A session that was added is there once it is published, with the end it
/// was given; a token that had a session keeps the end of that one.
pub proof fn lemma_added_session_is_published(
    pending: Map<Seq<u8>, Seq<u64>>,
    key: Seq<u8>,
    expiry: u64,
)
    ensures
        expiry_in(pending.insert(key, values_of(pending, key).push(expiry)), key) == (
        if expiry_in(pending, key) is Some {
            expiry_in(pending, key)
        } else {
            Some(expiry)
        }),
{
}

/// A token that nobody holds a session for is never valid.
pub proof fn lemma_absent_never_valid(now: u64)
    ensures
        state_of(None, now) == SessionState::Absent,
{
}

/// The letters of a token.
pub open spec fn is_hex_digit(byte: u8) -> bool {
    (48 <= byte <= 57) || (65 <= byte <= 70)
}

/// The letter for the low four bits of a byte: `0` to `9`, then `A` to `F`.
pub open spec fn hex_digit(byte: u8) -> u8 {
    if byte % 16 < 10 {
        (48 + byte % 16) as u8
    } else {
        (55 + byte % 16) as u8
    }
}

/// What a new token is: 64 letters.
pub open spec fn is_token(bytes: Seq<u8>) -> bool {
    bytes.len() == TOKEN_LENGTH && forall|i: int|
        0 <= i < bytes.len() ==> is_hex_digit(#[trigger] bytes[i])
}

/// Computes [`hex_digit`].
pub fn token_byte(random: u8) -> (letter: u8)
    ensures
        letter == hex_digit(random),
        is_hex_digit(letter),
{
    let low = random & 0x0f;
    assert(low == random % 16) by (bit_vector)
        requires
            low == random & 0x0f,
    ;
    if low < 10 {
        48 + low
    } else {
        55 + low
    }
}

/// The key of a session: 64 bytes, compared and hashed as they are.
#[derive(Debug, PartialEq, Eq, Hash)]
pub struct CookieKey([u8; 64]);

impl Clone for CookieKey {
    fn clone(&self) -> (copy: CookieKey)
        ensures
            copy@ == self@,
    {
        CookieKey(self.0)
    }
}

impl View for CookieKey {
    type V = Seq<u8>;

    closed spec fn view(&self) -> Seq<u8> {
        self.0@
    }
}

impl CookieKey {
    /// The token as text, for the cookie. The 64 bytes are the text's, where
    /// they are UTF-8, as those of a token made from text and of a token made
    /// of letters are.
    pub fn to_string(&self) -> (text: String)
        ensures
            valid_utf8(self@) ==> text@ == decode_utf8(self@),
            is_ascii_bytes(self@) ==> text@ == ascii_chars(self@),
    {
        proof {
            if is_ascii_bytes(self@) {
                lemma_ascii_text(self@);
            }
        }
        lossy_text(self.0.as_slice())
    }
}

/// A token is ASCII.
pub proof fn lemma_token_is_ascii(bytes: Seq<u8>)
    requires
        is_token(bytes),
    ensures
        is_ascii_bytes(bytes),
{
    assert forall|i: int| 0 <= i < bytes.len() implies #[trigger] bytes[i] < 128 by {
        assert(is_hex_digit(bytes[i]));
    }
}

/// A key has 64 bytes.
pub proof fn lemma_key_length(key: CookieKey)
    ensures
        key@.len() == TOKEN_LENGTH,
{
}

/// The key that a cookie's value names: the bytes of the value, if there are
/// exactly 64 of them.
pub fn to_cookie(data: &str) -> (key: Option<CookieKey>)
    ensures
        match key {
            Some(key) => data.spec_bytes().len() == TOKEN_LENGTH && key@ == data.spec_bytes(),
            None => data.spec_bytes().len() != TOKEN_LENGTH,
        },
{
    let bytes = data.as_bytes();
    if bytes.len() == 64 {
        let mut cookie_key: [u8; 64] = [0; 64];
        let mut i: usize = 0;
        while i < 64
            invariant
                bytes@.len() == 64,
                i <= 64,
                forall|j: int| 0 <= j < i ==> cookie_key@[j] == bytes@[j],
            decreases 64 - i,
        {
            cookie_key[i] = bytes[i];
            i += 1;
        }
        assert(cookie_key@ =~= bytes@);
        Some(CookieKey(cookie_key))
    } else {
        None
    }
}

/// The token that 64 drawn bytes give: for each byte its letter.
pub open spec fn token_of(drawn: Seq<u8>) -> Seq<u8> {
    Seq::new(TOKEN_LENGTH as nat, |i: int| hex_digit(drawn[i]))
}

/// The key whose token the 64 drawn bytes give.
pub fn token_from(drawn: &[u8; 64]) -> (key: CookieKey)
    ensures
        key@ == token_of(drawn@),
        is_token(key@),
{
    let mut letters: [u8; 64] = [0; 64];
    let mut i: usize = 0;
    while i < 64
        invariant
            i <= 64,
            forall|j: int| 0 <= j < i ==> #[trigger] letters@[j] == hex_digit(drawn@[j]),
        decreases 64 - i,
    {
        letters[i] = token_byte(drawn[i]);
        i += 1;
    }
    proof {
        assert(letters@ =~= token_of(drawn@));
        assert forall|j: int| 0 <= j < letters@.len() implies is_hex_digit(
            #[trigger] letters@[j],
        ) by {
            let d = drawn@[j];
            assert(letters@[j] == hex_digit(d));
        }
    }
    CookieKey(letters)
}

/// A new token: [`token_from`] 64 bytes, each drawn from the random source
/// of the calling thread.
pub fn fresh_token() -> (key: CookieKey)
    ensures
        is_token(key@),
{
    let mut source = random_source();
    let mut drawn: [u8; 64] = [0; 64];
    let mut i: usize = 0;
    while i < 64
        invariant
            i <= 64,
        decreases 64 - i,
    {
        drawn[i] = random_byte(&mut source);
        i += 1;
    }
    token_from(&drawn)
}

/// The read side of the session map.
pub struct SessionReader {
    handle: ReadSide,
}

/// An empty session map, as its read side and its write side.
pub fn session_map() -> (sides: (SessionReader, SessionWriter))
    ensures
        sides.1.pending() == no_sessions(),
        sides.1.published() == no_sessions(),
{
    let (reader, writer) = new_map();
    (SessionReader { handle: reader }, writer)
}

impl SessionWriter {
    /// The sessions written so far, published or not.
    pub open spec fn pending(&self) -> Map<Seq<u8>, Seq<u64>> {
        pending_sessions(*self)
    }

    /// The sessions that readers see.
    pub open spec fn published(&self) -> Map<Seq<u8>, Seq<u64>> {
        published_sessions(*self)
    }

    /// Nothing was added that was not published.
    pub open spec fn in_step(&self) -> bool {
        pending_is_published(self.pending(), self.published())
    }

    /// Adds a session. Readers do not see it before [`SessionWriter::publish`].
    /// A token that has a session keeps the end of that session.
    pub fn insert(&mut self, key: &CookieKey, expiry: u64)
        ensures
            final(self).pending() == old(self).pending().insert(
                key@,
                values_of(old(self).pending(), key@).push(expiry),
            ),
            final(self).published() == old(self).published(),
    {
        add_pending(self, key.0, expiry);
    }

    /// Removes the session of a token. Readers see it until the next
    /// [`SessionWriter::publish`].
    pub fn remove(&mut self, key: &CookieKey)
        ensures
            final(self).pending() == old(self).pending().remove(key@),
            final(self).published() == old(self).published(),
    {
        empty_pending(self, key.0);
    }

    /// Makes readers see what is pending.
    pub fn publish(&mut self)
        ensures
            final(self).pending() == old(self).pending(),
            final(self).published() == old(self).pending(),
    {
        refresh(self);
    }

    /// Begins a session: adds it and publishes at once, so that every
    /// reader that looks from now on finds it.
    pub fn begin_session(&mut self, key: &CookieKey, expiry: u64)
        ensures
            final(self).pending() == old(self).pending().insert(
                key@,
                values_of(old(self).pending(), key@).push(expiry),
            ),
            final(self).published() == final(self).pending(),
            expiry_in(final(self).published(), key@) is Some,
            expiry_in(old(self).pending(), key@) is None ==> expiry_in(
                final(self).published(),
                key@,
            ) == Some(expiry),
    {
        self.insert(key, expiry);
        self.publish();
    }

    /// Removes every session that has ended at `now`, and publishes.
    pub fn sweep_expired(&mut self, now: u64)
        requires
            old(self).in_step(),
        ensures
            final(self).pending() == unexpired(old(self).pending(), now),
            final(self).published() == final(self).pending(),
    {
        let entries = published_entries(self);
        let ghost before = self.pending();
        let ghost seen = self.published();
        let ghost mut removed: Set<Seq<u8>> = Set::empty();
        let mut i: usize = 0;
        assert(self.pending() =~= before.remove_keys(removed));
        while i < entries.len()
            invariant
                i <= entries@.len(),
                self.published() == seen,
                self.pending() == before.remove_keys(removed),
                forall|k: Seq<u8>|
                    removed.contains(k) ==> exists|j: int|
                        0 <= j < entries@.len() && (#[trigger] entries@[j]).0@ == k && state_of(
                            entries@[j].1,
                            now,
                        ) != SessionState::Valid,
                forall|j: int|
                    0 <= j < i && state_of((#[trigger] entries@[j]).1, now) != SessionState::Valid
                        ==> removed.contains(entries@[j].0@),
            decreases entries@.len() - i,
        {
            let (key, expiry) = entries[i];
            match session_state(expiry, now) {
                SessionState::Valid => {},
                _ => {
                    empty_pending(self, key);
                    proof {
                        let grown = removed.insert(key@);
                        assert(before.remove_keys(removed).remove(key@) =~= before.remove_keys(
                            grown,
                        ));
                        assert forall|k: Seq<u8>| grown.contains(k) implies exists|j: int|
                            0 <= j < entries@.len() && (#[trigger] entries@[j]).0@ == k
                                && state_of(entries@[j].1, now) != SessionState::Valid by {
                            if k == key@ {
                                assert(entries@[i as int].0@ == k);
                            }
                        }
                        removed = grown;
                    }
                },
            }
            i += 1;
        }
        refresh(self);
        proof {
            let after = self.pending();
            let goal = unexpired(before, now);
            assert forall|k: Seq<u8>| after.dom().contains(k) <==> goal.dom().contains(k) by {
                if before.dom().contains(k) {
                    assert(seen.dom().contains(k) && seen[k] == before[k]);
                    let j = choose|j: int|
                        0 <= j < entries@.len() && (#[trigger] entries@[j]).0@ == k;
                    assert(entries@[j].1 == expiry_in(before, k));
                    if removed.contains(k) {
                        let r = choose|r: int|
                            0 <= r < entries@.len() && (#[trigger] entries@[r]).0@ == k
                                && state_of(entries@[r].1, now) != SessionState::Valid;
                        assert(entries@[r].1 == expiry_in(before, k));
                    }
                }
            }
            assert(after =~= goal);
        }
    }
}

impl SessionReader {
    /// The end of the session that readers see for a token at the moment of
    /// the call, if they see one. What they see is what the writers had
    /// published by then.
    pub fn get(&self, key: &CookieKey) -> Option<u64> {
        read_first(&self.handle, &key.0)
    }

    /// The sessions that readers see at the moment of the call, each with
    /// its end: [`sessions_of`] what they see.
    pub fn entries(&self) -> Vec<(CookieKey, u64)> {
        sessions_of(&read_entries(&self.handle))
    }

    /// One more reader of the same map, for another thread.
    pub fn share(&self) -> SessionReader {
        SessionReader { handle: another_reader(&self.handle) }
    }
}

/// The sessions among the first `n` keys that a reader saw: the keys that
/// have an end, each with it, in the order in which they were seen.
pub open spec fn sessions_among(seen: Seq<([u8; 64], Option<u64>)>, n: int) -> Seq<(Seq<u8>, u64)>
    decreases n,
{
    if n <= 0 {
        Seq::empty()
    } else {
        let before = sessions_among(seen, n - 1);
        match seen[n - 1].1 {
            Some(expiry) => before.push((seen[n - 1].0@, expiry)),
            None => before,
        }
    }
}

/// The values of a list of sessions.
pub open spec fn session_views(sessions: Seq<(CookieKey, u64)>) -> Seq<(Seq<u8>, u64)> {
    Seq::new(sessions.len(), |i: int| (sessions[i].0@, sessions[i].1))
}

/// The sessions among the keys that a reader saw, each with the first of
/// its values: a key without a value is no session.
pub fn sessions_of(seen: &Vec<([u8; 64], Option<u64>)>) -> (sessions: Vec<(CookieKey, u64)>)
    ensures
        session_views(sessions@) == sessions_among(seen@, seen@.len() as int),
{
    let mut sessions: Vec<(CookieKey, u64)> = Vec::new();
    let mut i: usize = 0;
    assert(session_views(sessions@) =~= sessions_among(seen@, 0));
    while i < seen.len()
        invariant
            i <= seen@.len(),
            session_views(sessions@) == sessions_among(seen@, i as int),
        decreases seen@.len() - i,
    {
        let (key, first) = seen[i];
        match first {
            Some(expiry) => {
                let ghost before = session_views(sessions@);
                sessions.push((CookieKey(key), expiry));
                assert(session_views(sessions@) =~= before.push((key@, expiry)));
            },
            None => {},
        }
        i += 1;
    }
    sessions
}

/// The session store of the request handlers. Every thread has a store of
/// its own; all of them share one map.
pub struct CookieStore {
    /// The read side of this thread.
    pub reader: SessionReader,
    /// The write side, which one thread at a time holds.
    pub writer: Arc<Mutex<SessionWriter>>,
}

impl Clone for CookieStore {
    fn clone(&self) -> CookieStore {
        CookieStore { reader: self.reader.share(), writer: Arc::clone(&self.writer) }
    }
}

impl CookieStore {
    /// A store without sessions.
    pub fn new() -> CookieStore {
        let (reader, writer) = session_map();
        CookieStore { reader, writer: Arc::new(new_lock(writer)) }
    }

    /// Begins a session: draws a new token and hands it, with its end a day
    /// from now, to [`SessionWriter::begin_session`], so that the session is
    /// there for every reader that looks after this call has returned.
    pub fn create_authenticated_cookie(&self) -> (key: CookieKey)
        ensures
            is_token(key@),
    {
        let key = fresh_token();
        let expiry = session_expiry(now_unix_epoch());
        let mut guard = lock(&self.writer);
        locked(&mut guard).begin_session(&key, expiry);
        key
    }

    /// Whether the token has a session that has not ended: what
    /// [`authenticated_by`] makes of what this thread's reader sees for it,
    /// at the clock's time. A session found expired is removed, without
    /// publishing: readers may go on seeing it until the next publication,
    /// and go on finding it expired.
    pub fn is_cookie_authenticated(&self, key: &CookieKey) -> bool {
        let found = self.reader.get(key);
        let (authenticated, expired) = authenticated_by(found, now_unix_epoch());
        if expired {
            let mut guard = lock(&self.writer);
            locked(&mut guard).remove(key);
        }
        authenticated
    }

    /// Removes the sessions that have ended by now, and publishes. What
    /// was pending is published first, so that the sweep sees every session.
    pub fn clean_outdated_cookies(&self) {
        let now = now_unix_epoch();
        let mut guard = lock(&self.writer);
        let writer = locked(&mut guard);
        writer.publish();
        writer.sweep_expired(now);
    }
}

} // verus!
