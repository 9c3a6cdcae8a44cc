//! An authentication service for the subrequest hook of a reverse proxy.
//!
//! A visitor logs in with a time-based one-time password and gets a session
//! cookie; the proxy asks on every protected request whether the cookie is
//! good. The pieces, from the leaves up:
//!
//! - [`router`]: the byte-trie that leads a path to its flow;
//! - [`cookie_store`]: the sessions, tokens with the time at which they end;
//! - [`totp`]: which one-time passwords a secret accepts at a given time;
//! - [`throttle`]: the deadline that failed logins push out;
//! - [`request_handler`]: the four flows, built from the above;
//! - [`system`] and [`text`]: the clock, the random source, and bytes as text.
pub mod cookie_store;
pub mod request_handler;
pub mod router;
pub mod system;
pub mod text;
pub mod throttle;
pub mod totp;
