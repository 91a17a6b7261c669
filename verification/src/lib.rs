//! Proof-of-work mining for signed-note events.
//!
//! An event's identifier is the SHA-256 digest of a canonical serialization
//! of its fields. Mining looks for a nonce, carried in a `nonce` tag, whose
//! identifier starts with a required number of zero bits.
//!
//! * [`difficulty`] — the leading-zero-bit predicate on digests.
//! * [`encoding`] — the canonical serialization, as a function on bytes.
//! * [`digest`] — the SHA-256 digest the identifiers are made with.
//! * [`event`] — the event records and the placement of the nonce tag.
//! * [`template`] — a serialized event with a hole where the nonce goes.
//! * [`unambiguous`] — the proof that the canonical form is injective.
//! * [`search`] — the parallel nonce search and its public entry points.
//! * [`error`] — the ways a search can fail.

pub mod difficulty;
pub mod digest;
pub mod encoding;
pub mod error;
pub mod event;
pub mod search;
pub mod template;
pub mod unambiguous;
