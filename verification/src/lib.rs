//! The UwUSSH sync server.
//!
//! It is a **dumb, encrypted mailbox**. It hands out sequence numbers, keeps
//! the newest version of every record, pages through them from a cursor, and
//! refuses a write whose `base_seq` is not the version it holds. It cannot read
//! a record, so it cannot merge one either: everything clever happens on the
//! devices.
//!
//! What it does enforce needs no key: how large a record may be, how many fit
//! in one request, who may ask at all, and how often.

use vstd::prelude::*;

pub mod api;
pub mod auth;
pub mod auth_laws;
pub mod b64;
pub mod calendar;
pub mod commands;
pub mod config;
pub mod connections;
pub mod db;
pub mod error;
pub mod health;
pub mod ids;
pub mod limit_history;
pub mod limit_laws;
pub mod limits;
pub mod maintenance;
pub mod pairing;
pub mod pairing_history;
pub mod pairing_laws;
pub mod promises;
pub mod proto;
pub mod state;
pub mod text;
pub mod tls;
pub mod updates;

pub use config::Config;
pub use error::{ApiError, Result};
pub use state::AppState;

verus! {

/// A moment of the machine's clock.
#[verifier::external_type_specification]
#[verifier::external_body]
pub struct ExSystemTime(std::time::SystemTime);

/// The complaint about a clock that shows a moment before the Unix epoch.
#[verifier::external_type_specification]
#[verifier::external_body]
pub struct ExSystemTimeError(std::time::SystemTimeError);

/// `SystemTime::now`: what the machine's clock shows. Nothing is claimed of it.
#[verifier::external_body]
fn clock() -> std::time::SystemTime {
    std::time::SystemTime::now()
}

/// `SystemTime::duration_since`, from the Unix epoch and in milliseconds; an
/// error where the clock shows a moment before it. Nothing is claimed of it.
#[verifier::external_body]
fn since_epoch(moment: std::time::SystemTime) -> core::result::Result<
    u128,
    std::time::SystemTimeError,
> {
    moment.duration_since(std::time::UNIX_EPOCH).map(|since| since.as_millis())
}

/// Milliseconds since the Unix epoch, out of what the clock said: none where
/// the clock is from before it.
pub fn epoch_ms(since: Option<u128>) -> (ms: u64)
    ensures
        since is None ==> ms == 0,
        since matches Some(since) ==> ms == since % 0x1_0000_0000_0000_0000,
{
    match since {
        Some(since) => (since % 0x1_0000_0000_0000_0000) as u64,
        None => 0,
    }
}

/// Milliseconds since the Unix epoch.
pub fn now_ms() -> u64 {
    epoch_ms(since_epoch(clock()).ok())
}

/// That many milliseconds later, as far as the clock goes.
pub open spec fn later(now: u64, ms: u64) -> u64 {
    if now + ms > u64::MAX {
        u64::MAX
    } else {
        (now + ms) as u64
    }
}

/// Random bytes from the operating system: `RngCore::fill_bytes` of
/// `rand::thread_rng`. Which ones they are is chance; nothing is claimed of
/// them.
#[verifier::external_body]
pub fn random_bytes<const N: usize>() -> [u8; N] {
    let mut bytes = [0u8; N];
    rand::RngCore::fill_bytes(&mut rand::thread_rng(), &mut bytes);
    bytes
}

/// The SHA-256 digest of some bytes.
pub uninterp spec fn sha256_of(bytes: Seq<u8>) -> Seq<u8>;

/// SHA-256, for the things the server stores instead of the secret itself:
/// the login verifier, invite codes, enrolment tokens. `sha2::Sha256::digest`,
/// whose result is named [`sha256_of`].
#[verifier::external_body]
pub fn sha256(bytes: &[u8]) -> (digest: [u8; 32])
    ensures
        digest@ == sha256_of(bytes@),
{
    <sha2::Sha256 as sha2::Digest>::digest(bytes).into()
}

} // verus!
