//! What each endpoint decides. Not one of them can read a record.
//!
//! A request is counted before its body is read: a request that is over its
//! limit never gets its body buffered. So an endpoint that reads a body comes
//! in two parts, one that admits the request and one that answers it.

use crate::auth::Authenticated;
use crate::b64;
use crate::db;
use crate::db::accounts::is_login_key;
use crate::error::{refused, ApiError, Refusal, Result};
use crate::ids::Uuid;
use crate::limits::{
    self, address_tried, device_key as device_count, member_refused,
    member_tried, taken_back, Bucket, HitsView, LimiterView,
};
use crate::proto::NewDevice;
use crate::state::{client_key, key_text, Address, AppState, StateView};
use crate::text;
use vstd::prelude::*;

pub mod accounts;
pub mod devices;
pub mod laws;
pub mod pairing;
pub mod records;
pub mod session;

verus! {

/// The largest request the server reads at all: a push of records. The
/// client stops a batch at 8 MiB of sealed bytes, which is under 11 MiB as
/// JSON; anything above this is a mistake or someone filling the disk.
pub const MAX_BODY_BYTES: usize = 16 * 1024 * 1024;

/// Everything else: a vault header, a device key, a pairing message. Read in
/// full before anything is checked, so it is kept small: most of these
/// requests come from nobody the server knows yet.
pub const SMALL_BODY_BYTES: usize = 64 * 1024;

/// How long any request may take, from the first byte to the last. Long
/// enough for a full push over a slow uplink; short enough that a connection
/// trickling its body in cannot hold on for ever. The event stream is the one
/// request exempt from it.
pub const REQUEST_TIMEOUT_SECS: u64 = 120;

/// The bytes of a key in base64, where they are the 32 of a key.
pub open spec fn key_bytes(encoded: Seq<char>) -> Option<Seq<u8>> {
    match b64::decoded(text::trimmed(encoded)) {
        Some(bytes) if bytes.len() == 32 => Some(bytes),
        _ => None,
    }
}

/// Why a key is refused that is none.
pub open spec fn auth_key_refusal(encoded: Seq<char>) -> Option<Refusal> {
    match b64::decoded(text::trimmed(encoded)) {
        None => Some(Refusal::Invalid("a login key"@)),
        Some(bytes) => if bytes.len() != 32 {
            Some(Refusal::Invalid("a login key must be 32 bytes"@))
        } else {
            None
        },
    }
}

fn to_key(bytes: &Vec<u8>) -> (key: [u8; 32])
    requires
        bytes@.len() == 32,
    ensures
        key@ == bytes@,
{
    let mut key: [u8; 32] = [0u8; 32];
    for i in 0..32
        invariant
            bytes@.len() == 32,
            forall|j: int| 0 <= j < i ==> key@[j] == bytes@[j],
    {
        key[i] = bytes[i];
    }
    assert(key@ =~= bytes@);
    key
}

/// The device key out of what arrived, or a refusal.
pub fn device_key(device: &NewDevice) -> (key: Result<[u8; 32]>)
    ensures
        key is Ok <==> key_bytes(device.public_key@) is Some,
        key matches Ok(key) ==> key_bytes(device.public_key@) == Some(key@),
        key matches Err(error) ==> error@ == Refusal::Invalid("a device key must be 32 bytes"@),
{
    match b64::decode(device.public_key.as_str()) {
        Some(bytes) if bytes.len() == 32 => Ok(to_key(&bytes)),
        _ => Err(ApiError::Invalid("a device key must be 32 bytes".to_owned())),
    }
}

/// The key a device proves the master password with, decoded.
pub fn auth_key(encoded: &str) -> (key: Result<Vec<u8>>)
    ensures
        key is Ok <==> key_bytes(encoded@) is Some,
        key matches Ok(key) ==> key_bytes(encoded@) == Some(key@),
        key matches Err(error) ==> auth_key_refusal(encoded@) == Some(error@),
{
    let key: Vec<u8> = match b64::decode(encoded) {
        Some(key) => key,
        None => {
            return Err(ApiError::Invalid("a login key".to_owned()));
        },
    };
    // It is a 32-byte key derived from the password and the account key.
    // Anything else is a client that is doing something else.
    if key.len() != 32 {
        return Err(ApiError::Invalid("a login key must be 32 bytes".to_owned()));
    }
    Ok(key)
}

/// Who is knocking, for the rate limiter.
pub fn who(state: &AppState, forwarded: Option<Address>, peer: Option<Address>) -> (key: String)
    ensures
        key@ == key_text(state@.config.trust_forwarded, forwarded, peer),
{
    client_key(&state.config, forwarded, peer)
}

impl StateView {
    /// The state after an address was counted in a bucket.
    pub open spec fn counting_address(self, who: Seq<char>, bucket: Bucket, tick: u64) -> StateView {
        StateView {
            limits: LimiterView {
                hits: address_tried(self.limits.hits, who, tick, bucket),
                ..self.limits
            },
            ..self
        }
    }

    /// The state after an account or a device was counted in a bucket.
    pub open spec fn counting_member(self, who: Seq<char>, bucket: Bucket, tick: u64) -> StateView {
        StateView {
            limits: LimiterView {
                hits: member_tried(self.limits.hits, who, tick, bucket),
                ..self.limits
            },
            ..self
        }
    }

    /// The state after the last try of an address was taken back.
    pub open spec fn forgiving_address(self, who: Seq<char>, bucket: Bucket) -> StateView {
        StateView {
            limits: LimiterView {
                hits: HitsView {
                    addresses: taken_back(self.limits.hits.addresses, who, bucket.name@),
                    ..self.limits.hits
                },
                ..self.limits
            },
            ..self
        }
    }

    /// The state after the last try of an account or a device was taken back.
    pub open spec fn forgiving_member(self, who: Seq<char>, bucket: Bucket) -> StateView {
        StateView {
            limits: LimiterView {
                hits: HitsView {
                    members: taken_back(self.limits.hits.members, who, bucket.name@),
                    ..self.limits.hits
                },
                ..self.limits
            },
            ..self
        }
    }

    /// Whether a device has used up its proofs of the master password.
    pub open spec fn proofs_used_up(self, device: Uuid, tick: u64) -> bool {
        member_refused(self.limits.hits, device_count(device), tick, limits::proofs())
    }

    /// Why a proof of the master password is refused, if it is.
    pub open spec fn proof_refusal(
        self,
        device: Uuid,
        account: Uuid,
        key: Seq<u8>,
        tick: u64,
    ) -> Option<Refusal> {
        if self.proofs_used_up(device, tick) {
            Some(Refusal::RateLimited)
        } else if !is_login_key(self.db, account, key) {
            Some(Refusal::WrongPassword)
        } else {
            None
        }
    }

    /// The state after a proof of the master password: a wrong one counts, a
    /// right one does not.
    pub open spec fn after_proof(
        self,
        device: Uuid,
        account: Uuid,
        key: Seq<u8>,
        tick: u64,
    ) -> StateView {
        let counted = self.counting_member(device_count(device), limits::proofs(), tick);
        if self.proof_refusal(device, account, key, tick) is None {
            counted.forgiving_member(device_count(device), limits::proofs())
        } else {
            counted
        }
    }
}

/// [`prove_password`] at a given moment.
pub fn prove_password_at(
    state: &mut AppState,
    auth: &Authenticated,
    key: &[u8],
    tick: u64,
) -> (proved: Result<()>)
    requires
        old(state).wf(),
    ensures
        final(state).wf(),
        final(state)@ == old(state)@.after_proof(auth.device.id, auth.account.id, key@, tick),
        refused(proved) == old(state)@.proof_refusal(
            auth.device.id,
            auth.account.id,
            key@,
            tick,
        ),
{
    state.limits.check_device_at(auth.device.id, &limits::proofs(), tick)?;
    if !db::accounts::verify(&state.db, auth.account.id, key) {
        return Err(ApiError::WrongPassword);
    }
    state.limits.forgive_device(auth.device.id, &limits::proofs());
    Ok(())
}

/// The master password, proved by a device that is signed in, for a password
/// change, or for revoking another device. Counted per device: from a device
/// that is signed in already, a wrong proof is either a typo or somebody with
/// that device guessing, and that somebody must not use up the tries of the
/// owner's other devices, or the owner could never revoke them.
pub fn prove_password(state: &mut AppState, auth: &Authenticated, key: &[u8]) -> (proved: Result<
    (),
>)
    requires
        old(state).wf(),
    ensures
        final(state).wf(),
        exists|tick: u64|
            final(state)@ == old(state)@.after_proof(
                auth.device.id,
                auth.account.id,
                key@,
                tick,
            ) && refused(proved) == #[trigger] old(state)@.proof_refusal(
                auth.device.id,
                auth.account.id,
                key@,
                tick,
            ),
{
    let tick: u64 = state.limits.now();
    prove_password_at(state, auth, key, tick)
}

/// What a health check is told: whether the server is alive and what it
/// speaks. Never how many accounts it has.
#[derive(Debug, Clone, Copy, PartialEq, Eq, Structural)]
pub struct Health {
    pub ok: bool,
    pub schema: u32,
}

/// Enough for a container health check and no more.
pub fn health(schema: u32) -> (health: Health)
    ensures
        health == (Health { ok: true, schema }),
{
    Health { ok: true, schema }
}

/// A time in seconds as milliseconds, as far as the clock goes.
pub open spec fn in_ms(secs: u64) -> u64 {
    if secs * 1000 > u64::MAX {
        u64::MAX
    } else {
        (secs * 1000) as u64
    }
}

/// A time in seconds as milliseconds, as far as the clock goes.
pub(crate) fn to_ms(secs: u64) -> (ms: u64)
    ensures
        ms == in_ms(secs),
{
    match secs.checked_mul(1000) {
        Some(ms) => ms,
        None => u64::MAX,
    }
}

} // verus!
