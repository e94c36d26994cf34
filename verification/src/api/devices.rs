//! Devices: list them, let one in, shut one out.
//!
//! Joining is two secrets, not one. The **enrolment token** comes from a device
//! that is already in, through a channel this server cannot read, so the
//! server knows the join was approved. The **login key** comes from the master
//! password, so the server knows the person approving it is the owner. Either
//! one alone gets nowhere, which is what makes an intercepted pairing code
//! worthless.

use super::accounts::{is_admitted, made_up, with_new_device, Fresh};
use super::{auth_key, auth_key_refusal, device_key, in_ms, key_bytes, prove_password_at, to_ms};
use crate::auth::{of_others, token_issued, tokens_where, Authenticated, Session};
use crate::db::accounts::{self, is_login_key};
use crate::db::devices::{
    self, list_of, live_devices, revocable, revoked_db, summaries_view, DeviceSummary,
};
use crate::db::invites::{
    self, enrolment_done, failed_db, joins, spent_db, tokens_left, Tokens, ENROLMENT_TTL_MS,
};
use crate::db::records::{self, forgotten, Doomed};
use crate::db::DbView;
use crate::error::{refused, ApiError, Refusal, Result};
use crate::ids::{is_v7, Uuid};
use crate::limits::{self, account_key, member_refused};
use crate::pairing::{opened_by_others, sessions_where};
use crate::proto::{Admitted, EnrolDevice, EnrolmentToken, RevokeDevice};
use crate::state::{AppState, StateView};
use crate::{b64, later, now_ms, random_bytes, text};
use vstd::prelude::*;

verus! {

/// The devices of the account that asks.
pub fn list(state: &AppState, auth: &Authenticated) -> (devices: Vec<DeviceSummary>)
    ensures
        summaries_view(devices@) == list_of(state@.db.devices, auth.account.id),
{
    devices::list(&state.db, auth.account.id)
}

/// What asking for an enrolment token does and is answered.
pub open spec fn invite_done(
    before: StateView,
    after: StateView,
    account: Uuid,
    device: Uuid,
    token: Seq<char>,
    now: u64,
    tick: u64,
    outcome: Result<EnrolmentToken>,
) -> bool {
    let counted = before.counting_member(account_key(account), limits::joins(), tick);
    if member_refused(before.limits.hits, account_key(account), tick, limits::joins()) {
        refused(outcome) == Some(Refusal::RateLimited) && after == counted
    } else {
        &&& enrolment_done(before.db, after.db, token, account, device, now, refused(outcome))
        &&& after == (StateView { db: after.db, ..counted })
        &&& outcome matches Ok(made) ==> made.token@ == token && made.expires_ms == later(
            now,
            ENROLMENT_TTL_MS,
        )
    }
}

/// [`invite`] with a given token and at a given time.
pub fn invite_at(
    state: &mut AppState,
    auth: &Authenticated,
    token: String,
    now: u64,
    tick: u64,
) -> (outcome: Result<EnrolmentToken>)
    requires
        old(state).wf(),
    ensures
        final(state).wf(),
        invite_done(
            old(state)@,
            final(state)@,
            auth.account.id,
            auth.device.id,
            token@,
            now,
            tick,
            outcome,
        ),
{
    state.limits.check_account_at(auth.account.id, &limits::joins(), tick)?;
    invites::create_enrolment_at(
        &mut state.db,
        token.as_str(),
        auth.account.id,
        auth.device.id,
        now,
    )?;
    Ok(EnrolmentToken { token, expires_ms: now.saturating_add(ENROLMENT_TTL_MS) })
}

/// A one-time token for a device about to join, made by a device that is
/// already in. It travels to the new device through the pairing channel, never
/// through this server in the clear.
pub fn invite(state: &mut AppState, auth: &Authenticated) -> (outcome: Result<EnrolmentToken>)
    requires
        old(state).wf(),
    ensures
        final(state).wf(),
        exists|bytes: Seq<u8>, now: u64, tick: u64|
            bytes.len() == 32 && #[trigger] invite_done(
                old(state)@,
                final(state)@,
                auth.account.id,
                auth.device.id,
                b64::encoded(bytes),
                now,
                tick,
                outcome,
            ),
{
    let bytes: [u8; 32] = random_bytes::<32>();
    let token: String = b64::encode(bytes.as_slice());
    let now: u64 = now_ms();
    let tick: u64 = state.limits.now();
    assert(bytes@.len() == 32);
    invite_at(state, auth, token, now, tick)
}

/// Why a device is not let in that has not proved anything yet, if it is not.
pub open spec fn enrol_fault(db: DbView, request: EnrolDevice, now: u64) -> Option<Refusal> {
    if auth_key_refusal(request.auth_key@) is Some {
        auth_key_refusal(request.auth_key@)
    } else if key_bytes(request.device.public_key@) is None {
        Some(Refusal::Invalid("a device key must be 32 bytes"@))
    } else if joins(db, request.enrolment@, now) is None {
        Some(Refusal::Unauthorized)
    } else {
        None
    }
}

/// What a try to join does and is answered. A wrong master password leaves the
/// token, but not for ever.
pub open spec fn enrol_done(
    before: StateView,
    after: StateView,
    who: Seq<char>,
    request: EnrolDevice,
    fresh: Fresh,
    outcome: Result<Admitted>,
) -> bool {
    let fault = enrol_fault(before.db, request, fresh.now);
    let account = joins(before.db, request.enrolment@, fresh.now)->Some_0;
    let key = key_bytes(request.auth_key@)->Some_0;
    let spent = spent_db(before.db, request.enrolment@, fresh.now);
    if fault is Some {
        refused(outcome) == fault && after == before
    } else if !is_login_key(before.db, account, key) {
        &&& refused(outcome) == Some(Refusal::Unauthorized)
        &&& after == (StateView {
            db: failed_db(before.db, request.enrolment@, fresh.now),
            ..before
        })
    } else if before.db.has_device(fresh.device) {
        &&& refused(outcome) == Some(Refusal::Database("UNIQUE constraint failed: devices.id"@))
        &&& after == (StateView { db: spent, ..before })
    } else {
        &&& outcome matches Ok(admitted) && is_admitted(admitted, account, before, fresh)
        &&& after == (StateView {
            db: with_new_device(spent, account, request.device, fresh),
            sessions: token_issued(
                before.sessions,
                fresh.token,
                Session {
                    account_id: account,
                    device_id: fresh.device,
                    expires_ms: later(fresh.now, in_ms(before.config.session_secs)),
                },
                fresh.now,
            ),
            ..before.forgiving_address(who, limits::enrol())
        })
    }
}

/// [`enrol`] with a given name, token and time.
pub fn enrol_at(
    state: &mut AppState,
    who: &str,
    request: &EnrolDevice,
    device_id: Uuid,
    token: String,
    now: u64,
) -> (outcome: Result<Admitted>)
    requires
        old(state).wf(),
    ensures
        final(state).wf(),
        enrol_done(
            old(state)@,
            final(state)@,
            who@,
            *request,
            Fresh { device: device_id, token: token@, now },
            outcome,
        ),
{
    let key: Vec<u8> = auth_key(request.auth_key.as_str())?;
    let device_key: [u8; 32] = device_key(&request.device)?;
    // Look first, spend later: a mistyped password must not use up the token
    // the other device just showed on its screen. But only a few times: a
    // token is not a licence to guess the password with.
    let account: Uuid = match invites::peek_enrolment_at(
        &state.db,
        request.enrolment.as_str(),
        now,
    ) {
        Some(account) => account,
        None => {
            return Err(ApiError::Unauthorized);
        },
    };
    if !accounts::verify(&state.db, account, key.as_slice()) {
        let _ = invites::enrolment_failed_at(&mut state.db, request.enrolment.as_str(), now);
        return Err(ApiError::Unauthorized);
    }
    if invites::redeem_enrolment_at(&mut state.db, request.enrolment.as_str(), now).is_none() {
        return Err(ApiError::Unauthorized);
    }
    let ghost spent = state.db@;
    assert(spent.accounts == old(state)@.db.accounts && spent.devices == old(state)@.db.devices);
    assert(spent.has_account(account) == old(state)@.db.has_account(account));
    assert(spent.has_device(device_id) == old(state)@.db.has_device(device_id));
    let _ = devices::add_at(
        &mut state.db,
        device_id,
        account,
        request.device.name.as_str(),
        &device_key,
        now,
    )?;
    state.limits.forgive(who, &limits::enrol());
    let ttl_ms: u64 = to_ms(state.config.session_secs);
    let expires_ms: u64 = state.sessions.issue_at(token.clone(), account, device_id, ttl_ms, now);
    Ok(Admitted { account_id: account, device_id, token, expires_ms })
}

/// A device that joins an account, once it was admitted to ask.
pub fn enrol(state: &mut AppState, who: &str, request: &EnrolDevice) -> (outcome: Result<Admitted>)
    requires
        old(state).wf(),
    ensures
        final(state).wf(),
        exists|device: Uuid, bytes: Seq<u8>, now: u64|
            is_v7(device.value) && bytes.len() == 32 && #[trigger] enrol_done(
                old(state)@,
                final(state)@,
                who@,
                *request,
                made_up(device, bytes, now),
                outcome,
            ),
{
    let device_id: Uuid = Uuid::now_v7();
    let bytes: [u8; 32] = random_bytes::<32>();
    let token: String = b64::encode(bytes.as_slice());
    let now: u64 = now_ms();
    assert(bytes@.len() == 32);
    assert(made_up(device_id, bytes@, now) == (Fresh { device: device_id, token: token@, now }));
    enrol_at(state, who, request, device_id, token, now)
}

/// Why a device may not be shut out by another, as far as the master password
/// is concerned; and the state after it was asked for.
pub open spec fn revoke_proof(
    state: StateView,
    account: Uuid,
    device: Uuid,
    id: Uuid,
    key: Option<Seq<char>>,
    tick: u64,
) -> (Option<Refusal>, StateView) {
    if id == device {
        (None, state)
    } else {
        match key {
            None => (Some(Refusal::WrongPassword), state),
            Some(key) => if auth_key_refusal(key) is Some {
                (auth_key_refusal(key), state)
            } else {
                let bytes = key_bytes(key)->Some_0;
                (
                    state.proof_refusal(device, account, bytes, tick),
                    state.after_proof(device, account, bytes, tick),
                )
            },
        }
    }
}

/// The state once a device is shut out: its tokens, the enrolment tokens and
/// pairing sessions it made and its manifests go with it.
pub open spec fn shut_out(state: StateView, account: Uuid, id: Uuid, now: u64) -> StateView {
    let revoked = revoked_db(state.db, id, now);
    let dropped = DbView {
        enrolments: tokens_left(revoked.enrolments, Tokens::UnusedOf(id).takes()),
        ..revoked
    };
    StateView {
        db: forgotten(dropped, account, Doomed::ManifestsOf { device: id }),
        sessions: tokens_where(state.sessions, of_others(id)),
        pairings: sessions_where(state.pairings, opened_by_others(id)),
        ..state
    }
}

/// What a request to shut a device out does and is answered.
pub open spec fn revoke_done(
    before: StateView,
    after: StateView,
    account: Uuid,
    device: Uuid,
    id: Uuid,
    key: Option<Seq<char>>,
    now: u64,
    tick: u64,
    outcome: Result<()>,
) -> bool {
    let (refusal, proved) = revoke_proof(before, account, device, id, key, tick);
    if refusal is Some {
        refused(outcome) == refusal && after == proved
    } else if live_devices(proved.db.devices, account) <= 1 {
        &&& refused(outcome) == Some(
            Refusal::Invalid("this is the only device left; add another one first"@),
        )
        &&& after == proved
    } else if !revocable(proved.db, account, id) {
        refused(outcome) == Some(Refusal::NotFound) && after == proved
    } else {
        outcome is Ok && after == shut_out(proved, account, id, now)
    }
}

/// [`revoke`] at a given time.
pub fn revoke_at(
    state: &mut AppState,
    auth: &Authenticated,
    id: Uuid,
    request: &RevokeDevice,
    now: u64,
    tick: u64,
) -> (outcome: Result<()>)
    requires
        old(state).wf(),
    ensures
        final(state).wf(),
        revoke_done(
            old(state)@,
            final(state)@,
            auth.account.id,
            auth.device.id,
            id,
            text::string_view(request.current_auth_key),
            now,
            tick,
            outcome,
        ),
{
    if id != auth.device.id {
        let key: Vec<u8> = match &request.current_auth_key {
            Some(key) => auth_key(key.as_str())?,
            None => {
                return Err(ApiError::WrongPassword);
            },
        };
        prove_password_at(state, auth, key.as_slice(), tick)?;
    }
    if devices::live_count(&state.db, auth.account.id) <= 1 {
        // An account with no device left is an account nobody can reach, and
        // the records in it would be unreachable rather than gone.
        return Err(
            ApiError::Invalid("this is the only device left; add another one first".to_owned()),
        );
    }
    if !devices::revoke_at(&mut state.db, auth.account.id, id, now) {
        return Err(ApiError::NotFound);
    }
    let _ = invites::drop_enrolments_of(&mut state.db, id);
    let _ = records::drop_manifests_of(&mut state.db, auth.account.id, id);
    state.sessions.drop_device(id);
    let _ = state.pairings.close_opened_by(id);
    Ok(())
}

/// Shut a device out. It stops syncing at once (its tokens, its event
/// streams, the enrolment tokens and pairing sessions it made go with it) but
/// what it already holds, it holds: the client says so when you do this.
///
/// A device may take itself out with its token alone. Any other one takes the
/// master password as well, proved the way a password change proves it:
/// whoever holds a stolen laptop has its token, and must not be able to lock
/// the owner's other devices out one by one.
pub fn revoke(
    state: &mut AppState,
    auth: &Authenticated,
    id: Uuid,
    request: &RevokeDevice,
) -> (outcome: Result<()>)
    requires
        old(state).wf(),
    ensures
        final(state).wf(),
        exists|now: u64, tick: u64| #[trigger]
            revoke_done(
                old(state)@,
                final(state)@,
                auth.account.id,
                auth.device.id,
                id,
                text::string_view(request.current_auth_key),
                now,
                tick,
                outcome,
            ),
{
    let now: u64 = now_ms();
    let tick: u64 = state.limits.now();
    revoke_at(state, auth, id, request, now, tick)
}

} // verus!
