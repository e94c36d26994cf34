//! Creating an account, and the vault header that belongs to it.
//!
//! The header (salt, key derivation costs, wrapped vault key) is what a
//! second device needs before it can turn a master password into keys. It is
//! not secret, but the wrapped key is only handed to a device that has proved
//! it knows the password, and the parameters alone are handed to a device that
//! is in the middle of joining. Those are two different endpoints on purpose.

use super::{auth_key, auth_key_refusal, device_key, in_ms, key_bytes, prove_password_at, to_ms};
use crate::auth::{token_issued, Authenticated, Session};
use crate::config::Registration;
use crate::db::accounts::{
    self, fresh_account, rewrapped, Account, VaultHeader, VaultHeaderView, VaultParams,
};
use crate::db::devices::{self, fresh_device};
use crate::db::invites::{self, joins, redeemable, redeemed};
use crate::db::DbView;
use crate::error::{refused, ApiError, Refusal, Result};
use crate::ids::{is_v7, Uuid};
use crate::limits::{self, address_refused};
use crate::proto::{Admitted, ChangePassword, CreateAccount};
use crate::state::{AppState, StateView};
use crate::{b64, later, now_ms, random_bytes};
use vstd::prelude::*;

verus! {

/// What is made up when somebody is let in: names, a token, and when it is.
pub struct Fresh {
    pub device: Uuid,
    pub token: Seq<char>,
    pub now: u64,
}

/// A fresh device, with a token of these random bytes.
pub open spec fn made_up(device: Uuid, bytes: Seq<u8>, now: u64) -> Fresh
    recommends
        is_v7(device.value),
        bytes.len() == 32,
{
    Fresh { device, token: b64::encoded(bytes), now }
}

/// Why a new account is not even asked for, if it is not.
pub open spec fn create_turned_away(state: StateView, who: Seq<char>, tick: u64) -> Option<
    Refusal,
> {
    if state.config.registration == Registration::Closed {
        Some(Refusal::RegistrationClosed)
    } else if address_refused(state.limits.hits, who, tick, limits::accounts()) {
        Some(Refusal::RateLimited)
    } else {
        None
    }
}

/// [`admit_create`] at a given moment.
pub fn admit_create_at(state: &mut AppState, who: &str, tick: u64) -> (admitted: Result<()>)
    requires
        old(state).wf(),
    ensures
        final(state).wf(),
        refused(admitted) == create_turned_away(old(state)@, who@, tick),
        final(state)@ == if old(state)@.config.registration == Registration::Closed {
            old(state)@
        } else {
            old(state)@.counting_address(who@, limits::accounts(), tick)
        },
{
    // A closed server has nothing to count: every attempt gets the same no,
    // and none of them takes room in the limiter.
    if state.config.registration == Registration::Closed {
        return Err(ApiError::RegistrationClosed);
    }
    // Counted whether it works or not: with open registration every attempt
    // works, and a limit that forgives success would be no limit there.
    state.limits.check_at(who, &limits::accounts(), tick)
}

/// Whether a new account may be asked for, before the request is read.
pub fn admit_create(state: &mut AppState, who: &str) -> (admitted: Result<()>)
    requires
        old(state).wf(),
    ensures
        final(state).wf(),
        exists|tick: u64|
            refused(admitted) == #[trigger] create_turned_away(old(state)@, who@, tick)
                && final(state)@ == if old(state)@.config.registration == Registration::Closed {
                old(state)@
            } else {
                old(state)@.counting_address(who@, limits::accounts(), tick)
            },
{
    let tick: u64 = state.limits.now();
    admit_create_at(state, who, tick)
}

/// What is wrong with a vault header, if anything is.
pub open spec fn vault_fault(state: StateView, vault: VaultHeaderView) -> Option<Refusal> {
    if !vault.plausible() {
        Some(Refusal::Invalid("a vault header no device could open"@))
    } else if !state.config.kdf_floor.holds(vault) {
        Some(Refusal::Invalid("a vault too cheap to guess against"@))
    } else {
        None
    }
}

fn check_vault(state: &AppState, vault: &VaultHeader) -> (checked: Result<()>)
    ensures
        refused(checked) == vault_fault(state@, vault@),
{
    if !vault.plausible() {
        return Err(ApiError::Invalid("a vault header no device could open".to_owned()));
    }
    match state.config.kdf_floor.check(vault) {
        Ok(()) => Ok(()),
        Err(what) => Err(ApiError::Invalid(what)),
    }
}

/// The database once whatever lets an account in has been spent.
pub open spec fn invite_spent(state: StateView, invite: Seq<char>, now: u64) -> DbView {
    if state.config.registration == Registration::Invite {
        redeemed(state.db, invite, now)
    } else {
        state.db
    }
}

/// Why a new account is refused before anything is spent on it, if it is.
pub open spec fn create_fault(state: StateView, request: CreateAccount, now: u64) -> Option<
    Refusal,
> {
    if vault_fault(state, request.vault@) is Some {
        vault_fault(state, request.vault@)
    } else if auth_key_refusal(request.auth_key@) is Some {
        auth_key_refusal(request.auth_key@)
    } else if key_bytes(request.device.public_key@) is None {
        Some(Refusal::Invalid("a device key must be 32 bytes"@))
    } else if state.db.accounts.len() >= state.config.max_accounts {
        // Before the invite is spent, so a full server does not eat one.
        Some(Refusal::ServerFull)
    } else {
        match state.config.registration {
            Registration::Closed => Some(Refusal::RegistrationClosed),
            // An invite that is used, expired or made up: all the same
            // answer, so the code cannot be probed for.
            Registration::Invite => if redeemable(state.db, request.invite@, now) {
                None
            } else {
                Some(Refusal::Unauthorized)
            },
            Registration::Open => None,
        }
    }
}

/// Why a new account is refused, if it is.
pub open spec fn create_refusal(
    state: StateView,
    request: CreateAccount,
    account: Uuid,
    fresh: Fresh,
) -> Option<Refusal> {
    if create_fault(state, request, fresh.now) is Some {
        create_fault(state, request, fresh.now)
    } else if state.db.has_account(account) {
        Some(Refusal::Database("UNIQUE constraint failed: accounts.id"@))
    } else if state.db.has_device(fresh.device) {
        Some(Refusal::Database("UNIQUE constraint failed: devices.id"@))
    } else {
        None
    }
}

/// The database with a new account in it.
pub open spec fn with_new_account(
    db: DbView,
    request: CreateAccount,
    account: Uuid,
    now: u64,
) -> DbView {
    DbView {
        accounts: db.accounts.push(
            fresh_account(
                account,
                request.vault@,
                key_bytes(request.auth_key@)->Some_0,
                now,
            ),
        ),
        ..db
    }
}

/// The database with a new device in it.
pub open spec fn with_new_device(
    db: DbView,
    account: Uuid,
    device: crate::proto::NewDevice,
    fresh: Fresh,
) -> DbView {
    DbView {
        devices: db.devices.push(
            fresh_device(
                fresh.device,
                account,
                device.name@,
                key_bytes(device.public_key@)->Some_0,
                fresh.now,
            ),
        ),
        ..db
    }
}

/// The state after somebody asked for a new account.
pub open spec fn after_create(
    state: StateView,
    request: CreateAccount,
    account: Uuid,
    fresh: Fresh,
) -> StateView {
    let spent = invite_spent(state, request.invite@, fresh.now);
    let created = with_new_account(spent, request, account, fresh.now);
    if create_fault(state, request, fresh.now) is Some {
        state
    } else if state.db.has_account(account) {
        StateView { db: spent, ..state }
    } else if state.db.has_device(fresh.device) {
        StateView { db: created, ..state }
    } else {
        StateView {
            db: with_new_device(created, account, request.device, fresh),
            sessions: token_issued(
                state.sessions,
                fresh.token,
                Session {
                    account_id: account,
                    device_id: fresh.device,
                    expires_ms: later(fresh.now, in_ms(state.config.session_secs)),
                },
                fresh.now,
            ),
            ..state
        }
    }
}

/// What a device is told that was let in.
pub open spec fn is_admitted(
    admitted: Admitted,
    account: Uuid,
    state: StateView,
    fresh: Fresh,
) -> bool {
    &&& admitted.account_id == account
    &&& admitted.device_id == fresh.device
    &&& admitted.token@ == fresh.token
    &&& admitted.expires_ms == later(fresh.now, in_ms(state.config.session_secs))
}

/// What asking for a new account does and is answered.
pub open spec fn create_done(
    before: StateView,
    after: StateView,
    request: CreateAccount,
    account: Uuid,
    fresh: Fresh,
    outcome: Result<Admitted>,
) -> bool {
    &&& refused(outcome) == create_refusal(before, request, account, fresh)
    &&& after == after_create(before, request, account, fresh)
    &&& outcome matches Ok(admitted) ==> is_admitted(admitted, account, before, fresh)
}

/// [`create`] with given names, token and time.
pub fn create_at(
    state: &mut AppState,
    request: &CreateAccount,
    account_id: Uuid,
    device_id: Uuid,
    token: String,
    now: u64,
) -> (outcome: Result<Admitted>)
    requires
        old(state).wf(),
    ensures
        final(state).wf(),
        create_done(
            old(state)@,
            final(state)@,
            *request,
            account_id,
            Fresh { device: device_id, token: token@, now },
            outcome,
        ),
{
    check_vault(state, &request.vault)?;
    let key: Vec<u8> = auth_key(request.auth_key.as_str())?;
    let device_key: [u8; 32] = device_key(&request.device)?;
    if accounts::count(&state.db) as u64 >= state.config.max_accounts {
        return Err(ApiError::ServerFull);
    }
    match state.config.registration {
        Registration::Closed => {
            return Err(ApiError::RegistrationClosed);
        },
        Registration::Invite => {
            if !invites::redeem_invite_at(&mut state.db, request.invite.as_str(), now) {
                return Err(ApiError::Unauthorized);
            }
        },
        Registration::Open => {},
    }
    let ghost spent = state.db@;
    assert(spent == invite_spent(old(state)@, request.invite@, now));
    assert(spent.accounts == old(state)@.db.accounts && spent.devices == old(state)@.db.devices);
    assert(spent.has_account(account_id) == old(state)@.db.has_account(account_id));
    assert(spent.has_device(device_id) == old(state)@.db.has_device(device_id));
    let _ = accounts::create_at(&mut state.db, account_id, &request.vault, key.as_slice(), now)?;
    let ghost created = state.db@;
    assert(created == with_new_account(spent, *request, account_id, now));
    assert(created.accounts[spent.accounts.len() as int].id == account_id);
    assert(created.has_account(account_id));
    assert(created.has_device(device_id) == spent.has_device(device_id));
    let _ = devices::add_at(
        &mut state.db,
        device_id,
        account_id,
        request.device.name.as_str(),
        &device_key,
        now,
    )?;
    let ttl_ms: u64 = to_ms(state.config.session_secs);
    let expires_ms: u64 = state.sessions.issue_at(
        token.clone(),
        account_id,
        device_id,
        ttl_ms,
        now,
    );
    Ok(Admitted { account_id, device_id, token, expires_ms })
}

/// The first device of a new account.
pub fn create(state: &mut AppState, request: &CreateAccount) -> (outcome: Result<Admitted>)
    requires
        old(state).wf(),
    ensures
        final(state).wf(),
        exists|account: Uuid, device: Uuid, bytes: Seq<u8>, now: u64|
            is_v7(account.value) && is_v7(device.value) && bytes.len() == 32
                && #[trigger] create_done(
                old(state)@,
                final(state)@,
                *request,
                account,
                made_up(device, bytes, now),
                outcome,
            ),
{
    let account_id: Uuid = Uuid::now_v7();
    let device_id: Uuid = Uuid::now_v7();
    let bytes: [u8; 32] = random_bytes::<32>();
    let token: String = b64::encode(bytes.as_slice());
    let now: u64 = now_ms();
    assert(bytes@.len() == 32);
    assert(made_up(device_id, bytes@, now) == (Fresh { device: device_id, token: token@, now }));
    create_at(state, request, account_id, device_id, token, now)
}

/// The whole header, for a device that is in.
pub fn vault(state: &AppState, auth: &Authenticated) -> (header: Result<VaultHeader>)
    requires
        state.wf(),
    ensures
        header is Ok <==> state@.db.has_account(auth.account.id),
        header matches Ok(header) ==> header@ == state@.db.account(auth.account.id).header,
        header matches Err(error) ==> error@ == Refusal::NotFound,
{
    match accounts::header(&state.db, auth.account.id) {
        Some(header) => Ok(header),
        None => Err(ApiError::NotFound),
    }
}

/// Whether somebody who joins may ask, before the request is read.
pub fn admit_join_at(state: &mut AppState, who: &str, tick: u64) -> (admitted: Result<()>)
    requires
        old(state).wf(),
    ensures
        final(state).wf(),
        refused(admitted) == if address_refused(
            old(state)@.limits.hits,
            who@,
            tick,
            limits::enrol(),
        ) {
            Some(Refusal::RateLimited)
        } else {
            None
        },
        final(state)@ == old(state)@.counting_address(who@, limits::enrol(), tick),
{
    state.limits.check_at(who, &limits::enrol(), tick)
}

/// Whether somebody who joins may ask, before the request is read.
pub fn admit_join(state: &mut AppState, who: &str) -> (admitted: Result<()>)
    requires
        old(state).wf(),
    ensures
        final(state).wf(),
        exists|tick: u64|
            refused(admitted) == (if #[trigger] address_refused(
                old(state)@.limits.hits,
                who@,
                tick,
                limits::enrol(),
            ) {
                Some(Refusal::RateLimited)
            } else {
                None
            }) && final(state)@ == old(state)@.counting_address(who@, limits::enrol(), tick),
{
    let tick: u64 = state.limits.now();
    admit_join_at(state, who, tick)
}

/// [`vault_params`] at a given time.
pub fn vault_params_at(state: &AppState, enrolment: &str, now: u64) -> (params: Result<
    VaultParams,
>)
    requires
        state.wf(),
    ensures
        ({
            let account = joins(state@.db, enrolment@, now);
            let header = state@.db.account(account->Some_0).header;
            match params {
                Ok(params) => {
                    &&& account is Some && state@.db.has_account(account->Some_0)
                    &&& params@ == header.params()
                    &&& params.vault_id == header.vault_id
                    &&& params.kdf_memory_kib == header.kdf_memory_kib
                    &&& params.kdf_time_cost == header.kdf_time_cost
                    &&& params.kdf_parallelism == header.kdf_parallelism
                    &&& params.salt@ == header.salt
                    &&& params.needs_account_key == header.needs_account_key
                },
                Err(error) => {
                    &&& error@ == Refusal::Unauthorized
                    &&& account is None || !state@.db.has_account(account->Some_0)
                },
            }
        }),
{
    let account: Uuid = match invites::peek_enrolment_at(&state.db, enrolment, now) {
        Some(account) => account,
        None => {
            return Err(ApiError::Unauthorized);
        },
    };
    match accounts::header(&state.db, account) {
        Some(header) => Ok(header.params()),
        None => Err(ApiError::Unauthorized),
    }
}

/// What a joining device needs *before* it can prove anything: the salt and
/// the costs, so it can turn the master password into the key it will prove
/// with. The wrapped vault key is not in here: that one is the reward for
/// proving it.
///
/// The enrolment token comes in the body. In the address it would sit in the
/// access log of every proxy in between.
pub fn vault_params(state: &AppState, enrolment: &str) -> (params: Result<VaultParams>)
    requires
        state.wf(),
    ensures
        exists|now: u64|
            ({
                let account = #[trigger] joins(state@.db, enrolment@, now);
                let header = state@.db.account(account->Some_0).header;
                match params {
                    Ok(params) => {
                        &&& account is Some && state@.db.has_account(account->Some_0)
                        &&& params@ == header.params()
                        &&& params.vault_id == header.vault_id
                        &&& params.kdf_memory_kib == header.kdf_memory_kib
                        &&& params.kdf_time_cost == header.kdf_time_cost
                        &&& params.kdf_parallelism == header.kdf_parallelism
                        &&& params.salt@ == header.salt
                        &&& params.needs_account_key == header.needs_account_key
                    },
                    Err(error) => {
                        &&& error@ == Refusal::Unauthorized
                        &&& account is None || !state@.db.has_account(account->Some_0)
                    },
                }
            }),
{
    let now: u64 = now_ms();
    vault_params_at(state, enrolment, now)
}

/// Why a new master password is refused before the old one is proved, if it
/// is.
pub open spec fn change_fault(
    state: StateView,
    account: Account,
    request: ChangePassword,
) -> Option<Refusal> {
    if auth_key_refusal(request.current_auth_key@) is Some {
        auth_key_refusal(request.current_auth_key@)
    } else if auth_key_refusal(request.auth_key@) is Some {
        auth_key_refusal(request.auth_key@)
    } else if vault_fault(state, request.vault@) is Some {
        vault_fault(state, request.vault@)
    } else if request.vault.vault_id != account.vault_id {
        Some(Refusal::Invalid("that header belongs to another vault"@))
    } else {
        None
    }
}

/// What a change of the master password does and is answered.
pub open spec fn change_done(
    before: StateView,
    after: StateView,
    device: Uuid,
    account: Account,
    request: ChangePassword,
    tick: u64,
    outcome: Result<()>,
) -> bool {
    let fault = change_fault(before, account, request);
    let current = key_bytes(request.current_auth_key@)->Some_0;
    let next = key_bytes(request.auth_key@)->Some_0;
    if fault is Some {
        refused(outcome) == fault && after == before
    } else {
        let proof = before.proof_refusal(device, account.id, current, tick);
        let proved = before.after_proof(device, account.id, current, tick);
        &&& refused(outcome) == proof
        &&& after == if proof is None {
            StateView {
                db: before.db.with_account(
                    account.id,
                    rewrapped(before.db.account(account.id), request.vault@, next),
                ),
                ..proved
            }
        } else {
            proved
        }
    }
}

/// [`change_password`] at a given moment.
pub fn change_password_at(
    state: &mut AppState,
    auth: &Authenticated,
    request: &ChangePassword,
    tick: u64,
) -> (outcome: Result<()>)
    requires
        old(state).wf(),
    ensures
        final(state).wf(),
        change_done(
            old(state)@,
            final(state)@,
            auth.device.id,
            auth.account,
            *request,
            tick,
            outcome,
        ),
{
    let current: Vec<u8> = auth_key(request.current_auth_key.as_str())?;
    let next: Vec<u8> = auth_key(request.auth_key.as_str())?;
    check_vault(state, &request.vault)?;
    if request.vault.vault_id != auth.account.vault_id {
        // Changing the password does not change which vault this is. A header
        // for another vault would orphan every record in the account.
        return Err(ApiError::Invalid("that header belongs to another vault".to_owned()));
    }
    prove_password_at(state, auth, current.as_slice(), tick)?;
    accounts::set_header(&mut state.db, auth.account.id, &request.vault, next.as_slice());
    Ok(())
}

/// A new master password: the vault key is wrapped again, the verifier
/// replaced, and not one record is touched.
pub fn change_password(
    state: &mut AppState,
    auth: &Authenticated,
    request: &ChangePassword,
) -> (outcome: Result<()>)
    requires
        old(state).wf(),
    ensures
        final(state).wf(),
        exists|tick: u64| #[trigger]
            change_done(
                old(state)@,
                final(state)@,
                auth.device.id,
                auth.account,
                *request,
                tick,
                outcome,
            ),
{
    let tick: u64 = state.limits.now();
    change_password_at(state, auth, request, tick)
}

} // verus!
