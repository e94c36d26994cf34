//! Accounts: opening one, its vault header, its master password.

use crate::api::accounts::{
    change_done, change_fault, create_done, create_fault, create_turned_away, vault_fault, Fresh,
};
use crate::api::{auth_key_refusal, in_ms, key_bytes};
use crate::b64;
use crate::config::Registration;
use crate::db::accounts::{rewrapped, Account, KdfFloor, VaultHeader, VaultHeaderView, VaultParams};
use crate::db::invites::{code_hash, joins, redeemable, token_hash};
use crate::db::laws::lemma_with_account;
use crate::db::{AccountRow, DbView};
use crate::error::{refused, Refusal, Result};
use crate::ids::Uuid;
use crate::limits::{self, Bucket};
use crate::proto::{Admitted, ChangePassword, CreateAccount};
use crate::state::StateView;
use crate::{later, sha256_of, text};
use vstd::prelude::*;

verus! {

/// What is said of a header, of the part of it that a joining device sees and
/// of an account is said of every part of it.
pub proof fn nothing_is_left_out(header: VaultHeader, params: VaultParams, row: AccountRow, i: int)
    ensures
        header@.vault_id == header.vault_id,
        header@.kdf_memory_kib == header.kdf_memory_kib,
        header@.kdf_time_cost == header.kdf_time_cost,
        header@.kdf_parallelism == header.kdf_parallelism,
        header@.salt == header.salt@,
        header@.wrapped_nonce == header.wrapped_nonce@,
        header@.wrapped_blob == header.wrapped_blob@,
        header@.needs_account_key == header.needs_account_key,
        params@.vault_id == params.vault_id,
        params@.kdf_memory_kib == params.kdf_memory_kib,
        params@.kdf_time_cost == params.kdf_time_cost,
        params@.kdf_parallelism == params.kdf_parallelism,
        params@.salt == params.salt@,
        params@.needs_account_key == params.needs_account_key,
        row@.id == row.id,
        row@.created_ms == row.created_ms,
        row@.header == row.header@,
        row@.auth_verifier == row.auth_verifier@,
        row@.seq == row.seq,
        row@.record_count == row.record_count,
        row@.record_bytes == row.record_bytes,
        row@.records.len() == row.records@.len(),
        0 <= i < row.records@.len() ==> row@.records[i] == row.records@[i]@,
{
}

/// The parameters a joining device is given are those of the account's header,
/// each of them.
pub proof fn a_joining_device_gets_the_parameters_of_the_vault(header: VaultHeaderView)
    ensures
        header.params().vault_id == header.vault_id,
        header.params().kdf_memory_kib == header.kdf_memory_kib,
        header.params().kdf_time_cost == header.kdf_time_cost,
        header.params().kdf_parallelism == header.kdf_parallelism,
        header.params().salt == header.salt,
        header.params().needs_account_key == header.needs_account_key,
{
}

/// A token that lets a device join lets it into the account it was made for,
/// as long as it is unused and its time is not up, and only then.
pub proof fn a_token_joins_the_account_it_was_made_for(
    db: DbView,
    token: Seq<char>,
    now: u64,
    i: int,
)
    requires
        db.wf(),
        0 <= i < db.enrolments.len(),
        db.enrolments[i].token_hash == token_hash(token),
    ensures
        joins(db, token, now) == if db.enrolments[i].used_ms is None && db.enrolments[i].expires_ms
            > now {
            Some(db.enrolments[i].account_id)
        } else {
            None
        },
{
}

/// A token that nobody made lets nobody in.
pub proof fn a_token_nobody_made_joins_nothing(db: DbView, token: Seq<char>, now: u64)
    requires
        forall|i: int|
            0 <= i < db.enrolments.len() ==> (#[trigger] db.enrolments[i]).token_hash != token_hash(
                token,
            ),
    ensures
        joins(db, token, now) is None,
{
}

/// A vault is taken whose costs a device can run and that is not too cheap to
/// guess against, and no other.
pub proof fn a_vault_that_is_taken_can_be_opened(state: StateView, vault: VaultHeaderView)
    ensures
        vault_fault(state, vault) is None <==> {
            &&& 1 <= vault.kdf_memory_kib <= 1_048_576
            &&& 1 <= vault.kdf_time_cost <= 16
            &&& 1 <= vault.kdf_parallelism <= 16
            &&& vault.salt.len() >= 1
            &&& vault.wrapped_blob.len() >= 1
            &&& vault.kdf_memory_kib >= state.config.kdf_floor.memory_kib
            &&& vault.kdf_time_cost >= state.config.kdf_floor.time_cost
        },
        vault_fault(state, vault) matches Some(refusal) ==> refusal is Invalid,
        KdfFloor::standard().memory_kib == 19_456,
        KdfFloor::standard().time_cost == 2,
{
}

/// A key is thirty-two bytes in base64, white space around it aside; what is
/// none is refused as invalid, and what is one is the bytes it stands for.
pub proof fn a_key_is_thirty_two_bytes(encoded: Seq<char>)
    ensures
        key_bytes(encoded) matches Some(bytes) ==> bytes.len() == 32 && b64::decoded(
            text::trimmed(encoded),
        ) == Some(bytes),
        b64::decoded(text::trimmed(encoded)) matches Some(bytes) ==> (bytes.len() == 32
            ==> key_bytes(encoded) == Some(bytes)),
        auth_key_refusal(encoded) is None <==> key_bytes(encoded) is Some,
        auth_key_refusal(encoded) matches Some(refusal) ==> refusal is Invalid,
{
}

/// A time in seconds is a thousand times as many milliseconds, and what is
/// added to a time is later by that much, where the clock goes that far.
pub proof fn times_add_up(now: u64, ms: u64, secs: u64)
    ensures
        now + ms <= u64::MAX ==> later(now, ms) == now + ms,
        later(now, ms) >= now,
        later(now, ms) < now + ms ==> later(now, ms) == u64::MAX,
        secs * 1000 <= u64::MAX ==> in_ms(secs) == secs * 1000,
        secs * 1000 > u64::MAX ==> in_ms(secs) == u64::MAX,
{
}

/// After a new password the account has the header that was given, field by
/// field, of the vault it had, and the verifier of the new key; nothing else of
/// it, and nothing else at all in the database, has changed. Only who knew the
/// old password gets this far.
pub proof fn a_new_password_sets_the_header(
    before: StateView,
    after: StateView,
    device: Uuid,
    account: Account,
    request: ChangePassword,
    tick: u64,
    other: Uuid,
)
    requires
        before.db.wf(),
        change_done(before, after, device, account, request, tick, Ok(())),
    ensures
        before.db.has_account(account.id),
        after.db.has_account(account.id),
        ({
            let was = before.db.account(account.id);
            let is = after.db.account(account.id);
            &&& is.header.vault_id == was.header.vault_id
            &&& is.header.kdf_memory_kib == request.vault.kdf_memory_kib
            &&& is.header.kdf_time_cost == request.vault.kdf_time_cost
            &&& is.header.kdf_parallelism == request.vault.kdf_parallelism
            &&& is.header.salt == request.vault.salt@
            &&& is.header.wrapped_nonce == request.vault.wrapped_nonce@
            &&& is.header.wrapped_blob == request.vault.wrapped_blob@
            &&& is.header.needs_account_key == request.vault.needs_account_key
            &&& key_bytes(request.auth_key@) is Some
            &&& is.auth_verifier == sha256_of(key_bytes(request.auth_key@)->Some_0)
            &&& key_bytes(request.current_auth_key@) is Some
            &&& was.auth_verifier == sha256_of(key_bytes(request.current_auth_key@)->Some_0)
            &&& is.id == was.id
            &&& is.created_ms == was.created_ms
            &&& is.seq == was.seq
            &&& is.record_count == was.record_count
            &&& is.record_bytes == was.record_bytes
            &&& is.records == was.records
        }),
        other != account.id && before.db.has_account(other) ==> after.db.account(other)
            == before.db.account(other),
        after.db.accounts.len() == before.db.accounts.len(),
        after.db.devices == before.db.devices,
        after.db.invites == before.db.invites,
        after.db.enrolments == before.db.enrolments,
        after.sessions == before.sessions,
        after.challenges == before.challenges,
        after.pairings == before.pairings,
        after.config == before.config,
        request.vault.vault_id == account.vault_id,
        vault_fault(before, request.vault@) is None,
{
    let key = key_bytes(request.auth_key@)->Some_0;
    let was = before.db.account(account.id);
    assert(was.id == account.id);
    lemma_with_account(before.db, account.id, rewrapped(was, request.vault@, key), other);
}

/// A change of the password that is refused changes nothing that is kept.
pub proof fn a_refused_password_changes_nothing(
    before: StateView,
    after: StateView,
    device: Uuid,
    account: Account,
    request: ChangePassword,
    tick: u64,
    outcome: Result<()>,
)
    requires
        change_done(before, after, device, account, request, tick, outcome),
        outcome is Err,
    ensures
        after.db == before.db,
        after.sessions == before.sessions,
{
}

/// A right change of the password is only refused for how often was tried.
pub proof fn who_knows_the_password_may_change_it(
    before: StateView,
    after: StateView,
    device: Uuid,
    account: Account,
    request: ChangePassword,
    tick: u64,
    outcome: Result<()>,
)
    requires
        change_done(before, after, device, account, request, tick, outcome),
        before.db.has_account(account.id),
        key_bytes(request.current_auth_key@) is Some,
        before.db.account(account.id).auth_verifier == sha256_of(
            key_bytes(request.current_auth_key@)->Some_0,
        ),
        key_bytes(request.auth_key@) is Some,
        vault_fault(before, request.vault@) is None,
        request.vault.vault_id == account.vault_id,
    ensures
        outcome is Ok || refused(outcome) == Some(Refusal::RateLimited),
{
}

/// A new account begins with the vault that was given, field by field, with the
/// verifier of the key that was given, at number nought with nothing in it. Its
/// first device is in with the key it sent, and holds a token for as long as a
/// session lasts. Nothing that was there is lost.
pub proof fn a_new_account_is_as_it_was_asked_for(
    before: StateView,
    after: StateView,
    request: CreateAccount,
    account: Uuid,
    fresh: Fresh,
    admitted: Admitted,
    i: int,
)
    requires
        before.db.wf(),
        create_done(before, after, request, account, fresh, Ok(admitted)),
    ensures
        ({
            let made = after.db.accounts.last();
            let device = after.db.devices.last();
            &&& after.db.accounts.len() == before.db.accounts.len() + 1
            &&& after.db.account(account) == made
            &&& made.id == account
            &&& made.created_ms == fresh.now
            &&& made.header.vault_id == request.vault.vault_id
            &&& made.header.kdf_memory_kib == request.vault.kdf_memory_kib
            &&& made.header.kdf_time_cost == request.vault.kdf_time_cost
            &&& made.header.kdf_parallelism == request.vault.kdf_parallelism
            &&& made.header.salt == request.vault.salt@
            &&& made.header.wrapped_nonce == request.vault.wrapped_nonce@
            &&& made.header.wrapped_blob == request.vault.wrapped_blob@
            &&& made.header.needs_account_key == request.vault.needs_account_key
            &&& key_bytes(request.auth_key@) is Some
            &&& made.auth_verifier == sha256_of(key_bytes(request.auth_key@)->Some_0)
            &&& made.seq == 0
            &&& made.record_count == 0
            &&& made.record_bytes == 0
            &&& made.records.len() == 0
            &&& after.db.devices.len() == before.db.devices.len() + 1
            &&& device.id == fresh.device
            &&& device.account_id == account
            &&& key_bytes(request.device.public_key@) == Some(device.public_key)
            &&& device.created_ms == fresh.now
            &&& device.last_seen_ms is None
            &&& device.cursor == 0
            &&& device.revoked_ms is None
            &&& admitted.account_id == account
            &&& admitted.device_id == fresh.device
            &&& admitted.token@ == fresh.token
            &&& after.sessions.len() > 0
            &&& after.sessions.last().token == fresh.token
            &&& after.sessions.last().session.account_id == account
            &&& after.sessions.last().session.device_id == fresh.device
            &&& after.sessions.last().session.expires_ms == admitted.expires_ms
            &&& fresh.now + before.config.session_secs * 1000 <= u64::MAX ==> admitted.expires_ms
                == fresh.now + before.config.session_secs * 1000
            &&& 0 <= i < before.db.accounts.len() ==> after.db.accounts[i] == before.db.accounts[i]
            &&& 0 <= i < before.db.devices.len() ==> after.db.devices[i] == before.db.devices[i]
            &&& after.db.invites.len() == before.db.invites.len()
            &&& after.db.enrolments == before.db.enrolments
            &&& before.db.accounts.len() < before.config.max_accounts
            &&& vault_fault(before, request.vault@) is None
        }),
{
    assert(after.db.accounts[after.db.accounts.len() - 1].id == account);
    let at = after.db.account_at(account);
    assert(after.db.accounts[at].id == account);
    if at < before.db.accounts.len() {
        assert(before.db.accounts[at].id == account);
    }
}

/// Who lets an account in: nobody where registration is closed, anybody where
/// it is open, and where it takes an invite whoever has one that is unused and
/// whose time is not up. Such an invite is then used, and no other.
pub proof fn an_account_takes_what_registration_asks(
    before: StateView,
    after: StateView,
    request: CreateAccount,
    account: Uuid,
    fresh: Fresh,
    admitted: Admitted,
    i: int,
)
    requires
        before.db.wf(),
        create_done(before, after, request, account, fresh, Ok(admitted)),
        0 <= i < before.db.invites.len(),
    ensures
        before.config.registration != Registration::Closed,
        before.config.registration == Registration::Open ==> after.db.invites == before.db.invites,
        before.config.registration == Registration::Invite ==> ({
            let is_it = before.db.invites[i].code_hash == code_hash(request.invite@);
            &&& is_it ==> before.db.invites[i].used_ms is None && before.db.invites[i].expires_ms
                > fresh.now
            &&& is_it ==> after.db.invites[i].used_ms == Some(fresh.now)
            &&& after.db.invites[i].code_hash == before.db.invites[i].code_hash
            &&& after.db.invites[i].created_ms == before.db.invites[i].created_ms
            &&& after.db.invites[i].expires_ms == before.db.invites[i].expires_ms
            &&& !is_it ==> after.db.invites[i].used_ms == before.db.invites[i].used_ms
            &&& exists|k: int|
                0 <= k < before.db.invites.len() && (#[trigger] before.db.invites[k]).code_hash
                    == code_hash(request.invite@)
        }),
{
}

/// A right request for an account is only refused where the server is full, or
/// where the id that was made up is not new.
pub proof fn who_may_open_an_account_does(
    before: StateView,
    after: StateView,
    request: CreateAccount,
    account: Uuid,
    fresh: Fresh,
    outcome: Result<Admitted>,
    i: int,
)
    requires
        before.db.wf(),
        create_done(before, after, request, account, fresh, outcome),
        vault_fault(before, request.vault@) is None,
        key_bytes(request.auth_key@) is Some,
        key_bytes(request.device.public_key@) is Some,
        before.db.accounts.len() < before.config.max_accounts,
        !before.db.has_account(account),
        !before.db.has_device(fresh.device),
        before.config.registration == Registration::Open || (before.config.registration
            == Registration::Invite && 0 <= i < before.db.invites.len()
            && before.db.invites[i].code_hash == code_hash(request.invite@)
            && before.db.invites[i].used_ms is None && before.db.invites[i].expires_ms
            > fresh.now),
    ensures
        outcome is Ok,
{
}

/// A refused request for an account leaves no account and no token.
pub proof fn who_may_not_open_an_account_does_not(
    before: StateView,
    after: StateView,
    request: CreateAccount,
    account: Uuid,
    fresh: Fresh,
    outcome: Result<Admitted>,
)
    requires
        create_done(before, after, request, account, fresh, outcome),
    ensures
        before.config.registration == Registration::Closed ==> outcome is Err && after == before,
        before.db.accounts.len() >= before.config.max_accounts ==> outcome is Err && after
            == before,
        vault_fault(before, request.vault@) is Some ==> outcome is Err && after == before,
        key_bytes(request.auth_key@) is None ==> outcome is Err && after == before,
        key_bytes(request.device.public_key@) is None ==> outcome is Err && after == before,
        outcome is Err ==> after.sessions == before.sessions && after.db.devices
            == before.db.devices,
{
}

/// Counting somebody changes the count and nothing else, and neither does
/// taking it back.
pub proof fn counting_changes_nothing_else(
    state: StateView,
    who: Seq<char>,
    bucket: Bucket,
    tick: u64,
)
    ensures
        ({
            let address = state.counting_address(who, bucket, tick);
            let member = state.counting_member(who, bucket, tick);
            let no_address = state.forgiving_address(who, bucket);
            let no_member = state.forgiving_member(who, bucket);
            &&& address.limits.hits == limits::address_tried(state.limits.hits, who, tick, bucket)
            &&& member.limits.hits == limits::member_tried(state.limits.hits, who, tick, bucket)
            &&& no_address.limits.hits.addresses == limits::taken_back(
                state.limits.hits.addresses,
                who,
                bucket.name@,
            )
            &&& no_address.limits.hits.members == state.limits.hits.members
            &&& no_member.limits.hits.members == limits::taken_back(
                state.limits.hits.members,
                who,
                bucket.name@,
            )
            &&& no_member.limits.hits.addresses == state.limits.hits.addresses
            &&& address.limits.going == state.limits.going && member.limits.going
                == state.limits.going
            &&& no_address.limits.going == state.limits.going && no_member.limits.going
                == state.limits.going
            &&& address.db == state.db && member.db == state.db
            &&& no_address.db == state.db && no_member.db == state.db
            &&& address.sessions == state.sessions && member.sessions == state.sessions
            &&& no_address.sessions == state.sessions && no_member.sessions == state.sessions
            &&& address.challenges == state.challenges && member.challenges == state.challenges
            &&& no_address.challenges == state.challenges && no_member.challenges
                == state.challenges
            &&& address.pairings == state.pairings && member.pairings == state.pairings
            &&& no_address.pairings == state.pairings && no_member.pairings == state.pairings
            &&& address.config == state.config && member.config == state.config
            &&& address.events == state.events && member.events == state.events
        }),
{
}

/// The master password is proved with the key that the account is opened by. A
/// wrong proof counts against the device that tried, a right one does not, and
/// after ten wrong ones in an hour it has to wait.
pub proof fn who_proves_the_password(
    state: StateView,
    device: Uuid,
    account: Uuid,
    key: Seq<u8>,
    tick: u64,
)
    ensures
        ({
            let bucket = limits::proofs();
            let who = limits::device_key(device);
            let refusal = state.proof_refusal(device, account, key, tick);
            let after = state.after_proof(device, account, key, tick);
            let right = state.db.has_account(account) && state.db.account(account).auth_verifier
                == sha256_of(key);
            let often = limits::member_refused(state.limits.hits, who, tick, bucket);
            let counted = limits::member_tried(state.limits.hits, who, tick, bucket);
            &&& often ==> refusal == Some(Refusal::RateLimited)
            &&& !often && !right ==> refusal == Some(Refusal::WrongPassword)
            &&& !often && right ==> refusal is None
            &&& refusal is Some ==> after.limits.hits == counted
            &&& refusal is None ==> after.limits.hits.members == limits::taken_back(
                counted.members,
                who,
                bucket.name@,
            )
            &&& bucket.max == 10 && bucket.window == 3_600_000_000_000
            &&& after.db == state.db
            &&& after.sessions == state.sessions
            &&& after.challenges == state.challenges
            &&& after.pairings == state.pairings
        }),
{
}

/// What is wrong with a change of the password is told, in the order it is
/// looked at.
pub proof fn what_is_wrong_with_a_new_password(
    state: StateView,
    account: Account,
    request: ChangePassword,
)
    ensures
        change_fault(state, account, request) is None <==> {
            &&& key_bytes(request.current_auth_key@) is Some
            &&& key_bytes(request.auth_key@) is Some
            &&& vault_fault(state, request.vault@) is None
            &&& request.vault.vault_id == account.vault_id
        },
        change_fault(state, account, request) matches Some(refusal) ==> refusal is Invalid,
{
}

/// Asking for an account, or to join one, is counted and refused by the address
/// that asks.
pub proof fn asking_for_an_account_is_counted(state: StateView, who: Seq<char>, tick: u64)
    ensures
        state.config.registration == Registration::Closed ==> create_turned_away(state, who, tick)
            == Some(Refusal::RegistrationClosed),
        state.config.registration != Registration::Closed && limits::address_refused(
            state.limits.hits,
            who,
            tick,
            limits::accounts(),
        ) ==> create_turned_away(state, who, tick) == Some(Refusal::RateLimited),
        state.config.registration != Registration::Closed && !limits::address_refused(
            state.limits.hits,
            who,
            tick,
            limits::accounts(),
        ) ==> create_turned_away(state, who, tick) is None,
{
}

/// What is wrong with a request for an account is told, in the order it is
/// looked at.
pub proof fn what_is_wrong_with_a_new_account(state: StateView, request: CreateAccount, now: u64)
    ensures
        ({
            let fault = create_fault(state, request, now);
            let right = vault_fault(state, request.vault@) is None && key_bytes(
                request.auth_key@,
            ) is Some && key_bytes(request.device.public_key@) is Some;
            &&& vault_fault(state, request.vault@) is Some ==> fault == vault_fault(
                state,
                request.vault@,
            )
            &&& !right ==> fault is Some && fault->Some_0 is Invalid
            &&& right && state.db.accounts.len() >= state.config.max_accounts ==> fault == Some(
                Refusal::ServerFull,
            )
            &&& right && state.db.accounts.len() < state.config.max_accounts
                && state.config.registration == Registration::Closed ==> fault == Some(
                Refusal::RegistrationClosed,
            )
            &&& right && state.db.accounts.len() < state.config.max_accounts
                && state.config.registration == Registration::Open ==> fault is None
            &&& right && state.db.accounts.len() < state.config.max_accounts
                && state.config.registration == Registration::Invite ==> fault == if redeemable(
                state.db,
                request.invite@,
                now,
            ) {
                None
            } else {
                Some(Refusal::Unauthorized)
            }
        }),
{
}

} // verus!
