//! What each request counts, and when it is refused for it.

use crate::api::accounts::{change_done, change_fault, create_done, Fresh};
use crate::api::devices::{enrol_done, invite_done, revoke_done};
use crate::api::pairing::open_done;
use crate::api::records::{pull_done, PullQuery};
use crate::api::session::{after_challenge, login_done, sign_in_key, Offered};
use crate::api::key_bytes;
use crate::db::accounts::{create_done as kept, Account, VaultHeaderView};
use crate::db::invites::{has_enrolment, joins, spent_db, token_hash};
use crate::db::DbView;
use crate::error::{refused, Refusal, Result};
use crate::ids::Uuid;
use crate::limits::{
    self, account_key, address_refused, address_tried, device_key, going_count, member_refused,
    member_tried, taken_back, Going,
};
use crate::proto::{
    Admitted, ChangePassword, CreateAccount, EnrolDevice, EnrolmentToken, LoginRequest,
    LoginResponse, PairOpened, PullResponse,
};
use crate::sha256_of;
use crate::state::StateView;
use vstd::prelude::*;

verus! {

/// A pull is refused where the account pulled too often, or has four of them
/// going on, and else never; it counts, and goes on until it is done.
pub proof fn when_a_pull_is_refused(
    before: StateView,
    after: StateView,
    account: Account,
    device: Uuid,
    query: PullQuery,
    now: u64,
    tick: u64,
    outcome: Result<(PullResponse, Going)>,
)
    requires
        pull_done(before, after, account, device, query, now, tick, outcome),
    ensures
        ({
            let who = account_key(account.id);
            let often = member_refused(before.limits.hits, who, tick, limits::pull());
            let going = going_count(before.limits, (account.id, "pulls"@));
            &&& outcome is Err <==> often || going >= 4
            &&& outcome is Err ==> refused(outcome) == Some(Refusal::RateLimited)
            &&& after.limits.hits == member_tried(before.limits.hits, who, tick, limits::pull())
            &&& outcome is Err ==> after.limits.going == before.limits.going
            &&& outcome is Ok ==> outcome->Ok_0.1.key() == (account.id, "pulls"@)
            &&& outcome is Ok ==> going_count(after.limits, (account.id, "pulls"@)) == going + 1
            &&& after.config == before.config
            &&& after.events == before.events
        }),
{
}

/// A token is refused to an account that asked for too many, or that is not
/// there, and else never; asking counts.
pub proof fn when_a_token_is_refused(
    before: StateView,
    after: StateView,
    account: Uuid,
    device: Uuid,
    token: Seq<char>,
    now: u64,
    tick: u64,
    outcome: Result<EnrolmentToken>,
)
    requires
        invite_done(before, after, account, device, token, now, tick, outcome),
    ensures
        ({
            let often = member_refused(
                before.limits.hits,
                account_key(account),
                tick,
                limits::joins(),
            );
            &&& outcome is Ok <==> !often && before.db.has_account(account) && !has_enrolment(
                before.db,
                token_hash(token),
            )
            &&& often ==> refused(outcome) == Some(Refusal::RateLimited)
            &&& outcome is Err && !often ==> refused(outcome)->Some_0 is Database
            &&& outcome is Err ==> after.db == before.db
            &&& after.limits.hits == member_tried(
                before.limits.hits,
                account_key(account),
                tick,
                limits::joins(),
            )
            &&& after.limits.going == before.limits.going
            &&& after.sessions == before.sessions
            &&& after.challenges == before.challenges
            &&& after.pairings == before.pairings
        }),
{
}

/// A pairing session is refused to an account that asked for too many, and
/// asking counts.
pub proof fn when_a_pairing_is_refused(
    before: StateView,
    after: StateView,
    account: Uuid,
    device: Uuid,
    now: u64,
    tick: u64,
    outcome: Result<PairOpened>,
)
    requires
        open_done(before, after, account, device, now, tick, outcome),
    ensures
        ({
            let often = member_refused(
                before.limits.hits,
                account_key(account),
                tick,
                limits::joins(),
            );
            &&& often ==> refused(outcome) == Some(Refusal::RateLimited) && after.pairings
                == before.pairings
            &&& after.limits.hits == member_tried(
                before.limits.hits,
                account_key(account),
                tick,
                limits::joins(),
            )
            &&& after.limits.going == before.limits.going
            &&& after.challenges == before.challenges
            &&& after.config == before.config
        }),
{
}

/// A change of the password that is right in form is refused as the proof of
/// the old one is, and counts as that does.
pub proof fn when_a_new_password_is_refused(
    before: StateView,
    after: StateView,
    device: Uuid,
    account: Account,
    request: ChangePassword,
    tick: u64,
    outcome: Result<()>,
)
    requires
        change_done(before, after, device, account, request, tick, outcome),
    ensures
        ({
            let who = device_key(device);
            let hits = before.limits.hits;
            let often = member_refused(hits, who, tick, limits::proofs());
            let counted = member_tried(hits, who, tick, limits::proofs());
            let fault = change_fault(before, account, request);
            let key = key_bytes(request.current_auth_key@)->Some_0;
            let right = before.db.has_account(account.id) && before.db.account(
                account.id,
            ).auth_verifier == sha256_of(key);
            &&& fault is Some ==> refused(outcome) == fault && after == before
            &&& fault is None && often ==> refused(outcome) == Some(Refusal::RateLimited)
            &&& fault is None && !often && !right ==> refused(outcome) == Some(
                Refusal::WrongPassword,
            )
            &&& fault is None && !often && right ==> outcome is Ok
            &&& fault is None && outcome is Err ==> after.limits.hits == counted && after.db
                == before.db
            &&& outcome is Ok ==> after.limits.hits.members == taken_back(
                counted.members,
                who,
                "proof"@,
            )
            &&& after.limits.going == before.limits.going
        }),
{
}

/// Shutting another device out is refused as the proof of the password is, and
/// counts as that does; shutting oneself out counts nothing.
pub proof fn when_shutting_out_is_refused(
    before: StateView,
    after: StateView,
    account: Uuid,
    device: Uuid,
    id: Uuid,
    key: Seq<char>,
    now: u64,
    tick: u64,
    outcome: Result<()>,
)
    requires
        revoke_done(before, after, account, device, id, Some(key), now, tick, outcome),
    ensures
        ({
            let who = device_key(device);
            let hits = before.limits.hits;
            let often = member_refused(hits, who, tick, limits::proofs());
            let counted = member_tried(hits, who, tick, limits::proofs());
            let bytes = key_bytes(key);
            let right = before.db.has_account(account) && bytes is Some && before.db.account(
                account,
            ).auth_verifier == sha256_of(bytes->Some_0);
            &&& id == device ==> after.limits == before.limits
            &&& id != device && bytes is None ==> outcome is Err && refused(
                outcome,
            )->Some_0 is Invalid && after == before
            &&& id != device && bytes is Some && often ==> refused(outcome) == Some(
                Refusal::RateLimited,
            ) && after.limits.hits == counted
            &&& id != device && bytes is Some && !often && !right ==> refused(outcome) == Some(
                Refusal::WrongPassword,
            ) && after.limits.hits == counted
            &&& id != device && right && !often ==> after.limits.hits.members == taken_back(
                counted.members,
                who,
                "proof"@,
            )
            &&& after.limits.going == before.limits.going
            &&& after.events == before.events
        }),
{
}

/// What is told to who may not be shut out: that it is the only one, or that
/// there is no such device.
pub proof fn what_is_told_of_who_stays(
    before: StateView,
    after: StateView,
    account: Uuid,
    id: Uuid,
    key: Option<Seq<char>>,
    now: u64,
    tick: u64,
    outcome: Result<()>,
)
    requires
        revoke_done(before, after, account, id, id, key, now, tick, outcome),
    ensures
        ({
            let live = crate::db::devices::live_devices(before.db.devices, account);
            &&& live <= 1 ==> refused(outcome) == Some(
                Refusal::Invalid("this is the only device left; add another one first"@),
            ) && after == before
            &&& live > 1 && !crate::db::devices::revocable(before.db, account, id) ==> refused(
                outcome,
            ) == Some(Refusal::NotFound) && after == before
        }),
{
}

/// Who joins has the try of their address taken back, and who does not has not;
/// a token that was good is used once the password was right.
pub proof fn what_joining_counts(
    before: StateView,
    after: StateView,
    who: Seq<char>,
    request: EnrolDevice,
    fresh: Fresh,
    outcome: Result<Admitted>,
)
    requires
        enrol_done(before, after, who, request, fresh, outcome),
    ensures
        outcome is Ok ==> after.limits.hits.addresses == taken_back(
            before.limits.hits.addresses,
            who,
            "enrol"@,
        ) && after.limits.hits.members == before.limits.hits.members,
        outcome is Err ==> after.limits == before.limits,
        after.limits.going == before.limits.going,
        after.challenges == before.challenges,
        after.pairings == before.pairings,
        ({
            let account = joins(before.db, request.enrolment@, fresh.now);
            let key = key_bytes(request.auth_key@);
            key is Some && key_bytes(request.device.public_key@) is Some && account is Some
                && before.db.has_account(account->Some_0) && before.db.account(
                account->Some_0,
            ).auth_verifier == sha256_of(key->Some_0) && before.db.has_device(fresh.device)
                ==> refused(outcome) == Some(
                Refusal::Database("UNIQUE constraint failed: devices.id"@),
            ) && after.db == spent_db(before.db, request.enrolment@, fresh.now)
        }),
{
}

/// Opening an account counts nothing that was not counted before it was read.
pub proof fn what_opening_an_account_counts(
    before: StateView,
    after: StateView,
    request: CreateAccount,
    account: Uuid,
    fresh: Fresh,
    outcome: Result<Admitted>,
)
    requires
        create_done(before, after, request, account, fresh, outcome),
    ensures
        after.limits == before.limits,
        after.challenges == before.challenges,
        after.pairings == before.pairings,
        after.events == before.events,
        after.config == before.config,
        outcome is Err && !before.db.has_account(account) && !before.db.has_device(fresh.device)
            ==> after == before,
        before.db.has_account(account) ==> outcome is Err && after.db.accounts
            == before.db.accounts,
{
}

/// Signing in counts the address, and the device at it unless it works; a
/// challenge counts both.
pub proof fn what_signing_in_counts(
    before: StateView,
    after: StateView,
    who: Seq<char>,
    request: LoginRequest,
    offered: Seq<Offered>,
    token: Seq<char>,
    bytes: Seq<u8>,
    now: u64,
    tick: u64,
    outcome: Result<LoginResponse>,
)
    requires
        login_done(before, after, who, request, offered, token, now, tick, outcome),
    ensures
        ({
            let hits = before.limits.hits;
            let key = sign_in_key(who, request.device_id);
            let first = address_tried(hits, who, tick, limits::sign_in());
            let second = address_tried(first, key, tick, limits::session());
            let often = address_refused(hits, who, tick, limits::sign_in());
            let challenged = after_challenge(before, who, request.device_id, bytes, now, tick);
            &&& often ==> after.limits.hits == first && challenged.limits.hits == first
            &&& !often ==> challenged.limits.hits == second
            &&& !often && outcome is Err ==> after.limits.hits == second
            &&& outcome is Ok ==> after.limits.hits.addresses == taken_back(
                second.addresses,
                key,
                "session"@,
            ) && after.limits.hits.members == second.members
            &&& after.limits.going == before.limits.going
            &&& after.config == before.config
            &&& after.events == before.events
        }),
{
}

/// An account is kept as it is asked for, unless the id is taken.
pub proof fn an_account_is_kept_as_it_is_asked_for(
    before: DbView,
    after: DbView,
    id: Uuid,
    header: VaultHeaderView,
    auth_key: Seq<u8>,
    now: u64,
    created: Result<Account>,
)
    requires
        kept(before, after, id, header, auth_key, now, created),
    ensures
        created is Err <==> before.has_account(id),
        created is Err ==> after == before && refused(created) == Some(
            Refusal::Database("UNIQUE constraint failed: accounts.id"@),
        ),
        created is Ok ==> ({
            let made = after.accounts.last();
            &&& after.accounts.len() == before.accounts.len() + 1
            &&& after.accounts.drop_last() == before.accounts
            &&& made.id == id
            &&& made.created_ms == now
            &&& made.header == header
            &&& made.auth_verifier == sha256_of(auth_key)
            &&& made.seq == 0
            &&& made.record_count == 0
            &&& made.record_bytes == 0
            &&& made.records.len() == 0
            &&& created->Ok_0.id == id
            &&& created->Ok_0.vault_id == header.vault_id
            &&& created->Ok_0.seq == 0
            &&& after.devices == before.devices
            &&& after.invites == before.invites
            &&& after.enrolments == before.enrolments
        }),
{
    if created is Ok {
        assert(after.accounts.drop_last() =~= before.accounts);
    }
}

} // verus!
