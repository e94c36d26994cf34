//! What holds of the endpoints as a whole.

use super::accounts::{
    after_create, change_done, create_refusal, create_turned_away, vault_fault, Fresh,
};
use super::devices::shut_out;
use super::session::{
    answered, login_done, may_sign_in, sign_in_counted, sign_in_key, sign_in_refused, Offered,
};
use super::{auth_key_refusal, key_bytes};
use crate::auth::{session_of, tokens_differ};
use crate::auth_laws::a_device_takes_its_tokens_along;
use crate::config::Registration;
use crate::db::accounts::Account;
use crate::db::devices::revocable;
use crate::db::invites::{code_hash, has_invite, invite_at, redeemed, tokens_left, Tokens};
use crate::db::records::{mailbox, select, Doomed};
use crate::db::{EnrolmentView, RecordView};
use crate::error::{refused, Refusal, Result};
use crate::ids::{uuid_text, uuid_text_is_unique, Uuid};
use crate::limit_laws::{
    buckets_are_counted_apart, orderly, signing_in_is_nobody_elses_to_use_up,
};
use crate::limits::{self, address_refused, kept_clean, table_of};
use crate::pairing_laws::a_device_takes_its_sessions_along;
use crate::proto::{ChangePassword, CreateAccount, EntityKind, LoginRequest, LoginResponse};
use crate::state::StateView;
use vstd::prelude::*;

verus! {

/// A closed server takes no new accounts: every attempt gets the same no, none
/// is counted, and whatever is asked for in spite of it changes nothing.
pub proof fn a_closed_server_takes_no_new_accounts(
    state: StateView,
    who: Seq<char>,
    tick: u64,
    request: CreateAccount,
    account: Uuid,
    fresh: Fresh,
)
    requires
        state.config.registration == Registration::Closed,
    ensures
        create_turned_away(state, who, tick) == Some(Refusal::RegistrationClosed),
        create_refusal(state, request, account, fresh) is Some,
        after_create(state, request, account, fresh) == state,
{
}

/// A full server takes no more accounts, and does not spend the invite on
/// saying so.
pub proof fn a_full_server_keeps_the_invite(
    state: StateView,
    request: CreateAccount,
    account: Uuid,
    fresh: Fresh,
)
    requires
        state.db.accounts.len() >= state.config.max_accounts,
    ensures
        after_create(state, request, account, fresh) == state,
        create_refusal(state, request, account, fresh) is Some,
        vault_fault(state, request.vault@) is None && auth_key_refusal(request.auth_key@) is None
            && key_bytes(request.device.public_key@) is Some ==> create_refusal(
            state,
            request,
            account,
            fresh,
        ) == Some(Refusal::ServerFull),
{
}

/// An invite lets exactly one account in: once it has, the same code is refused
/// whoever brings it, whenever.
pub proof fn an_invite_lets_exactly_one_account_in(
    state: StateView,
    request: CreateAccount,
    account: Uuid,
    fresh: Fresh,
    again: CreateAccount,
    other: Uuid,
    later: Fresh,
)
    requires
        state.db.wf(),
        state.config.registration == Registration::Invite,
        create_refusal(state, request, account, fresh) is None,
        code_hash(again.invite@) == code_hash(request.invite@),
    ensures
        create_refusal(
            after_create(state, request, account, fresh),
            again,
            other,
            later,
        ) is Some,
{
    let hash = code_hash(request.invite@);
    let after = after_create(state, request, account, fresh).db;
    let at = invite_at(state.db, hash);
    assert(after.invites == redeemed(state.db, request.invite@, fresh.now).invites);
    if has_invite(after, hash) {
        let found = invite_at(after, hash);
        assert(after.invites[found].code_hash == hash);
        assert(state.db.invites[found].code_hash == hash);
        assert(state.db.invites[at].code_hash == hash);
        assert(found == at);
    }
}

/// Nothing tells a device that is not there from a wrong signature, a challenge
/// that was answered or one that was never asked for: signing in that leads
/// nowhere is always answered alike, and changes nothing but the count.
pub proof fn every_wrong_answer_is_answered_alike(
    before: StateView,
    after: StateView,
    who: Seq<char>,
    request: LoginRequest,
    offered: Seq<Offered>,
    token: Seq<char>,
    now: u64,
    tick: u64,
    outcome: Result<LoginResponse>,
)
    requires
        login_done(before, after, who, request, offered, token, now, tick, outcome),
        !sign_in_refused(before, who, request.device_id, tick),
        answered(before, request, offered, now) is None,
    ensures
        refused(outcome) == Some(Refusal::Unauthorized),
        after.db == before.db,
        after.sessions == before.sessions,
        after.challenges == before.challenges,
{
}

/// Signing in is counted per device at an address: no two devices share a
/// count there.
pub proof fn devices_at_one_address_are_counted_apart(who: Seq<char>, one: Uuid, other: Uuid)
    requires
        sign_in_key(who, one) == sign_in_key(who, other),
    ensures
        one == other,
{
    let skip = (who + " "@).len() as int;
    assert(sign_in_key(who, one).skip(skip) =~= uuid_text(one));
    assert(sign_in_key(who, other).skip(skip) =~= uuid_text(other));
    uuid_text_is_unique(one, other);
}

/// Asking for made-up devices takes no tries from the real ones: signing in as
/// one device leaves every other device at the same address its own tries,
/// however many are made up.
pub proof fn made_up_devices_take_no_tries_from_a_real_one(
    state: StateView,
    who: Seq<char>,
    made_up: Uuid,
    device: Uuid,
    tick: u64,
)
    requires
        made_up != device,
        orderly(
            table_of(kept_clean(state.limits.hits, tick).addresses, limits::session().name@),
            sign_in_key(who, device),
            limits::session(),
        ),
    ensures
        address_refused(
            sign_in_counted(state, who, made_up, tick).limits.hits,
            sign_in_key(who, device),
            tick,
            limits::session(),
        ) == address_refused(
            state.limits.hits,
            sign_in_key(who, device),
            tick,
            limits::session(),
        ),
{
    let key = sign_in_key(who, device);
    let hits = state.limits.hits;
    let counted = state.counting_address(who, limits::sign_in(), tick).limits.hits;
    if sign_in_key(who, made_up) == key {
        devices_at_one_address_are_counted_apart(who, made_up, device);
    }
    reveal_strlit("sign-in");
    reveal_strlit("session");
    assert(limits::sign_in().name@.len() != limits::session().name@.len() || limits::sign_in().name@[
    1] != limits::session().name@[1]);
    buckets_are_counted_apart(hits, who, key, tick, limits::sign_in(), limits::session());
    assert(kept_clean(counted, tick) == counted);
    signing_in_is_nobody_elses_to_use_up(
        counted,
        sign_in_key(who, made_up),
        key,
        tick,
        limits::session(),
    );
}

/// A new master password touches no record, no number and no device.
pub proof fn a_new_password_touches_no_record(
    before: StateView,
    after: StateView,
    device: Uuid,
    account: Account,
    request: ChangePassword,
    tick: u64,
    outcome: Result<()>,
    any: Uuid,
)
    requires
        before.db.wf(),
        change_done(before, after, device, account, request, tick, outcome),
        before.db.has_account(account.id),
    ensures
        after.db.devices == before.db.devices,
        after.db.has_account(any) == before.db.has_account(any),
        before.db.has_account(any) ==> after.db.account(any).records == before.db.account(
            any,
        ).records && after.db.account(any).seq == before.db.account(any).seq,
        mailbox(after.db, any) == mailbox(before.db, any),
{
    let at = before.db.account_at(account.id);
    assert(before.db.accounts[at].id == account.id);
    if before.db.has_account(any) {
        let there = before.db.account_at(any);
        assert(after.db.accounts[there].id == any);
        let found = after.db.account_at(any);
        assert(before.db.accounts[found].id == any);
    }
    if after.db.has_account(any) {
        let there = after.db.account_at(any);
        assert(before.db.accounts[there].id == any);
    }
}

proof fn lemma_no_token_left(
    enrolments: Seq<EnrolmentView>,
    gone: spec_fn(EnrolmentView) -> bool,
)
    ensures
        forall|i: int|
            0 <= i < tokens_left(enrolments, gone).len() ==> !gone(
                #[trigger] tokens_left(enrolments, gone)[i],
            ),
    decreases enrolments.len(),
{
    if enrolments.len() > 0 {
        lemma_no_token_left(enrolments.drop_last(), gone);
        let rest = tokens_left(enrolments.drop_last(), gone);
        let left = tokens_left(enrolments, gone);
        assert forall|i: int| 0 <= i < left.len() implies !gone(#[trigger] left[i]) by {
            if i < rest.len() {
                assert(left[i] == rest[i]);
            }
        }
    }
}

proof fn lemma_none_left(records: Seq<RecordView>, doomed: Doomed)
    ensures
        forall|i: int|
            0 <= i < select(records, doomed.leaves()).len() ==> !doomed.takes()(
                #[trigger] select(records, doomed.leaves())[i],
            ),
    decreases records.len(),
{
    if records.len() > 0 {
        lemma_none_left(records.drop_last(), doomed);
        let rest = select(records.drop_last(), doomed.leaves());
        let left = select(records, doomed.leaves());
        assert forall|i: int| 0 <= i < left.len() implies !doomed.takes()(#[trigger] left[i]) by {
            if i < rest.len() {
                assert(left[i] == rest[i]);
            }
        }
    }
}

/// A device that is shut out is out at once, with everything it made: no token
/// stands for it, it cannot sign in again, no unused enrolment token of its
/// making is left, no pairing session it opened, and no manifest.
pub proof fn a_revoked_device_is_out_with_all_it_made(
    state: StateView,
    account: Uuid,
    id: Uuid,
    now: u64,
    token: Seq<char>,
    asked: u64,
)
    requires
        state.db.wf(),
        tokens_differ(state.sessions),
        revocable(state.db, account, id),
    ensures
        ({
            let after = shut_out(state, account, id, now);
            &&& session_of(after.sessions, token, asked) matches Some(session) ==> session.device_id
                != id
            &&& !may_sign_in(after.db, id)
            &&& forall|i: int|
                0 <= i < after.db.enrolments.len() ==> !((#[trigger] after.db.enrolments[i])
                    .device_id == Some(id) && after.db.enrolments[i].used_ms is None)
            &&& forall|i: int|
                0 <= i < after.pairings.len() ==> (#[trigger] after.pairings[i]).device != id
            &&& forall|i: int|
                0 <= i < mailbox(after.db, account).len() ==> !((#[trigger] mailbox(
                    after.db,
                    account,
                )[i]).device_id == id && mailbox(after.db, account)[i].kind
                    == EntityKind::Manifest)
        }),
{
    let after = shut_out(state, account, id, now);
    a_device_takes_its_tokens_along(state.sessions, id, token, asked);
    lemma_no_token_left(state.db.enrolments, Tokens::UnusedOf(id).takes());
    let at = state.db.device_at(id);
    assert(after.db.devices[at].id == id);
    assert(state.db.devices[after.db.device_at(id)].id == id);
    assert forall|i: int| 0 <= i < after.pairings.len() implies (
    #[trigger] after.pairings[i]).device != id by {
        a_device_takes_its_sessions_along(state.pairings, id, after.pairings[i]);
        assert(after.pairings.contains(after.pairings[i]));
    }
    let doomed = Doomed::ManifestsOf { device: id };
    if after.db.has_account(account) {
        let place = after.db.account_at(account);
        assert(state.db.accounts[place].id == account);
        lemma_none_left(state.db.account(account).records, doomed);
        assert forall|i: int| 0 <= i < mailbox(after.db, account).len() implies !((
        #[trigger] mailbox(after.db, account)[i]).device_id == id && mailbox(after.db, account)[i]
            .kind == EntityKind::Manifest) by {
            assert(!doomed.takes()(mailbox(after.db, account)[i]));
        }
    }
}

} // verus!
