//! Connections, streams, addresses and what is answered.

use crate::api::devices::shut_out;
use crate::commands::{day_text, device_state, revoked_from_here};
use crate::connections::{admit_done, Admitted, GateView, TurnedAway, TurnedAwayView};
use crate::db::devices::{revocable, DeviceSummaryView};
use crate::db::invites::{tokens_left, Tokens};
use crate::db::records::{forgotten, Doomed};
use crate::db::{DbView, EnrolmentView};
use crate::error::{refused, ApiError, Refusal, Result};
use crate::health::{complaint, is_loopback, is_unspecified, Answer};
use crate::ids::Uuid;
use crate::state::{
    counted_text, key_text, last_entry, last_of_pieces, stream_closed, stream_opened, streams_of,
    Address, AppState, StateView,
};
use crate::text;
use vstd::prelude::*;

verus! {

/// What is said of the state is said of every part of it.
pub proof fn nothing_is_left_out(state: AppState)
    ensures
        state@.db == state.db@,
        state@.config == state.config@,
        state@.sessions == state.sessions@,
        state@.challenges == state.challenges@,
        state@.limits == state.limits@,
        state@.events == state.events@,
        state@.pairings == state.pairings@,
        state@.db.accounts.len() == state.db.accounts@.len(),
        state@.db.devices.len() == state.db.devices@.len(),
        state@.db.invites.len() == state.db.invites@.len(),
        state@.db.enrolments.len() == state.db.enrolments@.len(),
        forall|i: int|
            0 <= i < state.db.accounts@.len() ==> state@.db.accounts[i] == (
            #[trigger] state.db.accounts@[i])@,
        forall|i: int|
            0 <= i < state.db.devices@.len() ==> state@.db.devices[i] == (
            #[trigger] state.db.devices@[i])@,
        forall|i: int|
            0 <= i < state.db.invites@.len() ==> state@.db.invites[i] == (
            #[trigger] state.db.invites@[i])@,
        forall|i: int|
            0 <= i < state.db.enrolments@.len() ==> state@.db.enrolments[i] == (
            #[trigger] state.db.enrolments@[i])@,
{
}

/// A row is found under its id.
pub proof fn rows_are_found_under_their_ids(db: DbView, i: int, j: int)
    requires
        db.wf(),
        0 <= i < db.accounts.len(),
        0 <= j < db.devices.len(),
    ensures
        db.has_account(db.accounts[i].id),
        db.account(db.accounts[i].id) == db.accounts[i],
        db.has_device(db.devices[j].id),
        db.device(db.devices[j].id) == db.devices[j],
{
    assert(db.accounts[db.account_at(db.accounts[i].id)].id == db.accounts[i].id);
    assert(db.devices[db.device_at(db.devices[j].id)].id == db.devices[j].id);
}

/// A database begins with nothing in it.
pub proof fn a_database_begins_empty()
    ensures
        DbView::empty().accounts.len() == 0,
        DbView::empty().devices.len() == 0,
        DbView::empty().invites.len() == 0,
        DbView::empty().enrolments.len() == 0,
        DbView::empty().wf(),
{
}

/// A stream that is opened counts for its device until it is closed, and for no
/// other.
pub proof fn streams_are_counted(streams: Map<u128, usize>, device: Uuid, other: Uuid)
    requires
        streams_of(streams, device) < 4,
    ensures
        streams_of(stream_opened(streams, device), device) == streams_of(streams, device) + 1,
        streams_of(stream_closed(streams, device), device) == if streams_of(streams, device) > 0 {
            streams_of(streams, device) - 1
        } else {
            0
        },
        other.value != device.value ==> streams_of(stream_opened(streams, device), other)
            == streams_of(streams, other),
        other.value != device.value ==> streams_of(stream_closed(streams, device), other)
            == streams_of(streams, other),
        !streams.contains_key(device.value) ==> streams_of(streams, device) == 0,
        streams.contains_key(device.value) ==> streams_of(streams, device)
            == streams[device.value],
        streams_of(streams, device) <= 1 ==> !stream_closed(streams, device).contains_key(
            device.value,
        ),
{
}

/// An address of four numbers is counted under them, and one of eight that
/// stands for four is counted like those.
pub proof fn an_address_of_four_numbers(octets: [u8; 4], segments: [u16; 8])
    ensures
        counted_text(Address::V4 { octets }) == text::decimal_text(octets@[0] as nat) + seq!['.']
            + text::decimal_text(octets@[1] as nat) + seq!['.'] + text::decimal_text(
            octets@[2] as nat,
        ) + seq!['.'] + text::decimal_text(octets@[3] as nat),
        segments@[0] == 0 && segments@[1] == 0 && segments@[2] == 0 && segments@[3] == 0
            && segments@[4] == 0 && segments@[5] == 65_535 && segments@[6] == octets@[0] * 256
            + octets@[1] && segments@[7] == octets@[2] * 256 + octets@[3] ==> counted_text(
            Address::V6 { segments },
        ) == counted_text(Address::V4 { octets }),
{
    reveal_strlit(".");
    assert("."@ =~= seq!['.']);
}

/// Any other address of eight is counted under its first four.
pub proof fn an_address_of_eight_numbers(segments: [u16; 8])
    requires
        segments@[0] != 0 || segments@[1] != 0 || segments@[2] != 0 || segments@[3] != 0
            || segments@[4] != 0 || segments@[5] != 65_535,
    ensures
        counted_text(Address::V6 { segments }) == text::hexadecimal_text(segments@[0] as nat)
            + seq![':'] + text::hexadecimal_text(segments@[1] as nat) + seq![':']
            + text::hexadecimal_text(segments@[2] as nat) + seq![':'] + text::hexadecimal_text(
            segments@[3] as nat,
        ) + seq![':', ':', '/', '6', '4'],
{
    reveal_strlit(":");
    reveal_strlit("::/64");
    assert(":"@ =~= seq![':']);
    assert("::/64"@ =~= seq![':', ':', '/', '6', '4']);
}

/// The address that is counted is the one a trusted proxy forwards, and else
/// that of who connects.
pub proof fn whose_address_is_counted(forwarded: Address, peer: Address)
    ensures
        key_text(true, Some(forwarded), Some(peer)) == counted_text(forwarded),
        key_text(true, Some(forwarded), None) == counted_text(forwarded),
        key_text(false, Some(forwarded), Some(peer)) == counted_text(peer),
        key_text(true, None, Some(peer)) == counted_text(peer),
        key_text(false, None, Some(peer)) == counted_text(peer),
        key_text(true, None, None) == "unknown"@,
        key_text(false, Some(forwarded), None) == "unknown"@,
        key_text(false, None, None) == "unknown"@,
{
}

/// What a proxy forwards is the last entry there is, of the last line that has
/// one: whatever came before it is what somebody says of themselves.
pub proof fn the_last_entry_is_the_proxys(
    lines: Seq<Seq<char>>,
    line: Seq<char>,
    pieces: Seq<Seq<char>>,
    piece: Seq<char>,
)
    ensures
        last_entry(Seq::empty()) is None,
        last_of_pieces(Seq::empty()) is None,
        text::trimmed(piece).len() > 0 ==> last_of_pieces(pieces.push(piece)) == Some(
            text::trimmed(piece),
        ),
        text::trimmed(piece).len() == 0 ==> last_of_pieces(pieces.push(piece)) == last_of_pieces(
            pieces,
        ),
        last_of_pieces(text::split(line, ',')) is Some ==> last_entry(lines.push(line))
            == last_of_pieces(text::split(line, ',')),
        last_of_pieces(text::split(line, ',')) is None ==> last_entry(lines.push(line))
            == last_entry(lines),
{
    assert(pieces.push(piece).drop_last() =~= pieces);
    assert(lines.push(line).drop_last() =~= lines);
}

/// A connection is let in while there is room for it: fewer than may be open at
/// all, and of its address fewer than one may have, where that is limited.
pub proof fn a_connection_is_let_in_while_there_is_room(
    before: GateView,
    after: GateView,
    address: Seq<char>,
    now: u64,
    admitted: std::result::Result<Admitted, Option<TurnedAway>>,
    other: Seq<char>,
)
    requires
        admit_done(before, after, address, now, admitted),
    ensures
        ({
            let open = if before.by_address.contains_key(address) {
                before.by_address[address]
            } else {
                0
            };
            &&& admitted is Ok <==> before.all < before.limits.max && (before.limits.per_address
                == 0 || open < before.limits.per_address)
            &&& admitted is Ok ==> {
                &&& admitted->Ok_0.from() == address
                &&& after.all == before.all + 1
                &&& after.by_address.contains_key(address)
                &&& after.by_address[address] == open + 1
                &&& after.said == before.said
            }
            &&& admitted is Err ==> after.all == before.all && after.by_address
                == before.by_address
            &&& other != address ==> after.from_there(other) == before.from_there(other)
            &&& after.limits == before.limits
            &&& admitted is Err && before.said is None ==> admitted->Err_0 is Some
            &&& admitted is Err && before.said is Some ==> (admitted->Err_0 is Some <==> now
                >= before.said->Some_0 && now - before.said->Some_0 >= 60_000_000_000)
            &&& admitted is Err && admitted->Err_0 is Some ==> after.said == Some(now)
            &&& admitted is Err && admitted->Err_0 is None ==> after.said == before.said
            &&& admitted is Err && admitted->Err_0 is Some && before.all >= before.limits.max
                ==> admitted->Err_0->Some_0@ == (TurnedAwayView::Full { open: before.all as usize })
            &&& admitted is Err && admitted->Err_0 is Some && before.all < before.limits.max
                ==> admitted->Err_0->Some_0@ == (TurnedAwayView::Address {
                address,
                open: open as usize,
            })
        }),
{
}

/// A connection that is closed is one less, of all and of its address.
pub proof fn a_closed_connection_is_one_less(gate: GateView, address: Seq<char>, other: Seq<char>)
    ensures
        gate.all > 0 ==> gate.releasing(address).all == gate.all - 1,
        gate.from_there(address) > 0 ==> gate.releasing(address).from_there(address)
            == gate.from_there(address) - 1,
        other != address ==> gate.releasing(address).from_there(other) == gate.from_there(other),
        gate.releasing(address).limits == gate.limits,
        gate.releasing(address).said == gate.said,
        gate.from_there(address) <= 1 ==> !gate.releasing(address).by_address.contains_key(address),
        gate.by_address.contains_key(address) ==> gate.from_there(address)
            == gate.by_address[address],
        !gate.by_address.contains_key(address) ==> gate.from_there(address) == 0,
{
}

/// What each refusal is answered with: the status of it and its name.
pub proof fn what_refusals_are_answered_with(what: Seq<char>, found: u32, known: u32)
    ensures
        Refusal::Invalid(what).status() == 400 && Refusal::Invalid(what).name() == "invalid"@,
        Refusal::Unauthorized.status() == 401 && Refusal::Unauthorized.name() == "unauthorized"@,
        Refusal::RegistrationClosed.status() == 403 && Refusal::RegistrationClosed.name()
            == "registration-closed"@,
        Refusal::WrongPassword.status() == 403 && Refusal::WrongPassword.name()
            == "wrong-password"@,
        Refusal::ServerFull.status() == 403 && Refusal::ServerFull.name() == "server-full"@,
        Refusal::NotFound.status() == 404 && Refusal::NotFound.name() == "not-found"@,
        Refusal::TooLarge(what).status() == 413 && Refusal::TooLarge(what).name() == "too-large"@,
        Refusal::RateLimited.status() == 429 && Refusal::RateLimited.name() == "rate-limited"@,
        (Refusal::Schema { found, known }).status() == 400 && (Refusal::Schema {
            found,
            known,
        }).name() == "schema"@,
        Refusal::Database(what).status() == 500 && Refusal::Database(what).name() == "internal"@,
        Refusal::Internal(what).status() == 500 && Refusal::Internal(what).name() == "internal"@,
{
}

/// What each refusal says, and what is told of it: of what went wrong inside
/// nothing.
pub proof fn what_refusals_say(what: Seq<char>, found: u32, known: u32)
    ensures
        Refusal::Invalid(what).told() == what,
        Refusal::Unauthorized.told() == "not allowed"@,
        Refusal::RegistrationClosed.told() == "registration is closed on this server"@,
        Refusal::WrongPassword.told() == "that is not the master password"@,
        Refusal::ServerFull.told() == "this server has as many accounts as it takes"@,
        Refusal::NotFound.told() == "no such thing"@,
        Refusal::TooLarge(what).told() == "too large: "@ + what,
        Refusal::RateLimited.told() == "too many requests, try again later"@,
        (Refusal::Schema { found, known }).told() == "this server speaks schema "@
            + text::decimal_text(known as nat) + ", not "@ + text::decimal_text(found as nat),
        Refusal::Database(what).told() == "something went wrong"@,
        Refusal::Internal(what).told() == "something went wrong"@,
        Refusal::Database(what).sentence() == "database error: "@ + what,
        Refusal::Internal(what).sentence() == what,
        Refusal::Invalid(what).sentence() == what,
        Refusal::NotFound.sentence() == Refusal::NotFound.told(),
        Refusal::TooLarge(what).sentence() == Refusal::TooLarge(what).told(),
{
}

/// What is refused is refused for what it was refused for.
pub proof fn a_refusal_is_what_it_is(error: ApiError, outcome: Result<()>)
    ensures
        error matches ApiError::Invalid(what) ==> error@ == Refusal::Invalid(what@),
        error is Unauthorized ==> error@ == Refusal::Unauthorized,
        error is RegistrationClosed ==> error@ == Refusal::RegistrationClosed,
        error is WrongPassword ==> error@ == Refusal::WrongPassword,
        error is ServerFull ==> error@ == Refusal::ServerFull,
        error is NotFound ==> error@ == Refusal::NotFound,
        error matches ApiError::TooLarge(what) ==> error@ == Refusal::TooLarge(what@),
        error is RateLimited ==> error@ == Refusal::RateLimited,
        error matches ApiError::Schema { found, known } ==> error@ == (Refusal::Schema {
            found,
            known,
        }),
        error matches ApiError::Database(what) ==> error@ == Refusal::Database(what@),
        error matches ApiError::Internal(what) ==> error@ == Refusal::Internal(what@),
        outcome is Ok <==> refused(outcome) is None,
        outcome is Err ==> refused(outcome) == Some(outcome->Err_0@),
{
}

/// A server is well that says so, and of every other answer it is said what it
/// was.
pub proof fn when_a_server_is_well(url: Seq<char>, answer: Answer)
    ensures
        complaint(url, answer) is None <==> answer == (Answer::Health { ok: true }),
        answer matches Answer::Nobody(error) ==> complaint(url, answer) == Some(
            url + ": "@ + error@,
        ),
        answer matches Answer::Status(status) ==> complaint(url, answer) == Some(
            url + " answered "@ + status@,
        ),
        answer matches Answer::Other(error) ==> complaint(url, answer) == Some(
            url + " answered something else: "@ + error@,
        ),
        answer == (Answer::Health { ok: false }) ==> complaint(url, answer) == Some(
            url + " says it is not well"@,
        ),
{
}

/// An address is none in particular that is all noughts.
pub proof fn an_address_that_is_none(octets: [u8; 4], segments: [u16; 8], like: Address)
    ensures
        is_unspecified(Address::V4 { octets }) <==> octets@ == seq![0u8, 0, 0, 0],
        is_unspecified(Address::V6 { segments }) <==> segments@ == seq![
            0u16,
            0,
            0,
            0,
            0,
            0,
            0,
            0,
        ],
        is_loopback(Address::V4 { octets }, like) <==> like is V4 && octets@ == seq![
            127u8,
            0,
            0,
            1,
        ],
        is_loopback(Address::V6 { segments }, like) <==> like is V6 && segments@ == seq![
            0u16,
            0,
            0,
            0,
            0,
            0,
            0,
            1,
        ],
{
    let (four, eight) = (Address::V4 { octets }, Address::V6 { segments });
    if is_unspecified(four) {
        match four {
            Address::V4 { octets: o } => {
                assert(o@[0] == 0 && o@[1] == 0 && o@[2] == 0 && o@[3] == 0);
            },
            _ => {},
        }
        assert(octets@ =~= seq![0u8, 0, 0, 0]);
    }
    if is_unspecified(eight) {
        match eight {
            Address::V6 { segments: s } => {
                assert(s@[0] == 0 && s@[1] == 0 && s@[2] == 0 && s@[3] == 0);
                assert(s@[4] == 0 && s@[5] == 0 && s@[6] == 0 && s@[7] == 0);
            },
            _ => {},
        }
        assert(segments@ =~= seq![0u16, 0, 0, 0, 0, 0, 0, 0]);
    }
}

/// What is shown of a device: when it was shut out, else when it was last seen.
pub proof fn what_is_shown_of_a_device(device: DeviceSummaryView, when: u64)
    ensures
        device.revoked_ms is Some ==> device_state(device) == "revoked "@ + day_text(
            device.revoked_ms->Some_0,
        ),
        device.revoked_ms is None && device.last_seen_ms is Some ==> device_state(device)
            == "last seen "@ + day_text(device.last_seen_ms->Some_0),
        device.revoked_ms is None && device.last_seen_ms is None ==> device_state(device)
            == "never here"@,
        day_text(when) == crate::calendar::date_text(
            crate::calendar::day_of(when as int / 86_400_000),
        ),
{
}

/// A device that is shut out from the server's own command line is as shut out,
/// in what is kept, as one that another device shuts out.
pub proof fn shut_out_from_here_is_shut_out(state: StateView, id: Uuid, now: u64)
    requires
        revocable(state.db, state.db.device(id).account_id, id),
    ensures
        revoked_from_here(state.db, id, now) == shut_out(
            state,
            state.db.device(id).account_id,
            id,
            now,
        ).db,
{
}

/// A device that was shut out before is not shut out again from here, but what
/// it left behind goes.
pub proof fn shut_out_again_from_here(db: DbView, id: Uuid, now: u64)
    requires
        db.has_device(id),
        db.device(id).revoked_ms is Some,
    ensures
        revoked_from_here(db, id, now).devices == db.devices,
        revoked_from_here(db, id, now).invites == db.invites,
        revoked_from_here(db, id, now).enrolments == tokens_left(
            db.enrolments,
            Tokens::UnusedOf(id).takes(),
        ),
        revoked_from_here(db, id, now).accounts == forgotten(
            db,
            db.device(id).account_id,
            Doomed::ManifestsOf { device: id },
        ).accounts,
{
    let account = db.device(id).account_id;
    let dropped = DbView {
        enrolments: tokens_left(db.enrolments, Tokens::UnusedOf(id).takes()),
        ..db
    };
    assert(dropped.account_at(account) == db.account_at(account));
}

/// Tokens that go are those a device made that nobody used, or those that are
/// over.
pub proof fn which_tokens_go(
    enrolments: Seq<EnrolmentView>,
    row: EnrolmentView,
    device: Uuid,
    cutoff: u64,
    gone: spec_fn(EnrolmentView) -> bool,
)
    ensures
        tokens_left(Seq::empty(), gone) == Seq::<EnrolmentView>::empty(),
        gone(row) ==> tokens_left(enrolments.push(row), gone) == tokens_left(enrolments, gone),
        !gone(row) ==> tokens_left(enrolments.push(row), gone) == tokens_left(
            enrolments,
            gone,
        ).push(row),
        Tokens::UnusedOf(device).takes()(row) <==> row.device_id == Some(device)
            && row.used_ms is None,
        Tokens::OverBefore(cutoff).takes()(row) <==> row.expires_ms < cutoff,
{
    assert(enrolments.push(row).drop_last() =~= enrolments);
}

/// Who is turned away is told of as they are.
pub proof fn who_is_turned_away_is_told_of(note: TurnedAway)
    ensures
        note matches TurnedAway::Full { open } ==> note@ == (TurnedAwayView::Full { open }),
        note matches TurnedAway::Address { address, open } ==> note@ == (TurnedAwayView::Address {
            address: address@,
            open,
        }),
{
}

} // verus!
