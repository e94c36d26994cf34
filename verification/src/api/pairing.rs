//! Carrying messages between two devices that are pairing.
//!
//! The server takes no part. It does not know the code, cannot derive the key
//! the two sides agree on, and never sees what they send through it, which is
//! the whole point: what travels here is the account key, and the account key
//! is what makes a copy of this server's database worthless.

use crate::auth::{blobs_view, Authenticated};
use crate::b64;
use crate::error::{refused, ApiError, Refusal, Result};
use crate::ids::Uuid;
use crate::limits::{self, account_key, address_refused, member_refused};
use crate::pairing::{
    asked_for, fresh_session, has_session, heard_after, is_code, is_live, may_open, may_speak,
    message_fault, running, session, session_at, sessions_where, SessionView, Side,
    MAX_MESSAGE_BYTES, TTL_MS,
};
use crate::proto::{PairMessage, PairMessages, PairOpened};
use crate::state::{AppState, StateView};
use crate::{later, now_ms, text};
use vstd::prelude::*;

verus! {

/// What asking for a session does and is answered.
pub open spec fn open_done(
    before: StateView,
    after: StateView,
    account: Uuid,
    device: Uuid,
    now: u64,
    tick: u64,
    outcome: Result<PairOpened>,
) -> bool {
    let counted = before.counting_member(account_key(account), limits::joins(), tick);
    let kept = sessions_where(before.pairings, running(now));
    if member_refused(before.limits.hits, account_key(account), tick, limits::joins()) {
        refused(outcome) == Some(Refusal::RateLimited) && after == counted
    } else {
        match outcome {
            Ok(opened) => {
                &&& may_open(kept, account)
                &&& !has_session(kept, opened.id@)
                &&& is_code(opened.id@)
                &&& opened.expires_ms == later(now, TTL_MS)
                &&& after == (StateView {
                    pairings: kept.push(fresh_session(opened.id@, account, device, now)),
                    ..counted
                })
            },
            Err(error) => {
                &&& !may_open(kept, account)
                &&& error@ == Refusal::RateLimited
                &&& after == (StateView { pairings: kept, ..counted })
            },
        }
    }
}

/// A device that is already in opens the session.
pub fn open(state: &mut AppState, auth: &Authenticated) -> (outcome: Result<PairOpened>)
    requires
        old(state).wf(),
    ensures
        final(state).wf(),
        exists|now: u64, tick: u64| #[trigger]
            open_done(
                old(state)@,
                final(state)@,
                auth.account.id,
                auth.device.id,
                now,
                tick,
                outcome,
            ),
{
    let now: u64 = now_ms();
    let tick: u64 = state.limits.now();
    match state.limits.check_account_at(auth.account.id, &limits::joins(), tick) {
        Ok(()) => {},
        Err(error) => {
            assert(open_done(
                old(state)@,
                state@,
                auth.account.id,
                auth.device.id,
                now,
                tick,
                Err(error),
            ));
            return Err(error);
        },
    }
    let opened: Result<String> = state.pairings.open_now(auth.account.id, auth.device.id, now);
    let outcome: Result<PairOpened> = match opened {
        Ok(id) => Ok(PairOpened { id, expires_ms: now.saturating_add(TTL_MS) }),
        Err(error) => Err(error),
    };
    assert(open_done(
        old(state)@,
        state@,
        auth.account.id,
        auth.device.id,
        now,
        tick,
        outcome,
    ));
    outcome
}

/// Whether somebody may speak to the relay at all, before the request is read.
pub fn admit_pair_at(state: &mut AppState, who: &str, tick: u64) -> (admitted: Result<()>)
    requires
        old(state).wf(),
    ensures
        final(state).wf(),
        refused(admitted) == if address_refused(
            old(state)@.limits.hits,
            who@,
            tick,
            limits::pair(),
        ) {
            Some(Refusal::RateLimited)
        } else {
            None
        },
        final(state)@ == old(state)@.counting_address(who@, limits::pair(), tick),
{
    state.limits.check_at(who, &limits::pair(), tick)
}

/// Whether somebody may speak to the relay at all, before the request is read.
pub fn admit_pair(state: &mut AppState, who: &str) -> (admitted: Result<()>)
    requires
        old(state).wf(),
    ensures
        final(state).wf(),
        exists|tick: u64|
            refused(admitted) == (if #[trigger] address_refused(
                old(state)@.limits.hits,
                who@,
                tick,
                limits::pair(),
            ) {
                Some(Refusal::RateLimited)
            } else {
                None
            }) && final(state)@ == old(state)@.counting_address(who@, limits::pair(), tick),
{
    let tick: u64 = state.limits.now();
    admit_pair_at(state, who, tick)
}

/// Who speaks for a side of a session: the device they are signed in as, and
/// the secret they hold side b with.
#[derive(Debug)]
pub struct Speaker {
    pub device: Option<Uuid>,
    pub claim: Option<String>,
}

/// Why somebody may not speak for a side, if they may not.
pub open spec fn speak_refusal(
    sessions: Seq<SessionView>,
    id: Seq<char>,
    side: Side,
    speaker: Speaker,
    now: u64,
) -> Option<Refusal> {
    if !is_live(sessions, id, now) {
        Some(Refusal::NotFound)
    } else if !may_speak(
        session(sessions, id),
        side,
        speaker.device,
        text::string_view(speaker.claim),
    ) {
        Some(Refusal::Unauthorized)
    } else {
        None
    }
}

/// The sessions after somebody spoke for a side: whoever speaks for side b
/// holds it from then on.
pub open spec fn spoken_for(
    sessions: Seq<SessionView>,
    id: Seq<char>,
    side: Side,
    speaker: Speaker,
    now: u64,
) -> Seq<SessionView> {
    if speak_refusal(sessions, id, side, speaker, now) is Some {
        asked_for(sessions, id, now)
    } else if side == Side::B {
        sessions.update(
            session_at(sessions, id),
            SessionView {
                claim: text::string_view(speaker.claim),
                ..session(sessions, id)
            },
        )
    } else {
        sessions
    }
}

fn speak(
    state: &mut AppState,
    id: &str,
    side: Side,
    speaker: &Speaker,
    now: u64,
) -> (allowed: Result<()>)
    requires
        old(state).wf(),
    ensures
        final(state).wf(),
        refused(allowed) == speak_refusal(old(state)@.pairings, id@, side, *speaker, now),
        final(state)@ == (StateView {
            pairings: spoken_for(old(state)@.pairings, id@, side, *speaker, now),
            ..old(state)@
        }),
{
    let claim: Option<&str> = match &speaker.claim {
        Some(claim) => Some(claim.as_str()),
        None => None,
    };
    state.pairings.speak_at(id, side, speaker.device, claim, now)
}

/// What is wrong with a message however it is spoken, if anything is.
pub open spec fn message_refusal(request: PairMessage) -> Option<Refusal> {
    if Side::named(request.side@) is None {
        Some(Refusal::Invalid("a side"@))
    } else {
        match b64::decoded(text::trimmed(request.message@)) {
            None => Some(Refusal::Invalid("a message"@)),
            Some(bytes) => message_fault(bytes),
        }
    }
}

/// What leaving a message does and is answered.
pub open spec fn post_done(
    before: StateView,
    after: StateView,
    id: Seq<char>,
    request: PairMessage,
    speaker: Speaker,
    now: u64,
    outcome: Result<()>,
) -> bool {
    let side = Side::named(request.side@)->Some_0;
    let message = b64::decoded(text::trimmed(request.message@))->Some_0;
    if message_refusal(request) is Some {
        refused(outcome) == message_refusal(request) && after == before
    } else {
        let spoken = spoken_for(before.pairings, id, side, speaker, now);
        let refusal = speak_refusal(before.pairings, id, side, speaker, now);
        if refusal is Some {
            refused(outcome) == refusal && after == (StateView { pairings: spoken, ..before })
        } else {
            &&& crate::pairing::post_done(
                spoken,
                after.pairings,
                id,
                side,
                message,
                now,
                refused(outcome),
            )
            &&& after == (StateView { pairings: after.pairings, ..before })
        }
    }
}

/// [`post`] at a given time.
pub fn post_at(
    state: &mut AppState,
    id: &str,
    request: &PairMessage,
    speaker: &Speaker,
    now: u64,
) -> (outcome: Result<()>)
    requires
        old(state).wf(),
    ensures
        final(state).wf(),
        post_done(old(state)@, final(state)@, id@, *request, *speaker, now, outcome),
{
    let side: Side = match Side::parse(request.side.as_str()) {
        Some(side) => side,
        None => {
            return Err(ApiError::Invalid("a side".to_owned()));
        },
    };
    let message: Vec<u8> = match b64::decode(request.message.as_str()) {
        Some(message) => message,
        None => {
            return Err(ApiError::Invalid("a message".to_owned()));
        },
    };
    if message.len() > MAX_MESSAGE_BYTES {
        return Err(ApiError::TooLarge("a pairing message".to_owned()));
    }
    if message.is_empty() {
        return Err(ApiError::Invalid("an empty pairing message".to_owned()));
    }
    speak(state, id, side, speaker, now)?;
    state.pairings.post_at(id, side, message, now)
}

/// Leave a message for the other side.
pub fn post(state: &mut AppState, id: &str, request: &PairMessage, speaker: &Speaker) -> (outcome:
    Result<()>)
    requires
        old(state).wf(),
    ensures
        final(state).wf(),
        exists|now: u64| #[trigger]
            post_done(old(state)@, final(state)@, id@, *request, *speaker, now, outcome),
{
    let now: u64 = now_ms();
    post_at(state, id, request, speaker, now)
}

/// What a device asks of the relay.
#[derive(Debug)]
pub struct ReadQuery {
    pub side: String,
    /// How many of the other side's messages this device has already seen.
    pub after: usize,
    /// Wait for something to arrive rather than answering empty at once.
    pub wait: bool,
}

/// Why somebody may not listen, if they may not; and the state after.
pub open spec fn listen_refusal(
    state: StateView,
    id: Seq<char>,
    query: ReadQuery,
    speaker: Speaker,
    now: u64,
) -> Option<Refusal> {
    match Side::named(query.side@) {
        None => Some(Refusal::Invalid("a side"@)),
        Some(side) => speak_refusal(state.pairings, id, side, speaker, now),
    }
}

/// [`listen`] at a given time.
pub fn listen_at(
    state: &mut AppState,
    id: &str,
    query: &ReadQuery,
    speaker: &Speaker,
    now: u64,
) -> (side: Result<Side>)
    requires
        old(state).wf(),
    ensures
        final(state).wf(),
        refused(side) == listen_refusal(old(state)@, id@, *query, *speaker, now),
        side matches Ok(side) ==> Side::named(query.side@) == Some(side),
        final(state)@ == match Side::named(query.side@) {
            None => old(state)@,
            Some(side) => StateView {
                pairings: spoken_for(old(state)@.pairings, id@, side, *speaker, now),
                ..old(state)@
            },
        },
{
    let side: Side = match Side::parse(query.side.as_str()) {
        Some(side) => side,
        None => {
            return Err(ApiError::Invalid("a side".to_owned()));
        },
    };
    speak(state, id, side, speaker, now)?;
    Ok(side)
}

/// Whether somebody may listen for the other side, and for which one they do.
/// A device that waits begins to listen here, before it looks: a message that
/// arrives in between wakes it.
pub fn listen(state: &mut AppState, id: &str, query: &ReadQuery, speaker: &Speaker) -> (side:
    Result<Side>)
    requires
        old(state).wf(),
    ensures
        final(state).wf(),
        side matches Ok(side) ==> Side::named(query.side@) == Some(side),
        exists|now: u64|
            refused(side) == (#[trigger] listen_refusal(old(state)@, id@, *query, *speaker, now))
                && final(state)@ == match Side::named(query.side@) {
                None => old(state)@,
                Some(side) => StateView {
                    pairings: spoken_for(old(state)@.pairings, id@, side, *speaker, now),
                    ..old(state)@
                },
            },
{
    let now: u64 = now_ms();
    listen_at(state, id, query, speaker, now)
}

/// Messages in base64.
pub open spec fn encoded_all(messages: Seq<Seq<u8>>) -> Seq<Seq<char>> {
    messages.map_values(|message: Seq<u8>| b64::encoded(message))
}

/// What a look at the other side's messages finds.
pub open spec fn read_done(
    before: StateView,
    after: StateView,
    id: Seq<char>,
    side: Side,
    seen: usize,
    now: u64,
    outcome: Result<PairMessages>,
) -> bool {
    let heard = heard_after(session(before.pairings, id), side, seen);
    &&& after == (StateView { pairings: asked_for(before.pairings, id, now), ..before })
    &&& refused(outcome) == if is_live(before.pairings, id, now) {
        None
    } else {
        Some(Refusal::NotFound)
    }
    &&& outcome matches Ok(answer) ==> answer.next == seen + heard.len() && text::strings_view(
        answer.messages@,
    ) == encoded_all(heard)
}

/// [`read`] at a given time.
pub fn read_at(state: &mut AppState, id: &str, side: Side, seen: usize, now: u64) -> (outcome:
    Result<PairMessages>)
    requires
        old(state).wf(),
    ensures
        final(state).wf(),
        read_done(old(state)@, final(state)@, id@, side, seen, now, outcome),
{
    let messages: Vec<Vec<u8>> = state.pairings.read_at(id, side, seen, now)?;
    let ghost heard = blobs_view(messages@);
    let ghost one = session(old(state)@.pairings, id@);
    proof {
        assert(crate::pairing::is_a_handshake(
            old(state)@.pairings[session_at(old(state)@.pairings, id@)],
        ));
        assert forall|i: int| 0 <= i < heard.len() implies (#[trigger] heard[i]).len()
            <= MAX_MESSAGE_BYTES by {
            assert(heard[i] == one.said(side.other_side())[seen + i]);
        }
    }
    let mut encoded: Vec<String> = Vec::new();
    assert(text::strings_view(encoded@) =~= encoded_all(heard).take(0));
    for i in 0..messages.len()
        invariant
            heard == blobs_view(messages@),
            forall|j: int|
                0 <= j < heard.len() ==> (#[trigger] heard[j]).len() <= MAX_MESSAGE_BYTES,
            text::strings_view(encoded@) == encoded_all(heard).take(i as int),
    {
        let ghost earlier = text::strings_view(encoded@);
        assert(heard[i as int] == messages@[i as int]@);
        let message: String = b64::encode(messages[i].as_slice());
        encoded.push(message);
        assert(text::strings_view(encoded@) =~= earlier.push(message@));
        assert(text::strings_view(encoded@) =~= encoded_all(heard).take(i + 1));
    }
    assert(encoded_all(heard).take(messages@.len() as int) =~= encoded_all(heard));
    Ok(PairMessages { next: seen + messages.len(), messages: encoded })
}

/// What the other side has said, for somebody who listens.
pub fn read(state: &mut AppState, id: &str, side: Side, seen: usize) -> (outcome: Result<
    PairMessages,
>)
    requires
        old(state).wf(),
    ensures
        final(state).wf(),
        exists|now: u64| #[trigger]
            read_done(old(state)@, final(state)@, id@, side, seen, now, outcome),
{
    let now: u64 = now_ms();
    read_at(state, id, side, seen, now)
}

/// Whether a device waits before it looks again. With `wait` a look that finds
/// nothing holds the request open for a few seconds rather than answering
/// nothing: a handshake that takes two seconds should not cost two hundred
/// requests.
pub fn waits(found: &PairMessages, query: &ReadQuery) -> (waits: bool)
    ensures
        waits == (query.wait && found.messages@.len() == 0),
{
    query.wait && found.messages.is_empty()
}

/// What closing a session does and is answered. Only the account that opened
/// it may; to any other it is not there.
pub open spec fn close_done(
    before: StateView,
    after: StateView,
    account: Uuid,
    id: Seq<char>,
    now: u64,
    outcome: Result<()>,
) -> bool {
    if is_live(before.pairings, id, now) && session(before.pairings, id).account == account {
        &&& outcome is Ok
        &&& after == (StateView {
            pairings: before.pairings.remove(session_at(before.pairings, id)),
            ..before
        })
    } else {
        &&& refused(outcome) == Some(Refusal::NotFound)
        &&& after == (StateView { pairings: asked_for(before.pairings, id, now), ..before })
    }
}

/// [`close`] at a given time.
pub fn close_at(state: &mut AppState, auth: &Authenticated, id: &str, now: u64) -> (outcome: Result<
    (),
>)
    requires
        old(state).wf(),
    ensures
        final(state).wf(),
        close_done(old(state)@, final(state)@, auth.account.id, id@, now, outcome),
{
    let account: Uuid = state.pairings.account_of_at(id, now)?;
    if account != auth.account.id {
        return Err(ApiError::NotFound);
    }
    let _ = state.pairings.close(id);
    Ok(())
}

/// Finished, or given up. Only the account that opened it may say so.
pub fn close(state: &mut AppState, auth: &Authenticated, id: &str) -> (outcome: Result<()>)
    requires
        old(state).wf(),
    ensures
        final(state).wf(),
        exists|now: u64| #[trigger]
            close_done(old(state)@, final(state)@, auth.account.id, id@, now, outcome),
{
    let now: u64 = now_ms();
    close_at(state, auth, id, now)
}

} // verus!
