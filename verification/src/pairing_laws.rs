//! What holds of the pairing relay as a whole.

use crate::ids::Uuid;
use crate::pairing::{
    has_session, heard_after, ids_differ, is_a_handshake, is_live, may_speak, opened_by_others,
    post_done, session, session_at, sessions_where, SessionView, Side,
};
use vstd::prelude::*;

verus! {

pub(crate) proof fn lemma_changed(sessions: Seq<SessionView>, id: Seq<char>, changed: SessionView, other: Seq<
    char,
>)
    requires
        ids_differ(sessions),
        has_session(sessions, id),
        changed.id == id,
    ensures
        ({
            let after = sessions.update(session_at(sessions, id), changed);
            &&& has_session(after, id)
            &&& session(after, id) == changed
            &&& has_session(after, other) == has_session(sessions, other)
            &&& other != id && has_session(sessions, other) ==> session(after, other) == session(
                sessions,
                other,
            )
        }),
{
    let at = session_at(sessions, id);
    let after = sessions.update(at, changed);
    assert(after[at].id == id);
    assert(sessions[session_at(after, id)].id == id);
    if has_session(sessions, other) {
        let there = session_at(sessions, other);
        assert(after[there].id == other);
        assert(sessions[session_at(after, other)].id == other);
    }
    if has_session(after, other) {
        let there = session_at(after, other);
        assert(sessions[there].id == other);
    }
}

/// Each side hears the other and not itself: a message that is carried is the
/// last thing the other side hears, and what its own side hears is as it was.
pub proof fn each_side_hears_the_other_and_not_itself(
    before: Seq<SessionView>,
    after: Seq<SessionView>,
    id: Seq<char>,
    side: Side,
    message: Seq<u8>,
    now: u64,
    seen: usize,
)
    requires
        ids_differ(before),
        post_done(before, after, id, side, message, now, None),
        seen <= session(before, id).said(side).len(),
    ensures
        is_live(after, id, now),
        heard_after(session(after, id), side.other_side(), seen) == heard_after(
            session(before, id),
            side.other_side(),
            seen,
        ).push(message),
        heard_after(session(after, id), side, seen) == heard_after(session(before, id), side, seen),
{
    let changed = session(before, id).with_message(side, message);
    lemma_changed(before, id, changed, id);
    let said = session(before, id).said(side);
    if seen < said.len() {
        assert(said.push(message).skip(seen as int) =~= said.skip(seen as int).push(message));
    } else {
        assert(said.push(message).skip(seen as int) =~= Seq::empty().push(message));
    }
}

/// Two sessions never get mixed up: a message left in one changes nothing in
/// any other.
pub proof fn two_sessions_never_get_mixed_up(
    before: Seq<SessionView>,
    after: Seq<SessionView>,
    id: Seq<char>,
    side: Side,
    message: Seq<u8>,
    now: u64,
    other: Seq<char>,
)
    requires
        ids_differ(before),
        post_done(before, after, id, side, message, now, None),
        other != id,
    ensures
        has_session(after, other) == has_session(before, other),
        has_session(before, other) ==> session(after, other) == session(before, other),
{
    let changed = session(before, id).with_message(side, message);
    lemma_changed(before, id, changed, other);
}

/// A handshake cannot turn into a file transfer: whatever is posted, a session
/// stays a handshake.
pub proof fn a_handshake_stays_a_handshake(
    before: Seq<SessionView>,
    after: Seq<SessionView>,
    id: Seq<char>,
    side: Side,
    message: Seq<u8>,
    now: u64,
)
    requires
        ids_differ(before),
        post_done(before, after, id, side, message, now, None),
        is_a_handshake(session(before, id)),
    ensures
        is_a_handshake(session(after, id)),
{
    let held = session(before, id);
    let changed = held.with_message(side, message);
    lemma_changed(before, id, changed, id);
}

/// The first one to hold side b keeps it: once somebody speaks for it with a
/// secret, nobody speaks for it with another.
pub proof fn the_first_one_keeps_side_b(
    before: Seq<SessionView>,
    id: Seq<char>,
    claim: Seq<char>,
    other: Seq<char>,
    device: Option<Uuid>,
)
    requires
        ids_differ(before),
        has_session(before, id),
        other != claim,
    ensures
        ({
            let after = before.update(
                session_at(before, id),
                SessionView { claim: Some(claim), ..session(before, id) },
            );
            &&& may_speak(session(after, id), Side::B, device, Some(claim))
            &&& !may_speak(session(after, id), Side::B, device, Some(other))
            &&& !may_speak(session(after, id), Side::B, device, None)
        }),
{
    let changed = SessionView { claim: Some(claim), ..session(before, id) };
    lemma_changed(before, id, changed, id);
}

/// Side a is the device that opened the session, and nobody else.
pub proof fn only_the_opener_speaks_for_side_a(
    session: SessionView,
    device: Option<Uuid>,
    claim: Option<Seq<char>>,
)
    ensures
        may_speak(session, Side::A, device, claim) <==> device == Some(session.device),
{
}

/// A device that is shut out takes the sessions it opened along, and leaves
/// every other.
pub proof fn a_device_takes_its_sessions_along(
    sessions: Seq<SessionView>,
    device: Uuid,
    one: SessionView,
)
    ensures
        sessions_where(sessions, opened_by_others(device)).contains(one) <==> sessions.contains(one)
            && one.device != device,
    decreases sessions.len(),
{
    let which = opened_by_others(device);
    let chosen = sessions_where(sessions, which);
    if sessions.len() > 0 {
        let rest = sessions.drop_last();
        let before = sessions_where(rest, which);
        a_device_takes_its_sessions_along(rest, device, one);
        if before.contains(one) {
            let k = choose|k: int| 0 <= k < before.len() && before[k] == one;
            assert(chosen[k] == one);
        }
        if rest.contains(one) {
            let k = choose|k: int| 0 <= k < rest.len() && rest[k] == one;
            assert(sessions[k] == one);
        }
        if sessions.contains(one) {
            let k = choose|k: int| 0 <= k < sessions.len() && sessions[k] == one;
            if k < rest.len() {
                assert(rest[k] == one);
            } else if one.device != device {
                assert(chosen.last() == one);
            }
        }
        if chosen.contains(one) {
            let k = choose|k: int| 0 <= k < chosen.len() && chosen[k] == one;
            if k < before.len() {
                assert(before[k] == one);
            } else {
                assert(sessions[sessions.len() - 1] == one);
            }
        }
    }
}

} // verus!
