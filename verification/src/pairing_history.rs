//! What holds of the pairing relay over time, whoever calls it.

use crate::ids::Uuid;
use crate::later;
use crate::pairing::{
    asked_for, fresh_session, has_session, heard_after, is_a_handshake, is_live,
    lemma_changed_session, lemma_removed_session, lemma_sessions_where, may_open, may_speak,
    message_fault, opened_by_others, post_refusal, running, said_little, session, session_at,
    sessions_where, sessions_wf, SessionView, Side, MAX_MESSAGE_BYTES, TTL_MS,
};
use crate::pairing_laws::lemma_changed;
use vstd::prelude::*;

verus! {

/// Something that is asked of the relay.
pub enum Call {
    /// A session is opened under an id, where that may be.
    Open { id: Seq<char>, account: Uuid, device: Uuid, now: u64 },
    /// A message is left.
    Post { id: Seq<char>, side: Side, message: Seq<u8>, now: u64 },
    /// A session is looked at: read, or asked whose it is.
    Ask { id: Seq<char>, now: u64 },
    /// Somebody asks to speak for a side.
    Speak {
        id: Seq<char>,
        side: Side,
        device: Option<Uuid>,
        claim: Option<Seq<char>>,
        now: u64,
    },
    /// A session is closed.
    Close { id: Seq<char> },
    /// The sessions that a device opened are closed.
    CloseOpenedBy { device: Uuid },
    /// The sessions are counted.
    Count { now: u64 },
}

/// Whether a session is opened.
pub open spec fn is_opened(
    sessions: Seq<SessionView>,
    id: Seq<char>,
    account: Uuid,
    now: u64,
) -> bool {
    let kept = sessions_where(sessions, running(now));
    may_open(kept, account) && !has_session(kept, id)
}

/// The sessions after a call.
pub open spec fn called(sessions: Seq<SessionView>, call: Call) -> Seq<SessionView> {
    match call {
        Call::Open { id, account, device, now } => {
            let kept = sessions_where(sessions, running(now));
            if is_opened(sessions, id, account, now) {
                kept.push(fresh_session(id, account, device, now))
            } else {
                kept
            }
        },
        Call::Post { id, side, message, now } => if post_refusal(
            sessions,
            id,
            side,
            message,
            now,
        ) is None {
            sessions.update(
                session_at(sessions, id),
                session(sessions, id).with_message(side, message),
            )
        } else if message_fault(message) is Some {
            sessions
        } else {
            asked_for(sessions, id, now)
        },
        Call::Ask { id, now } => asked_for(sessions, id, now),
        Call::Speak { id, side, device, claim, now } => if is_live(sessions, id, now) && may_speak(
            session(sessions, id),
            side,
            device,
            claim,
        ) {
            if side == Side::B {
                sessions.update(
                    session_at(sessions, id),
                    SessionView { claim, ..session(sessions, id) },
                )
            } else {
                sessions
            }
        } else {
            asked_for(sessions, id, now)
        },
        Call::Close { id } => if has_session(sessions, id) {
            sessions.remove(session_at(sessions, id))
        } else {
            sessions
        },
        Call::CloseOpenedBy { device } => sessions_where(sessions, opened_by_others(device)),
        Call::Count { now } => sessions_where(sessions, running(now)),
    }
}

/// A relay with no sessions after these calls, one after the other.
pub open spec fn sessions_after(calls: Seq<Call>) -> Seq<SessionView>
    decreases calls.len(),
{
    if calls.len() == 0 {
        Seq::empty()
    } else {
        called(sessions_after(calls.drop_last()), calls.last())
    }
}

/// What was said under an id since it was opened.
pub struct Talk {
    pub opened: u64,
    pub device: Uuid,
    pub from_a: Seq<Seq<u8>>,
    pub from_b: Seq<Seq<u8>>,
}

impl Talk {
    /// What one side has said.
    pub open spec fn said(self, side: Side) -> Seq<Seq<u8>> {
        match side {
            Side::A => self.from_a,
            Side::B => self.from_b,
        }
    }

    /// Until when it may go on.
    pub open spec fn until(self) -> u64 {
        later(self.opened, TTL_MS)
    }
}

/// What was said under an id since it was opened, and not closed since: the
/// messages that were carried, each with its side, in their order.
pub open spec fn talk(calls: Seq<Call>, id: Seq<char>) -> Option<Talk>
    decreases calls.len(),
{
    if calls.len() == 0 {
        None
    } else {
        let rest = calls.drop_last();
        let before = talk(rest, id);
        let sessions = sessions_after(rest);
        match calls.last() {
            Call::Open { id: of, account, device, now } => if of == id && is_opened(
                sessions,
                id,
                account,
                now,
            ) {
                Some(Talk { opened: now, device, from_a: Seq::empty(), from_b: Seq::empty() })
            } else {
                before
            },
            Call::Post { id: of, side, message, now } => match before {
                Some(talk) if of == id && post_refusal(sessions, id, side, message, now)
                    is None => Some(
                    match side {
                        Side::A => Talk { from_a: talk.from_a.push(message), ..talk },
                        Side::B => Talk { from_b: talk.from_b.push(message), ..talk },
                    },
                ),
                _ => before,
            },
            Call::Close { id: of } => if of == id {
                None
            } else {
                before
            },
            Call::CloseOpenedBy { device } => match before {
                Some(talk) if talk.device == device => None,
                _ => before,
            },
            _ => before,
        }
    }
}

/// When a call was made, where that matters to it.
pub open spec fn time_of(call: Call) -> Option<u64> {
    match call {
        Call::Open { now, .. } => Some(now),
        Call::Post { now, .. } => Some(now),
        Call::Ask { now, .. } => Some(now),
        Call::Speak { now, .. } => Some(now),
        Call::Count { now } => Some(now),
        _ => None,
    }
}

/// When the last of these calls was made.
pub open spec fn last_time(calls: Seq<Call>) -> u64
    decreases calls.len(),
{
    if calls.len() == 0 {
        0
    } else {
        match time_of(calls.last()) {
            Some(now) => now,
            None => last_time(calls.drop_last()),
        }
    }
}

/// Whether the clock only went forward.
pub open spec fn in_time(calls: Seq<Call>) -> bool
    decreases calls.len(),
{
    calls.len() > 0 ==> in_time(calls.drop_last()) && (time_of(calls.last()) matches Some(now)
        ==> last_time(calls.drop_last()) <= now)
}

/// Whether a relay has of an id just what was said under it; or has nothing,
/// where nothing goes on under it any more.
spec fn keeps(sessions: Seq<SessionView>, id: Seq<char>, talk: Option<Talk>, time: u64) -> bool {
    if has_session(sessions, id) {
        talk matches Some(talk) && {
            let held = session(sessions, id);
            &&& held.from_a == talk.from_a
            &&& held.from_b == talk.from_b
            &&& held.device == talk.device
            &&& held.expires_ms == talk.until()
        }
    } else {
        talk matches Some(talk) ==> talk.until() <= time
    }
}

proof fn lemma_contains(
    sessions: Seq<SessionView>,
    which: spec_fn(SessionView) -> bool,
    one: SessionView,
)
    ensures
        sessions_where(sessions, which).contains(one) <==> sessions.contains(one) && which(one),
    decreases sessions.len(),
{
    if sessions.len() > 0 {
        let rest = sessions.drop_last();
        lemma_contains(rest, which, one);
        let before = sessions_where(rest, which);
        let all = sessions_where(sessions, which);
        if sessions.contains(one) && one != sessions.last() {
            let i = choose|i: int| 0 <= i < sessions.len() && sessions[i] == one;
            assert(rest[i] == one);
        }
        if rest.contains(one) {
            let i = choose|i: int| 0 <= i < rest.len() && rest[i] == one;
            assert(sessions[i] == one);
        }
        if one == sessions.last() {
            assert(sessions[sessions.len() - 1] == one);
        }
        if which(sessions.last()) {
            assert(all.last() == sessions.last());
            if before.contains(one) {
                let i = choose|i: int| 0 <= i < before.len() && before[i] == one;
                assert(all[i] == one);
            }
            if all.contains(one) && one != sessions.last() {
                let i = choose|i: int| 0 <= i < all.len() && all[i] == one;
                assert(before[i] == one);
            }
            if one == sessions.last() {
                assert(all[all.len() - 1] == one);
            }
        }
    }
}

/// Which sessions are left of those that answer a question.
proof fn lemma_left(
    sessions: Seq<SessionView>,
    which: spec_fn(SessionView) -> bool,
    id: Seq<char>,
)
    requires
        sessions_wf(sessions),
    ensures
        ({
            let left = sessions_where(sessions, which);
            &&& sessions_wf(left)
            &&& has_session(left, id) <==> has_session(sessions, id) && which(session(sessions, id))
            &&& has_session(left, id) ==> session(left, id) == session(sessions, id)
        }),
{
    let left = sessions_where(sessions, which);
    lemma_sessions_where(sessions, which);
    if has_session(sessions, id) {
        let held = session(sessions, id);
        assert(sessions[session_at(sessions, id)] == held && held.id == id);
        assert(sessions.contains(held));
        lemma_contains(sessions, which, held);
        if which(held) {
            let i = choose|i: int| 0 <= i < left.len() && left[i] == held;
            assert(left[i].id == id);
        }
    }
    if has_session(left, id) {
        let found = session(left, id);
        assert(left[session_at(left, id)] == found && found.id == id);
        assert(left.contains(found));
        lemma_contains(sessions, which, found);
        let i = choose|i: int| 0 <= i < sessions.len() && sessions[i] == found;
        assert(sessions[i].id == id);
        assert(i == session_at(sessions, id));
    }
}

/// Which sessions are left once one is gone.
proof fn lemma_removed(sessions: Seq<SessionView>, gone: Seq<char>, id: Seq<char>)
    requires
        sessions_wf(sessions),
        has_session(sessions, gone),
    ensures
        ({
            let left = sessions.remove(session_at(sessions, gone));
            &&& sessions_wf(left)
            &&& has_session(left, id) <==> has_session(sessions, id) && id != gone
            &&& has_session(left, id) ==> session(left, id) == session(sessions, id)
        }),
{
    let at = session_at(sessions, gone);
    let left = sessions.remove(at);
    lemma_removed_session(sessions, at);
    assert(sessions[at].id == gone);
    if has_session(sessions, id) && id != gone {
        let i = session_at(sessions, id);
        assert(sessions[i].id == id);
        assert(left[if i < at {
            i
        } else {
            i - 1
        }].id == id);
    }
    if has_session(left, id) {
        let i = session_at(left, id);
        assert(left[i].id == id);
        let j = if i < at {
            i
        } else {
            i + 1
        };
        assert(sessions[j] == left[i]);
        assert(j == session_at(sessions, id));
    }
}

proof fn lemma_asked(
    sessions: Seq<SessionView>,
    of: Seq<char>,
    id: Seq<char>,
    talk: Option<Talk>,
    time: u64,
    now: u64,
)
    requires
        sessions_wf(sessions),
        keeps(sessions, id, talk, time),
        time <= now,
    ensures
        sessions_wf(asked_for(sessions, of, now)),
        keeps(asked_for(sessions, of, now), id, talk, now),
{
    if has_session(sessions, of) && !is_live(sessions, of, now) {
        lemma_removed(sessions, of, id);
    }
}

/// A session of which something else changed than its id.
proof fn lemma_one_changed(
    sessions: Seq<SessionView>,
    of: Seq<char>,
    changed: SessionView,
    id: Seq<char>,
)
    requires
        sessions_wf(sessions),
        has_session(sessions, of),
        changed.id == of,
        is_a_handshake(changed),
    ensures
        ({
            let after = sessions.update(session_at(sessions, of), changed);
            &&& sessions_wf(after)
            &&& has_session(after, id) == has_session(sessions, id)
            &&& has_session(after, id) ==> session(after, id) == if id == of {
                changed
            } else {
                session(sessions, id)
            }
        }),
{
    let at = session_at(sessions, of);
    assert(sessions[at].id == of);
    lemma_changed_session(sessions, at, changed);
    lemma_changed(sessions, of, changed, id);
}

proof fn lemma_keeps(calls: Seq<Call>, id: Seq<char>)
    requires
        in_time(calls),
    ensures
        sessions_wf(sessions_after(calls)),
        keeps(sessions_after(calls), id, talk(calls, id), last_time(calls)),
    decreases calls.len(),
{
    if calls.len() > 0 {
        let rest = calls.drop_last();
        lemma_keeps(rest, id);
        let sessions = sessions_after(rest);
        let before = talk(rest, id);
        let time = last_time(rest);
        match calls.last() {
            Call::Open { id: of, account, device, now } => {
                let kept = sessions_where(sessions, running(now));
                lemma_left(sessions, running(now), id);
                lemma_left(sessions, running(now), of);
                if is_opened(sessions, of, account, now) {
                    let fresh = fresh_session(of, account, device, now);
                    let after = kept.push(fresh);
                    assert(sessions_wf(after)) by {
                        assert forall|i: int, j: int| 0 <= i < j < after.len() implies (
                        #[trigger] after[i]).id != (#[trigger] after[j]).id by {
                            if j == kept.len() {
                                assert(kept[i].id != of);
                            }
                        }
                        assert(said_little(fresh.from_a) && said_little(fresh.from_b));
                        assert forall|i: int| 0 <= i < after.len() implies is_a_handshake(
                            #[trigger] after[i],
                        ) by {
                            if i < kept.len() {
                                assert(after[i] == kept[i]);
                            }
                        }
                    }
                    assert(after[kept.len() as int].id == of);
                    if has_session(after, id) {
                        let i = session_at(after, id);
                        assert(after[i].id == id);
                        if i < kept.len() {
                            assert(kept[i].id == id);
                        }
                    }
                    if has_session(kept, id) {
                        let i = session_at(kept, id);
                        assert(kept[i].id == id);
                        assert(after[i].id == id);
                    }
                }
            },
            Call::Post { id: of, side, message, now } => {
                if post_refusal(sessions, of, side, message, now) is None {
                    let held = session(sessions, of);
                    let at = session_at(sessions, of);
                    assert(sessions[at].id == of && is_a_handshake(sessions[at]));
                    let changed = held.with_message(side, message);
                    assert(said_little(held.said(side).push(message))) by {
                        let all = held.said(side).push(message);
                        assert forall|i: int| 0 <= i < all.len() implies 1 <= (
                        #[trigger] all[i]).len() <= MAX_MESSAGE_BYTES by {
                            if i < held.said(side).len() {
                                assert(all[i] == held.said(side)[i]);
                            }
                        }
                    }
                    assert(is_a_handshake(changed));
                    lemma_one_changed(sessions, of, changed, id);
                } else if message_fault(message) is None {
                    lemma_asked(sessions, of, id, before, time, now);
                }
            },
            Call::Ask { id: of, now } => {
                lemma_asked(sessions, of, id, before, time, now);
            },
            Call::Speak { id: of, side, device, claim, now } => {
                if is_live(sessions, of, now) && may_speak(
                    session(sessions, of),
                    side,
                    device,
                    claim,
                ) {
                    if side == Side::B {
                        let held = session(sessions, of);
                        let at = session_at(sessions, of);
                        assert(sessions[at].id == of && is_a_handshake(sessions[at]));
                        let changed = SessionView { claim, ..held };
                        assert(is_a_handshake(changed));
                        lemma_one_changed(sessions, of, changed, id);
                    }
                } else {
                    lemma_asked(sessions, of, id, before, time, now);
                }
            },
            Call::Close { id: of } => {
                if has_session(sessions, of) {
                    lemma_removed(sessions, of, id);
                }
            },
            Call::CloseOpenedBy { device } => {
                lemma_left(sessions, opened_by_others(device), id);
            },
            Call::Count { now } => {
                lemma_left(sessions, running(now), id);
            },
        }
    }
}

/// Whatever was asked of the relay before, by whomever: under an id that was
/// never opened, was closed or has run out there is nothing to be heard; and
/// under any other a side hears just what the other side said since the
/// opening, from as far on as it asks: nothing of its own, nothing of another
/// session, and all of it again when it asks again. It is never more than a
/// handshake.
pub proof fn a_side_hears_just_what_the_other_said(
    calls: Seq<Call>,
    id: Seq<char>,
    side: Side,
    after: usize,
    now: u64,
)
    requires
        in_time(calls),
        last_time(calls) <= now,
    ensures
        is_live(sessions_after(calls), id, now) <==> (talk(calls, id) matches Some(talk)
            && talk.until() > now),
        is_live(sessions_after(calls), id, now) ==> {
            let said = talk(calls, id)->Some_0.said(side.other_side());
            &&& heard_after(session(sessions_after(calls), id), side, after) == if after
                < said.len() {
                said.skip(after as int)
            } else {
                Seq::empty()
            }
            &&& said_little(said)
        },
        talk(calls.push(Call::Ask { id, now }), id) == talk(calls, id),
{
    lemma_keeps(calls, id);
    let sessions = sessions_after(calls);
    if has_session(sessions, id) {
        assert(is_a_handshake(sessions[session_at(sessions, id)]));
    }
    assert(calls.push(Call::Ask { id, now }).drop_last() =~= calls);
}

} // verus!
