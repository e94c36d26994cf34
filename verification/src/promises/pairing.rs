//! The relay between two devices that pair.

use crate::api::pairing::{
    close_done, encoded_all, listen_refusal, message_refusal, open_done, post_done, read_done,
    speak_refusal, spoken_for, ReadQuery, Speaker,
};
use crate::b64;
use crate::error::{refused, Refusal, Result};
use crate::ids::Uuid;
use crate::pairing::{
    asked_for, code_text, fresh_session, heard_after, ids_differ, is_code, is_live, may_open,
    may_speak, message_fault, post_refusal, running, session, session_at, sessions_of,
    sessions_where, SessionView, Side,
};
use crate::proto::{PairMessage, PairMessages, PairOpened};
use crate::state::StateView;
use crate::text;
use vstd::prelude::*;

verus! {

/// The two sides, by their letters.
pub proof fn the_two_sides(value: Seq<char>)
    ensures
        Side::named(seq!['a']) == Some(Side::A),
        Side::named(seq!['A']) == Some(Side::A),
        Side::named(seq!['b']) == Some(Side::B),
        Side::named(seq!['B']) == Some(Side::B),
        Side::named(value) is Some ==> value.len() == 1,
        value.len() == 1 && value[0] != 'a' && value[0] != 'A' && value[0] != 'b' && value[0] != 'B'
            ==> Side::named(value) is None,
        Side::A.other_side() == Side::B,
        Side::B.other_side() == Side::A,
{
    reveal_strlit("a");
    reveal_strlit("A");
    reveal_strlit("b");
    reveal_strlit("B");
    assert("a"@ =~= seq!['a']);
    assert("A"@ =~= seq!['A']);
    assert("b"@ =~= seq!['b']);
    assert("B"@ =~= seq!['B']);
    assert(seq!['b'][0] == 'b' && seq!['B'][0] == 'B');
    assert(seq!['a'][0] == 'a' && seq!['A'][0] == 'A');
}

/// What a side said is what it said, message by message, and a message adds to
/// what that side said and to nothing else.
pub proof fn a_message_is_of_the_side_that_said_it(said: SessionView, message: Seq<u8>)
    ensures
        said.said(Side::A) == said.from_a,
        said.said(Side::B) == said.from_b,
        said.with_message(Side::A, message).from_a == said.from_a.push(message),
        said.with_message(Side::A, message).from_b == said.from_b,
        said.with_message(Side::B, message).from_b == said.from_b.push(message),
        said.with_message(Side::B, message).from_a == said.from_a,
        forall|side: Side| #[trigger]
            said.with_message(side, message).id == said.id && said.with_message(
                side,
                message,
            ).account == said.account && said.with_message(side, message).device == said.device
                && said.with_message(side, message).claim == said.claim && said.with_message(
                side,
                message,
            ).expires_ms == said.expires_ms,
{
}

/// What a side hears is what the other said, from where it left off.
pub proof fn a_side_hears_the_other(heard: SessionView, after: usize)
    ensures
        after <= heard.from_b.len() ==> heard_after(heard, Side::A, after) == heard.from_b.skip(
            after as int,
        ),
        after <= heard.from_a.len() ==> heard_after(heard, Side::B, after) == heard.from_a.skip(
            after as int,
        ),
        after > heard.from_b.len() ==> heard_after(heard, Side::A, after).len() == 0,
        after > heard.from_a.len() ==> heard_after(heard, Side::B, after).len() == 0,
{
    if after == heard.from_b.len() {
        assert(heard.from_b.skip(after as int) =~= Seq::empty());
    }
    if after == heard.from_a.len() {
        assert(heard.from_a.skip(after as int) =~= Seq::empty());
    }
}

/// A session is the one under its id, and runs until its time is up; one that
/// is over is gone once it is asked for.
pub proof fn a_session_runs_until_its_time_is_up(
    sessions: Seq<SessionView>,
    id: Seq<char>,
    now: u64,
    i: int,
)
    requires
        ids_differ(sessions),
        0 <= i < sessions.len(),
        sessions[i].id == id,
    ensures
        session(sessions, id) == sessions[i],
        session_at(sessions, id) == i,
        is_live(sessions, id, now) <==> now < sessions[i].expires_ms,
        now < sessions[i].expires_ms ==> asked_for(sessions, id, now) == sessions,
        now >= sessions[i].expires_ms ==> asked_for(sessions, id, now) == sessions.remove(i),
{
}

/// Nothing runs under an id that nobody opened.
pub proof fn nothing_runs_under_no_id(sessions: Seq<SessionView>, id: Seq<char>, now: u64)
    requires
        forall|i: int| 0 <= i < sessions.len() ==> (#[trigger] sessions[i]).id != id,
    ensures
        !is_live(sessions, id, now),
        asked_for(sessions, id, now) == sessions,
{
}

proof fn lemma_wanted(sessions: Seq<SessionView>, which: spec_fn(SessionView) -> bool)
    ensures
        sessions_where(sessions, which) == sessions.filter(which),
    decreases sessions.len(),
{
    reveal(Seq::filter);
    if sessions.len() > 0 {
        lemma_wanted(sessions.drop_last(), which);
    }
}

proof fn lemma_running(sessions: Seq<SessionView>, now: u64)
    ensures
        sessions_where(sessions, running(now)) == sessions.filter(
            |one: SessionView| now < one.expires_ms,
        ),
    decreases sessions.len(),
{
    reveal(Seq::filter);
    if sessions.len() > 0 {
        lemma_running(sessions.drop_last(), now);
    }
}

/// Those that are wanted of sessions are kept, in their order; those of an
/// account are counted, each of them.
pub proof fn those_that_are_wanted_stay(
    sessions: Seq<SessionView>,
    which: spec_fn(SessionView) -> bool,
    account: Uuid,
)
    ensures
        sessions_where(sessions, which) == sessions.filter(which),
        sessions_of(sessions, account) == sessions.filter(
            |one: SessionView| one.account == account,
        ).len(),
    decreases sessions.len(),
{
    lemma_wanted(sessions, which);
    reveal(Seq::filter);
    if sessions.len() > 0 {
        those_that_are_wanted_stay(sessions.drop_last(), which, account);
    }
}

/// A session is opened for the account and by the device that ask, under a code
/// of five letters and digits that is new, with nothing said and nobody at the
/// other side, for ten minutes; an account may have three, and there are no
/// more than a thousand in all.
pub proof fn a_session_is_opened_for_ten_minutes(
    before: StateView,
    after: StateView,
    account: Uuid,
    device: Uuid,
    now: u64,
    tick: u64,
    opened: PairOpened,
    i: int,
)
    requires
        open_done(before, after, account, device, now, tick, Ok(opened)),
        now <= 10_000_000_000_000_000_000,
    ensures
        ({
            let kept = before.pairings.filter(|one: SessionView| now < one.expires_ms);
            let made = after.pairings.last();
            &&& opened.expires_ms == now + 600_000
            &&& opened.id@.len() == 5
            &&& is_code(opened.id@)
            &&& after.pairings.len() == kept.len() + 1
            &&& after.pairings.drop_last() == kept
            &&& made.id == opened.id@
            &&& made.account == account
            &&& made.device == device
            &&& made.claim is None
            &&& made.from_a.len() == 0
            &&& made.from_b.len() == 0
            &&& made.expires_ms == now + 600_000
            &&& kept.filter(|one: SessionView| one.account == account).len() < 3
            &&& kept.len() < 1000
            &&& 0 <= i < kept.len() ==> kept[i].id != opened.id@
            &&& after.db == before.db
            &&& after.sessions == before.sessions
        }),
{
    lemma_running(before.pairings, now);
    let kept = sessions_where(before.pairings, running(now));
    those_that_are_wanted_stay(kept, running(now), account);
    assert(after.pairings.drop_last() =~= kept);
    let bytes = choose|bytes: Seq<u8>|
        bytes.len() == 5 && opened.id@ == #[trigger] code_text(bytes);
    assert(opened.id@.len() == 5);
}

/// A session is not opened only where there are too many, or where it was asked
/// for too often.
pub proof fn who_may_open_a_session_does(
    before: StateView,
    after: StateView,
    account: Uuid,
    device: Uuid,
    now: u64,
    tick: u64,
    outcome: Result<PairOpened>,
)
    requires
        open_done(before, after, account, device, now, tick, outcome),
        outcome is Err,
    ensures
        refused(outcome) == Some(Refusal::RateLimited),
        after.db == before.db,
        after.sessions == before.sessions,
        ({
            let kept = before.pairings.filter(|one: SessionView| now < one.expires_ms);
            &&& after.pairings == before.pairings || after.pairings == kept
            &&& crate::limits::member_refused(
                before.limits.hits,
                crate::limits::account_key(account),
                tick,
                crate::limits::joins(),
            ) || kept.len() >= 1000 || kept.filter(
                |one: SessionView| one.account == account,
            ).len() >= 3
        }),
{
    lemma_running(before.pairings, now);
    let kept = sessions_where(before.pairings, running(now));
    those_that_are_wanted_stay(kept, running(now), account);
}

/// A code is five letters and digits, one for each byte that was drawn.
pub proof fn a_code_is_its_letters(bytes: Seq<u8>, i: int)
    requires
        0 <= i < bytes.len(),
    ensures
        code_text(bytes).len() == bytes.len(),
        code_text(bytes)[i] == "ABCDEFGHJKMNPQRSTVWXYZ23456789"@[bytes[i] as int % 30],
        bytes.len() == 5 ==> is_code(code_text(bytes)),
{
}

/// A session begins with nothing said and nobody at the other side.
pub proof fn a_session_begins_empty(id: Seq<char>, account: Uuid, device: Uuid, now: u64)
    requires
        now <= 10_000_000_000_000_000_000,
    ensures
        fresh_session(id, account, device, now).id == id,
        fresh_session(id, account, device, now).account == account,
        fresh_session(id, account, device, now).device == device,
        fresh_session(id, account, device, now).claim is None,
        fresh_session(id, account, device, now).from_a.len() == 0,
        fresh_session(id, account, device, now).from_b.len() == 0,
        fresh_session(id, account, device, now).expires_ms == now + 600_000,
{
}

/// Who may speak: for the one side the device that opened the session, for the
/// other whoever has the claim that was made first.
pub proof fn who_may_speak(held: SessionView, device: Option<Uuid>, claim: Option<Seq<char>>)
    ensures
        may_speak(held, Side::A, device, claim) <==> device == Some(held.device),
        claim is None ==> !may_speak(held, Side::B, device, claim),
        claim is Some && held.claim is None ==> may_speak(held, Side::B, device, claim),
        claim is Some && held.claim is Some ==> (may_speak(held, Side::B, device, claim)
            <==> claim->Some_0 == held.claim->Some_0),
{
}

/// A message that is posted is the last thing its side said, as it was sent;
/// what was said before stays, on both sides, and so do the other sessions. The
/// first who speaks for the other side claims it.
pub proof fn a_message_is_passed_on(
    before: StateView,
    after: StateView,
    id: Seq<char>,
    request: PairMessage,
    speaker: Speaker,
    now: u64,
    i: int,
    j: int,
)
    requires
        ids_differ(before.pairings),
        post_done(before, after, id, request, speaker, now, Ok(())),
        0 <= i < before.pairings.len(),
        before.pairings[i].id == id,
        0 <= j < before.pairings.len(),
    ensures
        ({
            let side = Side::named(request.side@);
            let bytes = b64::decoded(text::trimmed(request.message@));
            let (was, is) = (before.pairings[i], after.pairings[i]);
            &&& side is Some
            &&& bytes is Some
            &&& 1 <= bytes->Some_0.len() <= 8192
            &&& now < was.expires_ms
            &&& side == Some(Side::A) ==> speaker.device == Some(was.device)
            &&& side == Some(Side::A) ==> is.from_a == was.from_a.push(bytes->Some_0) && is.from_b
                == was.from_b && was.from_a.len() < 4 && is.claim == was.claim
            &&& side == Some(Side::B) ==> is.from_b == was.from_b.push(bytes->Some_0) && is.from_a
                == was.from_a && was.from_b.len() < 4 && speaker.claim is Some && is.claim == Some(
                speaker.claim->Some_0@,
            ) && (was.claim is Some ==> was.claim == is.claim)
            &&& is.id == was.id
            &&& is.account == was.account
            &&& is.device == was.device
            &&& is.expires_ms == was.expires_ms
            &&& after.pairings.len() == before.pairings.len()
            &&& j != i ==> after.pairings[j] == before.pairings[j]
            &&& after.db == before.db
            &&& after.sessions == before.sessions
        }),
{
    let side = Side::named(request.side@)->Some_0;
    let spoken = spoken_for(before.pairings, id, side, speaker, now);
    assert(session_at(before.pairings, id) == i);
    assert(spoken[i].id == id);
    let at = session_at(spoken, id);
    assert(spoken[at].id == id);
    assert(before.pairings[at].id == id);
}

/// Who may speak, to a session that runs and has room for what is said, is
/// heard.
pub proof fn who_may_speak_is_heard(
    before: StateView,
    after: StateView,
    id: Seq<char>,
    request: PairMessage,
    speaker: Speaker,
    now: u64,
    outcome: Result<()>,
    i: int,
)
    requires
        ids_differ(before.pairings),
        post_done(before, after, id, request, speaker, now, outcome),
        0 <= i < before.pairings.len(),
        before.pairings[i].id == id,
        now < before.pairings[i].expires_ms,
        Side::named(request.side@) is Some,
        b64::decoded(text::trimmed(request.message@)) is Some,
        1 <= b64::decoded(text::trimmed(request.message@))->Some_0.len() <= 8192,
        may_speak(
            before.pairings[i],
            Side::named(request.side@)->Some_0,
            speaker.device,
            text::string_view(speaker.claim),
        ),
        before.pairings[i].said(Side::named(request.side@)->Some_0).len() < 4,
    ensures
        outcome is Ok,
{
    let side = Side::named(request.side@)->Some_0;
    let spoken = spoken_for(before.pairings, id, side, speaker, now);
    assert(session_at(before.pairings, id) == i);
    assert(spoken[i].id == id);
    let at = session_at(spoken, id);
    assert(spoken[at].id == id);
    assert(before.pairings[at].id == id);
}

/// What is said in vain: a message that is none, to a session that does not
/// run, for a side that is another's, or one more than a handshake takes.
pub proof fn what_is_said_in_vain(
    sessions: Seq<SessionView>,
    id: Seq<char>,
    side: Side,
    message: Seq<u8>,
    now: u64,
    speaker: Speaker,
)
    ensures
        message.len() > 8192 ==> message_fault(message) is Some && message_fault(
            message,
        )->Some_0 is TooLarge,
        message.len() == 0 ==> message_fault(message) is Some && message_fault(
            message,
        )->Some_0 is Invalid,
        1 <= message.len() <= 8192 ==> message_fault(message) is None,
        !is_live(sessions, id, now) ==> speak_refusal(sessions, id, side, speaker, now) == Some(
            Refusal::NotFound,
        ),
        is_live(sessions, id, now) && !may_speak(
            session(sessions, id),
            side,
            speaker.device,
            text::string_view(speaker.claim),
        ) ==> speak_refusal(sessions, id, side, speaker, now) == Some(Refusal::Unauthorized),
        1 <= message.len() <= 8192 && !is_live(sessions, id, now) ==> post_refusal(
            sessions,
            id,
            side,
            message,
            now,
        ) == Some(Refusal::NotFound),
        1 <= message.len() <= 8192 && is_live(sessions, id, now) && session(sessions, id).said(
            side,
        ).len() >= 4 ==> post_refusal(sessions, id, side, message, now) is Some && post_refusal(
            sessions,
            id,
            side,
            message,
            now,
        )->Some_0 is Invalid,
{
}

/// What is wrong with a message before anybody looks where it goes.
pub proof fn what_is_no_message(request: PairMessage)
    ensures
        Side::named(request.side@) is None ==> message_refusal(request) is Some && message_refusal(
            request,
        )->Some_0 is Invalid,
        b64::decoded(text::trimmed(request.message@)) is None ==> message_refusal(request) is Some
            && message_refusal(request)->Some_0 is Invalid,
        message_refusal(request) is None <==> Side::named(request.side@) is Some && b64::decoded(
            text::trimmed(request.message@),
        ) is Some && 1 <= b64::decoded(text::trimmed(request.message@))->Some_0.len() <= 8192,
{
}

/// Who listens must be one who may speak for that side.
pub proof fn who_may_listen(
    state: StateView,
    id: Seq<char>,
    query: ReadQuery,
    speaker: Speaker,
    now: u64,
)
    ensures
        Side::named(query.side@) is None ==> listen_refusal(
            state,
            id,
            query,
            speaker,
            now,
        ) is Some,
        Side::named(query.side@) matches Some(side) ==> (listen_refusal(
            state,
            id,
            query,
            speaker,
            now,
        ) is None <==> is_live(state.pairings, id, now) && may_speak(
            session(state.pairings, id),
            side,
            speaker.device,
            text::string_view(speaker.claim),
        )),
{
}

/// What is read is what the other side said, message by message and as it was
/// said, from where the reader left off; and nothing is lost by reading it.
pub proof fn what_is_read_is_what_was_said(
    before: StateView,
    after: StateView,
    id: Seq<char>,
    side: Side,
    seen: usize,
    now: u64,
    answer: PairMessages,
    i: int,
    m: int,
)
    requires
        ids_differ(before.pairings),
        read_done(before, after, id, side, seen, now, Ok(answer)),
        0 <= i < before.pairings.len(),
        before.pairings[i].id == id,
    ensures
        ({
            let said = match side {
                Side::A => before.pairings[i].from_b,
                Side::B => before.pairings[i].from_a,
            };
            &&& now < before.pairings[i].expires_ms
            &&& seen <= said.len() ==> answer.messages@.len() == said.len() - seen && answer.next
                == said.len()
            &&& seen > said.len() ==> answer.messages@.len() == 0 && answer.next == seen
            &&& 0 <= m < answer.messages@.len() ==> answer.messages@[m]@ == b64::encoded(
                said[seen + m],
            )
            &&& after == before
        }),
{
    let heard = heard_after(session(before.pairings, id), side, seen);
    assert(text::strings_view(answer.messages@).len() == encoded_all(heard).len());
    if 0 <= m < answer.messages@.len() {
        assert(text::strings_view(answer.messages@)[m] == answer.messages@[m]@);
        assert(encoded_all(heard)[m] == b64::encoded(heard[m]));
    }
}

/// A session is closed by a device of the account it was opened for, and is
/// then gone, and no other.
pub proof fn a_session_is_closed(
    before: StateView,
    after: StateView,
    account: Uuid,
    id: Seq<char>,
    now: u64,
    outcome: Result<()>,
    i: int,
)
    requires
        ids_differ(before.pairings),
        close_done(before, after, account, id, now, outcome),
        0 <= i < before.pairings.len(),
        before.pairings[i].id == id,
    ensures
        outcome is Ok <==> now < before.pairings[i].expires_ms && before.pairings[i].account
            == account,
        outcome is Err ==> refused(outcome) == Some(Refusal::NotFound),
        outcome is Ok ==> after.pairings == before.pairings.remove(i),
        outcome is Err && now < before.pairings[i].expires_ms ==> after.pairings == before.pairings,
        after.db == before.db,
        after.sessions == before.sessions,
{
}

/// There is room for another session where the account has fewer than three and
/// all together fewer than a thousand.
pub proof fn where_there_is_room_for_a_session(sessions: Seq<SessionView>, account: Uuid)
    ensures
        may_open(sessions, account) <==> sessions_of(sessions, account) < 3 && sessions.len()
            < 1000,
{
}

} // verus!
