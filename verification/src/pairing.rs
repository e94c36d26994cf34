//! The relay two devices pair through.
//!
//! When a device joins, it needs things the server must never learn: the
//! account key, and the fingerprint to pin. So the two devices run SPAKE2 (a
//! handshake where a short spoken code turns into a strong shared key) and
//! this server carries the messages between them without understanding any of
//! it. It is a post box with two slots and a timer.
//!
//! What that buys, and why the shape is what it is:
//!
//! - **One guess per code.** SPAKE2 gives an attacker who does not know the
//!   code exactly one online attempt, and a failed one leaves both sides with
//!   different keys. So a four-word code is enough, where a four-word password
//!   would not be.
//! - **Nothing is stored.** Sessions live in memory and expire in ten minutes.
//!   A server that restarts mid-pairing means starting the pairing again, not
//!   a message left lying around.
//! - **Small and few.** A handful of messages, a few kilobytes each. This is a
//!   handshake, not a file transfer, and nobody gets to use it as one.
//! - **Each side is somebody's.** Side a is the device that opened the session,
//!   signed in. Side b has no account yet: it holds its side with a secret it
//!   made up, and the first one to arrive keeps it.

use crate::auth::blobs_view;
use crate::db::invites::{letter, letter_of, ALPHABET};
use crate::error::{refused, ApiError, Refusal, Result};
use crate::ids::Uuid;
use crate::{later, now_ms, random_bytes, text};
use vstd::prelude::*;

verus! {

/// Ten minutes: long enough to walk to the other machine, short enough that a
/// code read aloud is worthless by the evening.
pub const TTL_MS: u64 = 10 * 60 * 1000;

/// SPAKE2 is one message each way, then one sealed payload and an answer.
/// Four leaves room without leaving room to be abused.
pub const MAX_MESSAGES: usize = 4;

/// A handshake message, decoded. The payload that follows it carries an
/// account key and a token, not a file.
pub const MAX_MESSAGE_BYTES: usize = 8 * 1024;

/// How long a device waits for the other side before asking again.
pub const POLL_SECS: u64 = 20;

/// Sessions one account may have open at once.
pub const OPEN_PER_ACCOUNT: usize = 3;

/// Sessions the server carries at once.
pub const OPEN_IN_ALL: usize = 1000;

/// How often another id is made up where one is taken, before the ids are gone
/// through in their order.
pub const ID_ATTEMPTS: usize = 64;

#[derive(Debug, Clone, Copy, PartialEq, Eq, Structural)]
pub enum Side {
    /// The device that is already in and opened the session.
    A,
    /// The device joining.
    B,
}

impl Side {
    /// The side a word names, if it names one.
    pub open spec fn named(value: Seq<char>) -> Option<Side> {
        if value == "a"@ || value == "A"@ {
            Some(Side::A)
        } else if value == "b"@ || value == "B"@ {
            Some(Side::B)
        } else {
            None
        }
    }

    pub open spec fn other_side(self) -> Side {
        match self {
            Side::A => Side::B,
            Side::B => Side::A,
        }
    }

    pub fn parse(value: &str) -> (side: Option<Side>)
        ensures
            side == Side::named(value@),
    {
        if text::same(value, "a") || text::same(value, "A") {
            Some(Side::A)
        } else if text::same(value, "b") || text::same(value, "B") {
            Some(Side::B)
        } else {
            None
        }
    }

    pub fn other(self) -> (side: Side)
        ensures
            side == self.other_side(),
    {
        match self {
            Side::A => Side::B,
            Side::B => Side::A,
        }
    }
}

#[derive(Debug)]
struct Session {
    id: String,
    account: Uuid,
    /// The device that opened it.
    device: Uuid,
    /// What side b holds its side with, once there is one.
    claim: Option<String>,
    from_a: Vec<Vec<u8>>,
    from_b: Vec<Vec<u8>>,
    expires_ms: u64,
}

/// A pairing session by its contents.
pub struct SessionView {
    pub id: Seq<char>,
    pub account: Uuid,
    pub device: Uuid,
    pub claim: Option<Seq<char>>,
    pub from_a: Seq<Seq<u8>>,
    pub from_b: Seq<Seq<u8>>,
    pub expires_ms: u64,
}

impl View for Session {
    type V = SessionView;

    closed spec fn view(&self) -> SessionView {
        SessionView {
            id: self.id@,
            account: self.account,
            device: self.device,
            claim: text::string_view(self.claim),
            from_a: blobs_view(self.from_a@),
            from_b: blobs_view(self.from_b@),
            expires_ms: self.expires_ms,
        }
    }
}

impl SessionView {
    /// What one side has said.
    pub open spec fn said(self, side: Side) -> Seq<Seq<u8>> {
        match side {
            Side::A => self.from_a,
            Side::B => self.from_b,
        }
    }

    /// The session after one side said something more.
    pub open spec fn with_message(self, side: Side, message: Seq<u8>) -> SessionView {
        match side {
            Side::A => SessionView { from_a: self.from_a.push(message), ..self },
            Side::B => SessionView { from_b: self.from_b.push(message), ..self },
        }
    }
}

/// The sessions that are open.
#[derive(Debug)]
pub struct Pairings {
    sessions: Vec<Session>,
}

impl View for Pairings {
    type V = Seq<SessionView>;

    closed spec fn view(&self) -> Seq<SessionView> {
        self.sessions@.map_values(|session: Session| session@)
    }
}

/// Whether no id names two sessions.
pub open spec fn ids_differ(sessions: Seq<SessionView>) -> bool {
    forall|i: int, j: int|
        0 <= i < j < sessions.len() ==> (#[trigger] sessions[i]).id != (#[trigger] sessions[j]).id
}

/// Whether a session is no more than a handshake: a few messages from either
/// side, none of them empty and none of them large.
pub open spec fn is_a_handshake(session: SessionView) -> bool {
    said_little(session.from_a) && said_little(session.from_b)
}

/// Whether that is no more than one side may say.
pub open spec fn said_little(said: Seq<Seq<u8>>) -> bool {
    said.len() <= MAX_MESSAGES && forall|i: int|
        0 <= i < said.len() ==> 1 <= (#[trigger] said[i]).len() <= MAX_MESSAGE_BYTES
}

/// Each id names one session, and every session is no more than a handshake.
pub open spec fn sessions_wf(sessions: Seq<SessionView>) -> bool {
    ids_differ(sessions) && forall|i: int|
        0 <= i < sessions.len() ==> is_a_handshake(#[trigger] sessions[i])
}

/// Whether an id names a session.
pub open spec fn has_session(sessions: Seq<SessionView>, id: Seq<char>) -> bool {
    exists|i: int| 0 <= i < sessions.len() && (#[trigger] sessions[i]).id == id
}

/// Where that session stands.
pub open spec fn session_at(sessions: Seq<SessionView>, id: Seq<char>) -> int {
    choose|i: int| 0 <= i < sessions.len() && (#[trigger] sessions[i]).id == id
}

/// That session.
pub open spec fn session(sessions: Seq<SessionView>, id: Seq<char>) -> SessionView {
    sessions[session_at(sessions, id)]
}

/// Whether there is a session of that id that has not run out. An expired one
/// answers like one that never existed, because to the device asking it is the
/// same thing.
pub open spec fn is_live(sessions: Seq<SessionView>, id: Seq<char>, now: u64) -> bool {
    has_session(sessions, id) && session(sessions, id).expires_ms > now
}

/// The sessions after one was asked for: if it has run out, it is gone.
pub open spec fn asked_for(sessions: Seq<SessionView>, id: Seq<char>, now: u64) -> Seq<
    SessionView,
> {
    if has_session(sessions, id) && !is_live(sessions, id, now) {
        sessions.remove(session_at(sessions, id))
    } else {
        sessions
    }
}

/// The sessions that answer a question, in their order.
pub open spec fn sessions_where(
    sessions: Seq<SessionView>,
    which: spec_fn(SessionView) -> bool,
) -> Seq<SessionView>
    decreases sessions.len(),
{
    if sessions.len() == 0 {
        Seq::empty()
    } else if which(sessions.last()) {
        sessions_where(sessions.drop_last(), which).push(sessions.last())
    } else {
        sessions_where(sessions.drop_last(), which)
    }
}

/// Sessions that have not run out.
pub open spec fn running(now: u64) -> spec_fn(SessionView) -> bool {
    |session: SessionView| session.expires_ms > now
}

/// Sessions that other devices opened.
pub open spec fn opened_by_others(device: Uuid) -> spec_fn(SessionView) -> bool {
    |session: SessionView| session.device != device
}

/// How many of these sessions an account opened.
pub open spec fn sessions_of(sessions: Seq<SessionView>, account: Uuid) -> nat
    decreases sessions.len(),
{
    if sessions.len() == 0 {
        0
    } else {
        sessions_of(sessions.drop_last(), account) + if sessions.last().account == account {
            1nat
        } else {
            0
        }
    }
}

/// A session as it begins.
pub open spec fn fresh_session(
    id: Seq<char>,
    account: Uuid,
    device: Uuid,
    now: u64,
) -> SessionView {
    SessionView {
        id,
        account,
        device,
        claim: None,
        from_a: Seq::empty(),
        from_b: Seq::empty(),
        expires_ms: later(now, TTL_MS),
    }
}

/// Whether an account may open another session.
pub open spec fn may_open(sessions: Seq<SessionView>, account: Uuid) -> bool {
    sessions_of(sessions, account) < OPEN_PER_ACCOUNT && sessions.len() < OPEN_IN_ALL
}

/// The id that random bytes make: a letter for each.
pub open spec fn code_text(bytes: Seq<u8>) -> Seq<char> {
    bytes.map_values(|byte: u8| letter(byte))
}

/// The id that random bytes make.
pub fn code_from(bytes: &[u8; 5]) -> (code: String)
    ensures
        code@ == code_text(bytes@),
{
    let mut code: String = String::new();
    for i in 0..5
        invariant
            code@ == code_text(bytes@).take(i as int),
    {
        code.push(letter_of(bytes[i]));
        assert(code@ =~= code_text(bytes@).take(i + 1));
    }
    assert(code@ =~= code_text(bytes@));
    code
}

/// Five characters, spoken once. Guessing one is worth nothing without the
/// words that go with it: those are what SPAKE2 checks.
pub fn code() -> (code: String)
    ensures
        exists|bytes: Seq<u8>| bytes.len() == 5 && code@ == #[trigger] code_text(bytes),
{
    let bytes: [u8; 5] = random_bytes::<5>();
    assert(bytes@.len() == 5);
    code_from(&bytes)
}

/// Whether that is an id: five letters of the alphabet.
pub open spec fn is_code(id: Seq<char>) -> bool {
    exists|bytes: Seq<u8>| bytes.len() == 5 && id == #[trigger] code_text(bytes)
}

/// The bytes of an id by its number, among the first of them.
spec fn numbered(n: int) -> Seq<u8> {
    seq![0u8, 0u8, (n / 900 % 30) as u8, (n / 30 % 30) as u8, (n % 30) as u8]
}

/// Which letter of the alphabet that is.
spec fn rank(c: char) -> int {
    let code = c as int;
    if code < 'A' as int {
        22 + code - '2' as int
    } else if code < 'I' as int {
        code - 'A' as int
    } else if code < 'L' as int {
        8 + code - 'J' as int
    } else if code < 'O' as int {
        10 + code - 'M' as int
    } else if code < 'U' as int {
        12 + code - 'P' as int
    } else {
        17 + code - 'V' as int
    }
}

proof fn lemma_letter_rank(byte: u8)
    requires
        byte < 30,
    ensures
        rank(letter(byte)) == byte,
{
    reveal_strlit("ABCDEFGHJKMNPQRSTVWXYZ23456789");
    let c = letter(byte);
    assert(c == ALPHABET@[byte as int]);
    assert(byte < 8 ==> c as int == 'A' as int + byte);
    assert(8 <= byte < 10 ==> c as int == 'J' as int + byte - 8);
    assert(10 <= byte < 12 ==> c as int == 'M' as int + byte - 10);
    assert(12 <= byte < 17 ==> c as int == 'P' as int + byte - 12);
    assert(17 <= byte < 22 ==> c as int == 'V' as int + byte - 17);
    assert(22 <= byte ==> c as int == '2' as int + byte - 22);
}

/// No two numbers have the same id.
proof fn lemma_ids_differ(n: int, m: int)
    requires
        0 <= n < OPEN_IN_ALL,
        0 <= m < OPEN_IN_ALL,
        code_text(numbered(n)) == code_text(numbered(m)),
    ensures
        n == m,
{
    let (a, b) = (numbered(n), numbered(m));
    assert forall|i: int| 2 <= i < 5 implies #[trigger] a[i] == b[i] by {
        assert(code_text(a)[i] == letter(a[i]) && code_text(b)[i] == letter(b[i]));
        lemma_letter_rank(a[i]);
        lemma_letter_rank(b[i]);
    }
    assert(a[2] == b[2] && a[3] == b[3] && a[4] == b[4]);
    assert(n == n / 900 % 30 * 900 + n / 30 % 30 * 30 + n % 30);
    assert(m == m / 900 % 30 * 900 + m / 30 % 30 * 30 + m % 30);
}

/// What asking for a session at a given time does. It gets an id that no
/// other session has; an account with too many, or a server with too many,
/// opens none.
pub open spec fn open_done(
    before: Seq<SessionView>,
    after: Seq<SessionView>,
    account: Uuid,
    device: Uuid,
    now: u64,
    opened: Result<String>,
) -> bool {
    let kept = sessions_where(before, running(now));
    match opened {
        Ok(id) => {
            &&& may_open(kept, account)
            &&& is_code(id@)
            &&& !has_session(kept, id@)
            &&& after == kept.push(fresh_session(id@, account, device, now))
        },
        Err(error) => {
            &&& !may_open(kept, account)
            &&& error@ == Refusal::RateLimited
            &&& after == kept
        },
    }
}

/// What is wrong with a message whoever says it, if anything is.
pub open spec fn message_fault(message: Seq<u8>) -> Option<Refusal> {
    if message.len() > MAX_MESSAGE_BYTES {
        Some(Refusal::TooLarge("a pairing message"@))
    } else if message.len() == 0 {
        Some(Refusal::Invalid("an empty pairing message"@))
    } else {
        None
    }
}

/// Why a message is not carried, if it is not.
pub open spec fn post_refusal(
    sessions: Seq<SessionView>,
    id: Seq<char>,
    side: Side,
    message: Seq<u8>,
    now: u64,
) -> Option<Refusal> {
    if message_fault(message) is Some {
        message_fault(message)
    } else if !is_live(sessions, id, now) {
        Some(Refusal::NotFound)
    } else if session(sessions, id).said(side).len() >= MAX_MESSAGES {
        Some(Refusal::Invalid("that is more messages than a handshake takes"@))
    } else {
        None
    }
}

/// What leaving a message at a given time does.
pub open spec fn post_done(
    before: Seq<SessionView>,
    after: Seq<SessionView>,
    id: Seq<char>,
    side: Side,
    message: Seq<u8>,
    now: u64,
    refusal: Option<Refusal>,
) -> bool {
    &&& refusal == post_refusal(before, id, side, message, now)
    &&& after == if refusal is None {
        before.update(
            session_at(before, id),
            session(before, id).with_message(side, message),
        )
    } else if message_fault(message) is Some {
        before
    } else {
        asked_for(before, id, now)
    }
}

/// Whether somebody may speak for a side: the device that opened the session
/// for side a, and for side b whoever holds it, or anybody with a secret of
/// their own while nobody does.
pub open spec fn may_speak(
    session: SessionView,
    side: Side,
    device: Option<Uuid>,
    claim: Option<Seq<char>>,
) -> bool {
    match side {
        Side::A => device == Some(session.device),
        Side::B => claim is Some && (session.claim is None || session.claim == claim),
    }
}

pub(crate) proof fn lemma_sessions_where(sessions: Seq<SessionView>, which: spec_fn(SessionView) -> bool)
    requires
        sessions_wf(sessions),
    ensures
        sessions_wf(sessions_where(sessions, which)),
        sessions_where(sessions, which).len() <= sessions.len(),
        forall|i: int|
            0 <= i < sessions_where(sessions, which).len() ==> which(
                #[trigger] sessions_where(sessions, which)[i],
            ) && sessions.contains(sessions_where(sessions, which)[i]),
    decreases sessions.len(),
{
    if sessions.len() > 0 {
        let rest = sessions.drop_last();
        assert forall|i: int| 0 <= i < rest.len() implies is_a_handshake(#[trigger] rest[i]) by {
            assert(rest[i] == sessions[i]);
        }
        lemma_sessions_where(rest, which);
        let before = sessions_where(rest, which);
        let chosen = sessions_where(sessions, which);
        assert forall|i: int| 0 <= i < chosen.len() implies which(#[trigger] chosen[i])
            && is_a_handshake(chosen[i]) && sessions.contains(chosen[i]) by {
            if i < before.len() {
                assert(chosen[i] == before[i]);
                assert(rest.contains(before[i]));
                let k = choose|k: int| 0 <= k < rest.len() && rest[k] == before[i];
                assert(sessions[k] == chosen[i]);
            } else {
                assert(sessions[sessions.len() - 1] == chosen[i]);
            }
        }
        assert forall|i: int, j: int| 0 <= i < j < chosen.len() implies (#[trigger] chosen[i]).id
            != (#[trigger] chosen[j]).id by {
            assert(chosen[i] == before[i]);
            if j < before.len() {
                assert(chosen[j] == before[j]);
            } else {
                assert(rest.contains(before[i]));
                let k = choose|k: int| 0 <= k < rest.len() && rest[k] == before[i];
                assert(sessions[k] == chosen[i]);
                assert(sessions[sessions.len() - 1] == chosen[j]);
            }
        }
    }
}

/// Sessions of which one changed and kept its id.
pub(crate) proof fn lemma_changed_session(sessions: Seq<SessionView>, at: int, changed: SessionView)
    requires
        sessions_wf(sessions),
        0 <= at < sessions.len(),
        changed.id == sessions[at].id,
        is_a_handshake(changed),
    ensures
        sessions_wf(sessions.update(at, changed)),
{
    let after = sessions.update(at, changed);
    assert forall|i: int, j: int| 0 <= i < j < after.len() implies (#[trigger] after[i]).id != (
    #[trigger] after[j]).id by {
        assert(sessions[i].id != sessions[j].id);
    }
}

/// Sessions of which one is gone.
pub(crate) proof fn lemma_removed_session(sessions: Seq<SessionView>, at: int)
    requires
        sessions_wf(sessions),
        0 <= at < sessions.len(),
    ensures
        sessions_wf(sessions.remove(at)),
        !has_session(sessions.remove(at), sessions[at].id),
{
    let after = sessions.remove(at);
    assert forall|i: int, j: int| 0 <= i < j < after.len() implies (#[trigger] after[i]).id != (
    #[trigger] after[j]).id by {
        let k = if i < at {
            i
        } else {
            i + 1
        };
        let l = if j < at {
            j
        } else {
            j + 1
        };
        assert(sessions[k].id != sessions[l].id);
    }
    assert forall|i: int| 0 <= i < after.len() implies is_a_handshake(#[trigger] after[i]) by {
        if i < at {
            assert(after[i] == sessions[i]);
        } else {
            assert(after[i] == sessions[i + 1]);
        }
    }
    assert forall|i: int| 0 <= i < after.len() implies (#[trigger] after[i]).id
        != sessions[at].id by {
        if i < at {
            assert(sessions[i].id != sessions[at].id);
        } else {
            assert(sessions[at].id != sessions[i + 1].id);
        }
    }
}

impl Pairings {
    pub open spec fn wf(self) -> bool {
        sessions_wf(self@)
    }

    fn find(&self, id: &str) -> (at: Option<usize>)
        requires
            self.wf(),
        ensures
            at is Some <==> has_session(self@, id@),
            at matches Some(at) ==> at < self.sessions@.len() && at == session_at(self@, id@)
                && self@[at as int] == self.sessions@[at as int]@ && self@[at as int].id == id@,
    {
        for i in 0..self.sessions.len()
            invariant
                self.wf(),
                forall|j: int| 0 <= j < i ==> (#[trigger] self@[j]).id != id@,
        {
            assert(self@[i as int] == self.sessions@[i as int]@);
            if text::same(self.sessions[i].id.as_str(), id) {
                return Some(i);
            }
        }
        None
    }

    /// A session that is there and has not run out.
    fn live(&mut self, id: &str, now: u64) -> (at: Result<usize>)
        requires
            old(self).wf(),
        ensures
            final(self).wf(),
            final(self)@ == asked_for(old(self)@, id@, now),
            at is Ok <==> is_live(old(self)@, id@, now),
            at matches Ok(at) ==> at < final(self).sessions@.len() && at == session_at(
                final(self)@,
                id@,
            ) && final(self)@ == old(self)@ && final(self)@[at as int]
                == final(self).sessions@[at as int]@ && final(self)@[at as int].id == id@,
            at matches Err(error) ==> error@ == Refusal::NotFound,
    {
        match self.find(id) {
            Some(at) => {
                if self.sessions[at].expires_ms > now {
                    Ok(at)
                } else {
                    proof {
                        lemma_removed_session(self@, at as int);
                    }
                    let ghost before = self@;
                    let _ = self.sessions.remove(at);
                    assert(self@ =~= before.remove(at as int));
                    Err(ApiError::NotFound)
                }
            },
            None => Err(ApiError::NotFound),
        }
    }

    /// Forget the sessions that have run out.
    fn sweep(&mut self, now: u64)
        requires
            old(self).wf(),
        ensures
            final(self).wf(),
            final(self)@ == sessions_where(old(self)@, running(now)),
    {
        let ghost all = self@;
        let ghost which = running(now);
        let ghost mut seen: int = 0;
        let mut at: usize = 0;
        assert(sessions_where(all.take(0), which) =~= Seq::empty());
        assert(all.skip(0) =~= all);
        while at < self.sessions.len()
            invariant
                all == old(self)@,
                which == running(now),
                0 <= seen <= all.len(),
                self@ =~= sessions_where(all.take(seen), which) + all.skip(seen),
                at == sessions_where(all.take(seen), which).len(),
            decreases all.len() - seen,
        {
            proof {
                assert(self@[at as int] == all[seen]);
                assert(self@[at as int] == self.sessions@[at as int]@);
                assert(all.take(seen + 1).drop_last() =~= all.take(seen));
                assert(all.take(seen + 1).last() == all[seen]);
            }
            let ghost earlier = self@;
            if self.sessions[at].expires_ms > now {
                at = at + 1;
            } else {
                let _ = self.sessions.remove(at);
                assert(self@ =~= earlier.remove(at as int));
            }
            proof {
                seen = seen + 1;
            }
        }
        proof {
            assert(all.skip(seen).len() == 0);
            assert(all.take(seen) =~= all);
            assert(self@ =~= sessions_where(all, which));
            lemma_sessions_where(all, which);
        }
    }

    fn opened_by_account(&self, account: Uuid) -> (count: usize)
        ensures
            count == sessions_of(self@, account),
    {
        let mut count: usize = 0;
        for i in 0..self.sessions.len()
            invariant
                count == sessions_of(self@.take(i as int), account),
                count <= i,
        {
            assert(self@.take(i + 1).drop_last() =~= self@.take(i as int));
            assert(self@.take(i + 1).last() == self.sessions@[i as int]@);
            if self.sessions[i].account == account {
                count = count + 1;
            }
        }
        assert(self@.take(self@.len() as int) =~= self@);
        count
    }

    /// Open a session under an id, at a given time, unless the id is taken.
    /// Returns whether it was opened.
    pub fn open_at(&mut self, id: &str, account: Uuid, device: Uuid, now: u64) -> (opened: Result<
        bool,
    >)
        requires
            old(self).wf(),
        ensures
            final(self).wf(),
            ({
                let kept = sessions_where(old(self)@, running(now));
                match opened {
                    Err(error) => {
                        &&& !may_open(kept, account)
                        &&& error@ == Refusal::RateLimited
                        &&& final(self)@ == kept
                    },
                    Ok(opened) => {
                        &&& may_open(kept, account)
                        &&& opened == !has_session(kept, id@)
                        &&& final(self)@ == if opened {
                            kept.push(fresh_session(id@, account, device, now))
                        } else {
                            kept
                        }
                    },
                }
            }),
    {
        self.sweep(now);
        if self.opened_by_account(account) >= OPEN_PER_ACCOUNT || self.sessions.len()
            >= OPEN_IN_ALL {
            return Err(ApiError::RateLimited);
        }
        if self.find(id).is_some() {
            return Ok(false);
        }
        let ghost kept = self@;
        let session: Session = Session {
            id: id.to_owned(),
            account,
            device,
            claim: None,
            from_a: Vec::new(),
            from_b: Vec::new(),
            expires_ms: now.saturating_add(TTL_MS),
        };
        proof {
            assert(session@.from_a =~= Seq::empty());
            assert(session@.from_b =~= Seq::empty());
        }
        self.sessions.push(session);
        assert(self@ =~= kept.push(session@));
        Ok(true)
    }

    /// An id that no session has.
    fn free_id(&self) -> (id: String)
        requires
            self.wf(),
            self@.len() < OPEN_IN_ALL,
        ensures
            is_code(id@),
            !has_session(self@, id@),
    {
        let mut tries: usize = 0;
        while tries < ID_ATTEMPTS
            invariant
                self.wf(),
            decreases ID_ATTEMPTS - tries,
        {
            let id: String = code();
            if self.find(id.as_str()).is_none() {
                return id;
            }
            tries = tries + 1;
        }
        let ghost ids = self@.map_values(|session: SessionView| session.id);
        let ghost mut taken = Set::<Seq<char>>::empty();
        let mut n: u16 = 0;
        loop
            invariant
                self.wf(),
                self@.len() < OPEN_IN_ALL,
                ids == self@.map_values(|session: SessionView| session.id),
                n <= self@.len(),
                taken.finite(),
                taken.len() == n,
                forall|id: Seq<char>| #[trigger] taken.contains(id) ==> ids.contains(id),
                forall|id: Seq<char>| #[trigger]
                    taken.contains(id) ==> exists|m: int|
                        0 <= m < n && id == code_text(#[trigger] numbered(m)),
            decreases self@.len() - n,
        {
            let bytes: [u8; 5] = [
                0,
                0,
                (n / 900 % 30) as u8,
                (n / 30 % 30) as u8,
                (n % 30) as u8,
            ];
            assert(bytes@ =~= numbered(n as int));
            let id: String = code_from(&bytes);
            if self.find(id.as_str()).is_none() {
                return id;
            }
            proof {
                let at = session_at(self@, id@);
                assert(ids[at] == id@);
                if taken.contains(id@) {
                    let m = choose|m: int|
                        0 <= m < n && id@ == code_text(#[trigger] numbered(m));
                    lemma_ids_differ(n as int, m);
                }
                taken = taken.insert(id@);
                vstd::seq_lib::seq_to_set_is_finite(ids);
                ids.lemma_cardinality_of_set();
                assert(taken.subset_of(ids.to_set()));
                vstd::set_lib::lemma_len_subset(taken, ids.to_set());
            }
            n = n + 1;
        }
    }

    /// [`open`](Self::open) at a given time.
    pub fn open_now(&mut self, account: Uuid, device: Uuid, now: u64) -> (opened: Result<String>)
        requires
            old(self).wf(),
        ensures
            final(self).wf(),
            open_done(old(self)@, final(self)@, account, device, now, opened),
    {
        self.sweep(now);
        proof {
            lemma_running_twice(old(self)@, now);
        }
        if self.sessions.len() >= OPEN_IN_ALL {
            return Err(ApiError::RateLimited);
        }
        let id: String = self.free_id();
        match self.open_at(id.as_str(), account, device, now) {
            Ok(_) => Ok(id),
            Err(error) => Err(error),
        }
    }

    /// Open a session and return the short id that names it. The words that go
    /// with it are the client's business: they are the SPAKE2 password, and
    /// this server must never see them.
    pub fn open(&mut self, account: Uuid, device: Uuid) -> (opened: Result<String>)
        requires
            old(self).wf(),
        ensures
            final(self).wf(),
            exists|now: u64| #[trigger]
                open_done(old(self)@, final(self)@, account, device, now, opened),
    {
        let now: u64 = now_ms();
        self.open_now(account, device, now)
    }

    /// [`post`](Self::post) at a given time.
    pub fn post_at(&mut self, id: &str, side: Side, message: Vec<u8>, now: u64) -> (posted: Result<
        (),
    >)
        requires
            old(self).wf(),
        ensures
            final(self).wf(),
            post_done(old(self)@, final(self)@, id@, side, message@, now, refused(posted)),
    {
        if message.len() > MAX_MESSAGE_BYTES {
            return Err(ApiError::TooLarge("a pairing message".to_owned()));
        }
        if message.is_empty() {
            return Err(ApiError::Invalid("an empty pairing message".to_owned()));
        }
        let at: usize = match self.live(id, now) {
            Ok(at) => at,
            Err(error) => {
                return Err(error);
            },
        };
        let said: usize = match side {
            Side::A => self.sessions[at].from_a.len(),
            Side::B => self.sessions[at].from_b.len(),
        };
        if said >= MAX_MESSAGES {
            return Err(
                ApiError::Invalid("that is more messages than a handshake takes".to_owned()),
            );
        }
        let ghost before = self@;
        let ghost bytes = message@;
        let ghost held = self.sessions@[at as int]@;
        match side {
            Side::A => {
                self.sessions[at].from_a.push(message);
            },
            Side::B => {
                self.sessions[at].from_b.push(message);
            },
        }
        proof {
            let changed = held.with_message(side, bytes);
            assert(self.sessions@[at as int]@.from_a =~= changed.from_a);
            assert(self.sessions@[at as int]@.from_b =~= changed.from_b);
            assert(self@ =~= before.update(at as int, changed));
            lemma_changed_session(before, at as int, changed);
        }
        Ok(())
    }

    /// Put a message in for the other side.
    pub fn post(&mut self, id: &str, side: Side, message: Vec<u8>) -> (posted: Result<()>)
        requires
            old(self).wf(),
        ensures
            final(self).wf(),
            exists|now: u64| #[trigger]
                post_done(old(self)@, final(self)@, id@, side, message@, now, refused(posted)),
    {
        let now: u64 = now_ms();
        self.post_at(id, side, message, now)
    }

    /// [`read`](Self::read) at a given time.
    pub fn read_at(&mut self, id: &str, side: Side, after: usize, now: u64) -> (heard: Result<
        Vec<Vec<u8>>,
    >)
        requires
            old(self).wf(),
        ensures
            final(self).wf(),
            final(self)@ == asked_for(old(self)@, id@, now),
            heard is Ok <==> is_live(old(self)@, id@, now),
            heard matches Ok(heard) ==> blobs_view(heard@) == heard_after(
                session(old(self)@, id@),
                side,
                after,
            ),
            heard matches Err(error) ==> error@ == Refusal::NotFound,
    {
        let at: usize = match self.live(id, now) {
            Ok(at) => at,
            Err(error) => {
                return Err(error);
            },
        };
        let messages: &Vec<Vec<u8>> = match side.other() {
            Side::A => &self.sessions[at].from_a,
            Side::B => &self.sessions[at].from_b,
        };
        let ghost said = blobs_view(messages@);
        assert(said == self@[at as int].said(side.other_side()));
        let mut heard: Vec<Vec<u8>> = Vec::new();
        assert(blobs_view(heard@) =~= Seq::empty());
        if after < messages.len() {
            for i in after..messages.len()
                invariant
                    after < messages@.len(),
                    said == blobs_view(messages@),
                    blobs_view(heard@) == said.subrange(after as int, i as int),
            {
                let ghost earlier = blobs_view(heard@);
                heard.push(vstd::slice::slice_to_vec(messages[i].as_slice()));
                assert(blobs_view(heard@) =~= earlier.push(said[i as int]));
                assert(blobs_view(heard@) =~= said.subrange(after as int, i + 1));
            }
            assert(said.subrange(after as int, said.len() as int) =~= said.skip(after as int));
        }
        Ok(heard)
    }

    /// What the other side has said, from `after` onwards.
    pub fn read(&mut self, id: &str, side: Side, after: usize) -> (heard: Result<Vec<Vec<u8>>>)
        requires
            old(self).wf(),
        ensures
            final(self).wf(),
            exists|now: u64|
                final(self)@ == asked_for(old(self)@, id@, now) && (heard is Ok
                    <==> #[trigger] is_live(old(self)@, id@, now)),
            heard matches Ok(heard) ==> blobs_view(heard@) == heard_after(
                session(old(self)@, id@),
                side,
                after,
            ),
            heard matches Err(error) ==> error@ == Refusal::NotFound,
    {
        let now: u64 = now_ms();
        self.read_at(id, side, after, now)
    }

    /// Which account a session belongs to, for closing one, which only that
    /// account may do, at a given time.
    pub fn account_of_at(&mut self, id: &str, now: u64) -> (account: Result<Uuid>)
        requires
            old(self).wf(),
        ensures
            final(self).wf(),
            final(self)@ == asked_for(old(self)@, id@, now),
            account is Ok <==> is_live(old(self)@, id@, now),
            account matches Ok(account) ==> account == session(old(self)@, id@).account,
            account matches Err(error) ==> error@ == Refusal::NotFound,
    {
        match self.live(id, now) {
            Ok(at) => Ok(self.sessions[at].account),
            Err(error) => Err(error),
        }
    }

    /// Which account a session belongs to.
    pub fn account_of(&mut self, id: &str) -> (account: Result<Uuid>)
        requires
            old(self).wf(),
        ensures
            final(self).wf(),
            exists|now: u64|
                final(self)@ == asked_for(old(self)@, id@, now) && (account is Ok
                    <==> #[trigger] is_live(old(self)@, id@, now)),
            account matches Ok(account) ==> account == session(old(self)@, id@).account,
            account matches Err(error) ==> error@ == Refusal::NotFound,
    {
        let now: u64 = now_ms();
        self.account_of_at(id, now)
    }

    /// Whether somebody may speak for a side, at a given time. The first one
    /// to come with a secret for side b keeps that side.
    pub fn speak_at(
        &mut self,
        id: &str,
        side: Side,
        device: Option<Uuid>,
        claim: Option<&str>,
        now: u64,
    ) -> (allowed: Result<()>)
        requires
            old(self).wf(),
        ensures
            final(self).wf(),
            allowed is Ok <==> is_live(old(self)@, id@, now) && may_speak(
                session(old(self)@, id@),
                side,
                device,
                text::str_view(claim),
            ),
            allowed is Ok ==> final(self)@ == if side == Side::B {
                old(self)@.update(
                    session_at(old(self)@, id@),
                    SessionView { claim: text::str_view(claim), ..session(old(self)@, id@) },
                )
            } else {
                old(self)@
            },
            allowed matches Err(error) ==> {
                &&& error@ == if is_live(old(self)@, id@, now) {
                    Refusal::Unauthorized
                } else {
                    Refusal::NotFound
                }
                &&& final(self)@ == asked_for(old(self)@, id@, now)
            },
    {
        let at: usize = match self.live(id, now) {
            Ok(at) => at,
            Err(error) => {
                return Err(error);
            },
        };
        let ghost before = self@;
        let ghost held = self.sessions@[at as int]@;
        match side {
            Side::A => match device {
                Some(device) if device == self.sessions[at].device => Ok(()),
                _ => Err(ApiError::Unauthorized),
            },
            Side::B => match claim {
                None => Err(ApiError::Unauthorized),
                Some(claim) => {
                    let held_by_another: bool = match &self.sessions[at].claim {
                        Some(held) => !text::same(held.as_str(), claim),
                        None => false,
                    };
                    if held_by_another {
                        return Err(ApiError::Unauthorized);
                    }
                    self.sessions[at].claim = Some(claim.to_owned());
                    proof {
                        let changed = SessionView { claim: Some(claim@), ..held };
                        assert(self@ =~= before.update(at as int, changed));
                        lemma_changed_session(before, at as int, changed);
                    }
                    Ok(())
                },
            },
        }
    }

    /// Done, or given up. Either way it is over.
    pub fn close(&mut self, id: &str) -> (closed: bool)
        requires
            old(self).wf(),
        ensures
            final(self).wf(),
            closed == has_session(old(self)@, id@),
            final(self)@ == if closed {
                old(self)@.remove(session_at(old(self)@, id@))
            } else {
                old(self)@
            },
    {
        match self.find(id) {
            Some(at) => {
                proof {
                    lemma_removed_session(self@, at as int);
                }
                let ghost before = self@;
                let _ = self.sessions.remove(at);
                assert(self@ =~= before.remove(at as int));
                true
            },
            None => false,
        }
    }

    /// The sessions a device opened, gone with it. Returns how many there were.
    pub fn close_opened_by(&mut self, device: Uuid) -> (closed: usize)
        requires
            old(self).wf(),
        ensures
            final(self).wf(),
            final(self)@ == sessions_where(old(self)@, opened_by_others(device)),
            closed + final(self)@.len() == old(self)@.len(),
    {
        let ghost all = self@;
        let ghost which = opened_by_others(device);
        let ghost mut seen: int = 0;
        let before: usize = self.sessions.len();
        let mut at: usize = 0;
        assert(sessions_where(all.take(0), which) =~= Seq::empty());
        assert(all.skip(0) =~= all);
        while at < self.sessions.len()
            invariant
                all == old(self)@,
                which == opened_by_others(device),
                0 <= seen <= all.len(),
                self@ =~= sessions_where(all.take(seen), which) + all.skip(seen),
                at == sessions_where(all.take(seen), which).len(),
            decreases all.len() - seen,
        {
            proof {
                assert(self@[at as int] == all[seen]);
                assert(self@[at as int] == self.sessions@[at as int]@);
                assert(all.take(seen + 1).drop_last() =~= all.take(seen));
                assert(all.take(seen + 1).last() == all[seen]);
            }
            let ghost earlier = self@;
            if self.sessions[at].device != device {
                at = at + 1;
            } else {
                let _ = self.sessions.remove(at);
                assert(self@ =~= earlier.remove(at as int));
            }
            proof {
                seen = seen + 1;
            }
        }
        proof {
            assert(all.skip(seen).len() == 0);
            assert(all.take(seen) =~= all);
            assert(self@ =~= sessions_where(all, which));
            lemma_sessions_where(all, which);
        }
        before - self.sessions.len()
    }

    /// [`len`](Self::len) at a given time.
    pub fn len_at(&mut self, now: u64) -> (len: usize)
        requires
            old(self).wf(),
        ensures
            final(self).wf(),
            final(self)@ == sessions_where(old(self)@, running(now)),
            len == final(self)@.len(),
    {
        self.sweep(now);
        self.sessions.len()
    }

    /// How many sessions are open.
    pub fn len(&mut self) -> (len: usize)
        requires
            old(self).wf(),
        ensures
            final(self).wf(),
            exists|now: u64| final(self)@ == sessions_where(old(self)@, #[trigger] running(now)),
            len == final(self)@.len(),
    {
        let now: u64 = now_ms();
        self.len_at(now)
    }

    pub fn is_empty(&mut self) -> (empty: bool)
        requires
            old(self).wf(),
        ensures
            final(self).wf(),
            exists|now: u64| final(self)@ == sessions_where(old(self)@, #[trigger] running(now)),
            empty == (final(self)@.len() == 0),
    {
        self.len() == 0
    }
}

/// What one side hears: what the other said, from `after` onwards.
pub open spec fn heard_after(session: SessionView, side: Side, after: usize) -> Seq<Seq<u8>> {
    let said = session.said(side.other_side());
    if after < said.len() {
        said.skip(after as int)
    } else {
        Seq::empty()
    }
}

proof fn lemma_running_twice(sessions: Seq<SessionView>, now: u64)
    requires
        sessions_wf(sessions),
    ensures
        sessions_where(sessions_where(sessions, running(now)), running(now)) == sessions_where(
            sessions,
            running(now),
        ),
{
    let kept = sessions_where(sessions, running(now));
    lemma_sessions_where(sessions, running(now));
    lemma_all_of_them(kept, running(now));
}

proof fn lemma_all_of_them(sessions: Seq<SessionView>, which: spec_fn(SessionView) -> bool)
    requires
        forall|i: int| 0 <= i < sessions.len() ==> which(#[trigger] sessions[i]),
    ensures
        sessions_where(sessions, which) == sessions,
    decreases sessions.len(),
{
    if sessions.len() > 0 {
        let rest = sessions.drop_last();
        assert forall|i: int| 0 <= i < rest.len() implies which(#[trigger] rest[i]) by {
            assert(rest[i] == sessions[i]);
        }
        lemma_all_of_them(rest, which);
        assert(which(sessions[sessions.len() - 1]));
        assert(rest.push(sessions.last()) =~= sessions);
    } else {
        assert(sessions_where(sessions, which) =~= sessions);
    }
}

impl Default for Pairings {
    fn default() -> (pairings: Self)
        ensures
            pairings.wf(),
            pairings@ == Seq::<SessionView>::empty(),
    {
        let pairings: Pairings = Pairings { sessions: Vec::new() };
        assert(pairings@ =~= Seq::empty());
        pairings
    }
}

} // verus!
