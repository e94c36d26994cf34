//! The mailbox: take records, hand records back, and say when there is news.

use crate::auth::Authenticated;
use crate::db::accounts::Account;
use crate::db::devices::{self, seen_db};
use crate::db::records::{self, countable, mailbox, page_of, push_done};
use crate::error::{refused, ApiError, Refusal, Result};
use crate::ids::Uuid;
use crate::limits::{self, account_key, going_count, member_refused, started, Going};
use crate::proto::{
    envelopes_view, Envelope, EnvelopeView, PullResponse, PullResponseView, PushResponse,
    MAX_BATCH,
};
use crate::state::{streams_of, stream_opened, AppState, StateView, StreamGuard};
use crate::{now_ms, text};
use vstd::prelude::*;

verus! {

/// What a device asks of a pull.
#[derive(Debug, Clone, Copy)]
pub struct PullQuery {
    pub since: u64,
    pub limit: Option<usize>,
    /// Set by clients that know manifests. One from before them fails to
    /// read a whole page with a record kind it has never heard of, so it
    /// gets none. Clients send `manifests=1`.
    pub manifests: u8,
}

/// How many records a query asks for.
pub open spec fn asked_limit(query: PullQuery) -> usize {
    match query.limit {
        Some(limit) if limit < MAX_BATCH => limit,
        _ => MAX_BATCH,
    }
}

/// The page a query asks for.
pub open spec fn asked_page(state: StateView, account: Account, query: PullQuery) -> PullResponseView {
    page_of(
        account.vault_id,
        mailbox(state.db, account.id),
        query.since,
        asked_limit(query),
        query.manifests != 0,
    )
}

/// The smaller of two numbers.
pub open spec fn at_most(number: u64, most: u64) -> u64 {
    if number < most {
        number
    } else {
        most
    }
}

/// What a pull does and is answered. How far the device has read decides what
/// the server may forget, so never further than there is: a device with a
/// cursor from another server, or from before a restore, must not let
/// tombstones go it never saw.
pub open spec fn pull_done(
    before: StateView,
    after: StateView,
    account: Account,
    device: Uuid,
    query: PullQuery,
    now: u64,
    tick: u64,
    outcome: Result<(PullResponse, Going)>,
) -> bool {
    let counted = before.counting_member(account_key(account.id), limits::pull(), tick);
    let key = (account.id, limits::pulls().name@);
    if member_refused(before.limits.hits, account_key(account.id), tick, limits::pull())
        || going_count(before.limits, key) >= limits::pulls().max {
        refused(outcome) == Some(Refusal::RateLimited) && after == counted
    } else {
        let page = asked_page(before, account, query);
        &&& outcome matches Ok((given, going)) && given@ == page && going.key() == key
        &&& after == (StateView {
            limits: started(counted.limits, key),
            db: seen_db(before.db, device, at_most(page.cursor.0, account.seq), now),
            ..counted
        })
    }
}

/// What asking to pull does and is answered, before anything is looked up.
pub open spec fn pull_admitted(
    before: StateView,
    after: StateView,
    account: Uuid,
    tick: u64,
    outcome: Result<Going>,
) -> bool {
    let counted = before.counting_member(account_key(account), limits::pull(), tick);
    let key = (account, limits::pulls().name@);
    if member_refused(before.limits.hits, account_key(account), tick, limits::pull())
        || going_count(before.limits, key) >= limits::pulls().max {
        refused(outcome) == Some(Refusal::RateLimited) && after == counted
    } else {
        &&& outcome matches Ok(going) && going.key() == key
        &&& after == (StateView { limits: started(counted.limits, key), ..counted })
    }
}

/// [`admit_pull`] at a given moment.
pub fn admit_pull_at(state: &mut AppState, auth: &Authenticated, tick: u64) -> (outcome: Result<
    Going,
>)
    requires
        old(state).wf(),
    ensures
        final(state).wf(),
        pull_admitted(old(state)@, final(state)@, auth.account.id, tick, outcome),
{
    state.limits.check_account_at(auth.account.id, &limits::pull(), tick)?;
    state.limits.start(auth.account.id, &limits::pulls())
}

/// Whether an account may pull, counted before anything is looked up: a page
/// may be 8 MiB.
pub fn admit_pull(state: &mut AppState, auth: &Authenticated) -> (outcome: Result<Going>)
    requires
        old(state).wf(),
    ensures
        final(state).wf(),
        exists|tick: u64| #[trigger]
            pull_admitted(old(state)@, final(state)@, auth.account.id, tick, outcome),
{
    let tick: u64 = state.limits.now();
    admit_pull_at(state, auth, tick)
}

/// The state once a device was given a page.
pub open spec fn after_page(
    state: StateView,
    account: Account,
    device: Uuid,
    query: PullQuery,
    now: u64,
) -> StateView {
    let page = asked_page(state, account, query);
    StateView { db: seen_db(state.db, device, at_most(page.cursor.0, account.seq), now), ..state }
}

/// [`page`] at a given time.
pub fn page_at(state: &mut AppState, auth: &Authenticated, query: &PullQuery, now: u64) -> (page:
    Result<PullResponse>)
    requires
        old(state).wf(),
    ensures
        final(state).wf(),
        page matches Ok(page) && page@ == asked_page(old(state)@, auth.account, *query),
        final(state)@ == after_page(old(state)@, auth.account, auth.device.id, *query, now),
{
    let limit: usize = match query.limit {
        Some(limit) if limit < MAX_BATCH => limit,
        _ => MAX_BATCH,
    };
    let page: PullResponse = records::pull(
        &state.db,
        &auth.account,
        query.since,
        limit,
        query.manifests != 0,
    )?;
    let cursor: u64 = if page.cursor.0 < auth.account.seq {
        page.cursor.0
    } else {
        auth.account.seq
    };
    devices::seen_at(&mut state.db, auth.device.id, cursor, now);
    Ok(page)
}

/// The page that a device which may pull asks for.
pub fn page(state: &mut AppState, auth: &Authenticated, query: &PullQuery) -> (page: Result<
    PullResponse,
>)
    requires
        old(state).wf(),
    ensures
        final(state).wf(),
        page matches Ok(page) && page@ == asked_page(old(state)@, auth.account, *query),
        exists|now: u64|
            final(state)@ == #[trigger] after_page(
                old(state)@,
                auth.account,
                auth.device.id,
                *query,
                now,
            ),
{
    let now: u64 = now_ms();
    page_at(state, auth, query, now)
}

/// [`pull`] at a given time.
pub fn pull_at(
    state: &mut AppState,
    auth: &Authenticated,
    query: &PullQuery,
    now: u64,
    tick: u64,
) -> (outcome: Result<(PullResponse, Going)>)
    requires
        old(state).wf(),
    ensures
        final(state).wf(),
        pull_done(
            old(state)@,
            final(state)@,
            auth.account,
            auth.device.id,
            *query,
            now,
            tick,
            outcome,
        ),
{
    let going: Going = admit_pull_at(state, auth, tick)?;
    let page: PullResponse = page_at(state, auth, query, now)?;
    Ok((page, going))
}

/// Everything after a cursor. The device's own records come back too: it
/// costs one pass and lets a device check that what the server stored is what
/// it sent.
///
/// A page is up to 11 MiB, and it is held until the client has read it, so
/// it counts as one of the account's pulls until then, not only until it is
/// made: what comes back with it is to be finished when it has been read.
pub fn pull(state: &mut AppState, auth: &Authenticated, query: &PullQuery) -> (outcome: Result<
    (PullResponse, Going),
>)
    requires
        old(state).wf(),
    ensures
        final(state).wf(),
        exists|now: u64, tick: u64| #[trigger]
            pull_done(
                old(state)@,
                final(state)@,
                auth.account,
                auth.device.id,
                *query,
                now,
                tick,
                outcome,
            ),
{
    let now: u64 = now_ms();
    let tick: u64 = state.limits.now();
    pull_at(state, auth, query, now, tick)
}

/// What asking to push does and is answered, before anything is read.
pub open spec fn push_admitted(
    before: StateView,
    after: StateView,
    account: Uuid,
    tick: u64,
    outcome: Result<Going>,
) -> bool {
    let counted = before.counting_member(account_key(account), limits::push(), tick);
    let key = (account, limits::pushes().name@);
    if member_refused(before.limits.hits, account_key(account), tick, limits::push())
        || going_count(before.limits, key) >= limits::pushes().max {
        refused(outcome) == Some(Refusal::RateLimited) && after == counted
    } else {
        &&& outcome matches Ok(going) && going.key() == key
        &&& after == (StateView { limits: started(counted.limits, key), ..counted })
    }
}

/// [`admit_push`] at a given moment.
pub fn admit_push_at(state: &mut AppState, auth: &Authenticated, tick: u64) -> (outcome: Result<
    Going,
>)
    requires
        old(state).wf(),
    ensures
        final(state).wf(),
        push_admitted(old(state)@, final(state)@, auth.account.id, tick, outcome),
{
    state.limits.check_account_at(auth.account.id, &limits::push(), tick)?;
    state.limits.start(auth.account.id, &limits::pushes())
}

/// Whether an account may push, before the request is read: it may be 16 MiB.
/// What comes back is to be finished when the push has been answered.
pub fn admit_push(state: &mut AppState, auth: &Authenticated) -> (outcome: Result<Going>)
    requires
        old(state).wf(),
    ensures
        final(state).wf(),
        exists|tick: u64| #[trigger]
            push_admitted(old(state)@, final(state)@, auth.account.id, tick, outcome),
{
    let tick: u64 = state.limits.now();
    admit_push_at(state, auth, tick)
}

/// What a push that was admitted does and is answered. A client from another
/// schema is turned away before anything is stored.
pub open spec fn push_answered(
    before: StateView,
    after: StateView,
    account: Account,
    device: Uuid,
    schema: u32,
    known: u32,
    envelopes: Seq<EnvelopeView>,
    now: u64,
    outcome: Result<PushResponse>,
) -> bool {
    if schema != known {
        refused(outcome) == Some(Refusal::Schema { found: schema, known }) && after == before
    } else {
        &&& push_done(
            before.db,
            after.db,
            account,
            device,
            envelopes,
            before.config.quota,
            now,
            outcome,
        )
        &&& after == (StateView { db: after.db, ..before })
    }
}

/// [`push`] at a given time.
pub fn push_at(
    state: &mut AppState,
    auth: &Authenticated,
    schema: u32,
    known: u32,
    envelopes: &[Envelope],
    now: u64,
) -> (outcome: Result<PushResponse>)
    requires
        old(state).wf(),
        countable(old(state)@.db, auth.account.id),
    ensures
        final(state).wf(),
        push_answered(
            old(state)@,
            final(state)@,
            auth.account,
            auth.device.id,
            schema,
            known,
            envelopes_view(envelopes@),
            now,
            outcome,
        ),
{
    if schema != known {
        return Err(ApiError::Schema { found: schema, known });
    }
    records::push_at(
        &mut state.db,
        &auth.account,
        auth.device.id,
        envelopes,
        state.config.quota,
        now,
    )
}

/// Offer records. Where some were taken, the account's other devices are to
/// hear of it: see [`news`].
pub fn push(
    state: &mut AppState,
    auth: &Authenticated,
    schema: u32,
    known: u32,
    envelopes: &[Envelope],
) -> (outcome: Result<PushResponse>)
    requires
        old(state).wf(),
        countable(old(state)@.db, auth.account.id),
    ensures
        final(state).wf(),
        exists|now: u64| #[trigger]
            push_answered(
                old(state)@,
                final(state)@,
                auth.account,
                auth.device.id,
                schema,
                known,
                envelopes_view(envelopes@),
                now,
                outcome,
            ),
{
    let now: u64 = now_ms();
    push_at(state, auth, schema, known, envelopes, now)
}

/// What the devices of an account hear after a push: how far there is to read
/// now, if it was anything that was taken.
pub fn news(response: &PushResponse) -> (seq: Option<u64>)
    ensures
        seq == if response@.accepted.len() > 0 {
            Some(response@.cursor.0)
        } else {
            None
        },
{
    if response.accepted.is_empty() {
        None
    } else {
        Some(response.cursor.0)
    }
}

/// How often an open event stream asks whether its token is still good.
pub const RECHECK_SECS: u64 = 30;

/// Room for an event stream of the device that asks.
pub fn events(state: &mut AppState, auth: &Authenticated) -> (stream: Result<StreamGuard>)
    requires
        old(state).wf(),
    ensures
        final(state).wf(),
        stream is Ok <==> streams_of(old(state)@.events, auth.device.id)
            < crate::state::MAX_STREAMS_PER_DEVICE,
        stream matches Ok(stream) ==> stream.of() == auth.device.id && final(state)@ == (StateView {
            events: stream_opened(old(state)@.events, auth.device.id),
            ..old(state)@
        }),
        stream matches Err(error) ==> error@ == Refusal::RateLimited && final(state)@
            == old(state)@,
{
    match state.events.open_stream(auth.device.id) {
        Some(stream) => Ok(stream),
        None => Err(ApiError::RateLimited),
    }
}

/// What happens to an event stream.
#[derive(Debug, Clone, Copy, PartialEq, Eq, Structural)]
pub enum StreamEvent {
    /// There is something new up to this number.
    News(u64),
    /// It missed a few.
    Lagged,
    /// There will be no more news.
    Closed,
    /// It is time to look whether it still has a right to be open.
    Recheck {
        /// Whether the device has gone away.
        gone: bool,
        /// Whether its token is still good and the device still in.
        still_in: bool,
    },
}

/// What an event stream does next.
#[derive(Debug)]
pub enum StreamStep {
    /// Send an event of the kind `records` with this data.
    Send(String),
    /// Wait for what happens next.
    Wait,
    /// It ends.
    End,
}

/// What an event stream does about something that happened.
///
/// "There is something new from sequence N." Nothing else is ever pushed out:
/// the device pulls, the same way it would have anyway.
///
/// A stream lasts as long as the token it was opened with. Every half minute
/// it asks whether that token is still good, and ends when it is not: a
/// revoked device must not go on hearing when the account changes, and an
/// expired token is the device's cue to sign in again and reconnect.
pub fn stream_step(event: StreamEvent) -> (step: StreamStep)
    ensures
        match event {
            StreamEvent::News(seq) => step matches StreamStep::Send(data) && data@
                == text::decimal_text(seq as nat),
            // The next one says the same thing better.
            StreamEvent::Lagged => step is Wait,
            StreamEvent::Closed => step is End,
            StreamEvent::Recheck { gone, still_in } => if gone || !still_in {
                step is End
            } else {
                step is Wait
            },
        },
{
    match event {
        StreamEvent::News(seq) => StreamStep::Send(text::decimal(seq as u128)),
        StreamEvent::Lagged => StreamStep::Wait,
        StreamEvent::Closed => StreamStep::End,
        StreamEvent::Recheck { gone, still_in } => {
            if gone || !still_in {
                StreamStep::End
            } else {
                StreamStep::Wait
            }
        },
    }
}

} // verus!
