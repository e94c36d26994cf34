//! Signing in: challenges, tokens, and who is behind a request.

use crate::api::session::{
    after_challenge, answered, first_answered, login_done, sign_in_counted, sign_in_key,
    sign_in_refused, Offered,
};
use crate::auth::{
    all_but, answerable, authenticate_done, bearer, blobs_view, bytes_of, challenge_issued,
    challenges_of, challenges_where, is_signed, is_still_in, of_others, oldest_of, oldest_token_of,
    other_than, session_of, still_good, strictly_signed, token_issued, tokens_differ, tokens_of,
    tokens_where, unexpired, Authenticated, ChallengeView, Session, TokenView,
};
use crate::db::DbView;
use crate::error::{refused, Refusal, Result};
use crate::ids::{uuid_text, Uuid};
use crate::limits;
use crate::promises::devices::a_device_is_seen;
use crate::proto::{LoginRequest, LoginResponse};
use crate::state::StateView;
use crate::{b64, text};
use vstd::prelude::*;

verus! {

/// Choosing among challenges, or among tokens, keeps those that are wanted, in
/// their order.
pub proof fn those_that_are_wanted_stay(
    issued: Seq<ChallengeView>,
    challenges: spec_fn(ChallengeView) -> bool,
    tokens: Seq<TokenView>,
    which: spec_fn(TokenView) -> bool,
)
    ensures
        challenges_where(issued, challenges) == issued.filter(challenges),
        tokens_where(tokens, which) == tokens.filter(which),
    decreases issued.len() + tokens.len(),
{
    reveal(Seq::filter);
    if issued.len() > 0 {
        those_that_are_wanted_stay(issued.drop_last(), challenges, tokens, which);
    }
    if tokens.len() > 0 {
        those_that_are_wanted_stay(issued, challenges, tokens.drop_last(), which);
    }
}

/// A challenge can be answered by the device it is for until its time is up; a
/// token is good until its own is.
pub proof fn what_is_wanted(
    challenge: ChallengeView,
    token: TokenView,
    device: Uuid,
    bytes: Seq<u8>,
    text: Seq<char>,
    now: u64,
)
    ensures
        unexpired(now)(challenge) <==> now < challenge.expires_ms,
        answerable(device, now)(challenge) <==> challenge.device == device && now
            < challenge.expires_ms,
        all_but(device, bytes)(challenge) <==> challenge.device != device || challenge.bytes
            != bytes,
        still_good(now)(token) <==> now < token.session.expires_ms,
        of_others(device)(token) <==> token.session.device_id != device,
        other_than(text)(token) <==> token.token != text,
{
}

proof fn lemma_counts(issued: Seq<ChallengeView>, tokens: Seq<TokenView>, device: Uuid)
    ensures
        challenges_of(issued, device) == issued.filter(
            |challenge: ChallengeView| challenge.device == device,
        ).len(),
        tokens_of(tokens, device) == tokens.filter(
            |token: TokenView| token.session.device_id == device,
        ).len(),
    decreases issued.len() + tokens.len(),
{
    reveal(Seq::filter);
    if issued.len() > 0 {
        lemma_counts(issued.drop_last(), tokens, device);
    }
    if tokens.len() > 0 {
        lemma_counts(issued, tokens.drop_last(), device);
    }
}

/// How many challenges and tokens a device has are those that are its own.
pub proof fn a_device_has_its_own(issued: Seq<ChallengeView>, tokens: Seq<TokenView>, device: Uuid)
    ensures
        challenges_of(issued, device) == issued.filter(
            |challenge: ChallengeView| challenge.device == device,
        ).len(),
        tokens_of(tokens, device) == tokens.filter(
            |token: TokenView| token.session.device_id == device,
        ).len(),
{
    lemma_counts(issued, tokens, device);
}

/// The oldest of a device is the first that is its own.
pub proof fn the_oldest_is_the_first(
    issued: Seq<ChallengeView>,
    tokens: Seq<TokenView>,
    device: Uuid,
    i: int,
    j: int,
)
    requires
        0 <= i < issued.len(),
        issued[i].device == device,
        0 <= j < tokens.len(),
        tokens[j].session.device_id == device,
    ensures
        0 <= oldest_of(issued, device) <= i,
        issued[oldest_of(issued, device)].device == device,
        0 <= oldest_token_of(tokens, device) <= j,
        tokens[oldest_token_of(tokens, device)].session.device_id == device,
    decreases i + j,
{
    if issued[0].device != device {
        assert(issued.skip(1)[i - 1] == issued[i]);
        the_oldest_is_the_first(issued.skip(1), tokens, device, i - 1, j);
        assert(issued.skip(1)[oldest_of(issued.skip(1), device)] == issued[1 + oldest_of(
            issued.skip(1),
            device,
        )]);
    }
    if tokens[0].session.device_id != device {
        assert(tokens.skip(1)[j - 1] == tokens[j]);
        the_oldest_is_the_first(issued, tokens.skip(1), device, i, j - 1);
        assert(tokens.skip(1)[oldest_token_of(tokens.skip(1), device)] == tokens[1
            + oldest_token_of(tokens.skip(1), device)]);
    }
}

/// A new challenge is for the device that asks and for a minute; what is over
/// goes, and of a device that has four the oldest. What others have stays.
pub proof fn a_challenge_is_for_a_minute(
    issued: Seq<ChallengeView>,
    device: Uuid,
    bytes: Seq<u8>,
    now: u64,
)
    requires
        now <= 10_000_000_000_000_000_000,
    ensures
        ({
            let after = challenge_issued(issued, device, bytes, now);
            let live = issued.filter(|challenge: ChallengeView| now < challenge.expires_ms);
            &&& after.len() > 0
            &&& after.last().device == device
            &&& after.last().bytes == bytes
            &&& after.last().expires_ms == now + 60_000
            &&& live.filter(|challenge: ChallengeView| challenge.device == device).len() < 4
                ==> after.drop_last() == live
            &&& live.filter(|challenge: ChallengeView| challenge.device == device).len() >= 4
                ==> after.drop_last() == live.remove(oldest_of(live, device)) && 0 <= oldest_of(
                live,
                device,
            ) < live.len() && live[oldest_of(live, device)].device == device
        }),
{
    those_that_are_wanted_stay(issued, unexpired(now), Seq::empty(), |token: TokenView| true);
    let live = challenges_where(issued, unexpired(now));
    assert(issued.filter(unexpired(now)) == issued.filter(
        |challenge: ChallengeView| now < challenge.expires_ms,
    )) by {
        lemma_same_challenges(
            issued,
            unexpired(now),
            |challenge: ChallengeView| now < challenge.expires_ms,
        );
    }
    lemma_counts(live, Seq::empty(), device);
    let after = challenge_issued(issued, device, bytes, now);
    let kept = if challenges_of(live, device) >= 4 {
        live.remove(oldest_of(live, device))
    } else {
        live
    };
    assert(after.drop_last() =~= kept);
    if challenges_of(live, device) >= 4 {
        lemma_has_one(live, device);
    }
}

proof fn lemma_same_challenges(
    issued: Seq<ChallengeView>,
    one: spec_fn(ChallengeView) -> bool,
    other: spec_fn(ChallengeView) -> bool,
)
    requires
        forall|challenge: ChallengeView| #[trigger] one(challenge) == other(challenge),
    ensures
        issued.filter(one) == issued.filter(other),
    decreases issued.len(),
{
    reveal(Seq::filter);
    if issued.len() > 0 {
        lemma_same_challenges(issued.drop_last(), one, other);
    }
}

proof fn lemma_has_one(issued: Seq<ChallengeView>, device: Uuid)
    requires
        challenges_of(issued, device) >= 1,
    ensures
        0 <= oldest_of(issued, device) < issued.len(),
        issued[oldest_of(issued, device)].device == device,
{
    let i = lemma_some_challenge(issued, device);
    let token = TokenView {
        token: Seq::empty(),
        session: Session { account_id: device, device_id: device, expires_ms: 0 },
    };
    the_oldest_is_the_first(issued, seq![token], device, i, 0);
}

proof fn lemma_some_challenge(issued: Seq<ChallengeView>, device: Uuid) -> (i: int)
    requires
        challenges_of(issued, device) >= 1,
    ensures
        0 <= i < issued.len(),
        issued[i].device == device,
    decreases issued.len(),
{
    if issued.last().device == device {
        issued.len() - 1
    } else {
        lemma_some_challenge(issued.drop_last(), device)
    }
}

proof fn lemma_some_token(tokens: Seq<TokenView>, device: Uuid) -> (i: int)
    requires
        tokens_of(tokens, device) >= 1,
    ensures
        0 <= i < tokens.len(),
        tokens[i].session.device_id == device,
    decreases tokens.len(),
{
    if tokens.last().session.device_id == device {
        tokens.len() - 1
    } else {
        lemma_some_token(tokens.drop_last(), device)
    }
}

proof fn lemma_same_tokens(
    tokens: Seq<TokenView>,
    one: spec_fn(TokenView) -> bool,
    two: spec_fn(TokenView) -> bool,
    both: spec_fn(TokenView) -> bool,
)
    requires
        forall|token: TokenView| #[trigger] both(token) == (one(token) && two(token)),
    ensures
        tokens_where(tokens_where(tokens, one), two) == tokens.filter(both),
    decreases tokens.len(),
{
    reveal(Seq::filter);
    if tokens.len() > 0 {
        let rest = tokens.drop_last();
        lemma_same_tokens(rest, one, two, both);
        if one(tokens.last()) {
            assert(tokens_where(rest, one).push(tokens.last()).drop_last() =~= tokens_where(
                rest,
                one,
            ));
        }
    }
}

/// A token that is issued is good for what it was issued for, and no other text
/// is; what is over goes, and of a device that has eight the oldest.
pub proof fn a_token_is_issued(
    tokens: Seq<TokenView>,
    token: Seq<char>,
    session: Session,
    now: u64,
)
    ensures
        ({
            let after = token_issued(tokens, token, session, now);
            let good = tokens.filter(
                |held: TokenView| now < held.session.expires_ms && held.token != token,
            );
            let its_own = good.filter(
                |held: TokenView| held.session.device_id == session.device_id,
            );
            let oldest = oldest_token_of(good, session.device_id);
            &&& after.len() > 0
            &&& after.last().token == token
            &&& after.last().session == session
            &&& its_own.len() < 8 ==> after.drop_last() == good
            &&& its_own.len() >= 8 ==> after.drop_last() == good.remove(oldest) && 0 <= oldest
                < good.len() && good[oldest].session.device_id == session.device_id
        }),
{
    let after = token_issued(tokens, token, session, now);
    let good = tokens_where(tokens_where(tokens, still_good(now)), other_than(token));
    lemma_same_tokens(
        tokens,
        still_good(now),
        other_than(token),
        |held: TokenView| now < held.session.expires_ms && held.token != token,
    );
    lemma_counts(Seq::empty(), good, session.device_id);
    let oldest = oldest_token_of(good, session.device_id);
    let kept = if tokens_of(good, session.device_id) >= 8 {
        good.remove(oldest)
    } else {
        good
    };
    assert(after.drop_last() =~= kept);
    if tokens_of(good, session.device_id) >= 8 {
        let j = lemma_some_token(good, session.device_id);
        let challenge = ChallengeView {
            device: session.device_id,
            bytes: Seq::empty(),
            expires_ms: 0,
        };
        the_oldest_is_the_first(seq![challenge], good, session.device_id, 0, j);
    }
}

/// What is behind a token is the session it was issued for, until its time is
/// up, and then nothing; and nothing is behind what is no token.
pub proof fn what_is_behind_a_token(tokens: Seq<TokenView>, token: Seq<char>, now: u64, i: int)
    requires
        tokens_differ(tokens),
        0 <= i < tokens.len(),
        tokens[i].token == token,
    ensures
        now < tokens[i].session.expires_ms ==> session_of(tokens, token, now) == Some(
            tokens[i].session,
        ),
        now >= tokens[i].session.expires_ms ==> session_of(tokens, token, now) is None,
{
}

/// Nothing is behind what is no token.
pub proof fn nothing_is_behind_no_token(tokens: Seq<TokenView>, token: Seq<char>, now: u64)
    requires
        forall|i: int| 0 <= i < tokens.len() ==> (#[trigger] tokens[i]).token != token,
    ensures
        session_of(tokens, token, now) is None,
{
}

/// The token of a request is what follows the word for it, without the white
/// space around it; a request that does not begin with that word has none.
pub proof fn the_token_of_a_request(value: Seq<char>)
    ensures
        bearer(None) is None,
        bearer(Some(seq!['B', 'e', 'a', 'r', 'e', 'r', ' '] + value)) == Some(text::trimmed(value)),
        bearer(Some(value)) is Some <==> text::starts_with(
            value,
            seq!['B', 'e', 'a', 'r', 'e', 'r', ' '],
        ),
{
    reveal_strlit("Bearer ");
    let start = seq!['B', 'e', 'a', 'r', 'e', 'r', ' '];
    assert("Bearer "@ =~= start);
    assert((start + value).take(7) =~= start);
    assert((start + value).skip(7) =~= value);
}

/// Who is let in with a token: the device it was issued to, if it is still one
/// of the account and not shut out. What is then known of the two is what is
/// kept of them, each part.
pub proof fn who_is_let_in(
    before: Seq<TokenView>,
    after: Seq<TokenView>,
    db: DbView,
    value: Seq<char>,
    now: u64,
    authenticated: Result<Authenticated>,
    t: int,
    d: int,
    a: int,
)
    requires
        db.wf(),
        tokens_differ(before),
        authenticate_done(before, after, db, Some(value), now, authenticated),
        text::starts_with(value, seq!['B', 'e', 'a', 'r', 'e', 'r', ' ']),
        0 <= t < before.len(),
        before[t].token == text::trimmed(value.skip(7)),
        now < before[t].session.expires_ms,
        0 <= d < db.devices.len(),
        db.devices[d].id == before[t].session.device_id,
        0 <= a < db.accounts.len(),
        db.accounts[a].id == before[t].session.account_id,
    ensures
        ({
            let (device, account) = (db.devices[d], db.accounts[a]);
            if device.revoked_ms is None && device.account_id == account.id {
                authenticated matches Ok(auth) && {
                    &&& after == before
                    &&& auth.account.id == account.id
                    &&& auth.account.vault_id == account.header.vault_id
                    &&& auth.account.seq == account.seq
                    &&& auth.device@.id == device.id
                    &&& auth.device@.account_id == account.id
                    &&& auth.device@.name == device.name
                    &&& auth.device@.public_key == device.public_key
                    &&& auth.device@.cursor == device.cursor
                    &&& !auth.device@.revoked
                    &&& auth.token@ == before[t].token
                }
            } else {
                // And all its tokens go with it.
                &&& refused(authenticated) == Some(Refusal::Unauthorized)
                &&& after == before.filter(
                    |token: TokenView| token.session.device_id != device.id,
                )
            }
        }),
{
    reveal_strlit("Bearer ");
    assert("Bearer "@ =~= seq!['B', 'e', 'a', 'r', 'e', 'r', ' ']);
    let device = db.devices[d];
    those_that_are_wanted_stay(
        Seq::empty(),
        |challenge: ChallengeView| true,
        before,
        of_others(device.id),
    );
    lemma_same_tokens(
        before,
        |token: TokenView| true,
        of_others(device.id),
        |token: TokenView| token.session.device_id != device.id,
    );
    lemma_all_stay(before);
    assert(db.devices[db.device_at(device.id)].id == device.id);
    assert(db.accounts[db.account_at(db.accounts[a].id)].id == db.accounts[a].id);
}

proof fn lemma_all_stay(tokens: Seq<TokenView>)
    ensures
        tokens_where(tokens, |token: TokenView| true) == tokens,
    decreases tokens.len(),
{
    if tokens.len() > 0 {
        lemma_all_stay(tokens.drop_last());
        assert(tokens.drop_last().push(tokens.last()) =~= tokens);
    }
}

/// Without a token that is good nobody is let in, and nothing changes.
pub proof fn without_a_token_nobody_is_let_in(
    before: Seq<TokenView>,
    after: Seq<TokenView>,
    db: DbView,
    authorization: Option<Seq<char>>,
    now: u64,
    authenticated: Result<Authenticated>,
)
    requires
        authenticate_done(before, after, db, authorization, now, authenticated),
        bearer(authorization) is None || session_of(
            before,
            bearer(authorization)->Some_0,
            now,
        ) is None,
    ensures
        refused(authenticated) == Some(Refusal::Unauthorized),
        after == before,
{
}

/// A device is still in while its token is good and it is not shut out.
pub proof fn who_is_still_in(
    tokens: Seq<TokenView>,
    db: DbView,
    token: Seq<char>,
    now: u64,
    d: int,
)
    requires
        db.wf(),
        0 <= d < db.devices.len(),
    ensures
        is_still_in(tokens, db, token, db.devices[d].id, now) <==> session_of(
            tokens,
            token,
            now,
        ) is Some && db.devices[d].revoked_ms is None,
{
    assert(db.devices[db.device_at(db.devices[d].id)].id == db.devices[d].id);
}

/// A signature is sixty-four bytes, and one of what was signed under the key
/// that it is checked against.
pub proof fn what_is_signed(public_key: Seq<u8>, material: Seq<u8>, signature: Seq<u8>)
    ensures
        is_signed(public_key, material, signature) <==> signature.len() == 64 && strictly_signed(
            public_key,
            material,
            signature,
        ),
{
}

/// What is listed of challenges is their bytes, each of them.
pub proof fn challenges_by_their_bytes(issued: Seq<ChallengeView>, blobs: Seq<Vec<u8>>, i: int)
    ensures
        bytes_of(issued).len() == issued.len(),
        0 <= i < issued.len() ==> bytes_of(issued)[i] == issued[i].bytes,
        blobs_view(blobs).len() == blobs.len(),
        0 <= i < blobs.len() ==> blobs_view(blobs)[i] == blobs[i]@,
{
}

/// A challenge is handed to a device that is in and has not asked too often;
/// whoever else asks leaves nothing behind but the count.
pub proof fn who_asks_for_a_challenge(
    state: StateView,
    who: Seq<char>,
    bytes: Seq<u8>,
    now: u64,
    tick: u64,
    d: int,
)
    requires
        state.db.wf(),
        0 <= d < state.db.devices.len(),
    ensures
        ({
            let device = state.db.devices[d];
            let after = after_challenge(state, who, device.id, bytes, now, tick);
            &&& after.db == state.db
            &&& after.sessions == state.sessions
            &&& after.pairings == state.pairings
            &&& device.revoked_ms is Some ==> after.challenges == state.challenges
            &&& sign_in_refused(state, who, device.id, tick) ==> after.challenges
                == state.challenges
            &&& device.revoked_ms is None && !sign_in_refused(state, who, device.id, tick)
                ==> after.challenges == challenge_issued(state.challenges, device.id, bytes, now)
        }),
{
    let device = state.db.devices[d];
    assert(state.db.devices[state.db.device_at(device.id)].id == device.id);
}

/// Signing in is counted for a device at an address under the two of them.
pub proof fn signing_in_is_counted_for_the_two(who: Seq<char>, device: Uuid)
    ensures
        sign_in_key(who, device) == who + seq![' '] + uuid_text(device),
{
    reveal_strlit(" ");
    assert(" "@ =~= seq![' ']);
}

proof fn lemma_first_answered(
    state: StateView,
    device: Uuid,
    public_key: Seq<u8>,
    offered: Seq<Offered>,
    signature: Seq<u8>,
    now: u64,
    from: int,
)
    requires
        0 <= from,
    ensures
        first_answered(
            state.challenges,
            device,
            public_key,
            offered,
            signature,
            now,
            from,
        ) matches Some(w) ==> from <= w < offered.len() && crate::api::session::answers(
            state.challenges,
            device,
            public_key,
            offered[w],
            signature,
            now,
        ),
        first_answered(
            state.challenges,
            device,
            public_key,
            offered,
            signature,
            now,
            from,
        ) is None ==> forall|w: int|
            from <= w < offered.len() ==> !#[trigger] crate::api::session::answers(
                state.challenges,
                device,
                public_key,
                offered[w],
                signature,
                now,
            ),
    decreases offered.len() - from,
{
    if from < offered.len() && !crate::api::session::answers(
        state.challenges,
        device,
        public_key,
        offered[from],
        signature,
        now,
    ) {
        lemma_first_answered(state, device, public_key, offered, signature, now, from + 1);
    }
}

/// A device signs in with a signature, under the key it joined with, over what
/// it was offered for a challenge that is its own and not over yet. The
/// challenge is then used, the device seen, and the token it gets good for the
/// account it belongs to, for as long as a session lasts.
pub proof fn a_device_signs_in(
    before: StateView,
    after: StateView,
    who: Seq<char>,
    request: LoginRequest,
    offered: Seq<Offered>,
    token: Seq<char>,
    now: u64,
    tick: u64,
    response: LoginResponse,
    d: int,
) -> (at: (int, int))
    requires
        before.db.wf(),
        login_done(before, after, who, request, offered, token, now, tick, Ok(response)),
        0 <= d < before.db.devices.len(),
    ensures
        before.db.has_device(request.device_id),
        before.db.devices[d].id == request.device_id ==> ({
            let (device, seen) = (before.db.devices[d], after.db.devices[d]);
            let signature = b64::decoded(text::trimmed(request.signature@));
            let challenge = before.challenges[at.1];
            &&& device.revoked_ms is None
            &&& signature is Some
            &&& signature->Some_0.len() == 64
            &&& 0 <= at.0 < offered.len()
            &&& strictly_signed(
                device.public_key,
                offered[at.0].material@,
                signature->Some_0,
            )
            &&& 0 <= at.1 < before.challenges.len()
            &&& challenge.device == device.id
            &&& challenge.bytes == offered[at.0].challenge@
            &&& now < challenge.expires_ms
            &&& after.challenges == before.challenges.filter(
                |held: ChallengeView| held.device != device.id || held.bytes != challenge.bytes,
            )
            &&& response.account_id == device.account_id
            &&& response.token@ == token
            &&& now + before.config.session_secs * 1000 <= u64::MAX ==> response.expires_ms == now
                + before.config.session_secs * 1000
            &&& after.sessions.len() > 0
            &&& after.sessions.last().token == token
            &&& after.sessions.last().session.account_id == device.account_id
            &&& after.sessions.last().session.device_id == device.id
            &&& after.sessions.last().session.expires_ms == response.expires_ms
            &&& seen.last_seen_ms == Some(now)
            &&& seen.cursor == device.cursor
            &&& seen.revoked_ms is None
            &&& seen.public_key == device.public_key
            &&& seen.account_id == device.account_id
        }),
        after.db.accounts == before.db.accounts,
        after.db.enrolments == before.db.enrolments,
        after.db.invites == before.db.invites,
        after.pairings == before.pairings,
{
    let id = request.device_id;
    let row = before.db.device(id);
    assert(row.id == id);
    let signature = b64::decoded(text::trimmed(request.signature@))->Some_0;
    lemma_first_answered(before, id, row.public_key, offered, signature, now, 0);
    let w = answered(before, request, offered, now)->Some_0;
    let open = challenges_where(before.challenges, answerable(id, now));
    let o = choose|o: int|
        0 <= o < bytes_of(open).len() && bytes_of(open)[o] == offered[w].challenge@;
    assert(open[o].bytes == offered[w].challenge@);
    let c = lemma_challenge_is_there(before.challenges, answerable(id, now), o);
    those_that_are_wanted_stay(
        before.challenges,
        all_but(id, offered[w].challenge@),
        Seq::empty(),
        |token: TokenView| true,
    );
    lemma_same_challenges(
        before.challenges,
        all_but(id, offered[w].challenge@),
        |held: ChallengeView| held.device != id || held.bytes != offered[w].challenge@,
    );
    a_device_is_seen(before.db, id, row.cursor, now, d);
    (w, c)
}

proof fn lemma_challenge_is_there(
    issued: Seq<ChallengeView>,
    which: spec_fn(ChallengeView) -> bool,
    o: int,
) -> (i: int)
    requires
        0 <= o < challenges_where(issued, which).len(),
    ensures
        0 <= i < issued.len(),
        issued[i] == challenges_where(issued, which)[o],
        which(issued[i]),
    decreases issued.len(),
{
    let rest = challenges_where(issued.drop_last(), which);
    if o < rest.len() {
        assert(challenges_where(issued, which)[o] == rest[o]);
        lemma_challenge_is_there(issued.drop_last(), which, o)
    } else {
        issued.len() - 1
    }
}

/// Who answers a challenge rightly and has not tried too often signs in, and
/// who does not gets nothing.
pub proof fn who_may_sign_in_does(
    before: StateView,
    after: StateView,
    who: Seq<char>,
    request: LoginRequest,
    offered: Seq<Offered>,
    token: Seq<char>,
    now: u64,
    tick: u64,
    outcome: Result<LoginResponse>,
    d: int,
    w: int,
    c: int,
)
    requires
        before.db.wf(),
        login_done(before, after, who, request, offered, token, now, tick, outcome),
    ensures
        outcome is Err ==> after.db == before.db && after.sessions == before.sessions
            && after.challenges == before.challenges,
        sign_in_refused(before, who, request.device_id, tick) ==> refused(outcome) == Some(
            Refusal::RateLimited,
        ),
        ({
            &&& !sign_in_refused(before, who, request.device_id, tick)
            &&& 0 <= d < before.db.devices.len()
            &&& before.db.devices[d].id == request.device_id
            &&& before.db.devices[d].revoked_ms is None
            &&& 0 <= w < offered.len()
            &&& 0 <= c < before.challenges.len()
            &&& before.challenges[c].device == request.device_id
            &&& before.challenges[c].bytes == offered[w].challenge@
            &&& now < before.challenges[c].expires_ms
            &&& b64::decoded(text::trimmed(request.signature@)) is Some
            &&& b64::decoded(text::trimmed(request.signature@))->Some_0.len() == 64
            &&& strictly_signed(
                before.db.devices[d].public_key,
                offered[w].material@,
                b64::decoded(text::trimmed(request.signature@))->Some_0,
            )
        }) ==> outcome is Ok,
{
    let id = request.device_id;
    let row = before.db.device(id);
    let signature = b64::decoded(text::trimmed(request.signature@));
    if signature is Some {
        lemma_first_answered(before, id, row.public_key, offered, signature->Some_0, now, 0);
        if 0 <= c < before.challenges.len() && answerable(id, now)(before.challenges[c]) && 0 <= w
            < offered.len() {
            let open = challenges_where(before.challenges, answerable(id, now));
            let o = lemma_challenge_is_kept(before.challenges, answerable(id, now), c);
            assert(bytes_of(open)[o] == before.challenges[c].bytes);
            assert(bytes_of(open).contains(before.challenges[c].bytes));
            let right = crate::api::session::answers(
                before.challenges,
                id,
                row.public_key,
                offered[w],
                signature->Some_0,
                now,
            );
            assert(right == (bytes_of(open).contains(offered[w].challenge@) && is_signed(
                row.public_key,
                offered[w].material@,
                signature->Some_0,
            )));
        }
        if 0 <= d < before.db.devices.len() && before.db.devices[d].id == id {
            assert(before.db.devices[before.db.device_at(id)].id == id);
        }
    }
}

proof fn lemma_challenge_is_kept(
    issued: Seq<ChallengeView>,
    which: spec_fn(ChallengeView) -> bool,
    i: int,
) -> (o: int)
    requires
        0 <= i < issued.len(),
        which(issued[i]),
    ensures
        0 <= o < challenges_where(issued, which).len(),
        issued[i] == challenges_where(issued, which)[o],
    decreases issued.len(),
{
    let rest = challenges_where(issued.drop_last(), which);
    if i < issued.len() - 1 {
        let o = lemma_challenge_is_kept(issued.drop_last(), which, i);
        assert(challenges_where(issued, which)[o] == rest[o]);
        o
    } else {
        rest.len() as int
    }
}

/// A device that is not there is not in, gets no challenge and does not sign
/// in.
pub proof fn who_is_not_there_is_not_in(
    state: StateView,
    who: Seq<char>,
    token: Seq<char>,
    device: Uuid,
    bytes: Seq<u8>,
    now: u64,
    tick: u64,
)
    requires
        forall|d: int|
            0 <= d < state.db.devices.len() ==> (#[trigger] state.db.devices[d]).id != device,
    ensures
        !is_still_in(state.sessions, state.db, token, device, now),
        after_challenge(state, who, device, bytes, now, tick).challenges == state.challenges,
        forall|request: LoginRequest, offered: Seq<Offered>|
            request.device_id == device ==> #[trigger] answered(
                state,
                request,
                offered,
                now,
            ) is None,
{
}

/// Signing in is refused where the address asked too often, or the device at
/// that address did.
pub proof fn when_signing_in_is_refused(
    state: StateView,
    who: Seq<char>,
    device: Uuid,
    tick: u64,
)
    ensures
        ({
            let hits = state.limits.hits;
            let counted = limits::address_tried(hits, who, tick, limits::sign_in());
            let often = limits::address_refused(hits, who, tick, limits::sign_in());
            let its_own = limits::address_refused(
                counted,
                sign_in_key(who, device),
                tick,
                limits::session(),
            );
            let after = sign_in_counted(state, who, device, tick);
            &&& sign_in_refused(state, who, device, tick) <==> often || its_own
            &&& often ==> after.limits.hits == counted
            &&& !often ==> after.limits.hits == limits::address_tried(
                counted,
                sign_in_key(who, device),
                tick,
                limits::session(),
            )
            &&& after.limits.going == state.limits.going
            &&& after.db == state.db
            &&& after.sessions == state.sessions
            &&& after.challenges == state.challenges
            &&& after.pairings == state.pairings
        }),
{
}

} // verus!
