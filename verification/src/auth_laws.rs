//! What holds of challenges and tokens as a whole.

use crate::auth::{
    all_but, answerable, authenticate_done, challenge_issued, challenges_of, challenges_where,
    of_others, oldest_of, oldest_token_of, other_than, session_behind, session_of, still_good,
    token_issued, tokens_differ, tokens_of, tokens_where, unexpired, Authenticated, ChallengeView,
    Session, TokenView, CHALLENGES_PER_DEVICE, CHALLENGE_TTL_MS, TOKENS_PER_DEVICE,
};
use crate::db::DbView;
use crate::error::{refused, Refusal, Result};
use crate::ids::Uuid;
use crate::later;
use vstd::prelude::*;

verus! {

proof fn lemma_challenges_where(
    issued: Seq<ChallengeView>,
    which: spec_fn(ChallengeView) -> bool,
)
    ensures
        forall|i: int|
            0 <= i < challenges_where(issued, which).len() ==> which(
                #[trigger] challenges_where(issued, which)[i],
            ) && issued.contains(challenges_where(issued, which)[i]),
        challenges_where(issued, which).len() <= issued.len(),
    decreases issued.len(),
{
    if issued.len() > 0 {
        let rest = issued.drop_last();
        lemma_challenges_where(rest, which);
        let before = challenges_where(rest, which);
        let chosen = challenges_where(issued, which);
        assert forall|i: int| 0 <= i < chosen.len() implies which(#[trigger] chosen[i])
            && issued.contains(chosen[i]) by {
            if i < before.len() {
                assert(chosen[i] == before[i]);
                assert(rest.contains(before[i]));
                let k = choose|k: int| 0 <= k < rest.len() && rest[k] == before[i];
                assert(issued[k] == chosen[i]);
            } else {
                assert(issued[issued.len() - 1] == chosen[i]);
            }
        }
    }
}

proof fn lemma_all_of_them(issued: Seq<ChallengeView>, which: spec_fn(ChallengeView) -> bool)
    requires
        forall|i: int| 0 <= i < issued.len() ==> which(#[trigger] issued[i]),
    ensures
        challenges_where(issued, which) == issued,
    decreases issued.len(),
{
    if issued.len() > 0 {
        let rest = issued.drop_last();
        assert forall|i: int| 0 <= i < rest.len() implies which(#[trigger] rest[i]) by {
            assert(rest[i] == issued[i]);
        }
        lemma_all_of_them(rest, which);
        assert(which(issued[issued.len() - 1]));
        assert(rest.push(issued.last()) =~= issued);
    } else {
        assert(challenges_where(issued, which) =~= issued);
    }
}

/// A challenge is answered once: what was spent is not there to be spent
/// again, and nothing is there to be answered with the same bytes.
pub proof fn a_challenge_is_answered_once(
    issued: Seq<ChallengeView>,
    device: Uuid,
    bytes: Seq<u8>,
    now: u64,
)
    ensures
        ({
            let after = challenges_where(issued, all_but(device, bytes));
            &&& challenges_where(after, all_but(device, bytes)).len() == after.len()
            &&& forall|i: int|
                0 <= i < challenges_where(after, answerable(device, now)).len() ==> (
                #[trigger] challenges_where(after, answerable(device, now))[i]).bytes != bytes
        }),
{
    let which = all_but(device, bytes);
    let after = challenges_where(issued, which);
    lemma_challenges_where(issued, which);
    lemma_all_of_them(after, which);
    let open = challenges_where(after, answerable(device, now));
    lemma_challenges_where(after, answerable(device, now));
    assert forall|i: int| 0 <= i < open.len() implies (#[trigger] open[i]).bytes != bytes by {
        assert(answerable(device, now)(open[i]));
        assert(after.contains(open[i]));
        let k = choose|k: int| 0 <= k < after.len() && after[k] == open[i];
        assert(which(after[k]));
    }
}

proof fn lemma_fewer_challenges(
    issued: Seq<ChallengeView>,
    which: spec_fn(ChallengeView) -> bool,
    device: Uuid,
)
    ensures
        challenges_of(challenges_where(issued, which), device) <= challenges_of(issued, device),
    decreases issued.len(),
{
    if issued.len() > 0 {
        let rest = issued.drop_last();
        lemma_fewer_challenges(rest, which, device);
        let before = challenges_where(rest, which);
        assert(before.push(issued.last()).drop_last() =~= before);
    }
}

proof fn lemma_one_challenge_less(issued: Seq<ChallengeView>, at: int, device: Uuid)
    requires
        0 <= at < issued.len(),
    ensures
        challenges_of(issued.remove(at), device) == challenges_of(issued, device) - if issued[at]
            .device == device {
            1int
        } else {
            0
        },
    decreases issued.len(),
{
    let after = issued.remove(at);
    if at == issued.len() - 1 {
        assert(after =~= issued.drop_last());
    } else {
        assert(after.drop_last() =~= issued.drop_last().remove(at));
        lemma_one_challenge_less(issued.drop_last(), at, device);
    }
}

proof fn lemma_oldest_is_there(issued: Seq<ChallengeView>, device: Uuid)
    requires
        challenges_of(issued, device) > 0,
    ensures
        0 <= oldest_of(issued, device) < issued.len(),
        issued[oldest_of(issued, device)].device == device,
    decreases issued.len(),
{
    if issued.len() > 0 && issued[0].device != device {
        let rest = issued.skip(1);
        lemma_first_aside(issued, device);
        lemma_oldest_is_there(rest, device);
        assert(rest[oldest_of(rest, device)] == issued[oldest_of(rest, device) + 1]);
    }
}

proof fn lemma_first_aside(issued: Seq<ChallengeView>, device: Uuid)
    requires
        issued.len() > 0,
        issued[0].device != device,
    ensures
        challenges_of(issued.skip(1), device) == challenges_of(issued, device),
{
    assert(issued.remove(0) =~= issued.skip(1));
    lemma_one_challenge_less(issued, 0, device);
}

/// However often somebody asks in a device's name, it holds only a few
/// challenges, and so does every other.
pub proof fn a_device_holds_only_a_few_challenges(
    issued: Seq<ChallengeView>,
    device: Uuid,
    bytes: Seq<u8>,
    now: u64,
    any: Uuid,
)
    requires
        challenges_of(issued, any) <= CHALLENGES_PER_DEVICE,
    ensures
        challenges_of(challenge_issued(issued, device, bytes, now), any) <= CHALLENGES_PER_DEVICE,
{
    let live = challenges_where(issued, unexpired(now));
    lemma_fewer_challenges(issued, unexpired(now), any);
    lemma_fewer_challenges(issued, unexpired(now), device);
    let kept = if challenges_of(live, device) >= CHALLENGES_PER_DEVICE {
        live.remove(oldest_of(live, device))
    } else {
        live
    };
    if challenges_of(live, device) >= CHALLENGES_PER_DEVICE {
        lemma_oldest_is_there(live, device);
        lemma_one_challenge_less(live, oldest_of(live, device), any);
    }
    let next = ChallengeView { device, bytes, expires_ms: later(now, CHALLENGE_TTL_MS) };
    assert(kept.push(next).drop_last() =~= kept);
}

proof fn lemma_where_concat(
    a: Seq<ChallengeView>,
    last: ChallengeView,
    which: spec_fn(ChallengeView) -> bool,
)
    ensures
        challenges_where(a.push(last), which) == if which(last) {
            challenges_where(a, which).push(last)
        } else {
            challenges_where(a, which)
        },
{
    assert(a.push(last).drop_last() =~= a);
}

/// Asking again does not take the first one away: while there is room, what a
/// device may answer after another challenge is what it could before, and the
/// new one.
pub proof fn asking_again_does_not_take_the_first_one_away(
    issued: Seq<ChallengeView>,
    device: Uuid,
    bytes: Seq<u8>,
    now: u64,
)
    requires
        challenges_of(challenges_where(issued, unexpired(now)), device) < CHALLENGES_PER_DEVICE,
        now < u64::MAX,
    ensures
        ({
            let next = ChallengeView { device, bytes, expires_ms: later(now, CHALLENGE_TTL_MS) };
            challenges_where(
                challenge_issued(issued, device, bytes, now),
                answerable(device, now),
            ) == challenges_where(issued, answerable(device, now)).push(next)
        }),
{
    let next = ChallengeView { device, bytes, expires_ms: later(now, CHALLENGE_TTL_MS) };
    lemma_where_of_unexpired(issued, device, now, now);
    lemma_where_concat(
        challenges_where(issued, unexpired(now)),
        next,
        answerable(device, now),
    );
}

proof fn lemma_where_of_unexpired(issued: Seq<ChallengeView>, device: Uuid, now: u64, asked: u64)
    requires
        now <= asked,
    ensures
        challenges_where(challenges_where(issued, unexpired(now)), answerable(device, asked))
            == challenges_where(issued, answerable(device, asked)),
    decreases issued.len(),
{
    if issued.len() > 0 {
        let rest = issued.drop_last();
        lemma_where_of_unexpired(rest, device, now, asked);
        if unexpired(now)(issued.last()) {
            lemma_where_concat(
                challenges_where(rest, unexpired(now)),
                issued.last(),
                answerable(device, asked),
            );
        }
    }
}

/// What one challenge less leaves of those a device may answer, where none of
/// that device stands before it.
proof fn lemma_where_of_removed(
    issued: Seq<ChallengeView>,
    at: int,
    device: Uuid,
    now: u64,
)
    requires
        0 <= at < issued.len(),
        issued[at].device == device ==> forall|i: int|
            0 <= i < at ==> (#[trigger] issued[i]).device != device,
        issued[at].device == device ==> issued[at].expires_ms > now,
    ensures
        ({
            let open = challenges_where(issued, answerable(device, now));
            let left = challenges_where(issued.remove(at), answerable(device, now));
            if issued[at].device == device {
                open.len() > 0 && left == open.skip(1)
            } else {
                left == open
            }
        }),
    decreases issued.len(),
{
    let which = answerable(device, now);
    let rest = issued.drop_last();
    let last = issued.last();
    if at == issued.len() - 1 {
        assert(issued.remove(at) =~= rest);
        if last.device == device {
            assert forall|i: int| 0 <= i < rest.len() implies !which(#[trigger] rest[i]) by {
                assert(rest[i] == issued[i]);
            }
            lemma_none_of_them(rest, which);
            assert(challenges_where(issued, which).skip(1) =~= Seq::empty());
        }
    } else {
        assert(rest[at] == issued[at]);
        assert forall|i: int|
            0 <= i < at && issued[at].device == device implies (#[trigger] rest[i]).device
            != device by {
            assert(rest[i] == issued[i]);
        }
        lemma_where_of_removed(rest, at, device, now);
        assert(issued.remove(at) =~= rest.remove(at).push(last));
        lemma_where_concat(rest.remove(at), last, which);
        let open = challenges_where(rest, which);
        if issued[at].device == device && which(last) {
            assert(open.push(last).skip(1) =~= open.skip(1).push(last));
        }
    }
}

proof fn lemma_none_of_them(issued: Seq<ChallengeView>, which: spec_fn(ChallengeView) -> bool)
    requires
        forall|i: int| 0 <= i < issued.len() ==> !which(#[trigger] issued[i]),
    ensures
        challenges_where(issued, which) == Seq::<ChallengeView>::empty(),
    decreases issued.len(),
{
    if issued.len() > 0 {
        let rest = issued.drop_last();
        assert forall|i: int| 0 <= i < rest.len() implies !which(#[trigger] rest[i]) by {
            assert(rest[i] == issued[i]);
        }
        lemma_none_of_them(rest, which);
    }
}

/// Of challenges none of which has run out, a device may answer all its own.
proof fn lemma_open_are_its_own(issued: Seq<ChallengeView>, device: Uuid, now: u64)
    requires
        forall|i: int| 0 <= i < issued.len() ==> (#[trigger] issued[i]).expires_ms > now,
    ensures
        challenges_where(issued, answerable(device, now)).len() == challenges_of(issued, device),
    decreases issued.len(),
{
    if issued.len() > 0 {
        let rest = issued.drop_last();
        assert forall|i: int| 0 <= i < rest.len() implies (#[trigger] rest[i]).expires_ms
            > now by {
            assert(rest[i] == issued[i]);
        }
        lemma_open_are_its_own(rest, device, now);
    }
}

proof fn lemma_none_before_the_oldest(issued: Seq<ChallengeView>, device: Uuid)
    ensures
        forall|i: int|
            0 <= i < oldest_of(issued, device) && i < issued.len() ==> (#[trigger] issued[i]).device
                != device,
    decreases issued.len(),
{
    if issued.len() > 0 && issued[0].device != device {
        lemma_none_before_the_oldest(issued.skip(1), device);
        assert forall|i: int|
            0 <= i < oldest_of(issued, device) && i < issued.len() implies (
        #[trigger] issued[i]).device != device by {
            if i > 0 {
                assert(issued[i] == issued.skip(1)[i - 1]);
            }
        }
    }
}

/// Another challenge takes away the oldest that a device may answer, where
/// there are as many as may be, and no other: so the newest stay, however often
/// somebody asks. What other devices may answer, now and later, is as it was.
/// The new one is there to be spent, once.
pub proof fn only_the_oldest_challenge_goes(
    issued: Seq<ChallengeView>,
    device: Uuid,
    bytes: Seq<u8>,
    now: u64,
    other: Uuid,
    asked: u64,
)
    requires
        now < u64::MAX,
        other != device,
        now <= asked,
    ensures
        ({
            let open = challenges_where(issued, answerable(device, now));
            let after = challenge_issued(issued, device, bytes, now);
            let next = ChallengeView { device, bytes, expires_ms: later(now, CHALLENGE_TTL_MS) };
            let spent = challenges_where(after, all_but(device, bytes));
            &&& challenges_where(after, answerable(device, now)) == (if open.len()
                >= CHALLENGES_PER_DEVICE {
                open.skip(1)
            } else {
                open
            }).push(next)
            &&& challenges_where(after, answerable(other, asked)) == challenges_where(
                issued,
                answerable(other, asked),
            )
            &&& spent.len() < after.len()
            &&& challenges_where(spent, all_but(device, bytes)).len() == spent.len()
        }),
{
    let live = challenges_where(issued, unexpired(now));
    let next = ChallengeView { device, bytes, expires_ms: later(now, CHALLENGE_TTL_MS) };
    let after = challenge_issued(issued, device, bytes, now);
    lemma_challenges_where(issued, unexpired(now));
    assert forall|i: int| 0 <= i < live.len() implies (#[trigger] live[i]).expires_ms > now by {
        assert(unexpired(now)(live[i]));
    }
    lemma_where_of_unexpired(issued, device, now, now);
    lemma_where_of_unexpired(issued, other, now, asked);
    lemma_open_are_its_own(live, device, now);
    let kept = after.drop_last();
    if challenges_of(live, device) >= CHALLENGES_PER_DEVICE {
        let at = oldest_of(live, device);
        lemma_oldest_is_there(live, device);
        lemma_none_before_the_oldest(live, device);
        assert(kept =~= live.remove(at));
        lemma_where_of_removed(live, at, device, now);
        lemma_where_of_removed(live, at, other, asked);
    } else {
        assert(kept =~= live);
    }
    assert(after =~= kept.push(next));
    lemma_where_concat(kept, next, answerable(device, now));
    lemma_where_concat(kept, next, answerable(other, asked));
    lemma_where_concat(kept, next, all_but(device, bytes));
    lemma_challenges_where(kept, all_but(device, bytes));
    a_challenge_is_answered_once(after, device, bytes, now);
}

proof fn lemma_token_there(
    tokens: Seq<TokenView>,
    which: spec_fn(TokenView) -> bool,
    token: TokenView,
)
    ensures
        tokens_where(tokens, which).contains(token) <==> tokens.contains(token) && which(token),
    decreases tokens.len(),
{
    let chosen = tokens_where(tokens, which);
    if tokens.len() > 0 {
        let rest = tokens.drop_last();
        let before = tokens_where(rest, which);
        lemma_token_there(rest, which, token);
        if before.contains(token) {
            let k = choose|k: int| 0 <= k < before.len() && before[k] == token;
            assert(chosen[k] == token);
        }
        if rest.contains(token) {
            let k = choose|k: int| 0 <= k < rest.len() && rest[k] == token;
            assert(tokens[k] == token);
        }
        if tokens.contains(token) {
            let k = choose|k: int| 0 <= k < tokens.len() && tokens[k] == token;
            if k < rest.len() {
                assert(rest[k] == token);
            } else if which(token) {
                assert(chosen.last() == token);
            }
        }
        if chosen.contains(token) {
            let k = choose|k: int| 0 <= k < chosen.len() && chosen[k] == token;
            if k < before.len() {
                assert(before[k] == token);
            } else {
                assert(tokens[tokens.len() - 1] == token);
            }
        }
    }
}

/// A device takes its tokens along: once they are dropped, no token stands for
/// it, and every other token stands for whom it did.
pub proof fn a_device_takes_its_tokens_along(
    tokens: Seq<TokenView>,
    device: Uuid,
    token: Seq<char>,
    now: u64,
)
    requires
        tokens_differ(tokens),
    ensures
        session_of(tokens_where(tokens, of_others(device)), token, now) == match session_of(
            tokens,
            token,
            now,
        ) {
            Some(session) if session.device_id != device => Some(session),
            _ => None,
        },
{
    let after = tokens_where(tokens, of_others(device));
    if exists|i: int|
        0 <= i < after.len() && (#[trigger] after[i]).token == token
            && after[i].session.expires_ms > now {
        let i = choose|i: int|
            0 <= i < after.len() && (#[trigger] after[i]).token == token
                && after[i].session.expires_ms > now;
        lemma_token_there(tokens, of_others(device), after[i]);
        assert(after.contains(after[i]));
        let k = choose|k: int| 0 <= k < tokens.len() && tokens[k] == after[i];
        assert(tokens[k].token == token);
    }
    if exists|i: int|
        0 <= i < tokens.len() && (#[trigger] tokens[i]).token == token
            && tokens[i].session.expires_ms > now {
        let i = choose|i: int|
            0 <= i < tokens.len() && (#[trigger] tokens[i]).token == token
                && tokens[i].session.expires_ms > now;
        lemma_token_there(tokens, of_others(device), tokens[i]);
        assert(tokens.contains(tokens[i]));
        if tokens[i].session.device_id != device {
            let k = choose|k: int| 0 <= k < after.len() && after[k] == tokens[i];
            assert(after[k].token == token);
        }
    }
}

proof fn lemma_fewer_tokens(
    tokens: Seq<TokenView>,
    which: spec_fn(TokenView) -> bool,
    device: Uuid,
)
    ensures
        tokens_of(tokens_where(tokens, which), device) <= tokens_of(tokens, device),
    decreases tokens.len(),
{
    if tokens.len() > 0 {
        let rest = tokens.drop_last();
        lemma_fewer_tokens(rest, which, device);
        let before = tokens_where(rest, which);
        assert(before.push(tokens.last()).drop_last() =~= before);
    }
}

proof fn lemma_one_token_less(tokens: Seq<TokenView>, at: int, device: Uuid)
    requires
        0 <= at < tokens.len(),
    ensures
        tokens_of(tokens.remove(at), device) == tokens_of(tokens, device) - if tokens[at]
            .session.device_id == device {
            1int
        } else {
            0
        },
    decreases tokens.len(),
{
    let after = tokens.remove(at);
    if at == tokens.len() - 1 {
        assert(after =~= tokens.drop_last());
    } else {
        assert(after.drop_last() =~= tokens.drop_last().remove(at));
        lemma_one_token_less(tokens.drop_last(), at, device);
    }
}

proof fn lemma_oldest_token_is_there(tokens: Seq<TokenView>, device: Uuid)
    requires
        tokens_of(tokens, device) > 0,
    ensures
        0 <= oldest_token_of(tokens, device) < tokens.len(),
        tokens[oldest_token_of(tokens, device)].session.device_id == device,
    decreases tokens.len(),
{
    if tokens.len() > 0 && tokens[0].session.device_id != device {
        let rest = tokens.skip(1);
        assert(tokens.remove(0) =~= rest);
        lemma_one_token_less(tokens, 0, device);
        lemma_oldest_token_is_there(rest, device);
        assert(rest[oldest_token_of(rest, device)] == tokens[oldest_token_of(rest, device) + 1]);
    }
}

/// However often a device signs in, it holds only so many tokens, and so does
/// every other.
pub proof fn a_device_holds_only_a_few_tokens(
    tokens: Seq<TokenView>,
    token: Seq<char>,
    session: Session,
    now: u64,
    any: Uuid,
)
    requires
        tokens_of(tokens, any) <= TOKENS_PER_DEVICE,
    ensures
        tokens_of(token_issued(tokens, token, session, now), any) <= TOKENS_PER_DEVICE,
{
    let device = session.device_id;
    let first = tokens_where(tokens, still_good(now));
    let good = tokens_where(first, other_than(token));
    lemma_fewer_tokens(tokens, still_good(now), any);
    lemma_fewer_tokens(first, other_than(token), any);
    let kept = if tokens_of(good, device) >= TOKENS_PER_DEVICE {
        good.remove(oldest_token_of(good, device))
    } else {
        good
    };
    if tokens_of(good, device) >= TOKENS_PER_DEVICE {
        lemma_oldest_token_is_there(good, device);
        lemma_one_token_less(good, oldest_token_of(good, device), any);
    }
    assert(kept.push(TokenView { token, session }).drop_last() =~= kept);
}

/// A token lasts until it does not: it stands for its device up to the moment
/// it runs out, and for nobody from then on.
pub proof fn a_token_lasts_until_it_does_not(
    tokens: Seq<TokenView>,
    token: Seq<char>,
    session: Session,
    now: u64,
    asked: u64,
)
    ensures
        session_of(token_issued(tokens, token, session, now), token, asked) == if asked
            < session.expires_ms {
            Some(session)
        } else {
            None
        },
{
    let after = token_issued(tokens, token, session, now);
    let last = after.len() - 1;
    assert(after[last] == (TokenView { token, session }));
    let first = tokens_where(tokens, still_good(now));
    let good = tokens_where(first, other_than(token));
    assert forall|i: int| 0 <= i < last implies (#[trigger] after[i]).token != token by {
        assert(good.contains(after[i])) by {
            if tokens_of(good, session.device_id) < TOKENS_PER_DEVICE {
                assert(good[i] == after[i]);
            } else {
                let gone = oldest_token_of(good, session.device_id);
                lemma_oldest_token_is_there(good, session.device_id);
                assert(good[if i < gone {
                    i
                } else {
                    i + 1
                }] == after[i]);
            }
        }
        lemma_token_there(first, other_than(token), after[i]);
    }
}

/// A device that was shut out gets nowhere with a token it still holds, and
/// holds none from then on.
pub proof fn a_revoked_device_is_out_at_once(
    tokens: Seq<TokenView>,
    after: Seq<TokenView>,
    db: DbView,
    authorization: Option<Seq<char>>,
    now: u64,
    authenticated: Result<Authenticated>,
    token: Seq<char>,
    asked: u64,
)
    requires
        tokens_differ(tokens),
        authenticate_done(tokens, after, db, authorization, now, authenticated),
        session_behind(tokens, authorization, now) is Some,
        ({
            let session = session_behind(tokens, authorization, now)->Some_0;
            db.has_device(session.device_id) && db.device(session.device_id).revoked_ms is Some
        }),
    ensures
        refused(authenticated) == Some(Refusal::Unauthorized),
        session_of(after, token, asked) matches Some(session) ==> session.device_id
            != session_behind(tokens, authorization, now)->Some_0.device_id,
{
    let device = session_behind(tokens, authorization, now)->Some_0.device_id;
    a_device_takes_its_tokens_along(tokens, device, token, asked);
}

} // verus!
