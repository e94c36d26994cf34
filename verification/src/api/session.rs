//! Signing in as a device: ask for a challenge, sign it, get a token.
//!
//! The server never learns anything it could be robbed of. The device's key
//! stays on the device, the challenge is used once, and the token lives in
//! memory for an hour.
//!
//! Signing in is counted per device at an address, and loosely per address:
//! whoever asks for devices that are not there, or in the name of one from
//! somewhere else, keeps no device from signing in.

use super::{in_ms, to_ms};
use crate::auth::{
    all_but, answerable, blobs_view, bytes_of, challenge_issued, challenges_where, is_signed,
    token_issued, verify_signature, ChallengeView, Challenges, Session,
};
use crate::b64;
use crate::db::constant_time_eq;
use crate::db::devices::{self, seen_db, Device};
use crate::db::DbView;
use crate::error::{refused, ApiError, Refusal, Result};
use crate::ids::{uuid_text, Uuid};
use crate::limits::{self, address_refused};
use crate::proto::{LoginRequest, LoginResponse};
use crate::state::{AppState, StateView};
use crate::{later, now_ms, random_bytes, text};
use vstd::prelude::*;
use vstd::string::StringExecFns;

verus! {

/// What signing in as one device from one address is counted under.
pub open spec fn sign_in_key(who: Seq<char>, device: Uuid) -> Seq<char> {
    who + " "@ + uuid_text(device)
}

/// Whether signing in is refused for having been tried too often.
pub open spec fn sign_in_refused(
    state: StateView,
    who: Seq<char>,
    device: Uuid,
    tick: u64,
) -> bool {
    let counted = state.counting_address(who, limits::sign_in(), tick);
    ||| address_refused(state.limits.hits, who, tick, limits::sign_in())
    ||| address_refused(
        counted.limits.hits,
        sign_in_key(who, device),
        tick,
        limits::session(),
    )
}

/// The state after signing in was counted.
pub open spec fn sign_in_counted(
    state: StateView,
    who: Seq<char>,
    device: Uuid,
    tick: u64,
) -> StateView {
    let counted = state.counting_address(who, limits::sign_in(), tick);
    if address_refused(state.limits.hits, who, tick, limits::sign_in()) {
        counted
    } else {
        counted.counting_address(sign_in_key(who, device), limits::session(), tick)
    }
}

fn count_sign_in(state: &mut AppState, who: &str, device: Uuid, tick: u64) -> (counted: Result<()>)
    requires
        old(state).wf(),
    ensures
        final(state).wf(),
        refused(counted) == if sign_in_refused(old(state)@, who@, device, tick) {
            Some(Refusal::RateLimited)
        } else {
            None
        },
        final(state)@ == sign_in_counted(old(state)@, who@, device, tick),
{
    state.limits.check_at(who, &limits::sign_in(), tick)?;
    let key: String = who.to_owned().concat(" ").concat(device.hyphenated().as_str());
    state.limits.check_at(key.as_str(), &limits::session(), tick)
}

/// Whether there is such a device and it is still in.
pub open spec fn may_sign_in(db: DbView, device: Uuid) -> bool {
    db.has_device(device) && db.device(device).revoked_ms is None
}

/// The state after somebody asked for a challenge in a device's name.
pub open spec fn after_challenge(
    state: StateView,
    who: Seq<char>,
    device: Uuid,
    bytes: Seq<u8>,
    now: u64,
    tick: u64,
) -> StateView {
    let counted = sign_in_counted(state, who, device, tick);
    if !sign_in_refused(state, who, device, tick) && may_sign_in(state.db, device) {
        StateView {
            challenges: challenge_issued(state.challenges, device, bytes, now),
            ..counted
        }
    } else {
        counted
    }
}

/// [`challenge`] with given bytes and at a given time.
pub fn challenge_at(
    state: &mut AppState,
    who: &str,
    device: Uuid,
    bytes: &[u8; 32],
    now: u64,
    tick: u64,
) -> (challenge: Result<String>)
    requires
        old(state).wf(),
    ensures
        final(state).wf(),
        final(state)@ == after_challenge(old(state)@, who@, device, bytes@, now, tick),
        refused(challenge) == if sign_in_refused(old(state)@, who@, device, tick) {
            Some(Refusal::RateLimited)
        } else {
            None
        },
        challenge matches Ok(challenge) ==> challenge@ == b64::encoded(bytes@),
{
    count_sign_in(state, who, device, tick)?;
    let known: bool = match devices::get(&state.db, device) {
        Some(device) => !device.revoked,
        None => false,
    };
    if known {
        let kept: Vec<u8> = vstd::slice::slice_to_vec(bytes.as_slice());
        state.challenges.issue_at(device, kept, now);
    }
    Ok(b64::encode(bytes.as_slice()))
}

/// Something to sign.
///
/// A device this server has never heard of gets a challenge too, one that
/// leads nowhere. Answering "no such device" would turn this endpoint into a
/// way to find out which device ids exist.
pub fn challenge(state: &mut AppState, who: &str, device: Uuid) -> (challenge: Result<String>)
    requires
        old(state).wf(),
    ensures
        final(state).wf(),
        exists|bytes: Seq<u8>, now: u64, tick: u64|
            bytes.len() == 32 && final(state)@ == #[trigger] after_challenge(
                old(state)@,
                who@,
                device,
                bytes,
                now,
                tick,
            ) && refused(challenge) == (if sign_in_refused(old(state)@, who@, device, tick) {
                Some(Refusal::RateLimited)
            } else {
                None
            }) && (challenge matches Ok(challenge) ==> challenge@ == b64::encoded(bytes)),
{
    let bytes: [u8; 32] = random_bytes::<32>();
    let now: u64 = now_ms();
    let tick: u64 = state.limits.now();
    assert(bytes@.len() == 32);
    challenge_at(state, who, device, &bytes, now, tick)
}

/// A challenge, and the bytes a device signs to answer it: those that the
/// protocol makes of the account, the device and the challenge.
#[derive(Debug)]
pub struct Offered {
    pub challenge: Vec<u8>,
    pub material: Vec<u8>,
}

/// Whether a signature of a key answers a challenge that a device may answer.
pub open spec fn answers(
    issued: Seq<ChallengeView>,
    device: Uuid,
    public_key: Seq<u8>,
    offered: Offered,
    signature: Seq<u8>,
    now: u64,
) -> bool {
    &&& bytes_of(challenges_where(issued, answerable(device, now))).contains(offered.challenge@)
    &&& is_signed(public_key, offered.material@, signature)
}

/// The first of these challenges that a signature answers, from `from` on.
pub open spec fn first_answered(
    issued: Seq<ChallengeView>,
    device: Uuid,
    public_key: Seq<u8>,
    offered: Seq<Offered>,
    signature: Seq<u8>,
    now: u64,
    from: int,
) -> Option<int>
    decreases offered.len() - from,
{
    if from >= offered.len() {
        None
    } else if answers(issued, device, public_key, offered[from], signature, now) {
        Some(from)
    } else {
        first_answered(issued, device, public_key, offered, signature, now, from + 1)
    }
}

/// Which challenge a request answers, if it answers one and the device may
/// sign in.
pub open spec fn answered(
    state: StateView,
    request: LoginRequest,
    offered: Seq<Offered>,
    now: u64,
) -> Option<int> {
    match b64::decoded(text::trimmed(request.signature@)) {
        Some(signature) if may_sign_in(state.db, request.device_id) => first_answered(
            state.challenges,
            request.device_id,
            state.db.device(request.device_id).public_key,
            offered,
            signature,
            now,
            0,
        ),
        _ => None,
    }
}

/// The state after a device signed in with the answer to a challenge.
pub open spec fn signed_in(
    state: StateView,
    who: Seq<char>,
    device: Uuid,
    challenge: Seq<u8>,
    token: Seq<char>,
    now: u64,
) -> StateView {
    let forgiven = state.forgiving_address(sign_in_key(who, device), limits::session());
    let row = state.db.device(device);
    StateView {
        db: seen_db(state.db, device, row.cursor, now),
        challenges: challenges_where(state.challenges, all_but(device, challenge)),
        sessions: token_issued(
            state.sessions,
            token,
            Session {
                account_id: row.account_id,
                device_id: device,
                expires_ms: later(now, in_ms(state.config.session_secs)),
            },
            now,
        ),
        ..forgiven
    }
}

/// What a try to sign in does and is answered.
pub open spec fn login_done(
    before: StateView,
    after: StateView,
    who: Seq<char>,
    request: LoginRequest,
    offered: Seq<Offered>,
    token: Seq<char>,
    now: u64,
    tick: u64,
    outcome: Result<LoginResponse>,
) -> bool {
    let counted = sign_in_counted(before, who, request.device_id, tick);
    if sign_in_refused(before, who, request.device_id, tick) {
        refused(outcome) == Some(Refusal::RateLimited) && after == counted
    } else {
        match answered(before, request, offered, now) {
            None => refused(outcome) == Some(Refusal::Unauthorized) && after == counted,
            Some(which) => {
                &&& after == signed_in(
                    counted,
                    who,
                    request.device_id,
                    offered[which].challenge@,
                    token,
                    now,
                )
                &&& outcome matches Ok(response) && response.account_id == before.db.device(
                    request.device_id,
                ).account_id && response.token@ == token && response.expires_ms == later(
                    now,
                    in_ms(before.config.session_secs),
                )
            },
        }
    }
}

/// Whether these bytes are among those.
fn is_among(bytes: &Vec<u8>, blobs: &Vec<Vec<u8>>) -> (there: bool)
    ensures
        there == blobs_view(blobs@).contains(bytes@),
{
    let ghost all = blobs_view(blobs@);
    for i in 0..blobs.len()
        invariant
            all == blobs_view(blobs@),
            forall|j: int| 0 <= j < i ==> (#[trigger] all[j]) != bytes@,
    {
        assert(all[i as int] == blobs@[i as int]@);
        if constant_time_eq(blobs[i].as_slice(), bytes.as_slice()) {
            return true;
        }
    }
    false
}

/// Whichever of its challenges a device answered.
fn find_answered(
    challenges: &Challenges,
    device: Uuid,
    public_key: &[u8; 32],
    offered: &Vec<Offered>,
    signature: &Vec<u8>,
    now: u64,
) -> (which: Option<usize>)
    ensures
        ({
            let first = first_answered(
                challenges@,
                device,
                public_key@,
                offered@,
                signature@,
                now,
                0,
            );
            match which {
                Some(which) => {
                    &&& first == Some(which as int)
                    &&& which < offered@.len()
                    &&& answers(
                        challenges@,
                        device,
                        public_key@,
                        offered@[which as int],
                        signature@,
                        now,
                    )
                },
                None => first is None,
            }
        }),
{
    let outstanding: Vec<Vec<u8>> = challenges.outstanding_at(device, now);
    for i in 0..offered.len()
        invariant
            blobs_view(outstanding@) == bytes_of(
                challenges_where(challenges@, answerable(device, now)),
            ),
            first_answered(challenges@, device, public_key@, offered@, signature@, now, 0)
                == first_answered(
                challenges@,
                device,
                public_key@,
                offered@,
                signature@,
                now,
                i as int,
            ),
    {
        if is_among(&offered[i].challenge, &outstanding) && verify_signature(
            public_key,
            offered[i].material.as_slice(),
            signature.as_slice(),
        ) {
            return Some(i);
        }
    }
    None
}

/// [`login`] with a given token and at a given time.
pub fn login_at(
    state: &mut AppState,
    who: &str,
    request: &LoginRequest,
    offered: &Vec<Offered>,
    token: String,
    now: u64,
    tick: u64,
) -> (outcome: Result<LoginResponse>)
    requires
        old(state).wf(),
    ensures
        final(state).wf(),
        login_done(
            old(state)@,
            final(state)@,
            who@,
            *request,
            offered@,
            token@,
            now,
            tick,
            outcome,
        ),
{
    count_sign_in(state, who, request.device_id, tick)?;
    let signature: Vec<u8> = match b64::decode(request.signature.as_str()) {
        Some(signature) => signature,
        None => {
            return Err(ApiError::Unauthorized);
        },
    };
    let device: Device = match devices::get(&state.db, request.device_id) {
        Some(device) => device,
        None => {
            return Err(ApiError::Unauthorized);
        },
    };
    if device.revoked {
        return Err(ApiError::Unauthorized);
    }
    // A wrong answer leaves the challenges where they are (nobody forges an
    // Ed25519 signature by trying again), so asking in its name cannot keep a
    // device from signing in.
    let which: usize = match find_answered(
        &state.challenges,
        request.device_id,
        &device.public_key,
        offered,
        &signature,
        now,
    ) {
        Some(which) => which,
        None => {
            return Err(ApiError::Unauthorized);
        },
    };
    proof {
        lemma_outstanding_is_spent(
            state@.challenges,
            request.device_id,
            offered@[which as int].challenge@,
            now,
        );
    }
    // Spent here and only once: two requests racing with the same signature
    // find the challenge there for one of them.
    if !state.challenges.spend(request.device_id, offered[which].challenge.as_slice()) {
        return Err(ApiError::Unauthorized);
    }
    let key: String = who.to_owned().concat(" ").concat(request.device_id.hyphenated().as_str());
    state.limits.forgive(key.as_str(), &limits::session());
    let ttl_ms: u64 = to_ms(state.config.session_secs);
    let expires_ms: u64 = state.sessions.issue_at(
        token.clone(),
        device.account_id,
        request.device_id,
        ttl_ms,
        now,
    );
    devices::seen_at(&mut state.db, request.device_id, device.cursor, now);
    Ok(LoginResponse { account_id: device.account_id, token, expires_ms })
}

/// A challenge that may be answered is there to be spent.
proof fn lemma_outstanding_is_spent(
    issued: Seq<ChallengeView>,
    device: Uuid,
    bytes: Seq<u8>,
    now: u64,
)
    requires
        bytes_of(challenges_where(issued, answerable(device, now))).contains(bytes),
    ensures
        challenges_where(issued, all_but(device, bytes)).len() < issued.len(),
    decreases issued.len(),
{
    let open = challenges_where(issued, answerable(device, now));
    let k = choose|k: int| 0 <= k < open.len() && bytes_of(open)[k] == bytes;
    assert(open[k].bytes == bytes);
    if issued.len() > 0 {
        let rest = issued.drop_last();
        let before = challenges_where(rest, answerable(device, now));
        lemma_no_more_than_all(rest, all_but(device, bytes));
        if k < before.len() {
            assert(bytes_of(before)[k] == bytes);
            lemma_outstanding_is_spent(rest, device, bytes, now);
        }
    }
}

proof fn lemma_no_more_than_all(issued: Seq<ChallengeView>, which: spec_fn(ChallengeView) -> bool)
    ensures
        challenges_where(issued, which).len() <= issued.len(),
    decreases issued.len(),
{
    if issued.len() > 0 {
        lemma_no_more_than_all(issued.drop_last(), which);
    }
}

/// Signing in with the answer to a challenge. `offered` are the challenges the
/// device may answer, with the bytes it signs for each.
pub fn login(
    state: &mut AppState,
    who: &str,
    request: &LoginRequest,
    offered: &Vec<Offered>,
) -> (outcome: Result<LoginResponse>)
    requires
        old(state).wf(),
    ensures
        final(state).wf(),
        exists|bytes: Seq<u8>, now: u64, tick: u64|
            bytes.len() == 32 && #[trigger] login_done(
                old(state)@,
                final(state)@,
                who@,
                *request,
                offered@,
                b64::encoded(bytes),
                now,
                tick,
                outcome,
            ),
{
    let bytes: [u8; 32] = random_bytes::<32>();
    let token: String = b64::encode(bytes.as_slice());
    let now: u64 = now_ms();
    let tick: u64 = state.limits.now();
    assert(bytes@.len() == 32);
    login_at(state, who, request, offered, token, now, tick)
}

} // verus!
