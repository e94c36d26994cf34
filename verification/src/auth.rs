//! Who is asking.
//!
//! A device proves itself by **signing a challenge** with the key it enrolled,
//! and gets a short-lived token for the requests that follow. Nothing that
//! could be replayed travels twice: the challenge is used once, the token
//! expires within the hour, and both live only in memory; a server that
//! restarts asks every device to sign again, which costs one round trip and
//! nobody's sleep.
//!
//! The master password never appears here at all. It is proved once, at
//! enrolment, and never again: after that the device key is the credential.

use crate::db::accounts::{self, Account};
use crate::db::devices::{self, device_of, Device};
use crate::db::{constant_time_eq, Db, DbView};
use crate::error::{ApiError, Refusal, Result};
use crate::ids::Uuid;
use crate::{b64, later, now_ms, random_bytes, text};
use ed25519_dalek::{Signature, VerifyingKey};
use vstd::prelude::*;

verus! {

/// A challenge is good for one minute: long enough for a slow link, short
/// enough that a copied one is worthless by the time it is copied.
pub const CHALLENGE_TTL_MS: u64 = 60_000;

/// Challenges a device may have outstanding at once. More than one, so that
/// somebody who learned a device id cannot keep it from ever signing in by
/// asking for a fresh challenge in its name just before it answers.
pub const CHALLENGES_PER_DEVICE: usize = 4;

/// Tokens a device may hold at once.
pub const TOKENS_PER_DEVICE: usize = 8;

/// Whether a signature is one of a key over some bytes, held to the strict
/// rules. False where the bytes of the key are no key.
pub uninterp spec fn strictly_signed(
    public_key: Seq<u8>,
    material: Seq<u8>,
    signature: Seq<u8>,
) -> bool;

/// `VerifyingKey::verify_strict` of `ed25519_dalek`, which rejects the weak
/// keys and malleable forms that plain verification accepts. What it finds is
/// named [`strictly_signed`].
#[verifier::external_body]
fn verify_strict(public_key: &[u8; 32], material: &[u8], signature: &[u8]) -> (valid: bool)
    requires
        signature@.len() == 64,
    ensures
        valid == strictly_signed(public_key@, material@, signature@),
{
    match (VerifyingKey::from_bytes(public_key), Signature::from_slice(signature)) {
        (Ok(key), Ok(signature)) => key.verify_strict(material, &signature).is_ok(),
        _ => false,
    }
}

/// Whether a device's key signed these bytes.
pub open spec fn is_signed(
    public_key: Seq<u8>,
    material: Seq<u8>,
    signature: Seq<u8>,
) -> bool {
    signature.len() == 64 && strictly_signed(public_key, material, signature)
}

/// Whether a device's key signed these bytes.
pub fn verify_signature(public_key: &[u8; 32], material: &[u8], signature: &[u8]) -> (valid: bool)
    ensures
        valid == is_signed(public_key@, material@, signature@),
{
    if signature.len() != 64 {
        return false;
    }
    verify_strict(public_key, material, signature)
}

/// What a device was given to sign, and until when.
#[derive(Debug)]
struct Challenge {
    device: Uuid,
    bytes: Vec<u8>,
    expires_ms: u64,
}

/// A challenge by its contents.
pub struct ChallengeView {
    pub device: Uuid,
    pub bytes: Seq<u8>,
    pub expires_ms: u64,
}

impl View for Challenge {
    type V = ChallengeView;

    closed spec fn view(&self) -> ChallengeView {
        ChallengeView { device: self.device, bytes: self.bytes@, expires_ms: self.expires_ms }
    }
}

/// The challenges devices were given and have not answered yet, oldest first.
#[derive(Debug)]
pub struct Challenges {
    issued: Vec<Challenge>,
}

impl View for Challenges {
    type V = Seq<ChallengeView>;

    closed spec fn view(&self) -> Seq<ChallengeView> {
        self.issued@.map_values(|challenge: Challenge| challenge@)
    }
}

/// The challenges that answer a question, in their order.
pub open spec fn challenges_where(
    issued: Seq<ChallengeView>,
    which: spec_fn(ChallengeView) -> bool,
) -> Seq<ChallengeView>
    decreases issued.len(),
{
    if issued.len() == 0 {
        Seq::empty()
    } else if which(issued.last()) {
        challenges_where(issued.drop_last(), which).push(issued.last())
    } else {
        challenges_where(issued.drop_last(), which)
    }
}

/// Not expired.
pub open spec fn unexpired(now: u64) -> spec_fn(ChallengeView) -> bool {
    |challenge: ChallengeView| challenge.expires_ms > now
}

/// What a device may answer at a time.
pub open spec fn answerable(device: Uuid, now: u64) -> spec_fn(ChallengeView) -> bool {
    |challenge: ChallengeView| challenge.device == device && challenge.expires_ms > now
}

/// Everything but one challenge of one device.
pub open spec fn all_but(device: Uuid, bytes: Seq<u8>) -> spec_fn(ChallengeView) -> bool {
    |challenge: ChallengeView| !(challenge.device == device && challenge.bytes == bytes)
}

/// How many challenges a device has.
pub open spec fn challenges_of(issued: Seq<ChallengeView>, device: Uuid) -> nat
    decreases issued.len(),
{
    if issued.len() == 0 {
        0
    } else {
        challenges_of(issued.drop_last(), device) + if issued.last().device == device {
            1nat
        } else {
            0
        }
    }
}

/// Where the oldest challenge of a device stands.
pub open spec fn oldest_of(issued: Seq<ChallengeView>, device: Uuid) -> int
    decreases issued.len(),
{
    if issued.len() == 0 || issued[0].device == device {
        0
    } else {
        1 + oldest_of(issued.skip(1), device)
    }
}

/// The challenges after a device was given another. The expired ones go, and
/// the oldest of that device's when there are too many.
pub open spec fn challenge_issued(
    issued: Seq<ChallengeView>,
    device: Uuid,
    bytes: Seq<u8>,
    now: u64,
) -> Seq<ChallengeView> {
    let live = challenges_where(issued, unexpired(now));
    let kept = if challenges_of(live, device) >= CHALLENGES_PER_DEVICE {
        live.remove(oldest_of(live, device))
    } else {
        live
    };
    kept.push(ChallengeView { device, bytes, expires_ms: later(now, CHALLENGE_TTL_MS) })
}

/// The bytes of challenges.
pub open spec fn bytes_of(issued: Seq<ChallengeView>) -> Seq<Seq<u8>> {
    issued.map_values(|challenge: ChallengeView| challenge.bytes)
}

/// Lists of bytes by their views.
pub open spec fn blobs_view(blobs: Seq<Vec<u8>>) -> Seq<Seq<u8>> {
    blobs.map_values(|blob: Vec<u8>| blob@)
}

proof fn lemma_challenges_prefix(issued: Seq<ChallengeView>, device: Uuid, n: int)
    requires
        0 <= n <= issued.len(),
        forall|i: int| 0 <= i < n ==> (#[trigger] issued[i]).device != device,
        n < issued.len() ==> issued[n].device == device,
    ensures
        oldest_of(issued, device) == n,
    decreases n,
{
    if n > 0 {
        assert(issued[0].device != device);
        let rest = issued.skip(1);
        assert forall|i: int| 0 <= i < n - 1 implies (#[trigger] rest[i]).device != device by {
            assert(rest[i] == issued[i + 1]);
        }
        if n < issued.len() {
            assert(rest[n - 1] == issued[n]);
        }
        lemma_challenges_prefix(rest, device, n - 1);
    }
}

proof fn lemma_some_challenge(issued: Seq<ChallengeView>, device: Uuid)
    requires
        forall|i: int| 0 <= i < issued.len() ==> (#[trigger] issued[i]).device != device,
    ensures
        challenges_of(issued, device) == 0,
    decreases issued.len(),
{
    if issued.len() > 0 {
        let rest = issued.drop_last();
        assert forall|i: int| 0 <= i < rest.len() implies (#[trigger] rest[i]).device != device by {
            assert(rest[i] == issued[i]);
        }
        lemma_some_challenge(rest, device);
        assert(issued[issued.len() - 1].device != device);
    }
}

impl Challenges {
    /// A fresh challenge of given bytes, at a given time.
    pub fn issue_at(&mut self, device: Uuid, bytes: Vec<u8>, now: u64)
        ensures
            final(self)@ == challenge_issued(old(self)@, device, bytes@, now),
    {
        let ghost all = self@;
        let ghost mut seen: int = 0;
        let mut at: usize = 0;
        let mut mine: usize = 0;
        assert(challenges_where(all.take(0), unexpired(now)) =~= Seq::empty());
        assert(all.skip(0) =~= all);
        while at < self.issued.len()
            invariant
                all == old(self)@,
                0 <= seen <= all.len(),
                self@ =~= challenges_where(all.take(seen), unexpired(now)) + all.skip(seen),
                at == challenges_where(all.take(seen), unexpired(now)).len(),
                mine == challenges_of(challenges_where(all.take(seen), unexpired(now)), device),
                mine <= at,
            decreases all.len() - seen,
        {
            let ghost kept = challenges_where(all.take(seen), unexpired(now));
            proof {
                assert(self@[at as int] == all[seen]);
                assert(self@[at as int] == self.issued@[at as int]@);
                assert(all.take(seen + 1).drop_last() =~= all.take(seen));
                assert(all.take(seen + 1).last() == all[seen]);
                assert(kept.push(all[seen]).drop_last() =~= kept);
            }
            let ghost earlier = self@;
            if self.issued[at].expires_ms > now {
                if self.issued[at].device == device {
                    mine = mine + 1;
                }
                at = at + 1;
            } else {
                let _ = self.issued.remove(at);
                assert(self@ =~= earlier.remove(at as int));
            }
            proof {
                seen = seen + 1;
            }
        }
        let ghost live = challenges_where(all, unexpired(now));
        proof {
            assert(all.skip(seen).len() == 0);
            assert(all.take(seen) =~= all);
            assert(self@ =~= live);
        }
        if mine >= CHALLENGES_PER_DEVICE {
            let mut first: usize = 0;
            while first < self.issued.len() && self.issued[first].device != device
                invariant
                    self@ == live,
                    first <= self.issued.len(),
                    forall|i: int| 0 <= i < first ==> (#[trigger] live[i]).device != device,
                decreases self.issued.len() - first,
            {
                assert(live[first as int] == self.issued@[first as int]@);
                first = first + 1;
            }
            proof {
                if first < self.issued.len() {
                    assert(live[first as int] == self.issued@[first as int]@);
                    lemma_challenges_prefix(live, device, first as int);
                } else {
                    lemma_some_challenge(live, device);
                }
            }
            let ghost earlier = self@;
            let _ = self.issued.remove(first);
            assert(self@ =~= earlier.remove(first as int));
        }
        let ghost kept = self@;
        let expires_ms: u64 = now.saturating_add(CHALLENGE_TTL_MS);
        let ghost next = ChallengeView { device, bytes: bytes@, expires_ms };
        self.issued.push(Challenge { device, bytes, expires_ms });
        assert(self@ =~= kept.push(next));
    }

    /// A fresh challenge. The oldest of that device's goes when there are too
    /// many.
    pub fn issue(&mut self, device: Uuid) -> (challenge: Vec<u8>)
        ensures
            challenge@.len() == 32,
            exists|now: u64|
                final(self)@ == #[trigger] challenge_issued(old(self)@, device, challenge@, now),
    {
        let bytes: [u8; 32] = random_bytes::<32>();
        let challenge: Vec<u8> = vstd::slice::slice_to_vec(bytes.as_slice());
        let kept: Vec<u8> = vstd::slice::slice_to_vec(bytes.as_slice());
        let now: u64 = now_ms();
        self.issue_at(device, kept, now);
        challenge
    }

    /// The challenges a device may answer at a given time.
    pub fn outstanding_at(&self, device: Uuid, now: u64) -> (challenges: Vec<Vec<u8>>)
        ensures
            blobs_view(challenges@) == bytes_of(challenges_where(self@, answerable(device, now))),
    {
        let ghost which = answerable(device, now);
        let mut challenges: Vec<Vec<u8>> = Vec::new();
        assert(blobs_view(challenges@) =~= bytes_of(challenges_where(self@.take(0), which)));
        for i in 0..self.issued.len()
            invariant
                which == answerable(device, now),
                blobs_view(challenges@) == bytes_of(challenges_where(self@.take(i as int), which)),
        {
            let ghost earlier = challenges_where(self@.take(i as int), which);
            let ghost given = blobs_view(challenges@);
            assert(self@.take(i + 1).drop_last() =~= self@.take(i as int));
            assert(self@.take(i + 1).last() == self.issued@[i as int]@);
            if self.issued[i].device == device && self.issued[i].expires_ms > now {
                let bytes: Vec<u8> = vstd::slice::slice_to_vec(self.issued[i].bytes.as_slice());
                challenges.push(bytes);
                assert(blobs_view(challenges@) =~= given.push(self.issued@[i as int]@.bytes));
                assert(bytes_of(earlier.push(self.issued@[i as int]@)) =~= bytes_of(earlier).push(
                    self.issued@[i as int]@.bytes,
                ));
            }
        }
        assert(self@.take(self@.len() as int) =~= self@);
        challenges
    }

    /// The challenges a device may answer now.
    pub fn outstanding(&self, device: Uuid) -> (challenges: Vec<Vec<u8>>)
        ensures
            exists|now: u64|
                blobs_view(challenges@) == bytes_of(
                    challenges_where(self@, #[trigger] answerable(device, now)),
                ),
    {
        let now: u64 = now_ms();
        self.outstanding_at(device, now)
    }

    /// Use one up. Returns whether it was still there: two requests carrying
    /// the same signature race here, and only one of them may win.
    pub fn spend(&mut self, device: Uuid, challenge: &[u8]) -> (spent: bool)
        ensures
            final(self)@ == challenges_where(old(self)@, all_but(device, challenge@)),
            spent == (final(self)@.len() < old(self)@.len()),
    {
        let ghost all = self@;
        let ghost which = all_but(device, challenge@);
        let ghost mut seen: int = 0;
        let before: usize = self.issued.len();
        let mut at: usize = 0;
        assert(challenges_where(all.take(0), which) =~= Seq::empty());
        assert(all.skip(0) =~= all);
        while at < self.issued.len()
            invariant
                all == old(self)@,
                which == all_but(device, challenge@),
                0 <= seen <= all.len(),
                self@ =~= challenges_where(all.take(seen), which) + all.skip(seen),
                at == challenges_where(all.take(seen), which).len(),
            decreases all.len() - seen,
        {
            proof {
                assert(self@[at as int] == all[seen]);
                assert(self@[at as int] == self.issued@[at as int]@);
                assert(all.take(seen + 1).drop_last() =~= all.take(seen));
                assert(all.take(seen + 1).last() == all[seen]);
            }
            let ghost earlier = self@;
            if self.issued[at].device == device && constant_time_eq(
                self.issued[at].bytes.as_slice(),
                challenge,
            ) {
                let _ = self.issued.remove(at);
                assert(self@ =~= earlier.remove(at as int));
            } else {
                at = at + 1;
            }
            proof {
                seen = seen + 1;
            }
        }
        proof {
            assert(all.skip(seen).len() == 0);
            assert(all.take(seen) =~= all);
            assert(self@ =~= challenges_where(all, which));
        }
        self.issued.len() < before
    }
}

impl Default for Challenges {
    fn default() -> (challenges: Self)
        ensures
            challenges@ == Seq::<ChallengeView>::empty(),
    {
        let challenges: Challenges = Challenges { issued: Vec::new() };
        assert(challenges@ =~= Seq::empty());
        challenges
    }
}

/// Who a token stands for, and until when.
#[derive(Debug, Clone, Copy, PartialEq, Eq, Structural)]
pub struct Session {
    pub account_id: Uuid,
    pub device_id: Uuid,
    pub expires_ms: u64,
}

#[derive(Debug)]
struct Token {
    token: String,
    session: Session,
}

/// A token and who it stands for.
pub struct TokenView {
    pub token: Seq<char>,
    pub session: Session,
}

impl View for Token {
    type V = TokenView;

    closed spec fn view(&self) -> TokenView {
        TokenView { token: self.token@, session: self.session }
    }
}

/// Session tokens, in memory only, oldest first.
#[derive(Debug)]
pub struct Sessions {
    tokens: Vec<Token>,
}

impl View for Sessions {
    type V = Seq<TokenView>;

    closed spec fn view(&self) -> Seq<TokenView> {
        self.tokens@.map_values(|token: Token| token@)
    }
}

/// Whether no token is there twice.
pub open spec fn tokens_differ(tokens: Seq<TokenView>) -> bool {
    forall|i: int, j: int|
        0 <= i < j < tokens.len() ==> (#[trigger] tokens[i]).token != (#[trigger] tokens[j]).token
}

/// The tokens that answer a question, in their order.
pub open spec fn tokens_where(
    tokens: Seq<TokenView>,
    which: spec_fn(TokenView) -> bool,
) -> Seq<TokenView>
    decreases tokens.len(),
{
    if tokens.len() == 0 {
        Seq::empty()
    } else if which(tokens.last()) {
        tokens_where(tokens.drop_last(), which).push(tokens.last())
    } else {
        tokens_where(tokens.drop_last(), which)
    }
}

/// Tokens that are to stay.
#[derive(Debug, Clone, Copy)]
enum Stay<'a> {
    /// The ones that have not run out.
    Unexpired(u64),
    /// The ones of other devices.
    OfOthers(Uuid),
    /// The ones that read otherwise.
    OtherThan(&'a str),
}

/// Tokens that have not run out.
pub open spec fn still_good(now: u64) -> spec_fn(TokenView) -> bool {
    |token: TokenView| token.session.expires_ms > now
}

/// Tokens of other devices.
pub open spec fn of_others(device: Uuid) -> spec_fn(TokenView) -> bool {
    |token: TokenView| token.session.device_id != device
}

/// Tokens that read otherwise.
pub open spec fn other_than(text: Seq<char>) -> spec_fn(TokenView) -> bool {
    |token: TokenView| token.token != text
}

impl<'a> Stay<'a> {
    spec fn which(self) -> spec_fn(TokenView) -> bool {
        match self {
            Stay::Unexpired(now) => still_good(now),
            Stay::OfOthers(device) => of_others(device),
            Stay::OtherThan(text) => other_than(text@),
        }
    }

    fn keeps(&self, token: &Token) -> (stays: bool)
        ensures
            stays == self.which()(token@),
    {
        match self {
            Stay::Unexpired(now) => token.session.expires_ms > *now,
            Stay::OfOthers(device) => token.session.device_id != *device,
            Stay::OtherThan(text) => !text::same(token.token.as_str(), text),
        }
    }
}

/// How many tokens a device holds.
pub open spec fn tokens_of(tokens: Seq<TokenView>, device: Uuid) -> nat
    decreases tokens.len(),
{
    if tokens.len() == 0 {
        0
    } else {
        tokens_of(tokens.drop_last(), device) + if tokens.last().session.device_id == device {
            1nat
        } else {
            0
        }
    }
}

/// Where the oldest token of a device stands.
pub open spec fn oldest_token_of(tokens: Seq<TokenView>, device: Uuid) -> int
    decreases tokens.len(),
{
    if tokens.len() == 0 || tokens[0].session.device_id == device {
        0
    } else {
        1 + oldest_token_of(tokens.skip(1), device)
    }
}

/// The tokens after a device was given another. The ones that ran out go, and
/// the oldest of that device's when there are too many.
pub open spec fn token_issued(
    tokens: Seq<TokenView>,
    token: Seq<char>,
    session: Session,
    now: u64,
) -> Seq<TokenView> {
    let good = tokens_where(tokens_where(tokens, still_good(now)), other_than(token));
    let kept = if tokens_of(good, session.device_id) >= TOKENS_PER_DEVICE {
        good.remove(oldest_token_of(good, session.device_id))
    } else {
        good
    };
    kept.push(TokenView { token, session })
}

/// Who a token stands for at a time, if anybody.
pub open spec fn session_of(tokens: Seq<TokenView>, token: Seq<char>, now: u64) -> Option<Session> {
    if exists|i: int|
        0 <= i < tokens.len() && (#[trigger] tokens[i]).token == token
            && tokens[i].session.expires_ms > now {
        let i = choose|i: int|
            0 <= i < tokens.len() && (#[trigger] tokens[i]).token == token
                && tokens[i].session.expires_ms > now;
        Some(tokens[i].session)
    } else {
        None
    }
}

proof fn lemma_tokens_where(tokens: Seq<TokenView>, which: spec_fn(TokenView) -> bool)
    requires
        tokens_differ(tokens),
    ensures
        tokens_differ(tokens_where(tokens, which)),
        forall|i: int|
            0 <= i < tokens_where(tokens, which).len() ==> which(
                #[trigger] tokens_where(tokens, which)[i],
            ) && tokens.contains(tokens_where(tokens, which)[i]),
        forall|i: int|
            0 <= i < tokens.len() && which(#[trigger] tokens[i]) ==> tokens_where(
                tokens,
                which,
            ).contains(tokens[i]),
    decreases tokens.len(),
{
    if tokens.len() > 0 {
        let rest = tokens.drop_last();
        lemma_tokens_where(rest, which);
        let before = tokens_where(rest, which);
        let chosen = tokens_where(tokens, which);
        assert forall|i: int| 0 <= i < chosen.len() implies which(#[trigger] chosen[i])
            && tokens.contains(chosen[i]) by {
            if i < before.len() {
                assert(chosen[i] == before[i]);
                assert(rest.contains(before[i]));
                let k = choose|k: int| 0 <= k < rest.len() && rest[k] == before[i];
                assert(tokens[k] == chosen[i]);
            } else {
                assert(tokens[tokens.len() - 1] == chosen[i]);
            }
        }
        assert forall|i: int, j: int| 0 <= i < j < chosen.len() implies (#[trigger] chosen[i]).token
            != (#[trigger] chosen[j]).token by {
            assert(chosen[i] == before[i]);
            if j < before.len() {
                assert(chosen[j] == before[j]);
            } else {
                assert(rest.contains(before[i]));
                let k = choose|k: int| 0 <= k < rest.len() && rest[k] == before[i];
                assert(tokens[k] == chosen[i]);
                assert(tokens[tokens.len() - 1] == chosen[j]);
            }
        }
        assert forall|i: int| 0 <= i < tokens.len() && which(
            #[trigger] tokens[i],
        ) implies chosen.contains(tokens[i]) by {
            if i < rest.len() {
                assert(rest[i] == tokens[i]);
                assert(before.contains(rest[i]));
                let k = choose|k: int| 0 <= k < before.len() && before[k] == rest[i];
                assert(chosen[k] == tokens[i]);
            } else {
                assert(chosen.last() == tokens[i]);
            }
        }
    }
}

proof fn lemma_oldest_token(tokens: Seq<TokenView>, device: Uuid, n: int)
    requires
        0 <= n <= tokens.len(),
        forall|i: int| 0 <= i < n ==> (#[trigger] tokens[i]).session.device_id != device,
        n < tokens.len() ==> tokens[n].session.device_id == device,
    ensures
        oldest_token_of(tokens, device) == n,
    decreases n,
{
    if n > 0 {
        assert(tokens[0].session.device_id != device);
        let rest = tokens.skip(1);
        assert forall|i: int| 0 <= i < n - 1 implies (#[trigger] rest[i]).session.device_id
            != device by {
            assert(rest[i] == tokens[i + 1]);
        }
        if n < tokens.len() {
            assert(rest[n - 1] == tokens[n]);
        }
        lemma_oldest_token(rest, device, n - 1);
    }
}

proof fn lemma_no_token(tokens: Seq<TokenView>, device: Uuid)
    requires
        forall|i: int| 0 <= i < tokens.len() ==> (#[trigger] tokens[i]).session.device_id != device,
    ensures
        tokens_of(tokens, device) == 0,
    decreases tokens.len(),
{
    if tokens.len() > 0 {
        let rest = tokens.drop_last();
        assert forall|i: int| 0 <= i < rest.len() implies (#[trigger] rest[i]).session.device_id
            != device by {
            assert(rest[i] == tokens[i]);
        }
        lemma_no_token(rest, device);
        assert(tokens[tokens.len() - 1].session.device_id != device);
    }
}

impl Sessions {
    pub open spec fn wf(self) -> bool {
        tokens_differ(self@)
    }

    /// Only some tokens stay.
    fn keep(&mut self, stay: Stay)
        requires
            old(self).wf(),
        ensures
            final(self).wf(),
            final(self)@ == tokens_where(old(self)@, stay.which()),
    {
        let ghost all = self@;
        let ghost which = stay.which();
        let ghost mut seen: int = 0;
        let mut at: usize = 0;
        assert(tokens_where(all.take(0), which) =~= Seq::empty());
        assert(all.skip(0) =~= all);
        while at < self.tokens.len()
            invariant
                all == old(self)@,
                which == stay.which(),
                0 <= seen <= all.len(),
                self@ =~= tokens_where(all.take(seen), which) + all.skip(seen),
                at == tokens_where(all.take(seen), which).len(),
            decreases all.len() - seen,
        {
            proof {
                assert(self@[at as int] == all[seen]);
                assert(self@[at as int] == self.tokens@[at as int]@);
                assert(all.take(seen + 1).drop_last() =~= all.take(seen));
                assert(all.take(seen + 1).last() == all[seen]);
            }
            let ghost earlier = self@;
            if stay.keeps(&self.tokens[at]) {
                at = at + 1;
            } else {
                let _ = self.tokens.remove(at);
                assert(self@ =~= earlier.remove(at as int));
            }
            proof {
                seen = seen + 1;
            }
        }
        proof {
            assert(all.skip(seen).len() == 0);
            assert(all.take(seen) =~= all);
            assert(self@ =~= tokens_where(all, which));
            lemma_tokens_where(all, which);
        }
    }

    /// How many tokens a device holds.
    fn held_by(&self, device: Uuid) -> (held: usize)
        ensures
            held == tokens_of(self@, device),
    {
        let mut held: usize = 0;
        for i in 0..self.tokens.len()
            invariant
                held == tokens_of(self@.take(i as int), device),
                held <= i,
        {
            assert(self@.take(i + 1).drop_last() =~= self@.take(i as int));
            assert(self@.take(i + 1).last() == self.tokens@[i as int]@);
            if self.tokens[i].session.device_id == device {
                held = held + 1;
            }
        }
        assert(self@.take(self@.len() as int) =~= self@);
        held
    }

    /// Give a device a token that reads `token`, at a given time. Returns when
    /// it runs out.
    pub fn issue_at(
        &mut self,
        token: String,
        account_id: Uuid,
        device_id: Uuid,
        ttl_ms: u64,
        now: u64,
    ) -> (expires_ms: u64)
        requires
            old(self).wf(),
        ensures
            final(self).wf(),
            expires_ms == later(now, ttl_ms),
            final(self)@ == token_issued(
                old(self)@,
                token@,
                Session { account_id, device_id, expires_ms },
                now,
            ),
    {
        let expires_ms: u64 = now.saturating_add(ttl_ms);
        let ghost first_good = tokens_where(self@, still_good(now));
        self.keep(Stay::Unexpired(now));
        self.keep(Stay::OtherThan(token.as_str()));
        let ghost good = self@;
        proof {
            lemma_tokens_where(old(self)@, still_good(now));
            lemma_tokens_where(first_good, other_than(token@));
        }
        if self.held_by(device_id) >= TOKENS_PER_DEVICE {
            let mut first: usize = 0;
            while first < self.tokens.len() && self.tokens[first].session.device_id != device_id
                invariant
                    self@ == good,
                    first <= self.tokens.len(),
                    forall|i: int|
                        0 <= i < first ==> (#[trigger] good[i]).session.device_id != device_id,
                decreases self.tokens.len() - first,
            {
                assert(good[first as int] == self.tokens@[first as int]@);
                first = first + 1;
            }
            proof {
                if first < self.tokens.len() {
                    assert(good[first as int] == self.tokens@[first as int]@);
                    lemma_oldest_token(good, device_id, first as int);
                } else {
                    lemma_no_token(good, device_id);
                }
            }
            let _ = self.tokens.remove(first);
            assert(self@ =~= good.remove(first as int));
        }
        let ghost kept = self@;
        let session: Session = Session { account_id, device_id, expires_ms };
        let ghost next = TokenView { token: token@, session };
        self.tokens.push(Token { token, session });
        proof {
            assert(self@ =~= kept.push(next));
            assert forall|i: int| 0 <= i < kept.len() implies (#[trigger] kept[i]).token
                != next.token by {
                assert(good.contains(kept[i]));
                let k = choose|k: int| 0 <= k < good.len() && good[k] == kept[i];
                assert(other_than(next.token)(good[k]));
            }
        }
        expires_ms
    }

    /// A token for a device that has proved itself, and when it runs out.
    pub fn issue(&mut self, account_id: Uuid, device_id: Uuid, ttl_ms: u64) -> (issued: (
        String,
        u64,
    ))
        requires
            old(self).wf(),
        ensures
            final(self).wf(),
            exists|bytes: Seq<u8>, now: u64|
                bytes.len() == 32 && issued.0@ == b64::encoded(bytes) && issued.1 == later(
                    now,
                    ttl_ms,
                ) && final(self)@ == #[trigger] token_issued(
                    old(self)@,
                    b64::encoded(bytes),
                    Session { account_id, device_id, expires_ms: issued.1 },
                    now,
                ),
    {
        let bytes: [u8; 32] = random_bytes::<32>();
        let token: String = b64::encode(bytes.as_slice());
        let now: u64 = now_ms();
        let expires_ms: u64 = self.issue_at(token.clone(), account_id, device_id, ttl_ms, now);
        assert(bytes@.len() == 32);
        (token, expires_ms)
    }

    /// Who a token stands for at a given time.
    pub fn get_at(&self, token: &str, now: u64) -> (session: Option<Session>)
        requires
            self.wf(),
        ensures
            session == session_of(self@, token@, now),
    {
        for i in 0..self.tokens.len()
            invariant
                self.wf(),
                forall|j: int| 0 <= j < i ==> (#[trigger] self@[j]).token != token@,
        {
            assert(self@[i as int] == self.tokens@[i as int]@);
            if text::same(self.tokens[i].token.as_str(), token) {
                return if self.tokens[i].session.expires_ms > now {
                    Some(self.tokens[i].session)
                } else {
                    None
                };
            }
        }
        None
    }

    /// Who a token stands for, if anybody.
    pub fn get(&self, token: &str) -> (session: Option<Session>)
        requires
            self.wf(),
        ensures
            exists|now: u64| session == #[trigger] session_of(self@, token@, now),
    {
        let now: u64 = now_ms();
        self.get_at(token, now)
    }

    /// Revoking a device must not leave it an hour of access it already holds.
    pub fn drop_device(&mut self, device_id: Uuid)
        requires
            old(self).wf(),
        ensures
            final(self).wf(),
            final(self)@ == tokens_where(old(self)@, of_others(device_id)),
    {
        self.keep(Stay::OfOthers(device_id));
    }

    /// [`sweep`](Self::sweep) at a given time.
    pub fn sweep_at(&mut self, now: u64)
        requires
            old(self).wf(),
        ensures
            final(self).wf(),
            final(self)@ == tokens_where(old(self)@, still_good(now)),
    {
        self.keep(Stay::Unexpired(now));
    }

    /// Forget the tokens that ran out.
    pub fn sweep(&mut self)
        requires
            old(self).wf(),
        ensures
            final(self).wf(),
            exists|now: u64|
                final(self)@ == tokens_where(old(self)@, #[trigger] still_good(now)),
    {
        let now: u64 = now_ms();
        self.sweep_at(now)
    }

    pub fn len(&self) -> (len: usize)
        ensures
            len == self@.len(),
    {
        self.tokens.len()
    }

    pub fn is_empty(&self) -> (empty: bool)
        ensures
            empty == (self@.len() == 0),
    {
        self.tokens.is_empty()
    }
}

impl Default for Sessions {
    fn default() -> (sessions: Self)
        ensures
            sessions.wf(),
            sessions@ == Seq::<TokenView>::empty(),
    {
        let sessions: Sessions = Sessions { tokens: Vec::new() };
        assert(sessions@ =~= Seq::empty());
        sessions
    }
}

/// A request that carries a valid token, with the account and device behind it.
///
/// Both are loaded fresh from the database on every request rather than kept in
/// the token, so revoking a device takes effect at once.
#[derive(Debug)]
pub struct Authenticated {
    pub account: Account,
    pub device: Device,
    /// The token itself, for a request that outlives the moment it was
    /// checked: an event stream asks again whether it is still good.
    pub token: String,
}

/// The token in an authorization header, if there is one.
pub open spec fn bearer(authorization: Option<Seq<char>>) -> Option<Seq<char>> {
    match authorization {
        Some(value) if text::starts_with(value, "Bearer "@) => Some(
            text::trimmed(value.skip("Bearer "@.len() as int)),
        ),
        _ => None,
    }
}

/// The session behind an authorization header at a time, if there is one.
pub open spec fn session_behind(
    tokens: Seq<TokenView>,
    authorization: Option<Seq<char>>,
    now: u64,
) -> Option<Session> {
    match bearer(authorization) {
        Some(token) => session_of(tokens, token, now),
        None => None,
    }
}

/// Whether the device of a session was shut out of its account.
pub open spec fn shut_out(db: DbView, session: Session) -> bool {
    &&& db.has_device(session.device_id)
    &&& db.device(session.device_id).revoked_ms is Some || db.device(session.device_id).account_id
        != session.account_id
}

/// Whether the device of a session is still in its account.
pub open spec fn still_enrolled(db: DbView, session: Session) -> bool {
    &&& db.has_device(session.device_id)
    &&& !shut_out(db, session)
    &&& db.has_account(session.account_id)
}

fn bearer_of(authorization: Option<&str>) -> (token: Option<String>)
    ensures
        match token {
            Some(token) => bearer(text::str_view(authorization)) == Some(token@),
            None => bearer(text::str_view(authorization)) is None,
        },
{
    match authorization {
        Some(value) => {
            let chars: Vec<char> = text::chars_of(value);
            match text::strip_prefix(chars.as_slice(), "Bearer ") {
                Some(rest) => Some(text::string_of(text::trim_chars(&rest).as_slice())),
                None => None,
            }
        },
        None => None,
    }
}

/// What authenticating a request does and is answered. A token of a device
/// that was shut out goes with all the others of that device: one outliving
/// its device would be an hour of access nobody can take away.
pub open spec fn authenticate_done(
    before: Seq<TokenView>,
    after: Seq<TokenView>,
    db: DbView,
    authorization: Option<Seq<char>>,
    now: u64,
    authenticated: Result<Authenticated>,
) -> bool {
    let session = session_behind(before, authorization, now);
    match authenticated {
        Ok(auth) => {
            &&& session is Some && still_enrolled(db, session->Some_0)
            &&& auth.account == (Account {
                id: session->Some_0.account_id,
                vault_id: db.account(session->Some_0.account_id).header.vault_id,
                seq: db.account(session->Some_0.account_id).seq,
            })
            &&& auth.device@ == device_of(db.device(session->Some_0.device_id))
            &&& bearer(authorization) == Some(auth.token@)
            &&& after == before
        },
        Err(error) => {
            &&& session is None || !still_enrolled(db, session->Some_0)
            &&& error@ == Refusal::Unauthorized
            &&& after == if session is Some && shut_out(db, session->Some_0) {
                tokens_where(before, of_others(session->Some_0.device_id))
            } else {
                before
            }
        },
    }
}

/// [`authenticate`] at a given time.
pub fn authenticate_at(
    sessions: &mut Sessions,
    db: &Db,
    authorization: Option<&str>,
    now: u64,
) -> (authenticated: Result<Authenticated>)
    requires
        old(sessions).wf(),
        db@.wf(),
    ensures
        final(sessions).wf(),
        authenticate_done(
            old(sessions)@,
            final(sessions)@,
            db@,
            text::str_view(authorization),
            now,
            authenticated,
        ),
{
    let token: String = match bearer_of(authorization) {
        Some(token) => token,
        None => {
            return Err(ApiError::Unauthorized);
        },
    };
    let session: Session = match sessions.get_at(token.as_str(), now) {
        Some(session) => session,
        None => {
            return Err(ApiError::Unauthorized);
        },
    };
    let device: Device = match devices::get(db, session.device_id) {
        Some(device) => device,
        None => {
            return Err(ApiError::Unauthorized);
        },
    };
    if device.revoked || device.account_id != session.account_id {
        sessions.drop_device(session.device_id);
        return Err(ApiError::Unauthorized);
    }
    match accounts::get(db, session.account_id) {
        Some(account) => Ok(Authenticated { account, device, token }),
        None => Err(ApiError::Unauthorized),
    }
}

/// The device behind the bearer token in an authorization header, if there is
/// one and it is still in.
pub fn authenticate(
    sessions: &mut Sessions,
    db: &Db,
    authorization: Option<&str>,
) -> (authenticated: Result<Authenticated>)
    requires
        old(sessions).wf(),
        db@.wf(),
    ensures
        final(sessions).wf(),
        exists|now: u64| #[trigger]
            authenticate_done(
                old(sessions)@,
                final(sessions)@,
                db@,
                text::str_view(authorization),
                now,
                authenticated,
            ),
{
    let now: u64 = now_ms();
    authenticate_at(sessions, db, authorization, now)
}

/// Whether a token is still good and its device still in. Both: a device
/// revoked from the command line is revoked by another process, whose word
/// reaches this one through the database and not through its tokens.
pub open spec fn is_still_in(
    tokens: Seq<TokenView>,
    db: DbView,
    token: Seq<char>,
    device: Uuid,
    now: u64,
) -> bool {
    session_of(tokens, token, now) is Some && db.has_device(device) && db.device(
        device,
    ).revoked_ms is None
}

/// [`still_in`] at a given time.
pub fn still_in_at(
    sessions: &Sessions,
    db: &Db,
    token: &str,
    device: Uuid,
    now: u64,
) -> (still: bool)
    requires
        sessions.wf(),
        db@.wf(),
    ensures
        still == is_still_in(sessions@, db@, token@, device, now),
{
    sessions.get_at(token, now).is_some() && match devices::get(db, device) {
        Some(found) => !found.revoked,
        None => false,
    }
}

/// Whether a stream's token is still good and its device still in.
pub fn still_in(sessions: &Sessions, db: &Db, token: &str, device: Uuid) -> (still: bool)
    requires
        sessions.wf(),
        db@.wf(),
    ensures
        exists|now: u64| still == #[trigger] is_still_in(sessions@, db@, token@, device, now),
{
    let now: u64 = now_ms();
    still_in_at(sessions, db, token, device, now)
}

} // verus!
