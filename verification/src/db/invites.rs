//! Codes that let someone in once.
//!
//! An **invite** creates an account. An **enrolment token** adds a device to an
//! account that exists, and only a device already in that account can make one;
//! it travels to the joining device through a channel this server cannot read,
//! so the server never learns it in the clear.
//!
//! Both are stored as a hash. What is written down cannot be used to get in,
//! and both can only be redeemed once.

use crate::db::{constant_time_eq, Db, DbView, EnrolmentRow, EnrolmentView, InviteRow, InviteView};
use crate::error::{refused, ApiError, Refusal, Result};
use crate::ids::Uuid;
use crate::{b64, later, now_ms, random_bytes, sha256, sha256_of, text};
use vstd::prelude::*;
use vstd::utf8::encode_utf8;

verus! {

/// Crockford's alphabet without the letters that look like digits: a code gets
/// read aloud and typed in.
pub const ALPHABET: &'static str = "ABCDEFGHJKMNPQRSTVWXYZ23456789";

pub const INVITE_TTL_MS: u64 = 7 * 24 * 60 * 60 * 1000;

pub const ENROLMENT_TTL_MS: u64 = 10 * 60 * 1000;

/// Wrong master passwords one enrolment token survives. The token is 256
/// bits, so this is not about guessing it; it is about whoever holds one
/// guessing the password with it, which is exactly what it must not be good
/// for. The person who really is joining mistypes twice, not five times.
pub const ENROLMENT_ATTEMPTS: u64 = 5;

/// How long codes that are worth nothing any more are kept.
pub const KEPT_MS: u64 = 30 * 24 * 60 * 60 * 1000;

/// The letter a random byte stands for.
pub open spec fn letter(byte: u8) -> char {
    ALPHABET@[(byte % 30) as int]
}

/// The letter a random byte stands for.
pub fn letter_of(byte: u8) -> (c: char)
    ensures
        c == letter(byte),
{
    proof {
        reveal_strlit("ABCDEFGHJKMNPQRSTVWXYZ23456789");
    }
    ALPHABET.get_char((byte % 30) as usize)
}

/// The code that random bytes make: a letter for each, in groups of five.
pub open spec fn code_text(bytes: Seq<u8>) -> Seq<char>
    decreases bytes.len(),
{
    if bytes.len() == 0 {
        Seq::empty()
    } else {
        let rest = code_text(bytes.drop_last());
        let dash = bytes.len() - 1 > 0 && (bytes.len() - 1) % 5 == 0;
        (if dash {
            rest.push('-')
        } else {
            rest
        }).push(letter(bytes.last()))
    }
}

/// The code that random bytes make.
pub fn code_from(bytes: &[u8; 15]) -> (code: String)
    ensures
        code@ == code_text(bytes@),
{
    let mut code: String = String::new();
    assert(code@ =~= code_text(bytes@.take(0)));
    for i in 0..15
        invariant
            code@ == code_text(bytes@.take(i as int)),
    {
        assert(bytes@.take(i + 1).drop_last() =~= bytes@.take(i as int));
        assert(bytes@.take(i + 1).last() == bytes@[i as int]);
        if i > 0 && i % 5 == 0 {
            code.push('-');
        }
        code.push(letter_of(bytes[i]));
    }
    assert(bytes@.take(15) =~= bytes@);
    code
}

/// Fifteen characters from thirty, in three groups: about 73 bits, which no
/// rate-limited guesser will ever walk through.
pub fn code() -> (code: String)
    ensures
        exists|bytes: Seq<u8>| bytes.len() == 15 && code@ == #[trigger] code_text(bytes),
{
    let bytes: [u8; 15] = random_bytes::<15>();
    assert(bytes@.len() == 15);
    code_from(&bytes)
}

/// The letters and digits of ASCII.
pub open spec fn is_alnum(c: char) -> bool {
    'A' <= c <= 'Z' || 'a' <= c <= 'z' || '0' <= c <= '9'
}

/// An ASCII letter in upper case; anything else as it is.
pub open spec fn upper(c: char) -> char {
    if 'a' <= c <= 'z' {
        (c as u8 - 32) as char
    } else {
        c
    }
}

/// A code without what is noise in it.
pub open spec fn normalised(code: Seq<char>) -> Seq<char>
    decreases code.len(),
{
    if code.len() == 0 {
        Seq::empty()
    } else if is_alnum(code.last()) {
        normalised(code.drop_last()).push(upper(code.last()))
    } else {
        normalised(code.drop_last())
    }
}

/// Codes are compared as typed, not as they look: dashes and case are noise.
pub fn normalise(code: &str) -> (plain: String)
    ensures
        plain@ == normalised(code@),
{
    let chars: Vec<char> = text::chars_of(code);
    let mut plain: String = String::new();
    assert(plain@ =~= normalised(chars@.take(0)));
    for i in 0..chars.len()
        invariant
            plain@ == normalised(chars@.take(i as int)),
    {
        let c: char = chars[i];
        assert(chars@.take(i + 1).drop_last() =~= chars@.take(i as int));
        assert(chars@.take(i + 1).last() == c);
        if 'a' <= c && c <= 'z' {
            plain.push((c as u8 - 32) as char);
        } else if ('A' <= c && c <= 'Z') || ('0' <= c && c <= '9') {
            plain.push(c);
        }
    }
    assert(chars@.take(chars@.len() as int) =~= chars@);
    plain
}

/// What is stored of a code.
pub open spec fn code_hash(code: Seq<char>) -> Seq<u8> {
    sha256_of(encode_utf8(normalised(code)))
}

/// What is stored of a code.
pub fn hash(code: &str) -> (digest: Vec<u8>)
    ensures
        digest@ == code_hash(code@),
{
    let plain: String = normalise(code);
    let digest: [u8; 32] = sha256(plain.as_str().as_bytes());
    vstd::slice::slice_to_vec(digest.as_slice())
}

/// What is stored of an enrolment token.
pub open spec fn token_hash(token: Seq<char>) -> Seq<u8> {
    sha256_of(encode_utf8(token))
}

fn hash_token(token: &str) -> (digest: Vec<u8>)
    ensures
        digest@ == token_hash(token@),
{
    let digest: [u8; 32] = sha256(token.as_bytes());
    vstd::slice::slice_to_vec(digest.as_slice())
}

proof fn lemma_normalised_concat(a: Seq<char>, b: Seq<char>)
    ensures
        normalised(a + b) == normalised(a) + normalised(b),
    decreases b.len(),
{
    if b.len() == 0 {
        assert(a + b =~= a);
        assert(normalised(a) + normalised(b) =~= normalised(a));
    } else {
        assert((a + b).drop_last() =~= a + b.drop_last());
        lemma_normalised_concat(a, b.drop_last());
        assert(normalised(a) + normalised(b.drop_last()).push(upper(b.last())) =~= (normalised(a)
            + normalised(b.drop_last())).push(upper(b.last())));
    }
}

proof fn lemma_normalised_one(c: char)
    ensures
        normalised(seq![c]) == if is_alnum(c) {
            seq![upper(c)]
        } else {
            Seq::empty()
        },
{
    let one = seq![c];
    assert(one.drop_last() =~= Seq::<char>::empty());
    assert(normalised(one.drop_last()) =~= Seq::<char>::empty());
    assert(one.last() == c);
    assert(Seq::<char>::empty().push(upper(c)) =~= seq![upper(c)]);
}

/// Dashes, spaces and whatever else is no letter or digit make no difference
/// to a code, wherever they stand in it.
pub proof fn dashes_are_noise(before: Seq<char>, c: char, after: Seq<char>)
    requires
        !is_alnum(c),
    ensures
        code_hash(before + seq![c] + after) == code_hash(before + after),
{
    lemma_normalised_concat(before + seq![c], after);
    lemma_normalised_concat(before, seq![c]);
    lemma_normalised_concat(before, after);
    lemma_normalised_one(c);
    assert(normalised(before) + Seq::<char>::empty() =~= normalised(before));
}

/// The case of a letter makes no difference to a code.
pub proof fn case_is_noise(before: Seq<char>, c: char, d: char, after: Seq<char>)
    requires
        is_alnum(c),
        is_alnum(d),
        upper(c) == upper(d),
    ensures
        code_hash(before + seq![c] + after) == code_hash(before + seq![d] + after),
{
    lemma_normalised_concat(before + seq![c], after);
    lemma_normalised_concat(before, seq![c]);
    lemma_normalised_one(c);
    lemma_normalised_concat(before + seq![d], after);
    lemma_normalised_concat(before, seq![d]);
    lemma_normalised_one(d);
}

/// Whether an invite still opens something.
pub open spec fn is_open(invite: InviteView, now: u64) -> bool {
    invite.used_ms is None && invite.expires_ms > now
}

/// Whether there is an invite with that hash.
pub open spec fn has_invite(db: DbView, hash: Seq<u8>) -> bool {
    exists|i: int| 0 <= i < db.invites.len() && (#[trigger] db.invites[i]).code_hash == hash
}

/// Where that invite stands.
pub open spec fn invite_at(db: DbView, hash: Seq<u8>) -> int {
    choose|i: int| 0 <= i < db.invites.len() && (#[trigger] db.invites[i]).code_hash == hash
}

fn find_invite(db: &Db, hash: &Vec<u8>) -> (at: Option<usize>)
    ensures
        at is Some <==> has_invite(db@, hash@),
        at matches Some(at) ==> at < db.invites.len() && db.invites[at as int].code_hash@ == hash@,
        db@.wf() ==> (at matches Some(at) ==> at == invite_at(db@, hash@)),
{
    for i in 0..db.invites.len()
        invariant
            forall|j: int| 0 <= j < i ==> (#[trigger] db.invites[j]).code_hash@ != hash@,
    {
        if constant_time_eq(db.invites[i].code_hash.as_slice(), hash.as_slice()) {
            assert(db@.invites[i as int].code_hash == hash@);
            return Some(i);
        }
    }
    assert forall|j: int| 0 <= j < db@.invites.len() implies (
    #[trigger] db@.invites[j]).code_hash != hash@ by {
        assert(db.invites[j].code_hash@ != hash@);
    }
    None
}

/// What making an invite of a given code and at a given time does.
pub open spec fn invite_done(
    before: DbView,
    after: DbView,
    code: Seq<char>,
    ttl_ms: u64,
    now: u64,
    refusal: Option<Refusal>,
) -> bool {
    match refusal {
        None => {
            &&& !has_invite(before, code_hash(code))
            &&& after == (DbView {
                invites: before.invites.push(
                    InviteView {
                        code_hash: code_hash(code),
                        created_ms: now,
                        expires_ms: later(now, ttl_ms),
                        used_ms: None,
                    },
                ),
                ..before
            })
        },
        Some(error) => {
            &&& has_invite(before, code_hash(code))
            &&& error == Refusal::Database("UNIQUE constraint failed: invites.code_hash"@)
            &&& after == before
        },
    }
}

/// Keep an invite of a given code, made at a given time.
pub fn create_invite_at(db: &mut Db, code: &str, ttl_ms: u64, now: u64) -> (made: Result<()>)
    requires
        old(db)@.wf(),
    ensures
        final(db)@.wf(),
        invite_done(old(db)@, final(db)@, code@, ttl_ms, now, refused(made)),
{
    let digest: Vec<u8> = hash(code);
    if find_invite(db, &digest).is_some() {
        return Err(ApiError::Database("UNIQUE constraint failed: invites.code_hash".to_owned()));
    }
    let row: InviteRow = InviteRow {
        code_hash: digest,
        created_ms: now,
        expires_ms: now.saturating_add(ttl_ms),
        used_ms: None,
    };
    proof {
        assert forall|i: int| 0 <= i < db@.invites.len() implies (
        #[trigger] db@.invites[i]).code_hash != row@.code_hash by {
            assert(!has_invite(old(db)@, code_hash(code@)));
        }
    }
    db.invites.push(row);
    assert(db@.invites =~= old(db)@.invites.push(row@));
    assert forall|i: int, j: int| 0 <= i < j < db@.invites.len() implies (
    #[trigger] db@.invites[i]).code_hash != (#[trigger] db@.invites[j]).code_hash by {
        assert(db@.invites[i] == old(db)@.invites[i]);
        if j < old(db)@.invites.len() {
            assert(db@.invites[j] == old(db)@.invites[j]);
        }
    }
    Ok(())
}

/// Make an invite. The code is returned once and never stored.
pub fn create_invite(db: &mut Db, ttl_ms: u64) -> (made: Result<String>)
    requires
        old(db)@.wf(),
    ensures
        final(db)@.wf(),
        exists|bytes: Seq<u8>, now: u64|
            bytes.len() == 15 && #[trigger] invite_done(
                old(db)@,
                final(db)@,
                code_text(bytes),
                ttl_ms,
                now,
                refused(made),
            ) && (made matches Ok(code) ==> code@ == code_text(bytes)),
{
    let code: String = code();
    let ghost bytes = choose|bytes: Seq<u8>|
        bytes.len() == 15 && code@ == #[trigger] code_text(bytes);
    let now: u64 = now_ms();
    match create_invite_at(db, code.as_str(), ttl_ms, now) {
        Ok(()) => {
            assert(invite_done(old(db)@, db@, code_text(bytes), ttl_ms, now, None));
            Ok(code)
        },
        Err(error) => {
            assert(invite_done(old(db)@, db@, code_text(bytes), ttl_ms, now, Some(error@)));
            Err(error)
        },
    }
}

/// Whether a code opens something at a given time.
pub open spec fn redeemable(db: DbView, code: Seq<char>, now: u64) -> bool {
    has_invite(db, code_hash(code)) && is_open(db.invites[invite_at(db, code_hash(code))], now)
}

/// The database once an invite was used at a given time.
pub open spec fn redeemed(db: DbView, code: Seq<char>, now: u64) -> DbView {
    let at = invite_at(db, code_hash(code));
    DbView {
        invites: db.invites.update(at, InviteView { used_ms: Some(now), ..db.invites[at] }),
        ..db
    }
}

/// [`redeem_invite`] at a given time.
pub fn redeem_invite_at(db: &mut Db, code: &str, now: u64) -> (was_one: bool)
    requires
        old(db)@.wf(),
    ensures
        final(db)@.wf(),
        was_one == redeemable(old(db)@, code@, now),
        final(db)@ == if was_one {
            redeemed(old(db)@, code@, now)
        } else {
            old(db)@
        },
{
    let digest: Vec<u8> = hash(code);
    match find_invite(db, &digest) {
        Some(at) => {
            assert(db@.invites[at as int] == db.invites[at as int]@);
            if db.invites[at].used_ms.is_none() && db.invites[at].expires_ms > now {
                db.invites[at].used_ms = Some(now);
                assert(db@.invites =~= redeemed(old(db)@, code@, now).invites);
                assert forall|i: int, j: int| 0 <= i < j < db@.invites.len() implies (
                #[trigger] db@.invites[i]).code_hash != (#[trigger] db@.invites[j]).code_hash by {
                    assert(old(db)@.invites[i].code_hash != old(db)@.invites[j].code_hash);
                }
                true
            } else {
                false
            }
        },
        None => false,
    }
}

/// Use an invite up. Returns whether it was one: unused, unexpired, and
/// exactly this one.
pub fn redeem_invite(db: &mut Db, code: &str) -> (was_one: bool)
    requires
        old(db)@.wf(),
    ensures
        final(db)@.wf(),
        exists|now: u64|
            was_one == #[trigger] redeemable(old(db)@, code@, now) && final(db)@ == if was_one {
                redeemed(old(db)@, code@, now)
            } else {
                old(db)@
            },
{
    let now: u64 = now_ms();
    redeem_invite_at(db, code, now)
}

/// How many of these invites are open.
pub open spec fn open_invites(invites: Seq<InviteView>, now: u64) -> nat
    decreases invites.len(),
{
    if invites.len() == 0 {
        0
    } else {
        open_invites(invites.drop_last(), now) + if is_open(invites.last(), now) {
            1nat
        } else {
            0
        }
    }
}

/// [`count_open_invites`] at a given time.
pub fn count_open_invites_at(db: &Db, now: u64) -> (count: usize)
    ensures
        count == open_invites(db@.invites, now),
{
    let mut count: usize = 0;
    for i in 0..db.invites.len()
        invariant
            count == open_invites(db@.invites.take(i as int), now),
            count <= i,
    {
        assert(db@.invites.take(i + 1).drop_last() =~= db@.invites.take(i as int));
        assert(db@.invites.take(i + 1).last() == db.invites[i as int]@);
        if db.invites[i].used_ms.is_none() && db.invites[i].expires_ms > now {
            count = count + 1;
        }
    }
    assert(db@.invites.take(db@.invites.len() as int) =~= db@.invites);
    count
}

/// How many invites are open.
pub fn count_open_invites(db: &Db) -> (count: usize)
    ensures
        exists|now: u64| count == #[trigger] open_invites(db@.invites, now),
{
    let now: u64 = now_ms();
    count_open_invites_at(db, now)
}

/// An invite works once: whoever comes with its code again, at whatever time,
/// finds it used.
pub proof fn an_invite_works_once(
    db: DbView,
    code: Seq<char>,
    now: u64,
    again: Seq<char>,
    at_another_time: u64,
)
    requires
        db.wf(),
        redeemable(db, code, now),
        code_hash(again) == code_hash(code),
    ensures
        !redeemable(redeemed(db, code, now), again, at_another_time),
{
    let at = invite_at(db, code_hash(code));
    let after = redeemed(db, code, now);
    let found = invite_at(after, code_hash(again));
    if has_invite(after, code_hash(again)) {
        assert(after.invites[found].code_hash == code_hash(code));
        assert(db.invites[found].code_hash == code_hash(code));
        assert(found == at);
    }
}

/// Whether there is a token with that hash.
pub open spec fn has_enrolment(db: DbView, hash: Seq<u8>) -> bool {
    exists|i: int| 0 <= i < db.enrolments.len() && (#[trigger] db.enrolments[i]).token_hash == hash
}

/// Where that token stands.
pub open spec fn enrolment_at(db: DbView, hash: Seq<u8>) -> int {
    choose|i: int| 0 <= i < db.enrolments.len() && (#[trigger] db.enrolments[i]).token_hash == hash
}

/// What is kept of a token.
pub open spec fn enrolment(db: DbView, token: Seq<char>) -> EnrolmentView {
    db.enrolments[enrolment_at(db, token_hash(token))]
}

/// The database with that token changed, and nothing else.
pub open spec fn with_enrolment(db: DbView, token: Seq<char>, changed: EnrolmentView) -> DbView {
    DbView {
        enrolments: db.enrolments.update(enrolment_at(db, token_hash(token)), changed),
        ..db
    }
}

/// Whether there is such a token and it has not been used.
pub open spec fn is_unused(db: DbView, token: Seq<char>) -> bool {
    has_enrolment(db, token_hash(token)) && enrolment(db, token).used_ms is None
}

/// Which account a token joins at a given time, if any.
pub open spec fn joins(db: DbView, token: Seq<char>, now: u64) -> Option<Uuid> {
    if is_unused(db, token) && enrolment(db, token).expires_ms > now {
        Some(enrolment(db, token).account_id)
    } else {
        None
    }
}

fn find_enrolment(db: &Db, hash: &Vec<u8>) -> (at: Option<usize>)
    ensures
        at is Some <==> has_enrolment(db@, hash@),
        at matches Some(at) ==> at < db.enrolments.len() && db.enrolments[at as int].token_hash@
            == hash@,
        db@.wf() ==> (at matches Some(at) ==> at == enrolment_at(db@, hash@)),
{
    for i in 0..db.enrolments.len()
        invariant
            forall|j: int| 0 <= j < i ==> (#[trigger] db.enrolments[j]).token_hash@ != hash@,
    {
        if constant_time_eq(db.enrolments[i].token_hash.as_slice(), hash.as_slice()) {
            assert(db@.enrolments[i as int].token_hash == hash@);
            return Some(i);
        }
    }
    assert forall|j: int| 0 <= j < db@.enrolments.len() implies (
    #[trigger] db@.enrolments[j]).token_hash != hash@ by {
        assert(db.enrolments[j].token_hash@ != hash@);
    }
    None
}

proof fn lemma_changed_enrolment_wf(db: DbView, at: int, changed: EnrolmentView)
    requires
        db.wf(),
        0 <= at < db.enrolments.len(),
        changed.token_hash == db.enrolments[at].token_hash,
        changed.used_ms is None ==> changed.failures < ENROLMENT_ATTEMPTS,
    ensures
        (DbView { enrolments: db.enrolments.update(at, changed), ..db }).wf(),
{
    let after = DbView { enrolments: db.enrolments.update(at, changed), ..db };
    assert forall|i: int, j: int| 0 <= i < j < after.enrolments.len() implies (
    #[trigger] after.enrolments[i]).token_hash != (#[trigger] after.enrolments[j]).token_hash by {
        assert(db.enrolments[i].token_hash != db.enrolments[j].token_hash);
    }
}

/// What keeping a given token, made at a given time, does.
pub open spec fn enrolment_done(
    before: DbView,
    after: DbView,
    token: Seq<char>,
    account_id: Uuid,
    device: Uuid,
    now: u64,
    refusal: Option<Refusal>,
) -> bool {
    match refusal {
        None => {
            &&& !has_enrolment(before, token_hash(token)) && before.has_account(account_id)
            &&& after == (DbView {
                enrolments: before.enrolments.push(
                    EnrolmentView {
                        token_hash: token_hash(token),
                        account_id,
                        created_ms: now,
                        expires_ms: later(now, ENROLMENT_TTL_MS),
                        used_ms: None,
                        device_id: Some(device),
                        failures: 0,
                    },
                ),
                ..before
            })
        },
        Some(error) => {
            &&& after == before
            &&& if has_enrolment(before, token_hash(token)) {
                error == Refusal::Database("UNIQUE constraint failed: enrolments.token_hash"@)
            } else {
                &&& !before.has_account(account_id)
                &&& error == Refusal::Database("FOREIGN KEY constraint failed"@)
            }
        },
    }
}

/// Keep a given token, made at a given time.
pub fn create_enrolment_at(
    db: &mut Db,
    token: &str,
    account_id: Uuid,
    device: Uuid,
    now: u64,
) -> (made: Result<()>)
    requires
        old(db)@.wf(),
    ensures
        final(db)@.wf(),
        enrolment_done(old(db)@, final(db)@, token@, account_id, device, now, refused(made)),
{
    let digest: Vec<u8> = hash_token(token);
    if find_enrolment(db, &digest).is_some() {
        return Err(
            ApiError::Database("UNIQUE constraint failed: enrolments.token_hash".to_owned()),
        );
    }
    if db.find_account(account_id).is_none() {
        return Err(ApiError::Database("FOREIGN KEY constraint failed".to_owned()));
    }
    let row: EnrolmentRow = EnrolmentRow {
        token_hash: digest,
        account_id,
        created_ms: now,
        expires_ms: now.saturating_add(ENROLMENT_TTL_MS),
        used_ms: None,
        device_id: Some(device),
        failures: 0,
    };
    proof {
        assert forall|i: int| 0 <= i < db@.enrolments.len() implies (
        #[trigger] db@.enrolments[i]).token_hash != row@.token_hash by {
            assert(!has_enrolment(old(db)@, token_hash(token@)));
        }
    }
    db.enrolments.push(row);
    assert(db@.enrolments =~= old(db)@.enrolments.push(row@));
    Ok(())
}

/// A one-time token for a device joining an account that already exists,
/// made by `device`, which it dies with, should that device be revoked
/// before the token is used.
pub fn create_enrolment(db: &mut Db, account_id: Uuid, device: Uuid) -> (made: Result<String>)
    requires
        old(db)@.wf(),
    ensures
        final(db)@.wf(),
        exists|bytes: Seq<u8>, now: u64|
            bytes.len() == 32 && #[trigger] enrolment_done(
                old(db)@,
                final(db)@,
                b64::encoded(bytes),
                account_id,
                device,
                now,
                refused(made),
            ) && (made matches Ok(token) ==> token@ == b64::encoded(bytes)),
{
    let bytes: [u8; 32] = random_bytes::<32>();
    let token: String = b64::encode(bytes.as_slice());
    let now: u64 = now_ms();
    match create_enrolment_at(db, token.as_str(), account_id, device, now) {
        Ok(()) => {
            assert(enrolment_done(
                old(db)@,
                db@,
                b64::encoded(bytes@),
                account_id,
                device,
                now,
                None,
            ));
            Ok(token)
        },
        Err(error) => {
            assert(enrolment_done(
                old(db)@,
                db@,
                b64::encoded(bytes@),
                account_id,
                device,
                now,
                Some(error@),
            ));
            Err(error)
        },
    }
}

/// A token with which a wrong password was tried once more. The last try that
/// it survives not uses it up.
pub open spec fn failed_once_more(row: EnrolmentView, now: u64) -> EnrolmentView {
    EnrolmentView {
        failures: (row.failures + 1) as u64,
        used_ms: if row.failures + 1 >= ENROLMENT_ATTEMPTS {
            Some(now)
        } else {
            row.used_ms
        },
        ..row
    }
}

/// The database once a wrong password was tried with a token.
pub open spec fn failed_db(db: DbView, token: Seq<char>, now: u64) -> DbView {
    if is_unused(db, token) {
        with_enrolment(db, token, failed_once_more(enrolment(db, token), now))
    } else {
        db
    }
}

/// [`enrolment_failed`] at a given time.
pub fn enrolment_failed_at(db: &mut Db, token: &str, now: u64) -> (spent: bool)
    requires
        old(db)@.wf(),
    ensures
        final(db)@.wf(),
        spent == (is_unused(old(db)@, token@) && enrolment(old(db)@, token@).failures + 1
            >= ENROLMENT_ATTEMPTS),
        final(db)@ == failed_db(old(db)@, token@, now),
{
    let digest: Vec<u8> = hash_token(token);
    match find_enrolment(db, &digest) {
        Some(at) => {
            let ghost before = db.enrolments[at as int]@;
            assert(db@.enrolments[at as int] == before);
            if db.enrolments[at].used_ms.is_none() {
                let failures: u64 = db.enrolments[at].failures + 1;
                db.enrolments[at].failures = failures;
                if failures >= ENROLMENT_ATTEMPTS {
                    db.enrolments[at].used_ms = Some(now);
                }
                proof {
                    let changed = failed_once_more(before, now);
                    assert(db@.enrolments =~= old(db)@.enrolments.update(at as int, changed));
                    lemma_changed_enrolment_wf(old(db)@, at as int, changed);
                }
                failures >= ENROLMENT_ATTEMPTS
            } else {
                false
            }
        },
        None => false,
    }
}

/// A wrong master password was tried with this token. Returns whether that
/// used it up.
pub fn enrolment_failed(db: &mut Db, token: &str) -> (spent: bool)
    requires
        old(db)@.wf(),
    ensures
        final(db)@.wf(),
        spent == (is_unused(old(db)@, token@) && enrolment(old(db)@, token@).failures + 1
            >= ENROLMENT_ATTEMPTS),
        exists|now: u64| final(db)@ == #[trigger] failed_db(old(db)@, token@, now),
{
    let now: u64 = now_ms();
    enrolment_failed_at(db, token, now)
}

/// The tokens that are left of these once the ones that match are gone.
pub open spec fn tokens_left(
    enrolments: Seq<EnrolmentView>,
    gone: spec_fn(EnrolmentView) -> bool,
) -> Seq<EnrolmentView>
    decreases enrolments.len(),
{
    if enrolments.len() == 0 {
        Seq::empty()
    } else if gone(enrolments.last()) {
        tokens_left(enrolments.drop_last(), gone)
    } else {
        tokens_left(enrolments.drop_last(), gone).push(enrolments.last())
    }
}

/// The invites that are left of these once the ones that match are gone.
pub open spec fn invites_left(
    invites: Seq<InviteView>,
    gone: spec_fn(InviteView) -> bool,
) -> Seq<InviteView>
    decreases invites.len(),
{
    if invites.len() == 0 {
        Seq::empty()
    } else if gone(invites.last()) {
        invites_left(invites.drop_last(), gone)
    } else {
        invites_left(invites.drop_last(), gone).push(invites.last())
    }
}

/// Enrolment tokens that are to go.
#[derive(Debug, Clone, Copy, PartialEq, Eq, Structural)]
pub enum Tokens {
    /// The unused ones a device made.
    UnusedOf(Uuid),
    /// The ones that ran out before a time.
    OverBefore(u64),
}

impl Tokens {
    pub open spec fn takes(self) -> spec_fn(EnrolmentView) -> bool {
        match self {
            Tokens::UnusedOf(device) => |row: EnrolmentView|
                row.device_id == Some(device) && row.used_ms is None,
            Tokens::OverBefore(cutoff) => |row: EnrolmentView| row.expires_ms < cutoff,
        }
    }

    fn is(&self, row: &EnrolmentRow) -> (one_of_them: bool)
        ensures
            one_of_them == self.takes()(row@),
    {
        match self {
            Tokens::UnusedOf(device) => row.used_ms.is_none() && match row.device_id {
                Some(made_by) => made_by == *device,
                None => false,
            },
            Tokens::OverBefore(cutoff) => row.expires_ms < *cutoff,
        }
    }
}

/// The invites that ran out before a time.
pub open spec fn invite_over(cutoff: u64) -> spec_fn(InviteView) -> bool {
    |row: InviteView| row.expires_ms < cutoff
}

proof fn lemma_tokens_left_wf(enrolments: Seq<EnrolmentView>, gone: spec_fn(EnrolmentView) -> bool)
    requires
        forall|i: int, j: int|
            0 <= i < j < enrolments.len() ==> (#[trigger] enrolments[i]).token_hash != (
            #[trigger] enrolments[j]).token_hash,
        forall|i: int|
            0 <= i < enrolments.len() ==> (#[trigger] enrolments[i]).used_ms is None
                ==> enrolments[i].failures < ENROLMENT_ATTEMPTS,
    ensures
        ({
            let left = tokens_left(enrolments, gone);
            &&& left.len() <= enrolments.len()
            &&& forall|i: int, j: int|
                0 <= i < j < left.len() ==> (#[trigger] left[i]).token_hash != (
                #[trigger] left[j]).token_hash
            &&& forall|i: int|
                0 <= i < left.len() ==> (#[trigger] left[i]).used_ms is None ==> left[i].failures
                    < ENROLMENT_ATTEMPTS
            &&& forall|i: int| 0 <= i < left.len() ==> enrolments.contains(#[trigger] left[i])
        }),
    decreases enrolments.len(),
{
    if enrolments.len() > 0 {
        let rest = enrolments.drop_last();
        lemma_tokens_left_wf(rest, gone);
        let before = tokens_left(rest, gone);
        let left = tokens_left(enrolments, gone);
        assert forall|i: int| 0 <= i < left.len() implies enrolments.contains(
            #[trigger] left[i],
        ) by {
            if i < before.len() {
                assert(rest.contains(before[i]));
                let k = choose|k: int| 0 <= k < rest.len() && rest[k] == before[i];
                assert(enrolments[k] == left[i]);
            } else {
                assert(enrolments[enrolments.len() - 1] == left[i]);
            }
        }
        assert forall|i: int, j: int| 0 <= i < j < left.len() implies (
        #[trigger] left[i]).token_hash != (#[trigger] left[j]).token_hash by {
            if j == before.len() {
                assert(rest.contains(before[i]));
                let k = choose|k: int| 0 <= k < rest.len() && rest[k] == before[i];
                assert(enrolments[k] == left[i]);
                assert(enrolments[enrolments.len() - 1] == left[j]);
            }
        }
    }
}

proof fn lemma_invites_left_wf(invites: Seq<InviteView>, gone: spec_fn(InviteView) -> bool)
    requires
        forall|i: int, j: int|
            0 <= i < j < invites.len() ==> (#[trigger] invites[i]).code_hash != (
            #[trigger] invites[j]).code_hash,
    ensures
        ({
            let left = invites_left(invites, gone);
            &&& forall|i: int, j: int|
                0 <= i < j < left.len() ==> (#[trigger] left[i]).code_hash != (
                #[trigger] left[j]).code_hash
            &&& forall|i: int| 0 <= i < left.len() ==> invites.contains(#[trigger] left[i])
        }),
    decreases invites.len(),
{
    if invites.len() > 0 {
        let rest = invites.drop_last();
        lemma_invites_left_wf(rest, gone);
        let before = invites_left(rest, gone);
        let left = invites_left(invites, gone);
        assert forall|i: int| 0 <= i < left.len() implies invites.contains(#[trigger] left[i]) by {
            if i < before.len() {
                assert(rest.contains(before[i]));
                let k = choose|k: int| 0 <= k < rest.len() && rest[k] == before[i];
                assert(invites[k] == left[i]);
            } else {
                assert(invites[invites.len() - 1] == left[i]);
            }
        }
        assert forall|i: int, j: int| 0 <= i < j < left.len() implies (
        #[trigger] left[i]).code_hash != (#[trigger] left[j]).code_hash by {
            if j == before.len() {
                assert(rest.contains(before[i]));
                let k = choose|k: int| 0 <= k < rest.len() && rest[k] == before[i];
                assert(invites[k] == left[i]);
                assert(invites[invites.len() - 1] == left[j]);
            }
        }
    }
}

/// Forget tokens. Returns how many there were.
fn drop_tokens(db: &mut Db, which: Tokens) -> (dropped: usize)
    requires
        old(db)@.wf(),
    ensures
        final(db)@.wf(),
        final(db)@ == (DbView {
            enrolments: tokens_left(old(db)@.enrolments, which.takes()),
            ..old(db)@
        }),
        dropped + final(db)@.enrolments.len() == old(db)@.enrolments.len(),
{
    let ghost all = db@.enrolments;
    let ghost mut seen: int = 0;
    let before: usize = db.enrolments.len();
    let mut at: usize = 0;
    assert(tokens_left(all.take(0), which.takes()) =~= Seq::empty());
    assert(all.skip(0) =~= all);
    while at < db.enrolments.len()
        invariant
            old(db)@.wf(),
            all == old(db)@.enrolments,
            db@.accounts == old(db)@.accounts,
            db@.devices == old(db)@.devices,
            db@.invites == old(db)@.invites,
            0 <= seen <= all.len(),
            db@.enrolments =~= tokens_left(all.take(seen), which.takes()) + all.skip(seen),
            at == tokens_left(all.take(seen), which.takes()).len(),
        decreases all.len() - seen,
    {
        proof {
            assert(db@.enrolments[at as int] == all[seen]);
            assert(all.take(seen + 1).drop_last() =~= all.take(seen));
            assert(all.take(seen + 1).last() == all[seen]);
            assert(all.skip(seen).skip(1) =~= all.skip(seen + 1));
        }
        let ghost kept = tokens_left(all.take(seen), which.takes());
        let ghost earlier = db@.enrolments;
        if which.is(&db.enrolments[at]) {
            let _ = db.enrolments.remove(at);
            assert(db@.enrolments =~= earlier.remove(at as int));
        } else {
            at = at + 1;
        }
        proof {
            seen = seen + 1;
        }
    }
    proof {
        assert(all.skip(seen).len() == 0);
        assert(all.take(seen) =~= all);
        assert(db@.enrolments =~= tokens_left(all, which.takes()));
        lemma_tokens_left_wf(all, which.takes());
    }
    before - db.enrolments.len()
}

/// Forget the invites that ran out before a time.
fn drop_invites(db: &mut Db, cutoff: u64)
    requires
        old(db)@.wf(),
    ensures
        final(db)@.wf(),
        final(db)@ == (DbView {
            invites: invites_left(old(db)@.invites, invite_over(cutoff)),
            ..old(db)@
        }),
{
    let ghost all = db@.invites;
    let ghost gone = invite_over(cutoff);
    let ghost mut seen: int = 0;
    let mut at: usize = 0;
    assert(invites_left(all.take(0), gone) =~= Seq::empty());
    assert(all.skip(0) =~= all);
    while at < db.invites.len()
        invariant
            old(db)@.wf(),
            all == old(db)@.invites,
            gone == invite_over(cutoff),
            db@.accounts == old(db)@.accounts,
            db@.devices == old(db)@.devices,
            db@.enrolments == old(db)@.enrolments,
            0 <= seen <= all.len(),
            db@.invites =~= invites_left(all.take(seen), gone) + all.skip(seen),
            at == invites_left(all.take(seen), gone).len(),
        decreases all.len() - seen,
    {
        proof {
            assert(db@.invites[at as int] == all[seen]);
            assert(all.take(seen + 1).drop_last() =~= all.take(seen));
            assert(all.take(seen + 1).last() == all[seen]);
        }
        let ghost earlier = db@.invites;
        if db.invites[at].expires_ms < cutoff {
            let _ = db.invites.remove(at);
            assert(db@.invites =~= earlier.remove(at as int));
        } else {
            at = at + 1;
        }
        proof {
            seen = seen + 1;
        }
    }
    proof {
        assert(all.skip(seen).len() == 0);
        assert(all.take(seen) =~= all);
        assert(db@.invites =~= invites_left(all, gone));
        lemma_invites_left_wf(all, gone);
    }
}

/// The unused tokens a device made, gone with it.
pub fn drop_enrolments_of(db: &mut Db, device: Uuid) -> (dropped: usize)
    requires
        old(db)@.wf(),
    ensures
        final(db)@.wf(),
        final(db)@ == (DbView {
            enrolments: tokens_left(old(db)@.enrolments, Tokens::UnusedOf(device).takes()),
            ..old(db)@
        }),
        dropped + final(db)@.enrolments.len() == old(db)@.enrolments.len(),
{
    drop_tokens(db, Tokens::UnusedOf(device))
}

/// [`peek_enrolment`] at a given time.
pub fn peek_enrolment_at(db: &Db, token: &str, now: u64) -> (account: Option<Uuid>)
    requires
        db@.wf(),
    ensures
        account == joins(db@, token@, now),
{
    let digest: Vec<u8> = hash_token(token);
    match find_enrolment(db, &digest) {
        Some(at) => {
            assert(db@.enrolments[at as int] == db.enrolments[at as int]@);
            if db.enrolments[at].used_ms.is_none() && db.enrolments[at].expires_ms > now {
                Some(db.enrolments[at].account_id)
            } else {
                None
            }
        },
        None => None,
    }
}

/// Which account a token joins, without using it up: the joining device needs
/// the vault's parameters before it can prove it knows the master password.
pub fn peek_enrolment(db: &Db, token: &str) -> (account: Option<Uuid>)
    requires
        db@.wf(),
    ensures
        exists|now: u64| account == #[trigger] joins(db@, token@, now),
{
    let now: u64 = now_ms();
    peek_enrolment_at(db, token, now)
}

/// The database once a token was used at a given time.
pub open spec fn spent_db(db: DbView, token: Seq<char>, now: u64) -> DbView {
    with_enrolment(
        db,
        token,
        EnrolmentView { used_ms: Some(now), ..enrolment(db, token) },
    )
}

/// [`redeem_enrolment`] at a given time.
pub fn redeem_enrolment_at(db: &mut Db, token: &str, now: u64) -> (account: Option<Uuid>)
    requires
        old(db)@.wf(),
    ensures
        final(db)@.wf(),
        account == joins(old(db)@, token@, now),
        final(db)@ == if account is Some {
            spent_db(old(db)@, token@, now)
        } else {
            old(db)@
        },
{
    let digest: Vec<u8> = hash_token(token);
    match find_enrolment(db, &digest) {
        Some(at) => {
            let ghost before = db.enrolments[at as int]@;
            assert(db@.enrolments[at as int] == before);
            if db.enrolments[at].used_ms.is_none() && db.enrolments[at].expires_ms > now {
                let account: Uuid = db.enrolments[at].account_id;
                db.enrolments[at].used_ms = Some(now);
                proof {
                    let changed = EnrolmentView { used_ms: Some(now), ..before };
                    assert(db@.enrolments =~= old(db)@.enrolments.update(at as int, changed));
                    lemma_changed_enrolment_wf(old(db)@, at as int, changed);
                }
                Some(account)
            } else {
                None
            }
        },
        None => None,
    }
}

/// Use a token up, once.
pub fn redeem_enrolment(db: &mut Db, token: &str) -> (account: Option<Uuid>)
    requires
        old(db)@.wf(),
    ensures
        final(db)@.wf(),
        exists|now: u64|
            account == #[trigger] joins(old(db)@, token@, now) && final(db)@ == if account is Some {
                spent_db(old(db)@, token@, now)
            } else {
                old(db)@
            },
{
    let now: u64 = now_ms();
    redeem_enrolment_at(db, token, now)
}

/// The database once the codes that ran out before a time are forgotten.
pub open spec fn purged_db(db: DbView, cutoff: u64) -> DbView {
    DbView {
        invites: invites_left(db.invites, invite_over(cutoff)),
        enrolments: tokens_left(db.enrolments, Tokens::OverBefore(cutoff).takes()),
        ..db
    }
}

/// When a code must have run out to be forgotten now.
pub open spec fn forgotten_since(now: u64) -> u64 {
    if now < KEPT_MS {
        0
    } else {
        (now - KEPT_MS) as u64
    }
}

/// [`purge`] at a given time.
pub fn purge_at(db: &mut Db, now: u64)
    requires
        old(db)@.wf(),
    ensures
        final(db)@.wf(),
        final(db)@ == purged_db(old(db)@, forgotten_since(now)),
{
    let cutoff: u64 = now.saturating_sub(KEPT_MS);
    drop_invites(db, cutoff);
    let _ = drop_tokens(db, Tokens::OverBefore(cutoff));
}

/// Forget codes that are used or long expired. Housekeeping, not security:
/// neither is worth anything any more.
pub fn purge(db: &mut Db)
    requires
        old(db)@.wf(),
    ensures
        final(db)@.wf(),
        exists|now: u64| final(db)@ == purged_db(old(db)@, #[trigger] forgotten_since(now)),
{
    let now: u64 = now_ms();
    purge_at(db, now)
}

/// A token is spent on use: whoever comes with it again, at whatever time,
/// finds that it joins nothing.
pub proof fn a_token_is_spent_on_use(
    db: DbView,
    token: Seq<char>,
    now: u64,
    at_another_time: u64,
)
    requires
        db.wf(),
        joins(db, token, now) is Some,
    ensures
        joins(spent_db(db, token, now), token, at_another_time) is None,
{
    lemma_changed_enrolment(db, token, EnrolmentView { used_ms: Some(now), ..enrolment(db, token) });
}

proof fn lemma_changed_enrolment(db: DbView, token: Seq<char>, changed: EnrolmentView)
    requires
        db.wf(),
        has_enrolment(db, token_hash(token)),
        changed.token_hash == token_hash(token),
    ensures
        has_enrolment(with_enrolment(db, token, changed), token_hash(token)),
        enrolment(with_enrolment(db, token, changed), token) == changed,
{
    let at = enrolment_at(db, token_hash(token));
    let after = with_enrolment(db, token, changed);
    assert(after.enrolments[at].token_hash == token_hash(token));
    let found = enrolment_at(after, token_hash(token));
    assert(after.enrolments[found].token_hash == token_hash(token));
    assert(db.enrolments[found].token_hash == token_hash(token));
}

/// The database once a wrong password was tried with a token `n` times, each
/// at its own time.
pub open spec fn failed_often(db: DbView, token: Seq<char>, times: Seq<u64>) -> DbView
    decreases times.len(),
{
    if times.len() == 0 {
        db
    } else {
        failed_db(failed_often(db, token, times.drop_last()), token, times.last())
    }
}

/// A fresh token survives four wrong passwords, and the fifth uses it up.
pub proof fn the_fifth_wrong_password_spends_a_token(
    db: DbView,
    token: Seq<char>,
    times: Seq<u64>,
)
    requires
        db.wf(),
        is_unused(db, token),
        enrolment(db, token).failures == 0,
        times.len() <= ENROLMENT_ATTEMPTS,
    ensures
        is_unused(failed_often(db, token, times), token) <==> times.len() < ENROLMENT_ATTEMPTS,
{
    lemma_failures_add_up(db, token, times);
}

proof fn lemma_failures_add_up(db: DbView, token: Seq<char>, times: Seq<u64>)
    requires
        db.wf(),
        is_unused(db, token),
        enrolment(db, token).failures == 0,
        times.len() <= ENROLMENT_ATTEMPTS,
    ensures
        ({
            let after = failed_often(db, token, times);
            &&& after.wf()
            &&& has_enrolment(after, token_hash(token))
            &&& enrolment(after, token).failures == times.len()
            &&& enrolment(after, token).used_ms is None <==> times.len() < ENROLMENT_ATTEMPTS
        }),
    decreases times.len(),
{
    if times.len() > 0 {
        let before = failed_often(db, token, times.drop_last());
        lemma_failures_add_up(db, token, times.drop_last());
        let changed = failed_once_more(enrolment(before, token), times.last());
        let at = enrolment_at(before, token_hash(token));
        assert(before.enrolments[at].token_hash == token_hash(token));
        lemma_changed_enrolment_wf(before, at, changed);
        lemma_changed_enrolment(before, token, changed);
    }
}

} // verus!
