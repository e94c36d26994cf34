//! Records: the mailbox itself.
//!
//! Two operations and one rule. **Pull** hands out everything after a cursor,
//! in sequence order. **Push** takes a record if the version it was based on is
//! the version stored, and reports a conflict with the current one if it is
//! not. That check is the whole of conflict detection here, and it is all the
//! server can do: it cannot read a record, so it cannot merge one either.
//!
//! Only the newest version of each record is kept. A device that needs an older
//! one has it locally or not at all, and the client is built for that, since a
//! record it has not seen is simply new to it.

use crate::db::accounts::Account;
use crate::db::{in_order, records_view, AccountRow, AccountView, Db, DbView, Record, RecordView};
use crate::error::{ApiError, Refusal, Result};
use crate::ids::Uuid;
use crate::now_ms;
use crate::proto::{
    envelopes_view, Accepted, EntityKind, Envelope, EnvelopeView, PullResponse, PullResponseView,
    PushResponse, PushResponseView, SyncCursor, MAX_BATCH, MAX_BATCH_BYTES, MAX_BLOB_BYTES,
};
use crate::text;
use vstd::prelude::*;
use vstd::string::StringExecFns;

verus! {

/// What one account may hold. A vault of hosts, keys and snippets is a few
/// megabytes; this is room for a hundred times that, and still means one
/// account cannot fill the disk of a machine that others sync to as well.
///
/// And what every account together may hold, because a hundred accounts at
/// their quota are 25 GiB, and every nightly backup is another copy of all of
/// it. The server-wide cap is what the disk really has to have room for.
#[derive(Debug, Clone, Copy, PartialEq, Eq, Structural)]
pub struct Quota {
    pub records: u64,
    pub bytes: u64,
    /// Sealed bytes of every account on this server together.
    pub server_bytes: u64,
}

impl Quota {
    /// What an account may hold unless the server was told otherwise.
    pub open spec fn standard() -> Quota {
        Quota { records: 100_000, bytes: 0x1000_0000, server_bytes: 0x8000_0000 }
    }
}

impl Default for Quota {
    fn default() -> (quota: Self)
        ensures
            quota == Quota::standard(),
    {
        Quota {
            records: 100_000,
            bytes: 256 * 1024 * 1024,
            server_bytes: 2 * 1024 * 1024 * 1024,
        }
    }
}

/// An XChaCha20-Poly1305 nonce, as every envelope carries.
pub const NONCE_BYTES: usize = 24;

/// What is wrong with an envelope, if anything is: everything the server can
/// check without a key.
pub open spec fn fault(vault_id: Uuid, envelope: EnvelopeView) -> Option<Refusal> {
    if envelope.vault_id != vault_id {
        Some(Refusal::Invalid("a record from another vault than this account's"@))
    } else if envelope.nonce.len() != NONCE_BYTES {
        Some(Refusal::Invalid("a record without a proper nonce"@))
    } else if envelope.blob.len() == 0 {
        Some(Refusal::Invalid("a record with nothing sealed in it"@))
    } else if envelope.blob.len() > MAX_BLOB_BYTES {
        Some(
            Refusal::TooLarge(
                "a record of "@ + text::decimal_text(envelope.blob.len()) + " bytes, at most "@
                    + text::decimal_text(MAX_BLOB_BYTES as nat) + " are allowed"@,
            ),
        )
    } else {
        None
    }
}

/// What is wrong with the first envelope that something is wrong with.
pub open spec fn first_fault(vault_id: Uuid, envelopes: Seq<EnvelopeView>) -> Option<Refusal>
    decreases envelopes.len(),
{
    if envelopes.len() == 0 {
        None
    } else if fault(vault_id, envelopes[0]) is Some {
        fault(vault_id, envelopes[0])
    } else {
        first_fault(vault_id, envelopes.skip(1))
    }
}

/// How many bytes are sealed in these envelopes.
pub open spec fn sealed_bytes(envelopes: Seq<EnvelopeView>) -> nat
    decreases envelopes.len(),
{
    if envelopes.len() == 0 {
        0
    } else {
        sealed_bytes(envelopes.drop_last()) + envelopes.last().blob.len()
    }
}

/// How many bytes are sealed in these records.
pub open spec fn held_bytes(records: Seq<RecordView>) -> nat
    decreases records.len(),
{
    if records.len() == 0 {
        0
    } else {
        held_bytes(records.drop_last()) + records.last().blob.len()
    }
}

/// Whether there is a record of that name.
pub open spec fn holds(records: Seq<RecordView>, id: Uuid) -> bool {
    exists|i: int| 0 <= i < records.len() && (#[trigger] records[i]).id == id
}

/// Where that record stands.
pub open spec fn place(records: Seq<RecordView>, id: Uuid) -> int {
    choose|i: int| 0 <= i < records.len() && (#[trigger] records[i]).id == id
}

/// The record an envelope becomes.
pub open spec fn record_of(
    envelope: EnvelopeView,
    seq: u64,
    device: Uuid,
    now: u64,
) -> RecordView {
    RecordView {
        id: envelope.id,
        kind: envelope.kind,
        seq,
        updated_at: envelope.updated_at,
        deleted: envelope.deleted,
        nonce: envelope.nonce,
        blob: envelope.blob,
        device_id: device,
        updated_ms: now,
    }
}

/// The envelope a record travels in: numbered, and based on itself.
pub open spec fn envelope_of(vault_id: Uuid, record: RecordView) -> EnvelopeView {
    EnvelopeView {
        id: record.id,
        vault_id,
        kind: record.kind,
        updated_at: record.updated_at,
        base_seq: record.seq,
        deleted: record.deleted,
        nonce: record.nonce,
        blob: record.blob,
        seq: Some(record.seq),
    }
}

/// How far a push has got: the mailbox as it would be, and the answer.
pub struct Progress {
    pub records: Seq<RecordView>,
    pub seq: int,
    pub count: int,
    pub bytes: int,
    pub accepted: Seq<Accepted>,
    pub conflicts: Seq<EnvelopeView>,
}

/// A push that has not begun.
pub open spec fn progress_start(account: AccountView) -> Progress {
    Progress {
        records: account.records,
        seq: account.seq as int,
        count: account.record_count as int,
        bytes: account.record_bytes as int,
        accepted: Seq::empty(),
        conflicts: Seq::empty(),
    }
}

/// One envelope further. It is a conflict if the server holds another version
/// than the one it was based on. Otherwise it gets the next number and takes
/// the place of the version before it, if there was one.
pub open spec fn offer(
    progress: Progress,
    envelope: EnvelopeView,
    vault_id: Uuid,
    device: Uuid,
    now: u64,
) -> Progress {
    let next = (progress.seq + 1) as u64;
    let taken = record_of(envelope, next, device, now);
    let accepted = progress.accepted.push(Accepted { id: envelope.id, seq: next });
    if !holds(progress.records, envelope.id) {
        // Whatever the device thought it was based on: there is nothing here
        // to conflict with.
        Progress {
            records: progress.records.push(taken),
            seq: progress.seq + 1,
            count: progress.count + 1,
            bytes: progress.bytes + envelope.blob.len(),
            accepted,
            ..progress
        }
    } else {
        let at = place(progress.records, envelope.id);
        let held = progress.records[at];
        if held.seq != envelope.base_seq {
            Progress {
                conflicts: progress.conflicts.push(envelope_of(vault_id, held)),
                ..progress
            }
        } else {
            Progress {
                records: progress.records.remove(at).push(taken),
                seq: progress.seq + 1,
                bytes: progress.bytes + envelope.blob.len() - held.blob.len(),
                accepted,
                ..progress
            }
        }
    }
}

/// The first `n` envelopes of a push, one after the other.
pub open spec fn offer_all(
    account: AccountView,
    envelopes: Seq<EnvelopeView>,
    n: nat,
    vault_id: Uuid,
    device: Uuid,
    now: u64,
) -> Progress
    decreases n,
{
    if n == 0 {
        progress_start(account)
    } else {
        offer(
            offer_all(account, envelopes, (n - 1) as nat, vault_id, device, now),
            envelopes[n - 1],
            vault_id,
            device,
            now,
        )
    }
}

/// What all accounts hold together, as they count it.
pub open spec fn everyones_bytes(accounts: Seq<AccountView>) -> int
    decreases accounts.len(),
{
    if accounts.len() == 0 {
        0
    } else {
        everyones_bytes(accounts.drop_last()) + accounts.last().record_bytes
    }
}

/// A counter without its sign, as it is held against a quota: one below zero
/// counts as far above any.
pub open spec fn unsigned(counter: int) -> int {
    if counter < 0 {
        counter + 0x1_0000_0000_0000_0000
    } else {
        counter
    }
}

/// Whether a push makes the account larger than it may be.
pub open spec fn over_quota(account: AccountView, after: Progress, quota: Quota) -> bool {
    ||| after.count > account.record_count && unsigned(after.count) > quota.records
    ||| after.bytes > account.record_bytes && unsigned(after.bytes) > quota.bytes
}

/// A counter without its sign.
fn without_sign(counter: i64) -> (value: u64)
    ensures
        value == unsigned(counter as int),
{
    if counter < 0 {
        (counter as i128 + 0x1_0000_0000_0000_0000) as u64
    } else {
        counter as u64
    }
}

/// Whether a push makes all accounts together larger than they may be.
pub open spec fn over_server(
    db: DbView,
    account: AccountView,
    after: Progress,
    quota: Quota,
) -> bool {
    after.bytes > account.record_bytes && everyones_bytes(db.accounts) - account.record_bytes
        + after.bytes > quota.server_bytes
}

/// An account after a push.
pub open spec fn account_after(account: AccountView, after: Progress) -> AccountView {
    AccountView {
        seq: after.seq as u64,
        record_count: after.count as i64,
        record_bytes: after.bytes as i64,
        records: after.records,
        ..account
    }
}

/// A push that is refused as a whole, and why.
pub open spec fn push_refusal(
    db: DbView,
    account: Account,
    device: Uuid,
    envelopes: Seq<EnvelopeView>,
    quota: Quota,
    now: u64,
) -> Option<Refusal> {
    if envelopes.len() > MAX_BATCH {
        Some(
            Refusal::TooLarge(
                text::decimal_text(envelopes.len()) + " records in one request, at most "@
                    + text::decimal_text(MAX_BATCH as nat) + " are allowed"@,
            ),
        )
    } else if envelopes.len() > 1 && sealed_bytes(envelopes) > MAX_BATCH_BYTES {
        Some(
            Refusal::TooLarge(
                text::decimal_text(sealed_bytes(envelopes))
                    + " sealed bytes in one request, at most "@ + text::decimal_text(
                    MAX_BATCH_BYTES as nat,
                ) + " are allowed"@,
            ),
        )
    } else if first_fault(account.vault_id, envelopes) is Some {
        first_fault(account.vault_id, envelopes)
    } else if !db.has_account(account.id) {
        Some(Refusal::Database("Query returned no rows"@))
    } else {
        let before = db.account(account.id);
        let after = offer_all(before, envelopes, envelopes.len(), account.vault_id, device, now);
        if over_quota(before, after, quota) {
            Some(
                Refusal::TooLarge(
                    "this account holds as much as this server allows ("@ + text::decimal_text(
                        quota.records as nat,
                    ) + " records, "@ + text::decimal_text((quota.bytes / 0x10_0000) as nat)
                        + " MiB)"@,
                ),
            )
        } else if over_server(db, before, after, quota) {
            Some(
                Refusal::TooLarge(
                    "this server holds as much as it allows ("@ + text::decimal_text(
                        (quota.server_bytes / 0x10_0000) as nat,
                    ) + " MiB for all accounts together)"@,
                ),
            )
        } else {
            None
        }
    }
}

/// The database after a push that was not refused.
pub open spec fn pushed(
    db: DbView,
    account: Account,
    device: Uuid,
    envelopes: Seq<EnvelopeView>,
    now: u64,
) -> DbView {
    let before = db.account(account.id);
    let after = offer_all(before, envelopes, envelopes.len(), account.vault_id, device, now);
    db.with_account(account.id, account_after(before, after))
}

/// The answer to a push that was not refused.
pub open spec fn push_response(
    db: DbView,
    account: Account,
    device: Uuid,
    envelopes: Seq<EnvelopeView>,
    now: u64,
) -> PushResponseView {
    let before = db.account(account.id);
    let after = offer_all(before, envelopes, envelopes.len(), account.vault_id, device, now);
    PushResponseView {
        accepted: after.accepted,
        conflicts: after.conflicts,
        cursor: SyncCursor(after.seq as u64),
    }
}

/// What a push at a given time does and answers: all of it, or nothing and
/// the reason.
pub open spec fn push_done(
    before: DbView,
    after: DbView,
    account: Account,
    device: Uuid,
    envelopes: Seq<EnvelopeView>,
    quota: Quota,
    now: u64,
    outcome: Result<PushResponse>,
) -> bool {
    let refusal = push_refusal(before, account, device, envelopes, quota, now);
    match outcome {
        Ok(response) => {
            &&& refusal is None
            &&& response@ == push_response(before, account, device, envelopes, now)
            &&& after == pushed(before, account, device, envelopes, now)
        },
        Err(error) => {
            &&& refusal == Some(error@)
            &&& after == before
        },
    }
}

/// Sealed bytes that a batch of the largest records would have.
pub const MOST_BYTES: i64 = 131_072_000;

/// Whether an account's counters are far enough from the end of their range
/// to take another batch.
pub open spec fn countable(db: DbView, id: Uuid) -> bool {
    db.has_account(id) ==> {
        let account = db.account(id);
        &&& account.seq + MAX_BATCH <= i64::MAX
        &&& account.record_count + MAX_BATCH <= i64::MAX
        &&& i64::MIN + MOST_BYTES <= account.record_bytes <= i64::MAX - MOST_BYTES
    }
}

/// Whether an account's counters leave room for another batch, as they do in
/// every database that did not come from elsewhere.
pub fn can_count(db: &Db, id: Uuid) -> (can: bool)
    requires
        db@.wf(),
    ensures
        can == countable(db@, id),
{
    match db.find_account(id) {
        Some(at) => {
            let account: &AccountRow = &db.accounts[at];
            assert(db@.accounts[at as int] == account@);
            account.seq <= 0x7fff_ffff_ffff_ffff - MAX_BATCH as u64 && account.record_count
                <= i64::MAX - MAX_BATCH as i64 && i64::MIN + MOST_BYTES <= account.record_bytes
                && account.record_bytes <= i64::MAX - MOST_BYTES
        },
        None => true,
    }
}

/// Everything about an envelope the server can check without a key: that it
/// belongs to this account's vault, that it is shaped like an envelope, and
/// that it is not big enough to be a problem.
pub fn check(account: &Account, envelope: &Envelope) -> (checked: Result<()>)
    ensures
        checked is Ok <==> fault(account.vault_id, envelope@) is None,
        checked matches Err(error) ==> fault(account.vault_id, envelope@) == Some(error@),
{
    if envelope.vault_id != account.vault_id {
        return Err(
            ApiError::Invalid("a record from another vault than this account's".to_owned()),
        );
    }
    if envelope.nonce.len() != NONCE_BYTES {
        return Err(ApiError::Invalid("a record without a proper nonce".to_owned()));
    }
    if envelope.blob.is_empty() {
        return Err(ApiError::Invalid("a record with nothing sealed in it".to_owned()));
    }
    if envelope.blob.len() > MAX_BLOB_BYTES {
        return Err(
            ApiError::TooLarge(
                "a record of ".to_owned().concat(
                    text::decimal(envelope.blob.len() as u128).as_str(),
                ).concat(" bytes, at most ").concat(
                    text::decimal(MAX_BLOB_BYTES as u128).as_str(),
                ).concat(" are allowed"),
            ),
        );
    }
    Ok(())
}

/// A push under way.
struct Work {
    records: Vec<Record>,
    seq: u64,
    count: i64,
    bytes: i64,
    accepted: Vec<Accepted>,
    conflicts: Vec<Envelope>,
}

impl View for Work {
    type V = Progress;

    closed spec fn view(&self) -> Progress {
        Progress {
            records: records_view(self.records@),
            seq: self.seq as int,
            count: self.count as int,
            bytes: self.bytes as int,
            accepted: self.accepted@,
            conflicts: envelopes_view(self.conflicts@),
        }
    }
}

/// Where a record stands, if there is such a record.
fn find(records: &Vec<Record>, id: Uuid) -> (at: Option<usize>)
    ensures
        at is Some <==> holds(records_view(records@), id),
        at matches Some(at) ==> at < records.len() && records[at as int].id == id,
{
    for i in 0..records.len()
        invariant
            forall|j: int| 0 <= j < i ==> (#[trigger] records[j]).id != id,
    {
        if records[i].id == id {
            assert(records_view(records@)[i as int].id == id);
            return Some(i);
        }
    }
    assert forall|j: int| 0 <= j < records_view(records@).len() implies (
    #[trigger] records_view(records@)[j]).id != id by {
        assert(records[j].id != id);
    }
    None
}

/// A record in the envelope it travels in.
fn to_envelope(vault_id: Uuid, record: &Record) -> (envelope: Envelope)
    ensures
        envelope@ == envelope_of(vault_id, record@),
        envelope.id == record.id,
        envelope.vault_id == vault_id,
        envelope.kind == record.kind,
        envelope.updated_at == record.updated_at,
        envelope.base_seq == record.seq,
        envelope.deleted == record.deleted,
        envelope.nonce@ == record.nonce@,
        envelope.blob@ == record.blob@,
        envelope.seq == Some(record.seq),
{
    Envelope {
        id: record.id,
        vault_id,
        kind: record.kind,
        updated_at: record.updated_at,
        base_seq: record.seq,
        deleted: record.deleted,
        nonce: vstd::slice::slice_to_vec(record.nonce.as_slice()),
        blob: vstd::slice::slice_to_vec(record.blob.as_slice()),
        seq: Some(record.seq),
    }
}

impl Work {
    spec fn wf(self) -> bool {
        in_order(self@.records, self.seq)
    }

    /// One envelope further.
    fn offer(&mut self, envelope: &Envelope, vault_id: Uuid, device: Uuid, now: u64)
        requires
            old(self).wf(),
            old(self).seq < u64::MAX,
            old(self).count < i64::MAX,
            i64::MIN + MAX_BLOB_BYTES <= old(self).bytes <= i64::MAX - MAX_BLOB_BYTES,
            envelope@.blob.len() <= MAX_BLOB_BYTES,
        ensures
            final(self)@ == offer(old(self)@, envelope@, vault_id, device, now),
            final(self).wf(),
    {
        let ghost before = self@;
        let found: Option<usize> = find(&self.records, envelope.id);
        let mut freed: i64 = 0;
        match found {
            Some(at) => {
                proof {
                    assert(records_view(self.records@)[at as int].id == envelope.id);
                    assert(place(before.records, envelope.id) == at);
                }
                if self.records[at].seq != envelope.base_seq {
                    let held: Envelope = to_envelope(vault_id, &self.records[at]);
                    self.conflicts.push(held);
                    assert(self@.conflicts =~= offer(
                        before,
                        envelope@,
                        vault_id,
                        device,
                        now,
                    ).conflicts);
                    return ;
                }
                freed = self.records[at].blob.len() as i64;
                let _ = self.records.remove(at);
                assert(self@.records =~= before.records.remove(at as int));
            },
            None => {
                self.count = self.count + 1;
            },
        }
        let ghost kept = self@.records;
        self.bytes = self.bytes + envelope.blob.len() as i64 - freed;
        self.seq = self.seq + 1;
        self.records.push(
            Record {
                id: envelope.id,
                kind: envelope.kind,
                seq: self.seq,
                updated_at: envelope.updated_at,
                deleted: envelope.deleted,
                nonce: vstd::slice::slice_to_vec(envelope.nonce.as_slice()),
                blob: vstd::slice::slice_to_vec(envelope.blob.as_slice()),
                device_id: device,
                updated_ms: now,
            },
        );
        self.accepted.push(Accepted { id: envelope.id, seq: self.seq });
        proof {
            let taken = record_of(envelope@, self.seq, device, now);
            assert(self@.records =~= kept.push(taken));
            assert forall|i: int| 0 <= i < kept.len() implies (#[trigger] kept[i]).id
                != envelope.id by {
                if found is Some {
                    let at = found->Some_0 as int;
                    if i < at {
                        assert(kept[i] == before.records[i]);
                    } else {
                        assert(kept[i] == before.records[i + 1]);
                    }
                }
            }
            assert(self.wf());
        }
    }
}

/// What all accounts hold together, as they count it.
fn sum_everyone(db: &Db) -> (sum: i128)
    ensures
        sum == everyones_bytes(db@.accounts),
        -0x7fff_ffff_ffff_ffff_8000_0000_0000_0000 <= sum
            <= 0x7fff_ffff_ffff_fffe_8000_0000_0000_0001,
{
    let mut sum: i128 = 0;
    for i in 0..db.accounts.len()
        invariant
            sum == everyones_bytes(db@.accounts.take(i as int)),
            -0x8000_0000_0000_0000 * i <= sum <= 0x7fff_ffff_ffff_ffff * i,
    {
        assert(db@.accounts.take(i + 1).drop_last() =~= db@.accounts.take(i as int));
        assert(db@.accounts.take(i + 1).last() == db.accounts[i as int]@);
        sum = sum + db.accounts[i].record_bytes as i128;
    }
    assert(db@.accounts.take(db@.accounts.len() as int) =~= db@.accounts);
    sum
}

/// Every envelope in turn, up to the first that something is wrong with.
fn check_all(account: &Account, envelopes: &[Envelope]) -> (checked: Result<()>)
    ensures
        checked is Ok <==> first_fault(account.vault_id, envelopes_view(envelopes@)) is None,
        checked matches Err(error) ==> first_fault(account.vault_id, envelopes_view(envelopes@))
            == Some(error@),
        checked is Ok ==> forall|i: int|
            0 <= i < envelopes@.len() ==> (#[trigger] envelopes@[i])@.blob.len() <= MAX_BLOB_BYTES,
{
    let ghost all = envelopes_view(envelopes@);
    assert(all.skip(0) =~= all);
    for i in 0..envelopes.len()
        invariant
            all == envelopes_view(envelopes@),
            first_fault(account.vault_id, all) == first_fault(account.vault_id, all.skip(i as int)),
            forall|j: int|
                0 <= j < i ==> (#[trigger] envelopes@[j])@.blob.len() <= MAX_BLOB_BYTES,
    {
        assert(all.skip(i as int)[0] == envelopes@[i as int]@);
        assert(all.skip(i as int).skip(1) =~= all.skip(i + 1));
        match check(account, &envelopes[i]) {
            Ok(()) => {},
            Err(error) => {
                return Err(error);
            },
        }
    }
    Ok(())
}

/// How many bytes are sealed in these envelopes.
fn count_sealed(envelopes: &[Envelope]) -> (bytes: u128)
    requires
        envelopes@.len() <= MAX_BATCH,
    ensures
        bytes == sealed_bytes(envelopes_view(envelopes@)),
{
    let ghost all = envelopes_view(envelopes@);
    let mut bytes: u128 = 0;
    for i in 0..envelopes.len()
        invariant
            all == envelopes_view(envelopes@),
            envelopes@.len() <= MAX_BATCH,
            bytes == sealed_bytes(all.take(i as int)),
            bytes <= i * usize::MAX,
    {
        assert(all.take(i + 1).drop_last() =~= all.take(i as int));
        assert(all.take(i + 1).last() == envelopes@[i as int]@);
        assert(i * usize::MAX <= 500 * usize::MAX) by (nonlinear_arith)
            requires
                i <= 500,
        ;
        assert((i + 1) * usize::MAX == i * usize::MAX + usize::MAX) by (nonlinear_arith);
        bytes = bytes + envelopes[i].blob.len() as u128;
    }
    assert(all.take(all.len() as int) =~= all);
    bytes
}

fn copy_records(records: &Vec<Record>) -> (copy: Vec<Record>)
    ensures
        records_view(copy@) == records_view(records@),
{
    let mut copy: Vec<Record> = Vec::new();
    for i in 0..records.len()
        invariant
            records_view(copy@) == records_view(records@).take(i as int),
    {
        let ghost earlier = records_view(copy@);
        copy.push(records[i].clone());
        assert(records_view(copy@) =~= earlier.push(records[i as int]@));
        assert(records_view(copy@) =~= records_view(records@).take(i + 1));
    }
    assert(records_view(copy@) =~= records_view(records@));
    copy
}

/// [`push_within`] at a given time.
pub fn push_at(
    db: &mut Db,
    account: &Account,
    device: Uuid,
    envelopes: &[Envelope],
    quota: Quota,
    now: u64,
) -> (pushed: Result<PushResponse>)
    requires
        old(db)@.wf(),
        countable(old(db)@, account.id),
    ensures
        final(db)@.wf(),
        push_done(
            old(db)@,
            final(db)@,
            *account,
            device,
            envelopes_view(envelopes@),
            quota,
            now,
            pushed,
        ),
{
    let ghost all = envelopes_view(envelopes@);
    if envelopes.len() > MAX_BATCH {
        return Err(
            ApiError::TooLarge(
                text::decimal(envelopes.len() as u128).concat(
                    " records in one request, at most ",
                ).concat(text::decimal(MAX_BATCH as u128).as_str()).concat(" are allowed"),
            ),
        );
    }
    let sealed: u128 = count_sealed(envelopes);
    if envelopes.len() > 1 && sealed > MAX_BATCH_BYTES as u128 {
        return Err(
            ApiError::TooLarge(
                text::decimal(sealed).concat(" sealed bytes in one request, at most ").concat(
                    text::decimal(MAX_BATCH_BYTES as u128).as_str(),
                ).concat(" are allowed"),
            ),
        );
    }
    match check_all(account, envelopes) {
        Ok(()) => {},
        Err(error) => {
            return Err(error);
        },
    }
    let at: usize = match db.find_account(account.id) {
        Some(at) => at,
        None => {
            return Err(ApiError::Database("Query returned no rows".to_owned()));
        },
    };
    let ghost before = db@.account(account.id);
    assert(before == db.accounts[at as int]@);

    // Worked out on a copy, which takes the place of what is there only if
    // nothing refuses it: a push either happens or does not.
    let held_count: i64 = db.accounts[at].record_count;
    let held: i64 = db.accounts[at].record_bytes;
    let mut work: Work = Work {
        records: copy_records(&db.accounts[at].records),
        seq: db.accounts[at].seq,
        count: held_count,
        bytes: held,
        accepted: Vec::new(),
        conflicts: Vec::new(),
    };
    assert(work@.conflicts =~= Seq::<EnvelopeView>::empty());
    for i in 0..envelopes.len()
        invariant
            all == envelopes_view(envelopes@),
            envelopes@.len() <= MAX_BATCH,
            work.wf(),
            work@ == offer_all(before, all, i as nat, account.vault_id, device, now),
            work.seq + MAX_BATCH <= i64::MAX + i,
            work.count + MAX_BATCH <= i64::MAX + i,
            i64::MIN + (MAX_BATCH - i) * 0x4_0000 <= work.bytes,
            work.bytes <= i64::MAX - (MAX_BATCH - i) * 0x4_0000,
            forall|j: int|
                0 <= j < envelopes@.len() ==> (#[trigger] envelopes@[j])@.blob.len()
                    <= MAX_BLOB_BYTES,
    {
        assert(all[i as int] == envelopes@[i as int]@);
        let ghost earlier = work@;
        proof {
            if holds(earlier.records, all[i as int].id) {
                let there = place(earlier.records, all[i as int].id);
                assert(0 <= there < earlier.records.len());
                assert(earlier.records[there].blob.len() <= MAX_BLOB_BYTES);
            }
        }
        work.offer(&envelopes[i], account.vault_id, device, now);
    }

    if (work.count > held_count && without_sign(work.count) > quota.records) || (work.bytes > held
        && without_sign(work.bytes) > quota.bytes) {
        return Err(
            ApiError::TooLarge(
                "this account holds as much as this server allows (".to_owned().concat(
                    text::decimal(quota.records as u128).as_str(),
                ).concat(" records, ").concat(
                    text::decimal((quota.bytes / 0x10_0000) as u128).as_str(),
                ).concat(" MiB)"),
            ),
        );
    }
    if work.bytes > held {
        // Every account but this one as it was, and this one as it would be.
        let everyone: i128 = sum_everyone(db);
        if everyone - held as i128 + work.bytes as i128 > quota.server_bytes as i128 {
            return Err(
                ApiError::TooLarge(
                    "this server holds as much as it allows (".to_owned().concat(
                        text::decimal((quota.server_bytes / 0x10_0000) as u128).as_str(),
                    ).concat(" MiB for all accounts together)"),
                ),
            );
        }
    }
    let cursor: SyncCursor = SyncCursor(work.seq);
    db.accounts[at].seq = work.seq;
    db.accounts[at].record_count = work.count;
    db.accounts[at].record_bytes = work.bytes;
    db.accounts[at].records = work.records;
    assert(db@.accounts =~= self::pushed(old(db)@, *account, device, all, now).accounts);
    Ok(PushResponse { accepted: work.accepted, conflicts: work.conflicts, cursor })
}

/// Offer records. Each one is taken and numbered, or reported as a conflict
/// with the version the server holds.
///
/// The whole batch happens or does not, so a device never has to wonder which
/// half of it landed.
pub fn push(
    db: &mut Db,
    account: &Account,
    device: Uuid,
    envelopes: &[Envelope],
) -> (outcome: Result<PushResponse>)
    requires
        old(db)@.wf(),
        countable(old(db)@, account.id),
    ensures
        final(db)@.wf(),
        exists|now: u64| #[trigger]
            push_done(
                old(db)@,
                final(db)@,
                *account,
                device,
                envelopes_view(envelopes@),
                Quota::standard(),
                now,
                outcome,
            ),
{
    push_within(db, account, device, envelopes, Quota::default())
}

/// [`push`], held to what the account may hold and what the server holds in
/// all. A push that would take either past that is refused whole; one that
/// makes the account smaller (a delete, say) always goes through, even for
/// an account that is over, or on a server that is full.
pub fn push_within(
    db: &mut Db,
    account: &Account,
    device: Uuid,
    envelopes: &[Envelope],
    quota: Quota,
) -> (outcome: Result<PushResponse>)
    requires
        old(db)@.wf(),
        countable(old(db)@, account.id),
    ensures
        final(db)@.wf(),
        exists|now: u64| #[trigger]
            push_done(
                old(db)@,
                final(db)@,
                *account,
                device,
                envelopes_view(envelopes@),
                quota,
                now,
                outcome,
            ),
{
    let now: u64 = now_ms();
    push_at(db, account, device, envelopes, quota, now)
}

/// The records of a mailbox that answer a question, in their order.
pub open spec fn select(
    records: Seq<RecordView>,
    which: spec_fn(RecordView) -> bool,
) -> Seq<RecordView>
    decreases records.len(),
{
    if records.len() == 0 {
        Seq::empty()
    } else if which(records.last()) {
        select(records.drop_last(), which).push(records.last())
    } else {
        select(records.drop_last(), which)
    }
}

/// What a device that has read up to `since` is still to be given. One that
/// does not read manifests is given none.
pub open spec fn news(since: u64, manifests: bool) -> spec_fn(RecordView) -> bool {
    |record: RecordView| record.seq > since && (manifests || record.kind != EntityKind::Manifest)
}

/// Whether that much is one page: not more than `limit` records and not more
/// than [`MAX_BATCH_BYTES`] of sealed bytes, except that one record always is.
pub open spec fn is_page(page: Seq<RecordView>, limit: int) -> bool {
    page.len() <= limit && (page.len() <= 1 || held_bytes(page) <= MAX_BATCH_BYTES)
}

/// The limit a page is held to: at least one record, at most [`MAX_BATCH`].
pub open spec fn page_limit(limit: usize) -> int {
    if limit < 1 {
        1
    } else if limit > MAX_BATCH {
        MAX_BATCH as int
    } else {
        limit as int
    }
}

/// How many of the first `n` records of a mailbox a page reads: as long as
/// what it gives out of them is one page.
pub open spec fn rows_read(
    records: Seq<RecordView>,
    n: nat,
    since: u64,
    limit: int,
    manifests: bool,
) -> nat
    decreases n,
{
    if n == 0 {
        0
    } else {
        let k = rows_read(records, (n - 1) as nat, since, limit, manifests);
        if k == n - 1 && is_page(select(records.take(n as int), news(since, manifests)), limit) {
            n
        } else {
            k
        }
    }
}

/// How far a device has read that has read these records: to the last of them.
pub open spec fn reached(records: Seq<RecordView>, since: u64) -> u64 {
    if records.len() > 0 && records.last().seq > since {
        records.last().seq
    } else {
        since
    }
}

/// The envelopes that records travel in.
pub open spec fn envelopes_of(vault_id: Uuid, records: Seq<RecordView>) -> Seq<EnvelopeView> {
    records.map_values(|record: RecordView| envelope_of(vault_id, record))
}

/// The page of a mailbox after `since`. It says that there is more if there is
/// anything it did not read.
pub open spec fn page_of(
    vault_id: Uuid,
    records: Seq<RecordView>,
    since: u64,
    limit: usize,
    manifests: bool,
) -> PullResponseView {
    let k = rows_read(records, records.len(), since, page_limit(limit), manifests);
    let read = records.take(k as int);
    PullResponseView {
        envelopes: envelopes_of(vault_id, select(read, news(since, manifests))),
        cursor: SyncCursor(reached(read, since)),
        has_more: k < records.len(),
    }
}

/// A page being put together, one record after the other in sequence order.
#[derive(Debug)]
pub struct Page {
    pub vault_id: Uuid,
    /// How many records it holds at most.
    pub limit: usize,
    /// Whether the device reads manifests.
    pub manifests: bool,
    /// Sealed bytes on it.
    pub bytes: usize,
    pub so_far: PullResponse,
}

/// A [`Page`] by its contents.
pub struct PageView {
    pub vault_id: Uuid,
    pub limit: usize,
    pub manifests: bool,
    pub bytes: int,
    pub so_far: PullResponseView,
}

impl View for Page {
    type V = PageView;

    open spec fn view(&self) -> PageView {
        PageView {
            vault_id: self.vault_id,
            limit: self.limit,
            manifests: self.manifests,
            bytes: self.bytes as int,
            so_far: self.so_far@,
        }
    }
}

impl PageView {
    /// What is on a page counts towards it, and no more than it may hold.
    pub open spec fn wf(self) -> bool {
        &&& self.bytes <= MAX_BATCH_BYTES
        &&& self.so_far.envelopes.len() == 0 ==> self.bytes == 0
    }

    /// Whether there is no place on the page for another record of that size.
    pub open spec fn full(self, bytes: nat) -> bool {
        ||| self.so_far.envelopes.len() == self.limit
        ||| self.so_far.envelopes.len() > 0 && self.bytes + bytes > MAX_BATCH_BYTES
    }

    /// One record further. A manifest for a device that reads none is passed
    /// over, and the cursor moves past it; a record that has no place on the
    /// page is left for the next one.
    pub open spec fn read(self, record: RecordView) -> PageView {
        let cursor = SyncCursor(
            if record.seq > self.so_far.cursor.0 {
                record.seq
            } else {
                self.so_far.cursor.0
            },
        );
        if !self.manifests && record.kind == EntityKind::Manifest {
            PageView { so_far: PullResponseView { cursor, ..self.so_far }, ..self }
        } else if self.full(record.blob.len()) {
            PageView { so_far: PullResponseView { has_more: true, ..self.so_far }, ..self }
        } else {
            PageView {
                bytes: self.bytes + record.blob.len(),
                so_far: PullResponseView {
                    envelopes: self.so_far.envelopes.push(envelope_of(self.vault_id, record)),
                    cursor,
                    ..self.so_far
                },
                ..self
            }
        }
    }
}

impl Page {
    /// A page with nothing on it yet, for a device that has read up to `since`.
    pub fn new(vault_id: Uuid, since: u64, limit: usize, manifests: bool) -> (page: Page)
        ensures
            page@ == (PageView {
                vault_id,
                limit: page_limit(limit) as usize,
                manifests,
                bytes: 0,
                so_far: PullResponseView {
                    envelopes: Seq::empty(),
                    cursor: SyncCursor(since),
                    has_more: false,
                },
            }),
            page@.wf(),
    {
        let limit: usize = if limit < 1 {
            1
        } else if limit > MAX_BATCH {
            MAX_BATCH
        } else {
            limit
        };
        let page: Page = Page {
            vault_id,
            limit,
            manifests,
            bytes: 0,
            so_far: PullResponse {
                envelopes: Vec::new(),
                cursor: SyncCursor(since),
                has_more: false,
            },
        };
        assert(page@.so_far.envelopes =~= Seq::empty());
        page
    }

    /// Read the next record.
    pub fn read(&mut self, record: &Record)
        requires
            old(self)@.wf(),
            record.blob.len() <= MAX_BLOB_BYTES,
        ensures
            final(self)@ == old(self)@.read(record@),
            final(self)@.wf(),
    {
        let cursor: SyncCursor = if record.seq > self.so_far.cursor.0 {
            SyncCursor(record.seq)
        } else {
            self.so_far.cursor
        };
        if !self.manifests && record.kind == EntityKind::Manifest {
            self.so_far.cursor = cursor;
            return ;
        }
        if self.so_far.envelopes.len() == self.limit || (!self.so_far.envelopes.is_empty()
            && self.bytes + record.blob.len() > MAX_BATCH_BYTES) {
            self.so_far.has_more = true;
            return ;
        }
        let ghost earlier = self@.so_far.envelopes;
        self.bytes = self.bytes + record.blob.len();
        self.so_far.cursor = cursor;
        let envelope: Envelope = to_envelope(self.vault_id, record);
        self.so_far.envelopes.push(envelope);
        assert(self@.so_far.envelopes =~= earlier.push(envelope@));
    }
}

/// The records of an account; none where there is no such account.
pub open spec fn mailbox(db: DbView, id: Uuid) -> Seq<RecordView> {
    if db.has_account(id) {
        db.account(id).records
    } else {
        Seq::empty()
    }
}

/// A page that has stopped reads no further.
proof fn lemma_page_stays_stopped(
    records: Seq<RecordView>,
    k: nat,
    n: nat,
    since: u64,
    limit: int,
    manifests: bool,
)
    requires
        k < n,
        rows_read(records, k + 1, since, limit, manifests) == k,
    ensures
        rows_read(records, n, since, limit, manifests) == k,
    decreases n,
{
    if n > k + 1 {
        lemma_page_stays_stopped(records, k, (n - 1) as nat, since, limit, manifests);
    }
}

/// Everything after a cursor, oldest first. `has_more` is honest: a device
/// that stops at the first page would otherwise believe it had everything.
///
/// A page ends at `limit` records or at [`MAX_BATCH_BYTES`] of sealed bytes,
/// whichever comes first, and always holds one.
///
/// `manifests` says whether the device reads manifests. For one that doesn't,
/// they are passed over: the cursor still moves past them, so it never asks
/// for them again.
pub fn pull(
    db: &Db,
    account: &Account,
    since: u64,
    limit: usize,
    manifests: bool,
) -> (page: Result<PullResponse>)
    requires
        db@.wf(),
    ensures
        page matches Ok(page) && page@ == page_of(
            account.vault_id,
            mailbox(db@, account.id),
            since,
            limit,
            manifests,
        ),
{
    let mut page: Page = Page::new(account.vault_id, since, limit, manifests);
    let ghost which = news(since, manifests);
    let ghost bound = page_limit(limit);
    let at: usize = match db.find_account(account.id) {
        Some(at) => at,
        None => {
            assert(page.so_far@.envelopes =~= envelopes_of(account.vault_id, Seq::empty()));
            assert(mailbox(db@, account.id).take(0) =~= Seq::empty());
            return Ok(page.so_far);
        },
    };
    let records: &Vec<Record> = &db.accounts[at].records;
    let ghost all = records_view(records@);
    assert(all == mailbox(db@, account.id)) by {
        assert(db@.accounts[at as int] == db.accounts[at as int]@);
    }
    assert(in_order(all, db.accounts[at as int].seq)) by {
        assert(db@.accounts[at as int].wf());
    }
    assert(select(all.take(0), which) =~= Seq::empty());
    assert(page.so_far@.envelopes =~= envelopes_of(account.vault_id, select(all.take(0), which)));
    for i in 0..records.len()
        invariant
            all == records_view(records@),
            in_order(all, db.accounts[at as int].seq),
            which == news(since, manifests),
            bound == page_limit(limit),
            page@.wf(),
            page.vault_id == account.vault_id,
            page.limit == bound,
            page.manifests == manifests,
            page@.so_far == (PullResponseView {
                envelopes: envelopes_of(account.vault_id, select(all.take(i as int), which)),
                cursor: SyncCursor(reached(all.take(i as int), since)),
                has_more: false,
            }),
            page.bytes == held_bytes(select(all.take(i as int), which)),
            is_page(select(all.take(i as int), which), bound),
            rows_read(all, i as nat, since, bound, manifests) == i,
            all == mailbox(db@, account.id),
    {
        let ghost given = select(all.take(i as int), which);
        let ghost earlier = page@;
        let record: &Record = &records[i];
        proof {
            assert(all.take(i + 1).drop_last() =~= all.take(i as int));
            assert(all.take(i + 1).last() == record@);
            assert(all[i as int] == record@);
            assert(given.push(record@).drop_last() =~= given);
            if i > 0 {
                assert(all.take(i as int).last() == all[i - 1]);
                assert(all[i - 1].seq < all[i as int].seq);
            }
        }
        if record.seq > since {
            page.read(record);
        }
        if page.so_far.has_more {
            proof {
                assert(earlier.full(record.blob@.len()));
                assert(!is_page(given.push(record@), bound));
                lemma_page_stays_stopped(all, i as nat, all.len(), since, bound, manifests);
            }
            return Ok(page.so_far);
        }
        proof {
            if which(record@) {
                assert(envelopes_of(account.vault_id, given.push(record@)) =~= envelopes_of(
                    account.vault_id,
                    given,
                ).push(envelope_of(account.vault_id, record@)));
            }
        }
    }
    assert(all.take(all.len() as int) =~= all);
    Ok(page.so_far)
}

/// One record as the server holds it.
pub fn get(db: &Db, account: &Account, id: Uuid) -> (held: Result<Option<Envelope>>)
    requires
        db@.wf(),
    ensures
        held is Ok,
        held->Ok_0 is Some <==> holds(mailbox(db@, account.id), id),
        held matches Ok(Some(envelope)) ==> envelope@ == envelope_of(
            account.vault_id,
            mailbox(db@, account.id)[place(mailbox(db@, account.id), id)],
        ),
{
    let at: usize = match db.find_account(account.id) {
        Some(at) => at,
        None => {
            return Ok(None);
        },
    };
    let ghost all = mailbox(db@, account.id);
    proof {
        assert(db@.accounts[at as int] == db.accounts[at as int]@);
        assert(db@.accounts[at as int].wf());
    }
    match find(&db.accounts[at].records, id) {
        Some(there) => {
            assert(all[there as int].id == id);
            assert(place(all, id) == there);
            Ok(Some(to_envelope(account.vault_id, &db.accounts[at].records[there])))
        },
        None => Ok(None),
    }
}

/// How many records an account has.
pub fn count(db: &Db, account: &Account) -> (records: usize)
    requires
        db@.wf(),
    ensures
        records == mailbox(db@, account.id).len(),
{
    match db.find_account(account.id) {
        Some(at) => {
            assert(db@.accounts[at as int] == db.accounts[at as int]@);
            db.accounts[at].records.len()
        },
        None => 0,
    }
}

/// How many records an account holds, and how many sealed bytes, as it counts
/// them.
pub fn usage(db: &Db, account: &Account) -> (held: Result<(u64, u64)>)
    requires
        db@.wf(),
    ensures
        held is Ok <==> db@.has_account(account.id),
        held matches Ok(held) ==> held == (
            db@.account(account.id).record_count as u64,
            db@.account(account.id).record_bytes as u64,
        ),
        held matches Err(error) ==> error@ == Refusal::Database("Query returned no rows"@),
{
    match db.find_account(account.id) {
        Some(at) => {
            assert(db@.accounts[at as int] == db.accounts[at as int]@);
            Ok((db.accounts[at].record_count as u64, db.accounts[at].record_bytes as u64))
        },
        None => Err(ApiError::Database("Query returned no rows".to_owned())),
    }
}

/// Records that are to be forgotten.
#[derive(Debug, Clone, Copy, PartialEq, Eq, Structural)]
pub enum Doomed {
    /// Tombstones written before a time and not numbered above `below_seq`.
    Tombstones { before_ms: u64, below_seq: u64 },
    /// The manifests a device published.
    ManifestsOf { device: Uuid },
}

impl Doomed {
    pub open spec fn takes(self) -> spec_fn(RecordView) -> bool {
        match self {
            Doomed::Tombstones { before_ms, below_seq } => |record: RecordView|
                record.deleted && record.updated_ms < before_ms && record.seq <= below_seq,
            Doomed::ManifestsOf { device } => |record: RecordView|
                record.device_id == device && record.kind == EntityKind::Manifest,
        }
    }

    pub open spec fn leaves(self) -> spec_fn(RecordView) -> bool {
        |record: RecordView| !self.takes()(record)
    }

    /// Whether a record is one of them.
    fn is(&self, record: &Record) -> (doomed: bool)
        ensures
            doomed == self.takes()(record@),
    {
        match self {
            Doomed::Tombstones { before_ms, below_seq } => record.deleted && record.updated_ms
                < *before_ms && record.seq <= *below_seq,
            Doomed::ManifestsOf { device } => record.device_id == *device && record.kind
                == EntityKind::Manifest,
        }
    }
}

/// A counter after that much is gone, and never below zero.
pub open spec fn lowered(counter: i64, by: nat) -> i64 {
    if counter - by < 0 {
        0
    } else {
        (counter - by) as i64
    }
}

fn lower(counter: i64, by: u128) -> (left: i64)
    requires
        by <= 0x1_0000_0000_0000_0000_0000_0000,
    ensures
        left == lowered(counter, by as nat),
{
    let left: i128 = counter as i128 - by as i128;
    if left < 0 {
        0
    } else {
        left as i64
    }
}

/// An account once the doomed records are gone, and no longer counted.
pub open spec fn without(account: AccountView, doomed: Doomed) -> AccountView {
    let gone = select(account.records, doomed.takes());
    AccountView {
        record_count: lowered(account.record_count, gone.len()),
        record_bytes: lowered(account.record_bytes, held_bytes(gone)),
        records: select(account.records, doomed.leaves()),
        ..account
    }
}

/// The database once the doomed records of an account are gone.
pub open spec fn forgotten(db: DbView, id: Uuid, doomed: Doomed) -> DbView {
    if db.has_account(id) {
        db.with_account(id, without(db.account(id), doomed))
    } else {
        db
    }
}

/// A selection of records that are in order is in order.
pub(crate) proof fn lemma_select_in_order(
    records: Seq<RecordView>,
    which: spec_fn(RecordView) -> bool,
    seq: u64,
)
    requires
        in_order(records, seq),
    ensures
        in_order(select(records, which), seq),
        forall|i: int|
            0 <= i < select(records, which).len() ==> records.contains(
                #[trigger] select(records, which)[i],
            ),
    decreases records.len(),
{
    if records.len() > 0 {
        let rest = records.drop_last();
        assert(in_order(rest, seq));
        lemma_select_in_order(rest, which, seq);
        let chosen = select(records, which);
        assert forall|i: int| 0 <= i < chosen.len() implies records.contains(
            #[trigger] chosen[i],
        ) by {
            if i < select(rest, which).len() {
                assert(rest.contains(select(rest, which)[i]));
                let j = choose|j: int| 0 <= j < rest.len() && rest[j] == select(rest, which)[i];
                assert(records[j] == chosen[i]);
            } else {
                assert(records[records.len() - 1] == chosen[i]);
            }
        }
        assert forall|i: int, j: int| 0 <= i < j < chosen.len() implies (#[trigger] chosen[i]).seq
            < (#[trigger] chosen[j]).seq && chosen[i].id != chosen[j].id by {
            if j == select(rest, which).len() {
                assert(rest.contains(select(rest, which)[i]));
                let k = choose|k: int| 0 <= k < rest.len() && rest[k] == select(rest, which)[i];
                assert(records[k] == chosen[i]);
                assert(records[records.len() - 1] == chosen[j]);
            }
        }
    }
}

/// Forget the doomed records of an account. Returns how many there were.
fn forget(db: &mut Db, id: Uuid, doomed: Doomed) -> (removed: usize)
    requires
        old(db)@.wf(),
    ensures
        final(db)@.wf(),
        removed == select(mailbox(old(db)@, id), doomed.takes()).len(),
        final(db)@ == forgotten(old(db)@, id, doomed),
{
    let at: usize = match db.find_account(id) {
        Some(at) => at,
        None => {
            return 0;
        },
    };
    let ghost before = db@.account(id);
    let ghost all = before.records;
    let ghost takes = doomed.takes();
    let ghost leaves = doomed.leaves();
    proof {
        assert(before == db.accounts[at as int]@);
        assert(db@.accounts[at as int].wf());
        lemma_select_in_order(all, leaves, before.seq);
    }
    let mut kept: Vec<Record> = Vec::new();
    let mut removed: usize = 0;
    let mut bytes: u128 = 0;
    assert(select(all.take(0), leaves) =~= records_view(kept@));
    let held: usize = db.accounts[at].records.len();
    for i in 0..held
        invariant
            at < db.accounts.len(),
            held == db.accounts[at as int].records.len(),
            db@ == old(db)@,
            all == records_view(db.accounts[at as int].records@),
            in_order(all, before.seq),
            takes == doomed.takes(),
            leaves == doomed.leaves(),
            records_view(kept@) == select(all.take(i as int), leaves),
            removed == select(all.take(i as int), takes).len(),
            removed <= i,
            bytes == held_bytes(select(all.take(i as int), takes)),
            bytes <= i * 0x4_0000,
    {
        proof {
            assert(all.take(i + 1).drop_last() =~= all.take(i as int));
            assert(all.take(i + 1).last() == db.accounts[at as int].records@[i as int]@);
            assert(all[i as int].blob.len() <= MAX_BLOB_BYTES);
        }
        let ghost gone = select(all.take(i as int), takes);
        let ghost earlier = records_view(kept@);
        let record: &Record = &db.accounts[at].records[i];
        if doomed.is(record) {
            removed = removed + 1;
            bytes = bytes + record.blob.len() as u128;
            assert(gone.push(record@).drop_last() =~= gone);
        } else {
            kept.push(record.clone());
            assert(records_view(kept@) =~= earlier.push(record@));
        }
    }
    assert(all.take(all.len() as int) =~= all);
    db.accounts[at].record_count = lower(db.accounts[at].record_count, removed as u128);
    db.accounts[at].record_bytes = lower(db.accounts[at].record_bytes, bytes);
    db.accounts[at].records = kept;
    assert(db@.accounts =~= old(db)@.with_account(id, without(before, doomed)).accounts);
    removed
}

/// Forget tombstones every device has read and that are older than a season.
///
/// Both conditions matter. A tombstone is what stops a device that was offline
/// during a delete from bringing the record back, so one may only go once
/// every device has seen it; and a device that has been away for months gets
/// a fresh start instead, which is why `below_seq` comes from the devices that
/// still read.
pub fn purge_tombstones(
    db: &mut Db,
    account: &Account,
    before_ms: u64,
    below_seq: u64,
) -> (removed: usize)
    requires
        old(db)@.wf(),
    ensures
        final(db)@.wf(),
        ({
            let doomed = Doomed::Tombstones { before_ms, below_seq };
            &&& removed == select(mailbox(old(db)@, account.id), doomed.takes()).len()
            &&& final(db)@ == forgotten(old(db)@, account.id, doomed)
        }),
{
    forget(db, account.id, Doomed::Tombstones { before_ms, below_seq })
}

/// Forget the manifests a device published. Once it is revoked, nothing it
/// said is kept up to date any more: after old tombstones are purged, its last
/// manifest would name records a newly joined device can never receive, and
/// that device would take the gap for a server holding them back.
pub fn drop_manifests_of(db: &mut Db, account_id: Uuid, device_id: Uuid) -> (removed: usize)
    requires
        old(db)@.wf(),
    ensures
        final(db)@.wf(),
        ({
            let doomed = Doomed::ManifestsOf { device: device_id };
            &&& removed == select(mailbox(old(db)@, account_id), doomed.takes()).len()
            &&& final(db)@ == forgotten(old(db)@, account_id, doomed)
        }),
{
    forget(db, account_id, Doomed::ManifestsOf { device: device_id })
}

} // verus!
