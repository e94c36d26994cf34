//! Pushing, pulling and forgetting records.

use crate::api::records::{
    after_page, asked_page, pull_admitted, pull_done, push_admitted, push_answered, PullQuery,
};
use crate::db::accounts::Account;
use crate::db::laws::{
    a_push_is_counted_right, a_push_leaves_other_records_alone, lemma_no_fault_bounds_blobs,
    lemma_pushed_account, lemma_rows_read, lemma_select_contains, lemma_selected_answer,
    numbers_rise_without_a_gap, was_taken, what_was_taken_is_held,
};
use crate::db::records::{
    countable, envelopes_of, everyones_bytes, forgotten, held_bytes, holds, lemma_select_in_order,
    mailbox, news, offer, offer_all, page_limit, page_of, place, push_done, push_refusal, rows_read,
    sealed_bytes, select, unsigned, without, Doomed, Page, PageView, Quota,
};
use crate::db::{in_order, AccountView, DbView, Record, RecordView};
use crate::error::{refused, Refusal, Result};
use crate::ids::Uuid;
use crate::limits::Going;
use crate::proto::{Accepted, EntityKind, Envelope, EnvelopeView, PullResponse, PushResponse};
use crate::state::StateView;
use crate::text;
use vstd::prelude::*;

verus! {

/// What is said of an envelope, a record and an answer is said of every part of
/// it.
pub proof fn nothing_is_left_out(
    envelope: Envelope,
    record: Record,
    pushed: PushResponse,
    page: PullResponse,
    i: int,
)
    ensures
        envelope@.id == envelope.id,
        envelope@.vault_id == envelope.vault_id,
        envelope@.kind == envelope.kind,
        envelope@.updated_at == envelope.updated_at,
        envelope@.base_seq == envelope.base_seq,
        envelope@.deleted == envelope.deleted,
        envelope@.nonce == envelope.nonce@,
        envelope@.blob == envelope.blob@,
        envelope@.seq == envelope.seq,
        record@.id == record.id,
        record@.kind == record.kind,
        record@.seq == record.seq,
        record@.updated_at == record.updated_at,
        record@.deleted == record.deleted,
        record@.nonce == record.nonce@,
        record@.blob == record.blob@,
        record@.device_id == record.device_id,
        record@.updated_ms == record.updated_ms,
        pushed@.accepted == pushed.accepted@,
        pushed@.cursor == pushed.cursor,
        pushed@.conflicts.len() == pushed.conflicts@.len(),
        0 <= i < pushed.conflicts@.len() ==> pushed@.conflicts[i] == pushed.conflicts@[i]@,
        page@.cursor == page.cursor,
        page@.has_more == page.has_more,
        page@.envelopes.len() == page.envelopes@.len(),
        0 <= i < page.envelopes@.len() ==> page@.envelopes[i] == page.envelopes@[i]@,
{
}

/// The answers of a push only grow.
proof fn lemma_answers_grow(
    account: AccountView,
    envelopes: Seq<EnvelopeView>,
    m: nat,
    n: nat,
    vault_id: Uuid,
    device: Uuid,
    now: u64,
)
    requires
        m <= n,
    ensures
        ({
            let one = offer_all(account, envelopes, m, vault_id, device, now);
            let other = offer_all(account, envelopes, n, vault_id, device, now);
            &&& one.accepted.len() <= other.accepted.len()
            &&& forall|i: int|
                0 <= i < one.accepted.len() ==> one.accepted[i] == #[trigger] other.accepted[i]
            &&& one.conflicts.len() <= other.conflicts.len()
            &&& forall|i: int|
                0 <= i < one.conflicts.len() ==> one.conflicts[i] == #[trigger] other.conflicts[i]
        }),
    decreases n,
{
    if m < n {
        lemma_answers_grow(account, envelopes, m, (n - 1) as nat, vault_id, device, now);
    }
}

/// What stands under an id that no envelope so far names is what stood there.
proof fn lemma_untouched_so_far(
    account: AccountView,
    envelopes: Seq<EnvelopeView>,
    n: nat,
    vault_id: Uuid,
    device: Uuid,
    now: u64,
    id: Uuid,
)
    requires
        account.wf(),
        n <= envelopes.len(),
        account.seq + n <= u64::MAX,
        forall|i: int|
            0 <= i < envelopes.len() ==> (#[trigger] envelopes[i]).blob.len() <= 262144,
        forall|i: int| 0 <= i < n ==> (#[trigger] envelopes[i]).id != id,
    ensures
        ({
            let so_far = offer_all(account, envelopes, n, vault_id, device, now);
            &&& holds(so_far.records, id) <==> holds(account.records, id)
            &&& holds(account.records, id) ==> so_far.records[place(so_far.records, id)]
                == account.records[place(account.records, id)]
        }),
{
    let so_far = offer_all(account, envelopes, n, vault_id, device, now);
    numbers_rise_without_a_gap(account, envelopes, n, vault_id, device, now);
    if holds(account.records, id) {
        let held = account.records[place(account.records, id)];
        assert(held.id == id);
        a_push_leaves_other_records_alone(account, envelopes, n, vault_id, device, now, held);
        assert(account.records.contains(held));
        let k = choose|k: int| 0 <= k < so_far.records.len() && so_far.records[k] == held;
        assert(so_far.records[k].id == id);
        assert(so_far.records[place(so_far.records, id)].id == id);
        assert(place(so_far.records, id) == k);
    }
    if holds(so_far.records, id) {
        let there = so_far.records[place(so_far.records, id)];
        assert(there.id == id);
        assert(so_far.records.contains(there));
        a_push_leaves_other_records_alone(account, envelopes, n, vault_id, device, now, there);
        let k = choose|k: int| 0 <= k < account.records.len() && account.records[k] == there;
        assert(account.records[k].id == id);
    }
}

/// A record that is pushed is kept as it was sent, field by field, under the
/// number it is told; unless the server holds it in another version than the
/// one it was based on. Then what is held stays, and comes back with the answer
/// as it is, field by field.
pub proof fn what_is_pushed_is_kept(
    before: DbView,
    after: DbView,
    account: Account,
    device: Uuid,
    envelopes: Seq<EnvelopeView>,
    quota: Quota,
    now: u64,
    response: PushResponse,
    i: int,
)
    requires
        before.wf(),
        countable(before, account.id),
        push_done(before, after, account, device, envelopes, quota, now, Ok(response)),
        0 <= i < envelopes.len(),
        forall|j: int|
            0 <= j < envelopes.len() && j != i ==> (#[trigger] envelopes[j]).id != envelopes[i].id,
    ensures
        before.has_account(account.id) && after.has_account(account.id),
        ({
            let old_records = before.account(account.id).records;
            let new_records = after.account(account.id).records;
            let envelope = envelopes[i];
            if forall|k: int|
                0 <= k < old_records.len() && (#[trigger] old_records[k]).id == envelope.id
                    ==> old_records[k].seq == envelope.base_seq {
                exists|k: int, a: int|
                    0 <= k < new_records.len() && 0 <= a < response.accepted@.len() && (
                    #[trigger] new_records[k]).id == envelope.id && new_records[k].kind
                        == envelope.kind && new_records[k].updated_at == envelope.updated_at
                        && new_records[k].deleted == envelope.deleted && new_records[k].nonce
                        == envelope.nonce && new_records[k].blob == envelope.blob
                        && new_records[k].device_id == device && new_records[k].updated_ms == now
                        && (#[trigger] response.accepted@[a]).id == envelope.id
                        && response.accepted@[a].seq == new_records[k].seq && new_records[k].seq
                        == before.account(account.id).seq + 1 + a
            } else {
                exists|k: int, c: int|
                    0 <= k < old_records.len() && 0 <= c < response.conflicts@.len() && (
                    #[trigger] old_records[k]).id == envelope.id && old_records[k].seq
                        != envelope.base_seq && new_records.contains(old_records[k]) && (
                    #[trigger] response.conflicts@[c])@.id == envelope.id
                        && response.conflicts@[c]@.vault_id == account.vault_id
                        && response.conflicts@[c]@.kind == old_records[k].kind
                        && response.conflicts@[c]@.updated_at == old_records[k].updated_at
                        && response.conflicts@[c]@.base_seq == old_records[k].seq
                        && response.conflicts@[c]@.seq == Some(old_records[k].seq)
                        && response.conflicts@[c]@.deleted == old_records[k].deleted
                        && response.conflicts@[c]@.nonce == old_records[k].nonce
                        && response.conflicts@[c]@.blob == old_records[k].blob
            }
        }),
{
    let old_account = before.account(account.id);
    let n = envelopes.len();
    lemma_pushed_account(before, account, device, envelopes, quota, now);
    assert(old_account.id == account.id && old_account.wf());
    let old_records = old_account.records;
    let new_records = after.account(account.id).records;
    let envelope = envelopes[i];
    let v = account.vault_id;
    lemma_untouched_so_far(old_account, envelopes, i as nat, v, device, now, envelope.id);
    numbers_rise_without_a_gap(old_account, envelopes, i as nat, v, device, now);
    numbers_rise_without_a_gap(old_account, envelopes, (i + 1) as nat, v, device, now);
    numbers_rise_without_a_gap(old_account, envelopes, n, v, device, now);
    lemma_answers_grow(old_account, envelopes, (i + 1) as nat, n, v, device, now);
    let so_far = offer_all(old_account, envelopes, i as nat, v, device, now);
    let next = offer_all(old_account, envelopes, (i + 1) as nat, v, device, now);
    let end = offer_all(old_account, envelopes, n, v, device, now);
    assert(next == offer(so_far, envelope, v, device, now));
    let matching = forall|k: int|
        0 <= k < old_records.len() && (#[trigger] old_records[k]).id == envelope.id
            ==> old_records[k].seq == envelope.base_seq;
    if holds(old_records, envelope.id) {
        let k = place(old_records, envelope.id);
        assert(old_records[k].id == envelope.id);
        assert forall|j: int|
            0 <= j < old_records.len() && (#[trigger] old_records[j]).id
                == envelope.id implies j == k by {}
    }
    if matching {
        assert(was_taken(old_account, envelopes, i, v, device, now));
        what_was_taken_is_held(old_account, envelopes, i, n, v, device, now);
        let number = (so_far.seq + 1) as u64;
        let a = next.accepted.len() - 1;
        assert(end.accepted[a] == next.accepted[a]);
        assert(response.accepted@[a] == (Accepted { id: envelope.id, seq: number }));
        let taken = crate::db::records::record_of(envelope, number, device, now);
        let k = choose|k: int| 0 <= k < end.records.len() && end.records[k] == taken;
        assert(new_records[k] == taken);
    } else {
        let k = place(old_records, envelope.id);
        assert(holds(old_records, envelope.id));
        assert(old_records[k].seq != envelope.base_seq);
        let c = next.conflicts.len() - 1;
        assert(end.conflicts[c] == next.conflicts[c]);
        assert(response@.conflicts[c] == response.conflicts@[c]@);
        assert(so_far.records.contains(old_records[k])) by {
            assert(so_far.records[place(so_far.records, envelope.id)] == old_records[k]);
        }
        lemma_left_alone_from(old_account, envelopes, i as nat, n, v, device, now, old_records[k]);
    }
}

/// Also where a push names a record more than once, the last word on it is
/// kept, field by field, or what is held instead is told, field by field.
pub proof fn the_last_word_is_kept_or_answered(
    before: DbView,
    after: DbView,
    account: Account,
    device: Uuid,
    envelopes: Seq<EnvelopeView>,
    quota: Quota,
    now: u64,
    response: PushResponse,
    i: int,
) -> (at: (int, int))
    requires
        before.wf(),
        countable(before, account.id),
        push_done(before, after, account, device, envelopes, quota, now, Ok(response)),
        0 <= i < envelopes.len(),
        forall|j: int| i < j < envelopes.len() ==> (#[trigger] envelopes[j]).id != envelopes[i].id,
    ensures
        ({
            let records = after.account(account.id).records;
            let envelope = envelopes[i];
            let record = records[at.0];
            let answer = response.conflicts@[at.1]@;
            &&& 0 <= at.0 < records.len()
            &&& record.id == envelope.id
            &&& ({
                &&& 0 <= at.1 < response.accepted@.len()
                &&& response.accepted@[at.1].id == envelope.id
                &&& response.accepted@[at.1].seq == record.seq
                &&& record.kind == envelope.kind
                &&& record.updated_at == envelope.updated_at
                &&& record.deleted == envelope.deleted
                &&& record.nonce == envelope.nonce
                &&& record.blob == envelope.blob
                &&& record.device_id == device
                &&& record.updated_ms == now
            }) || ({
                &&& 0 <= at.1 < response.conflicts@.len()
                &&& record.seq != envelope.base_seq
                &&& answer.id == envelope.id
                &&& answer.vault_id == account.vault_id
                &&& answer.kind == record.kind
                &&& answer.updated_at == record.updated_at
                &&& answer.base_seq == record.seq
                &&& answer.seq == Some(record.seq)
                &&& answer.deleted == record.deleted
                &&& answer.nonce == record.nonce
                &&& answer.blob == record.blob
            })
        }),
{
    let old_account = before.account(account.id);
    let n = envelopes.len();
    lemma_pushed_account(before, account, device, envelopes, quota, now);
    assert(old_account.id == account.id && old_account.wf());
    let envelope = envelopes[i];
    let v = account.vault_id;
    numbers_rise_without_a_gap(old_account, envelopes, i as nat, v, device, now);
    lemma_answers_grow(old_account, envelopes, (i + 1) as nat, n, v, device, now);
    let so_far = offer_all(old_account, envelopes, i as nat, v, device, now);
    let next = offer_all(old_account, envelopes, (i + 1) as nat, v, device, now);
    let end = offer_all(old_account, envelopes, n, v, device, now);
    assert(next == offer(so_far, envelope, v, device, now));
    if was_taken(old_account, envelopes, i, v, device, now) {
        what_was_taken_is_held(old_account, envelopes, i, n, v, device, now);
        let number = (so_far.seq + 1) as u64;
        let a = next.accepted.len() - 1;
        assert(end.accepted[a] == next.accepted[a]);
        let taken = crate::db::records::record_of(envelope, number, device, now);
        let k = choose|k: int| 0 <= k < end.records.len() && end.records[k] == taken;
        (k, a)
    } else {
        let p = place(so_far.records, envelope.id);
        let held = so_far.records[p];
        assert(holds(so_far.records, envelope.id));
        assert(held.id == envelope.id);
        let c = next.conflicts.len() - 1;
        assert(end.conflicts[c] == next.conflicts[c]);
        assert(response@.conflicts[c] == response.conflicts@[c]@);
        lemma_left_alone_from(old_account, envelopes, i as nat, n, v, device, now, held);
        let k = choose|k: int| 0 <= k < end.records.len() && end.records[k] == held;
        (k, c)
    }
}

/// A conflict leaves what is held, and so does what follows it and names other
/// records.
proof fn lemma_left_alone_from(
    account: AccountView,
    envelopes: Seq<EnvelopeView>,
    from: nat,
    n: nat,
    vault_id: Uuid,
    device: Uuid,
    now: u64,
    record: RecordView,
)
    requires
        from < n <= envelopes.len(),
        account.wf(),
        account.seq + n <= u64::MAX,
        forall|i: int|
            0 <= i < envelopes.len() ==> (#[trigger] envelopes[i]).blob.len() <= 262144,
        envelopes[from as int].id == record.id,
        !was_taken(account, envelopes, from as int, vault_id, device, now),
        forall|j: int| from < j < n ==> (#[trigger] envelopes[j]).id != record.id,
        offer_all(account, envelopes, from, vault_id, device, now).records.contains(record),
    ensures
        offer_all(account, envelopes, n, vault_id, device, now).records.contains(record),
    decreases n,
{
    if n == from + 1 {
        let before = offer_all(account, envelopes, from, vault_id, device, now);
        assert(offer_all(account, envelopes, n, vault_id, device, now).records == before.records);
    } else {
        let m = (n - 1) as nat;
        lemma_left_alone_from(account, envelopes, from, m, vault_id, device, now, record);
        crate::db::laws::lemma_offer_leaves_others(
            offer_all(account, envelopes, m, vault_id, device, now),
            envelopes[m as int],
            vault_id,
            device,
            now,
            record,
        );
    }
}

/// Whatever a push numbered is one of the records that were sent, field by
/// field, and whatever it did not number was there before.
pub proof fn nothing_is_made_up(
    before: DbView,
    after: DbView,
    account: Account,
    device: Uuid,
    envelopes: Seq<EnvelopeView>,
    quota: Quota,
    now: u64,
    response: PushResponse,
    k: int,
)
    requires
        before.wf(),
        countable(before, account.id),
        push_done(before, after, account, device, envelopes, quota, now, Ok(response)),
        0 <= k < after.account(account.id).records.len(),
    ensures
        ({
            let record = after.account(account.id).records[k];
            if record.seq <= before.account(account.id).seq {
                before.account(account.id).records.contains(record)
            } else {
                exists|i: int|
                    0 <= i < envelopes.len() && (#[trigger] envelopes[i]).id == record.id
                        && envelopes[i].kind == record.kind && envelopes[i].updated_at
                        == record.updated_at && envelopes[i].deleted == record.deleted
                        && envelopes[i].nonce == record.nonce && envelopes[i].blob == record.blob
            }
        }),
{
    let old_account = before.account(account.id);
    lemma_pushed_account(before, account, device, envelopes, quota, now);
    assert(old_account.id == account.id && old_account.wf());
    lemma_each_is_sent_or_old(
        old_account,
        envelopes,
        envelopes.len(),
        account.vault_id,
        device,
        now,
        k,
    );
}

proof fn lemma_each_is_sent_or_old(
    account: AccountView,
    envelopes: Seq<EnvelopeView>,
    n: nat,
    vault_id: Uuid,
    device: Uuid,
    now: u64,
    k: int,
)
    requires
        account.wf(),
        n <= envelopes.len(),
        account.seq + n <= u64::MAX,
        forall|i: int|
            0 <= i < envelopes.len() ==> (#[trigger] envelopes[i]).blob.len() <= 262144,
        0 <= k < offer_all(account, envelopes, n, vault_id, device, now).records.len(),
    ensures
        ({
            let record = offer_all(account, envelopes, n, vault_id, device, now).records[k];
            if record.seq <= account.seq {
                account.records.contains(record)
            } else {
                exists|i: int|
                    0 <= i < n && (#[trigger] envelopes[i]).id == record.id && envelopes[i].kind
                        == record.kind && envelopes[i].updated_at == record.updated_at
                        && envelopes[i].deleted == record.deleted && envelopes[i].nonce
                        == record.nonce && envelopes[i].blob == record.blob
            }
        }),
    decreases n,
{
    let after = offer_all(account, envelopes, n, vault_id, device, now);
    let record = after.records[k];
    if n == 0 {
        assert(account.records[k] == record);
    } else {
        let m = (n - 1) as nat;
        let before = offer_all(account, envelopes, m, vault_id, device, now);
        numbers_rise_without_a_gap(account, envelopes, m, vault_id, device, now);
        let envelope = envelopes[m as int];
        if holds(before.records, envelope.id) {
            let at = place(before.records, envelope.id);
            if before.records[at].seq == envelope.base_seq {
                if k < after.records.len() - 1 {
                    let j = if k < at {
                        k
                    } else {
                        k + 1
                    };
                    assert(before.records[j] == record);
                    lemma_each_is_sent_or_old(account, envelopes, m, vault_id, device, now, j);
                } else {
                    assert(record.seq == before.seq + 1);
                }
            } else {
                lemma_each_is_sent_or_old(account, envelopes, m, vault_id, device, now, k);
            }
        } else if k < after.records.len() - 1 {
            assert(before.records[k] == record);
            lemma_each_is_sent_or_old(account, envelopes, m, vault_id, device, now, k);
        } else {
            assert(record.seq == before.seq + 1);
        }
    }
}

/// What a push tells a device adds up: every record it sent is taken or
/// reported, the numbers are those that follow the last one, the cursor is the
/// last of them, and the account goes on from there. Nothing else of the
/// account changes.
pub proof fn what_a_push_tells_adds_up(
    before: DbView,
    after: DbView,
    account: Account,
    device: Uuid,
    envelopes: Seq<EnvelopeView>,
    quota: Quota,
    now: u64,
    response: PushResponse,
)
    requires
        before.wf(),
        countable(before, account.id),
        push_done(before, after, account, device, envelopes, quota, now, Ok(response)),
    ensures
        ({
            let (one, other) = (before.account(account.id), after.account(account.id));
            &&& response.accepted@.len() + response.conflicts@.len() == envelopes.len()
            &&& forall|i: int|
                0 <= i < response.accepted@.len() ==> (#[trigger] response.accepted@[i]).seq
                    == one.seq + 1 + i
            &&& response.cursor.0 == one.seq + response.accepted@.len()
            &&& other.seq == response.cursor.0
            &&& other.id == account.id
            &&& other.created_ms == one.created_ms
            &&& other.header == one.header
            &&& other.auth_verifier == one.auth_verifier
            &&& after.devices == before.devices
            &&& after.invites == before.invites
            &&& after.enrolments == before.enrolments
            &&& after.accounts.len() == before.accounts.len()
        }),
{
    lemma_pushed_account(before, account, device, envelopes, quota, now);
    let one = before.account(account.id);
    assert(one.id == account.id && one.wf());
    numbers_rise_without_a_gap(one, envelopes, envelopes.len(), account.vault_id, device, now);
    assert(response@.conflicts.len() == response.conflicts@.len());
}

/// An account that counts what it holds, records and sealed bytes, still does
/// after a push.
pub proof fn what_is_held_is_counted(
    before: DbView,
    after: DbView,
    account: Account,
    device: Uuid,
    envelopes: Seq<EnvelopeView>,
    quota: Quota,
    now: u64,
    response: PushResponse,
)
    requires
        before.wf(),
        countable(before, account.id),
        push_done(before, after, account, device, envelopes, quota, now, Ok(response)),
        before.account(account.id).record_count == before.account(account.id).records.len(),
        before.account(account.id).record_bytes == held_bytes(before.account(account.id).records),
    ensures
        after.account(account.id).record_count == after.account(account.id).records.len(),
        after.account(account.id).record_bytes == held_bytes(after.account(account.id).records),
{
    a_push_is_counted_right(before, account, device, envelopes, quota, now);
}

/// What sealed bytes come to: nothing for nothing, and each record by what is
/// sealed in it.
pub proof fn bytes_add_up(
    records: Seq<RecordView>,
    record: RecordView,
    envelopes: Seq<EnvelopeView>,
    envelope: EnvelopeView,
    accounts: Seq<AccountView>,
    account: AccountView,
)
    ensures
        held_bytes(Seq::empty()) == 0,
        held_bytes(records.push(record)) == held_bytes(records) + record.blob.len(),
        sealed_bytes(Seq::empty()) == 0,
        sealed_bytes(envelopes.push(envelope)) == sealed_bytes(envelopes) + envelope.blob.len(),
        everyones_bytes(Seq::empty()) == 0,
        everyones_bytes(accounts.push(account)) == everyones_bytes(accounts)
            + account.record_bytes,
{
    assert(records.push(record).drop_last() =~= records);
    assert(envelopes.push(envelope).drop_last() =~= envelopes);
    assert(accounts.push(account).drop_last() =~= accounts);
}

/// A push that is taken is one that may be: no more than five hundred records,
/// no more than eight mebibytes of more than one, each of the account's own
/// vault, with a nonce of twenty-four bytes and between one byte and 256
/// kibibytes sealed in it; and no larger than the account, and all accounts
/// together, may be, unless it made them no larger.
pub proof fn only_what_may_be_pushed_is_taken(
    db: DbView,
    account: Account,
    device: Uuid,
    envelopes: Seq<EnvelopeView>,
    quota: Quota,
    now: u64,
    i: int,
)
    requires
        push_refusal(db, account, device, envelopes, quota, now) is None,
        0 <= i < envelopes.len(),
    ensures
        envelopes.len() <= 500,
        envelopes.len() > 1 ==> sealed_bytes(envelopes) <= 8_388_608,
        envelopes[i].vault_id == account.vault_id,
        envelopes[i].nonce.len() == 24,
        1 <= envelopes[i].blob.len() <= 262_144,
        db.has_account(account.id),
{
    lemma_no_faults(account.vault_id, envelopes, i);
}

proof fn lemma_no_faults(vault_id: Uuid, envelopes: Seq<EnvelopeView>, i: int)
    requires
        crate::db::records::first_fault(vault_id, envelopes) is None,
        0 <= i < envelopes.len(),
    ensures
        envelopes[i].vault_id == vault_id,
        envelopes[i].nonce.len() == 24,
        1 <= envelopes[i].blob.len() <= 262_144,
    decreases envelopes.len(),
{
    if i > 0 {
        lemma_no_faults(vault_id, envelopes.skip(1), i - 1);
        assert(envelopes.skip(1)[i - 1] == envelopes[i]);
    }
}

/// And whatever may be pushed is taken: a push of that form into an account
/// that counts what it holds is only refused for the room it takes.
pub proof fn what_may_be_pushed_is_taken(
    db: DbView,
    account: Account,
    device: Uuid,
    envelopes: Seq<EnvelopeView>,
    quota: Quota,
    now: u64,
)
    requires
        envelopes.len() <= 500,
        envelopes.len() > 1 ==> sealed_bytes(envelopes) <= 8_388_608,
        forall|i: int|
            0 <= i < envelopes.len() ==> (#[trigger] envelopes[i]).vault_id == account.vault_id
                && envelopes[i].nonce.len() == 24 && 1 <= envelopes[i].blob.len() <= 262_144,
        db.has_account(account.id),
        ({
            let before = db.account(account.id);
            let end = offer_all(
                before,
                envelopes,
                envelopes.len(),
                account.vault_id,
                device,
                now,
            );
            &&& 0 <= before.record_count && 0 <= end.count && 0 <= end.bytes
            &&& end.count <= quota.records || end.count <= before.record_count
            &&& end.bytes <= quota.bytes && everyones_bytes(db.accounts) - before.record_bytes
                + end.bytes <= quota.server_bytes || end.bytes <= before.record_bytes
        }),
    ensures
        push_refusal(db, account, device, envelopes, quota, now) is None,
{
    lemma_first_fault_none(account.vault_id, envelopes);
}

proof fn lemma_first_fault_none(vault_id: Uuid, envelopes: Seq<EnvelopeView>)
    requires
        forall|i: int|
            0 <= i < envelopes.len() ==> (#[trigger] envelopes[i]).vault_id == vault_id
                && envelopes[i].nonce.len() == 24 && 1 <= envelopes[i].blob.len() <= 262_144,
    ensures
        crate::db::records::first_fault(vault_id, envelopes) is None,
    decreases envelopes.len(),
{
    if envelopes.len() > 0 {
        assert(envelopes[0].vault_id == vault_id);
        assert forall|i: int| 0 <= i < envelopes.skip(1).len() implies (
        #[trigger] envelopes.skip(1)[i]).vault_id == vault_id && envelopes.skip(1)[i].nonce.len()
            == 24 && 1 <= envelopes.skip(1)[i].blob.len() <= 262_144 by {
            assert(envelopes.skip(1)[i] == envelopes[i + 1]);
        }
        lemma_first_fault_none(vault_id, envelopes.skip(1));
    }
}

/// A push that is too large in any way is refused as too large, and one whose
/// first record is not shaped like one as invalid.
pub proof fn a_refused_push_is_told_why(
    db: DbView,
    account: Account,
    device: Uuid,
    envelopes: Seq<EnvelopeView>,
    quota: Quota,
    now: u64,
)
    ensures
        ({
            let refusal = push_refusal(db, account, device, envelopes, quota, now);
            &&& envelopes.len() > 500 ==> refusal is Some && refusal->Some_0 is TooLarge
            &&& envelopes.len() > 1 && sealed_bytes(envelopes) > 8_388_608 ==> refusal is Some
                && refusal->Some_0 is TooLarge
            &&& envelopes.len() == 1 && envelopes[0].vault_id != account.vault_id
                ==> refusal is Some && refusal->Some_0 is Invalid
            &&& envelopes.len() == 1 && envelopes[0].vault_id == account.vault_id
                && envelopes[0].nonce.len() == 24 && envelopes[0].blob.len() > 262_144
                ==> refusal is Some && refusal->Some_0 is TooLarge
            &&& refusal is Some ==> !(refusal->Some_0 is Unauthorized) && !(
            refusal->Some_0 is NotFound)
        }),
{
    if envelopes.len() == 1 {
        assert(envelopes.skip(1).len() == 0);
    }
    lemma_fault_kinds(account.vault_id, envelopes);
}

proof fn lemma_fault_kinds(vault_id: Uuid, envelopes: Seq<EnvelopeView>)
    ensures
        crate::db::records::first_fault(vault_id, envelopes) matches Some(refusal)
            ==> refusal is Invalid || refusal is TooLarge,
    decreases envelopes.len(),
{
    if envelopes.len() > 0 {
        lemma_fault_kinds(vault_id, envelopes.skip(1));
    }
}

/// What a page is made of: a beginning of the records, of which it gives those
/// that are news.
proof fn lemma_page(
    vault_id: Uuid,
    records: Seq<RecordView>,
    seq: u64,
    since: u64,
    limit: usize,
    manifests: bool,
) -> (k: int)
    requires
        in_order(records, seq),
    ensures
        k == rows_read(records, records.len(), since, page_limit(limit), manifests),
        0 <= k <= records.len(),
        forall|i: int|
            0 <= i < k ==> (#[trigger] records[i]).seq <= page_of(
                vault_id,
                records,
                since,
                limit,
                manifests,
            ).cursor.0,
        forall|i: int|
            k <= i < records.len() ==> (#[trigger] records[i]).seq > page_of(
                vault_id,
                records,
                since,
                limit,
                manifests,
            ).cursor.0 || records[i].seq <= since,
        k < records.len() ==> news(since, manifests)(records[k]),
        page_of(vault_id, records, since, limit, manifests).has_more == (k < records.len()),
        page_of(vault_id, records, since, limit, manifests).cursor.0 >= since,
        page_of(vault_id, records, since, limit, manifests).envelopes == envelopes_of(
            vault_id,
            select(records.take(k), news(since, manifests)),
        ),
        in_order(records.take(k), seq),
{
    let bound = page_limit(limit);
    let n = records.len();
    let k = rows_read(records, n, since, bound, manifests);
    lemma_rows_read(records, n, since, bound, manifests);
    let read = records.take(k as int);
    let cursor = page_of(vault_id, records, since, limit, manifests).cursor.0;
    assert forall|i: int, j: int| 0 <= i < j < read.len() implies (#[trigger] read[i]).seq < (
    #[trigger] read[j]).seq && read[i].id != read[j].id by {
        assert(records[i].seq < records[j].seq);
    }
    assert forall|i: int| 0 <= i < read.len() implies (#[trigger] read[i]).seq <= seq
        && read[i].blob.len() <= crate::proto::MAX_BLOB_BYTES by {
        assert(read[i] == records[i]);
    }
    assert forall|i: int| 0 <= i < k implies (#[trigger] records[i]).seq <= cursor by {
        assert(read[i] == records[i]);
        assert(read.last() == records[k - 1]);
        if i < k - 1 {
            assert(records[i].seq < records[k - 1].seq);
        }
    }
    assert forall|i: int| k <= i < n implies (#[trigger] records[i]).seq > cursor || records[i].seq
        <= since by {
        if k > 0 {
            assert(read.last() == records[k - 1]);
            assert(records[k - 1].seq < records[i].seq);
        }
    }
    if k < n {
        let more = records.take(k as int + 1);
        assert(more.drop_last() =~= read);
        assert(more.last() == records[k as int]);
    }
    k as int
}

/// What a page holds is held: each envelope on it is a record of the account as
/// it is, field by field, numbered after the cursor that was given and no
/// further than the cursor that is handed out.
pub proof fn a_page_gives_records_as_they_are(
    vault_id: Uuid,
    records: Seq<RecordView>,
    seq: u64,
    since: u64,
    limit: usize,
    manifests: bool,
    i: int,
)
    requires
        in_order(records, seq),
        0 <= i < page_of(vault_id, records, since, limit, manifests).envelopes.len(),
    ensures
        ({
            let page = page_of(vault_id, records, since, limit, manifests);
            let given = page.envelopes[i];
            &&& given.vault_id == vault_id
            &&& exists|r: int|
                0 <= r < records.len() && given.id == (#[trigger] records[r]).id && given.kind
                    == records[r].kind && given.updated_at == records[r].updated_at
                    && given.base_seq == records[r].seq && given.seq == Some(records[r].seq)
                    && given.deleted == records[r].deleted && given.nonce == records[r].nonce
                    && given.blob == records[r].blob && since < records[r].seq <= page.cursor.0 && (
                manifests || records[r].kind != EntityKind::Manifest)
        }),
{
    let which = news(since, manifests);
    let k = lemma_page(vault_id, records, seq, since, limit, manifests);
    let read = records.take(k);
    let given = select(read, which);
    lemma_selected_is_there(read, which, i);
    lemma_selected_answer(read, which);
    assert(which(given[i]));
    let r = choose|r: int| 0 <= r < read.len() && read[r] == given[i];
    assert(records[r] == given[i]);
}

/// Nothing that a page goes past is left out, and what it gives is in the order
/// of the numbers.
pub proof fn a_page_leaves_nothing_out(
    vault_id: Uuid,
    records: Seq<RecordView>,
    seq: u64,
    since: u64,
    limit: usize,
    manifests: bool,
    r: int,
)
    requires
        in_order(records, seq),
        0 <= r < records.len(),
        manifests || records[r].kind != EntityKind::Manifest,
        since < records[r].seq <= page_of(vault_id, records, since, limit, manifests).cursor.0,
    ensures
        exists|i: int|
            0 <= i < page_of(vault_id, records, since, limit, manifests).envelopes.len() && (
            #[trigger] page_of(vault_id, records, since, limit, manifests).envelopes[i]).seq
                == Some(records[r].seq),
{
    let which = news(since, manifests);
    let k = lemma_page(vault_id, records, seq, since, limit, manifests);
    let read = records.take(k);
    let page = page_of(vault_id, records, since, limit, manifests);
    assert(r < k);
    assert(read[r] == records[r]);
    assert(read.contains(records[r]));
    lemma_select_contains(read, which, records[r]);
    let given = select(read, which);
    let i = choose|i: int| 0 <= i < given.len() && given[i] == records[r];
    assert(page.envelopes[i].seq == Some(records[r].seq));
}

/// What a page gives is in the order of the numbers, and nothing comes twice.
pub proof fn a_page_is_in_order(
    vault_id: Uuid,
    records: Seq<RecordView>,
    seq: u64,
    since: u64,
    limit: usize,
    manifests: bool,
    i: int,
    j: int,
)
    requires
        in_order(records, seq),
        0 <= i < j < page_of(vault_id, records, since, limit, manifests).envelopes.len(),
    ensures
        ({
            let envelopes = page_of(vault_id, records, since, limit, manifests).envelopes;
            envelopes[i].seq->Some_0 < envelopes[j].seq->Some_0 && envelopes[i].id
                != envelopes[j].id
        }),
{
    let k = lemma_page(vault_id, records, seq, since, limit, manifests);
    let given = select(records.take(k), news(since, manifests));
    lemma_select_in_order(records.take(k), news(since, manifests), seq);
    assert(given[i].seq < given[j].seq && given[i].id != given[j].id);
}

/// A page holds no more than was asked for and no more than five hundred
/// records, but one at least may be asked for; more than one come to no more
/// than eight mebibytes. Its cursor is a place where it may be gone on from.
pub proof fn a_page_is_no_larger_than_it_may_be(
    vault_id: Uuid,
    records: Seq<RecordView>,
    seq: u64,
    since: u64,
    limit: usize,
    manifests: bool,
)
    requires
        in_order(records, seq),
    ensures
        ({
            let page = page_of(vault_id, records, since, limit, manifests);
            &&& page.envelopes.len() <= 500
            &&& limit >= 1 ==> page.envelopes.len() <= limit
            &&& limit == 0 ==> page.envelopes.len() <= 1
            &&& page.envelopes.len() > 1 ==> sealed_bytes(page.envelopes) <= 8_388_608
            &&& page.cursor.0 >= since
            &&& page.cursor.0 == since || exists|r: int|
                0 <= r < records.len() && (#[trigger] records[r]).seq == page.cursor.0
        }),
{
    let page = page_of(vault_id, records, since, limit, manifests);
    let bound = page_limit(limit);
    let n = records.len();
    let k = lemma_page(vault_id, records, seq, since, limit, manifests);
    lemma_rows_read(records, n, since, bound, manifests);
    let read = records.take(k);
    lemma_sealed_is_held(vault_id, select(read, news(since, manifests)));
    if k > 0 && read.last().seq > since {
        assert(records[k - 1].seq == page.cursor.0);
    }
}

/// A page says there is more exactly where there is: if it does not, nothing is
/// numbered after its cursor; if it does, the next record there is to read
/// would have been one too many or too large.
pub proof fn a_page_says_whether_there_is_more(
    vault_id: Uuid,
    records: Seq<RecordView>,
    seq: u64,
    since: u64,
    limit: usize,
    manifests: bool,
) -> (next: int)
    requires
        in_order(records, seq),
    ensures
        ({
            let page = page_of(vault_id, records, since, limit, manifests);
            let most: int = if limit < 1 {
                1
            } else if limit > 500 {
                500
            } else {
                limit as int
            };
            &&& page.has_more == (next < records.len())
            &&& 0 <= next <= records.len()
            &&& forall|r: int|
                0 <= r < next ==> (#[trigger] records[r]).seq <= page.cursor.0
            &&& page.has_more ==> records[next].seq > page.cursor.0
            &&& page.has_more && !manifests ==> records[next].kind != EntityKind::Manifest
            &&& page.has_more && page.envelopes.len() < most ==> page.envelopes.len() > 0
                && sealed_bytes(page.envelopes) + records[next].blob.len() > 8_388_608
        }),
{
    let bound = page_limit(limit);
    let which = news(since, manifests);
    let k = lemma_page(vault_id, records, seq, since, limit, manifests);
    lemma_rows_read(records, records.len(), since, bound, manifests);
    if k < records.len() {
        lemma_one_more(vault_id, records, k, which);
    }
    k
}

proof fn lemma_one_more(
    vault_id: Uuid,
    records: Seq<RecordView>,
    k: int,
    which: spec_fn(RecordView) -> bool,
)
    requires
        0 <= k < records.len(),
        which(records[k]),
    ensures
        ({
            let given = select(records.take(k), which);
            let more = select(records.take(k + 1), which);
            &&& more.len() == given.len() + 1
            &&& held_bytes(more) == held_bytes(given) + records[k].blob.len()
            &&& sealed_bytes(envelopes_of(vault_id, given)) == held_bytes(given)
        }),
{
    let given = select(records.take(k), which);
    let more = records.take(k + 1);
    assert(more.drop_last() =~= records.take(k));
    assert(more.last() == records[k]);
    assert(given.push(records[k]).drop_last() =~= given);
    lemma_sealed_is_held(vault_id, given);
}

proof fn lemma_sealed_is_held(vault_id: Uuid, records: Seq<RecordView>)
    ensures
        sealed_bytes(envelopes_of(vault_id, records)) == held_bytes(records),
    decreases records.len(),
{
    let all = envelopes_of(vault_id, records);
    if records.len() > 0 {
        lemma_sealed_is_held(vault_id, records.drop_last());
        assert(all.drop_last() =~= envelopes_of(vault_id, records.drop_last()));
    }
}

/// What is pulled under an id is what is held under it, field by field,
/// whatever was pushed since.
pub proof fn what_is_pulled_is_what_is_held(
    vault_id: Uuid,
    records: Seq<RecordView>,
    seq: u64,
    since: u64,
    limit: usize,
    manifests: bool,
    i: int,
    r: int,
)
    requires
        in_order(records, seq),
        0 <= i < page_of(vault_id, records, since, limit, manifests).envelopes.len(),
        0 <= r < records.len(),
        page_of(vault_id, records, since, limit, manifests).envelopes[i].id == records[r].id,
    ensures
        ({
            let pulled = page_of(vault_id, records, since, limit, manifests).envelopes[i];
            let held = records[r];
            &&& pulled.vault_id == vault_id
            &&& pulled.kind == held.kind
            &&& pulled.updated_at == held.updated_at
            &&& pulled.deleted == held.deleted
            &&& pulled.nonce == held.nonce
            &&& pulled.blob == held.blob
            &&& pulled.base_seq == held.seq
            &&& pulled.seq == Some(held.seq)
        }),
{
    a_page_gives_records_as_they_are(vault_id, records, seq, since, limit, manifests, i);
    let pulled = page_of(vault_id, records, since, limit, manifests).envelopes[i];
    let q = choose|q: int|
        0 <= q < records.len() && pulled.id == (#[trigger] records[q]).id && pulled.kind
            == records[q].kind && pulled.updated_at == records[q].updated_at && pulled.base_seq
            == records[q].seq && pulled.seq == Some(records[q].seq) && pulled.deleted
            == records[q].deleted && pulled.nonce == records[q].nonce && pulled.blob
            == records[q].blob;
    if q < r {
        assert(records[q].id != records[r].id);
    } else if r < q {
        assert(records[r].id != records[q].id);
    }
}

/// A page is put together record by record: one goes on it as it is, field by
/// field, and the cursor with it; a manifest that is not read is passed by; and
/// one that there is no place for is left, and said to be.
pub proof fn a_page_is_put_together(page: PageView, record: RecordView)
    ensures
        ({
            let (was, is) = (page.so_far, page.read(record).so_far);
            let unread = !page.manifests && record.kind == EntityKind::Manifest;
            let no_place = was.envelopes.len() == page.limit || (was.envelopes.len() > 0
                && page.bytes + record.blob.len() > 8_388_608);
            let further = if was.cursor.0 < record.seq {
                record.seq
            } else {
                was.cursor.0
            };
            &&& unread ==> is.envelopes == was.envelopes && is.cursor.0 == further && is.has_more
                == was.has_more && page.read(record).bytes == page.bytes
            &&& !unread && no_place ==> is.envelopes == was.envelopes && is.cursor == was.cursor
                && is.has_more && page.read(record).bytes == page.bytes
            &&& !unread && !no_place ==> {
                &&& is.envelopes.len() == was.envelopes.len() + 1
                &&& is.envelopes.drop_last() == was.envelopes
                &&& is.envelopes.last().id == record.id
                &&& is.envelopes.last().vault_id == page.vault_id
                &&& is.envelopes.last().kind == record.kind
                &&& is.envelopes.last().updated_at == record.updated_at
                &&& is.envelopes.last().base_seq == record.seq
                &&& is.envelopes.last().deleted == record.deleted
                &&& is.envelopes.last().nonce == record.nonce
                &&& is.envelopes.last().blob == record.blob
                &&& is.envelopes.last().seq == Some(record.seq)
                &&& is.cursor.0 == further
                &&& is.has_more == was.has_more
                &&& page.read(record).bytes == page.bytes + record.blob.len()
            }
            &&& page.read(record).vault_id == page.vault_id
            &&& page.read(record).limit == page.limit
            &&& page.read(record).manifests == page.manifests
        }),
{
    let is = page.read(record).so_far;
    if is.envelopes.len() > page.so_far.envelopes.len() {
        assert(is.envelopes.drop_last() =~= page.so_far.envelopes);
    }
}

/// What is said of a page that is put together is said of every part of it.
pub proof fn nothing_on_a_page_is_left_out(page: Page)
    ensures
        page@.vault_id == page.vault_id,
        page@.limit == page.limit,
        page@.manifests == page.manifests,
        page@.bytes == page.bytes,
        page@.so_far == page.so_far@,
{
}

/// What one device pushes is what another pulls: the record that a later page
/// holds under the id of one that was taken has every field of what was sent.
pub proof fn what_is_pushed_is_what_is_pulled(
    before: DbView,
    after: DbView,
    account: Account,
    device: Uuid,
    envelopes: Seq<EnvelopeView>,
    quota: Quota,
    now: u64,
    response: PushResponse,
    i: int,
    a: int,
    since: u64,
    limit: usize,
    manifests: bool,
    k: int,
)
    requires
        before.wf(),
        countable(before, account.id),
        push_done(before, after, account, device, envelopes, quota, now, Ok(response)),
        0 <= i < envelopes.len(),
        forall|j: int|
            0 <= j < envelopes.len() && j != i ==> (#[trigger] envelopes[j]).id != envelopes[i].id,
        0 <= a < response.accepted@.len(),
        response.accepted@[a].id == envelopes[i].id,
        0 <= k < page_of(
            account.vault_id,
            mailbox(after, account.id),
            since,
            limit,
            manifests,
        ).envelopes.len(),
        page_of(
            account.vault_id,
            mailbox(after, account.id),
            since,
            limit,
            manifests,
        ).envelopes[k].id == envelopes[i].id,
    ensures
        ({
            let sent = envelopes[i];
            let pulled = page_of(
                account.vault_id,
                mailbox(after, account.id),
                since,
                limit,
                manifests,
            ).envelopes[k];
            &&& pulled.id == sent.id
            &&& pulled.kind == sent.kind
            &&& pulled.updated_at == sent.updated_at
            &&& pulled.deleted == sent.deleted
            &&& pulled.nonce == sent.nonce
            &&& pulled.blob == sent.blob
            &&& pulled.vault_id == sent.vault_id
            &&& pulled.seq == Some(response.accepted@[a].seq)
            &&& pulled.base_seq == response.accepted@[a].seq
        }),
{
    let one = before.account(account.id);
    let n = envelopes.len();
    let v = account.vault_id;
    lemma_pushed_account(before, account, device, envelopes, quota, now);
    assert(one.id == account.id && one.wf());
    lemma_no_fault_bounds_blobs(v, envelopes);
    let held = mailbox(after, account.id);
    let number = after.account(account.id).seq;
    a_page_gives_records_as_they_are(v, held, number, since, limit, manifests, k);
    let pulled = page_of(v, held, since, limit, manifests).envelopes[k];
    let r = choose|r: int|
        0 <= r < held.len() && pulled.id == (#[trigger] held[r]).id && pulled.kind == held[r].kind
            && pulled.updated_at == held[r].updated_at && pulled.base_seq == held[r].seq
            && pulled.seq == Some(held[r].seq) && pulled.deleted == held[r].deleted && pulled.nonce
            == held[r].nonce && pulled.blob == held[r].blob;
    lemma_accepted_was_taken(one, envelopes, n, v, device, now, i, a);
    what_is_pushed_is_kept(before, after, account, device, envelopes, quota, now, response, i);
    what_was_taken_is_held(one, envelopes, i, n, v, device, now);
    numbers_rise_without_a_gap(one, envelopes, n, v, device, now);
    numbers_rise_without_a_gap(one, envelopes, i as nat, v, device, now);
    let number = (offer_all(one, envelopes, i as nat, v, device, now).seq + 1) as u64;
    let taken = crate::db::records::record_of(envelopes[i], number, device, now);
    let p = choose|p: int| 0 <= p < held.len() && held[p] == taken;
    assert(held[p].id == held[r].id);
    assert(p == r) by {
        assert(in_order(held, after.account(account.id).seq));
    }
}

/// An id that a push accepted and that one envelope names was taken with it,
/// under that number.
proof fn lemma_accepted_was_taken(
    account: AccountView,
    envelopes: Seq<EnvelopeView>,
    n: nat,
    vault_id: Uuid,
    device: Uuid,
    now: u64,
    i: int,
    a: int,
)
    requires
        account.wf(),
        n <= envelopes.len(),
        account.seq + n <= u64::MAX,
        forall|j: int|
            0 <= j < envelopes.len() ==> (#[trigger] envelopes[j]).blob.len() <= 262144,
        0 <= i < n,
        forall|j: int|
            0 <= j < envelopes.len() && j != i ==> (#[trigger] envelopes[j]).id != envelopes[i].id,
        0 <= a < offer_all(account, envelopes, n, vault_id, device, now).accepted.len(),
        offer_all(account, envelopes, n, vault_id, device, now).accepted[a].id == envelopes[i].id,
    ensures
        was_taken(account, envelopes, i, vault_id, device, now),
        offer_all(account, envelopes, n, vault_id, device, now).accepted[a].seq == offer_all(
            account,
            envelopes,
            i as nat,
            vault_id,
            device,
            now,
        ).seq + 1,
    decreases n,
{
    let m = (n - 1) as nat;
    let before = offer_all(account, envelopes, m, vault_id, device, now);
    let after = offer_all(account, envelopes, n, vault_id, device, now);
    numbers_rise_without_a_gap(account, envelopes, m, vault_id, device, now);
    if i == m {
        if a < before.accepted.len() {
            assert(after.accepted[a] == before.accepted[a]);
            lemma_accepted_is_named(account, envelopes, m, vault_id, device, now, a);
        }
    } else {
        assert(a < before.accepted.len()) by {
            if a >= before.accepted.len() {
                assert(after.accepted[a].id == envelopes[m as int].id);
            }
        }
        assert(after.accepted[a] == before.accepted[a]);
        lemma_accepted_was_taken(account, envelopes, m, vault_id, device, now, i, a);
    }
}

proof fn lemma_accepted_is_named(
    account: AccountView,
    envelopes: Seq<EnvelopeView>,
    n: nat,
    vault_id: Uuid,
    device: Uuid,
    now: u64,
    a: int,
)
    requires
        n <= envelopes.len(),
        0 <= a < offer_all(account, envelopes, n, vault_id, device, now).accepted.len(),
    ensures
        exists|j: int|
            0 <= j < n && (#[trigger] envelopes[j]).id == offer_all(
                account,
                envelopes,
                n,
                vault_id,
                device,
                now,
            ).accepted[a].id,
    decreases n,
{
    if n > 0 {
        let m = (n - 1) as nat;
        let before = offer_all(account, envelopes, m, vault_id, device, now);
        let after = offer_all(account, envelopes, n, vault_id, device, now);
        if a < before.accepted.len() {
            assert(after.accepted[a] == before.accepted[a]);
            lemma_accepted_is_named(account, envelopes, m, vault_id, device, now, a);
        } else {
            assert(after.accepted[a].id == envelopes[m as int].id);
        }
    }
}

/// A pull from just before its number begins with a record, if the device reads
/// its kind: nobody waits for what is there.
pub proof fn a_pull_from_before_a_record_begins_with_it(
    vault_id: Uuid,
    records: Seq<RecordView>,
    seq: u64,
    r: int,
    limit: usize,
    manifests: bool,
)
    requires
        in_order(records, seq),
        0 <= r < records.len(),
        records[r].seq > 0,
        manifests || records[r].kind != EntityKind::Manifest,
    ensures
        ({
            let page = page_of(
                vault_id,
                records,
                (records[r].seq - 1) as u64,
                limit,
                manifests,
            );
            page.envelopes.len() > 0 && page.envelopes[0].id == records[r].id
                && page.envelopes[0].seq == Some(records[r].seq)
        }),
{
    let since = (records[r].seq - 1) as u64;
    let page = page_of(vault_id, records, since, limit, manifests);
    let k = lemma_page(vault_id, records, seq, since, limit, manifests);
    a_page_says_whether_there_is_more(vault_id, records, seq, since, limit, manifests);
    if records[r].seq > page.cursor.0 {
        // Then there is more, and nothing on the page: it would be from after
        // `since` and up to it.
        assert(page.has_more);
        assert(page.envelopes.len() > 0);
        a_page_gives_records_as_they_are(vault_id, records, seq, since, limit, manifests, 0);
        assert(false);
    }
    a_page_leaves_nothing_out(vault_id, records, seq, since, limit, manifests, r);
    let i = choose|i: int|
        0 <= i < page.envelopes.len() && (#[trigger] page.envelopes[i]).seq == Some(
            records[r].seq,
        );
    if i > 0 {
        a_page_is_in_order(vault_id, records, seq, since, limit, manifests, 0, i);
    }
    a_page_gives_records_as_they_are(vault_id, records, seq, since, limit, manifests, 0);
    let q = choose|q: int|
        0 <= q < records.len() && page.envelopes[0].id == (#[trigger] records[q]).id
            && page.envelopes[0].seq == Some(records[q].seq) && since < records[q].seq
            <= page.cursor.0;
    if q < r {
        assert(records[q].seq < records[r].seq);
    } else if q > r {
        assert(records[r].seq < records[q].seq);
    }
}

/// A pull hands out the page that was asked for, of at most five hundred
/// records, and the device that asked has then read as far as the page goes; no
/// further than there was anything when it was let in.
pub proof fn a_pull_hands_out_the_page(
    before: StateView,
    after: StateView,
    account: Account,
    device: Uuid,
    query: PullQuery,
    now: u64,
    tick: u64,
    given: PullResponse,
    going: Going,
    d: int,
)
    requires
        before.db.wf(),
        pull_done(before, after, account, device, query, now, tick, Ok((given, going))),
        0 <= d < before.db.devices.len(),
        before.db.devices[d].id == device,
    ensures
        ({
            let limit = match query.limit {
                Some(limit) if limit < 500 => limit,
                _ => 500,
            };
            let read = if given.cursor.0 < account.seq {
                given.cursor.0
            } else {
                account.seq
            };
            let (was, is) = (before.db.devices[d], after.db.devices[d]);
            &&& given@ == page_of(
                account.vault_id,
                mailbox(before.db, account.id),
                query.since,
                limit,
                query.manifests != 0,
            )
            &&& is.last_seen_ms == Some(now)
            &&& was.cursor < read <= i64::MAX ==> is.cursor == read
            &&& !(was.cursor < read <= i64::MAX) ==> is.cursor == was.cursor
            &&& after.db.accounts == before.db.accounts
            &&& after.sessions == before.sessions
            &&& after.challenges == before.challenges
            &&& after.pairings == before.pairings
        }),
{
    crate::promises::devices::a_device_is_seen(
        before.db,
        device,
        crate::api::records::at_most(given.cursor.0, account.seq),
        now,
        d,
    );
}

/// A pull that is refused is told to wait, and leaves what is kept as it is.
pub proof fn a_refused_pull_changes_nothing(
    before: StateView,
    after: StateView,
    account: Account,
    device: Uuid,
    query: PullQuery,
    now: u64,
    tick: u64,
    outcome: Result<(PullResponse, Going)>,
)
    requires
        pull_done(before, after, account, device, query, now, tick, outcome),
        outcome is Err,
    ensures
        refused(outcome) == Some(Refusal::RateLimited),
        after.db == before.db,
        after.sessions == before.sessions,
{
}

/// A push is only taken from who speaks the same schema; it changes the account
/// it is for and nothing else, and where it is refused, nothing.
pub proof fn a_push_is_taken_in_one_schema(
    before: StateView,
    after: StateView,
    account: Account,
    device: Uuid,
    schema: u32,
    known: u32,
    envelopes: Seq<EnvelopeView>,
    now: u64,
    outcome: Result<PushResponse>,
)
    requires
        push_answered(before, after, account, device, schema, known, envelopes, now, outcome),
    ensures
        schema != known ==> refused(outcome) == Some(Refusal::Schema { found: schema, known }),
        outcome is Err ==> after.db == before.db,
        outcome is Ok <==> schema == known && push_refusal(
            before.db,
            account,
            device,
            envelopes,
            before.config.quota,
            now,
        ) is None,
        schema == known && outcome is Err ==> refused(outcome) == push_refusal(
            before.db,
            account,
            device,
            envelopes,
            before.config.quota,
            now,
        ),
        after.sessions == before.sessions,
        after.challenges == before.challenges,
        after.pairings == before.pairings,
        after.limits == before.limits,
        after.config == before.config,
{
}

/// A push leaves what it does not name: the other records of the account, and
/// the other accounts.
pub proof fn what_is_not_named_stays(
    before: DbView,
    after: DbView,
    account: Account,
    device: Uuid,
    envelopes: Seq<EnvelopeView>,
    quota: Quota,
    now: u64,
    response: PushResponse,
    record: RecordView,
    other: Uuid,
)
    requires
        before.wf(),
        countable(before, account.id),
        push_done(before, after, account, device, envelopes, quota, now, Ok(response)),
        forall|i: int| 0 <= i < envelopes.len() ==> (#[trigger] envelopes[i]).id != record.id,
    ensures
        before.account(account.id).records.contains(record) <==> after.account(
            account.id,
        ).records.contains(record),
        other != account.id && before.has_account(other) ==> after.has_account(other)
            && after.account(other) == before.account(other),
{
    lemma_pushed_account(before, account, device, envelopes, quota, now);
    let one = before.account(account.id);
    assert(one.id == account.id && one.wf());
    a_push_leaves_other_records_alone(
        one,
        envelopes,
        envelopes.len(),
        account.vault_id,
        device,
        now,
        record,
    );
    crate::db::laws::lemma_with_account(before, account.id, after.account(account.id), other);
}

/// A push of the right form is refused where it makes the account, or all of
/// them together, larger than they may be, and is told which.
pub proof fn what_is_too_much_is_refused(
    db: DbView,
    account: Account,
    device: Uuid,
    envelopes: Seq<EnvelopeView>,
    quota: Quota,
    now: u64,
)
    requires
        envelopes.len() <= 500,
        envelopes.len() > 1 ==> sealed_bytes(envelopes) <= 8_388_608,
        forall|i: int|
            0 <= i < envelopes.len() ==> (#[trigger] envelopes[i]).vault_id == account.vault_id
                && envelopes[i].nonce.len() == 24 && 1 <= envelopes[i].blob.len() <= 262_144,
        db.has_account(account.id),
    ensures
        ({
            let refusal = push_refusal(db, account, device, envelopes, quota, now);
            let was = db.account(account.id);
            let is = offer_all(was, envelopes, envelopes.len(), account.vault_id, device, now);
            let too_many = is.count > was.record_count && is.count > quota.records;
            let too_large = is.bytes > was.record_bytes && is.bytes > quota.bytes;
            let too_full = is.bytes > was.record_bytes && everyones_bytes(db.accounts)
                - was.record_bytes + is.bytes > quota.server_bytes;
            &&& too_many || too_large ==> refusal == Some(
                Refusal::TooLarge(
                    "this account holds as much as this server allows ("@ + text::decimal_text(
                        quota.records as nat,
                    ) + " records, "@ + text::decimal_text(quota.bytes as nat / 1_048_576)
                        + " MiB)"@,
                ),
            )
            &&& !too_many && !too_large && is.count >= 0 && is.bytes >= 0 && too_full ==> refusal
                == Some(
                Refusal::TooLarge(
                    "this server holds as much as it allows ("@ + text::decimal_text(
                        quota.server_bytes as nat / 1_048_576,
                    ) + " MiB for all accounts together)"@,
                ),
            )
        }),
{
    lemma_first_fault_none(account.vault_id, envelopes);
}

/// Of a push with faults the first one is told.
pub proof fn the_first_fault_is_told(vault_id: Uuid, envelopes: Seq<EnvelopeView>, i: int)
    requires
        0 <= i < envelopes.len(),
        forall|j: int|
            0 <= j < i ==> (#[trigger] envelopes[j]).vault_id == vault_id
                && envelopes[j].nonce.len() == 24 && 1 <= envelopes[j].blob.len() <= 262_144,
    ensures
        ({
            let told = crate::db::records::first_fault(vault_id, envelopes);
            let envelope = envelopes[i];
            &&& envelope.vault_id != vault_id ==> told == Some(
                Refusal::Invalid("a record from another vault than this account's"@),
            )
            &&& envelope.vault_id == vault_id && envelope.nonce.len() != 24 ==> told == Some(
                Refusal::Invalid("a record without a proper nonce"@),
            )
            &&& envelope.vault_id == vault_id && envelope.nonce.len() == 24 && envelope.blob.len()
                == 0 ==> told == Some(Refusal::Invalid("a record with nothing sealed in it"@))
            &&& envelope.vault_id == vault_id && envelope.nonce.len() == 24 && envelope.blob.len()
                > 262_144 ==> told == Some(
                Refusal::TooLarge(
                    "a record of "@ + text::decimal_text(envelope.blob.len())
                        + " bytes, at most "@ + text::decimal_text(262_144) + " are allowed"@,
                ),
            )
        }),
    decreases i,
{
    if i > 0 {
        let rest = envelopes.skip(1);
        assert(envelopes[0].vault_id == vault_id);
        assert(rest[i - 1] == envelopes[i]);
        assert forall|j: int| 0 <= j < i - 1 implies (#[trigger] rest[j]).vault_id == vault_id
            && rest[j].nonce.len() == 24 && 1 <= rest[j].blob.len() <= 262_144 by {
            assert(rest[j] == envelopes[j + 1]);
        }
        the_first_fault_is_told(vault_id, rest, i - 1);
    }
}

/// A push that is too large as a whole is told how large it was and how large
/// one may be, before anything else.
pub proof fn a_push_too_large_is_told_how_large_it_may_be(
    db: DbView,
    account: Account,
    device: Uuid,
    envelopes: Seq<EnvelopeView>,
    quota: Quota,
    now: u64,
)
    ensures
        ({
            let refusal = push_refusal(db, account, device, envelopes, quota, now);
            &&& envelopes.len() > 500 ==> refusal == Some(
                Refusal::TooLarge(
                    text::decimal_text(envelopes.len()) + " records in one request, at most "@
                        + text::decimal_text(500) + " are allowed"@,
                ),
            )
            &&& 1 < envelopes.len() <= 500 && sealed_bytes(envelopes) > 8_388_608 ==> refusal
                == Some(
                Refusal::TooLarge(
                    text::decimal_text(sealed_bytes(envelopes))
                        + " sealed bytes in one request, at most "@ + text::decimal_text(8_388_608)
                        + " are allowed"@,
                ),
            )
            &&& envelopes.len() <= 500 && (envelopes.len() > 1 ==> sealed_bytes(envelopes)
                <= 8_388_608) && crate::db::records::first_fault(
                account.vault_id,
                envelopes,
            ) is Some ==> refusal == crate::db::records::first_fault(account.vault_id, envelopes)
        }),
{
}

/// What an account counts after forgetting is less by what is gone, and never
/// below nought.
pub proof fn what_is_gone_is_counted_off(account: AccountView, doomed: Doomed)
    ensures
        ({
            let gone = account.records.filter(doomed.takes());
            let after = without(account, doomed);
            &&& after.records == account.records.filter(doomed.leaves())
            &&& account.record_count >= gone.len() ==> after.record_count == account.record_count
                - gone.len()
            &&& account.record_count < gone.len() ==> after.record_count == 0
            &&& account.record_bytes >= held_bytes(gone) ==> after.record_bytes
                == account.record_bytes - held_bytes(gone)
            &&& account.record_bytes < held_bytes(gone) ==> after.record_bytes == 0
        }),
{
    lemma_select_is_filter(account.records, doomed.takes());
    lemma_select_is_filter(account.records, doomed.leaves());
}

proof fn lemma_select_is_filter(records: Seq<RecordView>, which: spec_fn(RecordView) -> bool)
    ensures
        select(records, which) == records.filter(which),
    decreases records.len(),
{
    reveal(Seq::filter);
    if records.len() > 0 {
        lemma_select_is_filter(records.drop_last(), which);
    }
}

/// A push or a pull is let in while the account has not asked too often and has
/// fewer than four of them going on; it then counts as going on until it is
/// done.
pub proof fn four_at_once_are_let_in(
    before: StateView,
    after: StateView,
    account: Uuid,
    tick: u64,
    outcome: Result<Going>,
    pulling: bool,
)
    requires
        pulling ==> pull_admitted(before, after, account, tick, outcome),
        !pulling ==> push_admitted(before, after, account, tick, outcome),
    ensures
        ({
            let bucket = if pulling {
                crate::limits::pull()
            } else {
                crate::limits::push()
            };
            let kind = if pulling {
                "pulls"@
            } else {
                "pushes"@
            };
            let who = crate::limits::account_key(account);
            let often = crate::limits::member_refused(before.limits.hits, who, tick, bucket);
            let going = crate::limits::going_count(before.limits, (account, kind));
            &&& outcome is Ok <==> !often && going < 4
            &&& outcome is Err ==> refused(outcome) == Some(Refusal::RateLimited)
            &&& outcome is Ok ==> outcome->Ok_0.key() == (account, kind)
            &&& outcome is Ok ==> crate::limits::going_count(after.limits, (account, kind)) == going
                + 1
            &&& outcome is Err ==> after.limits.going == before.limits.going
            &&& after.limits.hits == crate::limits::member_tried(
                before.limits.hits,
                who,
                tick,
                bucket,
            )
            &&& after.db == before.db
            &&& after.sessions == before.sessions
            &&& after.challenges == before.challenges
            &&& after.pairings == before.pairings
            &&& after.events == before.events
            &&& after.config == before.config
        }),
{
}

/// A page that is given to a device that was let in is one that the device has
/// then read, no further than there was anything when it was let in.
pub proof fn a_page_that_is_given_is_read(
    state: StateView,
    account: Account,
    query: PullQuery,
    now: u64,
    d: int,
)
    requires
        state.db.wf(),
        0 <= d < state.db.devices.len(),
    ensures
        ({
            let device = state.db.devices[d];
            let after = after_page(state, account, device.id, query, now);
            let limit = match query.limit {
                Some(limit) if limit < 500 => limit,
                _ => 500,
            };
            let page = page_of(
                account.vault_id,
                mailbox(state.db, account.id),
                query.since,
                limit,
                query.manifests != 0,
            );
            let read = if page.cursor.0 < account.seq {
                page.cursor.0
            } else {
                account.seq
            };
            &&& asked_page(state, account, query) == page
            &&& after.db.devices[d].last_seen_ms == Some(now)
            &&& device.cursor < read <= i64::MAX ==> after.db.devices[d].cursor == read
            &&& !(device.cursor < read <= i64::MAX) ==> after.db.devices[d].cursor == device.cursor
            &&& after.db.accounts == state.db.accounts
            &&& after.sessions == state.sessions
            &&& after.limits == state.limits
        }),
{
    let device = state.db.devices[d];
    crate::promises::devices::a_device_is_seen(
        state.db,
        device.id,
        crate::api::records::at_most(
            asked_page(state, account, query).cursor.0,
            account.seq,
        ),
        now,
        d,
    );
}

/// What is forgotten of an account and what stays: tombstones that are older
/// than asked for and not numbered above what was read, or the manifests of a
/// device; every other record as it is, and nothing but its records and their
/// counts.
pub proof fn just_what_is_doomed_is_forgotten(
    account: AccountView,
    doomed: Doomed,
    record: RecordView,
)
    ensures
        without(account, doomed).records.contains(record) <==> account.records.contains(record)
            && !(match doomed {
            Doomed::Tombstones { before_ms, below_seq } => record.deleted && record.updated_ms
                < before_ms && record.seq <= below_seq,
            Doomed::ManifestsOf { device } => record.kind == EntityKind::Manifest
                && record.device_id == device,
        }),
        without(account, doomed).id == account.id,
        without(account, doomed).seq == account.seq,
        without(account, doomed).header == account.header,
        without(account, doomed).auth_verifier == account.auth_verifier,
        without(account, doomed).created_ms == account.created_ms,
{
    lemma_select_answers(account.records, doomed.leaves(), record);
}

proof fn lemma_select_answers(
    records: Seq<RecordView>,
    which: spec_fn(RecordView) -> bool,
    record: RecordView,
)
    ensures
        select(records, which).contains(record) <==> records.contains(record) && which(record),
    decreases records.len(),
{
    if records.contains(record) && which(record) {
        lemma_select_contains(records, which, record);
    }
    if select(records, which).contains(record) {
        lemma_selected_answer(records, which);
        let i = choose|i: int|
            0 <= i < select(records, which).len() && select(records, which)[i] == record;
        assert(which(select(records, which)[i]));
        lemma_selected_is_there(records, which, i);
    }
}

proof fn lemma_selected_is_there(
    records: Seq<RecordView>,
    which: spec_fn(RecordView) -> bool,
    i: int,
)
    requires
        0 <= i < select(records, which).len(),
    ensures
        records.contains(select(records, which)[i]),
    decreases records.len(),
{
    if records.len() > 0 {
        let rest = select(records.drop_last(), which);
        if i < rest.len() {
            assert(select(records, which)[i] == rest[i]);
            lemma_selected_is_there(records.drop_last(), which, i);
            let j = choose|j: int|
                0 <= j < records.drop_last().len() && records.drop_last()[j] == rest[i];
            assert(records[j] == rest[i]);
        } else {
            assert(records[records.len() - 1] == select(records, which)[i]);
        }
    }
}

/// The records of an account are those of the account and no other's.
pub proof fn a_mailbox_is_its_accounts(db: DbView, id: Uuid, i: int)
    requires
        db.wf(),
        0 <= i < db.accounts.len(),
        db.accounts[i].id == id,
    ensures
        db.has_account(id),
        db.account(id) == db.accounts[i],
        mailbox(db, id) == db.accounts[i].records,
{
    assert(db.accounts[db.account_at(id)].id == id);
}

/// A counter that is not below zero is what it says.
pub proof fn a_counter_is_what_it_says(counter: int)
    requires
        0 <= counter,
    ensures
        unsigned(counter) == counter,
        unsigned(-counter - 1) == 18_446_744_073_709_551_616 - counter - 1,
{
}

/// Forgetting records of one account changes that account and nothing else.
pub proof fn forgetting_changes_one_account(db: DbView, id: Uuid, doomed: Doomed, i: int)
    requires
        db.wf(),
        0 <= i < db.accounts.len(),
    ensures
        forgotten(db, id, doomed).accounts.len() == db.accounts.len(),
        db.accounts[i].id != id ==> forgotten(db, id, doomed).accounts[i] == db.accounts[i],
        db.accounts[i].id == id ==> forgotten(db, id, doomed).accounts[i] == without(
            db.accounts[i],
            doomed,
        ),
        forgotten(db, id, doomed).devices == db.devices,
        forgotten(db, id, doomed).invites == db.invites,
        forgotten(db, id, doomed).enrolments == db.enrolments,
{
    if db.has_account(id) {
        assert(db.accounts[db.account_at(id)].id == id);
    }
}

} // verus!
