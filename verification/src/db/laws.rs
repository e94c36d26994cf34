//! What holds of the mailbox as a whole.

use crate::db::accounts::Account;
use crate::db::records::{
    account_after, countable, envelope_of, envelopes_of, everyones_bytes, first_fault, forgotten,
    held_bytes, holds, is_page, mailbox, news, offer, offer_all, page_limit, page_of, place,
    push_refusal, push_response, pushed, reached, record_of, rows_read, sealed_bytes, select,
    without, Doomed, Progress, Quota,
};
use crate::db::{in_order, AccountView, DbView, RecordView};
use crate::ids::Uuid;
use crate::proto::{EntityKind, EnvelopeView, MAX_BATCH, MAX_BATCH_BYTES, MAX_BLOB_BYTES};
use vstd::prelude::*;

verus! {

/// Whether an envelope of a push was taken rather than reported as a conflict.
pub open spec fn was_taken(
    account: AccountView,
    envelopes: Seq<EnvelopeView>,
    i: int,
    vault_id: Uuid,
    device: Uuid,
    now: u64,
) -> bool {
    let before = offer_all(account, envelopes, i as nat, vault_id, device, now);
    !holds(before.records, envelopes[i].id) || before.records[place(
        before.records,
        envelopes[i].id,
    )].seq == envelopes[i].base_seq
}

proof fn lemma_offer_keeps_order(
    progress: Progress,
    envelope: EnvelopeView,
    vault_id: Uuid,
    device: Uuid,
    now: u64,
)
    requires
        0 <= progress.seq < u64::MAX,
        in_order(progress.records, progress.seq as u64),
        envelope.blob.len() <= MAX_BLOB_BYTES,
    ensures
        ({
            let after = offer(progress, envelope, vault_id, device, now);
            &&& progress.seq <= after.seq <= progress.seq + 1
            &&& in_order(after.records, after.seq as u64)
        }),
{
    let after = offer(progress, envelope, vault_id, device, now);
    if holds(progress.records, envelope.id) {
        let at = place(progress.records, envelope.id);
        let kept = progress.records.remove(at);
        assert forall|i: int| 0 <= i < kept.len() implies (#[trigger] kept[i]).id != envelope.id
            && kept[i].seq <= progress.seq by {
            if i < at {
                assert(kept[i] == progress.records[i]);
            } else {
                assert(kept[i] == progress.records[i + 1]);
            }
        }
    }
}

/// Every envelope of a push is taken or reported as a conflict, and the ones
/// that are taken get the numbers that follow the last one handed out, without
/// a gap: numbers only rise and none is used twice.
pub proof fn numbers_rise_without_a_gap(
    account: AccountView,
    envelopes: Seq<EnvelopeView>,
    n: nat,
    vault_id: Uuid,
    device: Uuid,
    now: u64,
)
    requires
        account.wf(),
        n <= envelopes.len(),
        account.seq + n <= u64::MAX,
        forall|i: int|
            0 <= i < envelopes.len() ==> (#[trigger] envelopes[i]).blob.len() <= MAX_BLOB_BYTES,
    ensures
        ({
            let after = offer_all(account, envelopes, n, vault_id, device, now);
            &&& after.seq == account.seq + after.accepted.len()
            &&& after.accepted.len() + after.conflicts.len() == n
            &&& forall|i: int|
                0 <= i < after.accepted.len() ==> (#[trigger] after.accepted[i]).seq == account.seq
                    + 1 + i
            &&& in_order(after.records, after.seq as u64)
        }),
    decreases n,
{
    if n > 0 {
        numbers_rise_without_a_gap(account, envelopes, (n - 1) as nat, vault_id, device, now);
        let before = offer_all(account, envelopes, (n - 1) as nat, vault_id, device, now);
        lemma_offer_keeps_order(before, envelopes[n - 1], vault_id, device, now);
    }
}

/// A record that a push does not name is as it was.
pub proof fn a_push_leaves_other_records_alone(
    account: AccountView,
    envelopes: Seq<EnvelopeView>,
    n: nat,
    vault_id: Uuid,
    device: Uuid,
    now: u64,
    record: RecordView,
)
    requires
        n <= envelopes.len(),
        forall|i: int| 0 <= i < n ==> (#[trigger] envelopes[i]).id != record.id,
    ensures
        offer_all(account, envelopes, n, vault_id, device, now).records.contains(record)
            <==> account.records.contains(record),
    decreases n,
{
    if n > 0 {
        a_push_leaves_other_records_alone(
            account,
            envelopes,
            (n - 1) as nat,
            vault_id,
            device,
            now,
            record,
        );
        let before = offer_all(account, envelopes, (n - 1) as nat, vault_id, device, now);
        lemma_offer_leaves_others(before, envelopes[n - 1], vault_id, device, now, record);
    }
}

pub(crate) proof fn lemma_offer_leaves_others(
    progress: Progress,
    envelope: EnvelopeView,
    vault_id: Uuid,
    device: Uuid,
    now: u64,
    record: RecordView,
)
    requires
        envelope.id != record.id,
    ensures
        offer(progress, envelope, vault_id, device, now).records.contains(record)
            <==> progress.records.contains(record),
{
    let before = progress.records;
    let after = offer(progress, envelope, vault_id, device, now).records;
    if holds(before, envelope.id) {
        let at = place(before, envelope.id);
        if before[at].seq == envelope.base_seq {
            let kept = before.remove(at);
            if before.contains(record) {
                let i = choose|i: int| 0 <= i < before.len() && before[i] == record;
                if i < at {
                    assert(after[i] == record);
                } else {
                    assert(after[i - 1] == record);
                }
            }
            if after.contains(record) {
                let i = choose|i: int| 0 <= i < after.len() && after[i] == record;
                if i < at {
                    assert(before[i] == record);
                } else {
                    assert(i < kept.len());
                    assert(before[i + 1] == record);
                }
            }
        }
    } else {
        if before.contains(record) {
            let i = choose|i: int| 0 <= i < before.len() && before[i] == record;
            assert(after[i] == record);
        }
        if after.contains(record) {
            let i = choose|i: int| 0 <= i < after.len() && after[i] == record;
            assert(before[i] == record);
        }
    }
}

/// What was pushed is what is held: an envelope that was taken, and that no
/// later one of the same push replaced, is in the mailbox afterwards, sealed
/// bytes and all, under the number it was given.
pub proof fn what_was_taken_is_held(
    account: AccountView,
    envelopes: Seq<EnvelopeView>,
    i: int,
    n: nat,
    vault_id: Uuid,
    device: Uuid,
    now: u64,
)
    requires
        0 <= i < n <= envelopes.len(),
        was_taken(account, envelopes, i, vault_id, device, now),
        forall|j: int| i < j < n ==> (#[trigger] envelopes[j]).id != envelopes[i].id,
    ensures
        ({
            let number = (offer_all(account, envelopes, i as nat, vault_id, device, now).seq
                + 1) as u64;
            &&& offer_all(account, envelopes, n, vault_id, device, now).records.contains(
                record_of(envelopes[i], number, device, now),
            )
            &&& offer_all(account, envelopes, (i + 1) as nat, vault_id, device, now).accepted.last()
                == (crate::proto::Accepted { id: envelopes[i].id, seq: number })
        }),
    decreases n,
{
    let number = (offer_all(account, envelopes, i as nat, vault_id, device, now).seq + 1) as u64;
    let record = record_of(envelopes[i], number, device, now);
    let after = offer_all(account, envelopes, (i + 1) as nat, vault_id, device, now);
    assert(after.records.last() == record);
    assert(after.records.contains(record));
    if n > i + 1 {
        what_was_taken_is_held(account, envelopes, i, (n - 1) as nat, vault_id, device, now);
        let before = offer_all(account, envelopes, (n - 1) as nat, vault_id, device, now);
        lemma_offer_leaves_others(before, envelopes[n - 1], vault_id, device, now, record);
    }
}

/// A record based on another version than the one held is a conflict: nothing
/// of the mailbox changes, and the answer carries what is held.
pub proof fn a_conflict_changes_nothing(
    account: AccountView,
    envelopes: Seq<EnvelopeView>,
    i: int,
    vault_id: Uuid,
    device: Uuid,
    now: u64,
)
    requires
        0 <= i < envelopes.len(),
        !was_taken(account, envelopes, i, vault_id, device, now),
    ensures
        ({
            let before = offer_all(account, envelopes, i as nat, vault_id, device, now);
            let after = offer_all(account, envelopes, (i + 1) as nat, vault_id, device, now);
            let held = before.records[place(before.records, envelopes[i].id)];
            &&& after.records == before.records
            &&& after.seq == before.seq
            &&& after.accepted == before.accepted
            &&& held.id == envelopes[i].id
            &&& held.seq != envelopes[i].base_seq
            &&& after.conflicts == before.conflicts.push(envelope_of(vault_id, held))
        }),
{
}

proof fn lemma_select_concat(
    a: Seq<RecordView>,
    b: Seq<RecordView>,
    which: spec_fn(RecordView) -> bool,
)
    ensures
        select(a + b, which) == select(a, which) + select(b, which),
    decreases b.len(),
{
    if b.len() == 0 {
        assert(a + b =~= a);
        assert(select(a, which) + select(b, which) =~= select(a, which));
    } else {
        assert((a + b).drop_last() =~= a + b.drop_last());
        lemma_select_concat(a, b.drop_last(), which);
        assert(select(a, which) + select(b.drop_last(), which).push(b.last()) =~= (select(a, which)
            + select(b.drop_last(), which)).push(b.last()));
    }
}

proof fn lemma_select_agrees(
    records: Seq<RecordView>,
    one: spec_fn(RecordView) -> bool,
    other: spec_fn(RecordView) -> bool,
)
    requires
        forall|i: int| 0 <= i < records.len() ==> one(#[trigger] records[i]) == other(records[i]),
    ensures
        select(records, one) == select(records, other),
    decreases records.len(),
{
    if records.len() > 0 {
        let rest = records.drop_last();
        assert forall|i: int| 0 <= i < rest.len() implies one(#[trigger] rest[i]) == other(
            rest[i],
        ) by {
            assert(rest[i] == records[i]);
        }
        lemma_select_agrees(rest, one, other);
        assert(one(records[records.len() - 1]) == other(records[records.len() - 1]));
    }
}

proof fn lemma_select_none(records: Seq<RecordView>, which: spec_fn(RecordView) -> bool)
    requires
        forall|i: int| 0 <= i < records.len() ==> !which(#[trigger] records[i]),
    ensures
        select(records, which) == Seq::<RecordView>::empty(),
    decreases records.len(),
{
    if records.len() > 0 {
        let rest = records.drop_last();
        assert forall|i: int| 0 <= i < rest.len() implies !which(#[trigger] rest[i]) by {
            assert(rest[i] == records[i]);
        }
        lemma_select_none(rest, which);
        assert(!which(records[records.len() - 1]));
    }
}

pub(crate) proof fn lemma_rows_read(
    records: Seq<RecordView>,
    n: nat,
    since: u64,
    limit: int,
    manifests: bool,
)
    requires
        n <= records.len(),
        limit >= 1,
    ensures
        ({
            let k = rows_read(records, n, since, limit, manifests);
            let which = news(since, manifests);
            &&& k <= n
            &&& is_page(select(records.take(k as int), which), limit)
            &&& k < n ==> !is_page(select(records.take(k as int + 1), which), limit)
        }),
    decreases n,
{
    let which = news(since, manifests);
    if n > 0 {
        lemma_rows_read(records, (n - 1) as nat, since, limit, manifests);
    } else {
        assert(select(records.take(0), which) =~= Seq::empty());
    }
}

/// The records on the page after `since`.
pub open spec fn on_page(
    records: Seq<RecordView>,
    since: u64,
    limit: usize,
    manifests: bool,
) -> Seq<RecordView> {
    let k = rows_read(records, records.len(), since, page_limit(limit), manifests);
    select(records.take(k as int), news(since, manifests))
}

/// A page and what comes after its cursor are, together and in order, what
/// there was to read: nothing is left out between two pages and nothing comes
/// twice. And `has_more` is honest: a page that says there is no more is
/// followed by nothing, and one that says there is more has something on it.
pub proof fn a_page_goes_on_where_it_ends(
    vault_id: Uuid,
    records: Seq<RecordView>,
    seq: u64,
    since: u64,
    limit: usize,
    manifests: bool,
)
    requires
        in_order(records, seq),
    ensures
        ({
            let page = page_of(vault_id, records, since, limit, manifests);
            let given = on_page(records, since, limit, manifests);
            let rest = select(records, news(page.cursor.0, manifests));
            &&& page.envelopes == envelopes_of(vault_id, given)
            &&& select(records, news(since, manifests)) == given + rest
            &&& page.cursor.0 >= since
            &&& !page.has_more ==> rest.len() == 0
            &&& page.has_more ==> given.len() > 0 && rest.len() > 0
        }),
{
    let bound = page_limit(limit);
    let which = news(since, manifests);
    let k = rows_read(records, records.len(), since, bound, manifests);
    lemma_rows_read(records, records.len(), since, bound, manifests);
    lemma_cursor_splits(records, seq, k as int, since, manifests);
    if k < records.len() {
        lemma_first_left_is_news(records, seq, k as int, since, bound, manifests);
    } else {
        assert(records.skip(k as int) =~= Seq::empty());
    }
}

/// What was read comes before the cursor, and what was not comes after it.
proof fn lemma_cursor_splits(
    records: Seq<RecordView>,
    seq: u64,
    k: int,
    since: u64,
    manifests: bool,
)
    requires
        in_order(records, seq),
        0 <= k <= records.len(),
    ensures
        ({
            let cursor = reached(records.take(k), since);
            let rest = select(records, news(cursor, manifests));
            &&& cursor >= since
            &&& rest == select(records.skip(k), news(cursor, manifests))
            &&& select(records, news(since, manifests)) == select(
                records.take(k),
                news(since, manifests),
            ) + rest
        }),
{
    let which = news(since, manifests);
    let read = records.take(k);
    let left = records.skip(k);
    let cursor = reached(read, since);
    let later = news(cursor, manifests);
    assert(read + left =~= records);
    lemma_select_concat(read, left, which);
    lemma_select_concat(read, left, later);
    assert forall|i: int| 0 <= i < read.len() implies !later(#[trigger] read[i]) by {
        assert(read[i] == records[i]);
        assert(read.last() == records[k - 1]);
        if i < k - 1 {
            assert(records[i].seq < records[k - 1].seq);
        }
    }
    lemma_select_none(read, later);
    assert forall|i: int| 0 <= i < left.len() implies which(#[trigger] left[i]) == later(
        left[i],
    ) by {
        assert(left[i] == records[k + i]);
        if k > 0 {
            assert(read.last() == records[k - 1]);
            assert(records[k - 1].seq < records[k + i].seq);
        }
    }
    lemma_select_agrees(left, which, later);
    assert(Seq::<RecordView>::empty() + select(left, later) =~= select(left, later));
}

/// A page that stopped has something on it, and something is left.
proof fn lemma_first_left_is_news(
    records: Seq<RecordView>,
    seq: u64,
    k: int,
    since: u64,
    limit: int,
    manifests: bool,
)
    requires
        in_order(records, seq),
        0 <= k < records.len(),
        limit >= 1,
        is_page(select(records.take(k), news(since, manifests)), limit),
        !is_page(select(records.take(k + 1), news(since, manifests)), limit),
    ensures
        select(records.take(k), news(since, manifests)).len() > 0,
        select(records.skip(k), news(reached(records.take(k), since), manifests)).len() > 0,
{
    let which = news(since, manifests);
    let read = records.take(k);
    let left = records.skip(k);
    let later = news(reached(read, since), manifests);
    assert(records.take(k + 1).drop_last() =~= read);
    assert(records.take(k + 1).last() == records[k]);
    assert(which(records[k]));
    if k > 0 {
        assert(read.last() == records[k - 1]);
        assert(records[k - 1].seq < records[k].seq);
    }
    assert(left[0] == records[k]);
    assert(left.contains(left[0]));
    lemma_select_contains(left, later, left[0]);
}

/// What a device has been given once it has asked `n` times, each time from
/// where the page before ended.
pub open spec fn read_on(
    records: Seq<RecordView>,
    since: u64,
    limit: usize,
    manifests: bool,
    n: nat,
) -> Seq<RecordView>
    decreases n,
{
    if n == 0 {
        Seq::empty()
    } else {
        let k = rows_read(records, records.len(), since, page_limit(limit), manifests);
        on_page(records, since, limit, manifests) + read_on(
            records,
            reached(records.take(k as int), since),
            limit,
            manifests,
            (n - 1) as nat,
        )
    }
}

proof fn lemma_select_len(records: Seq<RecordView>, which: spec_fn(RecordView) -> bool)
    ensures
        select(records, which).len() <= records.len(),
    decreases records.len(),
{
    if records.len() > 0 {
        lemma_select_len(records.drop_last(), which);
    }
}

/// Paging from a cursor visits everything that was to be read, in order and
/// once, whatever the page size, and is done after at most as many pages as
/// there are records.
pub proof fn paging_visits_everything_once(
    records: Seq<RecordView>,
    seq: u64,
    since: u64,
    limit: usize,
    manifests: bool,
    n: nat,
)
    requires
        in_order(records, seq),
        n >= select(records, news(since, manifests)).len(),
    ensures
        read_on(records, since, limit, manifests, n) == select(records, news(since, manifests)),
    decreases n,
{
    let all = select(records, news(since, manifests));
    if n == 0 {
        assert(all =~= Seq::empty());
    } else {
        let k = rows_read(records, records.len(), since, page_limit(limit), manifests);
        let cursor = reached(records.take(k as int), since);
        let any = Uuid { value: 0 };
        a_page_goes_on_where_it_ends(any, records, seq, since, limit, manifests);
        paging_visits_everything_once(records, seq, cursor, limit, manifests, (n - 1) as nat);
    }
}

pub(crate) proof fn lemma_select_contains(
    records: Seq<RecordView>,
    which: spec_fn(RecordView) -> bool,
    record: RecordView,
)
    requires
        records.contains(record),
        which(record),
    ensures
        select(records, which).contains(record),
    decreases records.len(),
{
    let chosen = select(records, which);
    if records.last() == record {
        assert(chosen.last() == record);
    } else {
        let i = choose|i: int| 0 <= i < records.len() && records[i] == record;
        assert(records.drop_last()[i] == record);
        lemma_select_contains(records.drop_last(), which, record);
        let rest = select(records.drop_last(), which);
        let j = choose|j: int| 0 <= j < rest.len() && rest[j] == record;
        assert(chosen[j] == record);
    }
}

pub(crate) proof fn lemma_no_fault_bounds_blobs(vault_id: Uuid, envelopes: Seq<EnvelopeView>)
    requires
        first_fault(vault_id, envelopes) is None,
    ensures
        forall|i: int|
            0 <= i < envelopes.len() ==> (#[trigger] envelopes[i]).blob.len() <= MAX_BLOB_BYTES
                && envelopes[i].vault_id == vault_id,
    decreases envelopes.len(),
{
    if envelopes.len() > 0 {
        lemma_no_fault_bounds_blobs(vault_id, envelopes.skip(1));
        assert forall|i: int| 0 <= i < envelopes.len() implies (
        #[trigger] envelopes[i]).blob.len() <= MAX_BLOB_BYTES && envelopes[i].vault_id
            == vault_id by {
            if i > 0 {
                assert(envelopes[i] == envelopes.skip(1)[i - 1]);
            }
        }
    }
}

/// The state of the pushing account after a push that was not refused: the
/// numbers went up by as many records as were taken, and the mailbox is in
/// order.
pub(crate) proof fn lemma_pushed_account(
    db: DbView,
    account: Account,
    device: Uuid,
    envelopes: Seq<EnvelopeView>,
    quota: Quota,
    now: u64,
)
    requires
        db.wf(),
        countable(db, account.id),
        push_refusal(db, account, device, envelopes, quota, now) is None,
    ensures
        ({
            let before = db.account(account.id);
            let end = offer_all(
                before,
                envelopes,
                envelopes.len(),
                account.vault_id,
                device,
                now,
            );
            let after = pushed(db, account, device, envelopes, now);
            &&& db.has_account(account.id)
            &&& after.has_account(account.id)
            &&& after.account(account.id) == account_after(before, end)
            &&& mailbox(after, account.id) == end.records
            &&& end.seq == before.seq + end.accepted.len()
            &&& end.accepted.len() <= MAX_BATCH
            &&& in_order(end.records, end.seq as u64)
            &&& envelopes.len() <= MAX_BATCH
            &&& forall|i: int|
                0 <= i < envelopes.len() ==> (#[trigger] envelopes[i]).blob.len() <= MAX_BLOB_BYTES
        }),
{
    lemma_no_fault_bounds_blobs(account.vault_id, envelopes);
    let before = db.account(account.id);
    assert(before.id == account.id && before.wf());
    numbers_rise_without_a_gap(
        before,
        envelopes,
        envelopes.len(),
        account.vault_id,
        device,
        now,
    );
    lemma_with_account(
        db,
        account.id,
        account_after(
            before,
            offer_all(before, envelopes, envelopes.len(), account.vault_id, device, now),
        ),
        account.id,
    );
}

pub(crate) proof fn lemma_with_account(db: DbView, id: Uuid, changed: AccountView, other: Uuid)
    requires
        db.wf(),
        db.has_account(id),
        changed.id == id,
    ensures
        db.with_account(id, changed).has_account(id),
        db.with_account(id, changed).account(id) == changed,
        db.with_account(id, changed).has_account(other) == db.has_account(other),
        other != id && db.has_account(other) ==> db.with_account(id, changed).account(other)
            == db.account(other),
{
    let at = db.account_at(id);
    let after = db.with_account(id, changed);
    assert(after.accounts[at].id == id);
    if db.has_account(other) {
        let there = db.account_at(other);
        assert(after.accounts[there].id == other);
        let found = after.account_at(other);
        assert(db.accounts[found].id == other);
    }
    if after.has_account(other) {
        let there = after.account_at(other);
        assert(db.accounts[there].id == other);
    }
}

/// A pushed record comes back on a pull. Whoever has not read as far as its
/// number, and reads on page after page, is given it, sealed bytes and all.
pub proof fn a_pushed_record_comes_back(
    db: DbView,
    account: Account,
    device: Uuid,
    envelopes: Seq<EnvelopeView>,
    quota: Quota,
    now: u64,
    i: int,
    since: u64,
    limit: usize,
    manifests: bool,
)
    requires
        db.wf(),
        countable(db, account.id),
        push_refusal(db, account, device, envelopes, quota, now) is None,
        0 <= i < envelopes.len(),
        was_taken(db.account(account.id), envelopes, i, account.vault_id, device, now),
        forall|j: int| i < j < envelopes.len() ==> (#[trigger] envelopes[j]).id != envelopes[i].id,
        since < offer_all(
            db.account(account.id),
            envelopes,
            i as nat,
            account.vault_id,
            device,
            now,
        ).seq + 1,
        manifests || envelopes[i].kind != EntityKind::Manifest,
    ensures
        ({
            let number = (offer_all(
                db.account(account.id),
                envelopes,
                i as nat,
                account.vault_id,
                device,
                now,
            ).seq + 1) as u64;
            let held = mailbox(pushed(db, account, device, envelopes, now), account.id);
            read_on(held, since, limit, manifests, held.len()).contains(
                record_of(envelopes[i], number, device, now),
            )
        }),
{
    let before = db.account(account.id);
    let n = envelopes.len();
    lemma_pushed_account(db, account, device, envelopes, quota, now);
    assert(before.wf());
    numbers_rise_without_a_gap(before, envelopes, i as nat, account.vault_id, device, now);
    what_was_taken_is_held(before, envelopes, i, n, account.vault_id, device, now);
    let end = offer_all(before, envelopes, n, account.vault_id, device, now);
    let number = (offer_all(before, envelopes, i as nat, account.vault_id, device, now).seq
        + 1) as u64;
    let which = news(since, manifests);
    lemma_select_contains(end.records, which, record_of(envelopes[i], number, device, now));
    lemma_select_len(end.records, which);
    paging_visits_everything_once(
        end.records,
        end.seq as u64,
        since,
        limit,
        manifests,
        end.records.len(),
    );
}

/// A push touches the account it is for and no other: every other account,
/// its records and its numbers are as they were.
pub proof fn a_push_is_nobody_elses_business(
    db: DbView,
    account: Account,
    device: Uuid,
    envelopes: Seq<EnvelopeView>,
    quota: Quota,
    now: u64,
    other: Uuid,
)
    requires
        db.wf(),
        countable(db, account.id),
        push_refusal(db, account, device, envelopes, quota, now) is None,
        other != account.id,
    ensures
        ({
            let after = pushed(db, account, device, envelopes, now);
            &&& after.has_account(other) == db.has_account(other)
            &&& db.has_account(other) ==> after.account(other) == db.account(other)
            &&& mailbox(after, other) == mailbox(db, other)
        }),
{
    let before = db.account(account.id);
    let end = offer_all(before, envelopes, envelopes.len(), account.vault_id, device, now);
    assert(before.id == account.id);
    lemma_with_account(db, account.id, account_after(before, end), other);
}

/// A push that is well formed and makes the account no larger always goes
/// through, even for an account that is over its quota or on a server that is
/// full.
pub proof fn shrinking_is_never_refused(
    db: DbView,
    account: Account,
    device: Uuid,
    envelopes: Seq<EnvelopeView>,
    quota: Quota,
    now: u64,
)
    requires
        db.has_account(account.id),
        envelopes.len() <= MAX_BATCH,
        envelopes.len() <= 1 || sealed_bytes(envelopes) <= MAX_BATCH_BYTES,
        first_fault(account.vault_id, envelopes) is None,
        ({
            let before = db.account(account.id);
            let end = offer_all(
                before,
                envelopes,
                envelopes.len(),
                account.vault_id,
                device,
                now,
            );
            end.count <= before.record_count && end.bytes <= before.record_bytes
        }),
    ensures
        push_refusal(db, account, device, envelopes, quota, now) is None,
{
}

/// A push that is not refused leaves the account within its quota, and all
/// accounts together within the server's, unless it did not make them larger.
pub proof fn growing_stays_within_the_quota(
    db: DbView,
    account: Account,
    device: Uuid,
    envelopes: Seq<EnvelopeView>,
    quota: Quota,
    now: u64,
)
    requires
        db.wf(),
        countable(db, account.id),
        push_refusal(db, account, device, envelopes, quota, now) is None,
    ensures
        ({
            let before = db.account(account.id);
            let after = pushed(db, account, device, envelopes, now);
            &&& after.account(account.id).record_count > before.record_count
                ==> after.account(account.id).record_count <= quota.records
            &&& after.account(account.id).record_bytes > before.record_bytes
                ==> after.account(account.id).record_bytes <= quota.bytes
                && everyones_bytes(after.accounts) <= quota.server_bytes
        }),
{
    lemma_pushed_account(db, account, device, envelopes, quota, now);
    let before = db.account(account.id);
    let end = offer_all(before, envelopes, envelopes.len(), account.vault_id, device, now);
    lemma_counters_move_little(
        before,
        envelopes,
        envelopes.len(),
        account.vault_id,
        device,
        now,
    );
    assert(envelopes.len() * MAX_BLOB_BYTES <= 500 * MAX_BLOB_BYTES) by (nonlinear_arith)
        requires
            envelopes.len() <= 500,
    ;
    lemma_everyone_after(db.accounts, db.account_at(account.id), account_after(before, end));
}

proof fn lemma_counters_move_little(
    account: AccountView,
    envelopes: Seq<EnvelopeView>,
    n: nat,
    vault_id: Uuid,
    device: Uuid,
    now: u64,
)
    requires
        account.wf(),
        n <= envelopes.len(),
        account.seq + n <= u64::MAX,
        forall|i: int|
            0 <= i < envelopes.len() ==> (#[trigger] envelopes[i]).blob.len() <= MAX_BLOB_BYTES,
    ensures
        ({
            let end = offer_all(account, envelopes, n, vault_id, device, now);
            &&& account.record_count <= end.count <= account.record_count + n
            &&& account.record_bytes - n * MAX_BLOB_BYTES <= end.bytes <= account.record_bytes + n
                * MAX_BLOB_BYTES
        }),
    decreases n,
{
    if n > 0 {
        let m = (n - 1) as nat;
        lemma_counters_move_little(account, envelopes, m, vault_id, device, now);
        numbers_rise_without_a_gap(account, envelopes, m, vault_id, device, now);
        let before = offer_all(account, envelopes, m, vault_id, device, now);
        let envelope = envelopes[n - 1];
        assert(m * MAX_BLOB_BYTES + MAX_BLOB_BYTES == n * MAX_BLOB_BYTES) by (nonlinear_arith)
            requires
                n == m + 1,
        ;
        if holds(before.records, envelope.id) {
            let held = before.records[place(before.records, envelope.id)];
            assert(held.blob.len() <= MAX_BLOB_BYTES);
        }
    }
}

/// Whether an account's counters say what it holds.
pub open spec fn counted_right(account: AccountView) -> bool {
    &&& account.record_count == account.records.len()
    &&& account.record_bytes == held_bytes(account.records)
}

proof fn lemma_held_bytes_remove(records: Seq<RecordView>, at: int)
    requires
        0 <= at < records.len(),
    ensures
        held_bytes(records.remove(at)) == held_bytes(records) - records[at].blob.len(),
    decreases records.len(),
{
    let after = records.remove(at);
    if at == records.len() - 1 {
        assert(after =~= records.drop_last());
    } else {
        assert(after.drop_last() =~= records.drop_last().remove(at));
        lemma_held_bytes_remove(records.drop_last(), at);
    }
}

proof fn lemma_offers_count_right(
    account: AccountView,
    envelopes: Seq<EnvelopeView>,
    n: nat,
    vault_id: Uuid,
    device: Uuid,
    now: u64,
)
    requires
        counted_right(account),
        n <= envelopes.len(),
    ensures
        ({
            let end = offer_all(account, envelopes, n, vault_id, device, now);
            end.count == end.records.len() && end.bytes == held_bytes(end.records)
        }),
    decreases n,
{
    if n > 0 {
        let m = (n - 1) as nat;
        lemma_offers_count_right(account, envelopes, m, vault_id, device, now);
        let before = offer_all(account, envelopes, m, vault_id, device, now);
        let after = offer_all(account, envelopes, n, vault_id, device, now);
        let envelope = envelopes[n - 1];
        let taken = record_of(envelope, (before.seq + 1) as u64, device, now);
        if holds(before.records, envelope.id) {
            let at = place(before.records, envelope.id);
            lemma_held_bytes_remove(before.records, at);
            let kept = before.records.remove(at);
            assert(kept.push(taken).drop_last() =~= kept);
        } else {
            assert(before.records.push(taken).drop_last() =~= before.records);
        }
    }
}

/// Counters that say what an account holds still do after a push.
pub proof fn a_push_is_counted_right(
    db: DbView,
    account: Account,
    device: Uuid,
    envelopes: Seq<EnvelopeView>,
    quota: Quota,
    now: u64,
)
    requires
        db.wf(),
        countable(db, account.id),
        push_refusal(db, account, device, envelopes, quota, now) is None,
        counted_right(db.account(account.id)),
    ensures
        counted_right(pushed(db, account, device, envelopes, now).account(account.id)),
{
    let before = db.account(account.id);
    let n = envelopes.len();
    lemma_pushed_account(db, account, device, envelopes, quota, now);
    assert(before.wf());
    lemma_offers_count_right(before, envelopes, n, account.vault_id, device, now);
    lemma_counters_move_little(before, envelopes, n, account.vault_id, device, now);
    assert(n * MAX_BLOB_BYTES <= 500 * MAX_BLOB_BYTES) by (nonlinear_arith)
        requires
            n <= 500,
    ;
}

proof fn lemma_select_splits(records: Seq<RecordView>, doomed: Doomed)
    ensures
        select(records, doomed.takes()).len() + select(records, doomed.leaves()).len()
            == records.len(),
        held_bytes(select(records, doomed.takes())) + held_bytes(select(records, doomed.leaves()))
            == held_bytes(records),
    decreases records.len(),
{
    if records.len() > 0 {
        lemma_select_splits(records.drop_last(), doomed);
        let gone = select(records.drop_last(), doomed.takes());
        let kept = select(records.drop_last(), doomed.leaves());
        assert(gone.push(records.last()).drop_last() =~= gone);
        assert(kept.push(records.last()).drop_last() =~= kept);
    }
}

/// Counters that say what an account holds still do once records of it are
/// forgotten.
pub proof fn forgetting_is_counted_right(account: AccountView, doomed: Doomed)
    requires
        counted_right(account),
    ensures
        counted_right(without(account, doomed)),
{
    lemma_select_splits(account.records, doomed);
}

/// A record that is no tombstone is never forgotten for its age, nor is a
/// tombstone that some device has not read, or that is not old.
pub proof fn only_old_tombstones_that_were_read_are_forgotten(
    account: AccountView,
    before_ms: u64,
    below_seq: u64,
    record: RecordView,
)
    requires
        account.records.contains(record),
        !record.deleted || record.seq > below_seq || record.updated_ms >= before_ms,
    ensures
        without(account, Doomed::Tombstones { before_ms, below_seq }).records.contains(record),
{
    let doomed = Doomed::Tombstones { before_ms, below_seq };
    lemma_select_contains(account.records, doomed.leaves(), record);
}

/// Forgetting the manifests of a device leaves everything else, also of that
/// device, and the manifests of every other one.
pub proof fn a_device_takes_its_manifests_and_nothing_else(
    account: AccountView,
    device: Uuid,
    record: RecordView,
)
    requires
        account.records.contains(record),
    ensures
        without(account, Doomed::ManifestsOf { device }).records.contains(record) <==> !(
        record.device_id == device && record.kind == EntityKind::Manifest),
{
    let doomed = Doomed::ManifestsOf { device };
    let kept = select(account.records, doomed.leaves());
    if doomed.leaves()(record) {
        lemma_select_contains(account.records, doomed.leaves(), record);
    }
    if kept.contains(record) {
        lemma_selected_answer(account.records, doomed.leaves());
        let i = choose|i: int| 0 <= i < kept.len() && kept[i] == record;
        assert(doomed.leaves()(kept[i]));
    }
}

pub(crate) proof fn lemma_selected_answer(records: Seq<RecordView>, which: spec_fn(RecordView) -> bool)
    ensures
        forall|i: int|
            0 <= i < select(records, which).len() ==> which(#[trigger] select(records, which)[i]),
    decreases records.len(),
{
    if records.len() > 0 {
        lemma_selected_answer(records.drop_last(), which);
        let rest = select(records.drop_last(), which);
        let chosen = select(records, which);
        assert forall|i: int| 0 <= i < chosen.len() implies which(#[trigger] chosen[i]) by {
            if i < rest.len() {
                assert(chosen[i] == rest[i]);
            }
        }
    }
}

/// Forgetting records touches no other account.
pub proof fn forgetting_is_nobody_elses_business(
    db: DbView,
    id: Uuid,
    doomed: Doomed,
    other: Uuid,
)
    requires
        db.wf(),
        other != id,
    ensures
        forgotten(db, id, doomed).has_account(other) == db.has_account(other),
        db.has_account(other) ==> forgotten(db, id, doomed).account(other) == db.account(other),
{
    if db.has_account(id) {
        assert(db.account(id).id == id);
        lemma_with_account(db, id, without(db.account(id), doomed), other);
    }
}

proof fn lemma_everyone_after(accounts: Seq<AccountView>, at: int, changed: AccountView)
    requires
        0 <= at < accounts.len(),
    ensures
        everyones_bytes(accounts.update(at, changed)) == everyones_bytes(accounts)
            - accounts[at].record_bytes + changed.record_bytes,
    decreases accounts.len(),
{
    let after = accounts.update(at, changed);
    if at == accounts.len() - 1 {
        assert(after.drop_last() =~= accounts.drop_last());
    } else {
        assert(after.drop_last() =~= accounts.drop_last().update(at, changed));
        lemma_everyone_after(accounts.drop_last(), at, changed);
    }
}

/// The same mailbox but for the times at which its records arrived.
spec fn same_but_for_times(one: Seq<RecordView>, other: Seq<RecordView>) -> bool {
    &&& one.len() == other.len()
    &&& forall|i: int|
        0 <= i < one.len() ==> (#[trigger] one[i]) == (RecordView {
            updated_ms: one[i].updated_ms,
            ..other[i]
        })
}

proof fn lemma_offers_ignore_the_clock(
    account: AccountView,
    envelopes: Seq<EnvelopeView>,
    n: nat,
    vault_id: Uuid,
    device: Uuid,
    now: u64,
    later: u64,
)
    requires
        account.wf(),
        n <= envelopes.len(),
        account.seq + n <= u64::MAX,
        forall|i: int|
            0 <= i < envelopes.len() ==> (#[trigger] envelopes[i]).blob.len() <= MAX_BLOB_BYTES,
    ensures
        ({
            let one = offer_all(account, envelopes, n, vault_id, device, now);
            let other = offer_all(account, envelopes, n, vault_id, device, later);
            &&& same_but_for_times(one.records, other.records)
            &&& one.seq == other.seq
            &&& one.count == other.count
            &&& one.bytes == other.bytes
            &&& one.accepted == other.accepted
            &&& one.conflicts == other.conflicts
        }),
    decreases n,
{
    if n > 0 {
        let m = (n - 1) as nat;
        lemma_offers_ignore_the_clock(account, envelopes, m, vault_id, device, now, later);
        numbers_rise_without_a_gap(account, envelopes, m, vault_id, device, now);
        numbers_rise_without_a_gap(account, envelopes, m, vault_id, device, later);
        let one = offer_all(account, envelopes, m, vault_id, device, now);
        let other = offer_all(account, envelopes, m, vault_id, device, later);
        let id = envelopes[n - 1].id;
        if holds(one.records, id) {
            let at = place(one.records, id);
            assert(one.records[at].id == other.records[at].id);
            assert(holds(other.records, id));
            assert(place(other.records, id) == at);
        } else {
            assert forall|i: int| 0 <= i < other.records.len() implies (
            #[trigger] other.records[i]).id != id by {
                assert(one.records[i].id == other.records[i].id);
            }
        }
    }
}

/// When a push arrives decides neither whether it is refused nor what it is
/// answered.
pub proof fn the_clock_decides_nothing_about_a_push(
    db: DbView,
    account: Account,
    device: Uuid,
    envelopes: Seq<EnvelopeView>,
    quota: Quota,
    one: u64,
    other: u64,
)
    requires
        db.wf(),
        countable(db, account.id),
    ensures
        push_refusal(db, account, device, envelopes, quota, one) == push_refusal(
            db,
            account,
            device,
            envelopes,
            quota,
            other,
        ),
        push_refusal(db, account, device, envelopes, quota, one) is None ==> push_response(
            db,
            account,
            device,
            envelopes,
            one,
        ) == push_response(db, account, device, envelopes, other),
{
    if envelopes.len() <= MAX_BATCH && first_fault(account.vault_id, envelopes) is None
        && db.has_account(account.id) {
        lemma_no_fault_bounds_blobs(account.vault_id, envelopes);
        let before = db.account(account.id);
        assert(before.wf());
        lemma_offers_ignore_the_clock(
            before,
            envelopes,
            envelopes.len(),
            account.vault_id,
            device,
            one,
            other,
        );
    }
}

} // verus!
