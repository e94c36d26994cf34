//! What holds of accounts over time, whatever is done with them.

use crate::db::accounts::{fresh_account, Account, VaultHeaderView};
use crate::db::laws::{
    a_push_is_counted_right, counted_right, forgetting_is_counted_right, lemma_pushed_account,
    lemma_with_account, numbers_rise_without_a_gap,
};
use crate::db::records::{
    account_after, countable, forgotten, lemma_select_in_order, offer, offer_all, place,
    push_refusal, push_response, pushed, select, without, Doomed, Quota,
};
use crate::db::{AccountView, DbView, RecordView};
use crate::ids::Uuid;
use crate::proto::{Accepted, EnvelopeView, MAX_BLOB_BYTES};
use vstd::prelude::*;

verus! {

/// Something that is done with the accounts of a server.
pub enum Change {
    /// An account is created.
    Create { id: Uuid, header: VaultHeaderView, auth_key: Seq<u8>, now: u64 },
    /// Records are offered.
    Push {
        account: Account,
        device: Uuid,
        envelopes: Seq<EnvelopeView>,
        quota: Quota,
        now: u64,
    },
    /// Records of an account are forgotten: old tombstones, or the manifests
    /// of a device.
    Forget { id: Uuid, doomed: Doomed },
}

/// The database once that was done. What is refused changes nothing.
pub open spec fn changed(db: DbView, change: Change) -> DbView {
    match change {
        Change::Create { id, header, auth_key, now } => if db.has_account(id) {
            db
        } else {
            DbView { accounts: db.accounts.push(fresh_account(id, header, auth_key, now)), ..db }
        },
        Change::Push { account, device, envelopes, quota, now } => if push_refusal(
            db,
            account,
            device,
            envelopes,
            quota,
            now,
        ) is None {
            pushed(db, account, device, envelopes, now)
        } else {
            db
        },
        Change::Forget { id, doomed } => forgotten(db, id, doomed),
    }
}

/// A new database once all of that was done, one after the other.
pub open spec fn history(changes: Seq<Change>) -> DbView
    decreases changes.len(),
{
    if changes.len() == 0 {
        DbView::empty()
    } else {
        changed(history(changes.drop_last()), changes.last())
    }
}

/// The numbers a change hands out for an account, in their order.
pub open spec fn numbers_of(db: DbView, change: Change, id: Uuid) -> Seq<u64> {
    match change {
        Change::Push { account, device, envelopes, quota, now } => if account.id == id
            && push_refusal(db, account, device, envelopes, quota, now) is None {
            push_response(db, account, device, envelopes, now).accepted.map_values(
                |taken: Accepted| taken.seq,
            )
        } else {
            Seq::empty()
        },
        _ => Seq::empty(),
    }
}

/// Every number that was ever handed out for an account, in their order.
pub open spec fn handed_out(changes: Seq<Change>, id: Uuid) -> Seq<u64>
    decreases changes.len(),
{
    if changes.len() == 0 {
        Seq::empty()
    } else {
        handed_out(changes.drop_last(), id) + numbers_of(
            history(changes.drop_last()),
            changes.last(),
            id,
        )
    }
}

/// Whether no push met an account whose counters were at the end of their
/// range.
pub open spec fn stays_countable(changes: Seq<Change>) -> bool
    decreases changes.len(),
{
    changes.len() > 0 ==> stays_countable(changes.drop_last()) && match changes.last() {
        Change::Push { account, .. } => countable(history(changes.drop_last()), account.id),
        _ => true,
    }
}

/// Whether every record has a number that was handed out: none is zero.
pub open spec fn all_numbered(records: Seq<RecordView>) -> bool {
    forall|i: int| 0 <= i < records.len() ==> (#[trigger] records[i]).seq >= 1
}

/// Whether an account counts what it holds, and every record of it is
/// numbered.
spec fn kept_well(account: AccountView) -> bool {
    counted_right(account) && all_numbered(account.records)
}

spec fn all_kept_well(db: DbView) -> bool {
    forall|i: int| 0 <= i < db.accounts.len() ==> kept_well(#[trigger] db.accounts[i])
}

proof fn lemma_offers_are_numbered(
    account: AccountView,
    envelopes: Seq<EnvelopeView>,
    n: nat,
    vault_id: Uuid,
    device: Uuid,
    now: u64,
)
    requires
        account.wf(),
        all_numbered(account.records),
        n <= envelopes.len(),
        account.seq + n <= u64::MAX,
        forall|i: int|
            0 <= i < envelopes.len() ==> (#[trigger] envelopes[i]).blob.len()
                <= MAX_BLOB_BYTES,
    ensures
        all_numbered(offer_all(account, envelopes, n, vault_id, device, now).records),
    decreases n,
{
    if n > 0 {
        let m = (n - 1) as nat;
        lemma_offers_are_numbered(account, envelopes, m, vault_id, device, now);
        numbers_rise_without_a_gap(account, envelopes, m, vault_id, device, now);
        let before = offer_all(account, envelopes, m, vault_id, device, now);
        let after = offer(before, envelopes[n - 1], vault_id, device, now);
        let at = place(before.records, envelopes[n - 1].id);
        assert forall|i: int| 0 <= i < after.records.len() implies (
        #[trigger] after.records[i]).seq >= 1 by {
            if after.records != before.records && i < after.records.len() - 1 {
                if after.records.len() == before.records.len() {
                    assert(after.records[i] == before.records[if i < at {
                        i
                    } else {
                        i + 1
                    }]);
                } else {
                    assert(after.records[i] == before.records[i]);
                }
            }
        }
    }
}

/// A database of which one account changed, and stayed as it should be.
proof fn lemma_account_replaced(db: DbView, id: Uuid, account: AccountView)
    requires
        db.wf(),
        all_kept_well(db),
        db.has_account(id),
        account.id == id,
        account.wf(),
        kept_well(account),
    ensures
        db.with_account(id, account).wf(),
        all_kept_well(db.with_account(id, account)),
{
    let after = db.with_account(id, account);
    let at = db.account_at(id);
    assert(db.accounts[at].id == id);
    assert forall|i: int, j: int| 0 <= i < j < after.accounts.len() implies (
    #[trigger] after.accounts[i]).id != (#[trigger] after.accounts[j]).id by {
        assert(db.accounts[i].id != db.accounts[j].id);
    }
}

proof fn lemma_changed(db: DbView, change: Change)
    requires
        db.wf(),
        all_kept_well(db),
        change matches Change::Push { account, .. } ==> countable(db, account.id),
    ensures
        changed(db, change).wf(),
        all_kept_well(changed(db, change)),
{
    match change {
        Change::Create { id, header, auth_key, now } => {
            if !db.has_account(id) {
                let fresh = fresh_account(id, header, auth_key, now);
                let after = changed(db, change);
                assert(counted_right(fresh));
                assert forall|i: int| 0 <= i < db.accounts.len() implies (
                #[trigger] db.accounts[i]).id != id by {}
            }
        },
        Change::Push { account, device, envelopes, quota, now } => {
            if push_refusal(db, account, device, envelopes, quota, now) is None {
                let before = db.account(account.id);
                let n = envelopes.len();
                lemma_pushed_account(db, account, device, envelopes, quota, now);
                assert(before.id == account.id && before.wf() && kept_well(before));
                a_push_is_counted_right(db, account, device, envelopes, quota, now);
                lemma_offers_are_numbered(before, envelopes, n, account.vault_id, device, now);
                let after = pushed(db, account, device, envelopes, now).account(account.id);
                lemma_account_replaced(db, account.id, after);
            }
        },
        Change::Forget { id, doomed } => {
            if db.has_account(id) {
                let before = db.account(id);
                assert(before.id == id && before.wf() && kept_well(before));
                forgetting_is_counted_right(before, doomed);
                lemma_select_in_order(before.records, doomed.leaves(), before.seq);
                let left = select(before.records, doomed.leaves());
                assert forall|i: int| 0 <= i < left.len() implies (#[trigger] left[i]).seq >= 1 by {
                    assert(before.records.contains(left[i]));
                }
                lemma_account_replaced(db, id, without(before, doomed));
            }
        },
    }
}

/// How far an account's numbers go, and nothing where there is no such account.
spec fn reached_by(db: DbView, id: Uuid) -> nat {
    if db.has_account(id) {
        db.account(id).seq as nat
    } else {
        0
    }
}

/// A change takes an account's numbers as far as it hands out more, and hands
/// out the ones that follow.
proof fn lemma_numbers_follow(db: DbView, change: Change, id: Uuid)
    requires
        db.wf(),
        change matches Change::Push { account, .. } ==> countable(db, account.id),
    ensures
        ({
            let next = numbers_of(db, change, id);
            &&& reached_by(changed(db, change), id) == reached_by(db, id) + next.len()
            &&& forall|i: int|
                0 <= i < next.len() ==> #[trigger] next[i] == reached_by(db, id) + 1 + i
            &&& db.has_account(id) ==> changed(db, change).has_account(id)
        }),
{
    let after = changed(db, change);
    match change {
        Change::Create { id: new, header, auth_key, now } => {
            if !db.has_account(new) {
                let fresh = fresh_account(new, header, auth_key, now);
                if db.has_account(id) {
                    let at = db.account_at(id);
                    assert(after.accounts[at].id == id);
                    let found = after.account_at(id);
                    assert(after.accounts[found].id == id);
                    assert(found < db.accounts.len());
                    assert(db.accounts[found].id == id);
                } else if after.has_account(id) {
                    let found = after.account_at(id);
                    assert(after.accounts[found].id == id);
                    if found < db.accounts.len() {
                        assert(db.accounts[found].id == id);
                    }
                    assert(after.account(id) == fresh);
                }
            }
        },
        Change::Push { account, device, envelopes, quota, now } => {
            if push_refusal(db, account, device, envelopes, quota, now) is None {
                let before = db.account(account.id);
                let n = envelopes.len();
                lemma_pushed_account(db, account, device, envelopes, quota, now);
                assert(before.id == account.id && before.wf());
                numbers_rise_without_a_gap(before, envelopes, n, account.vault_id, device, now);
                let end = offer_all(before, envelopes, n, account.vault_id, device, now);
                lemma_with_account(db, account.id, account_after(before, end), id);
            }
        },
        Change::Forget { id: of, doomed } => {
            if db.has_account(of) {
                assert(db.account(of).id == of);
                lemma_with_account(db, of, without(db.account(of), doomed), id);
            }
        },
    }
}

proof fn lemma_history(changes: Seq<Change>, id: Uuid)
    requires
        stays_countable(changes),
    ensures
        history(changes).wf(),
        all_kept_well(history(changes)),
        handed_out(changes, id).len() == reached_by(history(changes), id),
        forall|i: int|
            0 <= i < handed_out(changes, id).len() ==> #[trigger] handed_out(changes, id)[i] == i
                + 1,
    decreases changes.len(),
{
    if changes.len() > 0 {
        let rest = changes.drop_last();
        lemma_history(rest, id);
        lemma_changed(history(rest), changes.last());
        lemma_numbers_follow(history(rest), changes.last(), id);
    }
}

/// Whatever is pushed and forgotten, taken or refused, from the first account
/// on: every account counts exactly what it holds, each id is held once, the
/// numbers of its records are all different and among those it handed out, and
/// the numbers it ever handed out are one, two, three and so on up to the last,
/// each of them once.
pub proof fn accounts_are_kept_well_over_time(changes: Seq<Change>, id: Uuid)
    requires
        stays_countable(changes),
    ensures
        history(changes).wf(),
        history(changes).has_account(id) ==> {
            let account = history(changes).account(id);
            &&& counted_right(account)
            &&& forall|i: int, j: int|
                0 <= i < j < account.records.len() ==> (#[trigger] account.records[i]).id != (
                #[trigger] account.records[j]).id && account.records[i].seq
                    != account.records[j].seq
            &&& forall|i: int|
                0 <= i < account.records.len() ==> 1 <= (#[trigger] account.records[i]).seq
                    <= account.seq
            &&& handed_out(changes, id).len() == account.seq
            &&& forall|i: int|
                0 <= i < account.seq ==> #[trigger] handed_out(changes, id)[i] == i + 1
        },
{
    lemma_history(changes, id);
    let db = history(changes);
    if db.has_account(id) {
        assert(db.accounts[db.account_at(id)].wf());
        assert(kept_well(db.accounts[db.account_at(id)]));
    }
}

/// An account stays, and the last number it handed out never goes down.
pub proof fn numbers_never_go_down(changes: Seq<Change>, earlier: int, id: Uuid)
    requires
        stays_countable(changes),
        0 <= earlier <= changes.len(),
        history(changes.take(earlier)).has_account(id),
    ensures
        history(changes).has_account(id),
        history(changes.take(earlier)).account(id).seq <= history(changes).account(id).seq,
    decreases changes.len(),
{
    if earlier == changes.len() {
        assert(changes.take(earlier) =~= changes);
    } else {
        let rest = changes.drop_last();
        assert(rest.take(earlier) =~= changes.take(earlier));
        numbers_never_go_down(rest, earlier, id);
        lemma_history(rest, id);
        lemma_numbers_follow(history(rest), changes.last(), id);
    }
}

} // verus!
