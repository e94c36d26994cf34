//! Devices: letting one in, listing them, shutting one out.

use crate::api::accounts::Fresh;
use crate::api::devices::{enrol_done, invite_done, revoke_done, shut_out};
use crate::api::key_bytes;
use crate::db::devices::{
    add_done, cleaned, device_of, fresh_device, is_live, list_of, live_devices, lowest_of,
    printable, read_by_all, revocable, revoked_db, seen_db, summaries_view, summary_of, Device,
    DeviceSummary, DeviceSummaryView,
};
use crate::db::invites::{
    code_hash, code_text, failed_db, forgotten_since, has_enrolment, invite_done as code_made,
    joins, letter, normalised, open_invites, purged_db, redeemable, redeemed, token_hash,
};
use crate::db::{DbView, DeviceRow, DeviceRowView, EnrolmentRow, InviteRow, InviteView, RecordView};
use crate::error::{refused, Refusal, Result};
use crate::ids::Uuid;
use crate::proto::{Admitted, EnrolDevice, EnrolmentToken, EntityKind};
use crate::promises::mailbox::just_what_is_doomed_is_forgotten;
use crate::state::StateView;
use crate::{sha256_of, text};
use vstd::prelude::*;
use vstd::utf8::encode_utf8;

verus! {

/// What is said of a device, a code and a token is said of every part of it.
pub proof fn nothing_is_left_out(
    row: DeviceRow,
    device: Device,
    summary: DeviceSummary,
    invite: InviteRow,
    enrolment: EnrolmentRow,
)
    ensures
        row@.id == row.id,
        row@.account_id == row.account_id,
        row@.name == row.name@,
        row@.public_key == row.public_key@,
        row@.created_ms == row.created_ms,
        row@.last_seen_ms == row.last_seen_ms,
        row@.cursor == row.cursor,
        row@.revoked_ms == row.revoked_ms,
        device@.id == device.id,
        device@.account_id == device.account_id,
        device@.name == device.name@,
        device@.public_key == device.public_key@,
        device@.cursor == device.cursor,
        device@.revoked == device.revoked,
        summary@.id == summary.id,
        summary@.name == summary.name@,
        summary@.created_ms == summary.created_ms,
        summary@.last_seen_ms == summary.last_seen_ms,
        summary@.revoked_ms == summary.revoked_ms,
        invite@.code_hash == invite.code_hash@,
        invite@.created_ms == invite.created_ms,
        invite@.expires_ms == invite.expires_ms,
        invite@.used_ms == invite.used_ms,
        enrolment@.token_hash == enrolment.token_hash@,
        enrolment@.account_id == enrolment.account_id,
        enrolment@.created_ms == enrolment.created_ms,
        enrolment@.expires_ms == enrolment.expires_ms,
        enrolment@.used_ms == enrolment.used_ms,
        enrolment@.device_id == enrolment.device_id,
        enrolment@.failures == enrolment.failures,
{
}

/// A device is known by what was kept of it, each part, and shown without its
/// key.
pub proof fn a_device_is_what_was_kept_of_it(row: DeviceRowView)
    ensures
        device_of(row).id == row.id,
        device_of(row).account_id == row.account_id,
        device_of(row).name == row.name,
        device_of(row).public_key == row.public_key,
        device_of(row).cursor == row.cursor,
        device_of(row).revoked <==> row.revoked_ms is Some,
        summary_of(row).id == row.id,
        summary_of(row).name == row.name,
        summary_of(row).created_ms == row.created_ms,
        summary_of(row).last_seen_ms == row.last_seen_ms,
        summary_of(row).revoked_ms == row.revoked_ms,
{
}

/// What can be shown of a name is the name without its control characters.
pub proof fn a_name_is_shown_without_control_characters(name: Seq<char>)
    ensures
        printable(name) == name.filter(|c: char| !crate::text::is_control(c)),
    decreases name.len(),
{
    reveal(Seq::filter);
    if name.len() > 0 {
        a_name_is_shown_without_control_characters(name.drop_last());
    }
}

/// A device bears the name it came with, as far as it can be shown on one line:
/// at most sixty characters, and never none.
pub proof fn a_device_bears_its_name(name: Seq<char>)
    ensures
        ({
            let line = text::trimmed(name).filter(|c: char| !crate::text::is_control(c));
            &&& line.len() == 0 ==> cleaned(name) == "a device"@
            &&& 1 <= line.len() <= 60 ==> cleaned(name) == line
            &&& line.len() > 60 ==> cleaned(name) == line.take(60)
        }),
        1 <= cleaned(name).len() <= 60,
{
    a_name_is_shown_without_control_characters(text::trimmed(name));
    reveal_strlit("a device");
}

/// A new device is in, under the key it sent, and has read nothing yet.
pub proof fn a_new_device_has_read_nothing(
    id: Uuid,
    account: Uuid,
    name: Seq<char>,
    key: Seq<u8>,
    now: u64,
)
    ensures
        ({
            let device = fresh_device(id, account, name, key, now);
            &&& device.id == id
            &&& device.account_id == account
            &&& device.name == cleaned(name)
            &&& device.public_key == key
            &&& device.created_ms == now
            &&& device.last_seen_ms is None
            &&& device.cursor == 0
            &&& device.revoked_ms is None
        }),
{
}

/// The list shows every device of the account and no other, each once, the
/// oldest first.
pub proof fn the_list_shows_the_devices_of_the_account(devices: Seq<DeviceRowView>, account: Uuid)
    ensures
        list_of(devices, account).len() == devices.filter(
            |row: DeviceRowView| row.account_id == account,
        ).len(),
        list_of(devices, account).to_multiset() == devices.filter(
            |row: DeviceRowView| row.account_id == account,
        ).map_values(|row: DeviceRowView| summary_of(row)).to_multiset(),
        forall|i: int, j: int|
            0 <= i < j < list_of(devices, account).len() ==> (#[trigger] list_of(
                devices,
                account,
            )[i]).created_ms <= (#[trigger] list_of(devices, account)[j]).created_ms,
    decreases devices.len(),
{
    reveal(Seq::filter);
    let ours = |row: DeviceRowView| row.account_id == account;
    let shown = |row: DeviceRowView| summary_of(row);
    broadcast use vstd::seq_lib::group_to_multiset_ensures;

    if devices.len() > 0 {
        let rest = devices.drop_last();
        the_list_shows_the_devices_of_the_account(rest, account);
        let list = list_of(rest, account);
        if devices.last().account_id == account {
            let next = summary_of(devices.last());
            lemma_listed(list, next);
            assert(devices.filter(ours) == rest.filter(ours).push(devices.last()));
            assert(devices.filter(ours).map_values(shown) =~= rest.filter(ours).map_values(
                shown,
            ).push(next));
        }
    } else {
        assert(devices.filter(ours).map_values(shown) =~= Seq::empty());
        assert(list_of(devices, account) =~= Seq::empty());
    }
}

/// Devices of one moment are listed in the order they came.
pub proof fn devices_of_one_moment_stay_in_order(
    devices: Seq<DeviceRowView>,
    account: Uuid,
    moment: u64,
)
    ensures
        list_of(devices, account).filter(
            |summary: DeviceSummaryView| summary.created_ms == moment,
        ) == devices.filter(
            |row: DeviceRowView| row.account_id == account && row.created_ms == moment,
        ).map_values(|row: DeviceRowView| summary_of(row)),
    decreases devices.len(),
{
    reveal(Seq::filter);
    let then = |summary: DeviceSummaryView| summary.created_ms == moment;
    let ours = |row: DeviceRowView| row.account_id == account && row.created_ms == moment;
    let shown = |row: DeviceRowView| summary_of(row);
    if devices.len() > 0 {
        let rest = devices.drop_last();
        let next = summary_of(devices.last());
        devices_of_one_moment_stay_in_order(rest, account, moment);
        lemma_listed_of_one_moment(list_of(rest, account), next, moment);
        assert(list_of(rest, account).push(next).drop_last() =~= list_of(rest, account));
        if ours(devices.last()) {
            assert(rest.filter(ours).push(devices.last()).map_values(shown) =~= rest.filter(
                ours,
            ).map_values(shown).push(next));
        }
    } else {
        assert(devices.filter(ours).map_values(shown) =~= Seq::empty());
    }
}

proof fn lemma_listed_of_one_moment(
    list: Seq<DeviceSummaryView>,
    next: DeviceSummaryView,
    moment: u64,
)
    ensures
        crate::db::devices::listed(list, next).filter(
            |summary: DeviceSummaryView| summary.created_ms == moment,
        ) == list.push(next).filter(|summary: DeviceSummaryView| summary.created_ms == moment),
    decreases list.len(),
{
    reveal(Seq::filter);
    let then = |summary: DeviceSummaryView| summary.created_ms == moment;
    assert(list.push(next).drop_last() =~= list);
    if list.len() > 0 && list.last().created_ms > next.created_ms {
        let rest = list.drop_last();
        lemma_listed_of_one_moment(rest, next, moment);
        assert(rest.push(next).drop_last() =~= rest);
        let shorter = crate::db::devices::listed(rest, next);
        assert(shorter.push(list.last()).drop_last() =~= shorter);
        assert(list.filter(then) == if then(list.last()) {
            rest.filter(then).push(list.last())
        } else {
            rest.filter(then)
        });
        assert(list.push(next).filter(then) == if then(next) {
            list.filter(then).push(next)
        } else {
            list.filter(then)
        });
        assert(rest.push(next).filter(then) == if then(next) {
            rest.filter(then).push(next)
        } else {
            rest.filter(then)
        });
        assert(shorter.push(list.last()).filter(then) == if then(list.last()) {
            shorter.filter(then).push(list.last())
        } else {
            shorter.filter(then)
        });
    }
}

proof fn lemma_listed(list: Seq<DeviceSummaryView>, next: DeviceSummaryView)
    requires
        forall|i: int, j: int|
            0 <= i < j < list.len() ==> (#[trigger] list[i]).created_ms <= (
            #[trigger] list[j]).created_ms,
    ensures
        crate::db::devices::listed(list, next).to_multiset() == list.push(next).to_multiset(),
        crate::db::devices::listed(list, next).len() == list.len() + 1,
        forall|i: int, j: int|
            0 <= i < j < crate::db::devices::listed(list, next).len() ==> (
            #[trigger] crate::db::devices::listed(list, next)[i]).created_ms <= (
            #[trigger] crate::db::devices::listed(list, next)[j]).created_ms,
        forall|i: int|
            0 <= i < crate::db::devices::listed(list, next).len() ==> (
            #[trigger] crate::db::devices::listed(list, next)[i]).created_ms <= next.created_ms
                || (list.len() > 0 && crate::db::devices::listed(list, next)[i].created_ms
                <= list.last().created_ms),
    decreases list.len(),
{
    broadcast use vstd::seq_lib::group_to_multiset_ensures;

    if list.len() > 0 && list.last().created_ms > next.created_ms {
        let rest = list.drop_last();
        lemma_listed(rest, next);
        let shorter = crate::db::devices::listed(rest, next);
        let longer = crate::db::devices::listed(list, next);
        assert(longer == shorter.push(list.last()));
        assert(rest.push(list.last()) =~= list);
        assert(longer.to_multiset() =~= list.push(next).to_multiset());
        assert forall|i: int, j: int| 0 <= i < j < longer.len() implies (
        #[trigger] longer[i]).created_ms <= (#[trigger] longer[j]).created_ms by {
            if j < shorter.len() {
                assert(longer[i] == shorter[i] && longer[j] == shorter[j]);
            } else {
                assert(longer[i] == shorter[i]);
                if rest.len() > 0 {
                    assert(list[rest.len() - 1].created_ms <= list[list.len() - 1].created_ms);
                }
            }
        }
    } else {
        let longer = list.push(next);
        assert forall|i: int, j: int| 0 <= i < j < longer.len() implies (
        #[trigger] longer[i]).created_ms <= (#[trigger] longer[j]).created_ms by {
            if j == list.len() && i < list.len() - 1 {
                assert(list[i].created_ms <= list[list.len() - 1].created_ms);
            }
        }
    }
}

/// A device that is seen was seen then, has read as far as it says but never
/// less than before, and is otherwise what it was; the others are what they
/// were.
pub proof fn a_device_is_seen(db: DbView, id: Uuid, cursor: u64, now: u64, i: int)
    requires
        db.wf(),
        0 <= i < db.devices.len(),
    ensures
        ({
            let (was, is) = (db.devices[i], seen_db(db, id, cursor, now).devices[i]);
            &&& was.id != id ==> is == was
            &&& was.id == id ==> is.last_seen_ms == Some(now)
            &&& was.id == id && was.cursor < cursor <= i64::MAX ==> is.cursor == cursor
            &&& was.id == id && !(was.cursor < cursor <= i64::MAX) ==> is.cursor == was.cursor
            &&& is.id == was.id
            &&& is.account_id == was.account_id
            &&& is.name == was.name
            &&& is.public_key == was.public_key
            &&& is.created_ms == was.created_ms
            &&& is.revoked_ms == was.revoked_ms
        }),
        seen_db(db, id, cursor, now).devices.len() == db.devices.len(),
        seen_db(db, id, cursor, now).accounts == db.accounts,
        seen_db(db, id, cursor, now).invites == db.invites,
        seen_db(db, id, cursor, now).enrolments == db.enrolments,
{
}

/// A device that is shut out is so from then on, and is otherwise what it was;
/// the others are what they were.
pub proof fn a_device_is_revoked(db: DbView, account: Uuid, id: Uuid, now: u64, i: int)
    requires
        db.wf(),
        0 <= i < db.devices.len(),
        revocable(db, account, id),
    ensures
        ({
            let (was, is) = (db.devices[i], revoked_db(db, id, now).devices[i]);
            &&& was.id != id ==> is == was
            &&& was.id == id ==> was.account_id == account && was.revoked_ms is None
            &&& was.id == id ==> is.revoked_ms == Some(now)
            &&& is.id == was.id
            &&& is.account_id == was.account_id
            &&& is.name == was.name
            &&& is.public_key == was.public_key
            &&& is.created_ms == was.created_ms
            &&& is.last_seen_ms == was.last_seen_ms
            &&& is.cursor == was.cursor
        }),
        revoked_db(db, id, now).devices.len() == db.devices.len(),
        revoked_db(db, id, now).accounts == db.accounts,
        revoked_db(db, id, now).invites == db.invites,
        revoked_db(db, id, now).enrolments == db.enrolments,
{
}

/// A device of the account that is not shut out yet may be shut out, and no
/// other.
pub proof fn who_may_be_revoked(db: DbView, account: Uuid, i: int)
    requires
        db.wf(),
        0 <= i < db.devices.len(),
    ensures
        revocable(db, account, db.devices[i].id) <==> db.devices[i].account_id == account
            && db.devices[i].revoked_ms is None,
{
    assert(db.devices[db.device_at(db.devices[i].id)].id == db.devices[i].id);
}

/// The devices that are in are those of the account that are not shut out.
pub proof fn the_devices_that_are_in(devices: Seq<DeviceRowView>, account: Uuid)
    ensures
        live_devices(devices, account) == devices.filter(
            |row: DeviceRowView| row.account_id == account && row.revoked_ms is None,
        ).len(),
    decreases devices.len(),
{
    reveal(Seq::filter);
    if devices.len() > 0 {
        the_devices_that_are_in(devices.drop_last(), account);
    }
}

/// What every device has read is no more than any device of the account has
/// that is in, and one of them has read no more; nothing, where there is none.
pub proof fn what_every_device_has_read(devices: Seq<DeviceRowView>, account: Uuid)
    ensures
        forall|i: int|
            0 <= i < devices.len() && (#[trigger] devices[i]).account_id == account
                && devices[i].revoked_ms is None ==> read_by_all(devices, account)
                <= devices[i].cursor,
        read_by_all(devices, account) > 0 ==> exists|i: int|
            0 <= i < devices.len() && (#[trigger] devices[i]).account_id == account
                && devices[i].revoked_ms is None && devices[i].cursor == read_by_all(
                devices,
                account,
            ),
        lowest_of(devices, account) is None <==> forall|i: int|
            0 <= i < devices.len() ==> (#[trigger] devices[i]).account_id != account
                || devices[i].revoked_ms is Some,
        lowest_of(devices, account) is None ==> read_by_all(devices, account) == 0,
        lowest_of(devices, account) is Some ==> exists|i: int|
            0 <= i < devices.len() && (#[trigger] devices[i]).account_id == account
                && devices[i].revoked_ms is None && devices[i].cursor == read_by_all(
                devices,
                account,
            ),
    decreases devices.len(),
{
    if devices.len() > 0 {
        let rest = devices.drop_last();
        what_every_device_has_read(rest, account);
        let last = devices.last();
        assert(devices[devices.len() - 1] == last);
        assert forall|i: int|
            0 <= i < devices.len() && (#[trigger] devices[i]).account_id == account
                && devices[i].revoked_ms is None implies read_by_all(devices, account)
            <= devices[i].cursor by {
            if i < rest.len() {
                assert(rest[i] == devices[i]);
            }
        }
        if lowest_of(rest, account) is Some {
            let j = choose|j: int|
                0 <= j < rest.len() && (#[trigger] rest[j]).account_id == account
                    && rest[j].revoked_ms is None && rest[j].cursor == read_by_all(rest, account);
            assert(devices[j] == rest[j]);
        }
        if is_live(last, account) {
            assert(devices[devices.len() - 1].account_id == account);
        } else {
            assert forall|i: int|
                lowest_of(devices, account) is None && 0 <= i < devices.len() implies (
            #[trigger] devices[i]).account_id != account || devices[i].revoked_ms is Some by {
                if i < rest.len() {
                    assert(rest[i] == devices[i]);
                }
            }
        }
    }
}

/// A code is letters and digits in groups of five, one for each byte that was
/// drawn.
pub proof fn a_code_is_groups_of_five(bytes: Seq<u8>, byte: u8)
    ensures
        code_text(Seq::empty()) == Seq::<char>::empty(),
        bytes.len() % 5 == 0 && bytes.len() > 0 ==> code_text(bytes.push(byte)) == code_text(
            bytes,
        ).push('-').push(letter(byte)),
        bytes.len() % 5 != 0 || bytes.len() == 0 ==> code_text(bytes.push(byte)) == code_text(
            bytes,
        ).push(letter(byte)),
        letter(byte) == "ABCDEFGHJKMNPQRSTVWXYZ23456789"@[byte as int % 30],
{
    assert(bytes.push(byte).drop_last() =~= bytes);
}

/// A code is told apart by its letters and digits alone: whatever else is typed
/// in between does not matter, and neither does the size of a letter.
pub proof fn a_code_is_its_letters_and_digits(code: Seq<char>, c: char)
    ensures
        normalised(Seq::empty()) == Seq::<char>::empty(),
        'A' <= c <= 'Z' || '0' <= c <= '9' ==> normalised(code.push(c)) == normalised(code).push(c),
        'a' <= c <= 'z' ==> normalised(code.push(c)).len() == normalised(code).len() + 1
            && normalised(code.push(c)).drop_last() == normalised(code) && normalised(
            code.push(c),
        ).last() as u32 == c as u32 - 32,
        !('A' <= c <= 'Z') && !('0' <= c <= '9') && !('a' <= c <= 'z') ==> normalised(code.push(c))
            == normalised(code),
        code_hash(code) == sha256_of(encode_utf8(normalised(code))),
        token_hash(code) == sha256_of(encode_utf8(code)),
{
    assert(code.push(c).drop_last() =~= code);
    if 'a' <= c <= 'z' {
        assert(normalised(code.push(c)).drop_last() =~= normalised(code));
    }
}

/// A code that was made can be used until its time is up, once.
pub proof fn a_code_can_be_used_once(
    before: DbView,
    after: DbView,
    code: Seq<char>,
    ttl_ms: u64,
    now: u64,
    then: u64,
    later_on: u64,
)
    requires
        before.wf(),
        code_made(before, after, code, ttl_ms, now, None),
        then + 1 <= now + ttl_ms,
        then < u64::MAX,
    ensures
        redeemable(after, code, then),
        !redeemable(redeemed(after, code, then), code, later_on),
        now + ttl_ms <= later_on ==> !redeemable(after, code, later_on),
        !redeemable(before, code, then),
        after.invites.len() == before.invites.len() + 1,
        after.invites.drop_last() == before.invites,
        after.invites.last().code_hash == code_hash(code),
        after.invites.last().created_ms == now,
        after.invites.last().used_ms is None,
        now + ttl_ms <= u64::MAX ==> after.invites.last().expires_ms == now + ttl_ms,
        after.accounts == before.accounts,
        after.devices == before.devices,
        after.enrolments == before.enrolments,
{
    let last = after.invites.len() - 1;
    assert(after.invites[last].code_hash == code_hash(code));
    assert(after.invites.drop_last() =~= before.invites);
    let at = crate::db::invites::invite_at(after, code_hash(code));
    assert(after.invites[at].code_hash == code_hash(code));
    if at < last {
        assert(before.invites[at].code_hash == code_hash(code));
    }
    let used = redeemed(after, code, then);
    let there = crate::db::invites::invite_at(used, code_hash(code));
    if redeemable(used, code, later_on) {
        assert(used.invites[there].code_hash == code_hash(code));
        if there != last {
            assert(before.invites[there].code_hash == code_hash(code));
        }
    }
}

/// The codes that can still be used are those unused whose time is not up.
pub proof fn the_codes_that_are_open(invites: Seq<InviteView>, now: u64)
    ensures
        open_invites(invites, now) == invites.filter(
            |row: InviteView| row.used_ms is None && row.expires_ms > now,
        ).len(),
    decreases invites.len(),
{
    reveal(Seq::filter);
    if invites.len() > 0 {
        the_codes_that_are_open(invites.drop_last(), now);
    }
}

/// A token for a device to join is for the account and by the device that asked
/// for it, and for ten minutes.
pub proof fn a_token_is_for_ten_minutes(
    before: StateView,
    after: StateView,
    account: Uuid,
    device: Uuid,
    token: Seq<char>,
    now: u64,
    tick: u64,
    made: EnrolmentToken,
    then: u64,
)
    requires
        before.db.wf(),
        invite_done(before, after, account, device, token, now, tick, Ok(made)),
        now <= 10_000_000_000_000_000_000,
    ensures
        made.token@ == token,
        made.expires_ms == now + 600_000,
        after.db.enrolments.len() == before.db.enrolments.len() + 1,
        after.db.enrolments.drop_last() == before.db.enrolments,
        after.db.enrolments.last().token_hash == token_hash(token),
        after.db.enrolments.last().account_id == account,
        after.db.enrolments.last().device_id == Some(device),
        after.db.enrolments.last().created_ms == now,
        after.db.enrolments.last().expires_ms == now + 600_000,
        after.db.enrolments.last().used_ms is None,
        after.db.enrolments.last().failures == 0,
        joins(before.db, token, then) is None,
        joins(after.db, token, then) == if then < now + 600_000 {
            Some(account)
        } else {
            None
        },
        after.db.accounts == before.db.accounts,
        after.db.devices == before.db.devices,
        after.db.invites == before.db.invites,
        after.sessions == before.sessions,
{
    let last = after.db.enrolments.len() - 1;
    assert(after.db.enrolments[last].token_hash == token_hash(token));
    assert(after.db.enrolments.drop_last() =~= before.db.enrolments);
    let at = crate::db::invites::enrolment_at(after.db, token_hash(token));
    assert(after.db.enrolments[at].token_hash == token_hash(token));
    if at < last {
        assert(before.db.enrolments[at].token_hash == token_hash(token));
    }
}

/// A device joins with a token that is good and the login key of the account it
/// is for, and is then in, under the key it sent, with a token of its own; the
/// token it joined with is used.
pub proof fn a_device_joins(
    before: StateView,
    after: StateView,
    who: Seq<char>,
    request: EnrolDevice,
    fresh: Fresh,
    admitted: Admitted,
    i: int,
)
    requires
        before.db.wf(),
        enrol_done(before, after, who, request, fresh, Ok(admitted)),
        0 <= i < before.db.enrolments.len(),
    ensures
        ({
            let account = joins(before.db, request.enrolment@, fresh.now);
            let device = after.db.devices.last();
            let is_it = before.db.enrolments[i].token_hash == token_hash(request.enrolment@);
            &&& account == Some(admitted.account_id)
            &&& before.db.has_account(admitted.account_id)
            &&& key_bytes(request.auth_key@) is Some
            &&& before.db.account(admitted.account_id).auth_verifier == sha256_of(
                key_bytes(request.auth_key@)->Some_0,
            )
            &&& after.db.devices.len() == before.db.devices.len() + 1
            &&& after.db.devices.drop_last() == before.db.devices
            &&& device.id == fresh.device
            &&& device.account_id == admitted.account_id
            &&& device.name == cleaned(request.device.name@)
            &&& key_bytes(request.device.public_key@) == Some(device.public_key)
            &&& device.created_ms == fresh.now
            &&& device.last_seen_ms is None
            &&& device.cursor == 0
            &&& device.revoked_ms is None
            &&& admitted.device_id == fresh.device
            &&& admitted.token@ == fresh.token
            &&& fresh.now + before.config.session_secs * 1000 <= u64::MAX ==> admitted.expires_ms
                == fresh.now + before.config.session_secs * 1000
            &&& after.sessions.len() > 0
            &&& after.sessions.last().token == fresh.token
            &&& after.sessions.last().session.account_id == admitted.account_id
            &&& after.sessions.last().session.device_id == fresh.device
            &&& after.sessions.last().session.expires_ms == admitted.expires_ms
            &&& after.db.enrolments.len() == before.db.enrolments.len()
            &&& is_it ==> before.db.enrolments[i].used_ms is None
            &&& is_it ==> after.db.enrolments[i].used_ms == Some(fresh.now)
            &&& !is_it ==> after.db.enrolments[i] == before.db.enrolments[i]
            &&& after.db.enrolments[i].token_hash == before.db.enrolments[i].token_hash
            &&& after.db.accounts == before.db.accounts
            &&& after.db.invites == before.db.invites
        }),
{
    assert(after.db.devices.drop_last() =~= before.db.devices);
}

/// Who has a good token, a key of its own and the login key joins; who does not
/// is not let in, and a wrong login key counts against the token.
pub proof fn who_may_join(
    before: StateView,
    after: StateView,
    who: Seq<char>,
    request: EnrolDevice,
    fresh: Fresh,
    outcome: Result<Admitted>,
)
    requires
        before.db.wf(),
        enrol_done(before, after, who, request, fresh, outcome),
    ensures
        ({
            let account = joins(before.db, request.enrolment@, fresh.now);
            let key = key_bytes(request.auth_key@);
            let good = {
                &&& key is Some
                &&& key_bytes(request.device.public_key@) is Some
                &&& account is Some
                &&& before.db.has_account(account->Some_0)
                &&& before.db.account(account->Some_0).auth_verifier == sha256_of(key->Some_0)
            };
            &&& good && !before.db.has_device(fresh.device) ==> outcome is Ok
            &&& !good ==> outcome is Err && after.db.devices == before.db.devices && after.sessions
                == before.sessions
            &&& key is None || key_bytes(request.device.public_key@) is None ==> refused(
                outcome,
            ) is Some && refused(outcome)->Some_0 is Invalid
            &&& key is Some && key_bytes(request.device.public_key@) is Some && !good ==> refused(
                outcome,
            ) == Some(Refusal::Unauthorized)
            &&& key is Some && key_bytes(request.device.public_key@) is Some && account is Some
                && !good ==> after.db == failed_db(before.db, request.enrolment@, fresh.now)
        }),
{
}

/// A wrong login key counts against the token it came with, and the fifth uses
/// it up.
pub proof fn a_token_bears_five_failures(db: DbView, token: Seq<char>, now: u64, i: int)
    requires
        db.wf(),
        0 <= i < db.enrolments.len(),
    ensures
        ({
            let (was, is) = (db.enrolments[i], failed_db(db, token, now).enrolments[i]);
            let counts = was.token_hash == token_hash(token) && was.used_ms is None;
            &&& !counts ==> is == was
            &&& counts ==> is.failures == was.failures + 1
            &&& counts && was.failures + 1 >= 5 ==> is.used_ms == Some(now)
            &&& counts && was.failures + 1 < 5 ==> is.used_ms is None
            &&& is.token_hash == was.token_hash
            &&& is.account_id == was.account_id
            &&& is.created_ms == was.created_ms
            &&& is.expires_ms == was.expires_ms
            &&& is.device_id == was.device_id
        }),
        failed_db(db, token, now).enrolments.len() == db.enrolments.len(),
        failed_db(db, token, now).accounts == db.accounts,
        failed_db(db, token, now).devices == db.devices,
        failed_db(db, token, now).invites == db.invites,
{
    if has_enrolment(db, token_hash(token)) {
        let at = crate::db::invites::enrolment_at(db, token_hash(token));
        assert(db.enrolments[at].token_hash == token_hash(token));
    }
}

/// What is over is kept for thirty days, and then goes; nothing else does.
pub proof fn what_is_over_goes_after_thirty_days(db: DbView, now: u64)
    ensures
        now >= 2_592_000_000 ==> forgotten_since(now) == now - 2_592_000_000,
        now < 2_592_000_000 ==> forgotten_since(now) == 0,
        purged_db(db, now).invites == db.invites.filter(|row: InviteView| row.expires_ms >= now),
        purged_db(db, now).enrolments == db.enrolments.filter(
            |row: crate::db::EnrolmentView| row.expires_ms >= now,
        ),
        purged_db(db, now).accounts == db.accounts,
        purged_db(db, now).devices == db.devices,
{
    lemma_invites_left(db.invites, now);
    lemma_tokens_left(db.enrolments, now);
}

proof fn lemma_invites_left(invites: Seq<InviteView>, now: u64)
    ensures
        crate::db::invites::invites_left(invites, crate::db::invites::invite_over(now))
            == invites.filter(|row: InviteView| row.expires_ms >= now),
    decreases invites.len(),
{
    reveal(Seq::filter);
    if invites.len() > 0 {
        lemma_invites_left(invites.drop_last(), now);
    }
}

proof fn lemma_tokens_left(enrolments: Seq<crate::db::EnrolmentView>, now: u64)
    ensures
        crate::db::invites::tokens_left(
            enrolments,
            crate::db::invites::Tokens::OverBefore(now).takes(),
        ) == enrolments.filter(|row: crate::db::EnrolmentView| row.expires_ms >= now),
    decreases enrolments.len(),
{
    reveal(Seq::filter);
    if enrolments.len() > 0 {
        lemma_tokens_left(enrolments.drop_last(), now);
    }
}

proof fn lemma_unused_of(enrolments: Seq<crate::db::EnrolmentView>, device: Uuid)
    ensures
        crate::db::invites::tokens_left(
            enrolments,
            crate::db::invites::Tokens::UnusedOf(device).takes(),
        ) == enrolments.filter(
            |row: crate::db::EnrolmentView| !(row.device_id == Some(device) && row.used_ms is None),
        ),
    decreases enrolments.len(),
{
    reveal(Seq::filter);
    if enrolments.len() > 0 {
        lemma_unused_of(enrolments.drop_last(), device);
    }
}

proof fn lemma_of_others(tokens: Seq<crate::auth::TokenView>, device: Uuid)
    ensures
        crate::auth::tokens_where(tokens, crate::auth::of_others(device)) == tokens.filter(
            |token: crate::auth::TokenView| token.session.device_id != device,
        ),
    decreases tokens.len(),
{
    reveal(Seq::filter);
    if tokens.len() > 0 {
        lemma_of_others(tokens.drop_last(), device);
    }
}

proof fn lemma_opened_by_others(sessions: Seq<crate::pairing::SessionView>, device: Uuid)
    ensures
        crate::pairing::sessions_where(sessions, crate::pairing::opened_by_others(device))
            == sessions.filter(|session: crate::pairing::SessionView| session.device != device),
    decreases sessions.len(),
{
    reveal(Seq::filter);
    if sessions.len() > 0 {
        lemma_opened_by_others(sessions.drop_last(), device);
    }
}

/// A device that is shut out takes with it its tokens, the tokens it made for
/// others that nobody used, the pairings it opened and its manifests; the other
/// devices, and what they have, stay.
pub proof fn who_is_shut_out_loses_everything(
    state: StateView,
    account: Uuid,
    id: Uuid,
    now: u64,
    i: int,
    record: RecordView,
)
    requires
        state.db.wf(),
        revocable(state.db, account, id),
    ensures
        ({
            let after = shut_out(state, account, id, now);
            &&& after.sessions == state.sessions.filter(
                |token: crate::auth::TokenView| token.session.device_id != id,
            )
            &&& after.db.enrolments == state.db.enrolments.filter(
                |row: crate::db::EnrolmentView|
                    !(row.device_id == Some(id) && row.used_ms is None),
            )
            &&& after.pairings == state.pairings.filter(
                |session: crate::pairing::SessionView| session.device != id,
            )
            &&& after.db.devices == revoked_db(state.db, id, now).devices
            &&& after.db.invites == state.db.invites
            &&& after.db.accounts.len() == state.db.accounts.len()
            &&& 0 <= i < state.db.accounts.len() && state.db.accounts[i].id != account
                ==> after.db.accounts[i] == state.db.accounts[i]
            &&& 0 <= i < state.db.accounts.len() && state.db.accounts[i].id == account ==> (
            after.db.accounts[i].records.contains(record)
                <==> state.db.accounts[i].records.contains(record) && !(record.kind
                == EntityKind::Manifest && record.device_id == id))
            &&& after.challenges == state.challenges
            &&& after.config == state.config
        }),
{
    lemma_of_others(state.sessions, id);
    lemma_unused_of(state.db.enrolments, id);
    lemma_opened_by_others(state.pairings, id);
    let doomed = crate::db::records::Doomed::ManifestsOf { device: id };
    let revoked = revoked_db(state.db, id, now);
    let dropped = DbView {
        enrolments: crate::db::invites::tokens_left(
            revoked.enrolments,
            crate::db::invites::Tokens::UnusedOf(id).takes(),
        ),
        ..revoked
    };
    assert(state.db.accounts == dropped.accounts);
    if dropped.has_account(account) {
        assert(dropped.accounts[dropped.account_at(account)].id == account);
    }
    if 0 <= i < state.db.accounts.len() && state.db.accounts[i].id == account {
        just_what_is_doomed_is_forgotten(state.db.accounts[i], doomed, record);
    }
}

/// A device may always be shut out by itself; by another of the account only
/// with the master password; never where it is the only one; and it is only
/// shut out where it is one of the account that is in.
pub proof fn who_may_shut_a_device_out(
    before: StateView,
    after: StateView,
    account: Uuid,
    device: Uuid,
    id: Uuid,
    key: Option<Seq<char>>,
    now: u64,
    tick: u64,
    outcome: Result<()>,
)
    requires
        revoke_done(before, after, account, device, id, key, now, tick, outcome),
    ensures
        ({
            let live = live_devices(before.db.devices, account);
            let proved = key is Some && key_bytes(key->Some_0) is Some && before.db.has_account(
                account,
            ) && before.db.account(account).auth_verifier == sha256_of(
                key_bytes(key->Some_0)->Some_0,
            );
            &&& outcome is Ok ==> live >= 2 && revocable(before.db, account, id) && (id == device
                || proved)
            &&& id == device && live >= 2 && revocable(before.db, account, id) ==> outcome is Ok
                && after == shut_out(before, account, id, now)
            &&& outcome is Ok ==> after.db == shut_out(before, account, id, now).db
                && after.sessions == shut_out(before, account, id, now).sessions && after.pairings
                == shut_out(before, account, id, now).pairings
            &&& outcome is Err ==> after.db == before.db && after.sessions == before.sessions
                && after.pairings == before.pairings
            &&& id != device && key is None ==> refused(outcome) == Some(Refusal::WrongPassword)
                && after == before
            &&& proved && live >= 2 && revocable(before.db, account, id) ==> outcome is Ok
                || refused(outcome) == Some(Refusal::RateLimited)
        }),
{
}

/// A device that is added is kept as it came, under an id that is new, in an
/// account that is there.
pub proof fn a_device_is_added(
    before: DbView,
    after: DbView,
    id: Uuid,
    account: Uuid,
    name: Seq<char>,
    key: Seq<u8>,
    now: u64,
    added: Result<Device>,
)
    requires
        add_done(before, after, id, account, name, key, now, added),
    ensures
        added is Ok <==> before.has_account(account) && !before.has_device(id),
        added is Err ==> after == before && refused(added)->Some_0 is Database,
        added is Ok ==> ({
            let row = after.devices.last();
            let device = added->Ok_0@;
            &&& after.devices.len() == before.devices.len() + 1
            &&& after.devices.drop_last() == before.devices
            &&& row.id == id
            &&& row.account_id == account
            &&& row.name == cleaned(name)
            &&& row.public_key == key
            &&& row.created_ms == now
            &&& row.last_seen_ms is None
            &&& row.cursor == 0
            &&& row.revoked_ms is None
            &&& device.id == id
            &&& device.account_id == account
            &&& device.name == cleaned(name)
            &&& device.public_key == key
            &&& device.cursor == 0
            &&& !device.revoked
            &&& after.accounts == before.accounts
            &&& after.invites == before.invites
            &&& after.enrolments == before.enrolments
        }),
{
    if added is Ok {
        assert(after.devices.drop_last() =~= before.devices);
    }
}

/// What is listed is shown, each of it.
pub proof fn what_is_listed_is_shown(summaries: Seq<DeviceSummary>, i: int)
    ensures
        summaries_view(summaries).len() == summaries.len(),
        0 <= i < summaries.len() ==> summaries_view(summaries)[i] == summaries[i]@,
{
}

} // verus!
