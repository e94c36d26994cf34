//! Devices: a name, a public key, and how far it has read.
//!
//! A device proves who it is by signing a challenge with the key it enrolled,
//! so nothing that travels can be replayed by whoever overhears it. Revoking
//! one is a column, not a deletion: what it already read it already has, and
//! the list should still show that the laptop was here until Tuesday.

use crate::db::{lemma_changed_device_wf, Db, DbView, DeviceRow, DeviceRowView};
use crate::error::{ApiError, Refusal, Result};
use crate::ids::{is_v7, Uuid};
use crate::{now_ms, text};
use vstd::prelude::*;

verus! {

#[derive(Debug)]
pub struct Device {
    pub id: Uuid,
    pub account_id: Uuid,
    pub name: String,
    pub public_key: [u8; 32],
    pub cursor: u64,
    pub revoked: bool,
}

/// A [`Device`] by its contents.
pub struct DeviceView {
    pub id: Uuid,
    pub account_id: Uuid,
    pub name: Seq<char>,
    pub public_key: Seq<u8>,
    pub cursor: u64,
    pub revoked: bool,
}

impl View for Device {
    type V = DeviceView;

    open spec fn view(&self) -> DeviceView {
        DeviceView {
            id: self.id,
            account_id: self.account_id,
            name: self.name@,
            public_key: self.public_key@,
            cursor: self.cursor,
            revoked: self.revoked,
        }
    }
}

/// What the device list shows. No key material: the list is for people.
#[derive(Debug)]
pub struct DeviceSummary {
    pub id: Uuid,
    pub name: String,
    pub created_ms: u64,
    pub last_seen_ms: Option<u64>,
    pub revoked_ms: Option<u64>,
}

/// A [`DeviceSummary`] by its contents.
pub struct DeviceSummaryView {
    pub id: Uuid,
    pub name: Seq<char>,
    pub created_ms: u64,
    pub last_seen_ms: Option<u64>,
    pub revoked_ms: Option<u64>,
}

impl View for DeviceSummary {
    type V = DeviceSummaryView;

    open spec fn view(&self) -> DeviceSummaryView {
        DeviceSummaryView {
            id: self.id,
            name: self.name@,
            created_ms: self.created_ms,
            last_seen_ms: self.last_seen_ms,
            revoked_ms: self.revoked_ms,
        }
    }
}

/// Summaries by their views.
pub open spec fn summaries_view(summaries: Seq<DeviceSummary>) -> Seq<DeviceSummaryView> {
    summaries.map_values(|summary: DeviceSummary| summary@)
}

/// A device as the rest of the server sees it.
pub open spec fn device_of(row: DeviceRowView) -> DeviceView {
    DeviceView {
        id: row.id,
        account_id: row.account_id,
        name: row.name,
        public_key: row.public_key,
        cursor: row.cursor,
        revoked: row.revoked_ms is Some,
    }
}

/// A device as the list shows it.
pub open spec fn summary_of(row: DeviceRowView) -> DeviceSummaryView {
    DeviceSummaryView {
        id: row.id,
        name: row.name,
        created_ms: row.created_ms,
        last_seen_ms: row.last_seen_ms,
        revoked_ms: row.revoked_ms,
    }
}

/// A text without its control characters.
pub open spec fn printable(name: Seq<char>) -> Seq<char>
    decreases name.len(),
{
    if name.len() == 0 {
        Seq::empty()
    } else if text::is_control(name.last()) {
        printable(name.drop_last())
    } else {
        printable(name.drop_last()).push(name.last())
    }
}

/// How many characters of a device's name are kept.
pub const NAME_CHARS: usize = 60;

/// A name for the device list: without the white space around it and the
/// control characters in it, and not too long.
pub open spec fn cleaned(name: Seq<char>) -> Seq<char> {
    let line = printable(text::trimmed(name));
    if line.len() == 0 {
        "a device"@
    } else if line.len() > NAME_CHARS {
        line.take(NAME_CHARS as int)
    } else {
        line
    }
}

/// A name for the device list: one line, not a novel, and nothing that could
/// pass for markup in a log or a list.
pub fn clean_name(name: &str) -> (clean: String)
    ensures
        clean@ == cleaned(name@),
{
    let all: Vec<char> = text::chars_of(name);
    let inner: Vec<char> = text::trim_chars(&all);
    let mut line: Vec<char> = Vec::new();
    let mut kept: Vec<char> = Vec::new();
    assert(printable(inner@.take(0)) =~= Seq::empty());
    for i in 0..inner.len()
        invariant
            line@ == printable(inner@.take(i as int)),
            kept@ == line@.take(if line@.len() > NAME_CHARS {
                NAME_CHARS as int
            } else {
                line@.len() as int
            }),
    {
        let c: char = inner[i];
        assert(inner@.take(i + 1).drop_last() =~= inner@.take(i as int));
        if !c.is_control() {
            if line.len() < NAME_CHARS {
                kept.push(c);
            }
            line.push(c);
            assert(kept@ =~= line@.take(if line@.len() > NAME_CHARS {
                NAME_CHARS as int
            } else {
                line@.len() as int
            }));
        }
    }
    assert(inner@.take(inner@.len() as int) =~= inner@);
    assert(line@.take(line@.len() as int) =~= line@);
    if kept.is_empty() {
        "a device".to_owned()
    } else {
        text::string_of(kept.as_slice())
    }
}

/// Whatever was typed, what is listed is a short line of printable characters
/// with something in it.
pub proof fn a_clean_name_is_one_harmless_line(name: Seq<char>)
    ensures
        1 <= cleaned(name).len() <= NAME_CHARS,
        forall|i: int| 0 <= i < cleaned(name).len() ==> !text::is_control(#[trigger] cleaned(name)[i]),
{
    reveal_strlit("a device");
    lemma_printable(text::trimmed(name));
}

proof fn lemma_printable(name: Seq<char>)
    ensures
        forall|i: int|
            0 <= i < printable(name).len() ==> !text::is_control(#[trigger] printable(name)[i]),
    decreases name.len(),
{
    if name.len() > 0 {
        lemma_printable(name.drop_last());
        let rest = printable(name.drop_last());
        let all = printable(name);
        assert forall|i: int| 0 <= i < all.len() implies !text::is_control(#[trigger] all[i]) by {
            if i < rest.len() {
                assert(all[i] == rest[i]);
            }
        }
    }
}

/// A device as it begins: it has read nothing yet.
pub open spec fn fresh_device(
    id: Uuid,
    account_id: Uuid,
    name: Seq<char>,
    public_key: Seq<u8>,
    now: u64,
) -> DeviceRowView {
    DeviceRowView {
        id,
        account_id,
        name: cleaned(name),
        public_key,
        created_ms: now,
        last_seen_ms: None,
        cursor: 0,
        revoked_ms: None,
    }
}

/// What adding a device under a given id and at a given time does: it is there
/// afterwards, unless the id was taken or there is no such account.
pub open spec fn add_done(
    before: DbView,
    after: DbView,
    id: Uuid,
    account_id: Uuid,
    name: Seq<char>,
    public_key: Seq<u8>,
    now: u64,
    added: Result<Device>,
) -> bool {
    let row = fresh_device(id, account_id, name, public_key, now);
    match added {
        Ok(device) => {
            &&& !before.has_device(id) && before.has_account(account_id)
            &&& device@ == device_of(row)
            &&& after == (DbView { devices: before.devices.push(row), ..before })
        },
        Err(error) => {
            &&& after == before
            &&& if before.has_device(id) {
                error@ == Refusal::Database("UNIQUE constraint failed: devices.id"@)
            } else {
                &&& !before.has_account(account_id)
                &&& error@ == Refusal::Database("FOREIGN KEY constraint failed"@)
            }
        },
    }
}

/// [`add`] under a given id and at a given time.
pub fn add_at(
    db: &mut Db,
    id: Uuid,
    account_id: Uuid,
    name: &str,
    public_key: &[u8; 32],
    now: u64,
) -> (added: Result<Device>)
    requires
        old(db)@.wf(),
    ensures
        final(db)@.wf(),
        add_done(old(db)@, final(db)@, id, account_id, name@, public_key@, now, added),
{
    if db.find_device(id).is_some() {
        return Err(ApiError::Database("UNIQUE constraint failed: devices.id".to_owned()));
    }
    if db.find_account(account_id).is_none() {
        return Err(ApiError::Database("FOREIGN KEY constraint failed".to_owned()));
    }
    let name: String = clean_name(name);
    let row: DeviceRow = DeviceRow {
        id,
        account_id,
        name: name.clone(),
        public_key: *public_key,
        created_ms: now,
        last_seen_ms: None,
        cursor: 0,
        revoked_ms: None,
    };
    proof {
        assert forall|i: int| 0 <= i < db@.devices.len() implies (#[trigger] db@.devices[i]).id
            != id by {
            assert(!old(db)@.has_device(id));
        }
    }
    db.devices.push(row);
    assert(db@.devices =~= old(db)@.devices.push(row@));
    Ok(Device { id, account_id, name, public_key: *public_key, cursor: 0, revoked: false })
}

/// Another device for an account.
pub fn add(
    db: &mut Db,
    account_id: Uuid,
    name: &str,
    public_key: &[u8; 32],
) -> (added: Result<Device>)
    requires
        old(db)@.wf(),
    ensures
        final(db)@.wf(),
        exists|id: Uuid, now: u64|
            is_v7(id.value) && #[trigger] add_done(
                old(db)@,
                final(db)@,
                id,
                account_id,
                name@,
                public_key@,
                now,
                added,
            ),
{
    let id: Uuid = Uuid::now_v7();
    let now: u64 = now_ms();
    add_at(db, id, account_id, name, public_key, now)
}

/// The device of that name, if there is one.
pub fn get(db: &Db, id: Uuid) -> (device: Option<Device>)
    requires
        db@.wf(),
    ensures
        device is Some <==> db@.has_device(id),
        device matches Some(device) ==> device@ == device_of(db@.device(id)),
{
    match db.find_device(id) {
        Some(at) => {
            assert(db@.devices[at as int] == db.devices[at as int]@);
            let row: &DeviceRow = &db.devices[at];
            Some(
                Device {
                    id,
                    account_id: row.account_id,
                    name: row.name.clone(),
                    public_key: row.public_key,
                    cursor: row.cursor,
                    revoked: row.revoked_ms.is_some(),
                },
            )
        },
        None => None,
    }
}

/// A list with one more device in it, behind every one that is not newer.
pub open spec fn listed(list: Seq<DeviceSummaryView>, next: DeviceSummaryView) -> Seq<
    DeviceSummaryView,
>
    decreases list.len(),
{
    if list.len() > 0 && list.last().created_ms > next.created_ms {
        listed(list.drop_last(), next).push(list.last())
    } else {
        list.push(next)
    }
}

/// The devices of an account, revoked ones too, from the oldest to the newest.
pub open spec fn list_of(devices: Seq<DeviceRowView>, account_id: Uuid) -> Seq<DeviceSummaryView>
    decreases devices.len(),
{
    if devices.len() == 0 {
        Seq::empty()
    } else {
        let rest = list_of(devices.drop_last(), account_id);
        if devices.last().account_id == account_id {
            listed(rest, summary_of(devices.last()))
        } else {
            rest
        }
    }
}

/// Put a device in its place in the list.
fn insert_summary(list: &mut Vec<DeviceSummary>, next: DeviceSummary)
    ensures
        summaries_view(final(list)@) == listed(summaries_view(old(list)@), next@),
{
    let ghost before = summaries_view(list@);
    let mut at: usize = list.len();
    assert(before.take(at as int) =~= before);
    assert(listed(before, next@) =~= listed(before.take(at as int), next@) + before.skip(at as int));
    while at > 0 && list[at - 1].created_ms > next.created_ms
        invariant
            at <= list.len(),
            list@ == old(list)@,
            before == summaries_view(list@),
            listed(before, next@) == listed(before.take(at as int), next@) + before.skip(at as int),
        decreases at,
    {
        proof {
            assert(before[at - 1] == list@[at - 1]@);
            assert(before.take(at as int).drop_last() =~= before.take(at - 1));
            assert(before.take(at as int).last() == before[at - 1]);
            assert(listed(before.take(at - 1), next@).push(before[at - 1]) + before.skip(at as int)
                =~= listed(before.take(at - 1), next@) + before.skip(at - 1));
        }
        at = at - 1;
    }
    proof {
        if at > 0 {
            assert(before.take(at as int).last() == list@[at - 1]@);
        }
    }
    list.insert(at, next);
    assert(summaries_view(list@) =~= before.take(at as int).push(next@) + before.skip(at as int));
}

/// The devices of an account, for its owner to look at.
pub fn list(db: &Db, account_id: Uuid) -> (devices: Vec<DeviceSummary>)
    ensures
        summaries_view(devices@) == list_of(db@.devices, account_id),
{
    let mut devices: Vec<DeviceSummary> = Vec::new();
    assert(summaries_view(devices@) =~= list_of(db@.devices.take(0), account_id));
    for i in 0..db.devices.len()
        invariant
            summaries_view(devices@) == list_of(db@.devices.take(i as int), account_id),
    {
        let row: &DeviceRow = &db.devices[i];
        assert(db@.devices.take(i + 1).drop_last() =~= db@.devices.take(i as int));
        assert(db@.devices.take(i + 1).last() == row@);
        if row.account_id == account_id {
            insert_summary(
                &mut devices,
                DeviceSummary {
                    id: row.id,
                    name: row.name.clone(),
                    created_ms: row.created_ms,
                    last_seen_ms: row.last_seen_ms,
                    revoked_ms: row.revoked_ms,
                },
            );
        }
    }
    assert(db@.devices.take(db@.devices.len() as int) =~= db@.devices);
    devices
}

/// A device that was here, and has read at least that far. It never steps
/// back, and a number that no account can have reached moves nothing.
pub open spec fn seen_device(row: DeviceRowView, cursor: u64, now: u64) -> DeviceRowView {
    DeviceRowView {
        last_seen_ms: Some(now),
        cursor: if row.cursor < cursor <= i64::MAX {
            cursor
        } else {
            row.cursor
        },
        ..row
    }
}

/// The database once a device was noted to be here at a given time.
pub open spec fn seen_db(db: DbView, id: Uuid, cursor: u64, now: u64) -> DbView {
    if db.has_device(id) {
        db.with_device(id, seen_device(db.device(id), cursor, now))
    } else {
        db
    }
}

/// [`seen`] at a given time.
pub fn seen_at(db: &mut Db, id: Uuid, cursor: u64, now: u64)
    requires
        old(db)@.wf(),
    ensures
        final(db)@.wf(),
        final(db)@ == seen_db(old(db)@, id, cursor, now),
{
    match db.find_device(id) {
        Some(at) => {
            let ghost before = db.devices[at as int]@;
            assert(db@.devices[at as int] == before);
            if db.devices[at].cursor < cursor && cursor <= i64::MAX as u64 {
                db.devices[at].cursor = cursor;
            }
            db.devices[at].last_seen_ms = Some(now);
            assert(db@.devices =~= old(db)@.devices.update(
                at as int,
                seen_device(before, cursor, now),
            ));
            proof {
                lemma_changed_device_wf(old(db)@, at as int, seen_device(before, cursor, now));
            }
        },
        None => {},
    }
}

/// Note that a device was here, and how far it has read.
pub fn seen(db: &mut Db, id: Uuid, cursor: u64)
    requires
        old(db)@.wf(),
    ensures
        final(db)@.wf(),
        exists|now: u64| final(db)@ == #[trigger] seen_db(old(db)@, id, cursor, now),
{
    let now: u64 = now_ms();
    seen_at(db, id, cursor, now)
}

/// Whether an account can shut that device out: it is its own, and still in.
pub open spec fn revocable(db: DbView, account_id: Uuid, id: Uuid) -> bool {
    db.has_device(id) && db.device(id).account_id == account_id && db.device(id).revoked_ms is None
}

/// The database once a device was shut out at a given time.
pub open spec fn revoked_db(db: DbView, id: Uuid, now: u64) -> DbView {
    db.with_device(id, DeviceRowView { revoked_ms: Some(now), ..db.device(id) })
}

/// [`revoke`] at a given time.
pub fn revoke_at(db: &mut Db, account_id: Uuid, id: Uuid, now: u64) -> (revoked: bool)
    requires
        old(db)@.wf(),
    ensures
        final(db)@.wf(),
        revoked == revocable(old(db)@, account_id, id),
        final(db)@ == if revoked {
            revoked_db(old(db)@, id, now)
        } else {
            old(db)@
        },
{
    match db.find_device(id) {
        Some(at) => {
            let ghost before = db.devices[at as int]@;
            assert(db@.devices[at as int] == before);
            if db.devices[at].account_id == account_id && db.devices[at].revoked_ms.is_none() {
                db.devices[at].revoked_ms = Some(now);
                assert(db@.devices =~= old(db)@.devices.update(
                    at as int,
                    DeviceRowView { revoked_ms: Some(now), ..before },
                ));
                proof {
                    lemma_changed_device_wf(
                        old(db)@,
                        at as int,
                        DeviceRowView { revoked_ms: Some(now), ..before },
                    );
                }
                true
            } else {
                false
            }
        },
        None => false,
    }
}

/// Shut a device out. Only for an account's own devices: the caller passes
/// the account it is authenticated as, so a device id from another account
/// finds nothing.
pub fn revoke(db: &mut Db, account_id: Uuid, id: Uuid) -> (revoked: bool)
    requires
        old(db)@.wf(),
    ensures
        final(db)@.wf(),
        revoked == revocable(old(db)@, account_id, id),
        revoked ==> exists|now: u64| final(db)@ == #[trigger] revoked_db(old(db)@, id, now),
        !revoked ==> final(db)@ == old(db)@,
{
    let now: u64 = now_ms();
    revoke_at(db, account_id, id, now)
}

/// Whether a device still reads for an account.
pub open spec fn is_live(row: DeviceRowView, account_id: Uuid) -> bool {
    row.account_id == account_id && row.revoked_ms is None
}

/// How many of these devices still read for an account.
pub open spec fn live_devices(devices: Seq<DeviceRowView>, account_id: Uuid) -> nat
    decreases devices.len(),
{
    if devices.len() == 0 {
        0
    } else {
        live_devices(devices.drop_last(), account_id) + if is_live(devices.last(), account_id) {
            1nat
        } else {
            0
        }
    }
}

/// How many devices can still read. Revoking the last one would leave an
/// account nobody can reach, so the caller checks this first.
pub fn live_count(db: &Db, account_id: Uuid) -> (live: usize)
    ensures
        live == live_devices(db@.devices, account_id),
{
    let mut live: usize = 0;
    for i in 0..db.devices.len()
        invariant
            live == live_devices(db@.devices.take(i as int), account_id),
            live <= i,
    {
        assert(db@.devices.take(i + 1).drop_last() =~= db@.devices.take(i as int));
        assert(db@.devices.take(i + 1).last() == db.devices[i as int]@);
        if db.devices[i].account_id == account_id && db.devices[i].revoked_ms.is_none() {
            live = live + 1;
        }
    }
    assert(db@.devices.take(db@.devices.len() as int) =~= db@.devices);
    live
}

/// The lowest cursor of these devices that still read for an account, if any
/// does.
pub open spec fn lowest_of(devices: Seq<DeviceRowView>, account_id: Uuid) -> Option<u64>
    decreases devices.len(),
{
    if devices.len() == 0 {
        None
    } else {
        let rest = lowest_of(devices.drop_last(), account_id);
        if !is_live(devices.last(), account_id) {
            rest
        } else {
            match rest {
                Some(lowest) if lowest <= devices.last().cursor => Some(lowest),
                _ => Some(devices.last().cursor),
            }
        }
    }
}

/// How far every device has read that still reads for an account; nothing at
/// all where none does.
pub open spec fn read_by_all(devices: Seq<DeviceRowView>, account_id: Uuid) -> u64 {
    match lowest_of(devices, account_id) {
        Some(lowest) => lowest,
        None => 0,
    }
}

/// The lowest cursor of the devices that still read, which is how far the
/// server may forget tombstones nobody needs any more.
pub fn lowest_cursor(db: &Db, account_id: Uuid) -> (lowest: u64)
    ensures
        lowest == read_by_all(db@.devices, account_id),
{
    let mut lowest: Option<u64> = None;
    for i in 0..db.devices.len()
        invariant
            lowest == lowest_of(db@.devices.take(i as int), account_id),
    {
        assert(db@.devices.take(i + 1).drop_last() =~= db@.devices.take(i as int));
        assert(db@.devices.take(i + 1).last() == db.devices[i as int]@);
        if db.devices[i].account_id == account_id && db.devices[i].revoked_ms.is_none() {
            let cursor: u64 = db.devices[i].cursor;
            match lowest {
                Some(before) if before <= cursor => {},
                _ => {
                    lowest = Some(cursor);
                },
            }
        }
    }
    assert(db@.devices.take(db@.devices.len() as int) =~= db@.devices);
    match lowest {
        Some(lowest) => lowest,
        None => 0,
    }
}

/// What nobody has read is decided by the device that is furthest behind: no
/// device that still reads has read less than what all have read, and a device
/// that is gone holds nothing back.
pub proof fn the_device_furthest_behind_decides(
    devices: Seq<DeviceRowView>,
    account_id: Uuid,
    i: int,
)
    requires
        0 <= i < devices.len(),
        is_live(devices[i], account_id),
    ensures
        read_by_all(devices, account_id) <= devices[i].cursor,
        exists|j: int|
            0 <= j < devices.len() && is_live(#[trigger] devices[j], account_id) && read_by_all(
                devices,
                account_id,
            ) == devices[j].cursor,
    decreases devices.len(),
{
    let rest = devices.drop_last();
    let last = devices.len() - 1;
    if i < last {
        assert(rest[i] == devices[i]);
        the_device_furthest_behind_decides(rest, account_id, i);
        lemma_some_device_is_lowest(rest, account_id, i);
        let j = choose|j: int|
            0 <= j < rest.len() && is_live(#[trigger] rest[j], account_id) && read_by_all(
                rest,
                account_id,
            ) == rest[j].cursor;
        assert(devices[j] == rest[j]);
        assert(devices[last] == devices.last());
    } else {
        assert(devices[last] == devices.last());
        if let Some(lowest) = lowest_of(rest, account_id) {
            if lowest <= devices.last().cursor {
                lemma_lowest_is_somebodys(rest, account_id);
                let j = choose|j: int|
                    0 <= j < rest.len() && is_live(#[trigger] rest[j], account_id)
                        && rest[j].cursor == lowest;
                assert(devices[j] == rest[j]);
            }
        }
    }
}

proof fn lemma_some_device_is_lowest(devices: Seq<DeviceRowView>, account_id: Uuid, i: int)
    requires
        0 <= i < devices.len(),
        is_live(devices[i], account_id),
    ensures
        lowest_of(devices, account_id) is Some,
    decreases devices.len(),
{
    if i < devices.len() - 1 {
        assert(devices.drop_last()[i] == devices[i]);
        lemma_some_device_is_lowest(devices.drop_last(), account_id, i);
    }
}

proof fn lemma_lowest_is_somebodys(devices: Seq<DeviceRowView>, account_id: Uuid)
    requires
        lowest_of(devices, account_id) is Some,
    ensures
        exists|j: int|
            0 <= j < devices.len() && is_live(#[trigger] devices[j], account_id)
                && devices[j].cursor == lowest_of(devices, account_id)->Some_0,
    decreases devices.len(),
{
    let rest = devices.drop_last();
    let last = devices.len() - 1;
    assert(devices[last] == devices.last());
    if !is_live(devices.last(), account_id) || (lowest_of(rest, account_id) is Some && lowest_of(
        rest,
        account_id,
    )->Some_0 <= devices.last().cursor) {
        lemma_lowest_is_somebodys(rest, account_id);
        let j = choose|j: int|
            0 <= j < rest.len() && is_live(#[trigger] rest[j], account_id) && rest[j].cursor
                == lowest_of(rest, account_id)->Some_0;
        assert(devices[j] == rest[j]);
    }
}

/// How far a device has read only ever goes up.
pub proof fn the_cursor_only_moves_forward(row: DeviceRowView, cursor: u64, now: u64)
    ensures
        seen_device(row, cursor, now).cursor >= row.cursor,
        cursor <= i64::MAX ==> seen_device(row, cursor, now).cursor >= cursor,
{
}

/// A device is shut out once, and stays shut out.
pub proof fn a_device_is_revoked_once(db: DbView, account_id: Uuid, id: Uuid, now: u64)
    requires
        db.wf(),
        revocable(db, account_id, id),
    ensures
        ({
            let after = revoked_db(db, id, now);
            &&& !revocable(after, account_id, id)
            &&& after.has_device(id) && device_of(after.device(id)).revoked
            &&& live_devices(after.devices, account_id) + 1 == live_devices(db.devices, account_id)
        }),
{
    let at = db.device_at(id);
    let after = revoked_db(db, id, now);
    assert(after.devices[at].id == id);
    assert(db.devices[after.device_at(id)].id == id);
    lemma_one_less(db.devices, at, after.devices[at], account_id);
}

proof fn lemma_one_less(
    devices: Seq<DeviceRowView>,
    at: int,
    changed: DeviceRowView,
    account_id: Uuid,
)
    requires
        0 <= at < devices.len(),
        is_live(devices[at], account_id),
        !is_live(changed, account_id),
    ensures
        live_devices(devices.update(at, changed), account_id) + 1 == live_devices(
            devices,
            account_id,
        ),
    decreases devices.len(),
{
    let after = devices.update(at, changed);
    if at == devices.len() - 1 {
        assert(after.drop_last() =~= devices.drop_last());
    } else {
        assert(after.drop_last() =~= devices.drop_last().update(at, changed));
        lemma_one_less(devices.drop_last(), at, changed, account_id);
    }
}

} // verus!
