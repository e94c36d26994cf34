//! The commands for a shell on the box: what they look up, and what they say.

use crate::calendar::{date, date_text, day_of, DAY_MS};
use crate::db::devices::{self, revocable, revoked_db, Device, DeviceSummary, DeviceSummaryView};
use crate::db::invites::{self, tokens_left, Tokens};
use crate::db::records::{self, forgotten, Doomed};
use crate::db::{Db, DbView};
use crate::ids::{uuid_text, Uuid};
use crate::{now_ms, text};
use vstd::prelude::*;
use vstd::string::StringExecFns;

verus! {

/// The day of a time, as it is written.
pub open spec fn day_text(ms: u64) -> Seq<char> {
    date_text(day_of((ms / DAY_MS) as int))
}

/// One account, in a line.
pub fn account_line(id: Uuid, live: usize, created_ms: u64) -> (line: String)
    ensures
        line@ == uuid_text(id) + "  "@ + text::decimal_text(live as nat) + " device(s)  since "@
            + day_text(created_ms),
{
    id.hyphenated().concat("  ").concat(text::decimal(live as u128).as_str()).concat(
        " device(s)  since ",
    ).concat(date(created_ms).as_str())
}

/// What is said of a device: when it was shut out, or when it was last here.
pub open spec fn device_state(device: DeviceSummaryView) -> Seq<char> {
    match device.revoked_ms {
        Some(when) => "revoked "@ + day_text(when),
        None => match device.last_seen_ms {
            Some(when) => "last seen "@ + day_text(when),
            None => "never here"@,
        },
    }
}

/// One device, in a line.
pub fn device_line(device: &DeviceSummary) -> (line: String)
    ensures
        line@ == uuid_text(device.id) + "  "@ + device@.name + "  "@ + device_state(device@),
{
    let state: String = match device.revoked_ms {
        Some(when) => "revoked ".to_owned().concat(date(when).as_str()),
        None => match device.last_seen_ms {
            Some(when) => "last seen ".to_owned().concat(date(when).as_str()),
            None => "never here".to_owned(),
        },
    };
    device.id.hyphenated().concat("  ").concat(device.name.as_str()).concat("  ").concat(
        state.as_str(),
    )
}

/// One backup, in a line: its name, and its size in whole KiB.
pub fn backup_line(name: &str, bytes: u64) -> (line: String)
    ensures
        line@ == name@ + "  "@ + text::decimal_text(((bytes + 1023) / 1024) as nat) + " KiB"@,
{
    let kib: u128 = (bytes as u128 + 1023) / 1024;
    name.to_owned().concat("  ").concat(text::decimal(kib).as_str()).concat(" KiB")
}

/// The database once a device was shut out from the command line: what it made
/// goes with it, as it does when another device shuts it out.
pub open spec fn revoked_from_here(db: DbView, id: Uuid, now: u64) -> DbView {
    let account = db.device(id).account_id;
    let revoked = if revocable(db, account, id) {
        revoked_db(db, id, now)
    } else {
        db
    };
    let dropped = DbView {
        enrolments: tokens_left(revoked.enrolments, Tokens::UnusedOf(id).takes()),
        ..revoked
    };
    forgotten(dropped, account, Doomed::ManifestsOf { device: id })
}

/// [`revoke`] at a given time.
pub fn revoke_at(db: &mut Db, device: Uuid, now: u64) -> (revoked: Result<bool, String>)
    requires
        old(db)@.wf(),
    ensures
        final(db)@.wf(),
        revoked is Ok <==> old(db)@.has_device(device),
        revoked matches Ok(revoked) ==> {
            &&& revoked == (old(db)@.device(device).revoked_ms is None)
            &&& final(db)@ == revoked_from_here(old(db)@, device, now)
        },
        revoked matches Err(what) ==> what@ == "no device "@ + uuid_text(device) && final(db)@
            == old(db)@,
{
    let found: Device = match devices::get(db, device) {
        Some(found) => found,
        None => {
            return Err("no device ".to_owned().concat(device.hyphenated().as_str()));
        },
    };
    let revoked: bool = devices::revoke_at(db, found.account_id, device, now);
    let _ = invites::drop_enrolments_of(db, device);
    let _ = records::drop_manifests_of(db, found.account_id, device);
    Ok(revoked)
}

/// Shut a device out. Returns whether it was in until now. Its event stream in
/// the running server notices within half a minute.
pub fn revoke(db: &mut Db, device: Uuid) -> (revoked: Result<bool, String>)
    requires
        old(db)@.wf(),
    ensures
        final(db)@.wf(),
        revoked is Ok <==> old(db)@.has_device(device),
        revoked matches Ok(revoked) ==> {
            &&& revoked == (old(db)@.device(device).revoked_ms is None)
            &&& exists|now: u64|
                final(db)@ == #[trigger] revoked_from_here(old(db)@, device, now)
        },
        revoked matches Err(what) ==> what@ == "no device "@ + uuid_text(device) && final(db)@
            == old(db)@,
{
    let now: u64 = now_ms();
    revoke_at(db, device, now)
}

} // verus!
