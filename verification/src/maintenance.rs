//! What the server does about itself: backups, forgetting what nobody needs
//! any more, and the code that gets the first device in.

use crate::b64;
use crate::calendar::{stamp, stamp_text};
use crate::config::Config;
use crate::db::accounts::Account;
use crate::db::devices::{self, read_by_all};
use crate::db::invites::{self, forgotten_since, purged_db};
use crate::db::records::{self, forgotten, mailbox, select, Doomed};
use crate::db::{Db, DbView};
use crate::ids::Uuid;
use crate::{now_ms, text};
use vstd::prelude::*;
use vstd::string::StringExecFns;
use vstd::utf8::encode_utf8;

verus! {

/// Backups kept: a week of nights, the ones before updates counted in. Each
/// is a whole copy of the database, so this number times the database is
/// what they take on disk.
pub const BACKUPS_KEPT: usize = 7;

/// How old a tombstone has to be to be forgotten: a season.
pub const TOMBSTONES_KEPT_MS: u64 = 90 * 24 * 60 * 60 * 1000;

/// How often the session tokens that ran out are swept.
pub const SWEEP_SECS: u64 = 5 * 60;

/// How long after the start the first night is. Not at once: a server that is
/// restarted in a loop should not write a backup every time.
pub const FIRST_NIGHT_SECS: u64 = 10 * 60;

/// How long a night is from the next.
pub const NIGHT_SECS: u64 = 24 * 60 * 60;

/// One thing a night brings.
#[derive(Debug, Clone, Copy, PartialEq, Eq, Structural)]
pub enum NightStep {
    /// See whether a backup leaves the disk with room to spare.
    CheckRoom,
    /// Write a backup.
    Backup,
    /// Keep the newest backups and remove the rest.
    KeepNewest,
    /// Forget what nobody needs any more.
    Purge,
    /// Sleep until the next night.
    Sleep,
}

/// What follows a step of a night, done or failed: without room, or where the
/// backup fails, no old backup goes; what nobody needs is forgotten anyway.
pub fn night_step(step: NightStep, done: bool) -> (next: NightStep)
    ensures
        next == match step {
            NightStep::CheckRoom => if done {
                NightStep::Backup
            } else {
                NightStep::Purge
            },
            NightStep::Backup => if done {
                NightStep::KeepNewest
            } else {
                NightStep::Purge
            },
            NightStep::KeepNewest => NightStep::Purge,
            NightStep::Purge => NightStep::Sleep,
            NightStep::Sleep => NightStep::CheckRoom,
        },
{
    match step {
        NightStep::CheckRoom => {
            if done {
                NightStep::Backup
            } else {
                NightStep::Purge
            }
        },
        NightStep::Backup => {
            if done {
                NightStep::KeepNewest
            } else {
                NightStep::Purge
            }
        },
        NightStep::KeepNewest => NightStep::Purge,
        NightStep::Purge => NightStep::Sleep,
        NightStep::Sleep => NightStep::CheckRoom,
    }
}

/// The tombstones of an account that are old at a time and that every device
/// that still reads has read.
pub open spec fn old_tombstones(db: DbView, account: Uuid, now: u64) -> Doomed {
    Doomed::Tombstones {
        before_ms: if now < TOMBSTONES_KEPT_MS {
            0
        } else {
            (now - TOMBSTONES_KEPT_MS) as u64
        },
        below_seq: read_by_all(db.devices, account),
    }
}

/// Forget the old tombstones of one account, at a given time. Returns how many
/// there were.
pub fn purge_account_at(db: &mut Db, id: Uuid, now: u64) -> (gone: usize)
    requires
        old(db)@.wf(),
    ensures
        final(db)@.wf(),
        gone == select(
            mailbox(old(db)@, id),
            old_tombstones(old(db)@, id, now).takes(),
        ).len(),
        final(db)@ == forgotten(old(db)@, id, old_tombstones(old(db)@, id, now)),
{
    let below: u64 = devices::lowest_cursor(db, id);
    let before: u64 = now.saturating_sub(TOMBSTONES_KEPT_MS);
    let account: Account = Account { id, vault_id: id, seq: 0 };
    records::purge_tombstones(db, &account, before, below)
}

/// The database once the old tombstones of the first `n` accounts are
/// forgotten.
pub open spec fn tombstones_purged(db: DbView, ids: Seq<Uuid>, n: nat, now: u64) -> DbView
    decreases n,
{
    if n == 0 {
        db
    } else {
        let before = tombstones_purged(db, ids, (n - 1) as nat, now);
        forgotten(before, ids[n - 1], old_tombstones(before, ids[n - 1], now))
    }
}

/// The names of the accounts in a database.
pub open spec fn account_ids(db: DbView) -> Seq<Uuid> {
    db.accounts.map_values(|account: crate::db::AccountView| account.id)
}

/// [`purge`] at a given time.
pub fn purge_at(db: &mut Db, now: u64)
    requires
        old(db)@.wf(),
    ensures
        final(db)@.wf(),
        ({
            let codes = purged_db(old(db)@, forgotten_since(now));
            final(db)@ == tombstones_purged(codes, account_ids(codes), codes.accounts.len(), now)
        }),
{
    invites::purge_at(db, now);
    let ghost codes = db@;
    let mut ids: Vec<Uuid> = Vec::new();
    let accounts: usize = db.accounts.len();
    for i in 0..accounts
        invariant
            db@ == codes,
            accounts == db.accounts.len(),
            ids@ == account_ids(codes).take(i as int),
    {
        ids.push(db.accounts[i].id);
        assert(codes.accounts[i as int] == db.accounts[i as int]@);
        assert(ids@ =~= account_ids(codes).take(i + 1));
    }
    assert(ids@ =~= account_ids(codes));
    for i in 0..ids.len()
        invariant
            db@.wf(),
            ids@ == account_ids(codes),
            db@ == tombstones_purged(codes, ids@, i as nat, now),
    {
        let _ = purge_account_at(db, ids[i], now);
    }
}

/// Tombstones every device has read and that are older than a season, and
/// codes that are long expired.
pub fn purge(db: &mut Db)
    requires
        old(db)@.wf(),
    ensures
        final(db)@.wf(),
        exists|now: u64|
            ({
                let codes = purged_db(old(db)@, #[trigger] forgotten_since(now));
                final(db)@ == tombstones_purged(
                    codes,
                    account_ids(codes),
                    codes.accounts.len(),
                    now,
                )
            }),
{
    let now: u64 = now_ms();
    purge_at(db, now)
}

/// How much of a disk stays free: a twentieth of it, and at least 256 MiB.
pub open spec fn margin(total: u64) -> u64 {
    if total / 20 > 0x1000_0000 {
        total / 20
    } else {
        0x1000_0000
    }
}

/// Whether `need` bytes fit into `free` with a margin left over.
pub fn enough_room(free: u64, total: u64, need: u64) -> (enough: bool)
    ensures
        enough ==> free >= need + margin(total),
        free >= need + margin(total) ==> enough,
{
    let margin: u64 = if total / 20 > 0x1000_0000 {
        total / 20
    } else {
        0x1000_0000
    };
    match need.checked_add(margin) {
        Some(sum) => free >= sum,
        None => false,
    }
}

/// What is said when there is no room for a backup.
pub open spec fn no_room_text(free: u64, need: u64) -> Seq<char> {
    text::decimal_text((free / 0x10_0000) as nat) + " MiB free, and a backup of about "@
        + text::decimal_text(((need + 0xf_ffff) / 0x10_0000) as nat) + NO_ROOM_HINT@
}

pub const NO_ROOM_HINT: &'static str =
    " MiB would leave less than the disk needs to keep going. Make room, or copy the backups under backups/ elsewhere and remove old ones";

/// Whether a backup leaves the disk with room to spare. A backup is about as
/// large as the database, and one that fills the disk takes the database down
/// with it: the next write has nowhere to go. So it is only written when what
/// is free afterwards is still a twentieth of the disk, and at least 256 MiB.
/// Where it is not known how much is free, it is written.
///
/// `space` are the free and the total bytes of the disk, `database` and `log`
/// the sizes of the database and of the log beside it.
pub fn room_for_backup(space: Option<(u64, u64)>, database: u64, log: u64) -> (room: Result<
    (),
    String,
>)
    requires
        database + log <= u64::MAX,
    ensures
        room is Err <==> (space matches Some((free, total)) && free < database + log + margin(
            total,
        )),
        room matches Err(what) ==> what@ == no_room_text(
            space->Some_0.0,
            (database + log) as u64,
        ),
{
    let need: u64 = database + log;
    match space {
        None => Ok(()),
        Some((free, total)) => {
            if enough_room(free, total, need) {
                Ok(())
            } else {
                let whole: u128 = (need as u128 + 0xf_ffff) / 0x10_0000;
                Err(
                    text::decimal((free / 0x10_0000) as u128).concat(
                        " MiB free, and a backup of about ",
                    ).concat(text::decimal(whole).as_str()).concat(NO_ROOM_HINT),
                )
            }
        },
    }
}

/// When a backup was written, from its name; nothing for a file that is not a
/// backup.
pub open spec fn stamp_in(name: Seq<char>) -> Option<Seq<char>> {
    let rest = if text::starts_with(name, "uwusync-"@) {
        Some(name.skip("uwusync-"@.len() as int))
    } else if text::starts_with(name, "uwussh-"@) {
        Some(name.skip("uwussh-"@.len() as int))
    } else {
        None
    };
    match rest {
        Some(rest) if text::ends_with(rest, ".db"@) => Some(
            rest.take(rest.len() - ".db"@.len()),
        ),
        _ => None,
    }
}

/// When a backup was written, from its name: `uwusync-<when>.db`, or
/// `uwussh-<when>.db` from before the server was called UwUSync. Nothing for
/// a file that is not a backup.
pub fn backup_stamp(name: &str) -> (stamp: Option<String>)
    ensures
        text::string_view(stamp) == stamp_in(name@),
{
    let chars: Vec<char> = text::chars_of(name);
    let rest: Vec<char> = match text::strip_prefix(chars.as_slice(), "uwusync-") {
        Some(rest) => rest,
        None => match text::strip_prefix(chars.as_slice(), "uwussh-") {
            Some(rest) => rest,
            None => {
                return None;
            },
        },
    };
    match text::strip_suffix(rest.as_slice(), ".db") {
        Some(stamp) => Some(text::string_of(stamp.as_slice())),
        None => None,
    }
}

/// A file where the backups are.
#[derive(Debug)]
pub struct File {
    pub name: String,
    pub bytes: u64,
}

/// A [`File`] by its contents.
pub struct FileView {
    pub name: Seq<char>,
    pub bytes: u64,
}

impl View for File {
    type V = FileView;

    open spec fn view(&self) -> FileView {
        FileView { name: self.name@, bytes: self.bytes }
    }
}

/// Files by their views.
pub open spec fn files_view(files: Seq<File>) -> Seq<FileView> {
    files.map_values(|file: File| file@)
}

/// Whether one backup was written before another.
pub open spec fn written_before(a: FileView, b: FileView) -> bool {
    text::precedes(stamp_in(a.name)->Some_0, stamp_in(b.name)->Some_0)
}

/// A list of backups with one more in its place.
pub open spec fn placed(list: Seq<FileView>, file: FileView) -> Seq<FileView>
    decreases list.len(),
{
    if list.len() > 0 && written_before(file, list.last()) {
        placed(list.drop_last(), file).push(list.last())
    } else {
        list.push(file)
    }
}

/// The backups among these files, oldest first.
pub open spec fn backups_in(files: Seq<FileView>) -> Seq<FileView>
    decreases files.len(),
{
    if files.len() == 0 {
        Seq::empty()
    } else {
        let rest = backups_in(files.drop_last());
        if stamp_in(files.last().name) is Some {
            placed(rest, files.last())
        } else {
            rest
        }
    }
}

/// Whether one backup was written before another.
fn is_older(a: &File, b: &File) -> (older: bool)
    requires
        stamp_in(a.name@) is Some,
        stamp_in(b.name@) is Some,
    ensures
        older == written_before(a@, b@),
{
    match (backup_stamp(a.name.as_str()), backup_stamp(b.name.as_str())) {
        (Some(a), Some(b)) => text::comes_before(a.as_str(), b.as_str()),
        _ => false,
    }
}

/// Whether all of these are backups.
spec fn all_backups(list: Seq<FileView>) -> bool {
    forall|i: int| 0 <= i < list.len() ==> stamp_in((#[trigger] list[i]).name) is Some
}

fn insert_file(list: &mut Vec<File>, file: File)
    requires
        all_backups(files_view(old(list)@)),
        stamp_in(file.name@) is Some,
    ensures
        files_view(final(list)@) == placed(files_view(old(list)@), file@),
        all_backups(files_view(final(list)@)),
{
    let ghost before = files_view(list@);
    let ghost added = file@;
    let mut at: usize = list.len();
    let mut found: bool = false;
    assert(before.take(at as int) =~= before);
    assert(placed(before, added) =~= placed(before.take(at as int), added) + before.skip(at as int));
    while at > 0 && !found
        invariant
            at <= list.len(),
            list@ == old(list)@,
            file@ == added,
            stamp_in(added.name) is Some,
            before == files_view(list@),
            all_backups(before),
            found ==> at > 0 && !written_before(added, before[at - 1]),
            placed(before, added) == placed(before.take(at as int), added) + before.skip(
                at as int,
            ),
        decreases
            at,
            if found {
                0int
            } else {
                1
            },
    {
        assert(before[at - 1] == list@[at - 1]@);
        if is_older(&file, &list[at - 1]) {
            proof {
                assert(before.take(at as int).drop_last() =~= before.take(at - 1));
                assert(before.take(at as int).last() == before[at - 1]);
                assert(placed(before.take(at - 1), added).push(before[at - 1]) + before.skip(
                    at as int,
                ) =~= placed(before.take(at - 1), added) + before.skip(at - 1));
            }
            at = at - 1;
        } else {
            found = true;
        }
    }
    proof {
        if at > 0 {
            assert(before.take(at as int).last() == before[at - 1]);
        }
    }
    list.insert(at, file);
    assert(files_view(list@) =~= before.take(at as int).push(added) + before.skip(at as int));
    assert forall|i: int| 0 <= i < files_view(list@).len() implies stamp_in(
        (#[trigger] files_view(list@)[i]).name,
    ) is Some by {
        if i < at {
            assert(files_view(list@)[i] == before[i]);
        } else if i > at {
            assert(files_view(list@)[i] == before[i - 1]);
        }
    }
}

/// The backups among the files of a directory, oldest first, with their sizes.
pub fn list_backups(files: Vec<File>) -> (backups: Vec<File>)
    ensures
        files_view(backups@) == backups_in(files_view(files@)),
{
    let ghost all = files_view(files@);
    let mut files: Vec<File> = files;
    let mut backups: Vec<File> = Vec::new();
    assert(files_view(backups@) =~= backups_in(all.take(0)));
    let count: usize = files.len();
    // The first file is always the next one.
    for i in 0..count
        invariant
            count == all.len(),
            files_view(files@) == all.skip(i as int),
            files@.len() == count - i,
            files_view(backups@) == backups_in(all.take(i as int)),
            all_backups(files_view(backups@)),
    {
        assert(all.take(i + 1).drop_last() =~= all.take(i as int));
        assert(all.skip(i as int)[0] == all[i as int]);
        assert(files_view(files@)[0] == files@[0]@);
        let ghost earlier = files_view(files@);
        let file: File = files.remove(0);
        assert(files_view(files@) =~= earlier.skip(1));
        assert(earlier.skip(1) =~= all.skip(i + 1));
        assert(all.take(i + 1).last() == file@);
        if backup_stamp(file.name.as_str()).is_some() {
            insert_file(&mut backups, file);
        }
    }
    assert(all.take(count as int) =~= all);
    backups
}

/// The backups that go when only the newest `keep` stay: all but the last of
/// them, oldest first.
pub open spec fn outdated(files: Seq<FileView>, keep: nat) -> Seq<FileView> {
    let backups = backups_in(files);
    if backups.len() > keep {
        backups.take(backups.len() - keep)
    } else {
        Seq::empty()
    }
}

/// Which files go so that the newest `keep` backups stay and the rest of them
/// do not. Files that are no backups stay.
pub fn keep_newest(files: Vec<File>, keep: usize) -> (gone: Vec<File>)
    ensures
        files_view(gone@) == outdated(files_view(files@), keep as nat),
{
    let mut backups: Vec<File> = list_backups(files);
    let ghost all = files_view(backups@);
    if backups.len() > keep {
        let gone: usize = backups.len() - keep;
        backups.truncate(gone);
        assert(files_view(backups@) =~= all.take(gone as int));
    } else {
        backups.truncate(0);
        assert(files_view(backups@) =~= Seq::empty());
    }
    backups
}

/// Whether backups stand in the order in which they were written.
pub open spec fn oldest_first(list: Seq<FileView>) -> bool {
    forall|i: int, j: int|
        0 <= i < j < list.len() ==> !written_before(#[trigger] list[j], #[trigger] list[i])
}

proof fn lemma_placed(list: Seq<FileView>, file: FileView)
    requires
        oldest_first(list),
    ensures
        oldest_first(placed(list, file)),
        forall|any: FileView| #[trigger]
            placed(list, file).contains(any) <==> any == file || list.contains(any),
    decreases list.len(),
{
    let after = placed(list, file);
    if list.len() > 0 && written_before(file, list.last()) {
        let rest = list.drop_last();
        assert(oldest_first(rest));
        lemma_placed(rest, file);
        let inner = placed(rest, file);
        assert forall|i: int, j: int| 0 <= i < j < after.len() implies !written_before(
            #[trigger] after[j],
            #[trigger] after[i],
        ) by {
            assert(after[i] == inner[i]);
            if j < inner.len() {
                assert(after[j] == inner[j]);
            } else {
                assert(inner.contains(inner[i]));
                if inner[i] == file {
                    text::lemma_precedes_is_total(
                        stamp_in(file.name)->Some_0,
                        stamp_in(list.last().name)->Some_0,
                    );
                } else {
                    let k = choose|k: int| 0 <= k < rest.len() && rest[k] == inner[i];
                    assert(list[k] == inner[i]);
                    assert(list[list.len() - 1] == list.last());
                }
            }
        }
        assert forall|any: FileView| #[trigger] after.contains(any) <==> any == file
            || list.contains(any) by {
            if after.contains(any) {
                let k = choose|k: int| 0 <= k < after.len() && after[k] == any;
                if k < inner.len() {
                    assert(inner[k] == any);
                    assert(inner.contains(any));
                    if any != file {
                        let l = choose|l: int| 0 <= l < rest.len() && rest[l] == any;
                        assert(list[l] == any);
                    }
                } else {
                    assert(list[list.len() - 1] == any);
                }
            }
            if any == file || list.contains(any) {
                if any != file {
                    let l = choose|l: int| 0 <= l < list.len() && list[l] == any;
                    if l < rest.len() {
                        assert(rest[l] == any);
                    }
                }
                if any == file || rest.contains(any) {
                    assert(inner.contains(any));
                    let k = choose|k: int| 0 <= k < inner.len() && inner[k] == any;
                    assert(after[k] == any);
                } else {
                    assert(after.last() == any);
                }
            }
        }
    } else {
        let stamp = stamp_in(file.name)->Some_0;
        assert forall|i: int, j: int| 0 <= i < j < after.len() implies !written_before(
            #[trigger] after[j],
            #[trigger] after[i],
        ) by {
            if j == list.len() {
                assert(after[i] == list[i]);
                if written_before(file, list[i]) {
                    let last = stamp_in(list[list.len() - 1].name)->Some_0;
                    let here = stamp_in(list[i].name)->Some_0;
                    if i < list.len() - 1 {
                        assert(!written_before(list[list.len() - 1], list[i]));
                        text::lemma_precedes_is_total(last, here);
                        if last != here {
                            text::lemma_precedes_is_transitive(stamp, here, last);
                        }
                    }
                }
            } else {
                assert(after[i] == list[i] && after[j] == list[j]);
            }
        }
        assert forall|any: FileView| #[trigger] after.contains(any) <==> any == file
            || list.contains(any) by {
            if after.contains(any) {
                let k = choose|k: int| 0 <= k < after.len() && after[k] == any;
                if k < list.len() {
                    assert(list[k] == any);
                }
            }
            if any == file {
                assert(after.last() == any);
            } else if list.contains(any) {
                let k = choose|k: int| 0 <= k < list.len() && list[k] == any;
                assert(after[k] == any);
            }
        }
    }
}

/// Backups are listed oldest first, whatever they are called, each one that is
/// there and nothing that is none.
pub proof fn backups_are_listed_oldest_first(files: Seq<FileView>)
    ensures
        oldest_first(backups_in(files)),
        forall|file: FileView| #[trigger]
            backups_in(files).contains(file) <==> files.contains(file) && stamp_in(
                file.name,
            ) is Some,
    decreases files.len(),
{
    if files.len() > 0 {
        let rest = files.drop_last();
        backups_are_listed_oldest_first(rest);
        lemma_placed(backups_in(rest), files.last());
        assert forall|file: FileView| #[trigger] backups_in(files).contains(file)
            <==> files.contains(file) && stamp_in(file.name) is Some by {
            assert(backups_in(rest).contains(file) <==> rest.contains(file) && stamp_in(
                file.name,
            ) is Some);
            assert(placed(backups_in(rest), files.last()).contains(file) <==> file == files.last()
                || backups_in(rest).contains(file));
            if files.contains(file) {
                let k = choose|k: int| 0 <= k < files.len() && files[k] == file;
                if k < rest.len() {
                    assert(rest[k] == file);
                }
            }
            if rest.contains(file) {
                let k = choose|k: int| 0 <= k < rest.len() && rest[k] == file;
                assert(files[k] == file);
            }
            assert(files[files.len() - 1] == files.last());
        }
    }
}

/// Only the newest backups are kept: no backup that goes was written after one
/// that stays, as many stay as are to be kept where there are that many, and
/// nothing goes that is no backup.
pub proof fn only_the_newest_backups_are_kept(files: Seq<FileView>, keep: nat, i: int, j: int)
    requires
        0 <= i < outdated(files, keep).len(),
        outdated(files, keep).len() <= j < backups_in(files).len(),
    ensures
        !written_before(backups_in(files)[j], outdated(files, keep)[i]),
        backups_in(files).len() - outdated(files, keep).len() == keep,
        stamp_in(outdated(files, keep)[i].name) is Some,
{
    backups_are_listed_oldest_first(files);
    let all = backups_in(files);
    assert(outdated(files, keep)[i] == all[i]);
    assert(all.contains(all[i]));
}

/// What a backup is called that is written at a time.
pub open spec fn backup_name(ms: u64) -> Seq<char> {
    "uwusync-"@ + stamp_text(ms) + ".db"@
}

/// Where a backup goes unless told otherwise: `uwusync-<when>.db`, to the
/// second: the nightly one and one taken before an update can fall on the same
/// day, and a backup is never written over a file.
pub fn backup_path_at(ms: u64) -> (name: String)
    ensures
        name@ == backup_name(ms),
{
    "uwusync-".to_owned().concat(stamp(ms).as_str()).concat(".db")
}

/// Where a backup goes that is written now.
pub fn backup_path() -> (name: String)
    ensures
        exists|ms: u64| name@ == #[trigger] backup_name(ms),
{
    let now: u64 = now_ms();
    backup_path_at(now)
}

/// The database's name with something after it, the way SQLite names its own
/// files next to it, whichever name the database has.
pub fn with_suffix(database: &str, suffix: &str) -> (name: String)
    ensures
        name@ == database@ + suffix@,
{
    database.to_owned().concat(suffix)
}

/// Where the database goes that a restore replaces, at a time.
pub fn aside_path(database: &str, ms: u64) -> (name: String)
    ensures
        name@ == database@ + (".before-restore-"@ + stamp_text(ms)),
{
    let suffix: String = ".before-restore-".to_owned().concat(stamp(ms).as_str());
    with_suffix(database, suffix.as_str())
}

/// A character as JSON writes it.
pub open spec fn json_char(c: char) -> Seq<char> {
    let code = c as u32;
    if c == '"' {
        seq!['\\', '"']
    } else if c == '\\' {
        seq!['\\', '\\']
    } else if code == 0x8 {
        seq!['\\', 'b']
    } else if code == 0x9 {
        seq!['\\', 't']
    } else if code == 0xa {
        seq!['\\', 'n']
    } else if code == 0xc {
        seq!['\\', 'f']
    } else if code == 0xd {
        seq!['\\', 'r']
    } else if code < 0x20 {
        seq![
            '\\',
            'u',
            '0',
            '0',
            text::hex_digit((code / 16) as int),
            text::hex_digit((code % 16) as int),
        ]
    } else {
        seq![c]
    }
}

/// A text as JSON writes it between the quotes.
pub open spec fn json_chars(text: Seq<char>) -> Seq<char>
    decreases text.len(),
{
    if text.len() == 0 {
        Seq::empty()
    } else {
        json_chars(text.drop_last()) + json_char(text.last())
    }
}

/// A text as JSON writes it.
pub open spec fn json_text(text: Seq<char>) -> Seq<char> {
    seq!['"'] + json_chars(text) + seq!['"']
}

/// A string as JSON: the `Display` of `serde_json::Value::String`. It stands in
/// quotes, with quotes, backslashes and control characters escaped.
#[verifier::external_body]
fn json_string(text: &str) -> (json: String)
    ensures
        json@ == json_text(text@),
{
    serde_json::Value::String(text.to_owned()).to_string()
}

proof fn lemma_json_len(text: Seq<char>)
    ensures
        json_text(text).len() <= 6 * text.len() + 2,
{
    lemma_json_chars_len(text);
}

proof fn lemma_json_chars_len(text: Seq<char>)
    ensures
        json_chars(text).len() <= 6 * text.len(),
    decreases text.len(),
{
    if text.len() > 0 {
        lemma_json_chars_len(text.drop_last());
    }
}

proof fn lemma_utf8_len(text: Seq<char>)
    ensures
        encode_utf8(text).len() <= 4 * text.len(),
    decreases text.len(),
{
    if text.len() > 0 {
        lemma_utf8_len(text.drop_first());
    }
}

/// What a setup code carries: where the server is, the invite, and the
/// fingerprint if there is one, as one JSON object.
pub open spec fn setup_body(
    url: Seq<char>,
    invite: Seq<char>,
    fingerprint: Option<Seq<char>>,
) -> Seq<char> {
    let end = match fingerprint {
        Some(fingerprint) => ",\"f\":"@ + json_text(fingerprint) + "}"@,
        None => "}"@,
    };
    "{\"u\":"@ + json_text(url) + ",\"i\":"@ + json_text(invite) + end
}

/// One setup code to paste.
pub open spec fn setup_text(
    url: Seq<char>,
    invite: Seq<char>,
    fingerprint: Option<Seq<char>>,
) -> Seq<char> {
    "uwu1_"@ + b64::encoded(encode_utf8(setup_body(url, invite, fingerprint)))
}

/// How long a fingerprint is, if there is one.
pub open spec fn fingerprint_len(fingerprint: Option<Seq<char>>) -> nat {
    match fingerprint {
        Some(fingerprint) => fingerprint.len(),
        None => 0,
    }
}

/// One setup code to paste: where the server is, its certificate fingerprint,
/// and the invite. The fingerprint is the part that matters: the first device
/// pins it the way an SSH client pins a host key, and passes it on to every
/// device that pairs with it afterwards.
pub fn setup_code(config: &Config, invite: &str, fingerprint: Option<&str>) -> (code: String)
    requires
        config@.base_url().len() + invite@.len() + fingerprint_len(text::str_view(fingerprint))
            <= isize::MAX / 64,
    ensures
        code@ == setup_text(config@.base_url(), invite@, text::str_view(fingerprint)),
{
    let end: String = match fingerprint {
        Some(fingerprint) => ",\"f\":".to_owned().concat(
            json_string(fingerprint).as_str(),
        ).concat("}"),
        None => "}".to_owned(),
    };
    let body: String = "{\"u\":".to_owned().concat(
        json_string(config.base_url().as_str()).as_str(),
    ).concat(",\"i\":").concat(json_string(invite).as_str()).concat(end.as_str());
    proof {
        reveal_strlit("{\"u\":");
        reveal_strlit(",\"i\":");
        reveal_strlit(",\"f\":");
        reveal_strlit("}");
        lemma_json_len(invite@);
        lemma_json_len(config@.base_url());
        if let Some(fingerprint) = fingerprint {
            lemma_json_len(fingerprint@);
        }
        lemma_utf8_len(body@);
    }
    "uwu1_".to_owned().concat(b64::encode(body.as_str().as_bytes()).as_str())
}

/// Whether the backup to restore is one of those that are kept: a bare name
/// means one of them, and anything else is a path, as is a name of something
/// that is right here.
pub fn names_a_backup(parts: usize, is_here: bool) -> (kept: bool)
    ensures
        kept == (parts == 1 && !is_here),
{
    parts == 1 && !is_here
}

/// Whether a server may make itself a key: only one that nobody has an account
/// on, and so nobody has pinned the key of. A server that cannot say how many
/// accounts it has may not.
pub fn may_make_key(accounts: Option<usize>) -> (may: bool)
    ensures
        may == (accounts == Some(0usize)),
{
    match accounts {
        Some(count) => count == 0,
        None => false,
    }
}

/// Whether a server says at its start how to join it: one that has no account
/// and no invite to make one with.
pub fn needs_an_invite(accounts: usize, open_invites: usize) -> (needs: bool)
    ensures
        needs == (accounts == 0 && open_invites == 0),
{
    accounts == 0 && open_invites == 0
}

} // verus!
