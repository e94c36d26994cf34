//! Backups, restoring one, forgetting what nobody needs, and the certificate.

use crate::b64;
use crate::calendar::stamp_text;
use crate::db::records::forgotten;
use crate::db::restore::{
    carried, complaint, moved, reached_by, step_after, Inspection, Outcome, Step, StepView,
    Whereabouts,
};
use crate::db::schema::{first_step, newer_text, step_to, V1, V2, V3};
use crate::db::{DbView, RecordView};
use crate::ids::Uuid;
use crate::maintenance::{
    account_ids, backup_name, backups_in, files_view, json_chars, json_text, margin, no_room_text,
    old_tombstones, outdated, placed, setup_body, setup_text, stamp_in, tombstones_purged,
    written_before, File, FileView,
};
use crate::promises::mailbox::just_what_is_doomed_is_forgotten;
use crate::promises::devices::what_every_device_has_read;
use crate::tls::{
    certify_done, fingerprint_done, gone_text, host_in, identity_done, is_a_name, is_certificate,
    key_in, names_of, validity_from, Identity, Key, KeyView,
};
use crate::{sha256_of, text};
use vstd::prelude::*;
use vstd::utf8::encode_utf8;

verus! {

/// Tombstones are forgotten that are older than ninety days and that every
/// device which is in has read, and nothing else.
pub proof fn old_tombstones_are_forgotten(
    db: DbView,
    account: Uuid,
    now: u64,
    record: RecordView,
    i: int,
    d: int,
)
    requires
        db.wf(),
        0 <= i < db.accounts.len(),
        db.accounts[i].id == account,
    ensures
        ({
            let after = forgotten(db, account, old_tombstones(db, account, now)).accounts[i];
            &&& after.records.contains(record) ==> db.accounts[i].records.contains(record)
            &&& db.accounts[i].records.contains(record) && !record.deleted
                ==> after.records.contains(record)
            &&& db.accounts[i].records.contains(record) && record.updated_ms + 7_776_000_000 >= now
                ==> after.records.contains(record)
            &&& db.accounts[i].records.contains(record) && 0 <= d < db.devices.len()
                && db.devices[d].account_id == account && db.devices[d].revoked_ms is None
                && db.devices[d].cursor < record.seq ==> after.records.contains(record)
            &&& record.deleted && record.updated_ms + 7_776_000_000 < now && (exists|j: int|
                0 <= j < db.devices.len() && (#[trigger] db.devices[j]).account_id == account
                    && db.devices[j].revoked_ms is None) && (forall|j: int|
                0 <= j < db.devices.len() && (#[trigger] db.devices[j]).account_id == account
                    && db.devices[j].revoked_ms is None ==> record.seq <= db.devices[j].cursor)
                ==> !after.records.contains(record)
            &&& after.seq == db.accounts[i].seq
            &&& after.header == db.accounts[i].header
            &&& after.auth_verifier == db.accounts[i].auth_verifier
        }),
{
    let doomed = old_tombstones(db, account, now);
    crate::promises::mailbox::forgetting_changes_one_account(db, account, doomed, i);
    just_what_is_doomed_is_forgotten(db.accounts[i], doomed, record);
    what_every_device_has_read(db.devices, account);
}

/// They are forgotten of every account.
pub proof fn every_account_is_swept(db: DbView, ids: Seq<Uuid>, n: nat, now: u64)
    requires
        n < ids.len(),
    ensures
        tombstones_purged(db, ids, 0, now) == db,
        ({
            let before = tombstones_purged(db, ids, n, now);
            tombstones_purged(db, ids, n + 1, now) == forgotten(
                before,
                ids[n as int],
                old_tombstones(before, ids[n as int], now),
            )
        }),
        account_ids(db).len() == db.accounts.len(),
        forall|i: int|
            0 <= i < db.accounts.len() ==> #[trigger] account_ids(db)[i] == db.accounts[i].id,
{
}

/// A backup leaves a twentieth of the disk free, and 256 mebibytes at least.
pub proof fn what_a_backup_leaves_free(total: u64)
    ensures
        margin(total) >= 268_435_456,
        margin(total) >= total / 20,
        margin(total) == 268_435_456 || margin(total) == total / 20,
{
}

/// What is said where there is no room: how much is free, rounded down, and how
/// much it takes, rounded up.
pub proof fn what_is_said_without_room(free: u64, need: u64)
    ensures
        exists|a: nat, b: nat|
            a * 1_048_576 <= free < (a + 1) * 1_048_576 && need <= b * 1_048_576 && (b == 0 || (b
                - 1) * 1_048_576 < need) && no_room_text(free, need) == #[trigger] (
            text::decimal_text(a) + " MiB free, and a backup of about "@ + text::decimal_text(b)
                + " MiB would leave less than the disk needs to keep going. Make room, or copy the backups under backups/ elsewhere and remove old ones"@),
{
    let a = (free / 0x10_0000) as nat;
    let b = ((need + 0xf_ffff) / 0x10_0000) as nat;
    assert(no_room_text(free, need) == text::decimal_text(a)
        + " MiB free, and a backup of about "@ + text::decimal_text(b)
        + " MiB would leave less than the disk needs to keep going. Make room, or copy the backups under backups/ elsewhere and remove old ones"@);
}

/// A file is a backup that is named like one, under the new name or the old,
/// and its stamp is what stands in between.
pub proof fn what_is_a_backup(name: Seq<char>, stamp: Seq<char>)
    ensures
        stamp_in("uwusync-"@ + stamp + ".db"@) == Some(stamp),
        stamp_in("uwussh-"@ + stamp + ".db"@) == Some(stamp),
        stamp_in(name) == Some(stamp) ==> name == "uwusync-"@ + stamp + ".db"@ || name
            == "uwussh-"@ + stamp + ".db"@,
{
    reveal_strlit("uwusync-");
    reveal_strlit("uwussh-");
    reveal_strlit(".db");
    lemma_named("uwusync-"@, stamp, ".db"@);
    lemma_named("uwussh-"@, stamp, ".db"@);
    let other = "uwussh-"@ + stamp + ".db"@;
    assert(other[4] == 's' && "uwusync-"@[4] == 'y');
    if text::starts_with(other, "uwusync-"@) {
        assert(other.take(8)[4] == other[4]);
    }
    if stamp_in(name) == Some(stamp) {
        if text::starts_with(name, "uwusync-"@) {
            lemma_parts(name, "uwusync-"@, ".db"@);
        } else {
            lemma_parts(name, "uwussh-"@, ".db"@);
        }
    }
}

proof fn lemma_named(start: Seq<char>, stamp: Seq<char>, end: Seq<char>)
    ensures
        text::starts_with(start + stamp + end, start),
        (start + stamp + end).skip(start.len() as int) == stamp + end,
        text::ends_with(stamp + end, end),
        (stamp + end).take((stamp + end).len() - end.len()) == stamp,
{
    assert((start + stamp + end).take(start.len() as int) =~= start);
    assert((start + stamp + end).skip(start.len() as int) =~= stamp + end);
    assert((stamp + end).skip(stamp.len() as int) =~= end);
    assert((stamp + end).take(stamp.len() as int) =~= stamp);
}

proof fn lemma_parts(name: Seq<char>, start: Seq<char>, end: Seq<char>)
    requires
        text::starts_with(name, start),
        text::ends_with(name.skip(start.len() as int), end),
    ensures
        ({
            let rest = name.skip(start.len() as int);
            name == start + rest.take(rest.len() - end.len()) + end
        }),
{
    let rest = name.skip(start.len() as int);
    assert(rest =~= rest.take(rest.len() - end.len()) + rest.skip(rest.len() - end.len()));
    assert(name =~= name.take(start.len() as int) + rest);
    assert(name =~= start + rest.take(rest.len() - end.len()) + end);
}

/// A backup is named after the time it is made.
pub proof fn a_backup_is_named_after_its_time(ms: u64)
    ensures
        stamp_in(backup_name(ms)) == Some(stamp_text(ms)),
        backup_name(ms) == "uwusync-"@ + stamp_text(ms) + ".db"@,
{
    what_is_a_backup(backup_name(ms), stamp_text(ms));
}

/// What is said of files is said of every part of them; one was written before
/// another whose stamp comes first.
pub proof fn files_by_their_stamps(files: Seq<File>, a: FileView, b: FileView, i: int)
    ensures
        files_view(files).len() == files.len(),
        0 <= i < files.len() ==> files_view(files)[i].name == files[i].name@ && files_view(
            files,
        )[i].bytes == files[i].bytes,
        written_before(a, b) <==> text::precedes(
            stamp_in(a.name)->Some_0,
            stamp_in(b.name)->Some_0,
        ),
{
}

/// Every backup is listed as often as it is there, and what is outdated are all
/// but as many as are kept, from the oldest on.
pub proof fn all_but_the_newest_are_outdated(files: Seq<FileView>, keep: nat, i: int)
    ensures
        backups_in(files).len() == files.filter(
            |file: FileView| stamp_in(file.name) is Some,
        ).len(),
        backups_in(files).to_multiset() == files.filter(
            |file: FileView| stamp_in(file.name) is Some,
        ).to_multiset(),
        backups_in(files).len() <= keep ==> outdated(files, keep).len() == 0,
        backups_in(files).len() > keep ==> outdated(files, keep).len() == backups_in(files).len()
            - keep,
        0 <= i < outdated(files, keep).len() ==> outdated(files, keep)[i] == backups_in(files)[i],
    decreases files.len(),
{
    reveal(Seq::filter);
    broadcast use vstd::seq_lib::group_to_multiset_ensures;

    if files.len() > 0 {
        all_but_the_newest_are_outdated(files.drop_last(), keep, i);
        lemma_placed_adds(backups_in(files.drop_last()), files.last());
    }
}

proof fn lemma_placed_adds(list: Seq<FileView>, file: FileView)
    ensures
        placed(list, file).len() == list.len() + 1,
        placed(list, file).to_multiset() == list.to_multiset().insert(file),
    decreases list.len(),
{
    broadcast use vstd::seq_lib::group_to_multiset_ensures;

    if list.len() > 0 && written_before(file, list.last()) {
        lemma_placed_adds(list.drop_last(), file);
        assert(list.drop_last().push(list.last()) =~= list);
        assert(placed(list, file).to_multiset() =~= list.to_multiset().insert(file));
    }
}

/// A text in quotes is its characters, one after the other, those escaped that
/// have to be.
pub proof fn a_text_in_quotes(text: Seq<char>, c: char)
    ensures
        json_text(text) == seq!['"'] + json_chars(text) + seq!['"'],
        json_chars(Seq::empty()) == Seq::<char>::empty(),
        c == '"' || c == '\\' ==> json_chars(text.push(c)) == json_chars(text) + seq!['\\', c],
        c == '\n' ==> json_chars(text.push(c)) == json_chars(text) + seq!['\\', 'n'],
        c == '\r' ==> json_chars(text.push(c)) == json_chars(text) + seq!['\\', 'r'],
        c == '\t' ==> json_chars(text.push(c)) == json_chars(text) + seq!['\\', 't'],
        c as u32 == 8 ==> json_chars(text.push(c)) == json_chars(text) + seq!['\\', 'b'],
        c as u32 == 12 ==> json_chars(text.push(c)) == json_chars(text) + seq!['\\', 'f'],
        32 <= c as u32 && c != '"' && c != '\\' ==> json_chars(text.push(c)) == json_chars(
            text,
        ).push(c),
        (c as u32) < 16 && c as u32 != 8 && c as u32 != 9 && c as u32 != 10 && c as u32 != 12
            && c as u32 != 13 ==> json_chars(text.push(c)) == json_chars(text) + seq![
            '\\',
            'u',
            '0',
            '0',
            '0',
            text::hex_digit(c as int),
        ],
        16 <= c as u32 && (c as u32) < 32 ==> json_chars(text.push(c)) == json_chars(text) + seq![
            '\\',
            'u',
            '0',
            '0',
            '1',
            text::hex_digit(c as int - 16),
        ],
{
    assert(text.push(c).drop_last() =~= text);
    assert(json_chars(text) + seq![c] =~= json_chars(text).push(c));
}

/// A setup code says where the server is, what lets a new account in, and what
/// its certificate looks like, where it has one of its own.
pub proof fn what_a_setup_code_says(url: Seq<char>, invite: Seq<char>, fingerprint: Seq<char>)
    ensures
        setup_body(url, invite, None) == "{\"u\":"@ + json_text(url) + ",\"i\":"@ + json_text(
            invite,
        ) + "}"@,
        setup_body(url, invite, Some(fingerprint)) == "{\"u\":"@ + json_text(url) + ",\"i\":"@
            + json_text(invite) + (",\"f\":"@ + json_text(fingerprint) + "}"@),
        setup_text(url, invite, None) == "uwu1_"@ + b64::encoded(
            encode_utf8(setup_body(url, invite, None)),
        ),
        setup_text(url, invite, Some(fingerprint)) == "uwu1_"@ + b64::encoded(
            encode_utf8(setup_body(url, invite, Some(fingerprint))),
        ),
{
}

/// A backup is taken that could be read as a database of this server, no newer
/// than it, and no other.
pub proof fn which_backups_are_taken(backup: Seq<char>, found: Inspection)
    ensures
        complaint(backup, found) is None <==> (found matches Inspection::Read { version, tables }
            && 1 <= version <= 3 && tables == 3),
        found matches Inspection::Unopened(error) ==> complaint(backup, found) == Some(
            backup + ": "@ + error@,
        ),
        found is NoDatabase ==> complaint(backup, found) == Some(backup + " is not a database"@),
        found matches Inspection::Damaged(said) ==> complaint(backup, found) == Some(
            backup + " is damaged: "@ + said@,
        ),
        found matches Inspection::Unread(error) ==> complaint(backup, found) == Some(
            backup + ": "@ + error@,
        ),
        found matches Inspection::Read { version, tables } ==> {
            &&& version < 1 || tables != 3 ==> complaint(backup, found) == Some(
                backup + " is not a UwUSSH Server database"@,
            )
            &&& version > 3 && tables == 3 ==> complaint(backup, found) == Some(
                backup + " comes from a newer UwUSSH Server (schema "@ + text::signed_text(
                    version as int,
                ) + "); restore it with that one"@,
            )
        },
{
}

/// A restore that goes well: the backup is looked at, compared, the database
/// let go of and set aside where there is one, the backup put in its place and
/// the logs cleared.
pub proof fn a_restore_that_goes_well(
    backup: Seq<char>,
    found: Inspection,
    was: bool,
    mode: String,
    outcome: Outcome,
)
    requires
        complaint(backup, found) is None,
        mode@ == "delete"@,
    ensures
        step_after(backup, was, StepView::Inspect, Outcome::Inspected(found)) == StepView::Compare,
        step_after(
            backup,
            was,
            StepView::Compare,
            Outcome::Compared { replaced: true, same: false },
        ) == StepView::Release,
        step_after(
            backup,
            was,
            StepView::Compare,
            Outcome::Compared { replaced: false, same: false },
        ) == StepView::Prepare,
        step_after(backup, was, StepView::Release, Outcome::Released(Some(mode)))
            == StepView::Prepare,
        step_after(backup, true, StepView::Prepare, Outcome::Fine) == StepView::SetAside,
        step_after(backup, false, StepView::Prepare, Outcome::Fine) == StepView::PutInPlace,
        step_after(backup, was, StepView::SetAside, Outcome::Fine) == StepView::PutInPlace,
        step_after(backup, was, StepView::PutInPlace, Outcome::Fine) == StepView::ClearLogs,
        step_after(backup, was, StepView::ClearLogs, outcome) == StepView::Restored,
{
}

/// A restore that does not: what fails ends it, and the database that was set
/// aside is put back first.
pub proof fn a_restore_that_fails(
    backup: Seq<char>,
    found: Inspection,
    was: bool,
    is: bool,
    mode: Option<String>,
    error: String,
    why: Seq<char>,
    outcome: Outcome,
)
    ensures
        complaint(backup, found) is Some ==> step_after(
            backup,
            was,
            StepView::Inspect,
            Outcome::Inspected(found),
        ) == StepView::Refused(complaint(backup, found)->Some_0),
        step_after(backup, was, StepView::Compare, Outcome::Compared { replaced: is, same: true })
            == StepView::Refused("that is the database itself, not a backup of it"@),
        mode is None || mode->Some_0@ != "delete"@ ==> step_after(
            backup,
            was,
            StepView::Release,
            Outcome::Released(mode),
        ) == StepView::Refused(
            "the database is in use. Stop the server first: docker compose stop"@,
        ),
        step_after(backup, was, StepView::Release, Outcome::Failed(error)) == StepView::Refused(
            error@,
        ),
        step_after(backup, was, StepView::Prepare, Outcome::Failed(error)) == StepView::Discard(
            "the backup could not be made ready: "@ + error@,
        ),
        step_after(backup, was, StepView::Discard(why), outcome) == StepView::Refused(why),
        step_after(backup, was, StepView::SetAside, Outcome::Failed(error)) == StepView::Refused(
            error@,
        ),
        step_after(backup, true, StepView::PutInPlace, Outcome::Failed(error)) == StepView::PutBack(
            "the backup could not be put in place: "@ + error@,
        ),
        step_after(backup, false, StepView::PutInPlace, Outcome::Failed(error))
            == StepView::Refused("the backup could not be put in place: "@ + error@),
        step_after(backup, was, StepView::PutBack(why), outcome) == StepView::Refused(why),
        step_after(backup, was, StepView::Restored, outcome) == StepView::Restored,
        step_after(backup, was, StepView::Refused(why), outcome) == StepView::Refused(why),
{
}

/// Where the database is while a backup is restored.
pub proof fn where_the_database_is(
    at: Whereabouts,
    step: StepView,
    why: Seq<char>,
    outcome: Outcome,
)
    ensures
        moved(at, StepView::SetAside, Outcome::Fine) is Aside,
        moved(at, StepView::PutInPlace, Outcome::Fine) is Replaced,
        moved(at, StepView::PutBack(why), Outcome::Fine) is InPlace,
        !(outcome is Fine) ==> moved(at, step, outcome) == at,
        !(step is SetAside) && !(step is PutInPlace) && !(step is PutBack) ==> moved(
            at,
            step,
            outcome,
        ) == at,
{
}

/// The numbers of an account go on, after a restore, from what was reached, or
/// a million later where that is not known.
pub proof fn numbers_go_on_after_a_restore(
    rows: Seq<(String, i64)>,
    row: (String, i64),
    id: Seq<char>,
    seq: i64,
    reached: Map<Seq<char>, i64>,
)
    ensures
        reached_by(Seq::empty()) == Map::<Seq<char>, i64>::empty(),
        reached_by(rows.push(row)) == reached_by(rows).insert(row.0@, row.1),
        !reached.contains_key(id) ==> carried(id, seq, reached) == seq + 1_000_000,
        reached.contains_key(id) ==> carried(id, seq, reached) >= seq && carried(id, seq, reached)
            >= reached[id],
        reached.contains_key(id) ==> carried(id, seq, reached) == seq || carried(id, seq, reached)
            == reached[id],
{
    assert(rows.push(row).drop_last() =~= rows);
}

/// Which steps bring a database up to date: those after its own version, of
/// three.
pub proof fn which_steps_bring_a_database_up_to_date(version: i64)
    ensures
        version <= 0 ==> first_step(version) == 1,
        1 <= version < i64::MAX ==> first_step(version) == version + 1,
        step_to(1) == V1@,
        step_to(2) == V2@,
        step_to(3) == V3@,
        newer_text(version) == "this database comes from a newer UwUSSH Server (schema "@
            + text::signed_text(version as int) + ", this one knows "@ + text::signed_text(3)
            + "). Run the newer version, or restore the backup from before it"@,
{
}

/// A certificate holds from the day before, for 397 days.
pub proof fn how_long_a_certificate_holds(now: u64)
    ensures
        validity_from(now).0 == now as int / 1000 - 86_400,
        validity_from(now).1 == now as int / 1000 + 34_300_800,
{
}

/// A certificate is of the key it is made with and for the names it is made
/// for, and its fingerprint is that of the key.
pub proof fn a_certificate_is_of_its_key(
    key: Key,
    names: Seq<Seq<char>>,
    now: u64,
    identity: Identity,
)
    requires
        certify_done(key@, names, now, Ok(identity)),
    ensures
        identity.key_pem@ == key.pem@,
        identity.fingerprint@ == "SHA256:"@ + b64::standard_encoded(sha256_of(key.public_key@)),
        is_certificate(
            identity.cert_pem@,
            key.pem@,
            names,
            "UwUSSH sync server"@,
            now as int / 1000 - 86_400,
            now as int / 1000 + 34_300_800,
        ),
        now as int / 1000 + 34_300_800 <= 253_402_300_799,
{
}

/// A server whose clock is past what a certificate can say gets none.
pub proof fn no_certificate_past_the_last_second(
    key: KeyView,
    names: Seq<Seq<char>>,
    now: u64,
    identity: Result<Identity, String>,
)
    requires
        certify_done(key, names, now, identity),
        now as int / 1000 + 34_300_800 > 253_402_300_799,
    ensures
        identity is Err,
        identity->Err_0@ == "the clock is past what a certificate can say"@,
{
}

/// What is said where the key is gone names where it was.
pub proof fn what_is_said_where_the_key_is_gone(path: Seq<char>)
    ensures
        gone_text(path) == "the certificate key ("@ + path
            + ") is gone, and this server has accounts. Every device pinned that key and would refuse a new one: put it back from a copy of the data volume. If it is lost for good, `uwusync-server new-key` makes a new one, and every device has to be set up again"@,
{
}

/// A certificate is for this machine, and for the host in the address that the
/// server is known under, where that is another.
pub proof fn whom_a_certificate_is_for(public: Seq<char>)
    ensures
        names_of(None) == seq!["localhost"@],
        host_in(public).len() == 0 || host_in(public) == "localhost"@ || host_in(public)
            == "0.0.0.0"@ ==> names_of(Some(public)) == seq!["localhost"@],
        host_in(public).len() > 0 && host_in(public) != "localhost"@ && host_in(public)
            != "0.0.0.0"@ ==> names_of(Some(public)) == seq!["localhost"@, host_in(public)],
        is_a_name(public) <==> public.len() > 0 && public != "localhost"@ && public != "0.0.0.0"@,
{
}

/// The host in an address is what stands between its scheme and its port.
pub proof fn the_host_in_an_address(
    scheme: Seq<char>,
    host: Seq<char>,
    port: Seq<char>,
    path: Seq<char>,
)
    requires
        !host.contains(':') && !host.contains('/') && !host.contains('[') && !host.contains(']'),
        !port.contains(':') && !port.contains('/'),
        !path.contains(':') && !scheme.contains(':'),
    ensures
        host_in(host) == host,
        host_in(host + seq![':'] + port) == host,
        host_in(host + seq!['/'] + path) == host,
        host_in(scheme + seq![':', '/', '/'] + host) == host,
{
    lemma_host(host, Seq::empty());
    assert(host + Seq::<char>::empty() =~= host);
    lemma_host(host, seq![':'] + port);
    assert(host + (seq![':'] + port) =~= host + seq![':'] + port);
    lemma_no_scheme(host);
    lemma_no_scheme(host + seq![':'] + port);
    lemma_no_scheme(host + seq!['/'] + path);
    let with_path = host + seq!['/'] + path;
    crate::promises::texts::what_comes_before_the_first(with_path, '/');
    lemma_before(host, seq!['/'] + path);
    assert(host + (seq!['/'] + path) =~= with_path);
    reveal_strlit("://");
    assert("://"@ =~= seq![':', '/', '/']);
    let whole = scheme + seq![':', '/', '/'] + host;
    let at = scheme.len() as int;
    assert(whole.subrange(at, at + 3) =~= "://"@);
    assert forall|i: int| at < i <= whole.len() - 3 implies #[trigger] whole.subrange(i, i + 3)
        != "://"@ by {
        if whole.subrange(i, i + 3) == "://"@ {
            assert(whole.subrange(i, i + 3)[0] == ':');
            assert(whole[i] == ':');
            if i >= at + 3 {
                assert(host[i - at - 3] == ':');
            }
        }
    }
    crate::promises::texts::what_follows_the_last(whole, "://"@, at);
    assert(whole.skip(at + 3) =~= host);
}

proof fn lemma_no_scheme(text: Seq<char>)
    requires
        forall|i: int, j: int|
            0 <= i < text.len() && j == i + 1 && j < text.len() && text[i] == ':'
                ==> #[trigger] text[j] != '/' || #[trigger] text[i] != ':',
    ensures
        text::after_last(text, "://"@) == text,
{
    reveal_strlit("://");
    if text::contains(text, "://"@) {
        let i = choose|i: int|
            0 <= i <= text.len() - 3 && #[trigger] text.subrange(i, i + 3) == "://"@;
        assert(text.subrange(i, i + 3)[0] == ':' && text.subrange(i, i + 3)[1] == '/');
        assert(text[i] == ':' && text[i + 1] == '/');
    }
    crate::promises::texts::what_is_not_there_has_all_behind_it(text, "://"@);
}

proof fn lemma_before(host: Seq<char>, rest: Seq<char>)
    requires
        !host.contains('/'),
        rest.len() > 0 ==> rest[0] == '/',
    ensures
        text::before_first(host + rest, '/') == host,
{
    let whole = host + rest;
    crate::promises::texts::what_comes_before_the_first(whole, '/');
    let n = text::before_first(whole, '/').len() as int;
    if n < host.len() {
        assert(whole[n] == host[n]);
        assert(host.contains(host[n]));
    }
    if n > host.len() {
        assert(whole[host.len() as int] == rest[0]);
    }
    assert(whole.take(host.len() as int) =~= host);
}

proof fn lemma_host(host: Seq<char>, port: Seq<char>)
    requires
        !host.contains(':') && !host.contains('/') && !host.contains('[') && !host.contains(']'),
        !port.contains('/'),
        port.len() > 0 ==> port[0] == ':',
        forall|i: int| 0 < i < port.len() ==> #[trigger] port[i] != ':',
    ensures
        text::before_first(host + port, '/') == host + port,
        (match text::last_of(host + port, ':') {
            Some(colon) => (host + port).take(colon),
            None => host + port,
        }) == host,
        text::unbracketed(host) == host,
{
    let whole = host + port;
    crate::promises::texts::what_comes_before_the_first(whole, '/');
    let n = text::before_first(whole, '/').len() as int;
    if n < whole.len() {
        if n < host.len() {
            assert(host.contains(host[n]));
        } else {
            assert(port.contains(port[n - host.len()]));
        }
    }
    assert(whole.take(whole.len() as int) =~= whole);
    crate::promises::texts::the_last_place(whole, ':');
    if port.len() > 0 {
        assert(whole[host.len() as int] == ':');
        assert(whole.contains(':'));
        let at = text::last_of(whole, ':')->Some_0;
        if at < host.len() {
            assert(host.contains(host[at]));
        } else if at > host.len() {
            assert(port[at - host.len()] == ':');
        }
        assert(whole.take(host.len() as int) =~= host);
    } else {
        assert(whole =~= host);
    }
    if host.len() > 0 {
        assert(host.contains(host[0]) && host.contains(host[host.len() - 1]));
    }
}

/// A host in brackets, with colons in it, is the host without the brackets.
pub proof fn the_host_in_brackets(host: Seq<char>, port: Seq<char>)
    requires
        host.len() > 0,
        !host.contains('/') && !host.contains('[') && !host.contains(']'),
        !port.contains(':') && !port.contains('/'),
    ensures
        host_in(seq!['['] + host + seq![']', ':'] + port) == host,
{
    let inner = seq!['['] + host + seq![']'];
    let whole = seq!['['] + host + seq![']', ':'] + port;
    let at = inner.len() as int;
    lemma_no_slash_no_scheme(whole, host, port);
    crate::promises::texts::what_comes_before_the_first(whole, '/');
    let n = text::before_first(whole, '/').len() as int;
    assert(whole.take(whole.len() as int) =~= whole);
    assert(whole[at] == ':');
    assert(whole.contains(':'));
    crate::promises::texts::the_last_place(whole, ':');
    let last = text::last_of(whole, ':')->Some_0;
    if last > at {
        assert(port[last - at - 1] == ':');
        assert(port.contains(':'));
    }
    assert(whole.take(at) =~= inner);
    let (i, j) = crate::promises::texts::brackets_around_go(inner);
    assert(inner[0] == '[' && inner[at - 1] == ']');
    if i > 1 {
        assert(inner[1] == host[0]);
        assert(host.contains(host[0]));
    }
    if j < at - 1 {
        assert(inner[at - 2] == host[host.len() - 1]);
        assert(host.contains(host[host.len() - 1]));
    }
    assert(inner.subrange(1, at - 1) =~= host);
}

proof fn lemma_no_slash_no_scheme(whole: Seq<char>, host: Seq<char>, port: Seq<char>)
    requires
        whole == seq!['['] + host + seq![']', ':'] + port,
        !host.contains('/'),
        !port.contains('/'),
    ensures
        !whole.contains('/'),
        text::after_last(whole, "://"@) == whole,
{
    if whole.contains('/') {
        let i = choose|i: int| 0 <= i < whole.len() && whole[i] == '/';
        if 1 <= i < 1 + host.len() {
            assert(host[i - 1] == '/');
        } else if i >= host.len() + 3 {
            assert(port[i - host.len() - 3] == '/');
        }
    }
    reveal_strlit("://");
    if text::contains(whole, "://"@) {
        let i = choose|i: int|
            0 <= i <= whole.len() - 3 && #[trigger] whole.subrange(i, i + 3) == "://"@;
        assert(whole.subrange(i, i + 3)[1] == '/');
        assert(whole[i + 1] == '/');
        assert(whole.contains('/'));
    }
    crate::promises::texts::what_is_not_there_has_all_behind_it(whole, "://"@);
}

/// An identity is that of the key it was asked for, or it is said what was
/// wrong with the key.
pub proof fn an_identity_is_that_of_its_key(
    path: Seq<char>,
    pem: Seq<char>,
    names: Seq<Seq<char>>,
    identity: Identity,
    fingerprint: String,
)
    requires
        identity_done(path, pem, names, Ok(identity)),
    ensures
        identity.key_pem@ == key_in(pem).pem,
        identity.fingerprint@ == "SHA256:"@ + b64::standard_encoded(
            sha256_of(key_in(pem).public_key),
        ),
        fingerprint_done(path, pem, Ok(identity), Ok(fingerprint)) ==> fingerprint@
            == identity.fingerprint@,
{
}

/// A fingerprint that cannot be told is not, for the reason the identity was
/// not.
pub proof fn no_identity_no_fingerprint(
    path: Seq<char>,
    pem: Seq<char>,
    what: String,
    fingerprint: Result<String, String>,
)
    requires
        fingerprint_done(path, pem, Err(what), fingerprint),
    ensures
        fingerprint == Err::<String, String>(what),
{
}

/// Each step of a restore is what it is.
pub proof fn steps_are_what_they_are(step: Step)
    ensures
        step is Inspect <==> step@ is Inspect,
        step is Compare <==> step@ is Compare,
        step is Release <==> step@ is Release,
        step is Prepare <==> step@ is Prepare,
        step is SetAside <==> step@ is SetAside,
        step is PutInPlace <==> step@ is PutInPlace,
        step is ClearLogs <==> step@ is ClearLogs,
        step matches Step::Discard(why) ==> step@ == StepView::Discard(why@),
        step matches Step::PutBack(why) ==> step@ == StepView::PutBack(why@),
        step matches Step::Done(Ok(_)) ==> step@ == StepView::Restored,
        step matches Step::Done(Err(why)) ==> step@ == StepView::Refused(why@),
{
}

} // verus!
