//! What the functions that only look are answered with: of whatever comes back,
//! what it has to do with what was asked.

use crate::api::accounts::{vault, vault_params_at};
use crate::api::pairing::{waits, ReadQuery};
use crate::api::records::{news, stream_step, StreamEvent, StreamStep};
use crate::auth::{verify_signature, Authenticated};
use crate::commands::{account_line, backup_line, device_line};
use crate::config::{Config, TlsMode};
use crate::connections::{raise_open_files, too_few_files, Activity, Limits};
use crate::db::accounts::{self, Account, VaultHeader, VaultParams};
use crate::db::devices::{self, Device, DeviceSummary};
use crate::db::invites::token_hash;
use crate::db::records::{self, mailbox};
use crate::db::restore::{carry_numbers_forward, judge, reached_by, sibling, Inspection};
use crate::db::schema::{migrations, Migration, V1, V2, V3};
use crate::db::{constant_time_eq, Db};
use crate::error::{refused, ApiError, Refusal, Result};
use crate::health::{expected_key, local, url};
use crate::ids::{uuid_text, Uuid};
use crate::maintenance::{
    aside_path, enough_room, keep_newest, may_make_key, names_a_backup, needs_an_invite, night_step,
    room_for_backup, with_suffix, File, NightStep,
};
use crate::proto::{Envelope, PairMessages, PullResponse, PushResponse};
use crate::state::{Address, Announcement, AppState, Events};
use crate::tls::{
    identity_of, is_readable_by_others, key_found, key_path, load, load_or_create, public_key_of,
    validity, Identity, Key, KeyFile, KeyStep,
};
use crate::updates::{
    commits_found, key_of, order_versions, question, releases_found, repository_of,
    within_response, without_start, Build, Finding, GitHubRelease, Order, Question,
};
use crate::{calendar, epoch_ms, sha256_of, text};
use vstd::prelude::*;

verus! {

/// What a joining device is given of a header is the header's, each part.
pub proof fn parameters_are_the_headers(header: &VaultHeader, params: VaultParams)
    requires
        call_ensures(VaultHeader::params, (header,), params),
    ensures
        params.vault_id == header.vault_id,
        params.kdf_memory_kib == header.kdf_memory_kib,
        params.kdf_time_cost == header.kdf_time_cost,
        params.kdf_parallelism == header.kdf_parallelism,
        params.salt@ == header.salt@,
        params.needs_account_key == header.needs_account_key,
{
}

/// What somebody who joins with a good token is given are the parameters of the
/// account the token is for, each of them; and without a good token nothing.
pub proof fn who_joins_is_given_the_parameters(
    state: &AppState,
    enrolment: &str,
    now: u64,
    params: Result<VaultParams>,
    e: int,
    a: int,
)
    requires
        state.wf(),
        call_ensures(vault_params_at, (state, enrolment, now), params),
        0 <= e < state.db.enrolments@.len(),
        state.db.enrolments@[e].token_hash@ == token_hash(enrolment@),
        0 <= a < state.db.accounts@.len(),
        state.db.accounts@[a].id == state.db.enrolments@[e].account_id,
    ensures
        ({
            let header = state.db.accounts@[a].header;
            let good = state.db.enrolments@[e].used_ms is None && now
                < state.db.enrolments@[e].expires_ms;
            &&& params is Ok <==> good
            &&& params is Err ==> refused(params) == Some(Refusal::Unauthorized)
            &&& params matches Ok(params) ==> {
                &&& params.vault_id == header.vault_id
                &&& params.kdf_memory_kib == header.kdf_memory_kib
                &&& params.kdf_time_cost == header.kdf_time_cost
                &&& params.kdf_parallelism == header.kdf_parallelism
                &&& params.salt@ == header.salt@
                &&& params.needs_account_key == header.needs_account_key
            }
        }),
{
    let db = state@.db;
    assert(db.enrolments[e].token_hash == token_hash(enrolment@));
    assert(db.accounts[a].id == db.enrolments[e].account_id);
    crate::promises::accounts::a_token_joins_the_account_it_was_made_for(db, enrolment@, now, e);
    crate::promises::mailbox::a_mailbox_is_its_accounts(db, db.accounts[a].id, a);
}

/// The whole header is handed to a device that is in, each part as it is kept.
pub proof fn who_is_in_is_given_the_header(
    state: &AppState,
    auth: &Authenticated,
    header: Result<VaultHeader>,
    a: int,
)
    requires
        state.wf(),
        call_ensures(vault, (state, auth), header),
        0 <= a < state.db.accounts@.len(),
        state.db.accounts@[a].id == auth.account.id,
    ensures
        header matches Ok(header) && ({
            let kept = state.db.accounts@[a].header;
            &&& header.vault_id == kept.vault_id
            &&& header.kdf_memory_kib == kept.kdf_memory_kib
            &&& header.kdf_time_cost == kept.kdf_time_cost
            &&& header.kdf_parallelism == kept.kdf_parallelism
            &&& header.salt@ == kept.salt@
            &&& header.wrapped_nonce@ == kept.wrapped_nonce@
            &&& header.wrapped_blob@ == kept.wrapped_blob@
            &&& header.needs_account_key == kept.needs_account_key
        }),
{
    let db = state@.db;
    assert(db.accounts[a].id == auth.account.id);
    crate::promises::mailbox::a_mailbox_is_its_accounts(db, auth.account.id, a);
    assert(header->Ok_0@ == state.db.accounts@[a].header@);
}

/// An account is known by what is kept of it, and opened by the key whose hash
/// is kept.
pub proof fn an_account_is_what_is_kept_of_it(
    db: &Db,
    id: Uuid,
    account: Option<Account>,
    auth_key: &[u8],
    right: bool,
    count: usize,
    a: int,
)
    requires
        db@.wf(),
        0 <= a < db.accounts@.len(),
        db.accounts@[a].id == id,
        call_ensures(accounts::get, (db, id), account),
        call_ensures(accounts::verify, (db, id, auth_key), right),
        call_ensures(accounts::count, (db,), count),
    ensures
        account matches Some(account) && account.id == id && account.vault_id
            == db.accounts@[a].header.vault_id && account.seq == db.accounts@[a].seq,
        right <==> db.accounts@[a].auth_verifier@ == sha256_of(auth_key@),
        count == db.accounts@.len(),
{
    assert(db@.accounts[a].id == id);
    crate::promises::mailbox::a_mailbox_is_its_accounts(db@, id, a);
}

/// A device is known by what is kept of it, each part.
pub proof fn a_device_is_what_is_kept_of_it(db: &Db, id: Uuid, device: Option<Device>, d: int)
    requires
        db@.wf(),
        0 <= d < db.devices@.len(),
        db.devices@[d].id == id,
        call_ensures(devices::get, (db, id), device),
    ensures
        device matches Some(device) && device.id == id && device.account_id
            == db.devices@[d].account_id && device.name@ == db.devices@[d].name@
            && device.public_key@ == db.devices@[d].public_key@ && device.cursor
            == db.devices@[d].cursor && device.revoked == (db.devices@[d].revoked_ms is Some),
{
    assert(db@.devices[d].id == id);
    assert(db@.devices[db@.device_at(id)].id == id);
    let row = db@.devices[d];
    assert(row == db.devices@[d]@);
    let found = device->Some_0@;
    assert(found == devices::device_of(row));
}

/// Who is not there is not found.
pub proof fn who_is_not_there_is_not_found(
    db: &Db,
    id: Uuid,
    account: Option<Account>,
    header: Option<VaultHeader>,
    device: Option<Device>,
    auth_key: &[u8],
    right: bool,
)
    requires
        db@.wf(),
        call_ensures(accounts::get, (db, id), account),
        call_ensures(accounts::header, (db, id), header),
        call_ensures(accounts::verify, (db, id, auth_key), right),
        call_ensures(devices::get, (db, id), device),
    ensures
        (forall|a: int| 0 <= a < db.accounts@.len() ==> (#[trigger] db@.accounts[a]).id != id)
            ==> account is None && header is None && !right,
        (forall|d: int| 0 <= d < db.devices@.len() ==> (#[trigger] db@.devices[d]).id != id)
            ==> device is None,
{
}

/// The record that is held under an id comes in its envelope, field by field.
pub proof fn a_record_comes_in_its_envelope(
    db: &Db,
    account: &Account,
    id: Uuid,
    held: Result<Option<Envelope>>,
    r: int,
)
    requires
        db@.wf(),
        call_ensures(records::get, (db, account, id), held),
        0 <= r < mailbox(db@, account.id).len(),
        mailbox(db@, account.id)[r].id == id,
        db@.has_account(account.id),
    ensures
        held matches Ok(Some(envelope)) && ({
            let record = mailbox(db@, account.id)[r];
            &&& envelope.id == id
            &&& envelope.vault_id == account.vault_id
            &&& envelope.kind == record.kind
            &&& envelope.updated_at == record.updated_at
            &&& envelope.base_seq == record.seq
            &&& envelope.deleted == record.deleted
            &&& envelope.nonce@ == record.nonce
            &&& envelope.blob@ == record.blob
            &&& envelope.seq == Some(record.seq)
        }),
{
    let all = mailbox(db@, account.id);
    assert(db@.accounts[db@.account_at(account.id)].wf());
    assert(all[r].id == id);
    assert(records::holds(all, id));
    let p = records::place(all, id);
    assert(all[p].id == id);
    assert(p == r);
    let envelope = held->Ok_0->Some_0;
    assert(envelope@ == records::envelope_of(account.vault_id, all[r]));
}

/// What an account uses is what it counts.
pub proof fn what_an_account_uses(
    db: &Db,
    account: &Account,
    held: Result<(u64, u64)>,
    count: usize,
    a: int,
)
    requires
        db@.wf(),
        call_ensures(records::usage, (db, account), held),
        call_ensures(records::count, (db, account), count),
        0 <= a < db.accounts@.len(),
        db.accounts@[a].id == account.id,
        db.accounts@[a].record_count >= 0,
        db.accounts@[a].record_bytes >= 0,
    ensures
        held matches Ok(held) && held.0 == db.accounts@[a].record_count && held.1
            == db.accounts@[a].record_bytes,
        count == db.accounts@[a].records@.len(),
{
    assert(db@.accounts[a].id == account.id);
    crate::promises::mailbox::a_mailbox_is_its_accounts(db@, account.id, a);
}

/// A device reads what is held: each envelope on a page has the fields of a
/// record the account holds.
pub proof fn a_page_is_of_what_is_held(
    db: &Db,
    account: &Account,
    since: u64,
    limit: usize,
    manifests: bool,
    page: Result<PullResponse>,
    i: int,
    a: int,
) -> (r: int)
    requires
        db@.wf(),
        call_ensures(records::pull, (db, account, since, limit, manifests), page),
        page matches Ok(page) ==> 0 <= i < page.envelopes@.len(),
        0 <= a < db.accounts@.len(),
        db.accounts@[a].id == account.id,
    ensures
        page matches Ok(page) && ({
            let envelope = page.envelopes@[i];
            let record = db.accounts@[a].records@[r];
            &&& 0 <= r < db.accounts@[a].records@.len()
            &&& envelope.id == record.id
            &&& envelope.vault_id == account.vault_id
            &&& envelope.kind == record.kind
            &&& envelope.updated_at == record.updated_at
            &&& envelope.base_seq == record.seq
            &&& envelope.deleted == record.deleted
            &&& envelope.nonce@ == record.nonce@
            &&& envelope.blob@ == record.blob@
            &&& envelope.seq == Some(record.seq)
        }),
{
    let all = mailbox(db@, account.id);
    assert(db@.accounts[a].id == account.id);
    crate::promises::mailbox::a_mailbox_is_its_accounts(db@, account.id, a);
    assert(db@.accounts[a].wf());
    let given = page->Ok_0@.envelopes[i];
    assert(given == page->Ok_0.envelopes@[i]@);
    crate::promises::mailbox::a_page_gives_records_as_they_are(
        account.vault_id,
        all,
        db@.accounts[a].seq,
        since,
        limit,
        manifests,
        i,
    );
    let r = choose|r: int|
        0 <= r < all.len() && given.id == (#[trigger] all[r]).id && given.kind == all[r].kind
            && given.updated_at == all[r].updated_at && given.base_seq == all[r].seq && given.seq
            == Some(all[r].seq) && given.deleted == all[r].deleted && given.nonce == all[r].nonce
            && given.blob == all[r].blob;
    assert(all[r] == db.accounts@[a].records@[r]@);
    r
}

/// What one version is to another is asked of their numbers, from the first on.
pub proof fn the_greater_number_is_the_newer_version(a: &str, b: &str, order: Order, k: int)
    requires
        call_ensures(order_versions, (a, b), order),
        key_of(a@) is Some,
        key_of(b@) is Some,
        0 <= k < key_of(a@)->Some_0.numbers.len(),
        k < key_of(b@)->Some_0.numbers.len(),
        forall|i: int|
            0 <= i < k ==> #[trigger] key_of(a@)->Some_0.numbers[i]
                == key_of(b@)->Some_0.numbers[i],
    ensures
        key_of(a@)->Some_0.numbers[k] > key_of(b@)->Some_0.numbers[k] ==> order == Order::Greater,
        key_of(a@)->Some_0.numbers[k] < key_of(b@)->Some_0.numbers[k] ==> order == Order::Less,
{
    let (one, other) = (key_of(a@)->Some_0.numbers, key_of(b@)->Some_0.numbers);
    crate::promises::updates::the_first_number_that_differs_decides(one, other, k);
}

/// Commits since are a finding, and none are not.
pub proof fn commits_since(ahead_by: u32, finding: Finding)
    requires
        call_ensures(commits_found, (ahead_by,), finding),
    ensures
        ahead_by == 0 <==> finding is UpToDate,
        ahead_by != 0 <==> finding == Finding::Commits(ahead_by),
{
}

/// A release that is told of is one on the list that is an update, under its
/// tag without the `v` in front; and nothing is told only where there is none.
pub proof fn releases_since(
    list: &[GitHubRelease],
    version: &str,
    followed: Option<&str>,
    finding: Finding,
    i: int,
)
    requires
        call_ensures(releases_found, (list, version, followed), finding),
        0 <= i < list@.len(),
        !list@[i].draft,
        !list@[i].prerelease,
        crate::updates::versions_order(list@[i].tag_name@, version@) == Order::Greater,
    ensures
        finding is Release,
        exists|j: int|
            0 <= j < list@.len() && !(#[trigger] list@[j]).draft
                && crate::updates::versions_order(list@[j].tag_name@, version@) == Order::Greater
                && finding->url@ == list@[j].html_url@ && finding->version@ == without_start(
                list@[j].tag_name@,
                "v"@,
            ),
{
    let channel = crate::updates::Channel::for_tag(text::str_view(followed), version@);
    crate::promises::updates::the_newest_is_found(list@, list@.len(), version@, channel, i);
    let j = crate::updates::newest_of(list@, list@.len(), version@, channel)->Some_0;
    assert(crate::updates::is_update(list@[j], version@, channel));
}

/// What is asked for a build: the commits since, of one that is no release and
/// knows its own, and else the releases.
pub proof fn what_is_asked_for_a_build(build: &Build, repository: &str, asked: Question)
    requires
        call_ensures(question, (build, repository), asked),
    ensures
        asked is Commits <==> !build.release && build.commit is Some,
        asked matches Question::Commits { url } ==> url@ == "https://api.github.com/repos/"@
            + repository@ + "/compare/"@ + build.commit->Some_0@ + "...main"@,
        asked matches Question::Releases { url } ==> url@ == "https://api.github.com/repos/"@
            + repository@ + "/releases?per_page=30"@,
{
}

/// A response is read up to two mebibytes, and a repository is the path of its
/// address.
pub proof fn how_much_is_read(read: usize, chunk: usize, within: bool, address: &str, name: String)
    requires
        call_ensures(within_response, (read, chunk), within),
        call_ensures(repository_of, (address,), name),
    ensures
        within <==> read + chunk <= 2_097_152,
        name@ == text::without_slashes(without_start(address@, "https://github.com/"@)),
{
}

/// What is done in a night: with room a backup is made, and only once it is
/// made do old ones go; what nobody needs is forgotten in any case.
pub proof fn what_is_done_in_a_night(step: NightStep, done: bool, next: NightStep)
    requires
        call_ensures(night_step, (step, done), next),
    ensures
        next is Backup <==> step is CheckRoom && done,
        next is KeepNewest <==> step is Backup && done,
        next is Purge <==> step is KeepNewest || (!done && (step is CheckRoom || step is Backup)),
        next is Sleep <==> step is Purge,
        next is CheckRoom <==> step is Sleep,
{
}

/// There is room for a backup where, with it, a twentieth of the disk stays
/// free, and 256 mebibytes at least.
pub proof fn when_there_is_room(free: u64, total: u64, need: u64, enough: bool)
    requires
        call_ensures(enough_room, (free, total, need), enough),
    ensures
        enough <==> free >= need + total / 20 && free >= need + 268_435_456,
{
}

/// A backup is made where there is room for the database and its log, or where
/// nobody knows.
pub proof fn when_a_backup_is_made(
    free: u64,
    total: u64,
    database: u64,
    log: u64,
    room: std::result::Result<(), String>,
    unknown: std::result::Result<(), String>,
)
    requires
        database + log <= u64::MAX,
        call_ensures(room_for_backup, (Some((free, total)), database, log), room),
        call_ensures(room_for_backup, (None, database, log), unknown),
    ensures
        unknown is Ok,
        room is Ok <==> free >= database + log + total / 20 && free >= database + log + 268_435_456,
{
}

/// What is kept apart: what is named, what is put aside, and what a key or an
/// invite is made for.
pub proof fn small_decisions(
    parts: usize,
    is_here: bool,
    kept: bool,
    accounts: Option<usize>,
    may: bool,
    count: usize,
    open: usize,
    needs: bool,
    mode: u32,
    readable: bool,
)
    requires
        call_ensures(names_a_backup, (parts, is_here), kept),
        call_ensures(may_make_key, (accounts,), may),
        call_ensures(needs_an_invite, (count, open), needs),
        call_ensures(is_readable_by_others, (mode,), readable),
    ensures
        kept <==> parts == 1 && !is_here,
        may <==> accounts is Some && accounts->Some_0 == 0,
        needs <==> count == 0 && open == 0,
        readable <==> mode % 64 != 0,
{
}

/// Where things lie.
pub proof fn where_things_lie(
    database: &str,
    suffix: &str,
    ms: u64,
    data: &str,
    one: String,
    two: String,
    three: String,
    key: String,
)
    requires
        call_ensures(with_suffix, (database, suffix), one),
        call_ensures(aside_path, (database, ms), two),
        call_ensures(sibling, (database, suffix), three),
        call_ensures(key_path, (data,), key),
    ensures
        one@ == database@ + suffix@,
        two@ == database@ + (".before-restore-"@ + calendar::stamp_text(ms)),
        three@ == database@ + "-"@ + suffix@,
        key@ == text::joined(data@, "tls/key.pem"@),
{
}

/// A key is used that is there, and made where there is none and one may be;
/// one that cannot be read is not replaced.
pub proof fn when_a_key_is_made(
    path: &str,
    found: KeyFile,
    may: bool,
    step: KeyStep,
    other: KeyStep,
)
    requires
        call_ensures(load, (path, found, may), step),
        call_ensures(load_or_create, (path, found), other),
    ensures
        step is Make <==> found is Missing && may,
        other is Make <==> found is Missing,
        found matches KeyFile::Read(pem) ==> step == KeyStep::Use(pem) && other == KeyStep::Use(
            pem,
        ),
        found matches KeyFile::Failed(error) ==> step == KeyStep::Refuse(error) && other
            == KeyStep::Refuse(error),
        found is Missing && !may ==> step is Refuse,
{
}

/// A key that was read is the key, and one that was not is told of; so is an
/// identity that could not be made.
pub proof fn a_key_that_was_read_is_the_key(
    path: &str,
    read: std::result::Result<Key, String>,
    found: std::result::Result<Key, String>,
    key: Key,
    made: std::result::Result<String, String>,
    identity: std::result::Result<Identity, String>,
)
    requires
        call_ensures(key_found, (path, read), found),
        call_ensures(identity_of, (key, made), identity),
    ensures
        read matches Ok(key) ==> found == Ok::<Key, String>(key),
        read matches Err(error) ==> found is Err && found->Err_0@ == "the key in "@ + path@ + ": "@
            + error@,
        made matches Err(error) ==> identity == Err::<Identity, String>(error),
        made matches Ok(cert) ==> identity is Ok && identity->Ok_0.cert_pem == cert
            && identity->Ok_0.key_pem == key.pem && identity->Ok_0.fingerprint@ == "SHA256:"@
            + crate::b64::standard_encoded(sha256_of(key.public_key@)),
{
}

/// A certificate can be made while its last day can be said.
pub proof fn while_a_certificate_can_be_made(now: u64, valid: Option<(i64, i64)>)
    requires
        call_ensures(validity, (now,), valid),
    ensures
        valid is Some <==> now / 1000 + 397 * 86_400 <= 253_402_300_799,
        valid matches Some((since, until)) ==> since == now / 1000 - 86_400 && until == now / 1000
            + 397 * 86_400,
{
}

/// What is listened for on a connection: as many as are told, and behind a
/// proxy as many of one address as there are.
pub proof fn how_many_connections(config: &Config, limits: Limits)
    requires
        call_ensures(Limits::from_config, (config,), limits),
    ensures
        limits.max == config.max_connections,
        config.trust_forwarded ==> limits.per_address == 0,
        !config.trust_forwarded ==> limits.per_address == config.max_connections_per_address,
        limits.header_timeout == 15_000_000_000,
{
}

/// A connection idles while nothing on it is answered, and too long once its
/// time is up.
pub proof fn when_a_connection_idles(
    activity: &Activity,
    timeout: u64,
    now: u64,
    until: Option<u64>,
    too_long: bool,
)
    requires
        call_ensures(Activity::idle_until, (activity, timeout), until),
        call_ensures(Activity::idle_too_long, (activity, timeout, now), too_long),
        now < u64::MAX,
    ensures
        until is None <==> activity.answering > 0,
        until is Some && activity.idle_since + timeout <= u64::MAX ==> until->Some_0
            == activity.idle_since + timeout,
        too_long <==> until is Some && until->Some_0 <= now && activity.idle_since + timeout
            <= u64::MAX,
{
}

/// Files that may be open are raised as far as they may be, and are too few
/// where they leave no room beside the connections.
pub proof fn how_many_files(
    soft: u64,
    hard: u64,
    raised: Option<u64>,
    files: Option<u64>,
    connections: usize,
    too_few: bool,
)
    requires
        call_ensures(raise_open_files, (soft, hard), raised),
        call_ensures(too_few_files, (files, connections), too_few),
    ensures
        soft < hard ==> raised == Some(hard),
        soft >= hard ==> raised is None,
        files is None ==> !too_few,
        files matches Some(files) ==> (too_few <==> files < connections + 64),
{
}

/// What the command line shows.
pub proof fn what_the_command_line_shows(
    id: Uuid,
    live: usize,
    created_ms: u64,
    account: String,
    name: &str,
    bytes: u64,
    backup: String,
    device: &DeviceSummary,
    line: String,
)
    requires
        call_ensures(account_line, (id, live, created_ms), account),
        call_ensures(backup_line, (name, bytes), backup),
        call_ensures(device_line, (device,), line),
    ensures
        account@ == uuid_text(id) + "  "@ + text::decimal_text(live as nat) + " device(s)  since "@
            + calendar::date_text(calendar::day_of(created_ms as int / 86_400_000)),
        line@ == uuid_text(device.id) + "  "@ + device.name@ + "  "@
            + crate::commands::device_state(device@),
        exists|kib: nat|
            (kib - 1) * 1024 < bytes <= kib * 1024 && backup@ == #[trigger] (name@ + "  "@
                + text::decimal_text(kib) + " KiB"@),
{
    let kib = ((bytes + 1023) / 1024) as nat;
    assert(backup@ == name@ + "  "@ + text::decimal_text(kib) + " KiB"@);
}

/// A push that took something is news, of where the account then is.
pub proof fn what_is_news(response: &PushResponse, seq: Option<u64>)
    requires
        call_ensures(news, (response,), seq),
    ensures
        response.accepted@.len() > 0 ==> seq == Some(response.cursor.0),
        response.accepted@.len() == 0 ==> seq is None,
{
}

/// A stream passes news on by number, and ends with who it is for.
pub proof fn what_a_stream_does(event: StreamEvent, step: StreamStep)
    requires
        call_ensures(stream_step, (event,), step),
    ensures
        step is Send <==> event is News,
        event matches StreamEvent::News(seq) ==> step->Send_0@ == text::decimal_text(seq as nat),
        event is Closed ==> step is End,
        event is Lagged ==> step is Wait,
        event matches StreamEvent::Recheck { gone, still_in } ==> (step is End <==> gone
            || !still_in),
{
}

/// Who listens waits where they want to and there is nothing yet; who is told
/// of something are those that listen.
pub proof fn who_waits_and_who_is_told(
    found: &PairMessages,
    query: &ReadQuery,
    waiting: bool,
    listeners: Option<usize>,
    what: Announcement,
)
    requires
        call_ensures(waits, (found, query), waiting),
        call_ensures(Events::announce, (listeners,), what),
    ensures
        waiting <==> query.wait && found.messages@.len() == 0,
        what is Nobody <==> listeners is None,
        what is Forget <==> listeners == Some(0usize),
        what is Tell <==> listeners is Some && listeners->Some_0 > 0,
{
}

/// A health check knocks where the server listens, and on loopback where it
/// listens everywhere, and expects the key it has.
pub proof fn where_a_health_check_knocks(
    tls: TlsMode,
    key: std::result::Result<Option<Vec<u8>>, String>,
    expected: std::result::Result<Vec<u8>, String>,
    octets: [u8; 4],
    at: Address,
    place: &str,
    asked: String,
)
    requires
        call_ensures(expected_key, (tls, key), expected),
        call_ensures(local, (Address::V4 { octets },), at),
        call_ensures(url, (tls, place), asked),
    ensures
        tls == TlsMode::Off ==> expected is Ok && expected->Ok_0@.len() == 0,
        tls == TlsMode::Auto ==> (expected is Ok <==> key is Ok && key->Ok_0 is Some),
        tls == TlsMode::Auto && expected is Ok ==> key->Ok_0 == Some(expected->Ok_0),
        octets@ != seq![0u8, 0, 0, 0] ==> at == (Address::V4 { octets }),
        octets@ == seq![0u8, 0, 0, 0] ==> at is V4 && at->octets@ == seq![127u8, 0, 0, 1],
        tls == TlsMode::Auto ==> asked@ == "https"@ + "://"@ + place@ + "/healthz"@,
        tls == TlsMode::Off ==> asked@ == "http"@ + "://"@ + place@ + "/healthz"@,
{
    crate::promises::server::an_address_that_is_none(
        octets,
        [0u16, 0, 0, 0, 0, 0, 0, 0],
        Address::V4 { octets },
    );
}

/// The steps that bring a database up to date are those that it lacks, in
/// order, unless it is newer than any.
pub proof fn the_steps_a_database_lacks(
    version: i64,
    steps: std::result::Result<Vec<Migration>, String>,
    i: int,
)
    requires
        call_ensures(migrations, (version,), steps),
    ensures
        steps is Err <==> version > 3,
        version <= 0 ==> steps is Ok && steps->Ok_0@.len() == 3 && steps->Ok_0@[0].sql@ == V1@
            && steps->Ok_0@[1].sql@ == V2@ && steps->Ok_0@[2].sql@ == V3@,
        version == 1 ==> steps is Ok && steps->Ok_0@.len() == 2 && steps->Ok_0@[0].sql@ == V2@
            && steps->Ok_0@[1].sql@ == V3@,
        version == 2 ==> steps is Ok && steps->Ok_0@.len() == 1 && steps->Ok_0@[0].sql@ == V3@,
        version == 3 ==> steps is Ok && steps->Ok_0@.len() == 0,
        steps is Ok && 0 <= i < steps->Ok_0@.len() ==> steps->Ok_0@[i].version == 4
            - steps->Ok_0@.len() + i,
{
    if steps is Ok && 0 <= i < steps->Ok_0@.len() {
        assert(steps->Ok_0@[i].version == crate::db::schema::first_step(version) + i);
    }
    if steps is Ok && steps->Ok_0@.len() > 0 {
        assert(steps->Ok_0@[0].version == crate::db::schema::first_step(version));
    }
}

/// After a restore the numbers of every account go on from what was reached.
pub proof fn the_numbers_go_on(
    accounts: &Vec<(String, i64)>,
    reached: &Vec<(String, i64)>,
    next: Vec<i64>,
    i: int,
)
    requires
        call_ensures(carry_numbers_forward, (accounts, reached), next),
        0 <= i < accounts@.len(),
    ensures
        ({
            let map = reached_by(reached@);
            let (id, seq) = (accounts@[i].0@, accounts@[i].1);
            &&& next@.len() == accounts@.len()
            &&& map.contains_key(id) ==> next@[i] >= seq && next@[i] >= map[id] && (next@[i] == seq
                || next@[i] == map[id])
            &&& !map.contains_key(id) && seq + 1_000_000 <= i64::MAX ==> next@[i] == seq + 1_000_000
        }),
{
    assert(next@[i] == crate::db::restore::carried(
        accounts@[i].0@,
        accounts@[i].1,
        reached_by(reached@),
    ));
}

/// A backup is judged by what was found in it.
pub proof fn a_backup_is_judged(
    backup: &str,
    found: &Inspection,
    judged: std::result::Result<(), String>,
)
    requires
        call_ensures(judge, (backup, found), judged),
    ensures
        judged is Ok <==> (*found matches Inspection::Read { version, tables } && 1 <= version <= 3
            && tables == 3),
{
}

/// Times before the clock began are its beginning.
pub proof fn times_of_the_clock(since: Option<u128>, ms: u64)
    requires
        call_ensures(epoch_ms, (since,), ms),
    ensures
        since is None ==> ms == 0,
        since matches Some(since) ==> (since <= u64::MAX ==> ms == since),
{
}

/// Two secrets are the same that are, byte for byte.
pub proof fn two_secrets(a: &[u8], b: &[u8], equal: bool, i: int)
    requires
        call_ensures(constant_time_eq, (a, b), equal),
    ensures
        a@.len() != b@.len() ==> !equal,
        0 <= i < a@.len() && i < b@.len() && a@[i] != b@[i] ==> !equal,
        a@ == b@ ==> equal,
{
}

/// A signature is checked against the key and what was signed.
pub proof fn a_signature_is_checked(
    public_key: &[u8; 32],
    material: &[u8],
    signature: &[u8],
    valid: bool,
)
    requires
        call_ensures(verify_signature, (public_key, material, signature), valid),
    ensures
        valid <==> signature@.len() == 64 && crate::auth::strictly_signed(
            public_key@,
            material@,
            signature@,
        ),
{
}

/// A public key that is asked for is that of the key which was found.
pub proof fn the_public_key_of_what_was_found(
    path: &str,
    found: KeyFile,
    key: std::result::Result<Option<Vec<u8>>, String>,
)
    requires
        call_ensures(public_key_of, (path, found), key),
    ensures
        found is Missing ==> key == Ok::<Option<Vec<u8>>, String>(None),
        found matches KeyFile::Failed(error) ==> key == Err::<Option<Vec<u8>>, String>(error),
        found matches KeyFile::Read(pem) ==> (key is Ok ==> key->Ok_0 is Some && key->Ok_0->Some_0@
            == crate::tls::key_in(pem@).public_key),
{
}

/// Errors are answered with what they are.
pub proof fn what_errors_are_answered_with(
    error: &ApiError,
    code: (u16, &'static str),
    message: String,
)
    requires
        call_ensures(ApiError::code, (error,), code),
        call_ensures(ApiError::message, (error,), message),
    ensures
        error is Invalid ==> code.0 == 400,
        error is Unauthorized ==> code.0 == 401 && message@ == "not allowed"@,
        error is WrongPassword ==> code.0 == 403 && message@ == "that is not the master password"@,
        error is NotFound ==> code.0 == 404 && message@ == "no such thing"@,
        error is TooLarge ==> code.0 == 413,
        error is RateLimited ==> code.0 == 429 && message@ == "too many requests, try again later"@,
        error is Database || error is Internal ==> code.0 == 500 && message@
            == "something went wrong"@,
{
}

/// Of the backups the newest are kept, as many as are to be.
pub proof fn the_newest_backups_are_kept(files: Vec<File>, keep: usize, gone: Vec<File>)
    requires
        call_ensures(keep_newest, (files, keep), gone),
    ensures
        ({
            let all = crate::maintenance::backups_in(crate::maintenance::files_view(files@));
            &&& all.len() <= keep ==> gone@.len() == 0
            &&& all.len() > keep ==> gone@.len() == all.len() - keep
            &&& forall|i: int|
                0 <= i < gone@.len() ==> (#[trigger] gone@[i])@ == all[i]
        }),
{
    let shown = crate::maintenance::files_view(gone@);
    assert(shown.len() == gone@.len());
    assert forall|i: int| 0 <= i < gone@.len() implies (#[trigger] gone@[i])@
        == crate::maintenance::backups_in(crate::maintenance::files_view(files@))[i] by {
        assert(shown[i] == gone@[i]@);
    }
}

} // verus!
