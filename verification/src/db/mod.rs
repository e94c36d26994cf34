//! The database: the few tables a mailbox needs.

use crate::db::accounts::{VaultHeader, VaultHeaderView};
use crate::ids::Uuid;
use crate::proto::{EntityKind, Hlc};
use vstd::prelude::*;

pub mod accounts;
pub mod devices;
pub mod history;
pub mod invites;
pub mod laws;
pub mod records;
pub mod restore;
pub mod schema;
pub mod sound;

verus! {

/// One record of an account, in the one version that is kept of it.
#[derive(Debug)]
pub struct Record {
    pub id: Uuid,
    pub kind: EntityKind,
    pub seq: u64,
    pub updated_at: Hlc,
    pub deleted: bool,
    pub nonce: Vec<u8>,
    pub blob: Vec<u8>,
    /// Which device wrote this version.
    pub device_id: Uuid,
    pub updated_ms: u64,
}

/// A [`Record`] with its bytes as sequences.
pub struct RecordView {
    pub id: Uuid,
    pub kind: EntityKind,
    pub seq: u64,
    pub updated_at: Hlc,
    pub deleted: bool,
    pub nonce: Seq<u8>,
    pub blob: Seq<u8>,
    pub device_id: Uuid,
    pub updated_ms: u64,
}

impl View for Record {
    type V = RecordView;

    open spec fn view(&self) -> RecordView {
        RecordView {
            id: self.id,
            kind: self.kind,
            seq: self.seq,
            updated_at: self.updated_at,
            deleted: self.deleted,
            nonce: self.nonce@,
            blob: self.blob@,
            device_id: self.device_id,
            updated_ms: self.updated_ms,
        }
    }
}

impl Clone for Record {
    fn clone(&self) -> (copy: Self)
        ensures
            copy@ == self@,
    {
        Record {
            id: self.id,
            kind: self.kind,
            seq: self.seq,
            updated_at: self.updated_at,
            deleted: self.deleted,
            nonce: vstd::slice::slice_to_vec(self.nonce.as_slice()),
            blob: vstd::slice::slice_to_vec(self.blob.as_slice()),
            device_id: self.device_id,
            updated_ms: self.updated_ms,
        }
    }
}

/// Records by their views.
pub open spec fn records_view(records: Seq<Record>) -> Seq<RecordView> {
    records.map_values(|record: Record| record@)
}

/// One account: its vault, its login verifier, its sequence counter, and the
/// records in its mailbox.
#[derive(Debug)]
pub struct AccountRow {
    pub id: Uuid,
    pub created_ms: u64,
    pub header: VaultHeader,
    /// SHA-256 of the login key, not the key itself.
    pub auth_verifier: Vec<u8>,
    /// The last sequence number handed out. Monotonic, never reused, and the
    /// version of every record it numbered.
    pub seq: u64,
    /// What the account holds, counted as it changes.
    pub record_count: i64,
    pub record_bytes: i64,
    /// By sequence number, lowest first.
    pub records: Vec<Record>,
}

/// An [`AccountRow`] by its contents.
pub struct AccountView {
    pub id: Uuid,
    pub created_ms: u64,
    pub header: VaultHeaderView,
    pub auth_verifier: Seq<u8>,
    pub seq: u64,
    pub record_count: i64,
    pub record_bytes: i64,
    pub records: Seq<RecordView>,
}

impl View for AccountRow {
    type V = AccountView;

    open spec fn view(&self) -> AccountView {
        AccountView {
            id: self.id,
            created_ms: self.created_ms,
            header: self.header@,
            auth_verifier: self.auth_verifier@,
            seq: self.seq,
            record_count: self.record_count,
            record_bytes: self.record_bytes,
            records: records_view(self.records@),
        }
    }
}

/// Whether the records of a mailbox are in order: each id once, the numbers
/// rising and none beyond the last one handed out, no record larger than one
/// may be.
pub open spec fn in_order(records: Seq<RecordView>, seq: u64) -> bool {
    &&& forall|i: int, j: int|
        0 <= i < j < records.len() ==> (#[trigger] records[i]).seq < (#[trigger] records[j]).seq
            && records[i].id != records[j].id
    &&& forall|i: int|
        0 <= i < records.len() ==> (#[trigger] records[i]).seq <= seq && records[i].blob.len()
            <= crate::proto::MAX_BLOB_BYTES
}

impl AccountView {
    pub open spec fn wf(self) -> bool {
        in_order(self.records, self.seq)
    }
}

/// One device of an account.
#[derive(Debug)]
pub struct DeviceRow {
    pub id: Uuid,
    pub account_id: Uuid,
    pub name: String,
    /// Ed25519. The device signs a challenge with it instead of sending
    /// anything that could be replayed.
    pub public_key: [u8; 32],
    pub created_ms: u64,
    pub last_seen_ms: Option<u64>,
    /// How far this device has read.
    pub cursor: u64,
    pub revoked_ms: Option<u64>,
}

/// A [`DeviceRow`] by its contents.
pub struct DeviceRowView {
    pub id: Uuid,
    pub account_id: Uuid,
    pub name: Seq<char>,
    pub public_key: Seq<u8>,
    pub created_ms: u64,
    pub last_seen_ms: Option<u64>,
    pub cursor: u64,
    pub revoked_ms: Option<u64>,
}

impl View for DeviceRow {
    type V = DeviceRowView;

    open spec fn view(&self) -> DeviceRowView {
        DeviceRowView {
            id: self.id,
            account_id: self.account_id,
            name: self.name@,
            public_key: self.public_key@,
            created_ms: self.created_ms,
            last_seen_ms: self.last_seen_ms,
            cursor: self.cursor,
            revoked_ms: self.revoked_ms,
        }
    }
}

/// A code that creates one account.
#[derive(Debug)]
pub struct InviteRow {
    pub code_hash: Vec<u8>,
    pub created_ms: u64,
    pub expires_ms: u64,
    pub used_ms: Option<u64>,
}

/// An [`InviteRow`] by its contents.
pub struct InviteView {
    pub code_hash: Seq<u8>,
    pub created_ms: u64,
    pub expires_ms: u64,
    pub used_ms: Option<u64>,
}

impl View for InviteRow {
    type V = InviteView;

    open spec fn view(&self) -> InviteView {
        InviteView {
            code_hash: self.code_hash@,
            created_ms: self.created_ms,
            expires_ms: self.expires_ms,
            used_ms: self.used_ms,
        }
    }
}

/// A one-time token an enrolled device hands to a joining one, through a
/// channel this server cannot read.
#[derive(Debug)]
pub struct EnrolmentRow {
    pub token_hash: Vec<u8>,
    pub account_id: Uuid,
    pub created_ms: u64,
    pub expires_ms: u64,
    pub used_ms: Option<u64>,
    /// Which device made it; unknown for tokens from before that was kept.
    pub device_id: Option<Uuid>,
    /// How often a wrong password was tried with it.
    pub failures: u64,
}

/// An [`EnrolmentRow`] by its contents.
pub struct EnrolmentView {
    pub token_hash: Seq<u8>,
    pub account_id: Uuid,
    pub created_ms: u64,
    pub expires_ms: u64,
    pub used_ms: Option<u64>,
    pub device_id: Option<Uuid>,
    pub failures: u64,
}

impl View for EnrolmentRow {
    type V = EnrolmentView;

    open spec fn view(&self) -> EnrolmentView {
        EnrolmentView {
            token_hash: self.token_hash@,
            account_id: self.account_id,
            created_ms: self.created_ms,
            expires_ms: self.expires_ms,
            used_ms: self.used_ms,
            device_id: self.device_id,
            failures: self.failures,
        }
    }
}

/// Everything the server keeps.
#[derive(Debug)]
pub struct Db {
    pub accounts: Vec<AccountRow>,
    pub devices: Vec<DeviceRow>,
    pub invites: Vec<InviteRow>,
    pub enrolments: Vec<EnrolmentRow>,
}

/// A [`Db`] by its contents.
pub struct DbView {
    pub accounts: Seq<AccountView>,
    pub devices: Seq<DeviceRowView>,
    pub invites: Seq<InviteView>,
    pub enrolments: Seq<EnrolmentView>,
}

/// Accounts by their views.
pub open spec fn accounts_view(accounts: Seq<AccountRow>) -> Seq<AccountView> {
    accounts.map_values(|account: AccountRow| account@)
}

/// Devices by their views.
pub open spec fn devices_view(devices: Seq<DeviceRow>) -> Seq<DeviceRowView> {
    devices.map_values(|device: DeviceRow| device@)
}

/// Invites by their views.
pub open spec fn invites_view(invites: Seq<InviteRow>) -> Seq<InviteView> {
    invites.map_values(|invite: InviteRow| invite@)
}

/// Enrolment tokens by their views.
pub open spec fn enrolments_view(enrolments: Seq<EnrolmentRow>) -> Seq<EnrolmentView> {
    enrolments.map_values(|enrolment: EnrolmentRow| enrolment@)
}

impl View for Db {
    type V = DbView;

    open spec fn view(&self) -> DbView {
        DbView {
            accounts: accounts_view(self.accounts@),
            devices: devices_view(self.devices@),
            invites: invites_view(self.invites@),
            enrolments: enrolments_view(self.enrolments@),
        }
    }
}

/// Each account once, and every mailbox in order.
pub open spec fn accounts_wf(accounts: Seq<AccountView>) -> bool {
    &&& forall|i: int, j: int|
        0 <= i < j < accounts.len() ==> (#[trigger] accounts[i]).id != (#[trigger] accounts[j]).id
    &&& forall|i: int| 0 <= i < accounts.len() ==> (#[trigger] accounts[i]).wf()
}

/// Each device once.
pub open spec fn devices_wf(devices: Seq<DeviceRowView>) -> bool {
    forall|i: int, j: int|
        0 <= i < j < devices.len() ==> (#[trigger] devices[i]).id != (#[trigger] devices[j]).id
}

/// Each invite once.
pub open spec fn invites_wf(invites: Seq<InviteView>) -> bool {
    forall|i: int, j: int|
        0 <= i < j < invites.len() ==> (#[trigger] invites[i]).code_hash != (
        #[trigger] invites[j]).code_hash
}

/// Each token once, and none unused that was tried with too many wrong
/// passwords.
pub open spec fn enrolments_wf(enrolments: Seq<EnrolmentView>) -> bool {
    &&& forall|i: int, j: int|
        0 <= i < j < enrolments.len() ==> (#[trigger] enrolments[i]).token_hash != (
        #[trigger] enrolments[j]).token_hash
    &&& forall|i: int|
        0 <= i < enrolments.len() ==> (#[trigger] enrolments[i]).used_ms is None
            ==> enrolments[i].failures < invites::ENROLMENT_ATTEMPTS
}

impl DbView {
    /// A database with nothing in it.
    pub open spec fn empty() -> DbView {
        DbView {
            accounts: Seq::empty(),
            devices: Seq::empty(),
            invites: Seq::empty(),
            enrolments: Seq::empty(),
        }
    }

    /// Each account, device, invite and token once, every mailbox in order,
    /// and no token left that was tried with too many wrong passwords.
    pub open spec fn wf(self) -> bool {
        &&& accounts_wf(self.accounts)
        &&& devices_wf(self.devices)
        &&& invites_wf(self.invites)
        &&& enrolments_wf(self.enrolments)
    }

    /// Whether there is such an account.
    pub open spec fn has_account(self, id: Uuid) -> bool {
        exists|i: int| 0 <= i < self.accounts.len() && (#[trigger] self.accounts[i]).id == id
    }

    /// Where that account stands.
    pub open spec fn account_at(self, id: Uuid) -> int {
        choose|i: int| 0 <= i < self.accounts.len() && (#[trigger] self.accounts[i]).id == id
    }

    /// That account.
    pub open spec fn account(self, id: Uuid) -> AccountView {
        self.accounts[self.account_at(id)]
    }

    /// The database with that account changed, and nothing else.
    pub open spec fn with_account(self, id: Uuid, account: AccountView) -> DbView {
        DbView { accounts: self.accounts.update(self.account_at(id), account), ..self }
    }

    /// Whether there is such a device.
    pub open spec fn has_device(self, id: Uuid) -> bool {
        exists|i: int| 0 <= i < self.devices.len() && (#[trigger] self.devices[i]).id == id
    }

    /// Where that device stands.
    pub open spec fn device_at(self, id: Uuid) -> int {
        choose|i: int| 0 <= i < self.devices.len() && (#[trigger] self.devices[i]).id == id
    }

    /// That device.
    pub open spec fn device(self, id: Uuid) -> DeviceRowView {
        self.devices[self.device_at(id)]
    }

    /// The database with that device changed, and nothing else.
    pub open spec fn with_device(self, id: Uuid, device: DeviceRowView) -> DbView {
        DbView { devices: self.devices.update(self.device_at(id), device), ..self }
    }
}

impl Db {
    /// A database with nothing in it.
    pub fn open_in_memory() -> (db: Db)
        ensures
            db@ == DbView::empty(),
            db@.wf(),
    {
        let db: Db = Db {
            accounts: Vec::new(),
            devices: Vec::new(),
            invites: Vec::new(),
            enrolments: Vec::new(),
        };
        assert(db@.accounts =~= Seq::empty());
        assert(db@.devices =~= Seq::empty());
        assert(db@.invites =~= Seq::empty());
        assert(db@.enrolments =~= Seq::empty());
        db
    }

    /// Where an account stands, if there is such an account.
    pub fn find_account(&self, id: Uuid) -> (at: Option<usize>)
        ensures
            at is Some <==> self@.has_account(id),
            at matches Some(at) ==> at < self.accounts.len() && self.accounts[at as int].id == id,
            self@.wf() ==> (at matches Some(at) ==> at == self@.account_at(id)),
    {
        for i in 0..self.accounts.len()
            invariant
                forall|j: int| 0 <= j < i ==> (#[trigger] self.accounts[j]).id != id,
        {
            if self.accounts[i].id == id {
                assert(self@.accounts[i as int].id == id);
                return Some(i);
            }
        }
        assert forall|j: int| 0 <= j < self@.accounts.len() implies (
        #[trigger] self@.accounts[j]).id != id by {
            assert(self.accounts[j].id != id);
        }
        None
    }

    /// Where a device stands, if there is such a device.
    pub fn find_device(&self, id: Uuid) -> (at: Option<usize>)
        ensures
            at is Some <==> self@.has_device(id),
            at matches Some(at) ==> at < self.devices.len() && self.devices[at as int].id == id,
            self@.wf() ==> (at matches Some(at) ==> at == self@.device_at(id)),
    {
        for i in 0..self.devices.len()
            invariant
                forall|j: int| 0 <= j < i ==> (#[trigger] self.devices[j]).id != id,
        {
            if self.devices[i].id == id {
                assert(self@.devices[i as int].id == id);
                return Some(i);
            }
        }
        assert forall|j: int| 0 <= j < self@.devices.len() implies (
        #[trigger] self@.devices[j]).id != id by {
            assert(self.devices[j].id != id);
        }
        None
    }
}

/// A database stays well formed when a device changes and keeps its id.
pub(crate) proof fn lemma_changed_device_wf(db: DbView, at: int, changed: DeviceRowView)
    requires
        db.wf(),
        0 <= at < db.devices.len(),
        changed.id == db.devices[at].id,
    ensures
        (DbView { devices: db.devices.update(at, changed), ..db }).wf(),
{
    let after = DbView { devices: db.devices.update(at, changed), ..db };
    assert forall|i: int, j: int| 0 <= i < j < after.devices.len() implies (
    #[trigger] after.devices[i]).id != (#[trigger] after.devices[j]).id by {
        assert(db.devices[i].id != db.devices[j].id);
    }
}

/// Compare two secrets without letting how long it takes say how much of them
/// matched.
pub fn constant_time_eq(a: &[u8], b: &[u8]) -> (equal: bool)
    ensures
        equal == (a@ == b@),
{
    if a.len() != b.len() {
        return false;
    }
    let mut diff: u8 = 0;
    assert(a@.take(0) =~= b@.take(0));
    for i in 0..a.len()
        invariant
            a@.len() == b@.len(),
            diff == 0 <==> a@.take(i as int) == b@.take(i as int),
    {
        let (x, y): (u8, u8) = (a[i], b[i]);
        let ghost before = diff;
        diff = diff | (x ^ y);
        proof {
            assert((before | (x ^ y)) == 0 <==> before == 0 && x == y) by (bit_vector);
            assert(a@.take(i + 1) =~= a@.take(i as int).push(x));
            assert(b@.take(i + 1) =~= b@.take(i as int).push(y));
            if a@.take(i + 1) == b@.take(i + 1) {
                assert(a@.take(i + 1).drop_last() =~= a@.take(i as int));
                assert(b@.take(i + 1).drop_last() =~= b@.take(i as int));
                assert(a@.take(i + 1).last() == x);
                assert(b@.take(i + 1).last() == y);
            }
        }
    }
    assert(a@.take(a@.len() as int) =~= a@);
    assert(b@.take(b@.len() as int) =~= b@);
    diff == 0
}

} // verus!
