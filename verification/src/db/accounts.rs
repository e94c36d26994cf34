//! Accounts: one vault, one login verifier, one sequence counter.
//!
//! What the server keeps about an account is exactly what it needs to hand the
//! vault back to a device that proves it knows the master password, and not
//! one field more. The header is not secret; the verifier is a hash of a key
//! that was itself derived from the password *and* the account key, so a copy
//! of this table is not a shortcut to anything.

use crate::db::laws::lemma_with_account;
use crate::db::{constant_time_eq, AccountRow, AccountView, Db, DbView};
use crate::error::{ApiError, Refusal, Result};
use crate::ids::{is_v7, Uuid};
use crate::{now_ms, sha256, sha256_of};
use vstd::prelude::*;

verus! {

/// The vault header as it travels: base64 for the bytes.
#[derive(Debug)]
pub struct VaultHeader {
    pub vault_id: Uuid,
    pub kdf_memory_kib: u32,
    pub kdf_time_cost: u32,
    pub kdf_parallelism: u32,
    pub salt: String,
    pub wrapped_nonce: String,
    pub wrapped_blob: String,
    /// Whether the vault needs its account key as well as the password. The
    /// server cannot tell, so the client says.
    pub needs_account_key: bool,
}

/// A [`VaultHeader`] with its texts as sequences of characters.
pub struct VaultHeaderView {
    pub vault_id: Uuid,
    pub kdf_memory_kib: u32,
    pub kdf_time_cost: u32,
    pub kdf_parallelism: u32,
    pub salt: Seq<char>,
    pub wrapped_nonce: Seq<char>,
    pub wrapped_blob: Seq<char>,
    pub needs_account_key: bool,
}

impl View for VaultHeader {
    type V = VaultHeaderView;

    open spec fn view(&self) -> VaultHeaderView {
        VaultHeaderView {
            vault_id: self.vault_id,
            kdf_memory_kib: self.kdf_memory_kib,
            kdf_time_cost: self.kdf_time_cost,
            kdf_parallelism: self.kdf_parallelism,
            salt: self.salt@,
            wrapped_nonce: self.wrapped_nonce@,
            wrapped_blob: self.wrapped_blob@,
            needs_account_key: self.needs_account_key,
        }
    }
}

impl Clone for VaultHeader {
    fn clone(&self) -> (copy: Self)
        ensures
            copy@ == self@,
    {
        VaultHeader {
            vault_id: self.vault_id,
            kdf_memory_kib: self.kdf_memory_kib,
            kdf_time_cost: self.kdf_time_cost,
            kdf_parallelism: self.kdf_parallelism,
            salt: self.salt.clone(),
            wrapped_nonce: self.wrapped_nonce.clone(),
            wrapped_blob: self.wrapped_blob.clone(),
            needs_account_key: self.needs_account_key,
        }
    }
}

/// The part of the header a device may see before it has proved anything: what
/// it needs to turn a master password into keys, and nothing it could attack
/// offline.
#[derive(Debug)]
pub struct VaultParams {
    pub vault_id: Uuid,
    pub kdf_memory_kib: u32,
    pub kdf_time_cost: u32,
    pub kdf_parallelism: u32,
    pub salt: String,
    pub needs_account_key: bool,
}

/// [`VaultParams`] with the salt as a sequence of characters.
pub struct VaultParamsView {
    pub vault_id: Uuid,
    pub kdf_memory_kib: u32,
    pub kdf_time_cost: u32,
    pub kdf_parallelism: u32,
    pub salt: Seq<char>,
    pub needs_account_key: bool,
}

impl View for VaultParams {
    type V = VaultParamsView;

    open spec fn view(&self) -> VaultParamsView {
        VaultParamsView {
            vault_id: self.vault_id,
            kdf_memory_kib: self.kdf_memory_kib,
            kdf_time_cost: self.kdf_time_cost,
            kdf_parallelism: self.kdf_parallelism,
            salt: self.salt@,
            needs_account_key: self.needs_account_key,
        }
    }
}

impl VaultHeaderView {
    /// What a joining device sees of a header.
    pub open spec fn params(self) -> VaultParamsView {
        VaultParamsView {
            vault_id: self.vault_id,
            kdf_memory_kib: self.kdf_memory_kib,
            kdf_time_cost: self.kdf_time_cost,
            kdf_parallelism: self.kdf_parallelism,
            salt: self.salt,
            needs_account_key: self.needs_account_key,
        }
    }

    /// Costs a device can actually run, and something to open.
    pub open spec fn plausible(self) -> bool {
        &&& 1 <= self.kdf_memory_kib <= 1024 * 1024
        &&& 1 <= self.kdf_time_cost <= 16
        &&& 1 <= self.kdf_parallelism <= 16
        &&& self.salt.len() > 0
        &&& self.wrapped_blob.len() > 0
    }
}

impl VaultHeader {
    pub fn params(&self) -> (params: VaultParams)
        ensures
            params@ == self@.params(),
            params.vault_id == self.vault_id,
            params.kdf_memory_kib == self.kdf_memory_kib,
            params.kdf_time_cost == self.kdf_time_cost,
            params.kdf_parallelism == self.kdf_parallelism,
            params.salt@ == self.salt@,
            params.needs_account_key == self.needs_account_key,
    {
        VaultParams {
            vault_id: self.vault_id,
            kdf_memory_kib: self.kdf_memory_kib,
            kdf_time_cost: self.kdf_time_cost,
            kdf_parallelism: self.kdf_parallelism,
            salt: self.salt.clone(),
            needs_account_key: self.needs_account_key,
        }
    }

    /// Costs a device can actually run. A header asking for a terabyte of
    /// memory would lock every device out of its own vault, so it is refused
    /// on the way in rather than discovered on the way out.
    pub fn plausible(&self) -> (plausible: bool)
        ensures
            plausible == self@.plausible(),
    {
        1 <= self.kdf_memory_kib && self.kdf_memory_kib <= 1024 * 1024 && 1 <= self.kdf_time_cost
            && self.kdf_time_cost <= 16 && 1 <= self.kdf_parallelism && self.kdf_parallelism <= 16
            && !self.salt.as_str().is_empty() && !self.wrapped_blob.as_str().is_empty()
    }
}

/// The cheapest key derivation a vault header may ask for.
#[derive(Debug, Clone, Copy, PartialEq, Eq, Structural)]
pub struct KdfFloor {
    pub memory_kib: u32,
    pub time_cost: u32,
}

impl KdfFloor {
    /// The floor of every server that is not a test.
    pub open spec fn standard() -> KdfFloor {
        KdfFloor { memory_kib: 19456, time_cost: 2 }
    }

    /// Whether a header asks for at least that much.
    pub open spec fn holds(self, header: VaultHeaderView) -> bool {
        header.kdf_memory_kib >= self.memory_kib && header.kdf_time_cost >= self.time_cost
    }

    /// Whether a header asks for at least that much, or what to say of it.
    pub fn check(&self, header: &VaultHeader) -> (checked: std::result::Result<(), String>)
        ensures
            checked is Ok <==> self.holds(header@),
            checked matches Err(what) ==> what@ == "a vault too cheap to guess against"@,
    {
        if header.kdf_memory_kib < self.memory_kib || header.kdf_time_cost < self.time_cost {
            Err("a vault too cheap to guess against".to_owned())
        } else {
            Ok(())
        }
    }
}

impl Default for KdfFloor {
    fn default() -> (floor: Self)
        ensures
            floor == KdfFloor::standard(),
    {
        KdfFloor { memory_kib: 19456, time_cost: 2 }
    }
}

#[derive(Debug, Clone, Copy, PartialEq, Eq, Structural)]
pub struct Account {
    pub id: Uuid,
    pub vault_id: Uuid,
    /// The last sequence number handed out for this account.
    pub seq: u64,
}

/// How many accounts there are.
pub fn count(db: &Db) -> (accounts: usize)
    ensures
        accounts == db@.accounts.len(),
{
    db.accounts.len()
}

/// An account as it begins: an empty mailbox at sequence zero, and of the
/// login key only the hash.
pub open spec fn fresh_account(
    id: Uuid,
    header: VaultHeaderView,
    auth_key: Seq<u8>,
    now: u64,
) -> AccountView {
    AccountView {
        id,
        created_ms: now,
        header,
        auth_verifier: sha256_of(auth_key),
        seq: 0,
        record_count: 0,
        record_bytes: 0,
        records: Seq::empty(),
    }
}

/// What creating an account under a given id and at a given time does: it is
/// there afterwards, unless the id was taken.
pub open spec fn create_done(
    before: DbView,
    after: DbView,
    id: Uuid,
    header: VaultHeaderView,
    auth_key: Seq<u8>,
    now: u64,
    created: Result<Account>,
) -> bool {
    match created {
        Ok(account) => {
            &&& !before.has_account(id)
            &&& account == (Account { id, vault_id: header.vault_id, seq: 0 })
            &&& after == (DbView {
                accounts: before.accounts.push(fresh_account(id, header, auth_key, now)),
                ..before
            })
        },
        Err(error) => {
            &&& before.has_account(id)
            &&& error@ == Refusal::Database("UNIQUE constraint failed: accounts.id"@)
            &&& after == before
        },
    }
}

/// [`create`] under a given id and at a given time.
pub fn create_at(
    db: &mut Db,
    id: Uuid,
    header: &VaultHeader,
    auth_key: &[u8],
    now: u64,
) -> (created: Result<Account>)
    requires
        old(db)@.wf(),
    ensures
        final(db)@.wf(),
        create_done(old(db)@, final(db)@, id, header@, auth_key@, now, created),
{
    if db.find_account(id).is_some() {
        return Err(ApiError::Database("UNIQUE constraint failed: accounts.id".to_owned()));
    }
    let verifier: [u8; 32] = sha256(auth_key);
    let row: AccountRow = AccountRow {
        id,
        created_ms: now,
        header: header.clone(),
        auth_verifier: vstd::slice::slice_to_vec(verifier.as_slice()),
        seq: 0,
        record_count: 0,
        record_bytes: 0,
        records: Vec::new(),
    };
    proof {
        assert(row@.records =~= Seq::empty());
        assert forall|i: int| 0 <= i < db@.accounts.len() implies (
        #[trigger] db@.accounts[i]).id != id by {
            assert(!old(db)@.has_account(id));
        }
    }
    db.accounts.push(row);
    assert(db@.accounts =~= old(db)@.accounts.push(row@));
    Ok(Account { id, vault_id: header.vault_id, seq: 0 })
}

/// A new account for a vault, opened by a login key.
pub fn create(db: &mut Db, header: &VaultHeader, auth_key: &[u8]) -> (created: Result<Account>)
    requires
        old(db)@.wf(),
    ensures
        final(db)@.wf(),
        exists|id: Uuid, now: u64|
            is_v7(id.value) && #[trigger] create_done(
                old(db)@,
                final(db)@,
                id,
                header@,
                auth_key@,
                now,
                created,
            ),
{
    let id: Uuid = Uuid::now_v7();
    let now: u64 = now_ms();
    create_at(db, id, header, auth_key, now)
}

/// The account of that name, if there is one.
pub fn get(db: &Db, id: Uuid) -> (account: Option<Account>)
    requires
        db@.wf(),
    ensures
        account is Some <==> db@.has_account(id),
        account matches Some(account) ==> account == (Account {
            id,
            vault_id: db@.account(id).header.vault_id,
            seq: db@.account(id).seq,
        }),
{
    match db.find_account(id) {
        Some(at) => {
            assert(db@.accounts[at as int] == db.accounts[at as int]@);
            Some(
                Account {
                    id,
                    vault_id: db.accounts[at].header.vault_id,
                    seq: db.accounts[at].seq,
                },
            )
        },
        None => None,
    }
}

/// The vault header of an account, if there is such an account.
pub fn header(db: &Db, id: Uuid) -> (header: Option<VaultHeader>)
    requires
        db@.wf(),
    ensures
        header is Some <==> db@.has_account(id),
        header matches Some(header) ==> header@ == db@.account(id).header,
{
    match db.find_account(id) {
        Some(at) => {
            assert(db@.accounts[at as int] == db.accounts[at as int]@);
            Some(db.accounts[at].header.clone())
        },
        None => None,
    }
}

/// Whether this is the login key of that account.
pub open spec fn is_login_key(db: DbView, id: Uuid, auth_key: Seq<u8>) -> bool {
    db.has_account(id) && db.account(id).auth_verifier == sha256_of(auth_key)
}

/// Whether this is the login key of that account. A missing account and a
/// wrong key answer the same.
pub fn verify(db: &Db, id: Uuid, auth_key: &[u8]) -> (right: bool)
    requires
        db@.wf(),
    ensures
        right == is_login_key(db@, id, auth_key@),
{
    match db.find_account(id) {
        Some(at) => {
            assert(db@.accounts[at as int] == db.accounts[at as int]@);
            let given: [u8; 32] = sha256(auth_key);
            constant_time_eq(db.accounts[at].auth_verifier.as_slice(), given.as_slice())
        },
        None => false,
    }
}

/// An account whose vault key was wrapped again. Which vault it is does not
/// change, and neither does anything in it.
pub open spec fn rewrapped(
    account: AccountView,
    header: VaultHeaderView,
    auth_key: Seq<u8>,
) -> AccountView {
    AccountView {
        header: VaultHeaderView { vault_id: account.header.vault_id, ..header },
        auth_verifier: sha256_of(auth_key),
        ..account
    }
}

/// A new master password: the vault key is wrapped again and the verifier
/// replaced. No record is touched: that is the point of wrapping a key
/// instead of encrypting with the password.
pub fn set_header(db: &mut Db, id: Uuid, header: &VaultHeader, auth_key: &[u8])
    requires
        old(db)@.wf(),
    ensures
        final(db)@.wf(),
        final(db)@ == if old(db)@.has_account(id) {
            old(db)@.with_account(id, rewrapped(old(db)@.account(id), header@, auth_key@))
        } else {
            old(db)@
        },
        old(db)@.has_account(id) ==> ({
            let (was, is) = (old(db)@.account(id), final(db)@.account(id));
            &&& final(db)@.has_account(id)
            &&& is.header.vault_id == was.header.vault_id
            &&& is.header.kdf_memory_kib == header.kdf_memory_kib
            &&& is.header.kdf_time_cost == header.kdf_time_cost
            &&& is.header.kdf_parallelism == header.kdf_parallelism
            &&& is.header.salt == header.salt@
            &&& is.header.wrapped_nonce == header.wrapped_nonce@
            &&& is.header.wrapped_blob == header.wrapped_blob@
            &&& is.header.needs_account_key == header.needs_account_key
            &&& is.auth_verifier == sha256_of(auth_key@)
            &&& is.records == was.records
        }),
{
    match db.find_account(id) {
        Some(at) => {
            let ghost before = db.accounts[at as int]@;
            assert(db@.accounts[at as int] == before);
            let verifier: [u8; 32] = sha256(auth_key);
            let mut next: VaultHeader = header.clone();
            next.vault_id = db.accounts[at].header.vault_id;
            db.accounts[at].header = next;
            db.accounts[at].auth_verifier = vstd::slice::slice_to_vec(verifier.as_slice());
            assert(db@.accounts =~= old(db)@.accounts.update(
                at as int,
                rewrapped(before, header@, auth_key@),
            ));
            assert(db@.devices =~= old(db)@.devices);
            proof {
                lemma_with_account(old(db)@, id, rewrapped(before, header@, auth_key@), id);
            }
        },
        None => {},
    }
}

/// After a new password the new login key opens the account, and the old one
/// does not, unless the two have the same hash.
pub proof fn a_new_password_replaces_the_old(
    db: DbView,
    id: Uuid,
    header: VaultHeaderView,
    old_key: Seq<u8>,
    new_key: Seq<u8>,
)
    requires
        db.wf(),
        is_login_key(db, id, old_key),
    ensures
        ({
            let after = db.with_account(id, rewrapped(db.account(id), header, new_key));
            &&& is_login_key(after, id, new_key)
            &&& is_login_key(after, id, old_key) <==> sha256_of(old_key) == sha256_of(new_key)
            &&& after.account(id).records == db.account(id).records
            &&& after.account(id).seq == db.account(id).seq
        }),
{
    let after = db.with_account(id, rewrapped(db.account(id), header, new_key));
    assert(after.accounts[db.account_at(id)].id == id);
    let at = after.account_at(id);
    assert(db.accounts[at].id == id);
}

} // verus!
