//! Whether rows that come from outside make a database.
//!
//! The rest of this library keeps a database well formed once it is. Rows read
//! from a file are held to it first.

use crate::db::{
    accounts_view, accounts_wf, constant_time_eq, devices_view, devices_wf, enrolments_view,
    enrolments_wf, in_order, invites, invites_view, invites_wf, records_view, AccountRow, Db,
    DeviceRow, EnrolmentRow, InviteRow, Record,
};
use crate::proto::MAX_BLOB_BYTES;
use vstd::prelude::*;

verus! {

/// Whether a mailbox is in order.
fn records_sound(records: &Vec<Record>, seq: u64) -> (sound: bool)
    ensures
        sound == in_order(records_view(records@), seq),
{
    let ghost all = records_view(records@);
    for i in 0..records.len()
        invariant
            all == records_view(records@),
            in_order(all.take(i as int), seq),
    {
        assert(all[i as int] == records[i as int]@);
        if records[i].seq > seq || records[i].blob.len() > MAX_BLOB_BYTES {
            return false;
        }
        for j in 0..i
            invariant
                i < records.len(),
                all == records_view(records@),
                forall|k: int|
                    0 <= k < j ==> (#[trigger] all[k]).seq < all[i as int].seq && all[k].id
                        != all[i as int].id,
        {
            assert(all[j as int] == records[j as int]@ && all[i as int] == records[i as int]@);
            if records[j].seq >= records[i].seq || records[j].id == records[i].id {
                assert(!(all[j as int].seq < all[i as int].seq && all[j as int].id
                    != all[i as int].id));
                return false;
            }
        }
        let ghost next = all.take(i + 1);
        assert(next.len() == i + 1);
        assert forall|a: int, b: int| 0 <= a < b < next.len() implies (#[trigger] next[a]).seq < (
        #[trigger] next[b]).seq && next[a].id != next[b].id by {
            if b < i {
                assert(all.take(i as int)[a].seq < all.take(i as int)[b].seq);
            } else {
                assert(all[a].seq < all[i as int].seq);
            }
        }
        assert forall|a: int| 0 <= a < next.len() implies (#[trigger] next[a]).seq <= seq
            && next[a].blob.len() <= MAX_BLOB_BYTES by {
            if a < i {
                assert(all.take(i as int)[a].seq <= seq);
            }
        }
    }
    assert(all.take(records.len() as int) =~= all);
    true
}

/// Whether each account is there once, and every mailbox is in order.
fn accounts_sound(accounts: &Vec<AccountRow>) -> (sound: bool)
    ensures
        sound == accounts_wf(accounts_view(accounts@)),
{
    let ghost all = accounts_view(accounts@);
    for i in 0..accounts.len()
        invariant
            all == accounts_view(accounts@),
            forall|a: int, b: int|
                0 <= a < b < i ==> (#[trigger] all[a]).id != (#[trigger] all[b]).id,
            forall|a: int| 0 <= a < i ==> (#[trigger] all[a]).wf(),
    {
        assert(all[i as int] == accounts[i as int]@);
        if !records_sound(&accounts[i].records, accounts[i].seq) {
            assert(!all[i as int].wf());
            return false;
        }
        for j in 0..i
            invariant
                i < accounts.len(),
                all == accounts_view(accounts@),
                forall|k: int| 0 <= k < j ==> (#[trigger] all[k]).id != all[i as int].id,
        {
            assert(all[j as int] == accounts[j as int]@ && all[i as int] == accounts[i as int]@);
            if accounts[j].id == accounts[i].id {
                assert(all[j as int].id == all[i as int].id);
                return false;
            }
        }
    }
    true
}

/// Whether each device is there once.
fn devices_sound(devices: &Vec<DeviceRow>) -> (sound: bool)
    ensures
        sound == devices_wf(devices_view(devices@)),
{
    let ghost all = devices_view(devices@);
    for i in 0..devices.len()
        invariant
            all == devices_view(devices@),
            forall|a: int, b: int|
                0 <= a < b < i ==> (#[trigger] all[a]).id != (#[trigger] all[b]).id,
    {
        for j in 0..i
            invariant
                i < devices.len(),
                all == devices_view(devices@),
                forall|k: int| 0 <= k < j ==> (#[trigger] all[k]).id != all[i as int].id,
        {
            assert(all[j as int] == devices[j as int]@ && all[i as int] == devices[i as int]@);
            if devices[j].id == devices[i].id {
                assert(all[j as int].id == all[i as int].id);
                return false;
            }
        }
    }
    true
}

/// Whether each invite is there once.
fn invites_sound(invites: &Vec<InviteRow>) -> (sound: bool)
    ensures
        sound == invites_wf(invites_view(invites@)),
{
    let ghost all = invites_view(invites@);
    for i in 0..invites.len()
        invariant
            all == invites_view(invites@),
            forall|a: int, b: int|
                0 <= a < b < i ==> (#[trigger] all[a]).code_hash != (#[trigger] all[b]).code_hash,
    {
        for j in 0..i
            invariant
                i < invites.len(),
                all == invites_view(invites@),
                forall|k: int|
                    0 <= k < j ==> (#[trigger] all[k]).code_hash != all[i as int].code_hash,
        {
            assert(all[j as int] == invites[j as int]@ && all[i as int] == invites[i as int]@);
            if constant_time_eq(invites[j].code_hash.as_slice(), invites[i].code_hash.as_slice()) {
                assert(all[j as int].code_hash == all[i as int].code_hash);
                return false;
            }
        }
    }
    true
}

/// Whether each token is there once, and none is unused that was tried with
/// too many wrong passwords.
fn enrolments_sound(enrolments: &Vec<EnrolmentRow>) -> (sound: bool)
    ensures
        sound == enrolments_wf(enrolments_view(enrolments@)),
{
    let ghost all = enrolments_view(enrolments@);
    for i in 0..enrolments.len()
        invariant
            all == enrolments_view(enrolments@),
            forall|a: int, b: int|
                0 <= a < b < i ==> (#[trigger] all[a]).token_hash != (
                #[trigger] all[b]).token_hash,
            forall|a: int|
                0 <= a < i ==> (#[trigger] all[a]).used_ms is None ==> all[a].failures
                    < invites::ENROLMENT_ATTEMPTS,
    {
        assert(all[i as int] == enrolments[i as int]@);
        if enrolments[i].used_ms.is_none() && enrolments[i].failures
            >= invites::ENROLMENT_ATTEMPTS {
            assert(all[i as int].used_ms is None);
            return false;
        }
        for j in 0..i
            invariant
                i < enrolments.len(),
                all == enrolments_view(enrolments@),
                forall|k: int|
                    0 <= k < j ==> (#[trigger] all[k]).token_hash != all[i as int].token_hash,
        {
            assert(all[j as int] == enrolments[j as int]@ && all[i as int]
                == enrolments[i as int]@);
            if constant_time_eq(
                enrolments[j].token_hash.as_slice(),
                enrolments[i].token_hash.as_slice(),
            ) {
                assert(all[j as int].token_hash == all[i as int].token_hash);
                return false;
            }
        }
    }
    true
}

impl Db {
    /// Whether the rows make a database: what every function of this library
    /// that works on one relies on, and keeps.
    pub fn sound(&self) -> (sound: bool)
        ensures
            sound == self@.wf(),
    {
        accounts_sound(&self.accounts) && devices_sound(&self.devices) && invites_sound(
            &self.invites,
        ) && enrolments_sound(&self.enrolments)
    }
}

} // verus!
