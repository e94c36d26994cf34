//! What travels between a device and the server.
//!
//! A record is sealed on the device: the server sees who it belongs to, how
//! large it is and which version it was based on, and nothing of what it says.

use crate::db::accounts::VaultHeader;
use crate::ids::Uuid;
use vstd::prelude::*;

verus! {

/// Records in one request, at most.
pub const MAX_BATCH: usize = 500;

/// Sealed bytes in one request, at most.
pub const MAX_BATCH_BYTES: usize = 8 * 1024 * 1024;

/// Sealed bytes in one record, at most.
pub const MAX_BLOB_BYTES: usize = 256 * 1024;

/// What a record is about. All the server makes of it is that a manifest is
/// not for every client.
#[derive(Debug, Clone, Copy, PartialEq, Eq, Structural)]
pub enum EntityKind {
    Host,
    Group,
    Identity,
    Key,
    Snippet,
    PortForward,
    KnownHost,
    TerminalProfile,
    Secret,
    Manifest,
}

/// A hybrid logical clock: when a version was written, as its device saw it.
#[derive(Debug, Clone, Copy, PartialEq, Eq, Structural)]
pub struct Hlc {
    pub wall_ms: u64,
    pub counter: u32,
    pub device: u32,
}

impl Hlc {
    pub fn new(wall_ms: u64, counter: u32, device: u32) -> (clock: Hlc)
        ensures
            clock == (Hlc { wall_ms, counter, device }),
    {
        Hlc { wall_ms, counter, device }
    }
}

/// One version of one record.
#[derive(Debug)]
pub struct Envelope {
    pub id: Uuid,
    pub vault_id: Uuid,
    pub kind: EntityKind,
    pub updated_at: Hlc,
    /// The version this one was made from.
    pub base_seq: u64,
    pub deleted: bool,
    pub nonce: Vec<u8>,
    pub blob: Vec<u8>,
    /// The number the server gave it, once it has one.
    pub seq: Option<u64>,
}

/// An [`Envelope`] with its bytes as sequences.
pub struct EnvelopeView {
    pub id: Uuid,
    pub vault_id: Uuid,
    pub kind: EntityKind,
    pub updated_at: Hlc,
    pub base_seq: u64,
    pub deleted: bool,
    pub nonce: Seq<u8>,
    pub blob: Seq<u8>,
    pub seq: Option<u64>,
}

impl View for Envelope {
    type V = EnvelopeView;

    open spec fn view(&self) -> EnvelopeView {
        EnvelopeView {
            id: self.id,
            vault_id: self.vault_id,
            kind: self.kind,
            updated_at: self.updated_at,
            base_seq: self.base_seq,
            deleted: self.deleted,
            nonce: self.nonce@,
            blob: self.blob@,
            seq: self.seq,
        }
    }
}

impl Clone for Envelope {
    fn clone(&self) -> (copy: Self)
        ensures
            copy@ == self@,
    {
        Envelope {
            id: self.id,
            vault_id: self.vault_id,
            kind: self.kind,
            updated_at: self.updated_at,
            base_seq: self.base_seq,
            deleted: self.deleted,
            nonce: vstd::slice::slice_to_vec(self.nonce.as_slice()),
            blob: vstd::slice::slice_to_vec(self.blob.as_slice()),
            seq: self.seq,
        }
    }
}

/// Envelopes by their views.
pub open spec fn envelopes_view(envelopes: Seq<Envelope>) -> Seq<EnvelopeView> {
    envelopes.map_values(|envelope: Envelope| envelope@)
}

/// How far a device has read: everything up to this number.
#[derive(Debug, Clone, Copy, PartialEq, Eq, Structural)]
pub struct SyncCursor(pub u64);

/// A record the server took, and the number it gave it.
#[derive(Debug, Clone, Copy, PartialEq, Eq, Structural)]
pub struct Accepted {
    pub id: Uuid,
    pub seq: u64,
}

/// What became of the records that were offered.
#[derive(Debug)]
pub struct PushResponse {
    pub accepted: Vec<Accepted>,
    /// What the server holds in place of each record it did not take.
    pub conflicts: Vec<Envelope>,
    pub cursor: SyncCursor,
}

/// A [`PushResponse`] by its contents.
pub struct PushResponseView {
    pub accepted: Seq<Accepted>,
    pub conflicts: Seq<EnvelopeView>,
    pub cursor: SyncCursor,
}

impl View for PushResponse {
    type V = PushResponseView;

    open spec fn view(&self) -> PushResponseView {
        PushResponseView {
            accepted: self.accepted@,
            conflicts: envelopes_view(self.conflicts@),
            cursor: self.cursor,
        }
    }
}

/// A page of records.
#[derive(Debug)]
pub struct PullResponse {
    pub envelopes: Vec<Envelope>,
    pub cursor: SyncCursor,
    pub has_more: bool,
}

/// A [`PullResponse`] by its contents.
pub struct PullResponseView {
    pub envelopes: Seq<EnvelopeView>,
    pub cursor: SyncCursor,
    pub has_more: bool,
}

impl View for PullResponse {
    type V = PullResponseView;

    open spec fn view(&self) -> PullResponseView {
        PullResponseView {
            envelopes: envelopes_view(self.envelopes@),
            cursor: self.cursor,
            has_more: self.has_more,
        }
    }
}

/// A device as it enrols.
#[derive(Debug)]
pub struct NewDevice {
    pub name: String,
    /// Its Ed25519 key, in base64.
    pub public_key: String,
}

/// What a device gets when it is let in.
#[derive(Debug)]
pub struct Admitted {
    pub account_id: Uuid,
    pub device_id: Uuid,
    pub token: String,
    pub expires_ms: u64,
}

/// The first device of a new account.
#[derive(Debug)]
pub struct CreateAccount {
    /// The code of an invite; empty where none is needed.
    pub invite: String,
    pub vault: VaultHeader,
    /// The key the master password is proved with, in base64.
    pub auth_key: String,
    pub device: NewDevice,
}

/// A new master password.
#[derive(Debug)]
pub struct ChangePassword {
    pub current_auth_key: String,
    pub vault: VaultHeader,
    pub auth_key: String,
}

/// A device that joins an account.
#[derive(Debug)]
pub struct EnrolDevice {
    pub enrolment: String,
    pub auth_key: String,
    pub device: NewDevice,
}

/// A token for a device that is about to join.
#[derive(Debug)]
pub struct EnrolmentToken {
    pub token: String,
    pub expires_ms: u64,
}

/// Shutting a device out; another one than itself takes the master password.
#[derive(Debug)]
pub struct RevokeDevice {
    pub current_auth_key: Option<String>,
}

/// A device that has answered a challenge.
#[derive(Debug)]
pub struct LoginRequest {
    pub device_id: Uuid,
    /// In base64.
    pub signature: String,
}

/// What it gets for it.
#[derive(Debug)]
pub struct LoginResponse {
    pub account_id: Uuid,
    pub token: String,
    pub expires_ms: u64,
}

/// A pairing session that was opened.
#[derive(Debug)]
pub struct PairOpened {
    pub id: String,
    pub expires_ms: u64,
}

/// A message for the other side of a pairing.
#[derive(Debug)]
pub struct PairMessage {
    pub side: String,
    /// In base64.
    pub message: String,
}

/// What the other side of a pairing has said.
#[derive(Debug)]
pub struct PairMessages {
    /// How many of its messages have been seen with these.
    pub next: usize,
    /// In base64.
    pub messages: Vec<String>,
}

} // verus!
