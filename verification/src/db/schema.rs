//! How the tables came to be what they are, one step after the other.

use crate::text;
use vstd::prelude::*;
use vstd::string::StringExecFns;

verus! {

pub const SCHEMA_VERSION: i64 = 3;

/// The tables as they began.
pub const V1: &'static str = r#"
CREATE TABLE accounts (
    id              TEXT    PRIMARY KEY,
    created_ms      INTEGER NOT NULL,
    -- The vault every record of this account belongs to. A record claiming
    -- another one is refused: that is a bug on a device, not a new vault.
    vault_id        TEXT    NOT NULL,
    -- The vault header, which is not secret and useless without the master
    -- password: salt, key derivation costs, and the wrapped vault key.
    kdf_memory_kib  INTEGER NOT NULL,
    kdf_time_cost   INTEGER NOT NULL,
    kdf_parallelism INTEGER NOT NULL,
    salt            BLOB    NOT NULL,
    wrapped_nonce   BLOB    NOT NULL,
    wrapped_blob    BLOB    NOT NULL,
    -- SHA-256 of the login key, not the key itself. The key is derived from
    -- the master password *and* the account key, so this hash is no shortcut.
    auth_verifier   BLOB    NOT NULL,
    -- The last sequence number handed out, per account. Monotonic, never
    -- reused, and the version of every record it numbered.
    seq             INTEGER NOT NULL DEFAULT 0
);

CREATE TABLE devices (
    id              TEXT    PRIMARY KEY,
    account_id      TEXT    NOT NULL REFERENCES accounts (id),
    name            TEXT    NOT NULL,
    -- Ed25519. The device signs a challenge with it instead of sending
    -- anything that could be replayed.
    public_key      BLOB    NOT NULL,
    created_ms      INTEGER NOT NULL,
    last_seen_ms    INTEGER,
    -- How far this device has read, so the server knows what nobody needs any
    -- more and can say when a device was last here.
    cursor          INTEGER NOT NULL DEFAULT 0,
    revoked_ms      INTEGER
);

CREATE INDEX devices_by_account ON devices (account_id);

CREATE TABLE records (
    account_id      TEXT    NOT NULL REFERENCES accounts (id),
    id              TEXT    NOT NULL,
    kind            TEXT    NOT NULL,
    seq             INTEGER NOT NULL,
    hlc_wall_ms     INTEGER NOT NULL,
    hlc_counter     INTEGER NOT NULL,
    hlc_device      INTEGER NOT NULL,
    deleted         INTEGER NOT NULL DEFAULT 0,
    nonce           BLOB    NOT NULL,
    blob            BLOB    NOT NULL,
    -- Which device wrote this version. For the log, and for a future pull that
    -- skips what the asking device wrote itself.
    device_id       TEXT,
    updated_ms      INTEGER NOT NULL,
    PRIMARY KEY (account_id, id)
);

CREATE INDEX records_by_seq ON records (account_id, seq);

CREATE TABLE invites (
    code_hash       BLOB    PRIMARY KEY,
    created_ms      INTEGER NOT NULL,
    expires_ms      INTEGER NOT NULL,
    used_ms         INTEGER
);

-- A one-time token an enrolled device hands to a joining one, through a
-- channel this server cannot read.
CREATE TABLE enrolments (
    token_hash      BLOB    PRIMARY KEY,
    account_id      TEXT    NOT NULL REFERENCES accounts (id),
    created_ms      INTEGER NOT NULL,
    expires_ms      INTEGER NOT NULL,
    used_ms         INTEGER
);
"#;

/// Whether a vault needs its account key as well as the password. The server
/// cannot tell, as it never sees either, so the client says, and the server
/// hands the answer to the next device that joins.
pub const V2: &'static str = r#"
ALTER TABLE accounts ADD COLUMN needs_account_key INTEGER NOT NULL DEFAULT 0;
"#;

/// What an account holds, counted as it changes, so a push can be refused
/// once an account is full without adding up every record it has. And for an
/// enrolment token: which device made it, so revoking that device takes its
/// tokens along, and how often a wrong password was tried with it.
pub const V3: &'static str = r#"
ALTER TABLE accounts ADD COLUMN record_count INTEGER NOT NULL DEFAULT 0;
ALTER TABLE accounts ADD COLUMN record_bytes INTEGER NOT NULL DEFAULT 0;
UPDATE accounts SET
    record_count = (SELECT count(*) FROM records WHERE records.account_id = accounts.id),
    record_bytes = (SELECT coalesce(sum(length(blob)), 0) FROM records
                     WHERE records.account_id = accounts.id);
ALTER TABLE enrolments ADD COLUMN device_id TEXT;
ALTER TABLE enrolments ADD COLUMN failures INTEGER NOT NULL DEFAULT 0;
"#;

/// One step from one schema to the next.
#[derive(Debug, Clone, Copy)]
pub struct Migration {
    /// The schema that the step leads to.
    pub version: i64,
    /// What brings it about.
    pub sql: &'static str,
}

/// The step to a schema.
pub open spec fn step_to(version: int) -> Seq<char> {
    if version == 1 {
        V1@
    } else if version == 2 {
        V2@
    } else {
        V3@
    }
}

/// Where the steps of a database begin that is at that schema.
pub open spec fn first_step(version: i64) -> int {
    if version < 1 {
        1
    } else {
        version + 1
    }
}

/// What is said of a database that a newer server wrote.
pub open spec fn newer_text(version: i64) -> Seq<char> {
    "this database comes from a newer UwUSSH Server (schema "@ + text::signed_text(version as int)
        + ", this one knows "@ + text::signed_text(SCHEMA_VERSION as int)
        + "). Run the newer version, or restore the backup from before it"@
}

/// The steps that bring a database from the schema it is at to this one, in
/// order; none where it is there already.
///
/// An older server on a newer database would not keep up what the newer one
/// added (the counts of what an account holds, say), and nothing would ever
/// put them right again. It stops instead; the backup from before the update
/// is the way back.
pub fn migrations(version: i64) -> (steps: Result<Vec<Migration>, String>)
    ensures
        steps is Err <==> version > SCHEMA_VERSION,
        steps matches Err(text) ==> text@ == newer_text(version),
        steps matches Ok(steps) ==> {
            &&& steps@.len() == SCHEMA_VERSION + 1 - first_step(version)
            &&& forall|i: int|
                0 <= i < steps@.len() ==> (#[trigger] steps@[i]).version == first_step(version) + i
                    && steps@[i].sql@ == step_to(steps@[i].version as int)
        },
{
    if version > SCHEMA_VERSION {
        return Err(
            "this database comes from a newer UwUSSH Server (schema ".to_owned().concat(
                text::signed(version).as_str(),
            ).concat(", this one knows ").concat(text::signed(SCHEMA_VERSION).as_str()).concat(
                "). Run the newer version, or restore the backup from before it",
            ),
        );
    }
    let mut steps: Vec<Migration> = Vec::new();
    if version < 1 {
        steps.push(Migration { version: 1, sql: V1 });
    }
    if version < 2 {
        steps.push(Migration { version: 2, sql: V2 });
    }
    if version < 3 {
        steps.push(Migration { version: 3, sql: V3 });
    }
    Ok(steps)
}

} // verus!
