//! The numbers the server goes by.

use crate::{api, auth, calendar, connections, db, health, limits, maintenance, pairing};
use crate::{proto, state, tls, updates};
use vstd::prelude::*;

verus! {

/// How large things may be, and how many there may be.
pub proof fn how_large_things_may_be()
    ensures
        proto::MAX_BATCH == 500,
        proto::MAX_BATCH_BYTES == 8 * 1_048_576,
        proto::MAX_BLOB_BYTES == 256 * 1024,
        api::MAX_BODY_BYTES == 16 * 1_048_576,
        api::SMALL_BODY_BYTES == 64 * 1024,
        updates::MAX_RESPONSE == 2 * 1_048_576,
        pairing::MAX_MESSAGES == 4,
        pairing::MAX_MESSAGE_BYTES == 8 * 1024,
        pairing::OPEN_PER_ACCOUNT == 3,
        pairing::OPEN_IN_ALL == 1000,
        auth::CHALLENGES_PER_DEVICE == 4,
        auth::TOKENS_PER_DEVICE == 8,
        state::MAX_STREAMS_PER_DEVICE == 4,
        limits::MAX_ADDRESSES == 20_000,
        limits::MAX_NETWORKS == 5_000,
        maintenance::BACKUPS_KEPT == 7,
        connections::H2_STREAMS == 8,
        connections::FIRST_BYTES == 24,
        db::devices::NAME_CHARS == 60,
        db::invites::ENROLMENT_ATTEMPTS == 5,
        db::restore::RESTORE_GAP == 1_000_000,
        db::schema::SCHEMA_VERSION == 3,
{
}

/// How long things last.
pub proof fn how_long_things_last()
    ensures
        auth::CHALLENGE_TTL_MS == 60_000,
        pairing::TTL_MS == 10 * 60_000,
        pairing::POLL_SECS == 20,
        db::invites::INVITE_TTL_MS == 7 * 24 * 3_600_000,
        db::invites::ENROLMENT_TTL_MS == 10 * 60_000,
        db::invites::KEPT_MS == 30 * 24 * 3_600_000,
        maintenance::TOMBSTONES_KEPT_MS == 90 * 24 * 3_600_000,
        maintenance::SWEEP_SECS == 300,
        maintenance::FIRST_NIGHT_SECS == 600,
        maintenance::NIGHT_SECS == 86_400,
        updates::CHECK_EVERY_SECS == 86_400,
        health::TIMEOUT_SECS == 5,
        api::REQUEST_TIMEOUT_SECS == 120,
        api::records::RECHECK_SECS == 30,
        connections::HEADER_TIMEOUT == 15 * 1_000_000_000,
        connections::H2_PING_EVERY == 30 * 1_000_000_000,
        connections::H2_PING_TIMEOUT == 20 * 1_000_000_000,
        connections::SAY_EVERY == 60 * 1_000_000_000,
        limits::SECOND == 1_000_000_000,
        limits::MILLISECOND == 1_000_000,
        limits::SWEEP_EVERY == 60 * 1_000_000_000,
        limits::SWEEP_WHEN_FULL == 1_000_000_000,
        calendar::DAY_MS == 24 * 3_600_000,
        tls::VALID_DAYS == 397,
        tls::VALID_SINCE_DAYS == 1,
        tls::DAY_SECS == 86_400,
{
}

} // verus!
