use uwusync_server::db::accounts::{self, Account, KdfFloor, VaultHeader};
use uwusync_server::db::records::{self, Quota, NONCE_BYTES};
use uwusync_server::db::{constant_time_eq, devices, invites, Db};
use uwusync_server::error::ApiError;
use uwusync_server::ids::Uuid;
use uwusync_server::proto::{
    EntityKind, Envelope, Hlc, SyncCursor, MAX_BATCH, MAX_BATCH_BYTES, MAX_BLOB_BYTES,
};
use uwusync_server::{now_ms, sha256};

fn header() -> VaultHeader {
    VaultHeader {
        vault_id: Uuid::now_v7(),
        kdf_memory_kib: 65536,
        kdf_time_cost: 3,
        kdf_parallelism: 4,
        salt: "c2FsdHktc2FsdA".into(),
        wrapped_nonce: "bm9uY2U".into(),
        wrapped_blob: "d3JhcHBlZA".into(),
        needs_account_key: false,
    }
}

fn account(db: &mut Db) -> Account {
    accounts::create(db, &header(), b"key").unwrap()
}

// ── Accounts ────────────────────────────────────────────────────────────────

#[test]
fn an_account_keeps_its_vault_and_starts_at_sequence_zero() {
    let mut db = Db::open_in_memory();
    let header = header();
    let account = accounts::create(&mut db, &header, b"login key").unwrap();
    assert_eq!(account.seq, 0);
    assert_eq!(account.vault_id, header.vault_id);
    assert_eq!(accounts::get(&db, account.id), Some(account));
    assert_eq!(accounts::count(&db), 1);
}

#[test]
fn the_login_key_is_stored_only_as_a_hash() {
    let mut db = Db::open_in_memory();
    let account = accounts::create(&mut db, &header(), b"login key").unwrap();

    let stored = db.accounts[0].auth_verifier.clone();
    assert_ne!(stored, b"login key".to_vec());
    assert_eq!(stored.len(), 32);

    assert!(accounts::verify(&db, account.id, b"login key"));
    assert!(!accounts::verify(&db, account.id, b"login keY"));
    assert!(
        !accounts::verify(&db, Uuid::now_v7(), b"login key"),
        "an account that does not exist answers like a wrong key"
    );
}

#[test]
fn a_new_password_rewraps_the_key_and_replaces_the_verifier() {
    let mut db = Db::open_in_memory();
    let account = accounts::create(&mut db, &header(), b"old").unwrap();
    let changed = VaultHeader {
        wrapped_blob: "bmV3bHktd3JhcHBlZA".into(),
        ..header()
    };
    accounts::set_header(&mut db, account.id, &changed, b"new");

    assert!(!accounts::verify(&db, account.id, b"old"));
    assert!(accounts::verify(&db, account.id, b"new"));
    assert_eq!(
        accounts::header(&db, account.id).unwrap().wrapped_blob,
        "bmV3bHktd3JhcHBlZA"
    );
    assert_eq!(
        accounts::header(&db, account.id).unwrap().vault_id,
        account.vault_id,
        "it is still the same vault"
    );
}

#[test]
fn a_header_asking_for_absurd_costs_is_not_plausible() {
    let mut greedy = header();
    greedy.kdf_memory_kib = u32::MAX;
    assert!(!greedy.plausible());
    assert!(header().plausible());
}

#[test]
fn the_parameters_a_joining_device_sees_hold_no_wrapped_key() {
    let params = header().params();
    let shown = format!("{params:?}");
    assert!(shown.contains("salt"));
    assert!(!shown.contains("wrapped"), "{shown}");
}

#[test]
fn a_header_is_plausible_up_to_its_limits_and_not_beyond() {
    let with = |memory: u32, time: u32, parallelism: u32| VaultHeader {
        kdf_memory_kib: memory,
        kdf_time_cost: time,
        kdf_parallelism: parallelism,
        ..header()
    };
    assert!(with(1, 1, 1).plausible());
    assert!(with(1024 * 1024, 16, 16).plausible());
    assert!(!with(0, 1, 1).plausible());
    assert!(!with(1024 * 1024 + 1, 1, 1).plausible());
    assert!(!with(1, 0, 1).plausible());
    assert!(!with(1, 17, 1).plausible());
    assert!(!with(1, 1, 0).plausible());
    assert!(!with(1, 1, 17).plausible());
    assert!(!VaultHeader { salt: String::new(), ..header() }.plausible());
    assert!(!VaultHeader { wrapped_blob: String::new(), ..header() }.plausible());
}

#[test]
fn a_vault_cheaper_than_the_floor_is_turned_down() {
    let floor = KdfFloor::default();
    let mut cheap = header();
    assert!(floor.check(&cheap).is_ok());
    cheap.kdf_memory_kib = 19455;
    assert!(floor.check(&cheap).unwrap_err().contains("too cheap"));
    cheap.kdf_memory_kib = 19456;
    cheap.kdf_time_cost = 2;
    assert!(floor.check(&cheap).is_ok());
    cheap.kdf_time_cost = 1;
    assert!(floor.check(&cheap).is_err());
}

#[test]
fn an_id_that_is_taken_makes_no_second_account() {
    let mut db = Db::open_in_memory();
    let id = Uuid::now_v7();
    accounts::create_at(&mut db, id, &header(), b"one", 5).unwrap();
    assert!(matches!(
        accounts::create_at(&mut db, id, &header(), b"two", 6),
        Err(ApiError::Database(_))
    ));
    assert_eq!(accounts::count(&db), 1);
    assert!(accounts::verify(&db, id, b"one"));
}

// ── Devices ─────────────────────────────────────────────────────────────────

#[test]
fn a_device_is_enrolled_with_its_key_and_read_nothing_yet() {
    let mut db = Db::open_in_memory();
    let account = account(&mut db).id;
    let device = devices::add(&mut db, account, "LVDesk1", &[7u8; 32]).unwrap();
    assert_eq!(device.cursor, 0);
    assert!(!device.revoked);
    let found = devices::get(&db, device.id).unwrap();
    assert_eq!(
        (found.id, found.account_id, found.name, found.public_key, found.cursor, found.revoked),
        (device.id, account, "LVDesk1".to_string(), [7u8; 32], 0, false)
    );
    assert_eq!(devices::list(&db, account).len(), 1);
    assert_eq!(devices::list(&db, account)[0].name, "LVDesk1");
}

#[test]
fn a_revoked_device_stays_in_the_list_and_stops_counting() {
    let mut db = Db::open_in_memory();
    let account = account(&mut db).id;
    let one = devices::add(&mut db, account, "one", &[1u8; 32]).unwrap();
    devices::add(&mut db, account, "two", &[2u8; 32]).unwrap();
    assert_eq!(devices::live_count(&db, account), 2);

    assert!(devices::revoke(&mut db, account, one.id));
    assert!(!devices::revoke(&mut db, account, one.id), "only once");
    assert_eq!(devices::live_count(&db, account), 1);
    assert!(devices::get(&db, one.id).unwrap().revoked);
    assert_eq!(devices::list(&db, account).len(), 2);
    assert!(devices::list(&db, account)[0].revoked_ms.is_some());
}

#[test]
fn a_device_of_another_account_cannot_be_revoked() {
    let mut db = Db::open_in_memory();
    let mine = account(&mut db).id;
    let theirs = account(&mut db).id;
    let device = devices::add(&mut db, theirs, "theirs", &[3u8; 32]).unwrap();
    assert!(!devices::revoke(&mut db, mine, device.id));
    assert!(!devices::get(&db, device.id).unwrap().revoked);
}

#[test]
fn the_cursor_only_moves_forward() {
    let mut db = Db::open_in_memory();
    let account = account(&mut db).id;
    let device = devices::add(&mut db, account, "one", &[1u8; 32]).unwrap();
    devices::seen(&mut db, device.id, 12);
    devices::seen(&mut db, device.id, 4);
    assert_eq!(devices::get(&db, device.id).unwrap().cursor, 12);
    assert!(devices::get(&db, device.id).unwrap().cursor > 0);
    devices::seen(&mut db, device.id, u64::MAX);
    assert_eq!(
        devices::get(&db, device.id).unwrap().cursor,
        12,
        "nor to where nothing can be"
    );
}

#[test]
fn what_nobody_has_read_is_decided_by_the_device_that_is_furthest_behind() {
    let mut db = Db::open_in_memory();
    let account = account(&mut db).id;
    let one = devices::add(&mut db, account, "one", &[1u8; 32]).unwrap();
    let two = devices::add(&mut db, account, "two", &[2u8; 32]).unwrap();
    devices::seen(&mut db, one.id, 30);
    devices::seen(&mut db, two.id, 10);
    assert_eq!(devices::lowest_cursor(&db, account), 10);

    // A device that is gone no longer holds anything back.
    devices::revoke(&mut db, account, two.id);
    assert_eq!(devices::lowest_cursor(&db, account), 30);
    assert_eq!(devices::lowest_cursor(&db, Uuid::now_v7()), 0, "nobody reads here");
}

#[test]
fn a_device_name_is_one_harmless_line() {
    assert_eq!(devices::clean_name("  LVDesk1\n"), "LVDesk1");
    assert_eq!(devices::clean_name(""), "a device");
    assert_eq!(devices::clean_name("a\u{7}b"), "ab");
    assert_eq!(devices::clean_name(&"x".repeat(200)).len(), 60);
    assert_eq!(devices::clean_name("\u{a0}\u{3000}Büro\u{2003}"), "Büro");
    assert_eq!(devices::clean_name("\u{1}\u{9f}"), "a device");
}

#[test]
fn devices_are_listed_from_the_oldest_to_the_newest() {
    let mut db = Db::open_in_memory();
    let account = account(&mut db).id;
    for (name, created) in [("c", 30), ("a", 10), ("b", 20), ("b again", 20)] {
        devices::add_at(&mut db, Uuid::now_v7(), account, name, &[1; 32], created).unwrap();
    }
    let names: Vec<String> = devices::list(&db, account)
        .into_iter()
        .map(|device| device.name)
        .collect();
    assert_eq!(names, vec!["a", "b", "b again", "c"]);
}

#[test]
fn a_device_needs_an_account_and_an_id_of_its_own() {
    let mut db = Db::open_in_memory();
    let account = account(&mut db).id;
    assert!(matches!(
        devices::add(&mut db, Uuid::now_v7(), "nowhere", &[1; 32]),
        Err(ApiError::Database(what)) if what == "FOREIGN KEY constraint failed"
    ));
    let id = Uuid::now_v7();
    devices::add_at(&mut db, id, account, "one", &[1; 32], 1).unwrap();
    assert!(matches!(
        devices::add_at(&mut db, id, account, "two", &[2; 32], 2),
        Err(ApiError::Database(what)) if what == "UNIQUE constraint failed: devices.id"
    ));
    assert_eq!(devices::list(&db, account).len(), 1);
}

// ── Invites ─────────────────────────────────────────────────────────────────

#[test]
fn an_invite_works_once_and_is_never_stored_in_the_clear() {
    let mut db = Db::open_in_memory();
    let code = invites::create_invite(&mut db, invites::INVITE_TTL_MS).unwrap();

    let stored = db.invites[0].code_hash.clone();
    assert!(!String::from_utf8_lossy(&stored).contains(&code));

    assert_eq!(invites::count_open_invites(&db), 1);
    assert!(invites::redeem_invite(&mut db, &code));
    assert!(!invites::redeem_invite(&mut db, &code), "only once");
    assert_eq!(invites::count_open_invites(&db), 0);
}

#[test]
fn a_code_is_taken_as_it_was_typed() {
    let mut db = Db::open_in_memory();
    let code = invites::create_invite(&mut db, invites::INVITE_TTL_MS).unwrap();
    let typed = code.to_lowercase().replace('-', " ");
    assert!(invites::redeem_invite(&mut db, &typed));
}

#[test]
fn an_expired_invite_is_no_invite() {
    let mut db = Db::open_in_memory();
    let code = invites::create_invite(&mut db, 0).unwrap();
    assert!(!invites::redeem_invite(&mut db, &code));
    assert_eq!(invites::count_open_invites(&db), 0);
}

#[test]
fn a_code_nobody_made_opens_nothing() {
    let mut db = Db::open_in_memory();
    invites::create_invite(&mut db, invites::INVITE_TTL_MS).unwrap();
    assert!(!invites::redeem_invite(&mut db, "AAAAA-BBBBB-CCCCC"));
    assert!(!invites::redeem_invite(&mut db, ""));
}

#[test]
fn a_token_tried_with_too_many_wrong_passwords_is_spent() {
    let mut db = Db::open_in_memory();
    let account = account(&mut db);
    let token = invites::create_enrolment(&mut db, account.id, Uuid::now_v7()).unwrap();
    for _ in 1..invites::ENROLMENT_ATTEMPTS {
        assert!(!invites::enrolment_failed(&mut db, &token));
    }
    assert_eq!(invites::peek_enrolment(&db, &token), Some(account.id));
    assert!(
        invites::enrolment_failed(&mut db, &token),
        "that was the last"
    );
    assert_eq!(invites::peek_enrolment(&db, &token), None);
}

#[test]
fn a_device_takes_its_unused_tokens_along() {
    let mut db = Db::open_in_memory();
    let account = account(&mut db);
    let (mine, other) = (Uuid::now_v7(), Uuid::now_v7());
    let gone = invites::create_enrolment(&mut db, account.id, mine).unwrap();
    let kept = invites::create_enrolment(&mut db, account.id, other).unwrap();
    assert_eq!(invites::drop_enrolments_of(&mut db, mine), 1);
    assert_eq!(invites::peek_enrolment(&db, &gone), None);
    assert_eq!(invites::peek_enrolment(&db, &kept), Some(account.id));
}

#[test]
fn an_enrolment_token_names_its_account_and_is_spent_on_use() {
    let mut db = Db::open_in_memory();
    let account = account(&mut db);
    let token = invites::create_enrolment(&mut db, account.id, Uuid::now_v7()).unwrap();

    assert_eq!(invites::peek_enrolment(&db, &token), Some(account.id));
    assert_eq!(
        invites::peek_enrolment(&db, &token),
        Some(account.id),
        "peeking does not use it up"
    );
    assert_eq!(invites::redeem_enrolment(&mut db, &token), Some(account.id));
    assert_eq!(invites::redeem_enrolment(&mut db, &token), None);
    assert_eq!(invites::peek_enrolment(&db, &token), None);
}

#[test]
fn codes_do_not_repeat() {
    let one = invites::code();
    let two = invites::code();
    assert_ne!(one, two);
    assert_eq!(one.len(), 17, "{one}");
    assert_eq!(invites::normalise(&one).len(), 15);
}

#[test]
fn a_code_is_what_its_bytes_make_it() {
    let bytes: [u8; 15] = [0, 1, 2, 3, 4, 29, 30, 31, 59, 60, 255, 128, 7, 8, 9];
    assert_eq!(invites::code_from(&bytes), "ABCDE-9AB9A-SJHJK");
    assert_eq!(invites::normalise("abcde-9ab9a sjhjk!"), "ABCDE9AB9ASJHJK");
    assert_eq!(
        invites::hash("abcde-9ab9a-sjhjk"),
        sha256(b"ABCDE9AB9ASJHJK").to_vec()
    );
}

#[test]
fn a_hash_is_sha_256() {
    assert_eq!(
        sha256(b"abc"),
        [
            0xba, 0x78, 0x16, 0xbf, 0x8f, 0x01, 0xcf, 0xea, 0x41, 0x41, 0x40, 0xde, 0x5d, 0xae,
            0x22, 0x23, 0xb0, 0x03, 0x61, 0xa3, 0x96, 0x17, 0x7a, 0x9c, 0xb4, 0x10, 0xff, 0x61,
            0xf2, 0x00, 0x15, 0xad
        ]
    );
}

#[test]
fn codes_that_ran_out_long_ago_are_forgotten() {
    let mut db = Db::open_in_memory();
    let account = account(&mut db);
    let day = 24 * 60 * 60 * 1000;
    invites::create_invite_at(&mut db, "OLD", 0, 10 * day).unwrap();
    invites::create_invite_at(&mut db, "NEWER", 0, 11 * day).unwrap();
    invites::create_enrolment_at(&mut db, "old", account.id, account.id, 10 * day).unwrap();
    invites::purge_at(&mut db, 40 * day + 1);
    assert_eq!(db.invites.len(), 1);
    assert_eq!(db.enrolments.len(), 1, "its ten minutes count too");
    invites::purge_at(&mut db, 41 * day + 1);
    assert_eq!(db.invites.len(), 0);
    assert_eq!(db.enrolments.len(), 0);
}

#[test]
fn a_code_made_twice_is_one_too_many() {
    let mut db = Db::open_in_memory();
    invites::create_invite_at(&mut db, "ABCDE", 10, 1).unwrap();
    assert!(matches!(
        invites::create_invite_at(&mut db, "ab-cde", 10, 1),
        Err(ApiError::Database(_))
    ));
    assert!(matches!(
        invites::create_enrolment_at(&mut db, "t", Uuid::now_v7(), Uuid::now_v7(), 1),
        Err(ApiError::Database(_))
    ));
}

// ── Records ─────────────────────────────────────────────────────────────────

fn envelope(account: &Account, id: Uuid, base_seq: u64) -> Envelope {
    Envelope {
        id,
        vault_id: account.vault_id,
        kind: EntityKind::Host,
        updated_at: Hlc::new(1_700_000_000_000, 0, 1),
        base_seq,
        deleted: false,
        nonce: vec![7; NONCE_BYTES],
        blob: vec![1, 2, 3, 4],
        seq: None,
    }
}

fn sized(account: &Account, bytes: usize) -> Envelope {
    Envelope {
        blob: vec![9; bytes],
        ..envelope(account, Uuid::now_v7(), 0)
    }
}

fn manifest(account: &Account) -> Envelope {
    Envelope {
        kind: EntityKind::Manifest,
        ..envelope(account, Uuid::now_v7(), 0)
    }
}

#[test]
fn a_page_stops_at_the_byte_budget_and_says_there_is_more() {
    let mut db = Db::open_in_memory();
    let account = account(&mut db);
    let device = Uuid::now_v7();
    // Forty records of 256 KiB: ten MiB, more than one page may carry.
    for _ in 0..4 {
        let batch: Vec<Envelope> = (0..10).map(|_| sized(&account, MAX_BLOB_BYTES)).collect();
        records::push_within(&mut db, &account, device, &batch[..5], Quota::default()).unwrap();
        records::push_within(&mut db, &account, device, &batch[5..], Quota::default()).unwrap();
    }

    let first = records::pull(&db, &account, 0, MAX_BATCH, true).unwrap();
    let bytes: usize = first.envelopes.iter().map(|env| env.blob.len()).sum();
    assert!(bytes <= MAX_BATCH_BYTES, "{bytes}");
    assert_eq!(first.envelopes.len(), MAX_BATCH_BYTES / MAX_BLOB_BYTES);
    assert!(first.has_more);

    let second = records::pull(&db, &account, first.cursor.0, MAX_BATCH, true).unwrap();
    assert_eq!(first.envelopes.len() + second.envelopes.len(), 40);
    assert!(!second.has_more);
}

#[test]
fn one_request_carries_at_most_the_byte_budget() {
    let mut db = Db::open_in_memory();
    let account = account(&mut db);
    let too_much: Vec<Envelope> = (0..MAX_BATCH_BYTES / MAX_BLOB_BYTES + 1)
        .map(|_| sized(&account, MAX_BLOB_BYTES))
        .collect();
    assert!(matches!(
        records::push(&mut db, &account, Uuid::now_v7(), &too_much),
        Err(ApiError::TooLarge(_))
    ));
}

#[test]
fn a_full_account_takes_nothing_more_but_may_still_shrink() {
    let mut db = Db::open_in_memory();
    let account = account(&mut db);
    let device = Uuid::now_v7();
    let quota = Quota {
        records: 2,
        bytes: 1024,
        ..Quota::default()
    };
    let one = sized(&account, 400);
    let two = sized(&account, 400);
    records::push_within(&mut db, &account, device, &[one.clone(), two], quota).unwrap();
    assert_eq!(records::usage(&db, &account).unwrap(), (2, 800));

    // A third record is one too many, and so is a bigger version of one.
    let three = sized(&account, 10);
    assert!(matches!(
        records::push_within(&mut db, &account, device, &[three], quota),
        Err(ApiError::TooLarge(_))
    ));
    let bigger = Envelope {
        blob: vec![1; 700],
        base_seq: 1,
        ..one.clone()
    };
    assert!(records::push_within(&mut db, &account, device, &[bigger], quota).is_err());
    assert_eq!(
        records::usage(&db, &account).unwrap(),
        (2, 800),
        "nothing of it stayed"
    );

    // Deleting makes room, even for an account that is full.
    let deleted = Envelope {
        blob: vec![1; 16],
        base_seq: 1,
        deleted: true,
        ..one
    };
    records::push_within(&mut db, &account, device, &[deleted], quota).unwrap();
    assert_eq!(records::usage(&db, &account).unwrap(), (2, 416));
}

#[test]
fn all_accounts_together_hold_no_more_than_the_server_allows() {
    let mut db = Db::open_in_memory();
    let mine = account(&mut db);
    let theirs = accounts::create(&mut db, &header(), b"other").unwrap();
    let device = Uuid::now_v7();
    let quota = Quota {
        server_bytes: 1000,
        ..Quota::default()
    };
    let first = sized(&mine, 600);
    records::push_within(
        &mut db,
        &mine,
        device,
        std::slice::from_ref(&first),
        quota,
    )
    .unwrap();

    // Well inside its own quota, and still one too many for the server.
    assert!(matches!(
        records::push_within(&mut db, &theirs, device, &[sized(&theirs, 500)], quota),
        Err(ApiError::TooLarge(message)) if message.contains("all accounts")
    ));
    assert_eq!(
        records::usage(&db, &theirs).unwrap(),
        (0, 0),
        "nothing of it stayed"
    );
    records::push_within(&mut db, &theirs, device, &[sized(&theirs, 400)], quota).unwrap();

    // Full now. Growing is refused, shrinking is not, and what shrinking
    // freed is there for the other account.
    let bigger = Envelope {
        blob: vec![1; 601],
        base_seq: 1,
        ..first.clone()
    };
    assert!(records::push_within(&mut db, &mine, device, &[bigger], quota).is_err());
    let smaller = Envelope {
        blob: vec![1; 100],
        base_seq: 1,
        deleted: true,
        ..first
    };
    records::push_within(&mut db, &mine, device, &[smaller], quota).unwrap();
    records::push_within(&mut db, &theirs, device, &[sized(&theirs, 500)], quota).unwrap();
}

#[test]
fn a_pushed_record_gets_the_next_number_and_comes_back_on_a_pull() {
    let mut db = Db::open_in_memory();
    let account = account(&mut db);
    let device = Uuid::now_v7();
    let id = Uuid::now_v7();

    let response =
        records::push(&mut db, &account, device, &[envelope(&account, id, 0)]).unwrap();
    assert_eq!(response.accepted.len(), 1);
    assert_eq!(response.accepted[0].seq, 1);
    assert!(response.conflicts.is_empty());
    assert_eq!(response.cursor, SyncCursor(1));

    let page = records::pull(&db, &account, 0, 10, true).unwrap();
    assert_eq!(page.envelopes.len(), 1);
    assert_eq!(page.envelopes[0].id, id);
    assert_eq!(page.envelopes[0].seq, Some(1));
    assert_eq!(page.envelopes[0].vault_id, account.vault_id);
    assert_eq!(page.envelopes[0].blob, vec![1, 2, 3, 4]);
    assert!(!page.has_more);
    assert_eq!(page.cursor, SyncCursor(1));

    // And nothing comes twice.
    let again = records::pull(&db, &account, 1, 10, true).unwrap();
    assert!(again.envelopes.is_empty());
    assert_eq!(again.cursor, SyncCursor(1));
}

#[test]
fn a_push_based_on_an_older_version_is_a_conflict_with_the_current_one() {
    let mut db = Db::open_in_memory();
    let account = account(&mut db);
    let id = Uuid::now_v7();
    let first = Uuid::now_v7();
    let second = Uuid::now_v7();

    records::push(&mut db, &account, first, &[envelope(&account, id, 0)]).unwrap();
    let mut newer = envelope(&account, id, 1);
    newer.blob = vec![9, 9, 9];
    records::push(&mut db, &account, first, &[newer]).unwrap();

    // The second device still thinks version 1 is current.
    let mut stale = envelope(&account, id, 1);
    stale.blob = vec![5, 5, 5];
    let response = records::push(&mut db, &account, second, &[stale]).unwrap();
    assert!(response.accepted.is_empty());
    assert_eq!(response.conflicts.len(), 1);
    assert_eq!(
        response.conflicts[0].blob,
        vec![9, 9, 9],
        "the conflict carries what the server holds"
    );
    assert_eq!(response.conflicts[0].seq, Some(2));
    assert_eq!(
        response.conflicts[0].base_seq, 2,
        "so the next attempt is based on it"
    );

    // Based on what it holds, the same record is taken.
    let mut retried = envelope(&account, id, 2);
    retried.blob = vec![5, 5, 5];
    let response = records::push(&mut db, &account, second, &[retried]).unwrap();
    assert_eq!(response.accepted.len(), 1);
    assert_eq!(response.accepted[0].seq, 3);
}

#[test]
fn one_conflict_does_not_stop_the_rest_of_the_batch() {
    let mut db = Db::open_in_memory();
    let account = account(&mut db);
    let device = Uuid::now_v7();
    let taken = Uuid::now_v7();
    records::push(&mut db, &account, device, &[envelope(&account, taken, 0)]).unwrap();

    let response = records::push(
        &mut db,
        &account,
        device,
        &[
            envelope(&account, taken, 0), // conflicts: it is at 1 now
            envelope(&account, Uuid::now_v7(), 0),
            envelope(&account, Uuid::now_v7(), 0),
        ],
    )
    .unwrap();
    assert_eq!(response.accepted.len(), 2);
    assert_eq!(response.conflicts.len(), 1);
    assert_eq!(records::count(&db, &account), 3);
}

#[test]
fn a_page_says_when_there_is_another_one() {
    let mut db = Db::open_in_memory();
    let account = account(&mut db);
    let device = Uuid::now_v7();
    for _ in 0..5 {
        records::push(
            &mut db,
            &account,
            device,
            &[envelope(&account, Uuid::now_v7(), 0)],
        )
        .unwrap();
    }

    let page = records::pull(&db, &account, 0, 2, true).unwrap();
    assert_eq!(page.envelopes.len(), 2);
    assert!(page.has_more);
    assert_eq!(page.cursor, SyncCursor(2));

    let page = records::pull(&db, &account, page.cursor.0, 2, true).unwrap();
    assert_eq!(page.envelopes.len(), 2);
    assert!(page.has_more);

    let page = records::pull(&db, &account, page.cursor.0, 2, true).unwrap();
    assert_eq!(page.envelopes.len(), 1);
    assert!(!page.has_more, "the last page says so");
}

#[test]
fn nothing_of_another_account_is_ever_in_the_answer() {
    let mut db = Db::open_in_memory();
    let mine = account(&mut db);
    let theirs = account(&mut db);
    let device = Uuid::now_v7();
    records::push(
        &mut db,
        &theirs,
        device,
        &[envelope(&theirs, Uuid::now_v7(), 0)],
    )
    .unwrap();

    assert!(records::pull(&db, &mine, 0, 10, true)
        .unwrap()
        .envelopes
        .is_empty());
    assert_eq!(records::count(&db, &mine), 0);
    assert_eq!(records::count(&db, &theirs), 1);
}

#[test]
fn what_the_server_can_check_without_a_key_it_does_check() {
    let mut db = Db::open_in_memory();
    let account = account(&mut db);
    let device = Uuid::now_v7();
    let id = Uuid::now_v7();

    let mut stranger = envelope(&account, id, 0);
    stranger.vault_id = Uuid::now_v7();
    assert!(matches!(
        records::push(&mut db, &account, device, &[stranger]),
        Err(ApiError::Invalid(_))
    ));

    let mut short_nonce = envelope(&account, id, 0);
    short_nonce.nonce = vec![1, 2, 3];
    assert!(matches!(
        records::push(&mut db, &account, device, &[short_nonce]),
        Err(ApiError::Invalid(_))
    ));

    let mut empty = envelope(&account, id, 0);
    empty.blob.clear();
    assert!(matches!(
        records::push(&mut db, &account, device, &[empty]),
        Err(ApiError::Invalid(_))
    ));

    let mut huge = envelope(&account, id, 0);
    huge.blob = vec![0; MAX_BLOB_BYTES + 1];
    assert!(matches!(
        records::push(&mut db, &account, device, &[huge]),
        Err(ApiError::TooLarge(_))
    ));

    let batch: Vec<Envelope> = (0..MAX_BATCH + 1)
        .map(|_| envelope(&account, Uuid::now_v7(), 0))
        .collect();
    assert!(matches!(
        records::push(&mut db, &account, device, &batch),
        Err(ApiError::TooLarge(_))
    ));

    assert_eq!(records::count(&db, &account), 0, "and nothing was stored");
}

#[test]
fn a_refused_batch_leaves_nothing_behind() {
    let mut db = Db::open_in_memory();
    let account = account(&mut db);
    let device = Uuid::now_v7();
    let mut bad = envelope(&account, Uuid::now_v7(), 0);
    bad.nonce.clear();

    assert!(records::push(
        &mut db,
        &account,
        device,
        &[envelope(&account, Uuid::now_v7(), 0), bad]
    )
    .is_err());
    assert_eq!(records::count(&db, &account), 0);
    assert_eq!(
        accounts::get(&db, account.id).unwrap().seq,
        0,
        "and did not use up a sequence number"
    );
}

#[test]
fn a_tombstone_goes_only_once_everyone_has_read_it_and_time_has_passed() {
    let mut db = Db::open_in_memory();
    let account = account(&mut db);
    let device = Uuid::now_v7();
    let id = Uuid::now_v7();
    let mut gone = envelope(&account, id, 0);
    gone.deleted = true;
    records::push(&mut db, &account, device, &[gone]).unwrap();

    let ancient = now_ms() + 1;
    assert_eq!(
        records::purge_tombstones(&mut db, &account, ancient, 0),
        0,
        "nobody has read it yet"
    );
    assert_eq!(
        records::purge_tombstones(&mut db, &account, 0, 99),
        0,
        "and it is not old yet"
    );
    assert_eq!(records::purge_tombstones(&mut db, &account, ancient, 99), 1);
    assert_eq!(records::count(&db, &account), 0);
    assert_eq!(records::usage(&db, &account).unwrap(), (0, 0));
}

#[test]
fn every_kind_survives_the_round_trip_through_the_database() {
    for kind in [
        EntityKind::Host,
        EntityKind::Group,
        EntityKind::Identity,
        EntityKind::Key,
        EntityKind::Snippet,
        EntityKind::PortForward,
        EntityKind::KnownHost,
        EntityKind::TerminalProfile,
        EntityKind::Secret,
        EntityKind::Manifest,
    ] {
        let mut db = Db::open_in_memory();
        let account = account(&mut db);
        let id = Uuid::now_v7();
        let sent = Envelope { kind, ..envelope(&account, id, 0) };
        records::push(&mut db, &account, Uuid::now_v7(), &[sent]).unwrap();
        let held = records::get(&db, &account, id).unwrap().unwrap();
        assert_eq!(held.kind, kind, "{kind:?}");
    }
}

#[test]
fn a_client_from_before_manifests_never_sees_one_and_still_gets_past_them() {
    let mut db = Db::open_in_memory();
    let account = account(&mut db);
    let device = Uuid::now_v7();
    let host = envelope(&account, Uuid::now_v7(), 0);
    records::push(
        &mut db,
        &account,
        device,
        &[manifest(&account), host.clone(), manifest(&account)],
    )
    .unwrap();

    let old = records::pull(&db, &account, 0, 10, false).unwrap();
    assert_eq!(old.envelopes.len(), 1);
    assert_eq!(old.envelopes[0].id, host.id);
    assert_eq!(old.cursor.0, 3, "the cursor moves past the manifests too");
    assert!(!old.has_more);

    let new = records::pull(&db, &account, 0, 10, true).unwrap();
    assert_eq!(new.envelopes.len(), 3);

    // A page of nothing but manifests is an empty page for the old one.
    let rest = records::pull(&db, &account, 2, 10, false).unwrap();
    assert!(rest.envelopes.is_empty());
}

#[test]
fn manifests_passed_over_do_not_fill_the_page() {
    let mut db = Db::open_in_memory();
    let account = account(&mut db);
    let device = Uuid::now_v7();
    let mut batch: Vec<Envelope> = (0..5).map(|_| manifest(&account)).collect();
    batch.push(envelope(&account, Uuid::now_v7(), 0));
    batch.push(envelope(&account, Uuid::now_v7(), 0));
    records::push(&mut db, &account, device, &batch).unwrap();

    let page = records::pull(&db, &account, 0, 1, false).unwrap();
    assert_eq!(page.envelopes.len(), 1);
    assert!(page.has_more);
    let page = records::pull(&db, &account, page.cursor.0, 1, false).unwrap();
    assert_eq!(page.envelopes.len(), 1);
    assert!(!page.has_more);
}

#[test]
fn a_revoked_device_takes_its_manifest_along_and_nothing_else() {
    let mut db = Db::open_in_memory();
    let account = account(&mut db);
    let gone = Uuid::now_v7();
    let stays = Uuid::now_v7();
    records::push(
        &mut db,
        &account,
        gone,
        &[manifest(&account), envelope(&account, Uuid::now_v7(), 0)],
    )
    .unwrap();
    records::push(&mut db, &account, stays, &[manifest(&account)]).unwrap();

    assert_eq!(records::drop_manifests_of(&mut db, account.id, gone), 1);
    let left = records::pull(&db, &account, 0, 10, true).unwrap();
    assert_eq!(
        left.envelopes.len(),
        2,
        "its host and the other device's manifest"
    );
    assert_eq!(records::usage(&db, &account).unwrap().0, 2);
}

#[test]
fn the_same_record_twice_in_one_batch_meets_the_version_check() {
    let mut db = Db::open_in_memory();
    let account = account(&mut db);
    let id = Uuid::now_v7();
    let response = records::push(
        &mut db,
        &account,
        Uuid::now_v7(),
        &[
            envelope(&account, id, 0),
            envelope(&account, id, 0), // based on nothing, and it is at 1
            envelope(&account, id, 1),
        ],
    )
    .unwrap();
    assert_eq!(
        response.accepted.iter().map(|taken| taken.seq).collect::<Vec<u64>>(),
        vec![1, 2]
    );
    assert_eq!(response.conflicts.len(), 1);
    assert_eq!(response.conflicts[0].seq, Some(1));
    assert_eq!(records::count(&db, &account), 1);
    assert_eq!(records::usage(&db, &account).unwrap(), (1, 4));
}

#[test]
fn an_account_that_is_not_there_takes_nothing() {
    let mut db = Db::open_in_memory();
    let nobody = Account {
        id: Uuid::now_v7(),
        vault_id: Uuid::now_v7(),
        seq: 0,
    };
    assert!(matches!(
        records::push(&mut db, &nobody, Uuid::now_v7(), &[]),
        Err(ApiError::Database(_))
    ));
    assert!(records::usage(&db, &nobody).is_err());
    assert!(records::get(&db, &nobody, Uuid::now_v7()).unwrap().is_none());
    let page = records::pull(&db, &nobody, 7, 10, true).unwrap();
    assert_eq!((page.envelopes.len(), page.cursor.0, page.has_more), (0, 7, false));
}

#[test]
fn what_is_said_of_a_push_that_is_too_large_is_exact() {
    let mut db = Db::open_in_memory();
    let account = account(&mut db);
    let device = Uuid::now_v7();
    let said = |outcome: Result<_, ApiError>| match outcome {
        Err(ApiError::TooLarge(what)) => what,
        _ => panic!("too large"),
    };
    let batch: Vec<Envelope> = (0..501)
        .map(|_| envelope(&account, Uuid::now_v7(), 0))
        .collect();
    assert_eq!(
        said(records::push(&mut db, &account, device, &batch)),
        "501 records in one request, at most 500 are allowed"
    );
    let heavy: Vec<Envelope> = (0..33).map(|_| sized(&account, 262_144)).collect();
    assert_eq!(
        said(records::push(&mut db, &account, device, &heavy)),
        "8650752 sealed bytes in one request, at most 8388608 are allowed"
    );
    assert_eq!(
        said(records::push(&mut db, &account, device, &[sized(&account, 262_145)])),
        "a record of 262145 bytes, at most 262144 are allowed"
    );
    let quota = Quota {
        records: 0,
        ..Quota::default()
    };
    assert_eq!(
        said(records::push_within(&mut db, &account, device, &[sized(&account, 1)], quota)),
        "this account holds as much as this server allows (0 records, 256 MiB)"
    );
    let quota = Quota {
        server_bytes: 0,
        ..Quota::default()
    };
    assert_eq!(
        said(records::push_within(&mut db, &account, device, &[sized(&account, 1)], quota)),
        "this server holds as much as it allows (0 MiB for all accounts together)"
    );
}

#[test]
fn pages_of_any_size_visit_every_record_once() {
    let mut db = Db::open_in_memory();
    let account = account(&mut db);
    let ids: Vec<Uuid> = (0..23).map(|_| Uuid::now_v7()).collect();
    for id in &ids {
        records::push(&mut db, &account, Uuid::now_v7(), &[envelope(&account, *id, 0)]).unwrap();
    }
    for limit in [0, 1, 2, 5, 22, 23, 24, 10_000] {
        let mut seen: Vec<Uuid> = Vec::new();
        let mut since = 0;
        loop {
            let page = records::pull(&db, &account, since, limit, true).unwrap();
            seen.extend(page.envelopes.iter().map(|envelope| envelope.id));
            since = page.cursor.0;
            if !page.has_more {
                break;
            }
        }
        assert_eq!(seen, ids, "{limit}");
    }
}

// ── Comparing ───────────────────────────────────────────────────────────────

#[test]
fn comparing_secrets_does_not_stop_at_the_first_difference() {
    assert!(constant_time_eq(b"abcd", b"abcd"));
    assert!(!constant_time_eq(b"abcd", b"abce"));
    assert!(!constant_time_eq(b"abcd", b"abc"));
    assert!(constant_time_eq(b"", b""));
}

#[test]
fn rows_that_do_not_belong_together_make_no_database() {
    let mut db = Db::open_in_memory();
    assert!(db.sound());
    let account = accounts::create(&mut db, &header(), b"key").unwrap();
    let device = devices::add(&mut db, account.id, "one", &[1; 32]).unwrap();
    let token = invites::create_enrolment(&mut db, account.id, device.id).unwrap();
    invites::create_invite(&mut db, 1000).unwrap();
    for _ in 0..2 {
        let one = envelope(&account, Uuid::now_v7(), 0);
        records::push(&mut db, &account, device.id, &[one]).unwrap();
    }
    assert!(db.sound());
    assert!(records::can_count(&db, account.id));

    db.accounts[0].records[1].seq = 1;
    assert!(!db.sound(), "a number twice");
    db.accounts[0].records[1].seq = 3;
    assert!(!db.sound(), "a number nobody handed out");
    db.accounts[0].records[1].seq = 2;
    assert!(db.sound());
    db.enrolments[0].failures = 5;
    assert!(!db.sound(), "a token that should be spent");
    db.enrolments[0].failures = 4;
    assert!(db.sound());
    let twice = db.accounts[0].records[0].id;
    db.accounts[0].records[1].id = twice;
    assert!(!db.sound(), "a record twice");
    db.accounts[0].records.pop();
    assert!(db.sound());
    db.accounts[0].seq = u64::MAX;
    assert!(!records::can_count(&db, account.id));
    assert_eq!(invites::peek_enrolment(&db, &token), Some(account.id));
}

#[test]
fn a_counter_below_zero_counts_as_far_above_any_quota() {
    let mut db = Db::open_in_memory();
    let account = accounts::create(&mut db, &header(), b"key").unwrap();
    let device = Uuid::now_v7();
    db.accounts[0].record_bytes = -10;
    let one = [envelope(&account, Uuid::now_v7(), 0)];
    assert!(matches!(
        records::push(&mut db, &account, device, &one),
        Err(ApiError::TooLarge(_))
    ));
    db.accounts[0].record_bytes = -4;
    records::push(&mut db, &account, device, &one).unwrap();
    assert_eq!(db.accounts[0].record_bytes, 0);
    db.accounts[0].record_count = -2;
    let another = [envelope(&account, Uuid::now_v7(), 0)];
    assert!(matches!(
        records::push(&mut db, &account, device, &another),
        Err(ApiError::TooLarge(_))
    ));
}

#[test]
fn accounts_are_kept_well_over_time() {
    let mut db = Db::open_in_memory();
    let account = accounts::create(&mut db, &header(), b"key").unwrap();
    let device = Uuid::now_v7();
    let quota = Quota {
        records: 3,
        ..Quota::default()
    };
    let mut handed_out = Vec::new();
    let mut offer = |db: &mut Db, one: Envelope| {
        if let Ok(response) = records::push_at(db, &account, device, &[one], quota, 5) {
            handed_out.extend(response.accepted.iter().map(|taken| taken.seq));
        }
    };
    let id = Uuid::now_v7();
    offer(&mut db, sized(&account, 10));
    offer(&mut db, envelope(&account, id, 0));
    let mut gone = envelope(&account, id, 2);
    gone.deleted = true;
    offer(&mut db, gone);
    offer(&mut db, manifest(&account));
    offer(&mut db, sized(&account, 20));
    assert_eq!(records::purge_tombstones(&mut db, &account, 6, 3), 1);
    assert_eq!(records::drop_manifests_of(&mut db, account.id, device), 1);
    assert_eq!(records::usage(&db, &account).unwrap(), (1, 10));
    offer(&mut db, sized(&account, 30));
    assert_eq!(handed_out, vec![1, 2, 3, 4, 5], "and none for the one refused");
    assert_eq!(records::usage(&db, &account).unwrap(), (2, 40));
    assert!(db.sound());
}
