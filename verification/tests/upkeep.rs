use std::cmp::Ordering;
use uwusync_server::calendar::{date, stamp};
use uwusync_server::commands::{account_line, backup_line, device_line, revoke};
use uwusync_server::config::{Config, TlsMode};
use uwusync_server::db::accounts::VaultHeader;
use uwusync_server::db::devices::DeviceSummary;
use uwusync_server::db::restore::{
    carry_numbers_forward, sibling, Inspection, Outcome, Restore, Step, RESTORE_GAP,
};
use uwusync_server::db::schema::{migrations, SCHEMA_VERSION};
use uwusync_server::db::{accounts, devices, invites, records, Db};
use uwusync_server::ids::Uuid;
use uwusync_server::maintenance::{
    aside_path, backup_path_at, backup_stamp, enough_room, keep_newest, list_backups,
    may_make_key, names_a_backup, needs_an_invite, night_step, purge_at, room_for_backup, setup_code, File,
    NightStep,
};
use uwusync_server::proto::{EntityKind, Envelope, Hlc};
use uwusync_server::tls::{
    fingerprint, is_readable_by_others, key_path, load, load_or_create, names_for,
    unreadable_key, KeyFile, KeyStep,
};
use uwusync_server::updates::{
    build, commits_found, compare_versions, newest_release, question, releases_found, repository,
    repository_of, within_response, Channel, Finding, GitHubRelease, Question, MAX_RESPONSE,
};
use uwusync_server::{b64, epoch_ms};

fn header() -> VaultHeader {
    VaultHeader {
        vault_id: Uuid::now_v7(),
        kdf_memory_kib: 65536,
        kdf_time_cost: 3,
        kdf_parallelism: 4,
        salt: "c2FsdHktc2FsdA".into(),
        wrapped_nonce: "bm9uY2U".into(),
        wrapped_blob: "d3JhcHBlZA".into(),
        needs_account_key: false,
    }
}

// ── Dates ───────────────────────────────────────────────────────────────────

#[test]
fn the_date_is_the_date() {
    assert_eq!(date(0), "1970-01-01");
    assert_eq!(date(1_700_000_000_000), "2023-11-14");
    assert_eq!(date(1_789_000_000_000), "2026-09-10");
}

#[test]
fn a_stamp_is_the_date_and_the_time() {
    assert_eq!(stamp(0), "1970-01-01-000000");
    // 2023-11-14 22:13:20 UTC
    assert_eq!(stamp(1_700_000_000_000), "2023-11-14-221320");
    let mut stamps = [stamp(1_700_000_000_000), stamp(1_699_999_999_000)];
    stamps.sort();
    assert_eq!(stamps[0], "2023-11-14-221319", "and it sorts by time");
}

#[test]
fn leap_days_come_when_they_come() {
    let day = 86_400_000u64;
    assert_eq!(date(789 * day), "1972-02-29");
    assert_eq!(date(11_016 * day), "2000-02-29");
    assert_eq!(date(11_017 * day), "2000-03-01");
    assert_eq!(date(47_540 * day), "2100-02-28");
    assert_eq!(date(47_541 * day), "2100-03-01", "no leap year");
    assert_eq!(date(364 * day), "1970-12-31");
    assert_eq!(date(2_932_896 * day), "9999-12-31");
    assert_eq!(date(2_932_897 * day), "10000-01-01");
}

#[test]
fn a_clock_from_before_the_epoch_shows_nothing() {
    assert_eq!(epoch_ms(None), 0);
    assert_eq!(epoch_ms(Some(1_700_000_000_000)), 1_700_000_000_000);
    assert!(uwusync_server::now_ms() > 1_700_000_000_000);
}

// ── Setup codes ─────────────────────────────────────────────────────────────

fn decode(code: &str) -> serde_json::Value {
    assert!(code.starts_with("uwu1_"), "{code}");
    let decoded = b64::decode(&code["uwu1_".len()..]).unwrap();
    serde_json::from_slice(&decoded).unwrap()
}

#[test]
fn a_setup_code_carries_the_address_the_fingerprint_and_the_invite() {
    let config = Config {
        public: Some("nas.lan:8443".into()),
        ..Config::default()
    };
    let parsed = decode(&setup_code(
        &config,
        "ABCDE-FGHJK-MNPQR",
        Some("SHA256:abc"),
    ));
    assert_eq!(parsed["u"], "https://nas.lan:8443");
    assert_eq!(parsed["f"], "SHA256:abc");
    assert_eq!(parsed["i"], "ABCDE-FGHJK-MNPQR");
}

#[test]
fn without_its_own_certificate_there_is_nothing_to_pin() {
    let config = Config {
        tls: TlsMode::Off,
        public: Some("https://uwusync.example.com".into()),
        ..Config::default()
    };
    let parsed = decode(&setup_code(&config, "X", None));
    assert_eq!(parsed["u"], "https://uwusync.example.com");
    assert!(parsed.get("f").is_none(), "{parsed}");
}

#[test]
fn a_setup_code_falls_back_to_where_the_server_listens() {
    let parsed = decode(&setup_code(&Config::default(), "X", None));
    assert_eq!(parsed["u"], "https://0.0.0.0:8443");
}

#[test]
fn a_setup_code_begins_with_where_the_server_is() {
    let config = Config {
        public: Some("192.168.1.20:8443".into()),
        ..Config::default()
    };
    let code = setup_code(&config, "ABCDE", Some("SHA256:abc"));
    assert!(
        code.starts_with("uwu1_eyJ1IjoiaHR0cHM6Ly8xOTIuMTY4LjEuMjA6ODQ0MyIsImki"),
        "{code}"
    );
    let body = b64::decode(&code["uwu1_".len()..]).unwrap();
    assert_eq!(
        String::from_utf8(body).unwrap(),
        r#"{"u":"https://192.168.1.20:8443","i":"ABCDE","f":"SHA256:abc"}"#
    );
}

#[test]
fn a_setup_code_carries_whatever_it_is_given() {
    let odd = "\"\\\u{8}\t\n\u{c}\r\u{1}\u{1f}\u{7f}ü€😀/";
    let parsed = decode(&setup_code(&Config::default(), odd, Some(odd)));
    assert_eq!(parsed["i"], odd);
    assert_eq!(parsed["f"], odd);
}

// ── Backups ─────────────────────────────────────────────────────────────────

#[test]
fn a_backup_is_written_only_with_room_to_spare() {
    const MIB: u64 = 1024 * 1024;
    // A 32 GiB disk: the margin is a twentieth of it.
    let disk = 32 * 1024 * MIB;
    assert!(enough_room(10 * 1024 * MIB, disk, 100 * MIB));
    assert!(
        !enough_room(1700 * MIB, disk, 100 * MIB),
        "under the margin after"
    );
    // A small disk still keeps 256 MiB.
    assert!(!enough_room(300 * MIB, 1024 * MIB, 50 * MIB));
    assert!(enough_room(400 * MIB, 1024 * MIB, 50 * MIB));
    assert!(!enough_room(disk, disk, u64::MAX), "no overflow");
}

#[test]
fn without_room_the_backup_is_skipped_and_says_why() {
    const MIB: u64 = 1024 * 1024;
    assert!(room_for_backup(None, 5, 5).is_ok(), "nobody knows");
    assert!(room_for_backup(Some((400 * MIB, 1024 * MIB)), 50 * MIB, 0).is_ok());
    let said = room_for_backup(Some((300 * MIB, 1024 * MIB)), 50 * MIB, 1).unwrap_err();
    assert!(said.starts_with("300 MiB free, and a backup of about 51 MiB would leave"), "{said}");
}

fn files(names: &[&str]) -> Vec<File> {
    names
        .iter()
        .map(|name| File {
            name: name.to_string(),
            bytes: 1,
        })
        .collect()
}

fn names(files: Vec<File>) -> Vec<String> {
    files.into_iter().map(|file| file.name).collect()
}

#[test]
fn only_the_newest_backups_are_kept() {
    // Two from before the new name, three after.
    let there = [
        "uwusync-2026-09-05-030000.db",
        "uwussh-2026-09-02-030000.db",
        "uwusync-2026-09-03-030000.db",
        "notes.txt",
        "uwussh-2026-09-01-030000.db",
        "uwusync-2026-09-04-030000.db",
    ];
    let gone = names(keep_newest(files(&there), 2));
    let mut left: Vec<&str> = there
        .into_iter()
        .filter(|name| !gone.iter().any(|other| other == name))
        .collect();
    left.sort();
    assert_eq!(
        left,
        vec![
            "notes.txt",
            "uwusync-2026-09-04-030000.db",
            "uwusync-2026-09-05-030000.db"
        ]
    );
    assert!(keep_newest(files(&there), 5).is_empty());
    assert_eq!(keep_newest(files(&there), 0).len(), 5);
}

#[test]
fn backups_from_before_the_new_name_still_count() {
    assert_eq!(
        backup_stamp("uwussh-2026-09-01-030000.db").as_deref(),
        Some("2026-09-01-030000")
    );
    assert_eq!(
        backup_stamp("uwusync-2026-09-02-030000.db").as_deref(),
        Some("2026-09-02-030000")
    );
    assert_eq!(backup_stamp("notes.db"), None);
    assert_eq!(backup_stamp("uwusync-x.txt"), None);
    let listed = names(list_backups(files(&[
        "uwusync-2026-09-22-030000.db",
        "uwussh-2026-09-21-030000.db",
    ])));
    assert_eq!(
        listed,
        vec![
            "uwussh-2026-09-21-030000.db",
            "uwusync-2026-09-22-030000.db"
        ],
        "oldest first, whatever they are called"
    );
}

#[test]
fn a_backup_is_named_after_its_moment() {
    assert_eq!(
        backup_path_at(1_700_000_000_000),
        "uwusync-2023-11-14-221320.db"
    );
    assert_eq!(
        aside_path("data/uwusync.db", 1_700_000_000_000),
        "data/uwusync.db.before-restore-2023-11-14-221320"
    );
    assert_eq!(sibling("data/uwusync.db", "wal"), "data/uwusync.db-wal");
}

#[test]
fn a_night_without_room_still_tidies_up() {
    let night = |room: bool, backup: bool| {
        let mut steps = vec![NightStep::CheckRoom];
        while *steps.last().unwrap() != NightStep::Sleep {
            let step = *steps.last().unwrap();
            let done = match step {
                NightStep::CheckRoom => room,
                NightStep::Backup => backup,
                _ => true,
            };
            steps.push(night_step(step, done));
        }
        steps
    };
    assert!(night(true, true).contains(&NightStep::KeepNewest));
    for steps in [night(false, true), night(true, false)] {
        assert!(!steps.contains(&NightStep::KeepNewest));
        assert!(steps.contains(&NightStep::Purge));
    }
    assert_eq!(night_step(NightStep::Sleep, true), NightStep::CheckRoom);
}

#[test]
fn old_tombstones_that_everybody_read_are_forgotten() {
    let day = 24 * 60 * 60 * 1000u64;
    let mut db = Db::open_in_memory();
    let account = accounts::create(&mut db, &header(), b"key").unwrap();
    let device = devices::add(&mut db, account.id, "one", &[1; 32]).unwrap();
    let tombstone = Envelope {
        id: Uuid::now_v7(),
        vault_id: account.vault_id,
        kind: EntityKind::Host,
        updated_at: Hlc::new(1, 0, 1),
        base_seq: 0,
        deleted: true,
        nonce: vec![7; 24],
        blob: vec![1],
        seq: None,
    };
    let quota = records::Quota::default();
    records::push_at(&mut db, &account, device.id, &[tombstone], quota, 10 * day).unwrap();
    invites::create_invite_at(&mut db, "OLD", 0, 10 * day).unwrap();

    purge_at(&mut db, 200 * day);
    assert_eq!(records::count(&db, &account), 1, "nobody has read it");
    assert_eq!(invites::count_open_invites_at(&db, 0), 0, "the code is gone");
    devices::seen(&mut db, device.id, 1);
    purge_at(&mut db, 100 * day);
    assert_eq!(records::count(&db, &account), 1, "and it is not old yet");
    purge_at(&mut db, 100 * day + 1);
    assert_eq!(records::count(&db, &account), 0);
}

#[test]
fn a_bare_name_means_one_of_the_backups() {
    assert!(names_a_backup(1, false));
    assert!(!names_a_backup(1, true), "it is right here");
    assert!(!names_a_backup(2, false), "a path");
    assert!(!names_a_backup(0, false));
}

#[test]
fn a_key_is_only_made_where_nobody_pinned_one() {
    assert!(may_make_key(Some(0)));
    assert!(!may_make_key(Some(1)));
    assert!(!may_make_key(None));
    assert!(needs_an_invite(0, 0));
    assert!(!needs_an_invite(1, 0));
    assert!(!needs_an_invite(0, 1));
}

// ── Restoring ───────────────────────────────────────────────────────────────

#[test]
fn after_a_restore_the_numbers_go_on_from_where_the_devices_are() {
    let rows = |pairs: &[(&str, i64)]| -> Vec<(String, i64)> {
        pairs.iter().map(|(id, seq)| (id.to_string(), *seq)).collect()
    };
    let backup = rows(&[("a", 1), ("b", 9), ("c", 5)]);
    let live = rows(&[("a", 3), ("b", 4)]);
    assert_eq!(
        carry_numbers_forward(&backup, &live),
        vec![3, 9, 5 + RESTORE_GAP]
    );
    assert_eq!(
        carry_numbers_forward(&rows(&[("a", 1)]), &Vec::new()),
        vec![1 + RESTORE_GAP],
        "well past the backup's where nobody can say"
    );
}

fn sound() -> Outcome {
    Outcome::Inspected(Inspection::Read {
        version: SCHEMA_VERSION,
        tables: 3,
    })
}

#[test]
fn a_backup_goes_back_and_what_was_there_is_kept() {
    let mut restore = Restore::new("backup.db");
    restore.next(sound());
    assert!(matches!(restore.step, Step::Compare));
    restore.next(Outcome::Compared { replaced: true, same: false });
    assert!(matches!(restore.step, Step::Release));
    restore.next(Outcome::Released(Some("delete".into())));
    assert!(matches!(restore.step, Step::Prepare));
    restore.next(Outcome::Fine);
    assert!(matches!(restore.step, Step::SetAside));
    restore.next(Outcome::Fine);
    assert!(matches!(restore.step, Step::PutInPlace));
    restore.next(Outcome::Fine);
    assert!(matches!(restore.step, Step::ClearLogs));
    restore.next(Outcome::Fine);
    assert!(matches!(restore.step, Step::Done(Ok(()))));
}

#[test]
fn a_restore_where_there_was_nothing_moves_nothing_aside() {
    let mut restore = Restore::new("backup.db");
    restore.next(sound());
    restore.next(Outcome::Compared { replaced: false, same: false });
    assert!(matches!(restore.step, Step::Prepare));
    restore.next(Outcome::Fine);
    assert!(matches!(restore.step, Step::PutInPlace));
    restore.next(Outcome::Failed("denied".into()));
    assert!(matches!(
        &restore.step,
        Step::Done(Err(what)) if what == "the backup could not be put in place: denied"
    ));
}

fn refused(outcomes: Vec<Outcome>) -> String {
    let mut restore = Restore::new("backup.db");
    for outcome in outcomes {
        restore.next(outcome);
    }
    match restore.step {
        Step::Done(Err(what)) => what,
        other => panic!("{other:?}"),
    }
}

#[test]
fn a_database_in_use_is_not_replaced() {
    for mode in [None, Some("wal".to_string())] {
        let what = refused(vec![
            sound(),
            Outcome::Compared { replaced: true, same: false },
            Outcome::Released(mode),
        ]);
        assert!(what.contains("in use"), "{what}");
    }
}

#[test]
fn the_database_is_not_its_own_backup() {
    let what = refused(vec![
        sound(),
        Outcome::Compared { replaced: true, same: true },
    ]);
    assert!(what.contains("itself"), "{what}");
}

#[test]
fn only_a_sound_backup_of_this_server_is_taken() {
    for (found, said) in [
        (Inspection::Unopened("no".into()), "backup.db: no"),
        (Inspection::NoDatabase, "backup.db is not a database"),
        (Inspection::Damaged("page 3".into()), "backup.db is damaged: page 3"),
        (Inspection::Unread("io".into()), "backup.db: io"),
        (
            Inspection::Read { version: 0, tables: 3 },
            "backup.db is not a UwUSSH Server database",
        ),
        (
            Inspection::Read { version: 1, tables: 2 },
            "backup.db is not a UwUSSH Server database",
        ),
        (
            Inspection::Read { version: SCHEMA_VERSION + 1, tables: 3 },
            "backup.db comes from a newer UwUSSH Server (schema 4); restore it with that one",
        ),
    ] {
        assert_eq!(refused(vec![Outcome::Inspected(found)]), said);
    }
}

#[test]
fn a_restore_that_fails_halfway_puts_things_back() {
    let start = || {
        vec![
            sound(),
            Outcome::Compared { replaced: true, same: false },
            Outcome::Released(Some("delete".into())),
        ]
    };
    let mut restore = Restore::new("backup.db");
    for outcome in start() {
        restore.next(outcome);
    }
    restore.next(Outcome::Failed("disk full".into()));
    assert!(matches!(restore.step, Step::Discard(_)));
    restore.next(Outcome::Fine);
    assert!(matches!(
        &restore.step,
        Step::Done(Err(what)) if what == "the backup could not be made ready: disk full"
    ));

    let mut restore = Restore::new("backup.db");
    for outcome in start() {
        restore.next(outcome);
    }
    restore.next(Outcome::Fine);
    restore.next(Outcome::Fine);
    restore.next(Outcome::Failed("denied".into()));
    assert!(matches!(restore.step, Step::PutBack(_)));
    restore.next(Outcome::Fine);
    assert!(matches!(restore.step, Step::Done(Err(_))));
    let mut outcomes = start();
    outcomes.push(Outcome::Fine);
    outcomes.push(Outcome::Failed("read-only".into()));
    assert_eq!(refused(outcomes), "read-only");
    assert_eq!(
        refused(vec![
            sound(),
            Outcome::Compared { replaced: true, same: false },
            Outcome::Failed("locked".into()),
        ]),
        "locked"
    );
}

#[test]
fn migrating_twice_is_harmless() {
    let steps = migrations(0).unwrap();
    assert_eq!(
        steps.iter().map(|step| step.version).collect::<Vec<i64>>(),
        vec![1, 2, 3]
    );
    assert_eq!(
        steps[0].sql.matches("CREATE TABLE ").count(),
        5,
        "the five tables"
    );
    assert!(steps[1].sql.contains("needs_account_key"));
    assert!(steps[2].sql.contains("record_bytes"));
    assert!(migrations(SCHEMA_VERSION).unwrap().is_empty());
    assert_eq!(migrations(2).unwrap().len(), 1);
    assert_eq!(migrations(-7).unwrap().len(), 3);
}

#[test]
fn a_database_from_a_newer_server_is_not_opened() {
    let what = migrations(SCHEMA_VERSION + 1).unwrap_err();
    assert!(what.contains("newer UwUSSH Server"), "{what}");
    assert!(what.contains("(schema 4, this one knows 3)"), "{what}");
}

// ── Certificates ────────────────────────────────────────────────────────────

#[test]
fn the_names_come_out_of_whatever_the_address_was_written_as() {
    assert_eq!(names_for(None), vec!["localhost"]);
    assert_eq!(
        names_for(Some("nas.lan:8443")),
        vec!["localhost", "nas.lan"]
    );
    assert_eq!(
        names_for(Some("https://uwussh.example.com")),
        vec!["localhost", "uwussh.example.com"]
    );
    assert_eq!(
        names_for(Some("https://uwussh.example.com/sync")),
        vec!["localhost", "uwussh.example.com"]
    );
    assert_eq!(
        names_for(Some("10.0.0.5:8443")),
        vec!["localhost", "10.0.0.5"]
    );
    assert_eq!(names_for(Some("localhost:8443")), vec!["localhost"]);
    assert_eq!(names_for(Some("[2001:db8::1]:8443")), vec!["localhost", "2001:db8::1"]);
    assert_eq!(names_for(Some("0.0.0.0:8443")), vec!["localhost"]);
    assert_eq!(names_for(Some("")), vec!["localhost"]);
}

#[test]
fn a_fingerprint_looks_like_the_one_of_an_ssh_key() {
    assert_eq!(
        fingerprint(b"abc"),
        "SHA256:ungWv48Bz+pBQUDeXa4iI7ADYaOWF3qctBD/YfIAFa0"
    );
    assert_eq!(fingerprint(b"").len(), "SHA256:".len() + 43);
    assert_ne!(fingerprint(b"one"), fingerprint(b"two"));
}

#[test]
fn a_key_is_used_made_or_refused() {
    let path = key_path("./data");
    assert_eq!(path, "./data/tls/key.pem");
    assert!(matches!(
        load(&path, KeyFile::Missing, false),
        KeyStep::Refuse(what) if what.contains("new-key") && what.contains(&path)
    ));
    assert!(matches!(load(&path, KeyFile::Missing, true), KeyStep::Make));
    assert!(matches!(load_or_create(&path, KeyFile::Missing), KeyStep::Make));
    assert!(matches!(
        load(&path, KeyFile::Read("pem".into()), false),
        KeyStep::Use(pem) if pem == "pem"
    ));
    assert!(matches!(
        load_or_create(&path, KeyFile::Failed("denied".into())),
        KeyStep::Refuse(what) if what == "denied"
    ));
    assert_eq!(unreadable_key("k", "bad"), "the key in k: bad");
    assert!(is_readable_by_others(0o100640));
    assert!(!is_readable_by_others(0o100600));
}

// ── Updates ─────────────────────────────────────────────────────────────────

fn release(tag: &str, prerelease: bool) -> GitHubRelease {
    GitHubRelease {
        tag_name: tag.into(),
        draft: false,
        prerelease,
        html_url: format!("https://github.com/example/releases/{tag}"),
    }
}

#[test]
fn versions_compare_like_semver() {
    assert_eq!(compare_versions("0.1.0", "0.1.0"), Ordering::Equal);
    assert_eq!(compare_versions("v0.2.0", "0.1.9"), Ordering::Greater);
    assert_eq!(compare_versions("0.2.0-beta.1", "0.2.0"), Ordering::Less);
    assert_eq!(
        compare_versions("0.2.0-beta.10", "0.2.0-beta.2"),
        Ordering::Greater
    );
    assert_eq!(compare_versions("0.10.0", "0.9.0"), Ordering::Greater);
    assert_eq!(compare_versions("0.1", "0.1.0"), Ordering::Less);
    assert_eq!(compare_versions("0.1.0-beta", "0.1.0-beta.1"), Ordering::Less);
    assert_eq!(compare_versions("0.1.0-rc", "0.1.0-beta"), Ordering::Greater);
    assert_eq!(compare_versions("what", "0.1.0"), Ordering::Equal);
}

#[test]
fn each_channel_hears_about_its_own_releases() {
    let list = vec![
        release("v0.1.0", false),
        release("v0.2.0-beta.1", true),
        release("v0.1.1", false),
    ];
    let stable = newest_release(&list, "0.1.0", Channel::Stable).unwrap();
    assert_eq!(stable.tag_name, "v0.1.1");
    let beta = newest_release(&list, "0.1.0", Channel::Beta).unwrap();
    assert_eq!(beta.tag_name, "v0.2.0-beta.1");
    assert!(newest_release(&list, "0.2.0", Channel::Beta).is_none());
    assert!(newest_release(&list, "0.1.1", Channel::Stable).is_none());
}

#[test]
fn a_draft_is_nobody_s_update() {
    let mut draft = release("v9.0.0", false);
    draft.draft = true;
    assert!(newest_release(&[draft], "0.1.0", Channel::Beta).is_none());
}

#[test]
fn the_channel_follows_the_tag_and_what_runs() {
    assert_eq!(Channel::of(None, "0.1.0"), Channel::Stable);
    assert_eq!(Channel::of(Some("latest"), "0.1.0"), Channel::Stable);
    assert_eq!(Channel::of(Some("beta"), "0.1.0"), Channel::Beta);
    assert_eq!(
        Channel::of(Some("latest"), "0.2.0-beta.1"),
        Channel::Beta,
        "a beta hears about the next beta"
    );
    assert_eq!(Channel::of(Some(" BETA "), "0.1.0"), Channel::Beta);
}

#[test]
fn the_repository_comes_from_the_package() {
    assert_eq!(repository(), "MinifyX/UwUSync-Server");
    assert_eq!(repository_of("https://github.com/a/b//"), "a/b");
}

#[test]
fn a_build_of_main_asks_for_commits_and_a_release_for_releases() {
    let edge = build("0.2.1", Some("abc123"), Some(""));
    assert!(!edge.release);
    assert!(matches!(
        question(&edge, "a/b"),
        Question::Commits { url } if url == "https://api.github.com/repos/a/b/compare/abc123...main"
    ));
    for other in [
        build("0.2.1", Some("abc123"), Some("v0.2.1")),
        build("0.2.1", Some(""), None),
        build("0.2.1", None, None),
    ] {
        assert!(matches!(
            question(&other, "a/b"),
            Question::Releases { url }
                if url == "https://api.github.com/repos/a/b/releases?per_page=30"
        ));
    }
    assert!(matches!(commits_found(0), Finding::UpToDate));
    assert!(matches!(commits_found(3), Finding::Commits(3)));
}

#[test]
fn what_is_found_is_the_newest_release_on_the_channel() {
    let list = vec![release("v0.3.0-beta.1", true), release("v0.2.2", false)];
    assert!(matches!(
        releases_found(&list, "0.2.1", None),
        Finding::Release { version, url }
            if version == "0.2.2" && url == "https://github.com/example/releases/v0.2.2"
    ));
    assert!(matches!(
        releases_found(&list, "0.2.1", Some("beta")),
        Finding::Release { version, .. } if version == "0.3.0-beta.1"
    ));
    assert!(matches!(releases_found(&list, "0.2.2", None), Finding::UpToDate));
    assert!(within_response(MAX_RESPONSE - 1, 1));
    assert!(!within_response(MAX_RESPONSE, 1));
    assert!(!within_response(1, usize::MAX));
}

// ── Commands ────────────────────────────────────────────────────────────────

#[test]
fn lines_say_what_there_is_to_say() {
    let id = Uuid { value: 0x0191_2345_6789_7abc_8def_0123_4567_89ab };
    assert_eq!(
        account_line(id, 2, 1_700_000_000_000),
        "01912345-6789-7abc-8def-0123456789ab  2 device(s)  since 2023-11-14"
    );
    let device = |last_seen_ms, revoked_ms| DeviceSummary {
        id,
        name: "LVDesk1".into(),
        created_ms: 0,
        last_seen_ms,
        revoked_ms,
    };
    let start = "01912345-6789-7abc-8def-0123456789ab  LVDesk1  ";
    assert_eq!(device_line(&device(None, None)), format!("{start}never here"));
    assert_eq!(
        device_line(&device(Some(0), None)),
        format!("{start}last seen 1970-01-01")
    );
    assert_eq!(
        device_line(&device(Some(0), Some(86_400_000))),
        format!("{start}revoked 1970-01-02")
    );
    assert_eq!(backup_line("x.db", 1025), "x.db  2 KiB");
}

#[test]
fn a_device_shut_out_from_a_shell_takes_along_what_it_made() {
    let mut db = Db::open_in_memory();
    let account = accounts::create(&mut db, &header(), b"key").unwrap();
    let device = devices::add(&mut db, account.id, "one", &[1; 32]).unwrap();
    let token = invites::create_enrolment(&mut db, account.id, device.id).unwrap();
    assert_eq!(revoke(&mut db, device.id), Ok(true));
    assert_eq!(revoke(&mut db, device.id), Ok(false), "it was already");
    assert!(devices::get(&db, device.id).unwrap().revoked);
    assert_eq!(invites::peek_enrolment(&db, &token), None);
    let nobody = Uuid::now_v7();
    assert_eq!(
        revoke(&mut db, nobody),
        Err(format!("no device {}", nobody.hyphenated()))
    );
}

#[test]
fn a_v_in_front_changes_nothing() {
    for (a, b) in [("0.2.0", "0.1.0"), ("0.2.0-beta.1", "0.2.0"), ("what", "0.1.0")] {
        assert_eq!(compare_versions(&format!("v{a}"), b), compare_versions(a, b));
        assert_eq!(compare_versions(b, &format!("v{a}")), compare_versions(b, a));
        assert_eq!(compare_versions(a, a), Ordering::Equal);
    }
    assert_eq!(compare_versions("1.2- anything ", "1.2"), Ordering::Less);
    assert_eq!(compare_versions("1.x", "1.0"), Ordering::Equal);
}

#[test]
fn nothing_newer_is_passed_over() {
    let list = vec![
        release("v0.2.0", false),
        release("v0.10.0", false),
        release("v0.9.0", false),
        release("v0.11.0-beta.1", true),
    ];
    let stable = newest_release(&list, "0.1.0", Channel::Stable).unwrap();
    assert_eq!(stable.tag_name, "v0.10.0");
    let beta = newest_release(&list, "0.1.0", Channel::Beta).unwrap();
    assert_eq!(beta.tag_name, "v0.11.0-beta.1");
}
