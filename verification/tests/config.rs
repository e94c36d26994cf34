use uwusync_server::config::{
    legacy_name, legacy_variables, number, switch, Config, Registration, TlsMode, Variable,
};

fn vars(pairs: &[(&str, &str)]) -> Vec<Variable> {
    pairs
        .iter()
        .map(|(name, value)| Variable {
            name: name.to_string(),
            value: value.to_string(),
        })
        .collect()
}

fn read(pairs: &[(&str, &str)]) -> Result<Config, String> {
    Config::from_env(&vars(pairs), None)
}

#[test]
fn the_defaults_are_the_documented_ones() {
    let config = Config::default();
    assert!(config.listen.ends_with(":8443"));
    assert_eq!(config.registration, Registration::Invite);
    assert_eq!(config.tls, TlsMode::Auto, "secure without being asked");
    assert!(!config.trust_forwarded, "off unless a proxy is in front");
    assert!(config.update_check);
    assert_eq!(Config::database(false, false), "uwusync.db");
    assert_eq!(config.quota.server_bytes, 2048 * 1024 * 1024);
    assert_eq!(config.max_connections, 512);
    assert_eq!(config.max_connections_per_address, 32);
    assert_eq!(config.kdf_floor.memory_kib, 19456);
    assert_eq!(config.kdf_floor.time_cost, 2);
    assert_eq!(config.data_dir, "./data");
    assert_eq!(config.session_secs, 3600);
    assert_eq!(config.max_accounts, 100);
    assert_eq!(config.quota.records, 100_000);
    assert_eq!(config.quota.bytes, 256 * 1024 * 1024);
}

#[test]
fn the_address_a_device_writes_down_says_how_to_reach_it() {
    let plain = Config {
        tls: TlsMode::Off,
        public: Some("nas.lan:8443".into()),
        ..Config::default()
    };
    assert_eq!(plain.base_url(), "http://nas.lan:8443");

    let secure = Config {
        public: Some("nas.lan:8443".into()),
        ..Config::default()
    };
    assert_eq!(secure.base_url(), "https://nas.lan:8443");
    assert_eq!(Config::default().base_url(), "https://0.0.0.0:8443");

    let proxied = Config {
        tls: TlsMode::Off,
        public: Some("https://uwusync.example.com/".into()),
        ..Config::default()
    };
    assert_eq!(proxied.base_url(), "https://uwusync.example.com");
}

#[test]
fn a_setting_keeps_its_name_from_before() {
    assert_eq!(
        legacy_name("UWUSYNC_PUBLIC").as_deref(),
        Some("UWUSSH_PUBLIC")
    );
    assert_eq!(legacy_name("RUST_LOG"), None);
}

#[test]
fn a_database_from_before_the_new_name_is_used_where_it_is() {
    assert_eq!(Config::database(false, false), "uwusync.db", "a new server");
    assert_eq!(Config::database(false, true), "uwussh.db", "one from before");
    assert_eq!(Config::database(true, true), "uwusync.db", "the new one wins");
    assert_eq!(Config::database(true, false), "uwusync.db");
    assert_eq!(Config::backups(), "backups");
}

#[test]
fn a_switch_is_on_or_off_and_nothing_else() {
    assert_eq!(switch("OFF"), Some(false));
    assert_eq!(switch("on"), Some(true));
    assert_eq!(switch("0"), Some(false));
    assert_eq!(switch("later"), None);
    assert_eq!(switch(" Yes "), Some(true));
    assert_eq!(switch("no"), Some(false));
}

#[test]
fn registration_only_takes_the_three_words() {
    assert_eq!(Registration::parse("OPEN"), Some(Registration::Open));
    assert_eq!(Registration::parse("closed"), Some(Registration::Closed));
    assert_eq!(Registration::parse("maybe"), None);
    assert_eq!(Registration::parse("\tInvite\n"), Some(Registration::Invite));
}

#[test]
fn tls_is_auto_or_off() {
    for word in ["auto", "on", "1", "TRUE"] {
        assert_eq!(TlsMode::parse(word), Some(TlsMode::Auto), "{word}");
    }
    for word in ["off", "0", "false", " Proxy "] {
        assert_eq!(TlsMode::parse(word), Some(TlsMode::Off), "{word}");
    }
    assert_eq!(TlsMode::parse("yes"), None);
}

#[test]
fn every_setting_is_read_from_the_environment() {
    let vars = vars(&[
        ("UWUSYNC_DATA", "/srv/uwusync"),
        ("UWUSYNC_LISTEN", "127.0.0.1:9000"),
        ("UWUSYNC_PUBLIC", "nas.lan:8443"),
        ("UWUSYNC_REGISTRATION", "open"),
        ("UWUSYNC_TLS", "off"),
        ("UWUSYNC_TRUST_FORWARDED", "on"),
        ("UWUSYNC_SESSION_SECS", "60"),
        ("UWUSYNC_UPDATE_CHECK", "no"),
        ("UWUSYNC_CHANNEL", "beta"),
        ("UWUSYNC_MAX_ACCOUNTS", " 7 "),
        ("UWUSYNC_ACCOUNT_MAX_RECORDS", "8"),
        ("UWUSYNC_ACCOUNT_MAX_MB", "9"),
        ("UWUSYNC_SERVER_MAX_MB", "10"),
        ("UWUSYNC_MAX_CONNECTIONS", "11"),
        ("UWUSYNC_MAX_CONNECTIONS_PER_IP", "0"),
    ]);
    let config = Config::from_env(&vars, Some("127.0.0.1:9000".into())).unwrap();
    assert_eq!(config.data_dir, "/srv/uwusync");
    assert_eq!(config.listen, "127.0.0.1:9000");
    assert_eq!(config.public.as_deref(), Some("nas.lan:8443"));
    assert_eq!(config.registration, Registration::Open);
    assert_eq!(config.tls, TlsMode::Off);
    assert!(config.trust_forwarded);
    assert_eq!(config.session_secs, 60);
    assert!(!config.update_check);
    assert_eq!(config.channel.as_deref(), Some("beta"));
    assert_eq!(config.max_accounts, 7);
    assert_eq!(config.quota.records, 8);
    assert_eq!(config.quota.bytes, 9 * 1024 * 1024);
    assert_eq!(config.quota.server_bytes, 10 * 1024 * 1024);
    assert_eq!(config.max_connections, 11);
    assert_eq!(config.max_connections_per_address, 0);
}

#[test]
fn a_name_from_before_counts_where_the_new_one_is_not_set() {
    let config = read(&[("UWUSSH_PUBLIC", "old.lan")]).unwrap();
    assert_eq!(config.public.as_deref(), Some("old.lan"));
    let config = read(&[("UWUSSH_PUBLIC", "old.lan"), ("UWUSYNC_PUBLIC", "new.lan")]).unwrap();
    assert_eq!(config.public.as_deref(), Some("new.lan"));
    let config = read(&[("UWUSSH_PUBLIC", "old.lan"), ("UWUSYNC_PUBLIC", "")]).unwrap();
    assert_eq!(config.public.as_deref(), Some("old.lan"), "empty is not set");
}

#[test]
fn a_setting_that_is_unusable_is_an_error() {
    for (name, value, said) in [
        (
            "UWUSYNC_REGISTRATION",
            "maybe",
            "UWUSYNC_REGISTRATION must be open, invite or closed: maybe",
        ),
        ("UWUSYNC_TLS", "x", "UWUSYNC_TLS must be auto or off: x"),
        (
            "UWUSYNC_TRUST_FORWARDED",
            "x",
            "UWUSYNC_TRUST_FORWARDED must be on or off: x",
        ),
        (
            "UWUSYNC_SESSION_SECS",
            " 60",
            "UWUSYNC_SESSION_SECS is not a number:  60",
        ),
        (
            "UWUSYNC_UPDATE_CHECK",
            "x",
            "UWUSYNC_UPDATE_CHECK must be on or off: x",
        ),
        (
            "UWUSYNC_MAX_ACCOUNTS",
            "-1",
            "UWUSYNC_MAX_ACCOUNTS is not a number: -1",
        ),
        (
            "UWUSYNC_ACCOUNT_MAX_RECORDS",
            "many",
            "UWUSYNC_ACCOUNT_MAX_RECORDS is not a number: many",
        ),
        (
            "UWUSYNC_ACCOUNT_MAX_MB",
            "18446744073709551615",
            "UWUSYNC_ACCOUNT_MAX_MB is more than any disk",
        ),
        (
            "UWUSYNC_SERVER_MAX_MB",
            "18446744073709551616",
            "UWUSYNC_SERVER_MAX_MB is not a number: 18446744073709551616",
        ),
        (
            "UWUSYNC_MAX_CONNECTIONS",
            "0",
            "UWUSYNC_MAX_CONNECTIONS of 0 would let nobody in",
        ),
        (
            "UWUSYNC_MAX_CONNECTIONS_PER_IP",
            "",
            "",
        ),
    ] {
        match read(&[(name, value)]) {
            Err(error) => assert_eq!(error, said),
            Ok(_) => assert_eq!(value, "", "{name}"),
        }
    }
    assert_eq!(
        read(&[("UWUSYNC_TLS", "x"), ("UWUSYNC_LISTEN", "somewhere")]).unwrap_err(),
        "UWUSYNC_LISTEN is not an address: somewhere"
    );
}

#[test]
fn a_number_is_read_the_way_rust_reads_one() {
    assert_eq!(number("N", " 42\n"), Ok(42));
    assert_eq!(number("N", "+7"), Ok(7));
    assert_eq!(number("N", "007"), Ok(7));
    assert_eq!(number("N", "18446744073709551615"), Ok(u64::MAX));
    for wrong in ["", "+", "1.5", "0x10", "١", "18446744073709551616"] {
        assert_eq!(
            number("N", wrong),
            Err(format!("N is not a number: {wrong}")),
            "{wrong}"
        );
    }
}

#[test]
fn settings_under_their_old_names_are_listed() {
    let names = ["UWUSSH_TLS", "PATH", "UWUSSH_DATA", "UWUSSH_PUBLIC", "UWUSYNC_PUBLIC"]
        .map(String::from)
        .to_vec();
    assert_eq!(legacy_variables(&names), vec!["UWUSSH_DATA", "UWUSSH_TLS"]);
}
