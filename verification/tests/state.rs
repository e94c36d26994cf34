use uwusync_server::config::Config;
use uwusync_server::connections::{
    raise_open_files, too_few_files, Activity, Gate, Guard, Holding, Limits, Polled, ReadStep,
    TurnedAway, FIRST_BYTES, HEADER_TIMEOUT,
};
use uwusync_server::error::ApiError;
use uwusync_server::health::{expected_key, local, url, verdict, Answer};
use uwusync_server::config::TlsMode;
use uwusync_server::ids::Uuid;
use uwusync_server::state::{
    client_key, counted, forwarded_for, Address, Announcement, Events, MAX_STREAMS_PER_DEVICE,
};

fn v4(octets: [u8; 4]) -> Address {
    Address::V4 { octets }
}

fn v6(segments: [u16; 8]) -> Address {
    Address::V6 { segments }
}

fn headers(lines: &[&str]) -> Vec<String> {
    lines.iter().map(|line| line.to_string()).collect()
}

/// What the believed entry of these lines is as an address, if it is one.
fn forwarded(lines: &[&str]) -> Option<Address> {
    let entry = forwarded_for(&headers(lines))?;
    let octets: Vec<u8> = entry
        .split('.')
        .map(|piece| piece.parse().ok())
        .collect::<Option<Vec<u8>>>()?;
    Some(v4(octets.try_into().ok()?))
}

#[test]
fn a_forwarded_address_is_ignored_unless_there_is_a_proxy() {
    let config = Config::default();
    let peer = Some(v4([10, 0, 0, 5]));
    assert_eq!(
        client_key(&config, forwarded(&["1.2.3.4"]), peer),
        "10.0.0.5",
        "anyone can send that header"
    );

    let trusting = Config {
        trust_forwarded: true,
        ..Config::default()
    };
    assert_eq!(client_key(&trusting, forwarded(&["1.2.3.4"]), peer), "1.2.3.4");
    assert_eq!(
        client_key(&trusting, forwarded(&["6.6.6.6, 1.2.3.4"]), peer),
        "1.2.3.4",
        "the last one is what the proxy saw; the first is whatever the client wrote"
    );
    assert_eq!(
        client_key(&trusting, forwarded(&["6.6.6.6", "1.2.3.4"]), peer),
        "1.2.3.4",
        "a proxy that adds a line of its own"
    );
    assert_eq!(
        client_key(&trusting, forwarded(&["not-an-address"]), peer),
        "10.0.0.5",
        "and nonsense counts as the socket"
    );
    assert_eq!(
        client_key(&trusting, forwarded(&[]), peer),
        "10.0.0.5",
        "and without the header, the socket"
    );
    assert_eq!(client_key(&trusting, None, None), "unknown");
}

#[test]
fn the_entry_that_counts_is_the_last_that_is_not_blank() {
    assert_eq!(forwarded_for(&headers(&["a, b ,"])).as_deref(), Some("b"));
    assert_eq!(forwarded_for(&headers(&["a", " , ", ""])).as_deref(), Some("a"));
    assert_eq!(forwarded_for(&headers(&["", ",,"])), None);
}

#[test]
fn an_ipv6_machine_is_counted_once_for_its_whole_network() {
    let config = Config::default();
    let one = Some(v6([0x2001, 0xdb8, 1, 2, 0, 0, 0, 1]));
    let other = Some(v6([0x2001, 0xdb8, 1, 2, 0xffff, 0, 0, 9]));
    let elsewhere = Some(v6([0x2001, 0xdb8, 1, 3, 0, 0, 0, 1]));
    let key = client_key(&config, None, one);
    assert_eq!(key, "2001:db8:1:2::/64");
    assert_eq!(client_key(&config, None, other), key);
    assert_ne!(client_key(&config, None, elsewhere), key);
    let mapped = Some(v6([0, 0, 0, 0, 0, 0xffff, 0x0a00, 0x0005]));
    assert_eq!(client_key(&config, None, mapped), "10.0.0.5");
}

#[test]
fn a_device_holds_only_a_few_streams_open() {
    let mut events = Events::default();
    let device = Uuid::now_v7();
    let open: Vec<_> = (0..MAX_STREAMS_PER_DEVICE)
        .map(|_| events.open_stream(device).expect("room"))
        .collect();
    assert!(events.open_stream(device).is_none());
    assert!(
        events.open_stream(Uuid::now_v7()).is_some(),
        "another device"
    );
    for stream in open {
        events.close_stream(stream);
    }
    assert_eq!(events.streams(device), 0);
    assert!(
        events.open_stream(device).is_some(),
        "closed ones make room"
    );
}

#[test]
fn a_channel_nobody_listens_to_is_dropped() {
    assert_eq!(Events::announce(Some(0)), Announcement::Forget);
    assert_eq!(Events::announce(Some(1)), Announcement::Tell);
    assert_eq!(Events::announce(None), Announcement::Nobody);
}

// ── Connections ─────────────────────────────────────────────────────────────

fn gate(max: usize, per_address: usize) -> Gate {
    Gate::new(Limits {
        max,
        per_address,
        header_timeout: HEADER_TIMEOUT,
    })
}

#[test]
fn one_address_gets_its_share_and_no_more() {
    let mut gate = gate(10, 2);
    let home = v4([203, 0, 113, 7]);
    let first = gate.let_in(home).expect("room");
    let _second = gate.let_in(home).expect("room");
    assert!(gate.let_in(home).is_err());
    assert!(
        gate.let_in(v4([198, 51, 100, 1])).is_ok(),
        "somebody else"
    );
    gate.release(first);
    assert!(gate.let_in(home).is_ok(), "a closed one makes room");
}

#[test]
fn a_whole_ipv6_network_counts_as_one_address() {
    let mut gate = gate(10, 2);
    let _one = gate.let_in(v6([0x2001, 0xdb8, 1, 2, 0, 0, 0, 1])).unwrap();
    let _two = gate.let_in(v6([0x2001, 0xdb8, 1, 2, 0, 0, 0, 2])).unwrap();
    assert!(gate.let_in(v6([0x2001, 0xdb8, 1, 2, 0, 0, 0, 3])).is_err());
}

#[test]
fn everybody_together_gets_the_total_and_no_more() {
    let mut gate = gate(3, 0);
    let open: Vec<_> = (1..=3)
        .map(|n| gate.let_in(v4([10, 0, 0, n])).expect("room"))
        .collect();
    assert_eq!(gate.open(), 3);
    assert!(gate.let_in(v4([10, 0, 0, 9])).is_err());
    for one in open {
        gate.release(one);
    }
    assert_eq!(gate.open(), 0);
    assert!(gate.is_empty(), "nothing left over");
}

#[test]
fn behind_a_proxy_only_the_total_counts() {
    let proxied = Config {
        trust_forwarded: true,
        ..Config::default()
    };
    assert_eq!(Limits::from_config(&proxied).per_address, 0);
    let direct = Limits::from_config(&Config::default());
    assert_eq!(direct.per_address, 32);
    assert_eq!(direct.max, 512);
    // A household behind one address: several devices, each with an
    // event stream and a couple of requests going.
    assert!(direct.per_address >= 8 * 3);
}

#[test]
fn the_log_hears_once_a_minute_that_somebody_was_turned_away() {
    let second = 1_000_000_000;
    let mut gate = gate(1, 0);
    let home = v4([10, 0, 0, 1]);
    gate.let_in_at(home, 0).unwrap();
    assert!(matches!(
        gate.let_in_at(home, second),
        Err(Some(TurnedAway::Full { open: 1 }))
    ));
    assert!(matches!(gate.let_in_at(home, 60 * second), Err(None)));
    assert!(matches!(gate.let_in_at(home, 61 * second), Err(Some(_))));

    let mut shared = Gate::new(Limits {
        max: 9,
        per_address: 1,
        header_timeout: HEADER_TIMEOUT,
    });
    shared.let_in_at(home, 0).unwrap();
    assert!(matches!(
        shared.let_in_at(home, 0),
        Err(Some(TurnedAway::Address { address, open: 1 })) if address == "10.0.0.1"
    ));
}

#[test]
fn a_connection_that_says_nothing_in_time_is_over() {
    let mut guard = Guard::new();
    assert_eq!(guard.step(Polled::Pending, false, false), ReadStep::PassOn);
    assert_eq!(guard.step(Polled::Read(10), true, true), ReadStep::PassOn);
    assert_eq!(guard.step(Polled::Pending, true, false), ReadStep::TimedOut);
    assert_eq!(guard.step(Polled::Failed, true, true), ReadStep::PassOn);
    assert_eq!(guard.step(Polled::Read(FIRST_BYTES - 10), false, false), ReadStep::PassOn);
    assert_eq!(guard.first, None, "it has said enough");
    assert_eq!(guard.step(Polled::Pending, true, false), ReadStep::PassOn);
    assert_eq!(guard.step(Polled::Pending, true, true), ReadStep::End);
}

#[test]
fn an_answer_keeps_a_connection_open() {
    let mut activity = Activity::new(100);
    assert_eq!(activity.idle_until(15), Some(115));
    assert!(!activity.idle_too_long(15, 114));
    assert!(activity.idle_too_long(15, 115));
    activity.begin();
    activity.begin();
    assert!(!activity.idle_too_long(15, 1_000_000), "it is being answered");
    assert!(!activity.end(200));
    assert!(activity.end(300), "that was the last");
    assert_eq!(activity.idle_until(15), Some(315));
}

#[test]
fn a_body_holds_on_to_what_it_was_given() {
    let holding = Holding::new("body", 7);
    assert_eq!(holding.body, "body");
    assert_eq!(holding.held, 7);
}

#[test]
fn the_open_file_limit_goes_as_far_as_it_can() {
    assert_eq!(raise_open_files(1024, 4096), Some(4096));
    assert_eq!(raise_open_files(4096, 4096), None);
    assert!(too_few_files(Some(575), 512));
    assert!(!too_few_files(Some(576), 512));
    assert!(!too_few_files(None, 512));
}

// ── Health ──────────────────────────────────────────────────────────────────

#[test]
fn a_server_on_every_address_is_asked_on_loopback() {
    assert!(matches!(
        local(v4([0, 0, 0, 0])),
        Address::V4 { octets: [127, 0, 0, 1] }
    ));
    assert!(matches!(
        local(v6([0; 8])),
        Address::V6 { segments: [0, 0, 0, 0, 0, 0, 0, 1] }
    ));
    assert!(matches!(
        local(v4([10, 0, 0, 5])),
        Address::V4 { octets: [10, 0, 0, 5] }
    ));
    assert_eq!(counted(local(v6([0x2001, 0, 0, 0, 0, 0, 0, 1]))), "2001:0:0:0::/64");
}

#[test]
fn a_server_is_well_when_it_says_so() {
    let asked = url(TlsMode::Auto, "127.0.0.1:8443");
    assert_eq!(asked, "https://127.0.0.1:8443/healthz");
    assert_eq!(url(TlsMode::Off, "[::1]:80"), "http://[::1]:80/healthz");
    assert!(verdict(&asked, &Answer::Health { ok: true }).is_ok());
    for (answer, said) in [
        (Answer::Health { ok: false }, "https://127.0.0.1:8443/healthz says it is not well"),
        (Answer::Nobody("refused".into()), "https://127.0.0.1:8443/healthz: refused"),
        (Answer::Status("503".into()), "https://127.0.0.1:8443/healthz answered 503"),
        (
            Answer::Other("EOF".into()),
            "https://127.0.0.1:8443/healthz answered something else: EOF",
        ),
    ] {
        assert_eq!(verdict(&asked, &answer).unwrap_err(), said);
    }
}

#[test]
fn before_its_first_start_a_server_has_no_key_to_prove() {
    assert!(expected_key(TlsMode::Auto, Ok(None))
        .unwrap_err()
        .contains("has not started"));
    assert_eq!(expected_key(TlsMode::Auto, Ok(Some(vec![1, 2]))), Ok(vec![1, 2]));
    assert_eq!(expected_key(TlsMode::Off, Ok(None)), Ok(vec![]));
    assert_eq!(
        expected_key(TlsMode::Auto, Err("gone".into())),
        Err("the certificate key: gone".to_string())
    );
}

// ── Errors ──────────────────────────────────────────────────────────────────

#[test]
fn nothing_internal_reaches_the_client() {
    let error = ApiError::Database("Query returned no rows".into());
    let (status, code) = error.code();
    assert_eq!(status, 500);
    assert_eq!(code, "internal");
    assert_eq!(error.message(), "something went wrong");
    assert_eq!(error.sentence(), "database error: Query returned no rows");
    assert_eq!(
        ApiError::Internal("a secret".into()).message(),
        "something went wrong"
    );
}

#[test]
fn a_wrong_credential_and_a_missing_account_look_the_same() {
    // Both paths end in `Unauthorized`; there is no variant that says
    // "this account exists, the secret was wrong".
    let (status, code) = ApiError::Unauthorized.code();
    assert_eq!(status, 401);
    assert_eq!(code, "unauthorized");
}

#[test]
fn every_error_has_its_status_its_name_and_its_sentence() {
    for (error, status, code, message) in [
        (ApiError::Invalid("so".into()), 400, "invalid", "so"),
        (ApiError::Unauthorized, 401, "unauthorized", "not allowed"),
        (
            ApiError::RegistrationClosed,
            403,
            "registration-closed",
            "registration is closed on this server",
        ),
        (
            ApiError::WrongPassword,
            403,
            "wrong-password",
            "that is not the master password",
        ),
        (
            ApiError::ServerFull,
            403,
            "server-full",
            "this server has as many accounts as it takes",
        ),
        (ApiError::NotFound, 404, "not-found", "no such thing"),
        (ApiError::TooLarge("x".into()), 413, "too-large", "too large: x"),
        (
            ApiError::RateLimited,
            429,
            "rate-limited",
            "too many requests, try again later",
        ),
        (
            ApiError::Schema { found: 2, known: 13 },
            400,
            "schema",
            "this server speaks schema 13, not 2",
        ),
    ] {
        assert_eq!(error.code(), (status, code));
        assert_eq!(error.message(), message);
    }
}

#[test]
fn a_shared_count_is_a_shared_network() {
    let one = counted(v6([0x2001, 0xdb8, 1, 0x12, 0, 0, 0, 1]));
    let other = counted(v6([0x2001, 0xdb8, 0x11, 2, 0, 0, 0, 1]));
    assert_eq!(one, "2001:db8:1:12::/64");
    assert_ne!(one, other);
    let mapped = counted(v6([0, 0, 0, 0, 0, 0xffff, 1, 2]));
    assert_ne!(mapped, counted(v6([0, 0, 0, 0, 0, 0, 1, 2])));
}
