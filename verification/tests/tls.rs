use uwusync_server::tls::{
    certify, certify_at, fingerprint, fingerprint_of, identity_in, identity_of, key_found,
    key_path, load, make_key, names_for, public_key_of, validity, Identity, Key, KeyFile, KeyStep,
    CLOCK_HINT, VALID_DAYS,
};

const PATH: &str = "data/tls/key.pem";

/// What is found of a key that is kept, or is not.
fn found(kept: &Option<String>) -> KeyFile {
    match kept {
        Some(pem) => KeyFile::Read(pem.clone()),
        None => KeyFile::Missing,
    }
}

/// One start of a server that keeps its key here.
fn start(kept: &mut Option<String>, names: &[&str], may_create: bool) -> Result<Identity, String> {
    let names: Vec<String> = names.iter().map(|name| name.to_string()).collect();
    match load(PATH, found(kept), may_create) {
        KeyStep::Use(pem) => identity_in(PATH, &pem, &names),
        KeyStep::Make => {
            let key = make_key()?;
            *kept = Some(key.pem.clone());
            certify(key, &names)
        }
        KeyStep::Refuse(what) => Err(what),
    }
}

#[test]
fn the_fingerprint_survives_a_new_certificate() {
    let mut kept = None;
    let first = start(&mut kept, &["localhost"], true).unwrap();
    // A restart, with another name and therefore another certificate.
    let second = start(&mut kept, &["localhost", "nas.lan"], true).unwrap();

    assert_ne!(
        first.cert_pem, second.cert_pem,
        "the certificate itself is made fresh"
    );
    assert_eq!(
        first.fingerprint, second.fingerprint,
        "but what a device pinned still holds"
    );
    assert!(first.fingerprint.starts_with("SHA256:"));
    assert_eq!(first.fingerprint.len(), "SHA256:".len() + 43);
    assert!(first.cert_pem.starts_with("-----BEGIN CERTIFICATE-----"));
    assert!(first.key_pem.contains("PRIVATE KEY"));
    assert_eq!(first.key_pem, second.key_pem);
    assert_eq!(fingerprint_of(PATH, &first.key_pem), Ok(first.fingerprint));
}

#[test]
fn reading_the_key_never_makes_one() {
    let mut kept = None;
    assert!(public_key_of(PATH, found(&kept)).unwrap().is_none());
    assert!(kept.is_none());
    let identity = start(&mut kept, &["localhost"], true).unwrap();
    let key = public_key_of(PATH, found(&kept)).unwrap().unwrap();
    assert_eq!(fingerprint(&key), identity.fingerprint);
}

#[test]
fn a_lost_key_is_only_replaced_when_that_is_allowed() {
    let mut kept = None;
    let error = start(&mut kept, &["localhost"], false)
        .err()
        .expect("no key, and none may be made");
    assert!(error.contains("new-key"), "{error}");
    assert!(public_key_of(PATH, found(&kept)).unwrap().is_none());
    assert!(start(&mut kept, &["localhost"], true).is_ok());
    assert_eq!(key_path("data"), PATH);
    assert!(error.contains(PATH), "{error}");
}

#[test]
fn two_servers_do_not_share_a_fingerprint() {
    let a = start(&mut None, &["localhost"], true).unwrap();
    let b = start(&mut None, &["localhost"], true).unwrap();
    assert_ne!(a.fingerprint, b.fingerprint);
}

#[test]
fn a_key_that_cannot_be_read_is_an_error_rather_than_a_new_one() {
    let mut kept = None;
    start(&mut kept, &["localhost"], true).unwrap();
    kept = Some("this is not a key".into());
    let error = start(&mut kept, &["localhost"], true).unwrap_err();
    assert!(error.starts_with("the key in data/tls/key.pem: "), "{error}");
    assert_eq!(kept.as_deref(), Some("this is not a key"));
    assert!(public_key_of(PATH, found(&kept)).is_err());
    assert_eq!(
        public_key_of(PATH, KeyFile::Failed("denied".into())),
        Err("denied".to_string())
    );
}

#[test]
fn an_address_with_a_name_makes_a_certificate_that_says_so() {
    let names = names_for(Some("nas.lan:8443"));
    let names: Vec<&str> = names.iter().map(String::as_str).collect();
    let identity = start(&mut None, &names, true).unwrap();
    assert!(!identity.cert_pem.is_empty());
}

#[test]
fn a_certificate_begins_a_day_ago_and_lasts_a_year_and_a_month() {
    let now = 1_700_000_000_000;
    assert_eq!(
        validity(now),
        Some((1_700_000_000 - 86_400, 1_700_000_000 + VALID_DAYS * 86_400))
    );
    let last = (253_402_300_799 - 397 * 86_400) * 1000;
    assert_eq!(validity(last).map(|(_, until)| until), Some(253_402_300_799));
    assert_eq!(validity(last + 1000), None);
    assert_eq!(validity(u64::MAX), None);
}

#[test]
fn a_name_no_certificate_can_hold_is_an_error() {
    assert!(start(&mut None, &["nas.lan", "b\u{fc}ro"], true).is_err());
    let key = || Key {
        pem: "pem".into(),
        public_key: b"abc".to_vec(),
    };
    assert_eq!(
        identity_of(key(), Err("no".into())).unwrap_err(),
        "no"
    );
    let identity = identity_of(key(), Ok("cert".into())).unwrap();
    assert_eq!(identity.cert_pem, "cert");
    assert_eq!(identity.key_pem, "pem");
    assert_eq!(
        identity.fingerprint,
        "SHA256:ungWv48Bz+pBQUDeXa4iI7ADYaOWF3qctBD/YfIAFa0"
    );
    assert_eq!(
        key_found("k", Err("bad".into())).unwrap_err(),
        "the key in k: bad"
    );
    assert_eq!(key_found("k", Ok(key())).unwrap().pem, "pem");
}

#[test]
fn no_certificate_is_made_past_what_one_can_say() {
    let names = vec!["localhost".to_string()];
    let key = make_key().unwrap();
    let public = fingerprint(&key.public_key);
    let made = certify_at(key, &names, 1_700_000_000_000).unwrap();
    assert_eq!(made.fingerprint, public);
    assert!(made.cert_pem.contains("BEGIN CERTIFICATE"));
    let late = certify_at(make_key().unwrap(), &names, u64::MAX).unwrap_err();
    assert_eq!(late, CLOCK_HINT);
}

#[test]
fn a_scheme_a_port_and_a_path_change_nothing() {
    for written in [
        "nas.lan",
        "nas.lan:8443",
        "nas.lan/x",
        "nas.lan:8443/x",
        "https://nas.lan",
        "https://nas.lan:8443/x/y",
    ] {
        assert_eq!(names_for(Some(written)), vec!["localhost", "nas.lan"], "{written}");
    }
}
