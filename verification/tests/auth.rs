use ed25519_dalek::{Signer, SigningKey};
use uwusync_server::auth::{
    authenticate, still_in, verify_signature, Challenges, Sessions, CHALLENGES_PER_DEVICE,
    CHALLENGE_TTL_MS, TOKENS_PER_DEVICE,
};
use uwusync_server::db::accounts::VaultHeader;
use uwusync_server::db::{accounts, devices, Db};
use uwusync_server::error::ApiError;
use uwusync_server::ids::Uuid;
use uwusync_server::{b64, now_ms, random_bytes};

fn key() -> SigningKey {
    SigningKey::from_bytes(&[42u8; 32])
}

/// Bytes that are only the same for the same account, device and challenge.
fn session_material(account: Uuid, device: Uuid, challenge: &[u8]) -> Vec<u8> {
    let mut material = account.value.to_be_bytes().to_vec();
    material.extend_from_slice(&device.value.to_be_bytes());
    material.extend_from_slice(challenge);
    material
}

#[test]
fn a_signature_only_counts_for_its_own_account_device_and_challenge() {
    let signing = key();
    let public = signing.verifying_key().to_bytes();
    let account = Uuid::now_v7();
    let device = Uuid::now_v7();
    let challenge = random_bytes::<32>();

    let material = session_material(account, device, &challenge);
    let signature = signing.sign(&material).to_bytes();
    assert!(verify_signature(&public, &material, &signature));

    for other in [
        session_material(Uuid::now_v7(), device, &challenge),
        session_material(account, Uuid::now_v7(), &challenge),
        session_material(account, device, &random_bytes::<32>()),
    ] {
        assert!(
            !verify_signature(&public, &other, &signature),
            "a signature must not travel"
        );
    }
    assert!(!verify_signature(&[0u8; 32], &material, &signature));
    assert!(!verify_signature(&public, &material, &[0u8; 64]));
    assert!(!verify_signature(&public, &material, b"short"));
}

#[test]
fn a_challenge_is_answered_once() {
    let mut challenges = Challenges::default();
    let device = Uuid::now_v7();
    let challenge = challenges.issue(device);
    assert_eq!(challenges.outstanding(device), vec![challenge.clone()]);
    assert!(challenges.spend(device, &challenge));
    assert!(!challenges.spend(device, &challenge), "used up");
    assert!(challenges.outstanding(device).is_empty());
}

#[test]
fn asking_again_does_not_take_the_first_one_away() {
    let mut challenges = Challenges::default();
    let device = Uuid::now_v7();
    let first = challenges.issue(device);
    let second = challenges.issue(device);
    assert_ne!(first, second);
    assert_eq!(challenges.outstanding(device), vec![first.clone(), second]);
    assert!(challenges.spend(device, &first), "still good to answer");
}

#[test]
fn a_device_holds_only_a_few_challenges() {
    let mut challenges = Challenges::default();
    let device = Uuid::now_v7();
    let oldest = challenges.issue(device);
    for _ in 0..CHALLENGES_PER_DEVICE {
        challenges.issue(device);
    }
    let outstanding = challenges.outstanding(device);
    assert_eq!(outstanding.len(), CHALLENGES_PER_DEVICE);
    assert!(!outstanding.contains(&oldest));
}

#[test]
fn a_challenge_is_good_for_a_minute_and_for_its_own_device() {
    let mut challenges = Challenges::default();
    let (mine, other) = (Uuid::now_v7(), Uuid::now_v7());
    challenges.issue_at(mine, vec![1], 1_000);
    challenges.issue_at(other, vec![2], 1_000);
    assert_eq!(
        challenges.outstanding_at(mine, 1_000 + CHALLENGE_TTL_MS - 1),
        vec![vec![1]]
    );
    assert!(challenges
        .outstanding_at(mine, 1_000 + CHALLENGE_TTL_MS)
        .is_empty());
    assert!(!challenges.spend(mine, &[2]), "that is the other one's");
    assert!(challenges.spend(other, &[2]));
}

#[test]
fn a_token_lasts_until_it_does_not() {
    let mut sessions = Sessions::default();
    let account = Uuid::now_v7();
    let device = Uuid::now_v7();
    let (token, expires) = sessions.issue(account, device, 60_000);
    assert!(expires > now_ms());
    assert_eq!(sessions.get(&token).unwrap().device_id, device);
    assert!(sessions.get("something else").is_none());

    let (expired, _) = sessions.issue(account, device, 0);
    assert!(sessions.get(&expired).is_none());
}

#[test]
fn revoking_a_device_takes_its_tokens_with_it() {
    let mut sessions = Sessions::default();
    let account = Uuid::now_v7();
    let device = Uuid::now_v7();
    let other = Uuid::now_v7();
    let (mine, _) = sessions.issue(account, device, 60_000);
    let (theirs, _) = sessions.issue(account, other, 60_000);

    sessions.drop_device(device);
    assert!(sessions.get(&mine).is_none());
    assert!(sessions.get(&theirs).is_some(), "only that device");
}

#[test]
fn a_device_holds_at_most_eight_tokens_and_the_oldest_goes() {
    let mut sessions = Sessions::default();
    let (account, device) = (Uuid::now_v7(), Uuid::now_v7());
    let (other, _) = sessions.issue(account, Uuid::now_v7(), 60_000);
    let tokens: Vec<String> = (0..TOKENS_PER_DEVICE + 1)
        .map(|_| sessions.issue(account, device, 60_000).0)
        .collect();
    assert!(sessions.get(&tokens[0]).is_none());
    for token in &tokens[1..] {
        assert!(sessions.get(token).is_some());
    }
    assert!(sessions.get(&other).is_some(), "another device's stays");
    assert_eq!(sessions.len(), 9);
}

#[test]
fn tokens_that_ran_out_are_swept() {
    let mut sessions = Sessions::default();
    let account = Uuid::now_v7();
    sessions.issue_at("a".into(), account, Uuid::now_v7(), 10, 100);
    sessions.issue_at("b".into(), account, Uuid::now_v7(), 20, 100);
    sessions.sweep_at(110);
    assert_eq!(sessions.len(), 1);
    assert!(sessions.get_at("b", 119).is_some());
    assert!(sessions.get_at("b", 120).is_none());
    sessions.sweep();
    assert!(sessions.is_empty());
}

fn signed_in() -> (Db, Sessions, Uuid, Uuid, String) {
    let mut db = Db::open_in_memory();
    let header = VaultHeader {
        vault_id: Uuid::now_v7(),
        kdf_memory_kib: 65536,
        kdf_time_cost: 3,
        kdf_parallelism: 4,
        salt: "c2FsdHktc2FsdA".into(),
        wrapped_nonce: "bm9uY2U".into(),
        wrapped_blob: "d3JhcHBlZA".into(),
        needs_account_key: false,
    };
    let account = accounts::create(&mut db, &header, b"key").unwrap();
    let device = devices::add(&mut db, account.id, "laptop", &[1; 32]).unwrap();
    let mut sessions = Sessions::default();
    let (token, _) = sessions.issue(account.id, device.id, 3_600_000);
    (db, sessions, account.id, device.id, token)
}

#[test]
fn the_bearer_of_a_good_token_is_the_device_it_was_given_to() {
    let (db, mut sessions, account, device, token) = signed_in();
    let header = format!("Bearer {token} ");
    let auth = authenticate(&mut sessions, &db, Some(&header)).unwrap();
    assert_eq!(auth.account.id, account);
    assert_eq!(auth.device.id, device);
    assert_eq!(auth.token, token);
    for wrong in [None, Some(""), Some("Bearer "), Some(token.as_str()), Some("bearer x")] {
        assert!(matches!(
            authenticate(&mut sessions, &db, wrong),
            Err(ApiError::Unauthorized)
        ));
    }
}

#[test]
fn a_token_does_not_outlive_its_device() {
    let (mut db, mut sessions, account, device, token) = signed_in();
    assert!(still_in(&sessions, &db, &token, device));
    devices::revoke(&mut db, account, device);
    assert!(!still_in(&sessions, &db, &token, device));
    let header = format!("Bearer {token}");
    assert!(matches!(
        authenticate(&mut sessions, &db, Some(&header)),
        Err(ApiError::Unauthorized)
    ));
    assert!(sessions.is_empty(), "and is gone with the first request");
}

#[test]
fn base64_comes_back_as_it_went() {
    assert_eq!(b64::encode(b""), "");
    assert_eq!(b64::encode(&[0xfb, 0xff, 0xfe]), "-__-");
    assert_eq!(b64::encode(b"spake"), "c3Bha2U");
    assert_eq!(b64::decode(" c3Bha2U\n").unwrap(), b"spake".to_vec());
    assert!(b64::decode("c3Bha2U=").is_none(), "no padding");
    assert!(b64::decode("not base64 at all !!").is_none());
    let bytes = random_bytes::<32>();
    assert_eq!(b64::decode(&b64::encode(&bytes)).unwrap(), bytes.to_vec());
    assert_eq!(b64::encode(&bytes).len(), 43);
}

#[test]
fn ids_are_written_the_usual_way() {
    let id = Uuid {
        value: 0x0191_2345_6789_7abc_8def_0123_4567_89ab,
    };
    assert_eq!(id.hyphenated(), "01912345-6789-7abc-8def-0123456789ab");
    let fresh = Uuid::now_v7();
    assert_eq!(
        fresh.hyphenated(),
        uuid::Uuid::from_u128(fresh.value).to_string()
    );
    assert_eq!(uuid::Uuid::from_u128(fresh.value).get_version_num(), 7);
    assert_ne!(fresh, Uuid::now_v7());
    assert_ne!(random_bytes::<16>(), random_bytes::<16>());
}

#[test]
fn only_the_oldest_challenge_goes() {
    let mut challenges = Challenges::default();
    let (device, other) = (Uuid::now_v7(), Uuid::now_v7());
    challenges.issue_at(other, vec![99], 1);
    for n in 0..CHALLENGES_PER_DEVICE as u8 {
        challenges.issue_at(device, vec![n], 2);
    }
    challenges.issue_at(device, vec![50], 3);
    assert_eq!(
        challenges.outstanding_at(device, 3),
        vec![vec![1], vec![2], vec![3], vec![50]]
    );
    assert_eq!(challenges.outstanding_at(other, 3), vec![vec![99]]);
    assert!(challenges.spend(device, &[50]));
    assert!(!challenges.spend(device, &[50]));
}
