//! The endpoints, driven the way a device drives them: create an account, sign
//! a challenge, push, pull, join a second device, revoke one.

use ed25519_dalek::{Signer, SigningKey};
use uwusync_server::api::pairing::{ReadQuery, Speaker};
use uwusync_server::api::records::{PullQuery, StreamEvent, StreamStep};
use uwusync_server::api::session::Offered;
use uwusync_server::api::{self, SMALL_BODY_BYTES};
use uwusync_server::auth::{authenticate, still_in, Authenticated};
use uwusync_server::config::{Config, Registration};
use uwusync_server::db::accounts::VaultHeader;
use uwusync_server::db::records::Quota;
use uwusync_server::db::{accounts, devices, invites, Db};
use uwusync_server::error::ApiError;
use uwusync_server::ids::Uuid;
use uwusync_server::proto::{
    Admitted, ChangePassword, CreateAccount, EnrolDevice, EntityKind, Envelope, Hlc, LoginRequest,
    LoginResponse, NewDevice, PairMessage, PairMessages, PullResponse, PushResponse, RevokeDevice,
    MAX_BLOB_BYTES,
};
use uwusync_server::state::AppState;
use uwusync_server::{b64, limits};

/// The schema these devices speak.
const SCHEMA: u32 = 1;

/// Where everybody asks from, unless a test says otherwise.
const HOME: &str = "203.0.113.7";

struct Server {
    state: AppState,
}

fn start(registration: Registration) -> Server {
    start_with(Config {
        registration,
        ..Config::default()
    })
}

fn start_with(config: Config) -> Server {
    Server {
        state: AppState::new(Db::open_in_memory(), config),
    }
}

/// The status an outcome is answered with.
fn status<T>(outcome: Result<T, ApiError>) -> u16 {
    match outcome {
        Ok(_) => 200,
        Err(error) => error.code().0,
    }
}

/// The vault header a device uploads. Its contents are opaque to the server.
fn vault(vault_id: Uuid) -> VaultHeader {
    VaultHeader {
        vault_id,
        kdf_memory_kib: 65536,
        kdf_time_cost: 3,
        kdf_parallelism: 4,
        salt: "c2FsdHktc2FsdHktc2FsdA".into(),
        wrapped_nonce: "bm9uY2Utbm9uY2Utbm9uY2U".into(),
        wrapped_blob: "d3JhcHBlZC12YXVsdC1rZXk".into(),
        needs_account_key: false,
    }
}

/// The login key a device derives from the master password: here it is just
/// the password's stand-in.
fn login_key(password: &str) -> String {
    let mut key = [0u8; 32];
    for (slot, byte) in key.iter_mut().zip(password.bytes().cycle()) {
        *slot = byte;
    }
    b64::encode(&key)
}

/// What a device signs: the same bytes only for the same account, device and
/// challenge.
fn material(account: Uuid, device: Uuid, challenge: &[u8]) -> Vec<u8> {
    let mut bytes = b"test session".to_vec();
    bytes.extend_from_slice(&account.value.to_be_bytes());
    bytes.extend_from_slice(&device.value.to_be_bytes());
    bytes.extend_from_slice(challenge);
    bytes
}

fn new_key(seed: u8) -> SigningKey {
    SigningKey::from_bytes(&[seed; 32])
}

fn public(key: &SigningKey) -> String {
    b64::encode(&key.verifying_key().to_bytes())
}

fn request(invite: &str, vault: VaultHeader, password: &str, public_key: String) -> CreateAccount {
    CreateAccount {
        invite: invite.into(),
        vault,
        auth_key: login_key(password),
        device: NewDevice {
            name: "LVDesk1".into(),
            public_key,
        },
    }
}

impl Server {
    fn invite(&mut self) -> String {
        invites::create_invite(&mut self.state.db, 60_000).unwrap()
    }

    fn create(&mut self, request: &CreateAccount) -> Result<Admitted, ApiError> {
        api::accounts::admit_create(&mut self.state, HOME)?;
        api::accounts::create(&mut self.state, request)
    }

    fn auth(&mut self, token: &str) -> Result<Authenticated, ApiError> {
        let header = format!("Bearer {token}");
        authenticate(&mut self.state.sessions, &self.state.db, Some(&header))
    }

    fn enrol(&mut self, request: &EnrolDevice) -> Result<Admitted, ApiError> {
        api::accounts::admit_join(&mut self.state, HOME)?;
        api::devices::enrol(&mut self.state, HOME, request)
    }

    fn sign_in(
        &mut self,
        who: &str,
        device: Uuid,
        signature: String,
    ) -> Result<LoginResponse, ApiError> {
        let mut offered = Vec::new();
        if let Some(found) = devices::get(&self.state.db, device) {
            for challenge in self.state.challenges.outstanding(device) {
                offered.push(Offered {
                    material: material(found.account_id, device, &challenge),
                    challenge,
                });
            }
        }
        let request = LoginRequest {
            device_id: device,
            signature,
        };
        api::session::login(&mut self.state, who, &request, &offered)
    }
}

/// A device: its key, its ids, and its token.
struct Device {
    signing: SigningKey,
    account: Uuid,
    id: Uuid,
    token: String,
    vault_id: Uuid,
}

impl Device {
    fn create_account(server: &mut Server, invite: &str, password: &str, seed: u8) -> Device {
        let signing = new_key(seed);
        let vault_id = Uuid::now_v7();
        let admitted = server
            .create(&request(invite, vault(vault_id), password, public(&signing)))
            .unwrap();
        Device {
            signing,
            account: admitted.account_id,
            id: admitted.device_id,
            token: admitted.token,
            vault_id,
        }
    }

    /// Sign in again with the device key: challenge, signature, token.
    fn login(&mut self, server: &mut Server) -> u16 {
        let challenge = match api::session::challenge(&mut server.state, HOME, self.id) {
            Ok(challenge) => b64::decode(&challenge).unwrap(),
            Err(error) => return error.code().0,
        };
        let signature = self
            .signing
            .sign(&material(self.account, self.id, &challenge))
            .to_bytes();
        match server.sign_in(HOME, self.id, b64::encode(&signature)) {
            Ok(response) => {
                assert_eq!(response.account_id, self.account);
                self.token = response.token;
                200
            }
            Err(error) => error.code().0,
        }
    }

    fn envelope(&self, id: Uuid, base_seq: u64, blob: &[u8]) -> Envelope {
        Envelope {
            id,
            vault_id: self.vault_id,
            kind: EntityKind::Host,
            updated_at: Hlc::new(1_700_000_000_000, 0, 1),
            base_seq,
            deleted: false,
            nonce: vec![7; 24],
            blob: blob.to_vec(),
            seq: None,
        }
    }

    fn try_push(
        &self,
        server: &mut Server,
        schema: u32,
        envelopes: &[Envelope],
    ) -> Result<PushResponse, ApiError> {
        let auth = server.auth(&self.token)?;
        let going = api::records::admit_push(&mut server.state, &auth)?;
        let pushed = api::records::push(&mut server.state, &auth, schema, SCHEMA, envelopes);
        server.state.limits.finish(going);
        pushed
    }

    fn push(&self, server: &mut Server, envelopes: &[Envelope]) -> PushResponse {
        self.try_push(server, SCHEMA, envelopes).unwrap()
    }

    fn try_pull(&self, server: &mut Server, since: u64) -> Result<PullResponse, ApiError> {
        let auth = server.auth(&self.token)?;
        let query = PullQuery {
            since,
            limit: None,
            manifests: 0,
        };
        let (page, going) = api::records::pull(&mut server.state, &auth, &query)?;
        server.state.limits.finish(going);
        Ok(page)
    }

    fn pull(&self, server: &mut Server, since: u64) -> PullResponse {
        self.try_pull(server, since).unwrap()
    }
}

/// Revoke `target`, signed in as `by`, with the master password or without.
fn revoke(server: &mut Server, by: &Device, target: Uuid, password: Option<&str>) -> u16 {
    let request = RevokeDevice {
        current_auth_key: password.map(login_key),
    };
    let auth = match server.auth(&by.token) {
        Ok(auth) => auth,
        Err(error) => return error.code().0,
    };
    match api::devices::revoke(&mut server.state, &auth, target, &request) {
        Ok(()) => 204,
        Err(error) => error.code().0,
    }
}

/// An enrolment token made by `by`.
fn enrolment_token(server: &mut Server, by: &Device) -> String {
    let auth = server.auth(&by.token).unwrap();
    api::devices::invite(&mut server.state, &auth).unwrap().token
}

/// Join the account of a token as a device with key `seed`.
fn join(
    server: &mut Server,
    token: &str,
    password: &str,
    seed: u8,
) -> Result<Admitted, ApiError> {
    server.enrol(&EnrolDevice {
        enrolment: token.into(),
        auth_key: login_key(password),
        device: NewDevice {
            name: format!("device {seed}"),
            public_key: public(&new_key(seed)),
        },
    })
}

fn second_device(server: &mut Server, first: &Device, seed: u8) -> Device {
    let token = enrolment_token(server, first);
    let admitted = join(server, &token, "master", seed).unwrap();
    Device {
        signing: new_key(seed),
        account: admitted.account_id,
        id: admitted.device_id,
        token: admitted.token,
        vault_id: first.vault_id,
    }
}

#[test]
fn a_device_creates_an_account_and_gets_its_records_across() {
    let mut server = start(Registration::Invite);
    let invite = server.invite();
    let mut device = Device::create_account(&mut server, &invite, "master", 1);

    let id = Uuid::now_v7();
    let pushed = device.push(&mut server, &[device.envelope(id, 0, b"sealed host")]);
    assert_eq!(pushed.accepted.len(), 1);
    assert_eq!(pushed.accepted[0].seq, 1);

    let page = device.pull(&mut server, 0);
    assert_eq!(page.envelopes.len(), 1);
    assert_eq!(page.envelopes[0].id, id);
    assert_eq!(page.envelopes[0].blob, b"sealed host".to_vec());
    assert!(!page.has_more);

    // And the device can sign in again tomorrow with the key it enrolled.
    assert_eq!(device.login(&mut server), 200);
    assert_eq!(device.pull(&mut server, 0).envelopes.len(), 1);
}

#[test]
fn a_second_device_joins_with_a_token_and_the_master_password() {
    let mut server = start(Registration::Invite);
    let invite = server.invite();
    let first = Device::create_account(&mut server, &invite, "master", 1);
    let id = Uuid::now_v7();
    first.push(&mut server, &[first.envelope(id, 0, b"from the first")]);

    let token = enrolment_token(&mut server, &first);

    // Before it can prove anything, the joining device needs the salt and the
    // costs.
    let params = api::accounts::vault_params(&server.state, &token).unwrap();
    assert_eq!(params.salt, "c2FsdHktc2FsdHktc2FsdA");

    // The wrong master password gets nowhere — and does not burn the token.
    assert_eq!(status(join(&mut server, &token, "wrong", 2)), 401);

    let admitted = join(&mut server, &token, "master", 2).unwrap();
    let second = Device {
        signing: new_key(2),
        account: admitted.account_id,
        id: admitted.device_id,
        token: admitted.token,
        vault_id: first.vault_id,
    };
    assert_eq!(second.account, first.account);

    // Now it may have the wrapped key, and everything the first device wrote.
    let auth = server.auth(&second.token).unwrap();
    let header = api::accounts::vault(&server.state, &auth).unwrap();
    assert_eq!(header.wrapped_blob, "d3JhcHBlZC12YXVsdC1rZXk");

    let page = second.pull(&mut server, 0);
    assert_eq!(page.envelopes.len(), 1);
    assert_eq!(page.envelopes[0].blob, b"from the first".to_vec());

    // The token was spent: nobody joins twice with it.
    assert_eq!(status(join(&mut server, &token, "master", 2)), 401);
    assert_eq!(status(api::accounts::vault_params(&server.state, &token)), 401);

    // And both devices show up in the list.
    let auth = server.auth(&first.token).unwrap();
    assert_eq!(api::devices::list(&server.state, &auth).len(), 2);
}

#[test]
fn two_devices_editing_one_record_meet_the_version_check() {
    let mut server = start(Registration::Invite);
    let invite = server.invite();
    let first = Device::create_account(&mut server, &invite, "master", 1);

    let id = Uuid::now_v7();
    first.push(&mut server, &[first.envelope(id, 0, b"one")]);
    first.push(&mut server, &[first.envelope(id, 1, b"two")]);

    // A device still believing version 1 is current is refused, and told what
    // the server holds instead.
    let response = first.push(&mut server, &[first.envelope(id, 1, b"three")]);
    assert!(response.accepted.is_empty());
    assert_eq!(response.conflicts.len(), 1);
    assert_eq!(response.conflicts[0].blob, b"two".to_vec());
    assert_eq!(response.conflicts[0].seq, Some(2));

    // Based on that, it goes through.
    let response = first.push(&mut server, &[first.envelope(id, 2, b"three")]);
    assert_eq!(response.accepted.len(), 1);
}

#[test]
fn nothing_reaches_anyone_who_did_not_sign() {
    let mut server = start(Registration::Invite);
    let invite = server.invite();
    let device = Device::create_account(&mut server, &invite, "master", 1);

    for token in ["", "not-a-token", &format!("{}x", device.token)] {
        assert_eq!(status(server.auth(token)), 401, "with token {token:?}");
    }
    let nothing = authenticate(&mut server.state.sessions, &server.state.db, None);
    assert_eq!(status(nothing), 401, "and with no token at all");

    // A signature by the wrong key is no signature.
    let mut impostor = Device {
        signing: new_key(9),
        account: device.account,
        id: device.id,
        token: String::new(),
        vault_id: device.vault_id,
    };
    assert_eq!(impostor.login(&mut server), 401);

    // Nor is one for a challenge that was already answered.
    let challenge = api::session::challenge(&mut server.state, HOME, device.id).unwrap();
    let raw = b64::decode(&challenge).unwrap();
    let signed = device.signing.sign(&material(device.account, device.id, &raw));
    let signature = b64::encode(&signed.to_bytes());

    let first = server.sign_in(HOME, device.id, signature.clone());
    assert_eq!(status(first), 200);
    let again = server.sign_in(HOME, device.id, signature);
    assert_eq!(status(again), 401, "a challenge is answered once");
}

#[test]
fn a_revoked_device_is_out_at_once() {
    let mut server = start(Registration::Invite);
    let invite = server.invite();
    let first = Device::create_account(&mut server, &invite, "master", 1);
    let mut second = second_device(&mut server, &first, 2);
    assert_eq!(second.pull(&mut server, 0).envelopes.len(), 0);

    assert_eq!(revoke(&mut server, &first, second.id, Some("master")), 204);

    // The token it was holding is worthless from this moment.
    assert_eq!(status(second.try_pull(&mut server, 0)), 401);
    // And it cannot sign in again either.
    assert_eq!(second.login(&mut server), 401);

    // The last device standing cannot shut itself out: nobody would be left.
    assert_eq!(revoke(&mut server, &first, first.id, None), 400);
    second_device(&mut server, &first, 3);
    assert_eq!(revoke(&mut server, &first, Uuid::now_v7(), Some("master")), 404);
    assert_eq!(revoke(&mut server, &first, second.id, Some("master")), 404);
}

#[test]
fn shutting_another_device_out_takes_the_master_password() {
    let mut server = start(Registration::Open);
    let first = Device::create_account(&mut server, "", "master", 1);
    let second = second_device(&mut server, &first, 2);
    let third = second_device(&mut server, &first, 3);

    // A stolen laptop has its token, and that is all it has.
    assert_eq!(revoke(&mut server, &second, first.id, None), 403);
    assert_eq!(revoke(&mut server, &second, first.id, Some("a guess")), 403);
    assert_eq!(
        first.pull(&mut server, 0).envelopes.len(),
        0,
        "and the owner's device is still in"
    );
    // Guessing on is slowed down for that laptop alone: it cannot use up the
    // tries of the owner's devices, and so cannot keep itself from being
    // revoked.
    let slowed =
        (0..12).any(|_| revoke(&mut server, &second, first.id, Some("another guess")) == 429);
    assert!(slowed, "ten wrong proofs an hour from one device");

    // The owner, with the password, can shut the laptop out.
    assert_eq!(revoke(&mut server, &first, second.id, Some("master")), 204);
    // And a device may always take itself out.
    assert_eq!(revoke(&mut server, &third, third.id, None), 204);
}

#[test]
fn a_revoked_device_takes_its_tokens_and_pairings_along() {
    let mut server = start(Registration::Open);
    let first = Device::create_account(&mut server, "", "master", 1);
    let second = second_device(&mut server, &first, 2);

    // Before it is shut out, it makes a token and opens a pairing.
    let token = enrolment_token(&mut server, &second);
    let auth = server.auth(&second.token).unwrap();
    let pairing = api::pairing::open(&mut server.state, &auth).unwrap().id;

    assert_eq!(revoke(&mut server, &first, second.id, Some("master")), 204);

    assert_eq!(
        status(join(&mut server, &token, "master", 9)),
        401,
        "its token died with it"
    );
    assert_eq!(
        status(hear(&mut server, &pairing, "b", 0, &claim("somebody"))),
        404,
        "and so did its pairing"
    );
}

#[test]
fn an_enrolment_token_is_no_licence_to_guess_the_password() {
    let mut server = start(Registration::Open);
    let first = Device::create_account(&mut server, "", "master", 1);
    let token = enrolment_token(&mut server, &first);
    // A typo or two is fine...
    assert_eq!(status(join(&mut server, &token, "mastr", 2)), 401);
    // ...but five wrong passwords use the token up, the right one included.
    for _ in 0..4 {
        assert_eq!(status(join(&mut server, &token, "guess", 2)), 401);
    }
    assert_eq!(status(join(&mut server, &token, "master", 2)), 401);
}

#[test]
fn open_registration_counts_every_account_it_makes() {
    let mut server = start(Registration::Open);
    for seed in 0..5 {
        Device::create_account(&mut server, "", "master", seed);
    }
    let one_more = request("", vault(Uuid::now_v7()), "master", b64::encode(&[7u8; 32]));
    assert_eq!(
        status(server.create(&one_more)),
        429,
        "five an hour from one address, not more"
    );
}

#[test]
fn a_full_server_takes_no_more_accounts_and_keeps_the_invite() {
    let mut server = start_with(Config {
        registration: Registration::Invite,
        max_accounts: 1,
        ..Config::default()
    });
    let first = server.invite();
    Device::create_account(&mut server, &first, "master", 1);

    let second = server.invite();
    let refused = server
        .create(&request(&second, vault(Uuid::now_v7()), "master", b64::encode(&[8u8; 32])))
        .unwrap_err();
    assert_eq!(refused.code(), (403, "server-full"));
    assert_eq!(
        invites::count_open_invites(&server.state.db),
        1,
        "the invite was not spent on a refusal"
    );
}

#[test]
fn a_push_of_several_mebibytes_gets_through() {
    let mut server = start(Registration::Open);
    let device = Device::create_account(&mut server, "", "master", 1);
    let big = vec![3u8; MAX_BLOB_BYTES];
    let batch: Vec<Envelope> = (0..12)
        .map(|_| device.envelope(Uuid::now_v7(), 0, &big))
        .collect();
    let pushed = device.push(&mut server, &batch);
    assert_eq!(pushed.accepted.len(), 12);

    // Everything else stays small.
    assert!(100 * 1024 > SMALL_BODY_BYTES);
}

#[test]
fn a_request_over_its_limit_is_turned_away_before_its_body_is_read() {
    let mut server = start(Registration::Open);
    let device = Device::create_account(&mut server, "", "master", 1);
    for seed in 2..=5 {
        Device::create_account(&mut server, "", "master", seed);
    }
    // Five accounts this hour from this address. The sixth request is refused
    // for that, not for what its body says: the body is never read.
    assert_eq!(status(api::accounts::admit_create(&mut server.state, HOME)), 429);

    // The same for pushes, whose bodies may be 16 MiB: a push that is one
    // too many is counted before it is read, whatever it holds.
    let auth = server.auth(&device.token).unwrap();
    let mut statuses = Vec::new();
    for _ in 0..=limits::push().max {
        match api::records::admit_push(&mut server.state, &auth) {
            Ok(going) => {
                server.state.limits.finish(going);
                statuses.push(200);
            }
            Err(error) => statuses.push(error.code().0),
        }
    }
    assert_eq!(statuses[0], 200, "this one would be read");
    assert_eq!(statuses.last().copied().unwrap(), 429);
}

#[test]
fn an_account_holds_what_the_server_allows_and_no_more() {
    let mut server = start_with(Config {
        registration: Registration::Open,
        quota: Quota {
            records: 3,
            bytes: 1024 * 1024,
            ..Quota::default()
        },
        ..Config::default()
    });
    let device = Device::create_account(&mut server, "", "master", 1);
    let three: Vec<Envelope> = (0..3)
        .map(|_| device.envelope(Uuid::now_v7(), 0, b"a host"))
        .collect();
    device.push(&mut server, &three);

    let one_more = [device.envelope(Uuid::now_v7(), 0, b"one more")];
    assert_eq!(status(device.try_push(&mut server, SCHEMA, &one_more)), 413);
    assert_eq!(device.pull(&mut server, 0).envelopes.len(), 3);
}

#[test]
fn records_of_one_account_never_reach_another() {
    let mut server = start(Registration::Open);
    let mine = Device::create_account(&mut server, "", "master", 1);
    let theirs = Device::create_account(&mut server, "", "other", 2);
    theirs.push(&mut server, &[theirs.envelope(Uuid::now_v7(), 0, b"theirs")]);

    assert!(mine.pull(&mut server, 0).envelopes.is_empty());

    // Nor can one account's device push into the other's vault.
    let mut stranger = mine.envelope(Uuid::now_v7(), 0, b"mine");
    stranger.vault_id = theirs.vault_id;
    assert_eq!(status(mine.try_push(&mut server, SCHEMA, &[stranger])), 400);

    // And the device list is the account's own.
    let auth = server.auth(&mine.token).unwrap();
    assert_eq!(api::devices::list(&server.state, &auth).len(), 1);
}

#[test]
fn an_invite_lets_exactly_one_account_in() {
    let mut server = start(Registration::Invite);
    let invite = server.invite();
    Device::create_account(&mut server, &invite, "master", 1);

    for code in [invite.as_str(), "MADE-UPCO-DEXX", ""] {
        let another = request(code, vault(Uuid::now_v7()), "master", b64::encode(&[3u8; 32]));
        assert_eq!(status(server.create(&another)), 401, "with {code:?}");
    }
}

#[test]
fn a_closed_server_takes_no_new_accounts() {
    let mut server = start(Registration::Closed);
    // The same answer every time, and none of them counted: a closed server
    // has nothing to slow down, and nothing to fill its limiter with.
    for _ in 0..=limits::accounts().max {
        let one = request("", vault(Uuid::now_v7()), "master", b64::encode(&[4u8; 32]));
        assert_eq!(status(server.create(&one)), 403);
    }
    assert!(server.state.limits.idle());
}

#[test]
fn a_client_from_another_schema_is_turned_away_before_anything_is_stored() {
    let mut server = start(Registration::Open);
    let device = Device::create_account(&mut server, "", "master", 1);

    let future = [device.envelope(Uuid::now_v7(), 0, b"from the future")];
    let refused = device
        .try_push(&mut server, SCHEMA + 1, &future)
        .unwrap_err();
    assert_eq!(refused.code(), (400, "schema"));
    assert!(device.pull(&mut server, 0).envelopes.is_empty());
}

#[test]
fn changing_the_master_password_takes_the_old_one() {
    let mut server = start(Registration::Open);
    let device = Device::create_account(&mut server, "", "master", 1);
    let auth = server.auth(&device.token).unwrap();

    let change = |server: &mut Server, current: &str, next: &str, vault_id: Uuid| {
        let request = ChangePassword {
            current_auth_key: login_key(current),
            vault: vault(vault_id),
            auth_key: login_key(next),
        };
        status(api::accounts::change_password(&mut server.state, &auth, &request))
    };

    assert_eq!(change(&mut server, "not the password", "new", device.vault_id), 403);
    assert_eq!(
        change(&mut server, "master", "new", Uuid::now_v7()),
        400,
        "and it stays the same vault"
    );
    assert_eq!(change(&mut server, "master", "new", device.vault_id), 200);

    // The new password is the one that counts now — which the next device to
    // join finds out.
    let token = enrolment_token(&mut server, &device);
    assert_eq!(status(join(&mut server, &token, "master", 5)), 401);
    assert_eq!(status(join(&mut server, &token, "new", 5)), 200);
}

#[test]
fn a_vault_too_cheap_to_guess_against_is_not_taken() {
    let mut server = start(Registration::Open);
    let mut cheap = vault(Uuid::now_v7());
    cheap.kdf_memory_kib = 1024;
    cheap.kdf_time_cost = 1;
    let refused = server
        .create(&request("", cheap, "master", b64::encode(&[6u8; 32])))
        .unwrap_err();
    assert_eq!(refused.code().0, 400);
    assert!(refused.message().contains("too cheap"), "and says why");
    assert_eq!(accounts::count(&server.state.db), 0);

    // Nor as a new password on an account that is fine.
    let device = Device::create_account(&mut server, "", "master", 1);
    let mut cheap = vault(device.vault_id);
    cheap.kdf_time_cost = 1;
    let auth = server.auth(&device.token).unwrap();
    let change = ChangePassword {
        current_auth_key: login_key("master"),
        vault: cheap,
        auth_key: login_key("new"),
    };
    let changed = api::accounts::change_password(&mut server.state, &auth, &change);
    assert_eq!(status(changed), 400);
}

#[test]
fn a_device_hears_that_there_is_something_new() {
    let mut server = start(Registration::Open);
    let listener = Device::create_account(&mut server, "", "master", 1);
    let auth = server.auth(&listener.token).unwrap();
    let stream = api::records::events(&mut server.state, &auth).unwrap();

    let pushed = listener.push(
        &mut server,
        &[listener.envelope(Uuid::now_v7(), 0, b"new host")],
    );
    let seq = api::records::news(&pushed).expect("something new");
    assert!(matches!(
        api::records::stream_step(StreamEvent::News(seq)),
        StreamStep::Send(data) if data == "1"
    ));
    server.state.events.close_stream(stream);

    let conflict = listener.push(
        &mut server,
        &[listener.envelope(Uuid::now_v7(), 7, b"not based on anything")],
    );
    assert_eq!(api::records::news(&conflict).is_some(), !conflict.accepted.is_empty());
    assert!(matches!(
        api::records::stream_step(StreamEvent::Lagged),
        StreamStep::Wait
    ));
    assert!(matches!(
        api::records::stream_step(StreamEvent::Closed),
        StreamStep::End
    ));
}

/// Whether a stream opened with this token ends at its next look.
fn ends(server: &Server, token: &str, device: Uuid) -> bool {
    let still = still_in(&server.state.sessions, &server.state.db, token, device);
    let looked = StreamEvent::Recheck {
        gone: false,
        still_in: still,
    };
    matches!(api::records::stream_step(looked), StreamStep::End)
}

#[test]
fn a_stream_ends_once_its_device_is_shut_out() {
    let mut server = start(Registration::Open);
    let device = Device::create_account(&mut server, "", "master", 1);
    let auth = server.auth(&device.token).unwrap();
    let stream = api::records::events(&mut server.state, &auth).unwrap();
    server.state.sessions.drop_device(device.id);
    assert!(
        ends(&server, &device.token, device.id),
        "the stream of a revoked device ends"
    );
    server.state.events.close_stream(stream);
    assert!(
        server.state.events.open_stream(device.id).is_some(),
        "and its place is free again"
    );
}

#[test]
fn a_stream_ends_when_its_device_is_revoked_from_elsewhere() {
    let mut server = start(Registration::Open);
    let device = Device::create_account(&mut server, "", "master", 1);
    // As `uwusync-server revoke` does it: the database, and no token.
    assert!(devices::revoke(&mut server.state.db, device.account, device.id));
    assert!(ends(&server, &device.token, device.id));
}

#[test]
fn a_stream_with_a_good_token_stays_open() {
    let mut server = start(Registration::Open);
    let device = Device::create_account(&mut server, "", "master", 1);
    for _ in 0..5 {
        assert!(
            !ends(&server, &device.token, device.id),
            "still open after several looks"
        );
    }
    let gone = StreamEvent::Recheck {
        gone: true,
        still_in: true,
    };
    assert!(matches!(api::records::stream_step(gone), StreamStep::End));
}

#[test]
fn only_so_many_streams_are_opened() {
    let mut server = start(Registration::Open);
    let device = Device::create_account(&mut server, "", "master", 1);
    let auth = server.auth(&device.token).unwrap();
    let mut open = Vec::new();
    while let Ok(stream) = api::records::events(&mut server.state, &auth) {
        open.push(stream);
    }
    assert_eq!(open.len(), uwusync_server::state::MAX_STREAMS_PER_DEVICE);
    assert_eq!(status(api::records::events(&mut server.state, &auth)), 429);
}

#[test]
fn a_page_counts_as_a_pull_until_it_has_been_read() {
    let mut server = start(Registration::Open);
    let device = Device::create_account(&mut server, "", "master", 1);
    let auth = server.auth(&device.token).unwrap();
    let query = PullQuery {
        since: 0,
        limit: None,
        manifests: 1,
    };

    // Answered, and never read: each one is still held.
    let mut unread = Vec::new();
    for _ in 0..limits::pulls().max {
        let (_, going) = api::records::pull(&mut server.state, &auth, &query).unwrap();
        unread.push(going);
    }
    assert_eq!(status(api::records::pull(&mut server.state, &auth, &query)), 429);

    // One read to its end makes room, and so does one given up on.
    server.state.limits.finish(unread.pop().unwrap());
    let (_, another) = api::records::pull(&mut server.state, &auth, &query).unwrap();
    assert_eq!(status(api::records::pull(&mut server.state, &auth, &query)), 429);
    server.state.limits.finish(another);
    assert_eq!(status(api::records::pull(&mut server.state, &auth, &query)), 200);
}

#[test]
fn a_pull_is_counted_before_anything_is_looked_up() {
    let mut server = start(Registration::Open);
    let device = Device::create_account(&mut server, "", "master", 1);
    device.push(&mut server, &[device.envelope(Uuid::now_v7(), 0, b"one")]);
    let auth = server.auth(&device.token).unwrap();
    let query = PullQuery {
        since: 0,
        limit: Some(1),
        manifests: 1,
    };
    let page = api::records::page(&mut server.state, &auth, &query).unwrap();
    assert_eq!(page.envelopes.len(), 1);
    assert_eq!(devices::get(&server.state.db, device.id).unwrap().cursor, 1);
    let mut asked = 0;
    while let Ok(going) = api::records::admit_pull(&mut server.state, &auth) {
        server.state.limits.finish(going);
        asked += 1;
    }
    assert_eq!(asked, limits::pull().max);
    assert_eq!(status(api::records::pull(&mut server.state, &auth, &query)), 429);
}

#[test]
fn the_health_check_says_nothing_about_the_accounts() {
    let mut server = start(Registration::Open);
    let before = api::health(SCHEMA);
    Device::create_account(&mut server, "", "master", 1);
    assert!(before.ok);
    assert_eq!(before.schema, SCHEMA);
    assert_eq!(api::health(SCHEMA), before);
}

#[test]
fn guessing_is_slowed_down() {
    let mut server = start(Registration::Open);
    let device = Device::create_account(&mut server, "", "master", 1);

    // The session bucket allows thirty tries a minute per address.
    let refused = (0..40).any(|_| {
        status(server.sign_in(HOME, device.id, b64::encode(&[0u8; 64]))) == 429
    });
    assert!(refused, "a guesser must run into a wall");
}

#[test]
fn asking_for_made_up_devices_does_not_lock_out_the_real_ones() {
    let mut server = start(Registration::Open);
    let mut device = Device::create_account(&mut server, "", "master", 1);
    // From the very address the device signs in from: more challenges than a
    // device may ask for in a minute, each for a device that is not there.
    for _ in 0..=limits::session().max {
        let asked = api::session::challenge(&mut server.state, HOME, Uuid::now_v7());
        assert_eq!(status(asked), 200);
    }
    assert_eq!(device.login(&mut server), 200);
}

#[test]
fn a_device_cannot_be_kept_from_signing_in_from_elsewhere() {
    let mut server = start_with(Config {
        registration: Registration::Open,
        trust_forwarded: true,
        ..Config::default()
    });
    let mut device = Device::create_account(&mut server, "", "master", 1);
    // Somebody who knows the device's id uses up every try it has — at the
    // address they ask from.
    let mut refused = false;
    for _ in 0..=limits::session().max {
        let guess = server.sign_in("192.0.2.66", device.id, b64::encode(&[0u8; 64]));
        if status(guess) == 429 {
            refused = true;
        }
    }
    assert!(refused);
    assert_eq!(
        device.login(&mut server),
        200,
        "the device itself, from its own address"
    );
}

// ── Pairing ──────────────────────────────────────────────────────────────────

fn claim(secret: &str) -> Speaker {
    Speaker {
        device: None,
        claim: Some(secret.into()),
    }
}

fn device_speaking(device: Uuid) -> Speaker {
    Speaker {
        device: Some(device),
        claim: None,
    }
}

fn say(server: &mut Server, id: &str, side: &str, message: String, speaker: &Speaker) -> u16 {
    let message = PairMessage {
        side: side.into(),
        message,
    };
    if api::pairing::admit_pair(&mut server.state, HOME).is_err() {
        return 429;
    }
    match api::pairing::post(&mut server.state, id, &message, speaker) {
        Ok(()) => 204,
        Err(error) => error.code().0,
    }
}

fn hear(
    server: &mut Server,
    id: &str,
    side: &str,
    after: usize,
    speaker: &Speaker,
) -> Result<PairMessages, ApiError> {
    let query = ReadQuery {
        side: side.into(),
        after,
        wait: false,
    };
    api::pairing::admit_pair(&mut server.state, HOME)?;
    let side = api::pairing::listen(&mut server.state, id, &query, speaker)?;
    api::pairing::read(&mut server.state, id, side, after)
}

fn open_pairing(server: &mut Server, device: &Device) -> String {
    let auth = server.auth(&device.token).unwrap();
    api::pairing::open(&mut server.state, &auth).unwrap().id
}

#[test]
fn two_devices_hand_a_secret_through_the_relay() {
    let mut server = start(Registration::Open);
    let first = Device::create_account(&mut server, "", "master", 1);
    let id = open_pairing(&mut server, &first);
    assert_eq!(id.len(), 5, "a code somebody reads out loud");

    // Side a is the device that opened it, signed in; side b has no account
    // yet and holds its side with a secret it made up.
    let a = device_speaking(first.id);
    let b = claim("the joining device's secret");

    // The handshake: one message each way, then the sealed payload.
    assert_eq!(say(&mut server, &id, "a", b64::encode(b"spake from a"), &a), 204);

    let mine = hear(&mut server, &id, "a", 0, &a).unwrap();
    assert!(
        mine.messages.is_empty(),
        "a device does not read its own message back"
    );

    let theirs = hear(&mut server, &id, "b", 0, &b).unwrap();
    assert_eq!(theirs.messages[0], b64::encode(b"spake from a"));
    assert_eq!(theirs.next, 1);

    assert_eq!(say(&mut server, &id, "b", b64::encode(b"spake from b"), &b), 204);
    assert_eq!(say(&mut server, &id, "a", b64::encode(b"sealed account key"), &a), 204);

    let theirs = hear(&mut server, &id, "b", 1, &b).unwrap();
    assert_eq!(
        theirs.messages[0],
        b64::encode(b"sealed account key"),
        "and only what it has not seen yet"
    );

    // Somebody who only knows the id speaks for neither side.
    let nobody = Speaker {
        device: None,
        claim: None,
    };
    assert_eq!(
        say(&mut server, &id, "a", b64::encode(b"me too"), &nobody),
        401,
        "side a without the opener's token"
    );
    assert_eq!(
        status(hear(&mut server, &id, "b", 0, &claim("a different secret"))),
        401,
        "side b is taken"
    );

    // Finished: the device that opened it says so.
    let auth = server.auth(&first.token).unwrap();
    assert_eq!(status(api::pairing::close(&mut server.state, &auth, &id)), 200);
    assert_eq!(status(hear(&mut server, &id, "b", 0, &b)), 404);
}

#[test]
fn a_waiting_device_is_woken_when_the_other_speaks() {
    let mut server = start(Registration::Open);
    let first = Device::create_account(&mut server, "", "master", 1);
    let id = open_pairing(&mut server, &first);
    let b = claim("waiting");
    let query = ReadQuery {
        side: "b".into(),
        after: 0,
        wait: true,
    };
    let nothing = hear(&mut server, &id, "b", 0, &b).unwrap();
    assert!(api::pairing::waits(&nothing, &query), "it waits");

    let a = device_speaking(first.id);
    assert_eq!(say(&mut server, &id, "a", b64::encode(b"at last"), &a), 204);
    let heard = hear(&mut server, &id, "b", 0, &b).unwrap();
    assert!(!api::pairing::waits(&heard, &query), "and is answered");
    assert_eq!(heard.messages[0], b64::encode(b"at last"));
}

#[test]
fn the_relay_is_a_handshake_and_not_storage() {
    let mut server = start(Registration::Open);
    let first = Device::create_account(&mut server, "", "master", 1);
    let id = open_pairing(&mut server, &first);
    let a = device_speaking(first.id);

    assert_eq!(
        say(&mut server, &id, "a", b64::encode(&[0u8; 9 * 1024]), &a),
        413,
        "a handshake message is small"
    );
    assert_eq!(say(&mut server, &id, "a", String::new(), &a), 400);
    assert_eq!(say(&mut server, &id, "a", "not base64 at all !!".into(), &a), 400);

    for _ in 0..4 {
        assert_eq!(say(&mut server, &id, "a", b64::encode(b"fine"), &a), 204);
    }
    assert_eq!(
        say(&mut server, &id, "a", b64::encode(b"one too many"), &a),
        400,
        "and there are only so many of them"
    );

    // A side nobody named is not a side.
    let nobody = Speaker {
        device: None,
        claim: None,
    };
    assert_eq!(say(&mut server, &id, "c", b64::encode(b"x"), &nobody), 400);
    assert_eq!(status(hear(&mut server, &id, "c", 0, &nobody)), 400);
}

#[test]
fn a_session_nobody_opened_is_not_there_and_not_everyones_to_close() {
    let mut server = start(Registration::Open);
    let mine = Device::create_account(&mut server, "", "master", 1);
    let theirs = Device::create_account(&mut server, "", "other", 2);

    // Opening one needs a device that is already in.
    let anonymous = authenticate(&mut server.state.sessions, &server.state.db, None);
    assert_eq!(status(anonymous), 401);
    let id = open_pairing(&mut server, &mine);

    // Another account cannot close it, and is not told that it exists.
    let stranger = server.auth(&theirs.token).unwrap();
    assert_eq!(status(api::pairing::close(&mut server.state, &stranger, &id)), 404);

    let nobody = Speaker {
        device: None,
        claim: None,
    };
    assert_eq!(status(hear(&mut server, "ZZZZZ", "b", 0, &nobody)), 404);

    // It is still there for the account that opened it.
    let joining = claim("the joining device");
    assert_eq!(status(hear(&mut server, &id, "b", 0, &joining)), 200);
}

#[test]
fn what_is_no_key_is_refused_by_name() {
    let mut server = start(Registration::Open);
    let short = b64::encode(&[1u8; 31]);
    let mut one = request("", vault(Uuid::now_v7()), "master", short.clone());
    assert_eq!(status(server.create(&one)), 400);
    one.device.public_key = b64::encode(&[1u8; 32]);
    one.auth_key = short;
    let refused = server.create(&one).unwrap_err();
    assert_eq!(refused.message(), "a login key must be 32 bytes");
    one.auth_key = "!".into();
    assert_eq!(server.create(&one).unwrap_err().message(), "a login key");
}

#[test]
fn members_of_one_address_sign_in_apart() {
    let mut server = start(Registration::Open);
    let guessed = Device::create_account(&mut server, "", "master", 1);
    let mut other = Device::create_account(&mut server, "", "master", 2);
    for _ in 0..=limits::session().max {
        let _ = server.sign_in(HOME, guessed.id, b64::encode(&[0u8; 64]));
    }
    assert_eq!(other.login(&mut server), 200);
}
