use uwusync_server::error::ApiError;
use uwusync_server::ids::Uuid;
use uwusync_server::now_ms;
use uwusync_server::pairing::{
    code, code_from, Pairings, Side, MAX_MESSAGES, MAX_MESSAGE_BYTES, OPEN_PER_ACCOUNT, TTL_MS,
};

const ALPHABET: &[u8] = b"ABCDEFGHJKMNPQRSTVWXYZ23456789";

fn open(pairings: &mut Pairings) -> String {
    pairings.open(Uuid::now_v7(), Uuid::now_v7()).unwrap()
}

#[test]
fn each_side_hears_the_other_and_not_itself() {
    let mut pairings = Pairings::default();
    let id = open(&mut pairings);

    pairings
        .post(&id, Side::A, b"spake from a".to_vec())
        .unwrap();
    assert!(
        pairings.read(&id, Side::A, 0).unwrap().is_empty(),
        "a device does not read its own messages back"
    );
    assert_eq!(
        pairings.read(&id, Side::B, 0).unwrap(),
        vec![b"spake from a".to_vec()]
    );

    pairings
        .post(&id, Side::B, b"spake from b".to_vec())
        .unwrap();
    assert_eq!(
        pairings.read(&id, Side::A, 0).unwrap(),
        vec![b"spake from b".to_vec()]
    );

    // And each side only asks for what it has not seen.
    pairings
        .post(&id, Side::A, b"sealed payload".to_vec())
        .unwrap();
    assert_eq!(
        pairings.read(&id, Side::B, 1).unwrap(),
        vec![b"sealed payload".to_vec()]
    );
}

#[test]
fn a_session_that_is_over_is_gone() {
    let mut pairings = Pairings::default();
    let id = open(&mut pairings);
    assert!(pairings.close(&id));
    assert!(!pairings.close(&id));
    assert!(matches!(
        pairings.post(&id, Side::A, b"late".to_vec()),
        Err(ApiError::NotFound)
    ));
    assert!(matches!(
        pairings.read(&id, Side::B, 0),
        Err(ApiError::NotFound)
    ));
    assert!(pairings.is_empty());
}

#[test]
fn an_id_nobody_opened_is_not_found() {
    let mut pairings = Pairings::default();
    assert!(matches!(
        pairings.read("ZZZZZ", Side::B, 0),
        Err(ApiError::NotFound)
    ));
}

#[test]
fn a_handshake_cannot_turn_into_a_file_transfer() {
    let mut pairings = Pairings::default();
    let id = open(&mut pairings);

    assert!(matches!(
        pairings.post(&id, Side::A, vec![0; MAX_MESSAGE_BYTES + 1]),
        Err(ApiError::TooLarge(_))
    ));
    assert!(matches!(
        pairings.post(&id, Side::A, Vec::new()),
        Err(ApiError::Invalid(_))
    ));

    for _ in 0..MAX_MESSAGES {
        pairings.post(&id, Side::A, b"x".to_vec()).unwrap();
    }
    assert!(matches!(
        pairings.post(&id, Side::A, b"one too many".to_vec()),
        Err(ApiError::Invalid(_))
    ));
    // The other side still has its own room.
    pairings.post(&id, Side::B, b"mine".to_vec()).unwrap();
}

#[test]
fn two_sessions_never_get_mixed_up() {
    let mut pairings = Pairings::default();
    let one = open(&mut pairings);
    let two = open(&mut pairings);
    assert_ne!(one, two);

    pairings.post(&one, Side::A, b"for one".to_vec()).unwrap();
    assert!(pairings.read(&two, Side::B, 0).unwrap().is_empty());
    assert_eq!(pairings.len(), 2);
}

#[test]
fn a_session_runs_out() {
    let mut pairings = Pairings::default();
    let id = open(&mut pairings);
    let over = now_ms() + TTL_MS + 1;

    assert!(matches!(
        pairings.read_at(&id, Side::B, 0, over),
        Err(ApiError::NotFound)
    ));
    assert!(pairings.is_empty(), "and it is not kept around");
}

#[test]
fn codes_are_short_and_do_not_repeat() {
    let one = code();
    assert_eq!(one.len(), 5);
    assert!(one.chars().all(|c| ALPHABET.contains(&(c as u8))));
    assert_ne!(one, code());
    assert_eq!(code_from(&[0, 29, 30, 59, 255]), "A9A9S");
}

#[test]
fn a_side_is_a_or_b() {
    assert_eq!(Side::parse("a"), Some(Side::A));
    assert_eq!(Side::parse("A"), Some(Side::A));
    assert_eq!(Side::parse("b"), Some(Side::B));
    assert_eq!(Side::parse("B"), Some(Side::B));
    assert_eq!(Side::parse("c"), None);
    assert_eq!(Side::parse(""), None);
    assert_eq!(Side::A.other(), Side::B);
    assert_eq!(Side::B.other(), Side::A);
}

#[test]
fn an_account_has_only_so_many_sessions_open() {
    let mut pairings = Pairings::default();
    let (account, device) = (Uuid::now_v7(), Uuid::now_v7());
    let ids: Vec<String> = (0..OPEN_PER_ACCOUNT)
        .map(|_| pairings.open(account, device).unwrap())
        .collect();
    assert!(matches!(
        pairings.open(account, device),
        Err(ApiError::RateLimited)
    ));
    assert!(pairings.open(Uuid::now_v7(), device).is_ok(), "another account");
    pairings.close(&ids[0]);
    assert!(pairings.open(account, device).is_ok(), "a closed one makes room");
    assert_eq!(pairings.account_of(&ids[1]).unwrap(), account);
}

#[test]
fn the_server_carries_only_so_many_sessions() {
    let mut pairings = Pairings::default();
    for n in 0..1000 {
        assert!(pairings
            .open_at(&format!("{n:05}"), Uuid::now_v7(), Uuid::now_v7(), 5)
            .unwrap());
    }
    assert!(matches!(
        pairings.open_at("MORE!", Uuid::now_v7(), Uuid::now_v7(), 5),
        Err(ApiError::RateLimited)
    ));
    assert_eq!(pairings.len_at(5 + TTL_MS - 1), 1000);
    assert_eq!(pairings.len_at(5 + TTL_MS), 0);
}

#[test]
fn an_id_that_is_taken_is_not_given_again() {
    let mut pairings = Pairings::default();
    let (account, device) = (Uuid::now_v7(), Uuid::now_v7());
    assert!(pairings.open_at("ABCDE", account, device, 5).unwrap());
    assert!(!pairings.open_at("ABCDE", account, device, 5).unwrap());
}

#[test]
fn each_side_is_somebodys() {
    let mut pairings = Pairings::default();
    let (account, device) = (Uuid::now_v7(), Uuid::now_v7());
    let id = pairings.open(account, device).unwrap();
    let now = now_ms();
    assert!(pairings.speak_at(&id, Side::A, Some(device), None, now).is_ok());
    for stranger in [None, Some(Uuid::now_v7())] {
        assert!(matches!(
            pairings.speak_at(&id, Side::A, stranger, Some("a secret"), now),
            Err(ApiError::Unauthorized)
        ));
    }
    assert!(matches!(
        pairings.speak_at(&id, Side::B, Some(device), None, now),
        Err(ApiError::Unauthorized)
    ));
    assert!(pairings.speak_at(&id, Side::B, None, Some("first"), now).is_ok());
    assert!(pairings.speak_at(&id, Side::B, None, Some("first"), now).is_ok());
    assert!(matches!(
        pairings.speak_at(&id, Side::B, None, Some("second"), now),
        Err(ApiError::Unauthorized)
    ));
    assert!(matches!(
        pairings.speak_at("ZZZZZ", Side::B, None, None, now),
        Err(ApiError::NotFound)
    ));
}

#[test]
fn a_device_takes_the_sessions_it_opened_along() {
    let mut pairings = Pairings::default();
    let (gone, stays) = (Uuid::now_v7(), Uuid::now_v7());
    let account = Uuid::now_v7();
    let one = pairings.open(account, gone).unwrap();
    let two = pairings.open(account, stays).unwrap();
    assert_eq!(pairings.close_opened_by(gone), 1);
    assert!(pairings.read(&one, Side::B, 0).is_err());
    assert!(pairings.read(&two, Side::B, 0).is_ok());
}

#[test]
fn an_id_that_is_opened_again_has_nothing_of_before() {
    let mut pairings = Pairings::default();
    let (account, device) = (Uuid::now_v7(), Uuid::now_v7());
    assert_eq!(pairings.open_at("ABCDE", account, device, 5).unwrap(), true);
    assert_eq!(pairings.open_at("FGHJK", account, device, 5).unwrap(), true);
    pairings.post_at("ABCDE", Side::A, b"one".to_vec(), 6).unwrap();
    pairings.post_at("FGHJK", Side::A, b"elsewhere".to_vec(), 6).unwrap();
    pairings.post_at("ABCDE", Side::B, b"two".to_vec(), 7).unwrap();
    pairings.post_at("ABCDE", Side::A, b"three".to_vec(), 8).unwrap();
    for _ in 0..2 {
        assert_eq!(
            pairings.read_at("ABCDE", Side::B, 0, 9).unwrap(),
            vec![b"one".to_vec(), b"three".to_vec()]
        );
        assert!(pairings.read_at("ABCDE", Side::B, 2, 9).unwrap().is_empty());
    }
    let over = 5 + TTL_MS;
    assert_eq!(
        pairings.open_at("ABCDE", account, device, over - 1).unwrap(),
        false,
        "it is still open"
    );
    assert_eq!(pairings.open_at("ABCDE", account, device, over).unwrap(), true);
    assert!(pairings.read_at("ABCDE", Side::B, 0, over).unwrap().is_empty());
    assert!(pairings.close("ABCDE"));
    assert!(pairings.read_at("ABCDE", Side::B, 0, over).is_err());
}
