use uwusync_server::error::ApiError;
use uwusync_server::ids::Uuid;
use uwusync_server::limits::{
    accounts, enrol, joins, network, pair, proofs, pull, pulls, push, pushes, session, sign_in,
    Bucket, Note, RateLimiter, WhenFull, MAX_ADDRESSES, MAX_NETWORKS, MILLISECOND, SECOND,
};

fn tiny() -> Bucket {
    Bucket {
        name: "tiny",
        max: 2,
        window: 60 * SECOND,
        when_full: WhenFull::Coarsen,
    }
}

#[test]
fn the_third_try_of_two_is_refused() {
    let mut limiter = RateLimiter::default();
    assert!(limiter.check("10.0.0.1", &tiny()).is_ok());
    assert!(limiter.check("10.0.0.1", &tiny()).is_ok());
    assert!(matches!(
        limiter.check("10.0.0.1", &tiny()),
        Err(ApiError::RateLimited)
    ));
}

#[test]
fn one_address_does_not_lock_out_another() {
    let mut limiter = RateLimiter::default();
    for _ in 0..2 {
        limiter.check("10.0.0.1", &tiny()).unwrap();
    }
    assert!(limiter.check("10.0.0.2", &tiny()).is_ok());
}

#[test]
fn buckets_are_counted_apart() {
    let mut limiter = RateLimiter::default();
    for _ in 0..2 {
        limiter.check("10.0.0.1", &tiny()).unwrap();
    }
    assert!(limiter.check("10.0.0.1", &accounts()).is_ok());
}

#[test]
fn accounts_and_devices_are_counted_apart_from_addresses() {
    let mut limiter = RateLimiter::default();
    let account = Uuid::now_v7();
    for _ in 0..2 {
        limiter.check_account(account, &tiny()).unwrap();
    }
    assert!(limiter.check_account(account, &tiny()).is_err());
    assert!(limiter.check_account(Uuid::now_v7(), &tiny()).is_ok());

    let (thief, owner) = (Uuid::now_v7(), Uuid::now_v7());
    for _ in 0..2 {
        limiter.check_device(thief, &tiny()).unwrap();
    }
    assert!(limiter.check_device(thief, &tiny()).is_err());
    assert!(
        limiter.check_device(owner, &tiny()).is_ok(),
        "one device using up its tries leaves the others theirs"
    );
    limiter.forgive_device(thief, &tiny());
    assert!(limiter.check_device(thief, &tiny()).is_ok());
}

#[test]
fn what_worked_does_not_count_against_the_next_one() {
    let mut limiter = RateLimiter::default();
    limiter.check("10.0.0.1", &tiny()).unwrap();
    limiter.forgive("10.0.0.1", &tiny());
    limiter.check("10.0.0.1", &tiny()).unwrap();
    limiter.check("10.0.0.1", &tiny()).unwrap();
    assert!(limiter.check("10.0.0.1", &tiny()).is_err());
}

#[test]
fn what_has_fallen_out_of_the_window_is_forgotten() {
    let mut limiter = RateLimiter::default();
    let gone = Bucket {
        name: "tiny",
        max: 1,
        window: MILLISECOND,
        when_full: WhenFull::Coarsen,
    };
    limiter.check_at("10.0.0.1", &gone, SECOND).unwrap();
    assert!(limiter.check_at("10.0.0.1", &gone, SECOND + MILLISECOND - 1).is_err());
    assert!(limiter.check_at("10.0.0.1", &gone, SECOND + 5 * MILLISECOND).is_ok());
    assert_eq!(limiter.addresses("tiny"), 1, "one address, one bucket");
}

/// A table of `bucket` with no room left: every one of `MAX_ADDRESSES`
/// IPv6 networks inside 2001:db8:1::/48 has tried once.
fn full(limiter: &mut RateLimiter, bucket: &Bucket) {
    for n in 0..MAX_ADDRESSES {
        limiter
            .check(&format!("2001:db8:1:{n:x}::/64"), bucket)
            .unwrap();
    }
}

#[test]
fn a_flood_of_made_up_addresses_does_not_grow_without_end() {
    let mut limiter = RateLimiter::default();
    full(&mut limiter, &tiny());
    assert!(
        limiter.check("2001:db8:1:ffff::/64", &tiny()).is_ok(),
        "a newcomer is counted with its network"
    );
    assert!(limiter.check("2001:db8:1:fffe::/64", &tiny()).is_ok());
    assert!(
        limiter.check("2001:db8:1:fffd::/64", &tiny()).is_err(),
        "and its network is the one making addresses up"
    );
    assert!(
        limiter.check("2001:db8:1:7::/64", &tiny()).is_ok(),
        "whoever is known already still gets their tries"
    );
    assert!(
        limiter.check_account(Uuid::now_v7(), &push()).is_ok(),
        "and accounts are never refused for want of room"
    );
    assert_eq!(limiter.addresses("tiny"), MAX_ADDRESSES + 1);
}

#[test]
fn a_full_table_leaves_other_networks_a_count_of_their_own() {
    let mut limiter = RateLimiter::default();
    full(&mut limiter, &accounts());
    for _ in 0..accounts().max {
        limiter.check("2001:db8:1:ffff::/64", &accounts()).unwrap();
    }
    assert!(limiter.check("2001:db8:1:fffe::/64", &accounts()).is_err());
    assert!(
        limiter.check("2001:db8:2:1::/64", &accounts()).is_ok(),
        "another site"
    );
    assert!(limiter.check("192.0.2.7", &accounts()).is_ok(), "IPv4");
    assert!(limiter.check("not an address", &accounts()).is_ok());

    // With no room for networks either, everybody new shares one count.
    // There are four beyond the addresses already.
    for n in 0..MAX_NETWORKS - 4 {
        limiter
            .check(&format!("198.{}.{}.1", n / 256, n % 256), &accounts())
            .unwrap();
    }
    for n in 0..accounts().max - 1 {
        assert!(limiter.check(&format!("203.0.113.{n}"), &accounts()).is_ok());
    }
    assert!(limiter.check("203.0.113.200", &accounts()).is_err());
    let most = MAX_ADDRESSES + MAX_NETWORKS + 5;
    assert!(limiter.addresses("accounts") <= most, "still bounded");
}

#[test]
fn a_flood_of_one_bucket_leaves_the_others_alone() {
    let mut limiter = RateLimiter::default();
    full(&mut limiter, &accounts());
    for bucket in [&session(), &enrol(), &pair()] {
        assert!(
            limiter.check("203.0.113.9", bucket).is_ok(),
            "{}",
            bucket.name
        );
    }
}

#[test]
fn signing_in_is_never_refused_for_want_of_room() {
    let mut limiter = RateLimiter::default();
    full(&mut limiter, &session());
    for _ in 0..session().max * 2 {
        assert!(limiter.check("2001:db8:1:ffff::/64", &session()).is_ok());
    }
    assert_eq!(
        limiter.addresses("session"),
        MAX_ADDRESSES,
        "and not remembered"
    );
}

#[test]
fn a_full_table_makes_room_from_whoever_is_done() {
    let mut limiter = RateLimiter::default();
    let brief = Bucket {
        name: "tiny",
        max: 5,
        window: MILLISECOND,
        when_full: WhenFull::Coarsen,
    };
    for n in 0..MAX_ADDRESSES {
        limiter.check_at(&format!("key-{n}"), &brief, SECOND).unwrap();
    }
    assert!(
        limiter.check_at("newcomer", &tiny(), SECOND + 5 * MILLISECOND).is_ok(),
        "the ones whose short window ended made room"
    );
    assert_eq!(limiter.addresses("tiny"), 1);
    assert!(
        limiter.remembers("newcomer", "tiny"),
        "and it is counted as itself"
    );
}

#[test]
fn an_account_has_only_so_many_going_at_once() {
    let mut limiter = RateLimiter::default();
    let account = Uuid::now_v7();
    let going: Vec<_> = (0..pulls().max)
        .map(|_| limiter.start(account, &pulls()).expect("room"))
        .collect();
    assert!(matches!(
        limiter.start(account, &pulls()),
        Err(ApiError::RateLimited)
    ));
    let pushing = limiter.start(account, &pushes());
    assert!(pushing.is_ok(), "pushes are counted apart");
    limiter.finish(pushing.unwrap());
    let elsewhere = limiter.start(Uuid::now_v7(), &pulls());
    assert!(elsewhere.is_ok(), "and other accounts");
    limiter.finish(elsewhere.unwrap());
    for one in going {
        limiter.finish(one);
    }
    let again = limiter.start(account, &pulls());
    assert!(again.is_ok(), "done ones make room");
    limiter.finish(again.unwrap());
    assert!(limiter.idle(), "nothing left over");
}

#[test]
fn the_limits_are_the_documented_ones() {
    let minute = 60 * SECOND;
    for (bucket, name, max, window) in [
        (accounts(), "accounts", 5, 60 * minute),
        (session(), "session", 30, minute),
        (sign_in(), "sign-in", 300, minute),
        (enrol(), "enrol", 10, 10 * minute),
        (pair(), "pair", 60, 10 * minute),
        (push(), "push", 120, minute),
        (pull(), "pull", 600, minute),
        (joins(), "joins", 10, 10 * minute),
        (proofs(), "proof", 10, 60 * minute),
    ] {
        assert_eq!((bucket.name, bucket.max, bucket.window), (name, max, window));
    }
}

#[test]
fn a_network_is_the_site_around_an_address() {
    assert_eq!(network("192.0.2.7"), "192.0.2.0/24");
    assert_eq!(network("2001:db8:1:7::/64"), "2001:db8:1::/48");
    for nobody in ["", "192.0.2", "192.0.2.256", "192.0.02.7", "1.2.3.4.5", "a::/64", "::1"] {
        assert_eq!(network(nobody), "everybody else", "{nobody}");
    }
}

#[test]
fn the_log_hears_of_a_refusal_once() {
    let mut limiter = RateLimiter::default();
    for _ in 0..2 {
        limiter.check_at("10.0.0.1", &tiny(), SECOND).unwrap();
    }
    for _ in 0..5 {
        assert!(limiter.check_at("10.0.0.1", &tiny(), 2 * SECOND).is_err());
    }
    let notes = limiter.take_notes();
    assert_eq!(notes.len(), 1);
    assert!(matches!(
        &notes[0],
        Note::Refused { who, bucket } if who == "10.0.0.1" && *bucket == "tiny"
    ));
    assert!(limiter.take_notes().is_empty());
    // Once it was let through again, the next refusal is news again.
    assert!(limiter.check_at("10.0.0.1", &tiny(), 62 * SECOND).is_ok());
    assert!(limiter.check_at("10.0.0.1", &tiny(), 62 * SECOND).is_ok());
    assert!(limiter.check_at("10.0.0.1", &tiny(), 62 * SECOND).is_err());
    assert_eq!(limiter.take_notes().len(), 1);
}

#[test]
fn whoever_is_done_is_forgotten_once_a_minute() {
    let mut limiter = RateLimiter::default();
    limiter.check_at("10.0.0.1", &tiny(), 0).unwrap();
    limiter.check_at("10.0.0.2", &tiny(), 30 * SECOND).unwrap();
    limiter.check_at("10.0.0.3", &tiny(), 61 * SECOND).unwrap();
    assert!(!limiter.remembers("10.0.0.1", "tiny"));
    assert!(limiter.remembers("10.0.0.2", "tiny"));
    assert_eq!(limiter.addresses("tiny"), 2);
    assert_eq!(limiter.addresses("nothing"), 0);
}

#[test]
fn a_refused_try_never_prolongs_the_refusal() {
    let mut limiter = RateLimiter::default();
    let bucket = tiny();
    let who = "10.0.0.1";
    assert!(limiter.check_at(who, &bucket, 0).is_ok());
    assert!(limiter.check_at(who, &bucket, 10 * SECOND).is_ok());
    for second in 11..60 {
        assert!(limiter.check_at(who, &bucket, second * SECOND).is_err(), "{second}");
    }
    assert!(
        limiter.check_at(who, &bucket, 60 * SECOND).is_ok(),
        "the first has left its window"
    );
    assert!(limiter.check_at(who, &bucket, 69 * SECOND).is_err());
    limiter.forgive(who, &bucket);
    assert!(
        limiter.check_at(who, &bucket, 69 * SECOND).is_ok(),
        "the latest was taken back"
    );
    assert!(limiter.check_at(who, &bucket, 69 * SECOND).is_err());
}
