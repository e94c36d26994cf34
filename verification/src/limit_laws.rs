//! What holds of the limiter as a whole.

use crate::ids::{uuid_text, uuid_text_is_unique, Uuid};
use crate::limits::{
    account_key, address_refused, address_tried, age, device_key, finished, forgiven, going_count,
    is_current, kept_clean, member_refused, member_tried, network_of, no_room, no_tries, reception,
    started, swept, table_of, too_many, tried, tries_of, within, Bucket, HitsView, LimiterView,
    TableView, TriesView, WhenFull, EVERYBODY_ELSE, MAX_ADDRESSES, MAX_NETWORKS,
};
use vstd::prelude::*;

verus! {

/// Whether moments follow one another.
pub open spec fn rising(at: Seq<u64>) -> bool {
    forall|i: int, j: int| 0 <= i < j < at.len() ==> #[trigger] at[i] <= #[trigger] at[j]
}

/// The tries of somebody who tried at these moments, and at no other.
pub open spec fn tries_after(times: Seq<u64>, bucket: Bucket) -> TriesView
    decreases times.len(),
{
    if times.len() == 0 {
        no_tries(bucket.window)
    } else {
        tried(tries_after(times.drop_last(), bucket), times.last(), bucket)
    }
}

/// The moments at which such a try was not refused.
pub open spec fn admitted(times: Seq<u64>, bucket: Bucket) -> Seq<u64>
    decreases times.len(),
{
    if times.len() == 0 {
        Seq::empty()
    } else if too_many(tries_after(times.drop_last(), bucket), times.last(), bucket) {
        admitted(times.drop_last(), bucket)
    } else {
        admitted(times.drop_last(), bucket).push(times.last())
    }
}

pub(crate) proof fn lemma_within_is_a_suffix(at: Seq<u64>, now: u64, window: u64) -> (dropped: int)
    requires
        rising(at),
    ensures
        0 <= dropped <= at.len(),
        within(at, now, window) == at.skip(dropped),
        forall|i: int| 0 <= i < dropped ==> age(now, #[trigger] at[i]) >= window,
    decreases at.len(),
{
    if at.len() > 0 && age(now, at[0]) >= window {
        let rest = at.skip(1);
        assert(rising(rest));
        let n = lemma_within_is_a_suffix(rest, now, window);
        assert(rest.skip(n) =~= at.skip(n + 1));
        assert forall|i: int| 0 <= i < n + 1 implies age(now, #[trigger] at[i]) >= window by {
            if i > 0 {
                assert(at[i] == rest[i - 1]);
            }
        }
        n + 1
    } else {
        assert(at.skip(0) =~= at);
        0
    }
}

/// What a limiter remembers of somebody is the end of what was admitted, and
/// what it no longer remembers has left the window.
proof fn lemma_remembers_the_end(times: Seq<u64>, bucket: Bucket)
    requires
        rising(times),
    ensures
        ({
            let kept = tries_after(times, bucket).at;
            let all = admitted(times, bucket);
            &&& kept.len() <= all.len()
            &&& kept.len() <= bucket.max
            &&& kept == all.skip(all.len() - kept.len())
            &&& rising(all)
            &&& all.len() > 0 ==> times.len() > 0 && all.last() <= times.last()
            &&& forall|i: int|
                0 <= i < all.len() - kept.len() ==> times.len() > 0 && age(
                    times.last(),
                    #[trigger] all[i],
                ) >= bucket.window
        }),
    decreases times.len(),
{
    if times.len() > 0 {
        let rest = times.drop_last();
        let now = times.last();
        lemma_remembers_the_end(rest, bucket);
        let before = tries_after(rest, bucket);
        let all = admitted(rest, bucket);
        assert(rising(before.at)) by {
            assert forall|i: int, j: int| 0 <= i < j < before.at.len() implies #[trigger] before.at[i]
                <= #[trigger] before.at[j] by {
                let shift = all.len() - before.at.len();
                assert(before.at[i] == all[i + shift]);
                assert(before.at[j] == all[j + shift]);
            }
        }
        let dropped = lemma_within_is_a_suffix(before.at, now, bucket.window);
        let kept = within(before.at, now, bucket.window);
        let shift = all.len() - before.at.len();
        assert(kept =~= all.skip(shift + dropped));
        assert forall|i: int| 0 <= i < shift + dropped implies age(now, #[trigger] all[i])
            >= bucket.window by {
            if i < shift {
                assert(age(rest.last(), all[i]) >= bucket.window);
                assert(rest.last() <= now) by {
                    assert(times[times.len() - 2] <= times[times.len() - 1]);
                }
            } else {
                assert(before.at[i - shift] == all[i]);
            }
        }
        let after = admitted(times, bucket);
        if all.len() > 0 {
            assert(all.last() <= rest.last());
            assert(rest.last() <= now) by {
                assert(times[times.len() - 2] <= times[times.len() - 1]);
            }
        }
        if !too_many(before, now, bucket) {
            let kept_after = kept.push(now);
            assert(kept_after =~= after.skip(after.len() - kept_after.len()));
            assert forall|i: int, j: int| 0 <= i < j < after.len() implies #[trigger] after[i]
                <= #[trigger] after[j] by {
                if j == all.len() {
                    assert(all[i] <= all.last());
                }
            }
            assert forall|i: int| 0 <= i < after.len() - kept_after.len() implies age(
                now,
                #[trigger] after[i],
            ) >= bucket.window by {
                assert(after[i] == all[i]);
            }
        }
    } else {
        assert(tries_after(times, bucket).at =~= admitted(times, bucket).skip(0));
    }
}

/// Nobody gets more than `max` tries into one window: of the tries of one
/// address, account or device that are not refused, the one that comes `max`
/// later comes at least a window later.
pub proof fn never_more_than_max_in_a_window(times: Seq<u64>, bucket: Bucket, i: int, j: int)
    requires
        rising(times),
        0 <= i,
        i + bucket.max <= j < admitted(times, bucket).len(),
    ensures
        admitted(times, bucket)[j] - admitted(times, bucket)[i] >= bucket.window,
    decreases times.len(),
{
    let all = admitted(times, bucket);
    if times.len() > 0 {
        let rest = times.drop_last();
        let now = times.last();
        let before = tries_after(rest, bucket);
        let earlier = admitted(rest, bucket);
        lemma_remembers_the_end(rest, bucket);
        lemma_remembers_the_end(times, bucket);
        if j < earlier.len() {
            never_more_than_max_in_a_window(rest, bucket, i, j);
            assert(all[i] == earlier[i] && all[j] == earlier[j]);
        } else {
            assert(!too_many(before, now, bucket));
            let kept = tries_after(times, bucket).at;
            assert(kept.len() <= bucket.max);
            assert(age(now, all[i]) >= bucket.window);
            assert(all[j] == now);
            assert(all[i] <= now) by {
                if i < j {
                    assert(all[i] <= all[j]);
                }
            }
        }
    }
}

proof fn lemma_within_of_done(at: Seq<u64>, now: u64, window: u64)
    requires
        rising(at),
        at.len() == 0 || age(now, at.last()) >= window,
    ensures
        within(at, now, window) == Seq::<u64>::empty(),
    decreases at.len(),
{
    if at.len() > 0 {
        assert(at[0] <= at.last()) by {
            if at.len() > 1 {
                assert(at[0] <= at[at.len() - 1]);
            }
        }
        let rest = at.skip(1);
        assert(rising(rest));
        if rest.len() > 0 {
            assert(rest.last() == at.last());
        }
        lemma_within_of_done(rest, now, window);
    } else {
        assert(at =~= Seq::<u64>::empty());
    }
}

/// Forgetting whoever is done changes nothing: whoever is forgotten is treated
/// as they would have been.
pub proof fn forgetting_the_done_changes_no_verdict(tries: TriesView, now: u64, bucket: Bucket)
    requires
        rising(tries.at),
        tries.window == bucket.window,
        !is_current(tries, now),
    ensures
        too_many(tries, now, bucket) == too_many(no_tries(bucket.window), now, bucket),
        tried(tries, now, bucket).at == tried(no_tries(bucket.window), now, bucket).at,
{
    lemma_within_of_done(tries.at, now, bucket.window);
    lemma_within_of_done(no_tries(bucket.window).at, now, bucket.window);
}

proof fn lemma_within_twice(at: Seq<u64>, now: u64, later: u64, window: u64)
    requires
        now <= later,
    ensures
        within(within(at, now, window), later, window) == within(at, later, window),
    decreases at.len(),
{
    if at.len() > 0 && age(now, at[0]) >= window {
        lemma_within_twice(at.skip(1), now, later, window);
    }
}

/// What worked does not count against the next one: once a try is forgiven,
/// every later one is treated as if it had not been made.
pub proof fn a_forgiven_try_was_never_made(tries: TriesView, now: u64, later: u64, bucket: Bucket)
    requires
        !too_many(tries, now, bucket),
        now <= later,
    ensures
        too_many(forgiven(tried(tries, now, bucket)), later, bucket) == too_many(
            tries,
            later,
            bucket,
        ),
{
    let kept = within(tries.at, now, bucket.window);
    assert(kept.push(now).drop_last() =~= kept);
    lemma_within_twice(tries.at, now, later, bucket.window);
}

/// Buckets are counted apart: a try in one changes no verdict in another.
pub proof fn buckets_are_counted_apart(
    hits: HitsView,
    who: Seq<char>,
    other: Seq<char>,
    now: u64,
    bucket: Bucket,
    apart: Bucket,
)
    requires
        bucket.name@ != apart.name@,
    ensures
        address_refused(address_tried(hits, who, now, bucket), other, now, apart)
            == address_refused(hits, other, now, apart),
        member_refused(member_tried(hits, who, now, bucket), other, now, apart) == member_refused(
            hits,
            other,
            now,
            apart,
        ),
{
}

/// Accounts and devices are counted apart from addresses.
pub proof fn members_are_counted_apart_from_addresses(
    hits: HitsView,
    who: Seq<char>,
    member: Seq<char>,
    now: u64,
    bucket: Bucket,
    other: Bucket,
)
    ensures
        member_refused(address_tried(hits, who, now, bucket), member, now, other)
            == member_refused(hits, member, now, other),
        address_refused(member_tried(hits, member, now, bucket), who, now, other)
            == address_refused(hits, who, now, other),
{
}

/// No two accounts or devices share a count, nor do an account and a device.
pub proof fn members_have_counts_of_their_own(one: Uuid, other: Uuid)
    ensures
        account_key(one) == account_key(other) ==> one == other,
        device_key(one) == device_key(other) ==> one == other,
        account_key(one) != device_key(other),
{
    reveal_strlit("account:");
    reveal_strlit("device:");
    assert(account_key(one)[0] == 'a');
    assert(device_key(other)[0] == 'd');
    if account_key(one) == account_key(other) {
        assert(account_key(one).skip(8) =~= uuid_text(one));
        assert(account_key(other).skip(8) =~= uuid_text(other));
        uuid_text_is_unique(one, other);
    }
    if device_key(one) == device_key(other) {
        assert(device_key(one).skip(7) =~= uuid_text(one));
        assert(device_key(other).skip(7) =~= uuid_text(other));
        uuid_text_is_unique(one, other);
    }
}

/// One account or device using up its tries leaves every other one theirs.
pub proof fn one_member_does_not_lock_out_another(
    hits: HitsView,
    one: Seq<char>,
    other: Seq<char>,
    now: u64,
    bucket: Bucket,
)
    requires
        one != other,
    ensures
        member_refused(member_tried(hits, one, now, bucket), other, now, bucket) == member_refused(
            hits,
            other,
            now,
            bucket,
        ),
{
}

/// One address using up its tries leaves every other one theirs: whoever is
/// known already, however full the table, and whoever is not, where there is
/// room.
pub proof fn one_address_does_not_lock_out_another(
    hits: HitsView,
    one: Seq<char>,
    other: Seq<char>,
    now: u64,
    bucket: Bucket,
)
    requires
        one != other,
        ({
            let table = table_of(kept_clean(hits, now).addresses, bucket.name@);
            ||| table.tries.contains_key(other) && is_current(table.tries[other], now) && other
                != network_of(one) && other != EVERYBODY_ELSE@
            ||| table.tries.dom().finite() && table.tries.len() + 2 <= MAX_ADDRESSES
        }),
    ensures
        address_refused(address_tried(hits, one, now, bucket), other, now, bucket)
            == address_refused(hits, other, now, bucket),
{
    let clean = kept_clean(hits, now);
    let after = address_tried(hits, one, now, bucket);
    assert(kept_clean(after, now) == after);
    assert(kept_clean(clean, now) == clean);
    let table = table_of(clean.addresses, bucket.name@);
    let at = reception(clean, one, now, bucket);
    let next = table_of(after.addresses, bucket.name@);
    if table.tries.contains_key(other) && is_current(table.tries[other], now) && other
        != network_of(one) && other != EVERYBODY_ELSE@ {
        assert(next.tries.contains_key(other));
        assert(next.tries[other] == table.tries[other]);
    } else {
        assert(!no_room(table, one));
        assert(!no_room(table, other));
        assert(at.key == Some(one));
        assert(next.tries.len() <= table.tries.len() + 1);
        assert(!no_room(next, other));
    }
}

/// Whether what a table holds of somebody is what the limiter writes there:
/// tries one after the other, kept for the window of the bucket.
pub open spec fn orderly(table: TableView, who: Seq<char>, bucket: Bucket) -> bool {
    table.tries.contains_key(who) ==> rising(table.tries[who].at) && table.tries[who].window
        == bucket.window
}

/// What a table holds stays orderly while the clock goes forward, whoever
/// tries.
pub proof fn tries_stay_orderly(
    hits: HitsView,
    who: Seq<char>,
    now: u64,
    bucket: Bucket,
    any: Seq<char>,
)
    requires
        ({
            let table = table_of(hits.addresses, bucket.name@);
            &&& orderly(table, any, bucket)
            &&& table.tries.contains_key(any) && table.tries[any].at.len() > 0
                ==> table.tries[any].at.last() <= now
        }),
    ensures
        orderly(table_of(address_tried(hits, who, now, bucket).addresses, bucket.name@), any, bucket),
{
    let clean = kept_clean(hits, now);
    let at = reception(clean, who, now, bucket);
    if at.key == Some(any) {
        let tries = tries_of(at.table, any, bucket.window);
        let dropped = lemma_within_is_a_suffix(tries.at, now, bucket.window);
        let left = within(tries.at, now, bucket.window);
        assert forall|i: int, j: int| 0 <= i < j < left.push(now).len() implies #[trigger] left.push(
            now,
        )[i] <= #[trigger] left.push(now)[j] by {
            assert(left[i] == tries.at[i + dropped]);
            if j < left.len() {
                assert(left[j] == tries.at[j + dropped]);
            } else {
                assert(tries.at[i + dropped] <= tries.at.last());
            }
        }
        assert(rising(left)) by {
            assert forall|i: int, j: int| 0 <= i < j < left.len() implies #[trigger] left[i]
                <= #[trigger] left[j] by {
                assert(left[i] == tries.at[i + dropped] && left[j] == tries.at[j + dropped]);
            }
        }
    }
}

/// Where newcomers are admitted, an address using up its tries leaves every
/// other one theirs, however full the table: so nobody is kept from signing in
/// by whoever makes up addresses.
pub proof fn signing_in_is_nobody_elses_to_use_up(
    hits: HitsView,
    one: Seq<char>,
    other: Seq<char>,
    now: u64,
    bucket: Bucket,
)
    requires
        one != other,
        bucket.when_full == WhenFull::Admit,
        bucket.max > 0,
        orderly(table_of(kept_clean(hits, now).addresses, bucket.name@), other, bucket),
    ensures
        address_refused(address_tried(hits, one, now, bucket), other, now, bucket)
            == address_refused(hits, other, now, bucket),
{
    let clean = kept_clean(hits, now);
    let after = address_tried(hits, one, now, bucket);
    assert(kept_clean(after, now) == after);
    let table = table_of(clean.addresses, bucket.name@);
    let next = table_of(after.addresses, bucket.name@);
    if table.tries.contains_key(other) {
        let tries = table.tries[other];
        if next.tries.contains_key(other) {
            assert(next.tries[other] == tries);
        } else {
            assert(!is_current(tries, now));
            lemma_within_of_done(tries.at, now, bucket.window);
        }
    } else {
        assert(!next.tries.contains_key(other));
    }
}

/// A bucket that admits newcomers refuses nobody for want of room.
pub proof fn signing_in_is_never_refused_for_want_of_room(
    hits: HitsView,
    who: Seq<char>,
    now: u64,
    bucket: Bucket,
)
    requires
        bucket.when_full == WhenFull::Admit,
        reception(kept_clean(hits, now), who, now, bucket).full,
    ensures
        !address_refused(hits, who, now, bucket),
{
}

/// Whether a table of addresses is within its bounds: room for so many
/// addresses, so many networks, and the one count that everybody else shares.
pub open spec fn bounded(table: TableView) -> bool {
    &&& table.tries.dom().finite()
    &&& table.tries.len() <= MAX_ADDRESSES + MAX_NETWORKS + 1
    &&& table.tries.len() > MAX_ADDRESSES + MAX_NETWORKS ==> table.tries.contains_key(
        EVERYBODY_ELSE@,
    )
}

/// Whether every table of addresses is within its bounds.
pub open spec fn all_bounded(hits: HitsView) -> bool {
    forall|bucket: Seq<char>| #[trigger]
        hits.addresses.contains_key(bucket) ==> bounded(hits.addresses[bucket])
}

proof fn lemma_swept_bounded(table: TableView, now: u64)
    requires
        bounded(table),
    ensures
        swept(table.tries, now).dom().finite(),
        swept(table.tries, now).len() <= table.tries.len(),
        swept(table.tries, now).len() > MAX_ADDRESSES + MAX_NETWORKS ==> swept(
            table.tries,
            now,
        ).contains_key(EVERYBODY_ELSE@),
{
    let left = swept(table.tries, now);
    assert(left.dom().subset_of(table.tries.dom()));
    vstd::set_lib::lemma_len_subset(left.dom(), table.tries.dom());
    if left.len() > MAX_ADDRESSES + MAX_NETWORKS && !left.contains_key(EVERYBODY_ELSE@) {
        // Then it is smaller by at least that one.
        assert(left.dom().subset_of(table.tries.dom().remove(EVERYBODY_ELSE@)));
        vstd::set_lib::lemma_len_subset(left.dom(), table.tries.dom().remove(EVERYBODY_ELSE@));
    }
}

/// A flood of made-up addresses does not grow without end: whoever tries,
/// under whatever name, the tables of addresses stay within their bounds.
pub proof fn tables_stay_bounded(hits: HitsView, who: Seq<char>, now: u64, bucket: Bucket)
    requires
        all_bounded(hits),
    ensures
        all_bounded(address_tried(hits, who, now, bucket)),
        all_bounded(member_tried(hits, who, now, bucket)),
{
    let clean = kept_clean(hits, now);
    assert forall|name: Seq<char>| #[trigger] clean.addresses.contains_key(name) implies bounded(
        clean.addresses[name],
    ) by {
        assert(hits.addresses.contains_key(name));
        lemma_swept_bounded(hits.addresses[name], now);
    }
    let table = table_of(clean.addresses, bucket.name@);
    if !clean.addresses.contains_key(bucket.name@) {
        assert(table.tries.dom() =~= Set::empty());
    }
    assert(bounded(table));
    lemma_swept_bounded(table, now);
    let at = reception(clean, who, now, bucket);
    assert(bounded(at.table));
    if at.key is Some {
        let key = at.key->Some_0;
        let tries = tries_of(at.table, key, bucket.window);
        let grown = at.table.tries.insert(key, tried(tries, now, bucket));
        assert(grown.dom() =~= at.table.tries.dom().insert(key));
        assert(bounded(TableView { tries: grown, ..at.table }));
    }
}

/// Finishing a request undoes starting it.
pub proof fn a_finished_request_leaves_nothing_over(limiter: LimiterView, key: (Uuid, Seq<char>))
    requires
        limiter.going.contains_key(key) ==> limiter.going[key] >= 1,
    ensures
        finished(started(limiter, key), key) == limiter,
{
    assert(finished(started(limiter, key), key).going =~= limiter.going);
}

/// What one account has going of one kind takes no room from another account,
/// nor from another kind.
pub proof fn requests_at_once_are_counted_apart(
    limiter: LimiterView,
    key: (Uuid, Seq<char>),
    other: (Uuid, Seq<char>),
)
    requires
        key != other,
    ensures
        going_count(started(limiter, key), other) == going_count(limiter, other),
        going_count(finished(limiter, key), other) == going_count(limiter, other),
        going_count(started(limiter, key), key) == going_count(limiter, key) + 1,
{
}

} // verus!
