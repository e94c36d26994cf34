//! What holds of the limiter over time, whoever calls it.

use crate::limit_laws::{lemma_within_is_a_suffix, rising};
use crate::limits::{
    address_refused, address_tried, age, forgiven, is_current, kept_clean, member_refused,
    member_tried, no_hits, no_tries, reception, table_of, taken_back, too_many, tried, tries_of,
    within, Bucket, HitsView, TriesView, MAX_ADDRESSES,
};
use vstd::prelude::*;

verus! {

/// Something that is asked of a limiter. `address` says whether it is about an
/// address, or about an account or a device.
pub enum Call {
    /// A try is counted at a moment.
    Try { address: bool, who: Seq<char>, bucket: Bucket, now: u64 },
    /// The last try is taken back.
    Forgive { address: bool, who: Seq<char>, bucket: Bucket },
}

/// The limiter after a call.
pub open spec fn called(hits: HitsView, call: Call) -> HitsView {
    match call {
        Call::Try { address, who, bucket, now } => if address {
            address_tried(hits, who, now, bucket)
        } else {
            member_tried(hits, who, now, bucket)
        },
        Call::Forgive { address, who, bucket } => if address {
            HitsView { addresses: taken_back(hits.addresses, who, bucket.name@), ..hits }
        } else {
            HitsView { members: taken_back(hits.members, who, bucket.name@), ..hits }
        },
    }
}

/// A new limiter after these calls, one after the other.
pub open spec fn hits_after(calls: Seq<Call>) -> HitsView
    decreases calls.len(),
{
    if calls.len() == 0 {
        no_hits()
    } else {
        called(hits_after(calls.drop_last()), calls.last())
    }
}

/// Whether a try is refused.
pub open spec fn is_refused(
    hits: HitsView,
    address: bool,
    who: Seq<char>,
    now: u64,
    bucket: Bucket,
) -> bool {
    if address {
        address_refused(hits, who, now, bucket)
    } else {
        member_refused(hits, who, now, bucket)
    }
}

/// The moments at which somebody's tries in a bucket were admitted, without
/// those that were taken back: taking back takes the latest.
pub open spec fn counted_tries(
    calls: Seq<Call>,
    address: bool,
    who: Seq<char>,
    bucket: Seq<char>,
) -> Seq<u64>
    decreases calls.len(),
{
    if calls.len() == 0 {
        Seq::empty()
    } else {
        let rest = calls.drop_last();
        let before = counted_tries(rest, address, who, bucket);
        match calls.last() {
            Call::Try { address: kind, who: other, bucket: tried_in, now } => if kind == address
                && other == who && tried_in.name@ == bucket && !is_refused(
                hits_after(rest),
                kind,
                other,
                now,
                tried_in,
            ) {
                before.push(now)
            } else {
                before
            },
            Call::Forgive { address: kind, who: other, bucket: tried_in } => if kind == address
                && other == who && tried_in.name@ == bucket && before.len() > 0 {
                before.drop_last()
            } else {
                before
            },
        }
    }
}

/// How many of these moments are less than a window ago.
pub open spec fn in_window(at: Seq<u64>, now: u64, window: u64) -> nat
    decreases at.len(),
{
    if at.len() == 0 {
        0
    } else {
        in_window(at.drop_last(), now, window) + if age(now, at.last()) < window {
            1nat
        } else {
            0
        }
    }
}

/// When the last try was.
pub open spec fn last_time(calls: Seq<Call>) -> u64
    decreases calls.len(),
{
    if calls.len() == 0 {
        0
    } else {
        match calls.last() {
            Call::Try { now, .. } => now,
            Call::Forgive { .. } => last_time(calls.drop_last()),
        }
    }
}

/// Whether the clock only went forward.
pub open spec fn in_time(calls: Seq<Call>) -> bool
    decreases calls.len(),
{
    calls.len() > 0 ==> in_time(calls.drop_last()) && match calls.last() {
        Call::Try { now, .. } => last_time(calls.drop_last()) <= now,
        Call::Forgive { .. } => true,
    }
}

/// Whether a bucket always had the same window.
pub open spec fn one_window(calls: Seq<Call>, bucket: Seq<char>, window: u64) -> bool
    decreases calls.len(),
{
    calls.len() > 0 ==> one_window(calls.drop_last(), bucket, window) && match calls.last() {
        Call::Try { bucket: tried_in, .. } => tried_in.name@ == bucket ==> tried_in.window
            == window,
        Call::Forgive { .. } => true,
    }
}

/// Whether a try in a bucket is counted for an address exactly where it is that
/// address that tries: as it is where the table of the bucket has room or knows
/// who tries already.
pub open spec fn is_own(
    hits: HitsView,
    other: Seq<char>,
    now: u64,
    bucket: Bucket,
    who: Seq<char>,
) -> bool {
    reception(kept_clean(hits, now), other, now, bucket).key == Some(who) <==> other == who
}

/// Whether that always was so.
pub open spec fn always_own(calls: Seq<Call>, who: Seq<char>, bucket: Seq<char>) -> bool
    decreases calls.len(),
{
    calls.len() > 0 ==> always_own(calls.drop_last(), who, bucket) && match calls.last() {
        Call::Try { address, who: other, bucket: tried_in, now } => address && tried_in.name@
            == bucket ==> is_own(hits_after(calls.drop_last()), other, now, tried_in, who),
        Call::Forgive { .. } => true,
    }
}

/// What a limiter remembers of somebody's tries in a bucket.
spec fn remembered(
    hits: HitsView,
    address: bool,
    who: Seq<char>,
    bucket: Seq<char>,
    window: u64,
) -> TriesView {
    let tables = if address {
        hits.addresses
    } else {
        hits.members
    };
    tries_of(table_of(tables, bucket), who, window)
}

/// Whether tries are the end of all that count, and all that are missing have
/// left the window.
spec fn are_the_end(tries: TriesView, all: Seq<u64>, time: u64, window: u64) -> bool {
    &&& tries.window == window
    &&& tries.at.len() <= all.len()
    &&& tries.at == all.skip(all.len() - tries.at.len())
    &&& rising(all)
    &&& all.len() > 0 ==> all.last() <= time
    &&& forall|i: int|
        0 <= i < all.len() - tries.at.len() ==> age(time, #[trigger] all[i]) >= window
}

/// Tries that are kept, or forgotten because the last of them is over.
spec fn kept_or_done(tries: TriesView, left: TriesView, now: u64, window: u64) -> bool {
    left == tries || (left == no_tries(window) && !is_current(tries, now))
}

proof fn lemma_kept_or_done(
    tries: TriesView,
    left: TriesView,
    all: Seq<u64>,
    time: u64,
    now: u64,
    window: u64,
)
    requires
        are_the_end(tries, all, time, window),
        time <= now,
        kept_or_done(tries, left, now, window),
    ensures
        are_the_end(left, all, now, window),
{
    let shift = all.len() - tries.at.len();
    assert forall|i: int| 0 <= i < all.len() - left.at.len() implies age(now, #[trigger] all[i])
        >= window by {
        if i < shift {
            assert(age(time, all[i]) >= window);
        } else {
            assert(tries.at[i - shift] == all[i]);
            assert(tries.at.last() == all.last());
            assert(all[i] <= all.last());
        }
    }
    if left != tries {
        assert(left.at =~= all.skip(all.len() as int));
    }
}

proof fn lemma_in_window_of_none(at: Seq<u64>, now: u64, window: u64)
    requires
        forall|i: int| 0 <= i < at.len() ==> age(now, #[trigger] at[i]) >= window,
    ensures
        in_window(at, now, window) == 0,
    decreases at.len(),
{
    if at.len() > 0 {
        assert forall|i: int| 0 <= i < at.drop_last().len() implies age(
            now,
            #[trigger] at.drop_last()[i],
        ) >= window by {
            assert(at.drop_last()[i] == at[i]);
        }
        lemma_in_window_of_none(at.drop_last(), now, window);
    }
}

proof fn lemma_in_window_splits(a: Seq<u64>, b: Seq<u64>, now: u64, window: u64)
    ensures
        in_window(a + b, now, window) == in_window(a, now, window) + in_window(b, now, window),
    decreases b.len(),
{
    if b.len() == 0 {
        assert(a + b =~= a);
    } else {
        assert((a + b).drop_last() =~= a + b.drop_last());
        lemma_in_window_splits(a, b.drop_last(), now, window);
    }
}

/// What is left of tries in order is what is in the window.
proof fn lemma_within_counts(at: Seq<u64>, now: u64, window: u64)
    requires
        rising(at),
    ensures
        within(at, now, window).len() == in_window(at, now, window),
    decreases at.len(),
{
    if at.len() > 0 {
        let first = at.take(1);
        let rest = at.skip(1);
        assert(first + rest =~= at);
        lemma_in_window_splits(first, rest, now, window);
        assert(first.drop_last().len() == 0 && first.last() == at[0]);
        assert(in_window(first.drop_last(), now, window) == 0);
        assert(in_window(first, now, window) == if age(now, at[0]) < window {
            1nat
        } else {
            0
        });
        assert(rising(rest)) by {
            assert forall|i: int, j: int| 0 <= i < j < rest.len() implies #[trigger] rest[i]
                <= #[trigger] rest[j] by {
                assert(at[i + 1] <= at[j + 1]);
            }
        }
        if age(now, at[0]) >= window {
            lemma_within_counts(rest, now, window);
        } else {
            lemma_all_in_window(at, now, window);
        }
    }
}

proof fn lemma_all_in_window(at: Seq<u64>, now: u64, window: u64)
    requires
        rising(at),
        at.len() > 0,
        age(now, at[0]) < window,
    ensures
        in_window(at, now, window) == at.len(),
    decreases at.len(),
{
    let rest = at.drop_last();
    assert(at[0] <= at.last() || at.len() == 1);
    if rest.len() > 0 {
        assert(rest[0] == at[0]);
        assert(rising(rest)) by {
            assert forall|i: int, j: int| 0 <= i < j < rest.len() implies #[trigger] rest[i]
                <= #[trigger] rest[j] by {
                assert(at[i] <= at[j]);
            }
        }
        lemma_all_in_window(rest, now, window);
    } else {
        assert(in_window(rest, now, window) == 0);
    }
}

/// A try is one too many exactly where as many as may be are in the window, and
/// counts from then on where it is not.
proof fn lemma_tried(tries: TriesView, all: Seq<u64>, now: u64, bucket: Bucket)
    requires
        are_the_end(tries, all, now, bucket.window),
    ensures
        too_many(tries, now, bucket) <==> in_window(all, now, bucket.window) >= bucket.max,
        are_the_end(
            tried(tries, now, bucket),
            if too_many(tries, now, bucket) {
                all
            } else {
                all.push(now)
            },
            now,
            bucket.window,
        ),
{
    let window = bucket.window;
    let shift = all.len() - tries.at.len();
    assert(all.take(shift) + tries.at =~= all);
    lemma_in_window_splits(all.take(shift), tries.at, now, window);
    lemma_in_window_of_none(all.take(shift), now, window);
    assert(rising(tries.at)) by {
        assert forall|i: int, j: int| 0 <= i < j < tries.at.len() implies #[trigger] tries.at[i]
            <= #[trigger] tries.at[j] by {
            assert(all[i + shift] <= all[j + shift]);
        }
    }
    lemma_within_counts(tries.at, now, window);
    let dropped = lemma_within_is_a_suffix(tries.at, now, window);
    let kept = within(tries.at, now, window);
    assert(kept =~= all.skip(shift + dropped));
    assert forall|i: int| 0 <= i < shift + dropped implies age(now, #[trigger] all[i])
        >= window by {
        if i >= shift {
            assert(tries.at[i - shift] == all[i]);
        }
    }
    if !too_many(tries, now, bucket) {
        let next = all.push(now);
        assert(kept.push(now) =~= next.skip(next.len() - kept.len() - 1));
        assert forall|i: int, j: int| 0 <= i < j < next.len() implies #[trigger] next[i]
            <= #[trigger] next[j] by {
            if j == all.len() {
                assert(all[i] <= all.last());
            }
        }
        assert forall|i: int| 0 <= i < next.len() - kept.len() - 1 implies age(
            now,
            #[trigger] next[i],
        ) >= window by {
            assert(next[i] == all[i]);
        }
    }
}

proof fn lemma_forgiven(tries: TriesView, all: Seq<u64>, time: u64, window: u64)
    requires
        are_the_end(tries, all, time, window),
    ensures
        are_the_end(
            forgiven(tries),
            if all.len() > 0 {
                all.drop_last()
            } else {
                all
            },
            time,
            window,
        ),
{
    if all.len() > 0 {
        let rest = all.drop_last();
        let left = forgiven(tries);
        assert(left.at =~= rest.skip(rest.len() - left.at.len()));
        if rest.len() > 0 {
            assert(all[rest.len() - 1] <= all[rest.len() as int]);
        }
        assert forall|i: int| 0 <= i < rest.len() - left.at.len() implies age(
            time,
            #[trigger] rest[i],
        ) >= window by {
            assert(rest[i] == all[i]);
        }
        assert forall|i: int, j: int| 0 <= i < j < rest.len() implies #[trigger] rest[i]
            <= #[trigger] rest[j] by {
            assert(all[i] <= all[j]);
        }
    }
}

proof fn lemma_kept_clean(
    hits: HitsView,
    now: u64,
    address: bool,
    who: Seq<char>,
    bucket: Seq<char>,
    window: u64,
)
    ensures
        kept_or_done(
            remembered(hits, address, who, bucket, window),
            remembered(kept_clean(hits, now), address, who, bucket, window),
            now,
            window,
        ),
{
}

/// A try changes what is remembered of whoever tries, and of nobody else but
/// to forget who is done.
proof fn lemma_try(
    hits: HitsView,
    call: Call,
    address: bool,
    who: Seq<char>,
    bucket: Seq<char>,
    window: u64,
)
    requires
        call matches Call::Try { address: kind, who: other, bucket: tried_in, now } ==> {
            &&& kind && tried_in.name@ == bucket ==> is_own(hits, other, now, tried_in, who)
                || !address
            &&& tried_in.name@ == bucket ==> tried_in.window == window
        },
        call is Try,
    ensures
        call matches Call::Try { address: kind, who: other, bucket: tried_in, now } ==> ({
            let before = remembered(hits, address, who, bucket, window);
            let after = remembered(called(hits, call), address, who, bucket, window);
            if kind == address && other == who && tried_in.name@ == bucket {
                exists|kept: TriesView|
                    kept_or_done(before, kept, now, window) && after == #[trigger] tried(
                        kept,
                        now,
                        tried_in,
                    ) && is_refused(hits, kind, other, now, tried_in) == too_many(
                        kept,
                        now,
                        tried_in,
                    )
            } else {
                kept_or_done(before, after, now, window)
            }
        }),
{
    if let Call::Try { address: kind, who: other, bucket: tried_in, now } = call {
        let clean = kept_clean(hits, now);
        lemma_kept_clean(hits, now, address, who, bucket, window);
        let before = remembered(hits, address, who, bucket, window);
        let kept = remembered(clean, address, who, bucket, window);
        if kind && address && tried_in.name@ == bucket {
            let at = reception(clean, other, now, tried_in);
            let table = table_of(clean.addresses, bucket);
            let left = tries_of(at.table, who, window);
            assert(kept_or_done(kept, left, now, window));
            assert(kept_or_done(before, left, now, window));
            if other == who {
                assert(at.key == Some(who));
                assert(remembered(called(hits, call), address, who, bucket, window) == tried(
                    left,
                    now,
                    tried_in,
                ));
            }
        } else if kind == address && other == who && tried_in.name@ == bucket {
            assert(remembered(called(hits, call), address, who, bucket, window) == tried(
                kept,
                now,
                tried_in,
            ));
        }
    }
}

proof fn lemma_remembers(
    calls: Seq<Call>,
    address: bool,
    who: Seq<char>,
    bucket: Seq<char>,
    window: u64,
)
    requires
        in_time(calls),
        one_window(calls, bucket, window),
        address ==> always_own(calls, who, bucket),
    ensures
        are_the_end(
            remembered(hits_after(calls), address, who, bucket, window),
            counted_tries(calls, address, who, bucket),
            last_time(calls),
            window,
        ),
    decreases calls.len(),
{
    if calls.len() == 0 {
        assert(remembered(hits_after(calls), address, who, bucket, window).at =~= counted_tries(
            calls,
            address,
            who,
            bucket,
        ).skip(0));
    } else {
        let rest = calls.drop_last();
        lemma_remembers(rest, address, who, bucket, window);
        let hits = hits_after(rest);
        let all = counted_tries(rest, address, who, bucket);
        let before = remembered(hits, address, who, bucket, window);
        let time = last_time(rest);
        match calls.last() {
            Call::Try { address: kind, who: other, bucket: tried_in, now } => {
                lemma_try(hits, calls.last(), address, who, bucket, window);
                let after = remembered(hits_after(calls), address, who, bucket, window);
                if kind == address && other == who && tried_in.name@ == bucket {
                    let kept = choose|kept: TriesView|
                        kept_or_done(before, kept, now, window) && after == #[trigger] tried(
                            kept,
                            now,
                            tried_in,
                        ) && is_refused(hits, kind, other, now, tried_in) == too_many(
                            kept,
                            now,
                            tried_in,
                        );
                    lemma_kept_or_done(before, kept, all, time, now, window);
                    lemma_tried(kept, all, now, tried_in);
                } else {
                    lemma_kept_or_done(before, after, all, time, now, window);
                }
            },
            Call::Forgive { address: kind, who: other, bucket: tried_in } => {
                if kind == address && other == who && tried_in.name@ == bucket {
                    lemma_forgiven(before, all, time, window);
                    assert(remembered(hits_after(calls), address, who, bucket, window) == forgiven(
                        before,
                    ));
                }
            },
        }
    }
}

/// A try is refused exactly where as many admitted tries as may be lie within
/// its window. Whatever was asked of the limiter before, by whomever: what
/// counts are the tries of the same address, account or device in the same
/// bucket that were admitted and not taken back; a refused one does not, so it
/// never prolongs the refusal.
pub proof fn a_try_is_refused_exactly_when_the_window_is_full(
    calls: Seq<Call>,
    address: bool,
    who: Seq<char>,
    now: u64,
    bucket: Bucket,
)
    requires
        in_time(calls),
        last_time(calls) <= now,
        one_window(calls, bucket.name@, bucket.window),
        address ==> always_own(calls, who, bucket.name@) && is_own(
            hits_after(calls),
            who,
            now,
            bucket,
            who,
        ),
    ensures
        is_refused(hits_after(calls), address, who, now, bucket) <==> in_window(
            counted_tries(calls, address, who, bucket.name@),
            now,
            bucket.window,
        ) >= bucket.max,
{
    let hits = hits_after(calls);
    let all = counted_tries(calls, address, who, bucket.name@);
    let before = remembered(hits, address, who, bucket.name@, bucket.window);
    let call = Call::Try { address, who, bucket, now };
    lemma_remembers(calls, address, who, bucket.name@, bucket.window);
    lemma_try(hits, call, address, who, bucket.name@, bucket.window);
    let kept = choose|kept: TriesView|
        kept_or_done(before, kept, now, bucket.window) && remembered(
            called(hits, call),
            address,
            who,
            bucket.name@,
            bucket.window,
        ) == #[trigger] tried(kept, now, bucket) && is_refused(hits, address, who, now, bucket)
            == too_many(kept, now, bucket);
    lemma_kept_or_done(before, kept, all, last_time(calls), now, bucket.window);
    lemma_tried(kept, all, now, bucket);
}

/// An address has a count of its own where the table of its bucket knows it
/// already or has room.
pub proof fn room_gives_a_count_of_ones_own(
    hits: HitsView,
    who: Seq<char>,
    now: u64,
    bucket: Bucket,
)
    requires
        ({
            let table = table_of(kept_clean(hits, now).addresses, bucket.name@);
            table.tries.contains_key(who) || table.tries.len() < MAX_ADDRESSES
        }),
    ensures
        is_own(hits, who, now, bucket, who),
{
}

} // verus!
