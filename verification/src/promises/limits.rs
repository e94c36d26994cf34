//! How often somebody may try.

use crate::ids::{uuid_text, Uuid};
use crate::limits::{
    self, account_key, address_refused, address_tried, age, counted_as, device_key, finished,
    forgiven, going_count, is_due, is_ipv4, is_octet, kept_clean, member_refused, member_tried,
    network_of, no_hits, no_room, notes_after, notes_view, room_made, started, swept, table_of,
    taken_back, too_many, tried, tries_of, within, Bucket, HitsView, LimiterView, Note, NoteView,
    TableView, TriesView, WhenFull,
};
use crate::promises::texts::{
    a_number_reads_as_it_was_written, a_separator_parts_the_pieces,
    what_holds_no_separator_is_one_piece,
};
use crate::text;
use vstd::prelude::*;

verus! {

/// What each endpoint allows: how many tries, and in how many minutes.
pub proof fn what_is_allowed()
    ensures
        limits::accounts().max == 5 && limits::accounts().window == 60 * 60_000_000_000,
        limits::enrol().max == 10 && limits::enrol().window == 10 * 60_000_000_000,
        limits::session().max == 30 && limits::session().window == 60_000_000_000,
        limits::sign_in().max == 300 && limits::sign_in().window == 60_000_000_000,
        limits::push().max == 120 && limits::push().window == 60_000_000_000,
        limits::pull().max == 600 && limits::pull().window == 60_000_000_000,
        limits::joins().max == 10 && limits::joins().window == 10 * 60_000_000_000,
        limits::proofs().max == 10 && limits::proofs().window == 60 * 60_000_000_000,
        limits::pair().max == 60 && limits::pair().window == 10 * 60_000_000_000,
        limits::pulls().max == 4,
        limits::pushes().max == 4,
        limits::accounts().when_full == WhenFull::Coarsen,
        limits::enrol().when_full == WhenFull::Coarsen,
        limits::pair().when_full == WhenFull::Coarsen,
        limits::session().when_full == WhenFull::Admit,
        limits::sign_in().when_full == WhenFull::Admit,
{
}

/// How long ago something was, which is not at all where it is still to come.
pub proof fn how_long_ago(now: u64, moment: u64)
    ensures
        now >= moment ==> age(now, moment) == now - moment,
        now < moment ==> age(now, moment) == 0,
{
}

/// What still counts is the end of what was tried: what is gone before it is as
/// old as the window is long or older, and the first that is left is not.
pub proof fn what_still_counts(at: Seq<u64>, now: u64, window: u64) -> (k: int)
    ensures
        0 <= k <= at.len(),
        within(at, now, window) == at.skip(k),
        forall|i: int|
            0 <= i < k ==> at[i] + window <= now || (window == 0 && now < #[trigger] at[i]),
        k < at.len() ==> now < at[k] + window,
    decreases at.len(),
{
    if at.len() > 0 && age(now, at[0]) >= window {
        let k = what_still_counts(at.skip(1), now, window);
        assert(at.skip(1).skip(k) =~= at.skip(k + 1));
        assert forall|i: int| 0 <= i < k + 1 implies at[i] + window <= now || (window == 0 && now
            < #[trigger] at[i]) by {
            if i > 0 {
                assert(at.skip(1)[i - 1] == at[i]);
            }
        }
        if k + 1 < at.len() {
            assert(at.skip(1)[k] == at[k + 1]);
        }
        k + 1
    } else {
        assert(at.skip(0) =~= at);
        0
    }
}

/// A try is refused where as many still count as are allowed. One that is not
/// counts from then on, and one that is does not; of the others nothing but
/// what no longer counts is forgotten.
pub proof fn a_try_counts_where_it_is_allowed(tries: TriesView, now: u64, bucket: Bucket) -> (k:
    int)
    ensures
        0 <= k <= tries.at.len(),
        forall|i: int|
            0 <= i < k ==> tries.at[i] + bucket.window <= now || (bucket.window == 0 && now
                < #[trigger] tries.at[i]),
        k < tries.at.len() ==> now < tries.at[k] + bucket.window,
        too_many(tries, now, bucket) <==> tries.at.len() - k >= bucket.max,
        too_many(tries, now, bucket) ==> tried(tries, now, bucket).at == tries.at.skip(k) && tried(
            tries,
            now,
            bucket,
        ).said,
        !too_many(tries, now, bucket) ==> tried(tries, now, bucket).at == tries.at.skip(k).push(now)
            && !tried(tries, now, bucket).said,
        tried(tries, now, bucket).window == tries.window,
{
    what_still_counts(tries.at, now, bucket.window)
}

/// A try that is taken back is the last one, and nothing else changes.
pub proof fn a_try_is_taken_back(tries: TriesView)
    ensures
        tries.at.len() > 0 ==> forgiven(tries).at == tries.at.take(tries.at.len() - 1),
        tries.at.len() == 0 ==> forgiven(tries).at.len() == 0,
        forgiven(tries).window == tries.window,
        forgiven(tries).said == tries.said,
{
}

/// Who tries in a bucket is counted there and nowhere else: their tries are
/// those they had, with this one, and those of everybody else are what they
/// were, unless a minute went by and what no longer counts was swept away.
pub proof fn a_member_is_counted(
    hits: HitsView,
    who: Seq<char>,
    now: u64,
    bucket: Bucket,
    name: Seq<char>,
    other: Seq<char>,
)
    ensures
        ({
            let after = member_tried(hits, who, now, bucket);
            let clean = kept_clean(hits, now);
            let had = tries_of(table_of(clean.members, bucket.name@), who, bucket.window);
            &&& after.members.contains_key(bucket.name@)
            &&& after.members[bucket.name@].tries.contains_key(who)
            &&& after.members[bucket.name@].tries[who] == tried(had, now, bucket)
            &&& member_refused(hits, who, now, bucket) == too_many(had, now, bucket)
            &&& other != who ==> tries_of(
                after.members[bucket.name@],
                other,
                bucket.window,
            ) == tries_of(table_of(clean.members, bucket.name@), other, bucket.window)
            &&& name != bucket.name@ ==> table_of(after.members, name) == table_of(
                clean.members,
                name,
            )
            &&& after.addresses == clean.addresses
            &&& after.swept == clean.swept
            &&& age(now, hits.swept) < 60_000_000_000 ==> clean == hits
        }),
{
}

/// Sweeping forgets who has nothing that still counts, and only them.
pub proof fn sweeping_forgets_what_is_over(
    tries: Map<Seq<char>, TriesView>,
    now: u64,
    who: Seq<char>,
)
    ensures
        swept(tries, now).contains_key(who) <==> tries.contains_key(who) && tries[who].at.len() > 0
            && age(now, tries[who].at[tries[who].at.len() - 1]) < tries[who].window,
        swept(tries, now).contains_key(who) ==> swept(tries, now)[who] == tries[who],
{
}

/// Once a minute all tables are swept, each of them.
pub proof fn tables_are_swept_once_a_minute(hits: HitsView, now: u64, name: Seq<char>)
    ensures
        ({
            let clean = kept_clean(hits, now);
            let due = now >= hits.swept && now - hits.swept >= 60_000_000_000;
            &&& !due ==> clean == hits
            &&& due ==> clean.swept == now
            &&& clean.notes == hits.notes
            &&& clean.said_full == hits.said_full
            &&& clean.addresses.contains_key(name) == hits.addresses.contains_key(name)
            &&& clean.members.contains_key(name) == hits.members.contains_key(name)
            &&& due && hits.addresses.contains_key(name) ==> clean.addresses[name].tries == swept(
                hits.addresses[name].tries,
                now,
            )
            &&& due && hits.members.contains_key(name) ==> clean.members[name].tries == swept(
                hits.members[name].tries,
                now,
            )
        }),
{
}

/// An address is counted as itself while there is room for it: twenty thousand
/// are remembered on their own. Where there is none, it is let through
/// uncounted, or counted with its network, of which five thousand more are
/// remembered, and else with everybody else.
pub proof fn what_an_address_is_counted_as(table: TableView, who: Seq<char>)
    ensures
        table.tries.contains_key(who) || table.tries.len() < 20_000 ==> counted_as(
            table,
            who,
            WhenFull::Admit,
        ) == Some(who) && counted_as(table, who, WhenFull::Coarsen) == Some(who) && !no_room(
            table,
            who,
        ),
        !table.tries.contains_key(who) && table.tries.len() >= 20_000 ==> no_room(table, who)
            && counted_as(table, who, WhenFull::Admit) is None,
        !table.tries.contains_key(who) && table.tries.len() >= 20_000 ==> ({
            let network = network_of(who);
            &&& table.tries.contains_key(network) || table.tries.len() < 25_000 ==> counted_as(
                table,
                who,
                WhenFull::Coarsen,
            ) == Some(network)
            &&& !table.tries.contains_key(network) && table.tries.len() >= 25_000 ==> counted_as(
                table,
                who,
                WhenFull::Coarsen,
            ) == Some("everybody else"@)
        }),
{
}

/// Room is made at most once a second, by forgetting what is over.
pub proof fn room_is_made_once_a_second(table: TableView, who: Seq<char>, now: u64)
    ensures
        ({
            let due = table.swept_full is None || age(now, table.swept_full->Some_0)
                >= 1_000_000_000;
            let full = !table.tries.contains_key(who) && table.tries.len() >= 20_000;
            &&& full && due ==> room_made(table, who, now).tries == swept(table.tries, now)
                && room_made(table, who, now).swept_full == Some(now)
            &&& !(full && due) ==> room_made(table, who, now) == table
        }),
{
}

/// An address that there is room for is counted like a member is: under itself,
/// in the bucket it tries, and nowhere else.
pub proof fn an_address_is_counted(
    hits: HitsView,
    who: Seq<char>,
    now: u64,
    bucket: Bucket,
    name: Seq<char>,
    other: Seq<char>,
)
    requires
        ({
            let table = table_of(kept_clean(hits, now).addresses, bucket.name@);
            table.tries.contains_key(who) || table.tries.len() < 20_000
        }),
    ensures
        ({
            let after = address_tried(hits, who, now, bucket);
            let clean = kept_clean(hits, now);
            let had = tries_of(table_of(clean.addresses, bucket.name@), who, bucket.window);
            &&& after.addresses.contains_key(bucket.name@)
            &&& after.addresses[bucket.name@].tries.contains_key(who)
            &&& after.addresses[bucket.name@].tries[who] == tried(had, now, bucket)
            &&& address_refused(hits, who, now, bucket) == too_many(had, now, bucket)
            &&& other != who ==> tries_of(
                after.addresses[bucket.name@],
                other,
                bucket.window,
            ) == tries_of(table_of(clean.addresses, bucket.name@), other, bucket.window)
            &&& name != bucket.name@ ==> table_of(after.addresses, name) == table_of(
                clean.addresses,
                name,
            )
            &&& after.members == clean.members
            &&& after.said_full == clean.said_full
        }),
{
}

/// An address without room in a bucket that lets strangers through is never
/// refused; in one that does not it is counted with others, under what it is
/// counted as.
pub proof fn an_address_without_room(hits: HitsView, who: Seq<char>, now: u64, bucket: Bucket)
    ensures
        ({
            let table = room_made(
                table_of(kept_clean(hits, now).addresses, bucket.name@),
                who,
                now,
            );
            let key = counted_as(table, who, bucket.when_full);
            &&& key is None ==> !address_refused(hits, who, now, bucket)
            &&& key is None ==> table_of(
                address_tried(hits, who, now, bucket).addresses,
                bucket.name@,
            ) == table
            &&& key is Some ==> address_refused(hits, who, now, bucket) == too_many(
                tries_of(table, key->Some_0, bucket.window),
                now,
                bucket,
            )
            &&& key is Some ==> table_of(
                address_tried(hits, who, now, bucket).addresses,
                bucket.name@,
            ).tries == table.tries.insert(
                key->Some_0,
                tried(tries_of(table, key->Some_0, bucket.window), now, bucket),
            )
        }),
{
}

/// Nobody is counted in a bucket before they try there.
pub proof fn nobody_is_counted_before_they_try(who: Seq<char>, now: u64, bucket: Bucket)
    requires
        bucket.max > 0,
    ensures
        !member_refused(no_hits(), who, now, bucket),
        !address_refused(no_hits(), who, now, bucket),
        tries_of(table_of(no_hits().members, bucket.name@), who, bucket.window).at.len() == 0,
        tries_of(table_of(no_hits().members, bucket.name@), who, bucket.window).window
            == bucket.window,
        no_hits().notes.len() == 0,
{
}

/// What is taken back is taken back of who it was counted for, in that bucket,
/// and of nobody else.
pub proof fn what_is_taken_back(
    tables: Map<Seq<char>, TableView>,
    who: Seq<char>,
    bucket: Seq<char>,
    name: Seq<char>,
    other: Seq<char>,
    window: u64,
)
    ensures
        ({
            let after = taken_back(tables, who, bucket);
            let had = tables.contains_key(bucket) && tables[bucket].tries.contains_key(who);
            &&& had ==> after[bucket].tries[who] == forgiven(tables[bucket].tries[who])
            &&& !had ==> after == tables
            &&& name != bucket ==> table_of(after, name) == table_of(tables, name)
            &&& other != who ==> tries_of(table_of(after, bucket), other, window) == tries_of(
                table_of(tables, bucket),
                other,
                window,
            )
            &&& table_of(after, bucket).swept_full == table_of(tables, bucket).swept_full
        }),
{
}

/// Of who is refused a note is taken once, until they are let through again.
pub proof fn a_refusal_is_noted_once(
    notes: Seq<NoteView>,
    tries: TriesView,
    who: Seq<char>,
    now: u64,
    bucket: Bucket,
)
    ensures
        too_many(tries, now, bucket) && !tries.said ==> notes_after(
            notes,
            tries,
            who,
            now,
            bucket,
        ) == notes.push(NoteView::Refused { who, bucket: bucket.name@ }),
        !too_many(tries, now, bucket) || tries.said ==> notes_after(notes, tries, who, now, bucket)
            == notes,
{
}

/// Something is due that was never done, or that was done as long ago as it may
/// be.
pub proof fn what_is_due(now: u64, last: u64, every: u64)
    ensures
        is_due(now, None, every),
        is_due(now, Some(last), every) <==> age(now, last) >= every,
{
}

/// What is noted is who and where.
pub proof fn notes_say_who_and_where(notes: Seq<Note>, i: int)
    requires
        0 <= i < notes.len(),
    ensures
        notes_view(notes).len() == notes.len(),
        notes[i] matches Note::Full { bucket } ==> notes_view(notes)[i] == (NoteView::Full {
            bucket: bucket@,
        }),
        notes[i] matches Note::Refused { who, bucket } ==> notes_view(notes)[i]
            == (NoteView::Refused { who: who@, bucket: bucket@ }),
{
}

/// What goes on at once is counted up when it starts and down when it is done,
/// for each account and each kind on its own.
pub proof fn what_goes_on_is_counted(
    limiter: LimiterView,
    key: (Uuid, Seq<char>),
    other: (Uuid, Seq<char>),
)
    ensures
        going_count(started(limiter, key), key) == going_count(limiter, key) + 1,
        going_count(limiter, key) > 0 ==> going_count(finished(limiter, key), key) == going_count(
            limiter,
            key,
        ) - 1,
        going_count(limiter, key) == 0 ==> going_count(finished(limiter, key), key) == 0,
        other != key ==> going_count(started(limiter, key), other) == going_count(limiter, other),
        other != key ==> going_count(finished(limiter, key), other) == going_count(limiter, other),
        started(limiter, key).hits == limiter.hits,
        finished(limiter, key).hits == limiter.hits,
{
}

/// An account and a device are counted under their names.
pub proof fn members_are_counted_under_their_names(id: Uuid)
    ensures
        account_key(id) == "account:"@ + uuid_text(id),
        device_key(id) == "device:"@ + uuid_text(id),
{
}

/// A number of an address is one of the 256 that there are, written without a
/// nought in front.
pub proof fn a_number_of_an_address(n: nat, piece: Seq<char>)
    ensures
        n <= 255 ==> is_octet(text::decimal_text(n)),
        n > 255 ==> !is_octet(text::decimal_text(n)),
        piece.len() == 0 ==> !is_octet(piece),
        is_octet(piece) ==> text::natural(piece) is Some && text::natural(piece)->Some_0 <= 255,
        is_octet(seq!['0'] + piece) ==> piece.len() == 0,
{
    a_number_reads_as_it_was_written(n);
    if n < 10 {
        assert(text::decimal_text(n).len() == 1);
    }
    assert((seq!['0'] + piece)[0] == '0');
}

/// The network of an address of four numbers is the first three of them.
pub proof fn the_network_of_four_numbers(a: Seq<char>, b: Seq<char>, c: Seq<char>, d: Seq<char>)
    requires
        is_octet(a),
        is_octet(b),
        is_octet(c),
        is_octet(d),
    ensures
        network_of(a + seq!['.'] + (b + seq!['.'] + (c + seq!['.'] + d))) == a + "."@ + b + "."@ + c
            + ".0/24"@,
{
    lemma_no_dot(a);
    lemma_no_dot(b);
    lemma_no_dot(c);
    lemma_no_dot(d);
    what_holds_no_separator_is_one_piece(a, '.');
    what_holds_no_separator_is_one_piece(b, '.');
    what_holds_no_separator_is_one_piece(c, '.');
    what_holds_no_separator_is_one_piece(d, '.');
    let cd = c + seq!['.'] + d;
    let bcd = b + seq!['.'] + cd;
    a_separator_parts_the_pieces(c, '.', d);
    a_separator_parts_the_pieces(b, '.', cd);
    a_separator_parts_the_pieces(a, '.', bcd);
    let pieces = text::split(a + seq!['.'] + bcd, '.');
    assert(pieces =~= seq![a, b, c, d]);
    assert(is_ipv4(pieces));
}

proof fn lemma_no_dot(piece: Seq<char>)
    requires
        is_octet(piece),
    ensures
        !piece.contains('.'),
{
    if piece.contains('.') {
        let i = choose|i: int| 0 <= i < piece.len() && piece[i] == '.';
        assert(text::is_digit(piece[i]));
    }
}

/// The network of an address of eight, which is counted by its first four, is
/// the first three of those.
pub proof fn the_network_of_four_of_eight(a: Seq<char>, b: Seq<char>, c: Seq<char>, d: Seq<char>)
    requires
        !a.contains(':') && !a.contains('.'),
        !b.contains(':') && !b.contains('.'),
        !c.contains(':') && !c.contains('.'),
        !d.contains(':') && !d.contains('.'),
    ensures
        network_of(a + seq![':'] + (b + seq![':'] + (c + seq![':'] + d)) + "::/64"@) == a + ":"@ + b
            + ":"@ + c + "::/48"@,
{
    reveal_strlit("::/64");
    let cd = c + seq![':'] + d;
    let bcd = b + seq![':'] + cd;
    let four = a + seq![':'] + bcd;
    let who = four + "::/64"@;
    assert(who.take(who.len() - "::/64"@.len()) =~= four);
    assert(who.skip(who.len() - "::/64"@.len()) =~= "::/64"@);
    what_holds_no_separator_is_one_piece(a, ':');
    what_holds_no_separator_is_one_piece(b, ':');
    what_holds_no_separator_is_one_piece(c, ':');
    what_holds_no_separator_is_one_piece(d, ':');
    a_separator_parts_the_pieces(c, ':', d);
    a_separator_parts_the_pieces(b, ':', cd);
    a_separator_parts_the_pieces(a, ':', bcd);
    assert(text::split(four, ':') =~= seq![a, b, c, d]);
    assert(!who.contains('.')) by {
        if who.contains('.') {
            let i = choose|i: int| 0 <= i < who.len() && who[i] == '.';
            let (l, m, n) = (a.len() as int, b.len() as int, c.len() as int);
            if i < l {
                assert(a[i] == '.');
            } else if l < i < l + 1 + m {
                assert(b[i - l - 1] == '.');
            } else if l + 1 + m < i < l + m + n + 2 {
                assert(c[i - l - m - 2] == '.');
            } else if l + m + n + 2 < i < l + m + n + 3 + d.len() {
                assert(d[i - l - m - n - 3] == '.');
            }
        }
    }
    what_holds_no_separator_is_one_piece(who, '.');
}

/// Whatever is no address is counted with everybody else.
pub proof fn whatever_is_no_address_is_with_everybody_else(who: Seq<char>)
    requires
        !is_ipv4(text::split(who, '.')),
        !text::ends_with(who, "::/64"@),
    ensures
        network_of(who) == "everybody else"@,
{
}

/// What is noted of a try: that the table is full, once a minute, and that
/// somebody was refused, once until they are let through.
pub proof fn what_is_noted_of_a_try(hits: HitsView, who: Seq<char>, now: u64, bucket: Bucket)
    ensures
        ({
            let clean = kept_clean(hits, now);
            let had = tries_of(table_of(clean.members, bucket.name@), who, bucket.window);
            let after = member_tried(hits, who, now, bucket);
            &&& too_many(had, now, bucket) && !had.said ==> after.notes == clean.notes.push(
                NoteView::Refused { who, bucket: bucket.name@ },
            )
            &&& !too_many(had, now, bucket) || had.said ==> after.notes == clean.notes
            &&& after.said_full == clean.said_full
        }),
        ({
            let clean = kept_clean(hits, now);
            let table = room_made(table_of(clean.addresses, bucket.name@), who, now);
            let full = no_room(table, who);
            let due = clean.said_full is None || age(now, clean.said_full->Some_0)
                >= 60_000_000_000;
            let key = counted_as(table, who, bucket.when_full);
            let told = if full && due {
                clean.notes.push(NoteView::Full { bucket: bucket.name@ })
            } else {
                clean.notes
            };
            let after = address_tried(hits, who, now, bucket);
            &&& full && due ==> after.said_full == Some(now)
            &&& !(full && due) ==> after.said_full == clean.said_full
            &&& key is None ==> after.notes == told
            &&& key is Some ==> after.notes == notes_after(
                told,
                tries_of(table, key->Some_0, bucket.window),
                who,
                now,
                bucket,
            )
            &&& after.members == clean.members
            &&& after.swept == clean.swept
        }),
{
}

} // verus!
