//! Which version is the newer one, and what is told of it.

use crate::promises::texts::{
    a_separator_parts_the_pieces, the_first_difference_decides,
    what_holds_no_separator_is_one_piece,
};
use crate::text;
use crate::text::precedes;
use crate::updates::{
    first_dash, is_update, key_of, keys_order, newest_of, number_order, numbers_in, numbers_order,
    part_number, part_order, parts_order, plain_version, text_order, turned, versions_order,
    without_start, Channel, GitHubRelease, Key, Order,
};
use vstd::prelude::*;

verus! {

/// The larger of two numbers is the greater.
pub proof fn numbers_by_size(a: int, b: int)
    ensures
        number_order(a, b) == Order::Less <==> a < b,
        number_order(a, b) == Order::Equal <==> a == b,
        number_order(a, b) == Order::Greater <==> a > b,
        turned(Order::Less) == Order::Greater,
        turned(Order::Equal) == Order::Equal,
        turned(Order::Greater) == Order::Less,
{
}

/// Of two lists of numbers that begin alike, for however many numbers, the one
/// is greater whose next number is greater; one that is the beginning of the
/// other is less.
pub proof fn the_first_number_that_differs_decides(a: Seq<u64>, b: Seq<u64>, k: int)
    requires
        0 <= k <= a.len(),
        k <= b.len(),
        forall|i: int| 0 <= i < k ==> #[trigger] a[i] == b[i],
    ensures
        k < a.len() && k < b.len() && a[k] > b[k] ==> numbers_order(a, b) == Order::Greater
            && numbers_order(b, a) == Order::Less,
        k < a.len() && k < b.len() && a[k] < b[k] ==> numbers_order(a, b) == Order::Less
            && numbers_order(b, a) == Order::Greater,
        k == b.len() && k < a.len() ==> numbers_order(a, b) == Order::Greater && numbers_order(b, a)
            == Order::Less,
        k == a.len() && k < b.len() ==> numbers_order(a, b) == Order::Less && numbers_order(b, a)
            == Order::Greater,
        k == a.len() && k == b.len() ==> numbers_order(a, b) == Order::Equal,
    decreases k,
{
    if k > 0 {
        let (s, t) = (a.skip(1), b.skip(1));
        assert(a[0] == b[0]);
        assert forall|i: int| 0 <= i < k - 1 implies #[trigger] s[i] == t[i] by {
            assert(a[i + 1] == b[i + 1]);
        }
        the_first_number_that_differs_decides(s, t, k - 1);
        if k < a.len() {
            assert(s[k - 1] == a[k]);
        }
        if k < b.len() {
            assert(t[k - 1] == b[k]);
        }
    }
}

/// Parts of a pre-release are compared as numbers where both are, and else as
/// texts.
pub proof fn parts_by_number_or_by_letter(a: Seq<char>, b: Seq<char>)
    ensures
        text_order(a, b) == Order::Less <==> precedes(a, b),
        precedes(b, a) ==> text_order(a, b) == Order::Greater,
        a == b ==> text_order(a, b) == Order::Equal,
        part_number(a) is Some <==> text::unsigned(a) is Some && text::unsigned(a)->Some_0
            <= u64::MAX,
        part_number(a) is Some ==> part_number(a) == text::unsigned(a),
        part_number(a) is Some && part_number(b) is Some ==> {
            &&& part_order(a, b) == Order::Less <==> part_number(a)->Some_0 < part_number(b)->Some_0
            &&& part_order(a, b) == Order::Greater <==> part_number(a)->Some_0 > part_number(
                b,
            )->Some_0
            &&& part_order(a, b) == Order::Equal <==> part_number(a) == part_number(b)
        },
        part_number(a) is None || part_number(b) is None ==> part_order(a, b) == text_order(a, b),
{
    if a == b {
        the_first_difference_decides(a, b, a.len() as int);
    }
    if precedes(b, a) && precedes(a, b) {
        lemma_no_two_ways(a, b);
    }
}

proof fn lemma_no_two_ways(a: Seq<char>, b: Seq<char>)
    ensures
        !(precedes(a, b) && precedes(b, a)),
    decreases a.len(),
{
    if a.len() > 0 && b.len() > 0 && a[0] == b[0] {
        lemma_no_two_ways(a.skip(1), b.skip(1));
    }
}

/// Of two pre-releases that begin alike, for however many parts, the one is
/// greater whose next part is greater; one that is the beginning of the other
/// is less.
pub proof fn the_first_part_that_differs_decides(a: Seq<Seq<char>>, b: Seq<Seq<char>>, k: int)
    requires
        0 <= k <= a.len(),
        k <= b.len(),
        forall|i: int| 0 <= i < k ==> part_order(#[trigger] a[i], b[i]) == Order::Equal,
    ensures
        k < a.len() && k < b.len() && part_order(a[k], b[k]) == Order::Greater ==> parts_order(a, b)
            == Order::Greater,
        k < a.len() && k < b.len() && part_order(a[k], b[k]) == Order::Less ==> parts_order(a, b)
            == Order::Less,
        k == b.len() && k < a.len() ==> parts_order(a, b) == Order::Greater,
        k == a.len() && k < b.len() ==> parts_order(a, b) == Order::Less,
        k == a.len() && k == b.len() ==> parts_order(a, b) == Order::Equal,
    decreases k,
{
    if k > 0 {
        let (s, t) = (a.skip(1), b.skip(1));
        assert(part_order(a[0], b[0]) == Order::Equal);
        assert forall|i: int| 0 <= i < k - 1 implies part_order(#[trigger] s[i], t[i])
            == Order::Equal by {
            assert(part_order(a[i + 1], b[i + 1]) == Order::Equal);
        }
        the_first_part_that_differs_decides(s, t, k - 1);
        if k < a.len() {
            assert(s[k - 1] == a[k]);
        }
        if k < b.len() {
            assert(t[k - 1] == b[k]);
        }
    }
}

/// Numbers come first: a version whose numbers are greater is the newer one,
/// whatever comes after them. Only where they are the same does a pre-release
/// come before its release, and do two pre-releases compare by their parts.
pub proof fn numbers_come_first(a: Key, b: Key)
    ensures
        numbers_order(a.numbers, b.numbers) == Order::Greater ==> keys_order(a, b)
            == Order::Greater,
        numbers_order(a.numbers, b.numbers) == Order::Less ==> keys_order(a, b) == Order::Less,
        a.numbers == b.numbers && a.pre is None && b.pre is None ==> keys_order(a, b)
            == Order::Equal,
        a.numbers == b.numbers && a.pre is None && b.pre is Some ==> keys_order(a, b)
            == Order::Greater,
        a.numbers == b.numbers && a.pre is Some && b.pre is None ==> keys_order(a, b)
            == Order::Less,
        a.numbers == b.numbers && a.pre is Some && b.pre is Some ==> keys_order(a, b)
            == parts_order(a.pre->Some_0, b.pre->Some_0),
{
    if a.numbers == b.numbers {
        the_first_number_that_differs_decides(a.numbers, b.numbers, a.numbers.len() as int);
    }
}

/// A version is compared by its key, and one that has none neither way.
pub proof fn a_version_is_compared_by_its_key(a: Seq<char>, b: Seq<char>)
    ensures
        key_of(a) is Some && key_of(b) is Some ==> versions_order(a, b) == keys_order(
            key_of(a)->Some_0,
            key_of(b)->Some_0,
        ),
        key_of(a) is None || key_of(b) is None ==> versions_order(a, b) == Order::Equal,
{
}

/// Of two versions whose numbers begin alike, for however many numbers, the one
/// with the greater next number is the newer one, whatever else they say.
pub proof fn the_version_with_the_greater_number_is_newer(a: Seq<char>, b: Seq<char>, k: int)
    requires
        key_of(a) is Some,
        key_of(b) is Some,
        0 <= k < key_of(a)->Some_0.numbers.len(),
        k < key_of(b)->Some_0.numbers.len(),
        forall|i: int|
            0 <= i < k ==> #[trigger] key_of(a)->Some_0.numbers[i] == key_of(b)->Some_0.numbers[i],
        key_of(a)->Some_0.numbers[k] > key_of(b)->Some_0.numbers[k],
    ensures
        versions_order(a, b) == Order::Greater,
        versions_order(b, a) == Order::Less,
{
    the_first_number_that_differs_decides(
        key_of(a)->Some_0.numbers,
        key_of(b)->Some_0.numbers,
        k,
    );
}

/// A start is taken off as often as it is there, and then no more.
pub proof fn a_start_is_taken_off(text: Seq<char>, start: Seq<char>)
    requires
        start.len() > 0,
    ensures
        without_start(start + text, start) == without_start(text, start),
        !text::starts_with(text, start) ==> without_start(text, start) == text,
        !text::starts_with(without_start(text, start), start),
    decreases text.len(),
{
    assert((start + text).take(start.len() as int) =~= start);
    assert((start + text).skip(start.len() as int) =~= text);
    if text::starts_with(text, start) {
        a_start_is_taken_off(text.skip(start.len() as int), start);
    }
}

/// The numbers of a version are the numbers its parts stand for, one for each.
pub proof fn numbers_are_what_the_parts_say(parts: Seq<Seq<char>>)
    ensures
        numbers_in(parts) is Some <==> forall|i: int|
            0 <= i < parts.len() ==> part_number(#[trigger] parts[i]) is Some,
        numbers_in(parts) matches Some(numbers) ==> {
            &&& numbers.len() == parts.len()
            &&& forall|i: int|
                0 <= i < parts.len() ==> part_number(parts[i]) == Some(
                    #[trigger] numbers[i] as nat,
                )
        },
    decreases parts.len(),
{
    if parts.len() > 0 {
        let rest = parts.drop_last();
        numbers_are_what_the_parts_say(rest);
        let last = parts.last();
        assert(parts[parts.len() - 1] == last);
        if numbers_in(parts) is Some {
            assert forall|i: int| 0 <= i < parts.len() implies part_number(
                #[trigger] parts[i],
            ) is Some by {
                if i < rest.len() {
                    assert(rest[i] == parts[i]);
                }
            }
            let numbers = numbers_in(parts)->Some_0;
            let fewer = numbers_in(rest)->Some_0;
            assert(numbers == fewer.push(part_number(last)->Some_0 as u64));
            assert forall|i: int| 0 <= i < parts.len() implies part_number(parts[i]) == Some(
                #[trigger] numbers[i] as nat,
            ) by {
                if i < rest.len() {
                    assert(rest[i] == parts[i]);
                    assert(numbers[i] == fewer[i]);
                }
            }
        }
        if forall|i: int| 0 <= i < parts.len() ==> part_number(#[trigger] parts[i]) is Some {
            assert forall|i: int| 0 <= i < rest.len() implies part_number(
                #[trigger] rest[i],
            ) is Some by {
                assert(rest[i] == parts[i]);
            }
            assert(part_number(last) is Some);
        }
    }
}

/// What stands before the first dash holds none.
proof fn lemma_first_dash_is_first(core: Seq<char>, rest: Seq<char>)
    requires
        !core.contains('-'),
        rest.len() == 0 || rest[0] == '-',
    ensures
        first_dash(core + rest) == core.len(),
    decreases core.len(),
{
    if core.len() > 0 {
        let shorter = core.skip(1);
        assert(!shorter.contains('-')) by {
            if shorter.contains('-') {
                let i = choose|i: int| 0 <= i < shorter.len() && shorter[i] == '-';
                assert(core[i + 1] == '-');
            }
        }
        lemma_first_dash_is_first(shorter, rest);
        assert((core + rest).skip(1) =~= shorter + rest);
        assert((core + rest)[0] == core[0]);
        assert(core.contains(core[0]));
    } else {
        assert(core + rest =~= rest);
    }
}

/// How a version is read: white space around it and each `v` in front aside,
/// the numbers are the pieces between the dots before the first dash, and what
/// follows the dash is a pre-release, by its pieces.
pub proof fn a_version_is_read_by_its_dots(version: Seq<char>, core: Seq<char>, pre: Seq<char>)
    requires
        !core.contains('-'),
    ensures
        plain_version(version) == core ==> key_of(version) == (match numbers_in(
            text::split(core, '.'),
        ) {
            Some(numbers) => Some(Key { numbers, pre: None }),
            None => None,
        }),
        plain_version(version) == core + seq!['-'] + pre ==> key_of(version) == (match numbers_in(
            text::split(core, '.'),
        ) {
            Some(numbers) => Some(Key { numbers, pre: Some(text::split(pre, '.')) }),
            None => None,
        }),
        plain_version(version) == without_start(text::trimmed(version), seq!['v']),
{
    reveal_strlit("v");
    assert("v"@ =~= seq!['v']);
    if plain_version(version) == core {
        lemma_first_dash_is_first(core, Seq::empty());
        assert(core + Seq::<char>::empty() =~= core);
        assert(core.take(core.len() as int) =~= core);
    }
    if plain_version(version) == core + seq!['-'] + pre {
        let whole = core + seq!['-'] + pre;
        let rest = seq!['-'] + pre;
        assert(whole =~= core + rest);
        lemma_first_dash_is_first(core, rest);
        assert(whole.take(core.len() as int) =~= core);
        assert(whole.skip((core.len() + 1) as int) =~= pre);
    }
}

/// The numbers on either side of a dot are the numbers of what stands there.
pub proof fn a_dot_parts_the_numbers(a: Seq<char>, b: Seq<char>)
    requires
        !a.contains('.'),
    ensures
        text::split(a + seq!['.'] + b, '.') == seq![a] + text::split(b, '.'),
{
    a_separator_parts_the_pieces(a, '.', b);
    what_holds_no_separator_is_one_piece(a, '.');
}

/// A beta is heard of by who follows the betas or runs one, and by nobody else.
pub proof fn who_hears_of_a_beta(followed: Option<Seq<char>>, running: Seq<char>)
    ensures
        running.contains('-') ==> Channel::for_tag(followed, running) == Channel::Beta,
        followed is Some && text::lower(text::trimmed(followed->Some_0)) == seq!['b', 'e', 't', 'a']
            ==> Channel::for_tag(followed, running) == Channel::Beta,
        followed is None && !running.contains('-') ==> Channel::for_tag(followed, running)
            == Channel::Stable,
        followed is Some && text::lower(text::trimmed(followed->Some_0)) != seq!['b', 'e', 't', 'a']
            && !running.contains('-') ==> Channel::for_tag(followed, running) == Channel::Stable,
{
    reveal_strlit("beta");
    assert("beta"@ =~= seq!['b', 'e', 't', 'a']);
}

/// A release is an update where it is out, newer than what runs, and of a kind
/// that is heard of.
pub proof fn what_is_an_update(release: GitHubRelease, current: Seq<char>)
    ensures
        release.draft ==> !is_update(release, current, Channel::Beta) && !is_update(
            release,
            current,
            Channel::Stable,
        ),
        release.prerelease ==> !is_update(release, current, Channel::Stable),
        !release.draft ==> (is_update(release, current, Channel::Beta) <==> versions_order(
            release.tag_name@,
            current,
        ) == Order::Greater),
        !release.draft && !release.prerelease ==> (is_update(release, current, Channel::Stable)
            <==> versions_order(release.tag_name@, current) == Order::Greater),
{
}

/// Where there is an update one is found, and every update further down the
/// list is older than the one that is found.
pub proof fn the_newest_is_found(
    list: Seq<GitHubRelease>,
    n: nat,
    current: Seq<char>,
    channel: Channel,
    i: int,
)
    requires
        n <= list.len(),
        0 <= i < n,
        is_update(list[i], current, channel),
    ensures
        newest_of(list, n, current, channel) matches Some(best) && {
            &&& 0 <= best < n
            &&& is_update(list[best], current, channel)
            &&& best < i ==> versions_order(list[best].tag_name@, list[i].tag_name@)
                == Order::Greater
            &&& i < best ==> exists|j: int|
                0 <= j < best && is_update(#[trigger] list[j], current, channel) && versions_order(
                    list[j].tag_name@,
                    list[best].tag_name@,
                ) != Order::Greater
        },
    decreases n,
{
    let m = (n - 1) as nat;
    lemma_found_is_an_update(list, m, current, channel);
    if i < m {
        the_newest_is_found(list, m, current, channel, i);
    }
}

proof fn lemma_found_is_an_update(
    list: Seq<GitHubRelease>,
    n: nat,
    current: Seq<char>,
    channel: Channel,
)
    requires
        n <= list.len(),
    ensures
        newest_of(list, n, current, channel) matches Some(best) ==> 0 <= best < n && is_update(
            list[best],
            current,
            channel,
        ),
    decreases n,
{
    if n > 0 {
        lemma_found_is_an_update(list, (n - 1) as nat, current, channel);
    }
}

} // verus!
