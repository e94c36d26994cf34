//! How ids, days and times are written.

use crate::calendar::{
    a_number_is_one_day, date_text, day_of, days_before_month, days_before_year, days_in_month,
    days_in_year, digits_text, every_number_is_a_day, is_leap, stamp_text, year_text, Day,
};
use crate::ids::{dashed, hex_text, uuid_text, Uuid};
use crate::text;
use crate::text::{digit, digits_value, hex_digit};
use vstd::prelude::*;

verus! {

/// A number in sixteens has as many digits as it is given room, each sixteen
/// times the next.
pub proof fn a_number_in_sixteens(n: nat, d: nat, width: nat)
    requires
        d < 16,
    ensures
        hex_text(n, width).len() == width,
        hex_text(n * 16 + d, width + 1) == hex_text(n, width).push(hex_digit(d as int)),
        hex_text(n, 0) == Seq::<char>::empty(),
    decreases width,
{
    assert((n * 16 + d) / 16 == n);
    assert((n * 16 + d) % 16 == d);
    if width > 0 {
        a_number_in_sixteens(n / 16, 0, (width - 1) as nat);
    }
}

/// An id is written in groups of eight, four, four, four and twelve of its
/// thirty-two digits.
pub proof fn an_id_is_written_in_groups(id: Uuid)
    ensures
        ({
            let digits = hex_text(id.value as nat, 32);
            &&& digits.len() == 32
            &&& uuid_text(id).len() == 36
            &&& uuid_text(id) == digits.subrange(0, 8) + seq!['-'] + digits.subrange(8, 12)
                + seq!['-'] + digits.subrange(12, 16) + seq!['-'] + digits.subrange(16, 20)
                + seq!['-'] + digits.subrange(20, 32)
        }),
{
    let digits = hex_text(id.value as nat, 32);
    a_number_in_sixteens(id.value as nat, 0, 32);
    lemma_dashed(digits, 32);
    assert(digits.take(32) =~= digits);
}

spec fn grouped(digits: Seq<char>, n: int) -> Seq<char> {
    let piece = |from: int, to: int|
        if n <= from {
            Seq::<char>::empty()
        } else {
            (if from > 0 {
                seq!['-']
            } else {
                Seq::empty()
            }) + digits.subrange(from, if n < to {
                n
            } else {
                to
            })
        };
    piece(0, 8) + piece(8, 12) + piece(12, 16) + piece(16, 20) + piece(20, 32)
}

proof fn lemma_dashed(digits: Seq<char>, n: int)
    requires
        digits.len() == 32,
        0 <= n <= 32,
    ensures
        dashed(digits.take(n)) =~= grouped(digits, n),
    decreases n,
{
    if n > 0 {
        lemma_dashed(digits, n - 1);
        assert(digits.take(n).drop_last() =~= digits.take(n - 1));
        assert(digits.take(n).last() == digits[n - 1]);
        let shorter = grouped(digits, n - 1);
        let next = digits[n - 1];
        if n - 1 == 8 || n - 1 == 12 || n - 1 == 16 || n - 1 == 20 {
            assert(grouped(digits, n) =~= shorter.push('-').push(next));
        } else {
            assert(grouped(digits, n) =~= shorter.push(next));
        }
    }
}

/// Every fourth year is a leap year, but of the hundredth only every fourth.
pub proof fn leap_years(year: int, k: int)
    ensures
        is_leap(400 * k),
        !is_leap(400 * k + 100) && !is_leap(400 * k + 200) && !is_leap(400 * k + 300),
        year % 100 != 0 ==> (is_leap(year) <==> year % 4 == 0),
        days_in_year(year) == if is_leap(year) {
            366int
        } else {
            365
        },
{
    assert((400 * k) % 400 == 0 && (400 * k) % 4 == 0);
    assert((400 * k + 100) % 100 == 0 && (400 * k + 100) % 400 == 100);
    assert((400 * k + 200) % 100 == 0 && (400 * k + 200) % 400 == 200);
    assert((400 * k + 300) % 100 == 0 && (400 * k + 300) % 400 == 300);
}

/// The months are as long as they are.
pub proof fn months(year: int)
    ensures
        days_in_month(year, 1) == 31,
        days_in_month(year, 2) == 28 + (days_in_year(year) - 365),
        days_in_month(year, 3) == 31,
        days_in_month(year, 4) == 30,
        days_in_month(year, 5) == 31,
        days_in_month(year, 6) == 30,
        days_in_month(year, 7) == 31,
        days_in_month(year, 8) == 31,
        days_in_month(year, 9) == 30,
        days_in_month(year, 10) == 31,
        days_in_month(year, 11) == 30,
        days_in_month(year, 12) == 31,
        days_before_month(year, 1) == 0,
        days_before_month(year, 12) + 31 == days_in_year(year),
{
    reveal_with_fuel(days_before_month, 13);
}

/// Days begin with the first of January 1970.
pub proof fn the_first_day()
    ensures
        day_of(0).year == 1970,
        day_of(0).month == 1,
        day_of(0).day == 1,
{
    let first = Day { year: 1970, month: 1, day: 1 };
    assert(first.is_day());
    assert(days_before_month(1970, 1) == 0);
    assert(days_before_year(1970) == 0);
    every_number_is_a_day(0);
    a_number_is_one_day(first, day_of(0));
}

/// Each day is followed by the next of its month, the last of a month by the
/// first of the next, and the last of a year by the first of the next.
pub proof fn the_next_day(days: int)
    requires
        0 <= days,
    ensures
        ({
            let (today, tomorrow) = (day_of(days), day_of(days + 1));
            &&& 1 <= today.month <= 12
            &&& 1 <= today.day <= days_in_month(today.year, today.month)
            &&& if today.day < days_in_month(today.year, today.month) {
                tomorrow.year == today.year && tomorrow.month == today.month && tomorrow.day
                    == today.day + 1
            } else if today.month < 12 {
                tomorrow.year == today.year && tomorrow.month == today.month + 1 && tomorrow.day
                    == 1
            } else {
                tomorrow.year == today.year + 1 && tomorrow.month == 1 && tomorrow.day == 1
            }
        }),
{
    every_number_is_a_day(days);
    every_number_is_a_day(days + 1);
    let today = day_of(days);
    months(today.year);
    months(today.year + 1);
    let next = if today.day < days_in_month(today.year, today.month) {
        Day { day: today.day + 1, ..today }
    } else if today.month < 12 {
        Day { year: today.year, month: today.month + 1, day: 1 }
    } else {
        Day { year: today.year + 1, month: 1, day: 1 }
    };
    assert(next.is_day());
    assert(next.number() == days + 1);
    a_number_is_one_day(next, day_of(days + 1));
}

/// Numbers in a date have as many digits as there is room for, noughts in front
/// included, and read as what they are.
pub proof fn numbers_in_a_date(n: nat, d: nat, width: nat)
    requires
        d < 10,
    ensures
        digits_text(n, 0) == Seq::<char>::empty(),
        digits_text(n, width).len() == width,
        digits_text(n * 10 + d, width + 1) == digits_text(n, width).push(digit(d as int)),
        n < 100 ==> digits_value(digits_text(n, 2)) == n,
        n < 10_000 ==> digits_value(digits_text(n, 4)) == n,
        n < 10_000 ==> year_text(n) == digits_text(n, 4),
        n >= 10_000 ==> year_text(n) == text::decimal_text(n),
    decreases width,
{
    assert((n * 10 + d) / 10 == n);
    assert((n * 10 + d) % 10 == d);
    if width > 0 {
        numbers_in_a_date(n / 10, 0, (width - 1) as nat);
    }
    lemma_last_digit(n, 0);
    lemma_last_digit(n, 1);
    lemma_last_digit(n / 10, 0);
    lemma_last_digit(n / 10, 2);
    lemma_last_digit(n / 10 / 10, 1);
    lemma_last_digit(n / 10 / 10 / 10, 0);
    lemma_last_digit(n, 3);
}

proof fn lemma_last_digit(n: nat, width: nat)
    ensures
        digits_value(digits_text(n, width + 1)) == digits_value(digits_text(n / 10, width)) * 10 + n
            % 10,
        digits_value(digits_text(n, 0)) == 0,
{
    let text = digits_text(n, width + 1);
    assert(text.drop_last() =~= digits_text(n / 10, width));
    assert(text.last() == digit((n % 10) as int));
    assert(digits_text(n, 0) =~= Seq::empty());
}

/// A date is the year, the month and the day, and a time is the date of it and
/// its hours, minutes and seconds.
pub proof fn how_times_are_written(day: Day, ms: u64)
    ensures
        date_text(day) == year_text(day.year as nat) + seq!['-'] + digits_text(
            day.month as nat,
            2,
        ) + seq!['-'] + digits_text(day.day as nat, 2),
        ({
            let days = ms as nat / 86_400_000;
            let seconds = ms as nat / 1000 - days * 86_400;
            stamp_text(ms) == date_text(day_of(days as int)) + seq!['-'] + digits_text(
                (seconds / 3600) as nat,
                2,
            ) + digits_text(((seconds - seconds / 3600 * 3600) / 60) as nat, 2) + digits_text(
                (seconds - seconds / 60 * 60) as nat,
                2,
            )
        }),
{
    reveal_strlit("-");
    assert("-"@ =~= seq!['-']);
    let days = ms as nat / 86_400_000;
    let seconds = ms as nat / 1000 - days * 86_400;
    assert((ms / 1000) % 86_400 == seconds);
    assert(seconds / 60 % 60 == (seconds - seconds / 3600 * 3600) / 60);
    assert(seconds % 60 == seconds - seconds / 60 * 60);
}

} // verus!
