//! Dates, without a date library for a few lines of output.

use crate::text;
use vstd::prelude::*;
use vstd::string::StringExecFns;

verus! {

/// Milliseconds in a day.
pub const DAY_MS: u64 = 86_400_000;

/// Whether a year has a 29th of February.
pub open spec fn is_leap(year: int) -> bool {
    year % 4 == 0 && (year % 100 != 0 || year % 400 == 0)
}

/// How many days a year has.
pub open spec fn days_in_year(year: int) -> int {
    if is_leap(year) {
        366
    } else {
        365
    }
}

/// How many days a month of a year has.
pub open spec fn days_in_month(year: int, month: int) -> int {
    if month == 2 {
        if is_leap(year) {
            29
        } else {
            28
        }
    } else if month == 4 || month == 6 || month == 9 || month == 11 {
        30
    } else {
        31
    }
}

/// How many days there were from the beginning of 1970 to that of a year.
pub open spec fn days_before_year(year: int) -> int
    decreases year - 1970,
{
    if year <= 1970 {
        0
    } else {
        days_before_year(year - 1) + days_in_year(year - 1)
    }
}

/// How many days of a year come before a month.
pub open spec fn days_before_month(year: int, month: int) -> int
    decreases month,
{
    if month <= 1 {
        0
    } else {
        days_before_month(year, month - 1) + days_in_month(year, month - 1)
    }
}

/// A day of the calendar.
pub struct Day {
    pub year: int,
    pub month: int,
    pub day: int,
}

impl Day {
    /// Whether there is such a day, from 1970 on.
    pub open spec fn is_day(self) -> bool {
        &&& self.year >= 1970
        &&& 1 <= self.month <= 12
        &&& 1 <= self.day <= days_in_month(self.year, self.month)
    }

    /// How many days after the first of January 1970 it is.
    pub open spec fn number(self) -> int {
        days_before_year(self.year) + days_before_month(self.year, self.month) + self.day - 1
    }

    /// Whether it comes before another, by year, month and day.
    pub open spec fn earlier(self, other: Day) -> bool {
        ||| self.year < other.year
        ||| self.year == other.year && self.month < other.month
        ||| self.year == other.year && self.month == other.month && self.day < other.day
    }
}

/// The years, counted from March, in closed form.
proof fn lemma_days_before_year(year: int)
    requires
        year >= 1970,
    ensures
        days_before_year(year) == 365 * (year - 1970) + (year - 1) / 4 - (year - 1) / 100 + (year
            - 1) / 400 - 477,
    decreases year,
{
    if year > 1970 {
        lemma_days_before_year(year - 1);
        lemma_leap_counts(year - 1);
    }
}

/// A leap year is where the number of leap years goes up.
proof fn lemma_leap_counts(year: int)
    requires
        year >= 1,
    ensures
        year / 4 - year / 100 + year / 400 == (year - 1) / 4 - (year - 1) / 100 + (year - 1) / 400
            + if is_leap(year) {
            1int
        } else {
            0
        },
{
    assert(year / 4 == (year - 1) / 4 + if year % 4 == 0 {
        1int
    } else {
        0
    });
    assert(year / 100 == (year - 1) / 100 + if year % 100 == 0 {
        1int
    } else {
        0
    });
    assert(year / 400 == (year - 1) / 400 + if year % 400 == 0 {
        1int
    } else {
        0
    });
    assert(year % 100 == 0 ==> year % 4 == 0);
    assert(year % 400 == 0 ==> year % 100 == 0);
}

/// The day on which a year of an era begins, both counted from March.
spec fn era_year_start(year: int) -> int {
    365 * year + year / 4 - year / 100
}

/// The year of an era that a day of it is in.
#[verifier::rlimit(50)]
#[verifier::spinoff_prover]
proof fn lemma_year_of_era(day: int)
    requires
        0 <= day < 146_097,
    ensures
        ({
            let year = (day - day / 1460 + day / 36_524 - day / 146_096) / 365;
            &&& 0 <= year < 400
            &&& era_year_start(year) <= day
            &&& day - era_year_start(year) <= if is_leap(year + 1) {
                365int
            } else {
                364
            }
        }),
{
    let century = day / 36_524;
    assert(0 <= century <= 4);
    if century == 0 {
    } else if century == 1 {
    } else if century == 2 {
    } else if century == 3 {
    } else {
    }
}

/// The month and day, counted from March, of a day of a year.
proof fn lemma_month_of_day(day: int)
    requires
        0 <= day <= 365,
    ensures
        ({
            let month = (5 * day + 2) / 153;
            &&& 0 <= month <= 11
            &&& (153 * month + 2) / 5 <= day
            &&& day < (153 * (month + 1) + 2) / 5
        }),
{
    let month = (5 * day + 2) / 153;
    assert(0 <= month <= 11);
    if month == 0 {
    } else if month == 1 {
    } else if month == 2 {
    } else if month == 3 {
    } else if month == 4 {
    } else if month == 5 {
    } else if month == 6 {
    } else if month == 7 {
    } else if month == 8 {
    } else if month == 9 {
    } else if month == 10 {
    } else {
    }
}

/// Where each month of a year begins.
proof fn lemma_days_before_month(year: int)
    ensures
        ({
            let leap = if is_leap(year) {
                1int
            } else {
                0
            };
            &&& days_before_month(year, 1) == 0
            &&& days_before_month(year, 2) == 31
            &&& days_before_month(year, 3) == 59 + leap
            &&& days_before_month(year, 4) == 90 + leap
            &&& days_before_month(year, 5) == 120 + leap
            &&& days_before_month(year, 6) == 151 + leap
            &&& days_before_month(year, 7) == 181 + leap
            &&& days_before_month(year, 8) == 212 + leap
            &&& days_before_month(year, 9) == 243 + leap
            &&& days_before_month(year, 10) == 273 + leap
            &&& days_before_month(year, 11) == 304 + leap
            &&& days_before_month(year, 12) == 334 + leap
        }),
{
    reveal_with_fuel(days_before_month, 13);
}

/// Four hundred years are an era, and every era is as long as the next.
proof fn lemma_era(year: int, era: int)
    requires
        0 <= year < 400,
        0 <= era,
    ensures
        ({
            let y = year + 400 * era;
            &&& y / 4 == year / 4 + 100 * era
            &&& y / 100 == year / 100 + 4 * era
            &&& y / 400 == era
            &&& is_leap(y + 1) == is_leap(year + 1)
        }),
{
}

/// The day that a number of days after the first of January 1970 is.
pub fn civil(days: u64) -> (civil: (u64, u64, u64))
    requires
        days <= 0x1_0000_0000_0000,
    ensures
        ({
            let day = Day { year: civil.0 as int, month: civil.1 as int, day: civil.2 as int };
            day.is_day() && day.number() == days
        }),
{
    let z: u64 = days + 719_468;
    let era: u64 = z / 146_097;
    let doe: u64 = z - era * 146_097;
    proof {
        lemma_year_of_era(doe as int);
    }
    let yoe: u64 = (doe - doe / 1460 + doe / 36_524 - doe / 146_096) / 365;
    let y: u64 = yoe + era * 400;
    let doy: u64 = doe - (365 * yoe + yoe / 4 - yoe / 100);
    proof {
        lemma_month_of_day(doy as int);
        lemma_era(yoe as int, era as int);
    }
    let mp: u64 = (5 * doy + 2) / 153;
    let d: u64 = doy - (153 * mp + 2) / 5 + 1;
    let m: u64 = if mp < 10 {
        mp + 3
    } else {
        mp - 9
    };
    let year: u64 = if m <= 2 {
        y + 1
    } else {
        y
    };
    proof {
        lemma_civil(days as int, era as int, yoe as int, doy as int, mp as int, d as int);
    }
    (year, m, d)
}

/// The parts of a day, put together from its number, are that day.
proof fn lemma_civil(days: int, era: int, yoe: int, doy: int, mp: int, d: int)
    requires
        0 <= days,
        0 <= era,
        0 <= yoe < 400,
        days + 719_468 == 146_097 * era + era_year_start(yoe) + doy,
        0 <= doy,
        doy <= if is_leap(yoe + 1) {
            365int
        } else {
            364
        },
        0 <= mp <= 11,
        (153 * mp + 2) / 5 <= doy < (153 * (mp + 1) + 2) / 5,
        d == doy - (153 * mp + 2) / 5 + 1,
    ensures
        ({
            let month = if mp < 10 {
                mp + 3
            } else {
                mp - 9
            };
            let march_year = yoe + 400 * era;
            let day = Day {
                year: if month <= 2 {
                    march_year + 1
                } else {
                    march_year
                },
                month,
                day: d,
            };
            day.is_day() && day.number() == days
        }),
{
    let y = yoe + 400 * era;
    lemma_era(yoe, era);
    assert(146_097 * era + era_year_start(yoe) == 365 * y + y / 4 - y / 100 + y / 400);
    assert(y >= 1969) by {
        if y < 1969 {
            assert(365 * y + y / 4 - y / 100 + y / 400 <= 365 * 1968 + 492 - 19 + 4);
        }
    }
    let month = if mp < 10 {
        mp + 3
    } else {
        mp - 9
    };
    let year = if month <= 2 {
        y + 1
    } else {
        y
    };
    assert(year >= 1970) by {
        if y == 1969 && month >= 3 {
            assert(doy < 306);
        }
    }
    lemma_days_before_year(year);
    lemma_days_before_month(year);
    if month <= 2 {
        assert((year - 1) / 4 - (year - 1) / 100 + (year - 1) / 400 == y / 4 - y / 100 + y / 400);
    } else {
        lemma_leap_counts(year);
    }
    if mp == 0 {
    } else if mp == 1 {
    } else if mp == 2 {
    } else if mp == 3 {
    } else if mp == 4 {
    } else if mp == 5 {
    } else if mp == 6 {
    } else if mp == 7 {
    } else if mp == 8 {
    } else if mp == 9 {
    } else if mp == 10 {
    } else {
    }
}

/// Days that come earlier have lower numbers.
pub proof fn earlier_days_have_lower_numbers(a: Day, b: Day)
    requires
        a.is_day(),
        b.is_day(),
        a.earlier(b),
    ensures
        a.number() < b.number(),
{
    lemma_days_before_month(a.year);
    lemma_days_before_month(b.year);
    lemma_days_before_year(a.year);
    lemma_days_before_year(b.year);
    if a.year < b.year {
        lemma_within_year(a);
        lemma_years_rise(a.year + 1, b.year);
        lemma_within_year(b);
    } else if a.month < b.month {
        lemma_months_rise(a.year, a.month, b.month);
    }
}

proof fn lemma_within_year(day: Day)
    requires
        day.is_day(),
    ensures
        days_before_year(day.year) <= day.number() < days_before_year(day.year + 1),
{
    lemma_days_before_month(day.year);
    let m = day.month;
    assert(days_before_month(day.year, m) >= 0 && days_before_month(day.year, m) + days_in_month(
        day.year,
        m,
    ) <= days_in_year(day.year)) by {
        if m == 1 {
        } else if m == 2 {
        } else if m == 3 {
        } else if m == 4 {
        } else if m == 5 {
        } else if m == 6 {
        } else if m == 7 {
        } else if m == 8 {
        } else if m == 9 {
        } else if m == 10 {
        } else if m == 11 {
        } else {
        }
    }
}

proof fn lemma_years_rise(from: int, to: int)
    requires
        1970 <= from <= to,
    ensures
        days_before_year(from) <= days_before_year(to),
    decreases to - from,
{
    if from < to {
        lemma_years_rise(from, to - 1);
    }
}

proof fn lemma_months_rise(year: int, from: int, to: int)
    requires
        1 <= from < to <= 12,
    ensures
        days_before_month(year, from) + days_in_month(year, from) <= days_before_month(year, to),
    decreases to - from,
{
    if from + 1 < to {
        lemma_months_rise(year, from, to - 1);
    }
}

/// A number of days is the number of one day only.
pub proof fn a_number_is_one_day(a: Day, b: Day)
    requires
        a.is_day(),
        b.is_day(),
        a.number() == b.number(),
    ensures
        a == b,
{
    if a.earlier(b) {
        earlier_days_have_lower_numbers(a, b);
    } else if b.earlier(a) {
        earlier_days_have_lower_numbers(b, a);
    }
}

/// The day that a number of days after the first of January 1970 is.
pub open spec fn day_of(days: int) -> Day {
    choose|day: Day| #[trigger] day.is_day() && day.number() == days
}

/// Every number of days is the number of a day.
pub proof fn every_number_is_a_day(days: int)
    requires
        0 <= days,
    ensures
        day_of(days).is_day(),
        day_of(days).number() == days,
{
    let z = days + 719_468;
    let era = z / 146_097;
    let doe = z % 146_097;
    lemma_year_of_era(doe);
    let yoe = (doe - doe / 1460 + doe / 36_524 - doe / 146_096) / 365;
    let doy = doe - era_year_start(yoe);
    lemma_month_of_day(doy);
    let mp = (5 * doy + 2) / 153;
    let d = doy - (153 * mp + 2) / 5 + 1;
    lemma_civil(days, era, yoe, doy, mp, d);
    let month = if mp < 10 {
        mp + 3
    } else {
        mp - 9
    };
    let march_year = yoe + 400 * era;
    let day = Day {
        year: if month <= 2 {
            march_year + 1
        } else {
            march_year
        },
        month,
        day: d,
    };
    assert(day.is_day() && day.number() == days);
}

/// The lowest digits of a number, as many as asked for.
pub open spec fn digits_text(n: nat, width: nat) -> Seq<char>
    decreases width,
{
    if width == 0 {
        Seq::empty()
    } else {
        digits_text(n / 10, (width - 1) as nat).push(text::digit((n % 10) as int))
    }
}

/// A year, with at least four digits.
pub open spec fn year_text(year: nat) -> Seq<char> {
    if year < 10_000 {
        digits_text(year, 4)
    } else {
        text::decimal_text(year)
    }
}

/// `YYYY-MM-DD`.
pub open spec fn date_text(day: Day) -> Seq<char> {
    year_text(day.year as nat) + "-"@ + digits_text(day.month as nat, 2) + "-"@ + digits_text(
        day.day as nat,
        2,
    )
}

fn digits(n: u64, width: u64) -> (written: String)
    ensures
        written@ == digits_text(n as nat, width as nat),
    decreases width,
{
    if width == 0 {
        let written: String = String::new();
        assert(written@ =~= Seq::empty());
        written
    } else {
        let mut written: String = digits(n / 10, width - 1);
        written.push(text::digit_char((n % 10) as u128));
        written
    }
}

/// `YYYY-MM-DD` from milliseconds since the epoch.
pub fn date(ms: u64) -> (date: String)
    ensures
        date@ == date_text(day_of((ms / DAY_MS) as int)),
{
    let days: u64 = ms / DAY_MS;
    let (year, month, day): (u64, u64, u64) = civil(days);
    proof {
        let found = Day { year: year as int, month: month as int, day: day as int };
        assert(found.is_day() && found.number() == days);
        a_number_is_one_day(found, day_of(days as int));
    }
    let written: String = if year < 10_000 {
        digits(year, 4)
    } else {
        text::decimal(year as u128)
    };
    written.concat("-").concat(digits(month, 2).as_str()).concat("-").concat(
        digits(day, 2).as_str(),
    )
}

/// `YYYY-MM-DD-HHMMSS` of milliseconds since the epoch, in UTC.
pub open spec fn stamp_text(ms: u64) -> Seq<char> {
    let seconds = (ms / 1000) % 86_400;
    date_text(day_of((ms / DAY_MS) as int)) + "-"@ + digits_text((seconds / 3600) as nat, 2)
        + digits_text((seconds / 60 % 60) as nat, 2) + digits_text((seconds % 60) as nat, 2)
}

/// `YYYY-MM-DD-HHMMSS`, in UTC. Sorts the way it reads.
pub fn stamp(ms: u64) -> (stamp: String)
    ensures
        stamp@ == stamp_text(ms),
{
    let seconds: u64 = (ms / 1000) % 86_400;
    date(ms).concat("-").concat(digits(seconds / 3600, 2).as_str()).concat(
        digits(seconds / 60 % 60, 2).as_str(),
    ).concat(digits(seconds % 60, 2).as_str())
}

/// What a text has in common with another in front decides nothing.
proof fn lemma_same_start(start: Seq<char>, a: Seq<char>, b: Seq<char>)
    ensures
        text::precedes(start + a, start + b) == text::precedes(a, b),
    decreases start.len(),
{
    if start.len() == 0 {
        assert(start + a =~= a);
        assert(start + b =~= b);
    } else {
        assert((start + a).skip(1) =~= start.skip(1) + a);
        assert((start + b).skip(1) =~= start.skip(1) + b);
        assert((start + a)[0] == start[0] && (start + b)[0] == start[0]);
        lemma_same_start(start.skip(1), a, b);
    }
}

spec fn power10(width: nat) -> nat
    decreases width,
{
    if width == 0 {
        1
    } else {
        10 * power10((width - 1) as nat)
    }
}

/// Of two numbers written with as many digits the lower one comes first,
/// whatever follows them.
proof fn lemma_lower_comes_first(n: nat, m: nat, width: nat, a: Seq<char>, b: Seq<char>)
    requires
        n < m < power10(width),
    ensures
        text::precedes(digits_text(n, width) + a, digits_text(m, width) + b),
    decreases width,
{
    if width > 0 {
        let w = (width - 1) as nat;
        let (x, y) = (text::digit((n % 10) as int), text::digit((m % 10) as int));
        assert(digits_text(n, width) + a =~= digits_text(n / 10, w) + (seq![x] + a));
        assert(digits_text(m, width) + b =~= digits_text(m / 10, w) + (seq![y] + b));
        if n / 10 < m / 10 {
            lemma_lower_comes_first(n / 10, m / 10, w, seq![x] + a, seq![y] + b);
        } else {
            assert(n / 10 == m / 10);
            lemma_same_start(digits_text(n / 10, w), seq![x] + a, seq![y] + b);
            assert((seq![x] + a)[0] == x && (seq![y] + b)[0] == y);
            assert(x < y);
        }
    }
}

/// Stamps sort by time: of two moments in different seconds, the earlier one
/// has the stamp that comes first, up to the year 9999.
#[verifier::rlimit(80)]
#[verifier::spinoff_prover]
pub proof fn stamps_sort_by_time(a: u64, b: u64)
    requires
        a / 1000 < b / 1000,
        day_of((b / DAY_MS) as int).year < 10_000,
    ensures
        text::precedes(stamp_text(a), stamp_text(b)),
{
    let (x, y) = (day_of((a / DAY_MS) as int), day_of((b / DAY_MS) as int));
    every_number_is_a_day((a / DAY_MS) as int);
    every_number_is_a_day((b / DAY_MS) as int);
    let (s, t) = ((a / 1000) % 86_400, (b / 1000) % 86_400);
    assert(a / DAY_MS == a / 1000 / 86_400 && b / DAY_MS == b / 1000 / 86_400);
    if y.earlier(x) {
        earlier_days_have_lower_numbers(y, x);
    }
    reveal_with_fuel(power10, 5);
    let dash = "-"@;
    let time_a = digits_text((s / 3600) as nat, 2) + digits_text((s / 60 % 60) as nat, 2)
        + digits_text((s % 60) as nat, 2);
    let time_b = digits_text((t / 3600) as nat, 2) + digits_text((t / 60 % 60) as nat, 2)
        + digits_text((t % 60) as nat, 2);
    let day_a = digits_text(x.day as nat, 2) + (dash + time_a);
    let day_b = digits_text(y.day as nat, 2) + (dash + time_b);
    let month_a = digits_text(x.month as nat, 2) + (dash + day_a);
    let month_b = digits_text(y.month as nat, 2) + (dash + day_b);
    assert(stamp_text(a) =~= digits_text(x.year as nat, 4) + (dash + month_a));
    assert(stamp_text(b) =~= digits_text(y.year as nat, 4) + (dash + month_b));
    if x.year < y.year {
        lemma_lower_comes_first(x.year as nat, y.year as nat, 4, dash + month_a, dash + month_b);
    } else {
        assert(x.year == y.year);
        let start = digits_text(x.year as nat, 4);
        lemma_same_start(start, dash + month_a, dash + month_b);
        lemma_same_start(dash, month_a, month_b);
        if x.month < y.month {
            lemma_lower_comes_first(x.month as nat, y.month as nat, 2, dash + day_a, dash + day_b);
        } else {
            assert(x.month == y.month);
            lemma_same_start(digits_text(x.month as nat, 2), dash + day_a, dash + day_b);
            lemma_same_start(dash, day_a, day_b);
            if x.day < y.day {
                lemma_lower_comes_first(
                    x.day as nat,
                    y.day as nat,
                    2,
                    dash + time_a,
                    dash + time_b,
                );
            } else {
                assert(x == y);
                lemma_same_start(digits_text(x.day as nat, 2), dash + time_a, dash + time_b);
                lemma_same_start(dash, time_a, time_b);
                assert(s < t);
                lemma_time_parts(s, t);
                lemma_times_sort(
                    (s / 3600) as nat,
                    (s / 60 % 60) as nat,
                    (s % 60) as nat,
                    (t / 3600) as nat,
                    (t / 60 % 60) as nat,
                    (t % 60) as nat,
                );
            }
        }
    }
}

/// Of two times of day the earlier one has the lower hour, or the same hour and
/// the lower minute, or the same minute and the lower second.
proof fn lemma_time_parts(s: u64, t: u64)
    requires
        s < t < 86_400,
    ensures
        t / 3600 < 24,
        s / 3600 <= t / 3600,
        s / 3600 == t / 3600 ==> s / 60 % 60 <= t / 60 % 60,
        s / 3600 == t / 3600 && s / 60 % 60 == t / 60 % 60 ==> s % 60 < t % 60,
{
    assert(s / 3600 == s / 60 / 60 && t / 3600 == t / 60 / 60);
}

/// Three numbers of two digits each sort by the first of them that differs.
proof fn lemma_times_sort(h: nat, m: nat, u: nat, i: nat, n: nat, v: nat)
    requires
        h <= i < 100,
        h == i ==> m <= n,
        h == i && m == n ==> u < v,
        n < 100,
        v < 100,
    ensures
        text::precedes(
            digits_text(h, 2) + digits_text(m, 2) + digits_text(u, 2),
            digits_text(i, 2) + digits_text(n, 2) + digits_text(v, 2),
        ),
{
    assert(power10(2) == 100) by {
        reveal_with_fuel(power10, 3);
    }
    let nothing = Seq::<char>::empty();
    let (second_s, second_t) = (digits_text(u, 2) + nothing, digits_text(v, 2) + nothing);
    let (rest_s, rest_t) = (digits_text(m, 2) + second_s, digits_text(n, 2) + second_t);
    assert(digits_text(h, 2) + digits_text(m, 2) + digits_text(u, 2) =~= digits_text(h, 2)
        + rest_s);
    assert(digits_text(i, 2) + digits_text(n, 2) + digits_text(v, 2) =~= digits_text(i, 2)
        + rest_t);
    if h < i {
        lemma_lower_comes_first(h, i, 2, rest_s, rest_t);
    } else {
        lemma_same_start(digits_text(h, 2), rest_s, rest_t);
        if m < n {
            lemma_lower_comes_first(m, n, 2, second_s, second_t);
        } else {
            lemma_same_start(digits_text(m, 2), second_s, second_t);
            lemma_lower_comes_first(u, v, 2, nothing, nothing);
        }
    }
}

} // verus!
