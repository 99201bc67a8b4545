//! Dates of the Gregorian calendar, extended to all years, and timestamps.

use vstd::prelude::*;
use vstd::string::*;

use crate::text::{self, push_decimal, string_of};

verus! {

/// Whether a year is a leap year.
pub open spec fn is_leap_year(y: int) -> bool {
    y % 4 == 0 && (y % 100 != 0 || y % 400 == 0)
}

/// The number of days of a month.
pub open spec fn days_in_month(y: int, m: int) -> int {
    if m == 2 {
        if is_leap_year(y) {
            29
        } else {
            28
        }
    } else if m == 4 || m == 6 || m == 9 || m == 11 {
        30
    } else {
        31
    }
}

/// The number of days of a year before a month.
pub open spec fn days_before_month(y: int, m: int) -> int
    decreases m,
{
    if m <= 1 {
        0
    } else {
        days_before_month(y, m - 1) + days_in_month(y, m - 1)
    }
}

/// The number of leap years among the years from 1 to `y`; for a negative `y`,
/// minus the number of those from `y + 1` to 0.
pub open spec fn leap_years_through(y: int) -> int {
    y / 4 - y / 100 + y / 400
}

/// The number of days from 1970-01-01 to a date.
pub open spec fn day_number(y: int, m: int, d: int) -> int {
    365 * (y - 1970) + leap_years_through(y - 1) - leap_years_through(1969) + days_before_month(
        y,
        m,
    ) + d - 1
}

/// Whether there is such a date.
pub open spec fn is_date(y: int, m: int, d: int) -> bool {
    1 <= m <= 12 && 1 <= d <= days_in_month(y, m)
}

proof fn lemma_days_before_month(y: int, m: int)
    requires
        1 <= m <= 12,
    ensures
        days_before_month(y, m) == (if m == 1 {
            0int
        } else if m == 2 {
            31
        } else {
            (if is_leap_year(y) {
                1int
            } else {
                0
            }) + (if m == 3 {
                59int
            } else if m == 4 {
                90
            } else if m == 5 {
                120
            } else if m == 6 {
                151
            } else if m == 7 {
                181
            } else if m == 8 {
                212
            } else if m == 9 {
                243
            } else if m == 10 {
                273
            } else if m == 11 {
                304
            } else {
                334
            })
        }),
{
    reveal_with_fuel(days_before_month, 13);
}

/// The quotient and the remainder of a division that rounds down.
fn divide_down(a: i64, b: u32) -> (r: (i64, u32))
    requires
        b > 0,
    ensures
        a == r.0 * b + r.1,
        r.1 < b,
{
    if a >= 0 {
        let n: u64 = a as u64;
        let q: u64 = n / b as u64;
        let r: u64 = n % b as u64;
        proof {
            vstd::arithmetic::div_mod::lemma_fundamental_div_mod(n as int, b as int);
            assert(q <= n) by (nonlinear_arith)
                requires
                    q == n / b as u64,
                    b > 0,
            ;
            assert(b * q == q * b) by (nonlinear_arith);
        }
        (q as i64, r as u32)
    } else {
        let n: u64 = (-(a + 1)) as u64;
        let q: u64 = n / b as u64;
        let r: u64 = n % b as u64;
        proof {
            vstd::arithmetic::div_mod::lemma_fundamental_div_mod(n as int, b as int);
            assert(q <= n) by (nonlinear_arith)
                requires
                    q == n / b as u64,
                    b > 0,
            ;
            assert((-(q as int) - 1) * b == -(b * q) - b) by (nonlinear_arith);
        }
        (-(q as i64) - 1, b - 1 - r as u32)
    }
}

/// Where a day falls in an era of 400 years, counted from March: the century,
/// the group of four years in it, the year in that, and the day of the year.
fn split_era(day_of_era: u32) -> (r: (u32, u32, u32, u32))
    requires
        day_of_era < 146_097,
    ensures
        day_of_era == 36_524 * r.0 + 1_461 * r.1 + 365 * r.2 + r.3,
        r.0 <= 3,
        r.1 <= 24,
        r.2 <= 3,
        r.3 <= 365,
        r.3 == 365 ==> r.2 == 3 && (r.1 < 24 || r.0 == 3),
{
    let century: u32 = if day_of_era / 36_524 < 3 {
        day_of_era / 36_524
    } else {
        3
    };
    let in_century: u32 = day_of_era - century * 36_524;
    let quad: u32 = in_century / 1_461;
    let in_quad: u32 = in_century - quad * 1_461;
    let single: u32 = if in_quad / 365 < 3 {
        in_quad / 365
    } else {
        3
    };
    (century, quad, single, in_quad - single * 365)
}

/// The number of days from the first of March to the first of a month.
spec fn days_from_march(m: int) -> int {
    if m == 3 {
        0
    } else if m == 4 {
        31
    } else if m == 5 {
        61
    } else if m == 6 {
        92
    } else if m == 7 {
        122
    } else if m == 8 {
        153
    } else if m == 9 {
        184
    } else if m == 10 {
        214
    } else if m == 11 {
        245
    } else if m == 12 {
        275
    } else if m == 1 {
        306
    } else {
        337
    }
}

/// The month and the day of the month of a day of a year that starts in March.
fn split_year(day_of_year: u32) -> (r: (u32, u32))
    requires
        day_of_year <= 365,
    ensures
        1 <= r.0 <= 12,
        1 <= r.1,
        day_of_year == days_from_march(r.0 as int) + r.1 - 1,
        r.0 != 2 ==> r.1 <= days_in_month(1, r.0 as int),
        r.0 == 2 ==> r.1 <= 29,
        r.0 == 2 && r.1 == 29 ==> day_of_year == 365,
{
    let march_month: u32 = (5 * day_of_year + 2) / 153;
    let day: u32 = day_of_year - (153 * march_month + 2) / 5 + 1;
    let month: u32 = if march_month < 10 {
        march_month + 3
    } else {
        march_month - 9
    };
    (month, day)
}

/// A day of an era, as a date of the calendar.
proof fn lemma_era_date(
    era: int,
    century: int,
    quad: int,
    single: int,
    day_of_year: int,
    month: int,
    day: int,
    year: int,
)
    requires
        0 <= century <= 3,
        0 <= quad <= 24,
        0 <= single <= 3,
        0 <= day_of_year <= 365,
        day_of_year == 365 ==> single == 3 && (quad < 24 || century == 3),
        1 <= month <= 12,
        1 <= day,
        day_of_year == days_from_march(month) + day - 1,
        month != 2 ==> day <= days_in_month(1, month),
        month == 2 ==> day <= 29,
        month == 2 && day == 29 ==> day_of_year == 365,
        year == 400 * era + 100 * century + 4 * quad + single + (if month <= 2 {
            1int
        } else {
            0
        }),
    ensures
        is_date(year, month, day),
        day_number(year, month, day) == 146_097 * era + 36_524 * century + 1_461 * quad + 365
            * single + day_of_year - 719_468,
{
    lemma_days_before_month(year, month);
    let y = 400 * era + 100 * century + 4 * quad + single;
    assert(y / 4 == 100 * era + 25 * century + quad);
    assert(y / 100 == 4 * era + century);
    assert(y / 400 == era);
    lemma_leap_years_through(y);
    if month <= 2 {
        if day_of_year == 365 {
            assert(y + 1 == 4 * (100 * era + 25 * century + quad + 1));
            assert((y + 1) % 4 == 0);
            if quad == 24 {
                assert(y + 1 == 400 * (era + 1));
                assert((y + 1) % 400 == 0);
            } else {
                assert(y + 1 == 100 * (4 * era + century) + 4 * (quad + 1));
                assert((y + 1) % 100 != 0);
            }
            assert(is_leap_year(year));
        }
    }
}

/// The count of leap years grows by one in a leap year, and only then.
proof fn lemma_leap_years_through(y: int)
    ensures
        leap_years_through(y) == leap_years_through(y - 1) + (if is_leap_year(y) {
            1int
        } else {
            0
        }),
{
    lemma_quotient_step(y, 4);
    lemma_quotient_step(y, 100);
    lemma_quotient_step(y, 400);
    assert(y % 100 == 0 ==> y % 4 == 0);
    assert(y % 400 == 0 ==> y % 100 == 0);
}

proof fn lemma_quotient_step(y: int, n: int)
    requires
        n == 4 || n == 100 || n == 400,
    ensures
        y / n == (y - 1) / n + (if y % n == 0 {
            1int
        } else {
            0
        }),
{
}

/// The date that is `z` days after 1970-01-01, or before it for a negative `z`.
///
/// The calendar repeats every 400 years. Within such an era the years are
/// counted from March, so that a leap day is the last day of its year.
pub fn civil_from_days(z: i64) -> (r: (i64, u32, u32))
    ensures
        is_date(r.0 as int, r.1 as int, r.2 as int),
        day_number(r.0 as int, r.1 as int, r.2 as int) == z,
        -0x4000_0000_0000_0000 <= r.0 <= 0x4000_0000_0000_0000,
{
    // The epoch is day 135,080 of era 4.
    let (eras, days) = divide_down(z, 146_097);
    let (era, day_of_era): (i64, u32) = if days + 135_080 < 146_097 {
        (eras + 4, days + 135_080)
    } else {
        (eras + 5, days + 135_080 - 146_097)
    };
    let (century, quad, single, day_of_year) = split_era(day_of_era);
    let (month, day) = split_year(day_of_year);
    let year_of_era: u32 = 100 * century + 4 * quad + single;
    let march_year: i64 = year_of_era as i64 + era * 400;
    let year: i64 = if month <= 2 {
        march_year + 1
    } else {
        march_year
    };
    proof {
        lemma_era_date(
            era as int,
            century as int,
            quad as int,
            single as int,
            day_of_year as int,
            month as int,
            day as int,
            year as int,
        );
    }
    (year, month, day)
}

// ---------------------------------------------------------------------------
// Timestamps

/// The digits of `n`, with zeros before them up to `width` characters.
pub open spec fn zero_padded(n: nat, width: nat) -> Seq<char> {
    let digits = text::decimal(n);
    if digits.len() >= width {
        digits
    } else {
        Seq::new((width - digits.len()) as nat, |i: int| '0') + digits
    }
}

fn push_padded(out: &mut Vec<char>, n: u64, width: usize)
    ensures
        final(out)@ == old(out)@ + zero_padded(n as nat, width as nat),
{
    let ghost before = out@;
    let mut digits: Vec<char> = Vec::new();
    push_decimal(&mut digits, n as u128);
    assert(digits@ =~= text::decimal(n as nat));
    let mut k: usize = digits.len();
    while k < width
        invariant
            digits@ == text::decimal(n as nat),
            digits@.len() <= k,
            digits@.len() >= width ==> k == digits@.len(),
            digits@.len() < width ==> k <= width,
            out@ == before + Seq::new((k - digits@.len()) as nat, |i: int| '0'),
        decreases width - k,
    {
        out.push('0');
        k = k + 1;
        assert(out@ =~= before + Seq::new((k - digits@.len()) as nat, |i: int| '0'));
    }
    let ghost zeros = out@;
    for i in 0..digits.len()
        invariant
            out@ == zeros + digits@.take(i as int),
    {
        out.push(digits[i]);
        assert(out@ =~= zeros + digits@.take(i + 1));
    }
    assert(digits@.take(digits@.len() as int) =~= digits@);
    assert(out@ =~= before + zero_padded(n as nat, width as nat));
}

/// A year as it stands in a timestamp: at least four characters, with a `-`
/// before year 0.
pub open spec fn year_text(y: int) -> Seq<char> {
    if y >= 0 {
        zero_padded(y as nat, 4)
    } else {
        seq!['-'] + zero_padded((-y) as nat, 3)
    }
}

/// A date and a second of it in the form `2026-09-01T00:00:00Z`.
pub open spec fn timestamp_text(y: int, m: int, d: int, second: int) -> Seq<char> {
    year_text(y) + seq!['-'] + zero_padded(m as nat, 2) + seq!['-'] + zero_padded(d as nat, 2)
        + seq!['T'] + zero_padded((second / 3600) as nat, 2) + seq![':'] + zero_padded(
        (second % 3600 / 60) as nat,
        2,
    ) + seq![':'] + zero_padded((second % 60) as nat, 2) + seq!['Z']
}

/// Whether a text is the timestamp of a time in seconds since the Unix epoch.
pub open spec fn is_timestamp_of(r: Seq<char>, epoch_seconds: int) -> bool {
    exists|y: int, m: int, d: int| #[trigger]
        is_date(y, m, d) && day_number(y, m, d) == epoch_seconds / 86_400 && r == timestamp_text(
            y,
            m,
            d,
            epoch_seconds % 86_400,
        )
}

/// The timestamp of a time in seconds since the Unix epoch, in UTC.
pub fn format_unix_time_utc(epoch_seconds: i64) -> (r: String)
    ensures
        is_timestamp_of(r@, epoch_seconds as int),
{
    let (days, second) = divide_down(epoch_seconds, 86_400);
    assert(days == epoch_seconds as int / 86_400 && second == epoch_seconds as int % 86_400);
    let (year, month, day) = civil_from_days(days);
    let mut out: Vec<char> = Vec::new();
    if year >= 0 {
        push_padded(&mut out, year as u64, 4);
    } else {
        out.push('-');
        push_padded(&mut out, (-year) as u64, 3);
    }
    assert(out@ =~= year_text(year as int));
    out.push('-');
    push_padded(&mut out, month as u64, 2);
    out.push('-');
    push_padded(&mut out, day as u64, 2);
    out.push('T');
    push_padded(&mut out, (second / 3600) as u64, 2);
    out.push(':');
    push_padded(&mut out, (second % 3600 / 60) as u64, 2);
    out.push(':');
    push_padded(&mut out, (second % 60) as u64, 2);
    out.push('Z');
    assert(out@ =~= timestamp_text(year as int, month as int, day as int, second as int));
    assert(is_date(year as int, month as int, day as int));
    string_of(&out)
}

// ---------------------------------------------------------------------------
// Laws

/// The epoch is day 0.
pub proof fn the_epoch_is_day_zero()
    ensures
        is_date(1970, 1, 1),
        day_number(1970, 1, 1) == 0,
{
}

/// The day after a date is the next of its month, or else the first of the next
/// month, or else the first of the next year.
pub proof fn days_follow_each_other(y: int, m: int, d: int)
    requires
        is_date(y, m, d),
    ensures
        d < days_in_month(y, m) ==> day_number(y, m, d + 1) == day_number(y, m, d) + 1,
        d == days_in_month(y, m) && m < 12 ==> day_number(y, m + 1, 1) == day_number(y, m, d) + 1,
        d == days_in_month(y, m) && m == 12 ==> day_number(y + 1, 1, 1) == day_number(y, m, d) + 1,
{
    lemma_days_before_month(y, m);
    lemma_leap_years_through(y);
}

/// No two dates fall on the same day.
pub proof fn a_day_has_one_date(y1: int, m1: int, d1: int, y2: int, m2: int, d2: int)
    requires
        is_date(y1, m1, d1),
        is_date(y2, m2, d2),
        day_number(y1, m1, d1) == day_number(y2, m2, d2),
    ensures
        y1 == y2 && m1 == m2 && d1 == d2,
{
    if y1 < y2 {
        lemma_years_are_apart(y1, m1, d1, y2, m2, d2);
    } else if y2 < y1 {
        lemma_years_are_apart(y2, m2, d2, y1, m1, d1);
    } else {
        lemma_days_before_month(y1, m1);
        lemma_days_before_month(y2, m2);
    }
}

proof fn lemma_years_are_apart(y1: int, m1: int, d1: int, y2: int, m2: int, d2: int)
    requires
        is_date(y1, m1, d1),
        is_date(y2, m2, d2),
        y1 < y2,
    ensures
        day_number(y1, m1, d1) < day_number(y2, m2, d2),
{
    lemma_days_before_month(y1, m1);
    lemma_days_before_month(y2, m2);
    lemma_leap_years_through(y1);
    lemma_leap_years_grow(y1, y2 - 1);
}

proof fn lemma_leap_years_grow(a: int, b: int)
    requires
        a <= b,
    ensures
        leap_years_through(a) <= leap_years_through(b),
    decreases b - a,
{
    if a < b {
        lemma_leap_years_grow(a, b - 1);
        lemma_leap_years_through(b);
    }
}

/// The timestamp of a time is one text and no other.
pub proof fn a_timestamp_is_unique(a: Seq<char>, b: Seq<char>, epoch_seconds: int)
    requires
        is_timestamp_of(a, epoch_seconds),
        is_timestamp_of(b, epoch_seconds),
    ensures
        a == b,
{
    let (y1, m1, d1) = choose|y: int, m: int, d: int| #[trigger]
        is_date(y, m, d) && day_number(y, m, d) == epoch_seconds / 86_400 && a == timestamp_text(
            y,
            m,
            d,
            epoch_seconds % 86_400,
        );
    let (y2, m2, d2) = choose|y: int, m: int, d: int| #[trigger]
        is_date(y, m, d) && day_number(y, m, d) == epoch_seconds / 86_400 && b == timestamp_text(
            y,
            m,
            d,
            epoch_seconds % 86_400,
        );
    a_day_has_one_date(y1, m1, d1, y2, m2, d2);
}

/// Every 400 years the calendar starts again: they have 146,097 days. A year has 365
/// days, and one more every four years, but not in a year that ends a century,
/// except every 400 years.
pub proof fn the_calendar_repeats(y: int, m: int, d: int)
    ensures
        day_number(y + 400, m, d) == day_number(y, m, d) + 146_097,
        day_number(y + 1, 1, 1) - day_number(y, 1, 1) == 365 || day_number(y + 1, 1, 1)
            - day_number(y, 1, 1) == 366,
        day_number(y + 1, 1, 1) - day_number(y, 1, 1) == 366 <==> y % 400 == 0 || (y % 4 == 0 && y
            % 100 != 0),
        y % 4 == 0 ==> day_number(y, 3, 1) - day_number(y, 2, 1) == (if y % 100 == 0 && y % 400
            != 0 {
            28int
        } else {
            29
        }),
        y % 4 != 0 ==> day_number(y, 3, 1) - day_number(y, 2, 1) == 28,
        1 <= m < 12 && m != 2 ==> day_number(y, m + 1, d) - day_number(y, m, d) == (if m == 4 || m
            == 6 || m == 9 || m == 11 {
            30int
        } else {
            31
        }),
        1 <= m <= 12 ==> day_number(y, m, d + 1) == day_number(y, m, d) + 1,
{
    lemma_months_repeat(y, m);
    assert((y + 400 - 1) / 4 == (y - 1) / 4 + 100);
    assert((y + 400 - 1) / 100 == (y - 1) / 100 + 4);
    assert((y + 400 - 1) / 400 == (y - 1) / 400 + 1);
    lemma_leap_years_through(y);
    reveal_with_fuel(days_before_month, 4);
}

proof fn lemma_months_repeat(y: int, m: int)
    ensures
        days_before_month(y + 400, m) == days_before_month(y, m),
    decreases m,
{
    if m > 1 {
        lemma_months_repeat(y, m - 1);
    }
}

/// Zeros before a number keep what it stands for, and make it as wide as asked for.
pub proof fn zeros_fill_the_width(n: nat, width: nat, max: nat)
    requires
        n <= max,
    ensures
        text::parsed_number(zero_padded(n, width), max) == Some(n),
        zero_padded(n, width).len() >= width,
        zero_padded(n, width).len() > width ==> zero_padded(n, width) == text::decimal(n),
{
    let digits = text::decimal(n);
    text::decimal_reads_back(n, max);
    text::lemma_decimal_digits(n);
    assert(text::is_digit(digits[0]));
    if digits.len() < width {
        lemma_zeros_before(digits, (width - digits.len()) as nat, max);
    }
}

proof fn lemma_zeros_before(digits: Seq<char>, k: nat, max: nat)
    requires
        digits.len() > 0,
        digits[0] != '+',
    ensures
        text::parsed_number(Seq::new(k, |i: int| '0') + digits, max) == text::parsed_number(
            digits,
            max,
        ),
    decreases k,
{
    if k == 0 {
        assert(Seq::new(k, |i: int| '0') + digits =~= digits);
    } else {
        let shorter = Seq::new((k - 1) as nat, |i: int| '0') + digits;
        lemma_zeros_before(digits, (k - 1) as nat, max);
        text::signs_and_zeros_do_not_count(shorter, max);
        assert(Seq::new(k, |i: int| '0') + digits =~= seq!['0'] + shorter);
    }
}

proof fn lemma_width_of_padded(n: nat, width: nat)
    requires
        width == 2 && n < 100 || width == 4 && n < 10_000,
    ensures
        zero_padded(n, width).len() == width,
{
    reveal_with_fuel(text::decimal, 5);
}

/// A timestamp of a year with four digits says, in this order and with these marks
/// between them, the year, the month, the day, and the hour, the minute and the second
/// of the day.
pub proof fn a_timestamp_says_when(y: int, m: int, d: int, second: int)
    requires
        is_date(y, m, d),
        0 <= y < 10_000,
        0 <= second < 86_400,
    ensures
        ({
            let t = timestamp_text(y, m, d, second);
            let max = 9_999nat;
            &&& t.len() == 20
            &&& text::parsed_number(t.subrange(0, 4), max) == Some(y as nat)
            &&& t[4] == '-'
            &&& text::parsed_number(t.subrange(5, 7), max) == Some(m as nat)
            &&& t[7] == '-'
            &&& text::parsed_number(t.subrange(8, 10), max) == Some(d as nat)
            &&& t[10] == 'T'
            &&& t[13] == ':'
            &&& t[16] == ':'
            &&& t[19] == 'Z'
            &&& exists|hour: nat, minute: nat, rest: nat|
                text::parsed_number(t.subrange(11, 13), max) == Some(hour) && text::parsed_number(
                    t.subrange(14, 16),
                    max,
                ) == Some(minute) && text::parsed_number(t.subrange(17, 19), max) == Some(rest)
                    && minute < 60 && rest < 60 && #[trigger] (3600 * hour + 60 * minute + rest)
                    == second
        }),
{
    let t = timestamp_text(y, m, d, second);
    let hour = (second / 3600) as nat;
    let minute = (second % 3600 / 60) as nat;
    let rest = (second % 60) as nat;
    let year = zero_padded(y as nat, 4);
    let month = zero_padded(m as nat, 2);
    let day = zero_padded(d as nat, 2);
    let h = zero_padded(hour, 2);
    let min = zero_padded(minute, 2);
    let s = zero_padded(rest, 2);
    lemma_width_of_padded(y as nat, 4);
    lemma_width_of_padded(m as nat, 2);
    lemma_width_of_padded(d as nat, 2);
    lemma_width_of_padded(hour, 2);
    lemma_width_of_padded(minute, 2);
    lemma_width_of_padded(rest, 2);
    zeros_fill_the_width(y as nat, 4, 9_999);
    zeros_fill_the_width(m as nat, 2, 9_999);
    zeros_fill_the_width(d as nat, 2, 9_999);
    zeros_fill_the_width(hour, 2, 9_999);
    zeros_fill_the_width(minute, 2, 9_999);
    zeros_fill_the_width(rest, 2, 9_999);
    assert(t.subrange(0, 4) =~= year);
    assert(t.subrange(5, 7) =~= month);
    assert(t.subrange(8, 10) =~= day);
    assert(t.subrange(11, 13) =~= h);
    assert(t.subrange(14, 16) =~= min);
    assert(t.subrange(17, 19) =~= s);
    assert(3600 * hour + 60 * minute + rest == second);
}

} // verus!
