//! Dates of the proleptic Gregorian calendar, counted in days from
//! 1970-01-01.
use vstd::prelude::*;
use crate::text::{push_decimal_padded, decimal, zero_padded, string_push};

verus! {

/// Whether `y` is a leap year.
pub open spec fn is_leap_year(y: int) -> bool {
    y % 4 == 0 && (y % 100 != 0 || y % 400 == 0)
}

/// Days in month `m` (1 to 12) of year `y`.
pub open spec fn days_in_month(y: int, m: int) -> int {
    if m == 2 {
        if is_leap_year(y) { 29 } else { 28 }
    } else if m == 4 || m == 6 || m == 9 || m == 11 {
        30
    } else {
        31
    }
}

/// Days of the months before month `k` of a year that starts in March
/// (`k` = 0 is March, 11 is February).
pub open spec fn march_offset(k: int) -> int {
    if k <= 0 { 0 }
    else if k == 1 { 31 }
    else if k == 2 { 61 }
    else if k == 3 { 92 }
    else if k == 4 { 122 }
    else if k == 5 { 153 }
    else if k == 6 { 184 }
    else if k == 7 { 214 }
    else if k == 8 { 245 }
    else if k == 9 { 275 }
    else if k == 10 { 306 }
    else { 337 }
}

/// Leap days in the years 1 to `n` (for `n` >= 0).
pub open spec fn leap_days(n: int) -> int {
    n / 4 - n / 100 + n / 400
}

/// Days from 1970-01-01 to the date `y`-`m`-`d`: counting years from
/// March of year 0, each has 365 days plus its leap day, then the months
/// of the current year before `m`, then the days before `d`.
pub open spec fn days_from_civil(y: int, m: int, d: int) -> int {
    let ym = if m <= 2 { y - 1 } else { y };
    let k = if m > 2 { m - 3 } else { m + 9 };
    365 * ym + leap_days(ym) + march_offset(k) + d - 1 - 719468
}

/// Whether `y`-`m`-`d` is a valid date.
pub open spec fn valid_date(y: int, m: int, d: int) -> bool {
    1 <= m <= 12 && 1 <= d <= days_in_month(y, m)
}

/// Days from the start of an era (400 years from March of a year divisible
/// by 400) to the start of its year `n`.
pub open spec fn era_year_start(n: int) -> int {
    365 * n + n / 4 - n / 100 + n / 400
}

proof fn lemma_year_of_era(doe: int)
    requires
        0 <= doe < 146097,
    ensures
        ({
            let yoe = (doe - doe / 1460 + doe / 36524 - doe / 146096) / 365;
            &&& 0 <= yoe < 400
            &&& era_year_start(yoe) <= doe < era_year_start(yoe + 1)
        }),
{
}

proof fn lemma_year_length(n: int)
    requires
        0 <= n < 400,
    ensures
        era_year_start(n + 1) - era_year_start(n) == if is_leap_year(n + 1) { 366int } else { 365int },
{
}

proof fn lemma_era_shift(era: int, n: int)
    requires
        0 <= n < 400,
    ensures
        365 * (400 * era + n) + leap_days(400 * era + n) == 146097 * era + era_year_start(n),
        is_leap_year(400 * era + n + 1) == is_leap_year(n + 1),
{
    assert((400 * era + n) / 4 == 100 * era + n / 4);
    assert((400 * era + n) / 100 == 4 * era + n / 100);
    assert((400 * era + n) / 400 == era + n / 400);
    assert((400 * era + n + 1) % 4 == (n + 1) % 4);
    assert((400 * era + n + 1) % 100 == (n + 1) % 100);
    assert((400 * era + n + 1) % 400 == (n + 1) % 400);
}

proof fn lemma_month_of_year(doy: int, leap: bool)
    requires
        0 <= doy < if leap { 366int } else { 365int },
    ensures
        ({
            let mp = (5 * doy + 2) / 153;
            let m = if mp < 10 { mp + 3 } else { mp - 9 };
            &&& 0 <= mp <= 11
            &&& (153 * mp + 2) / 5 == march_offset(mp)
            &&& march_offset(mp) <= doy
            &&& doy - march_offset(mp) < if mp == 11 { if leap { 29int } else { 28int } } else { days_in_month(0, m) }
        }),
{
}

/// The date of day `z` (days from 1970-01-01; negative days fall before
/// it).
pub fn civil_from_days(z: i64) -> (r: (i64, u32, u32))
    requires
        z <= i64::MAX - 719_468,
    ensures
        valid_date(r.0 as int, r.1 as int, r.2 as int),
        days_from_civil(r.0 as int, r.1 as int, r.2 as int) == z,
        z >= 0 ==> r.0 >= 1970,
{
    let z = z + 719_468;
    let era = if z >= 0 { z } else { z - 146_096 } / 146_097;
    proof {
        assert(era == (z as int) / 146_097);
    }
    let doe = (z - era * 146_097) as u64;
    proof {
        lemma_year_of_era(doe as int);
    }
    let yoe = (doe - doe / 1_460 + doe / 36_524 - doe / 146_096) / 365;
    let y = yoe as i64 + era * 400;
    let doy = doe - (365 * yoe + yoe / 4 - yoe / 100);
    proof {
        lemma_year_length(yoe as int);
        lemma_era_shift(era as int, yoe as int);
        lemma_month_of_year(doy as int, is_leap_year(yoe + 1));
    }
    let mp = (5 * doy + 2) / 153;
    let d = (doy - (153 * mp + 2) / 5 + 1) as u32;
    let m = if mp < 10 { mp + 3 } else { mp - 9 } as u32;
    (if m <= 2 { y + 1 } else { y }, m, d)
}

/// Days from March 1 of year 0 to March 1 of year `n`.
pub open spec fn year_start(n: int) -> int {
    365 * n + leap_days(n)
}

proof fn lemma_year_start_step(n: int)
    ensures
        year_start(n + 1) - year_start(n) == if is_leap_year(n + 1) { 366int } else { 365int },
{
}

proof fn lemma_year_start_mono(a: int, b: int)
    requires
        a <= b,
    ensures
        a < b ==> year_start(a + 1) <= year_start(b),
    decreases b - a,
{
    if a < b {
        lemma_year_start_mono(a + 1, b);
        lemma_year_start_step(a);
    }
}

/// Where in its March-based year a valid date falls.
proof fn lemma_offset_in_year(y: int, m: int, d: int)
    requires
        valid_date(y, m, d),
    ensures
        ({
            let ym = if m <= 2 { y - 1 } else { y };
            let k = if m > 2 { m - 3 } else { m + 9 };
            &&& 0 <= march_offset(k) + d - 1 < year_start(ym + 1) - year_start(ym)
            &&& 0 <= k <= 11
            &&& (k < 11 ==> march_offset(k) + d - 1 < march_offset(k + 1))
        }),
{
    let ym = if m <= 2 { y - 1 } else { y };
    lemma_year_start_step(ym);
}

/// Distinct valid dates are distinct days: a day count names one date.
pub proof fn law_days_from_civil_injective(y1: int, m1: int, d1: int, y2: int, m2: int, d2: int)
    requires
        valid_date(y1, m1, d1),
        valid_date(y2, m2, d2),
        days_from_civil(y1, m1, d1) == days_from_civil(y2, m2, d2),
    ensures
        y1 == y2 && m1 == m2 && d1 == d2,
{
    lemma_offset_in_year(y1, m1, d1);
    lemma_offset_in_year(y2, m2, d2);
    let ym1 = if m1 <= 2 { y1 - 1 } else { y1 };
    let ym2 = if m2 <= 2 { y2 - 1 } else { y2 };
    if ym1 < ym2 {
        lemma_year_start_mono(ym1, ym2);
    } else if ym2 < ym1 {
        lemma_year_start_mono(ym2, ym1);
    }
    assert(ym1 == ym2);
}

/// `y`-`m`-`d` as `YYYY/MM/DD` (years with more digits keep them all).
pub open spec fn date_text(y: nat, m: nat, d: nat) -> Seq<char> {
    zero_padded(decimal(y), 4) + seq!['/'] + zero_padded(decimal(m), 2) + seq!['/'] + zero_padded(decimal(d), 2)
}

/// The date of `secs` seconds after 1970-01-01 00:00 UTC, as `YYYY/MM/DD`.
pub fn format_date(secs: u64) -> (r: String)
    ensures
        exists|y: int, m: int, d: int|
            y >= 1970 && valid_date(y, m, d) && days_from_civil(y, m, d) == secs / 86_400
                && r@ == date_text(y as nat, m as nat, d as nat),
{
    let days = secs / 86_400;
    let (y, m, d) = civil_from_days(days as i64);
    let mut s = String::new();
    push_decimal_padded(&mut s, y as u64, 4);
    string_push(&mut s, '/');
    push_decimal_padded(&mut s, m as u64, 2);
    string_push(&mut s, '/');
    push_decimal_padded(&mut s, d as u64, 2);
    assert(s@ =~= date_text(y as nat, m as nat, d as nat));
    s
}

} // verus!
