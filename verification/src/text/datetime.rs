//! Civil calendar arithmetic in the fixed Korea Standard Time offset.
//!
//! Log lines carry a civil date (`YYYY-MM-DD`) and a civil time
//! (`HH:MM:SS`) that are read as a wall-clock instant nine hours ahead of
//! UTC and converted to seconds since the epoch.  The offset is a fixed
//! constant of the line format; no daylight-saving rules apply.  Dates are
//! proleptic Gregorian; four-digit years bound the range at 9999-12-31.

use vstd::prelude::*;
use vstd::arithmetic::div_mod::{
    lemma_div_is_ordered,
    lemma_div_is_ordered_by_denominator,
    lemma_fundamental_div_mod,
    lemma_fundamental_div_mod_converse,
    lemma_mod_bound,
    lemma_mod_multiples_basic,
};

verus! {

/// Proleptic Gregorian leap year.
pub open spec fn is_leap_year(y: int) -> bool {
    y % 4 == 0 && (y % 100 != 0 || y % 400 == 0)
}

pub open spec fn days_in_year(y: int) -> int {
    if is_leap_year(y) {
        366
    } else {
        365
    }
}

pub open spec fn days_in_month(y: int, m: int) -> int {
    if m == 2 {
        if is_leap_year(y) {
            29
        } else {
            28
        }
    } else if m == 4 || m == 6 || m == 9 || m == 11 {
        30
    } else {
        31
    }
}

/// Number of leap years in `[1, y - 1]`.
pub open spec fn leap_years_before(y: int) -> int {
    (y - 1) / 4 - (y - 1) / 100 + (y - 1) / 400
}

/// Days from 1970-01-01 to `y`-01-01; negative for earlier years.
pub open spec fn days_before_year(y: int) -> int {
    365 * (y - 1970) + leap_years_before(y) - leap_years_before(1970)
}

/// Days from `y`-01-01 to `y`-`m`-01.
pub open spec fn days_before_month(y: int, m: int) -> int
    decreases m,
{
    if m <= 1 {
        0
    } else {
        days_before_month(y, m - 1) + days_in_month(y, m - 1)
    }
}

pub open spec fn valid_date(y: int, m: int, d: int) -> bool {
    1 <= m <= 12 && 1 <= d <= days_in_month(y, m)
}

pub open spec fn valid_time(h: int, mi: int, s: int) -> bool {
    0 <= h <= 23 && 0 <= mi <= 59 && 0 <= s <= 59
}

/// Days since 1970-01-01 of a civil date.
pub open spec fn days_from_civil(y: int, m: int, d: int) -> int {
    days_before_year(y) + days_before_month(y, m) + (d - 1)
}

/// Seconds since the epoch of the civil instant `y-m-d h:mi:s` read in
/// the fixed UTC+9 offset.
pub open spec fn kst_epoch(y: int, m: int, d: int, h: int, mi: int, s: int) -> int {
    days_from_civil(y, m, d) * 86400 + h * 3600 + mi * 60 + s - 32400
}

/// The largest encodable instant, 9999-12-31 23:59:59 in UTC+9.
pub open spec fn max_epoch() -> int {
    kst_epoch(9999, 12, 31, 23, 59, 59)
}

/// Dividing `y` and `y - 1` by `d` differs exactly when `d` divides `y`.
proof fn lemma_div_diff_one(y: int, d: int)
    requires
        d >= 1,
    ensures
        y / d - (y - 1) / d == if y % d == 0 {
            1int
        } else {
            0int
        },
{
    let q = y / d;
    let r = y % d;
    lemma_fundamental_div_mod(y, d);
    lemma_mod_bound(y, d);
    assert((q - 1) * d == q * d - d) by (nonlinear_arith);
    if r == 0 {
        lemma_fundamental_div_mod_converse(y - 1, d, q - 1, d - 1);
    } else {
        lemma_fundamental_div_mod_converse(y - 1, d, q, r - 1);
    }
}

/// Divisibility by 400 gives divisibility by 100, which gives 4.
proof fn lemma_mod_implications(y: int)
    ensures
        y % 400 == 0 ==> y % 100 == 0,
        y % 100 == 0 ==> y % 4 == 0,
{
    if y % 400 == 0 {
        lemma_fundamental_div_mod(y, 400);
        assert(y == (4 * (y / 400)) * 100);
        lemma_mod_multiples_basic(4 * (y / 400), 100);
    }
    if y % 100 == 0 {
        lemma_fundamental_div_mod(y, 100);
        assert(y == (25 * (y / 100)) * 4);
        lemma_mod_multiples_basic(25 * (y / 100), 4);
    }
}

/// Stepping a year forward adds that year's day count.
pub proof fn lemma_days_before_year_step(y: int)
    ensures
        days_before_year(y + 1) == days_before_year(y) + days_in_year(y),
{
    lemma_div_diff_one(y, 4);
    lemma_div_diff_one(y, 100);
    lemma_div_diff_one(y, 400);
    lemma_mod_implications(y);
}

/// Day counts of whole years, bounded by the shortest and longest year.
pub proof fn lemma_days_before_year_bounds(y: int)
    requires
        1970 <= y,
    ensures
        365 * (y - 1970) <= days_before_year(y) <= 366 * (y - 1970),
    decreases y - 1970,
{
    if y > 1970 {
        lemma_days_before_year_bounds(y - 1);
        lemma_days_before_year_step(y - 1);
    }
}

pub proof fn lemma_days_before_year_mono(a: int, b: int)
    requires
        a <= b,
    ensures
        days_before_year(a) <= days_before_year(b),
    decreases b - a,
{
    if a < b {
        lemma_days_before_year_mono(a, b - 1);
        lemma_days_before_year_step(b - 1);
    }
}

/// The twelve months of a year sum to the year's day count.
pub proof fn lemma_months_fill_year(y: int)
    ensures
        days_before_month(y, 13) == days_in_year(y),
{
    assert(days_before_month(y, 1) == 0);
    assert(days_before_month(y, 2) == days_before_month(y, 1) + days_in_month(y, 1));
    assert(days_before_month(y, 3) == days_before_month(y, 2) + days_in_month(y, 2));
    assert(days_before_month(y, 4) == days_before_month(y, 3) + days_in_month(y, 3));
    assert(days_before_month(y, 5) == days_before_month(y, 4) + days_in_month(y, 4));
    assert(days_before_month(y, 6) == days_before_month(y, 5) + days_in_month(y, 5));
    assert(days_before_month(y, 7) == days_before_month(y, 6) + days_in_month(y, 6));
    assert(days_before_month(y, 8) == days_before_month(y, 7) + days_in_month(y, 7));
    assert(days_before_month(y, 9) == days_before_month(y, 8) + days_in_month(y, 8));
    assert(days_before_month(y, 10) == days_before_month(y, 9) + days_in_month(y, 9));
    assert(days_before_month(y, 11) == days_before_month(y, 10) + days_in_month(y, 10));
    assert(days_before_month(y, 12) == days_before_month(y, 11) + days_in_month(y, 11));
    assert(days_before_month(y, 13) == days_before_month(y, 12) + days_in_month(y, 12));
}

pub proof fn lemma_days_before_month_nonneg(y: int, m: int)
    requires
        1 <= m,
    ensures
        0 <= days_before_month(y, m),
    decreases m,
{
    if m > 1 {
        lemma_days_before_month_nonneg(y, m - 1);
    }
}

/// Every month starts no later than the year's last day.
pub proof fn lemma_days_before_month_in_year(y: int, m: int)
    requires
        1 <= m <= 12,
    ensures
        days_before_month(y, m) + days_in_month(y, m) <= days_in_year(y),
    decreases 13 - m,
{
    if m == 12 {
        lemma_months_fill_year(y);
    } else {
        lemma_days_before_month_in_year(y, m + 1);
        assert(days_before_month(y, m + 1) == days_before_month(y, m) + days_in_month(y, m));
        assert(days_in_month(y, m + 1) >= 28);
    }
}

/// A valid date in a year up to 1969 lies strictly before the epoch day.
pub proof fn lemma_pre_epoch_negative(y: int, m: int, d: int)
    requires
        valid_date(y, m, d),
        y <= 1969,
    ensures
        days_from_civil(y, m, d) < 0,
{
    lemma_days_before_month_in_year(y, m);
    lemma_days_before_year_step(y);
    lemma_days_before_year_mono(y + 1, 1970);
    assert(leap_years_before(1970) - leap_years_before(1970) == 0);
    assert(days_before_year(1970) == 0);
}

/// Evaluates the divisions in `days_before_year` at the range limits.
proof fn lemma_year_constants()
    ensures
        leap_years_before(1970) == 477,
        days_before_year(10000) == 2932897,
        days_before_year(9999) == 2932532,
{
    lemma_fundamental_div_mod_converse(1969, 4, 492, 1);
    lemma_fundamental_div_mod_converse(1969, 100, 19, 69);
    lemma_fundamental_div_mod_converse(1969, 400, 4, 369);
    lemma_fundamental_div_mod_converse(9999, 4, 2499, 3);
    lemma_fundamental_div_mod_converse(9999, 100, 99, 99);
    lemma_fundamental_div_mod_converse(9999, 400, 24, 399);
    lemma_fundamental_div_mod_converse(9998, 4, 2499, 2);
    lemma_fundamental_div_mod_converse(9998, 100, 99, 98);
    lemma_fundamental_div_mod_converse(9998, 400, 24, 398);
}

/// Day numbers of the supported dates fit under `days_before_year(10000)`.
pub proof fn lemma_days_range(y: int, m: int, d: int)
    requires
        valid_date(y, m, d),
        1970 <= y <= 9999,
    ensures
        0 <= days_from_civil(y, m, d) <= 2932896,
{
    lemma_days_before_year_bounds(y);
    lemma_days_before_month_nonneg(y, m);
    lemma_days_before_month_in_year(y, m);
    lemma_days_before_year_step(y);
    lemma_days_before_year_mono(y + 1, 10000);
    lemma_year_constants();
}

/// The epoch range of the supported instants, and the value of
/// `max_epoch`.
pub proof fn lemma_max_epoch()
    ensures
        max_epoch() == 253402268399,
{
    lemma_year_constants();
    lemma_days_before_year_step(9999);
    lemma_months_fill_year(9999);
    assert(days_before_month(9999, 13) == days_before_month(9999, 12) + days_in_month(9999, 12));
    assert(days_from_civil(9999, 12, 31) == 2932896);
}

/// Days in month `m` of year `y`.
pub fn month_days(y: u64, m: u64) -> (r: u64)
    requires
        1 <= m <= 12,
    ensures
        r == days_in_month(y as int, m as int),
{
    if m == 2 {
        if y % 4 == 0 && (y % 100 != 0 || y % 400 == 0) {
            29
        } else {
            28
        }
    } else if m == 4 || m == 6 || m == 9 || m == 11 {
        30
    } else {
        31
    }
}

/// Days from the start of year `y` to the start of month `m`.
fn month_offset(y: u64, m: u64) -> (r: u64)
    requires
        1 <= m <= 12,
    ensures
        r == days_before_month(y as int, m as int),
        r <= 341,
{
    let mut acc: u64 = 0;
    let mut k: u64 = 1;
    while k < m
        invariant
            1 <= k <= m <= 12,
            acc == days_before_month(y as int, k as int),
            acc <= 31 * (k - 1),
        decreases m - k,
    {
        acc = acc + month_days(y, k);
        k = k + 1;
    }
    acc
}

/// Epoch seconds of a valid civil instant read in UTC+9, or `None` when
/// the instant lies before the epoch.
#[verifier::loop_isolation(false)]
pub fn epoch_from_civil(y: u64, m: u64, d: u64, h: u64, mi: u64, s: u64) -> (r: Option<u64>)
    requires
        valid_date(y as int, m as int, d as int),
        y <= 9999,
        valid_time(h as int, mi as int, s as int),
    ensures
        match r {
            Option::Some(t) => t == kst_epoch(y as int, m as int, d as int, h as int, mi as int, s as int)
                && t <= max_epoch(),
            Option::None => kst_epoch(y as int, m as int, d as int, h as int, mi as int, s as int) < 0,
        },
{
    if y < 1970 {
        proof {
            lemma_pre_epoch_negative(y as int, m as int, d as int);
        }
        return Option::None;
    }
    proof {
        lemma_div_is_ordered_by_denominator((y - 1) as int, 4, 100);
        lemma_year_constants();
        lemma_days_before_year_bounds(y as int);
    }
    let ly: u64 = (y - 1) / 4 - (y - 1) / 100 + (y - 1) / 400;
    proof {
        assert(ly == leap_years_before(y as int));
        assert(ly >= 477);
    }
    let base: u64 = 365 * (y - 1970);
    let days: u64 = base + (ly - 477) + month_offset(y, m) + (d - 1);
    proof {
        assert(days == days_from_civil(y as int, m as int, d as int));
        lemma_days_range(y as int, m as int, d as int);
    }
    let total: u64 = days * 86400 + h * 3600 + mi * 60 + s;
    if total < 32400 {
        return Option::None;
    }
    proof {
        lemma_max_epoch();
    }
    Option::Some(total - 32400)
}

fn year_days(y: u64) -> (r: u64)
    ensures
        r == days_in_year(y as int),
{
    if y % 4 == 0 && (y % 100 != 0 || y % 400 == 0) {
        366
    } else {
        365
    }
}

/// Splits epoch seconds into the civil instant it denotes in UTC+9.
#[verifier::loop_isolation(false)]
pub fn civil_from_epoch(t: u64) -> (r: (u64, u64, u64, u64, u64, u64))
    requires
        t <= max_epoch(),
    ensures
        valid_date(r.0 as int, r.1 as int, r.2 as int),
        valid_time(r.3 as int, r.4 as int, r.5 as int),
        1970 <= r.0 <= 9999,
        kst_epoch(r.0 as int, r.1 as int, r.2 as int, r.3 as int, r.4 as int, r.5 as int)
            == t,
{
    proof {
        lemma_max_epoch();
    }
    let total: u64 = t + 32400;
    let days: u64 = total / 86400;
    let sod: u64 = total % 86400;
    proof {
        lemma_fundamental_div_mod(total as int, 86400);
        lemma_mod_bound(total as int, 86400);
        lemma_div_is_ordered(total as int, 253402300799, 86400);
        lemma_fundamental_div_mod_converse(253402300799, 86400, 2932896, 86399);
    }
    let h: u64 = sod / 3600;
    let rem: u64 = sod % 3600;
    let mi: u64 = rem / 60;
    let s: u64 = rem % 60;
    proof {
        lemma_fundamental_div_mod(sod as int, 3600);
        lemma_mod_bound(sod as int, 3600);
        lemma_div_is_ordered(sod as int, 86399, 3600);
        lemma_fundamental_div_mod_converse(86399, 3600, 23, 3599);
        lemma_fundamental_div_mod(rem as int, 60);
        lemma_mod_bound(rem as int, 60);
        lemma_div_is_ordered(rem as int, 3599, 60);
        lemma_fundamental_div_mod_converse(3599, 60, 59, 59);
    }
    let mut y: u64 = 1970;
    let mut dd: u64 = days;
    proof {
        lemma_year_constants();
        assert(days_before_year(1970) == 0);
    }
    while dd >= year_days(y)
        invariant
            1970 <= y <= 9999,
            days_before_year(y as int) + dd == days,
        decreases dd,
    {
        proof {
            lemma_days_before_year_step(y as int);
            if y == 9999 {
                assert(days_before_year(9999) == 2932532);
                assert(false);
            }
        }
        dd = dd - year_days(y);
        y = y + 1;
    }
    let ghost dd0: int = dd as int;
    let mut m: u64 = 1;
    while dd >= month_days(y, m)
        invariant
            1 <= m <= 12,
            days_before_month(y as int, m as int) + dd == dd0,
            dd0 < days_in_year(y as int),
        decreases 12 - m,
    {
        proof {
            assert(days_before_month(y as int, m as int + 1) == days_before_month(
                y as int,
                m as int,
            ) + days_in_month(y as int, m as int));
            if m == 12 {
                lemma_months_fill_year(y as int);
                assert(false);
            }
        }
        dd = dd - month_days(y, m);
        m = m + 1;
    }
    let d: u64 = dd + 1;
    (y, m, d, h, mi, s)
}

} // verus!
