//! Time: unix seconds internally, ISO dates at the edges.
//!
//! Erosion physics work in days; timestamps are unix seconds (i64). Query
//! time (`as_of`) is a parameter everywhere — past and future are the same
//! operation. Date arithmetic uses Howard Hinnant's civil-days algorithm,
//! so there is no calendar dependency.
//!
//! The calendar is the proleptic Gregorian one with astronomical year
//! numbering (year 0 exists and is a leap year). [`epoch_days`] states, in
//! calendar terms, the day number of a date; [`days_from_civil`] and
//! [`civil_from_days`] are proved to compute it and its inverse.

use vstd::prelude::*;
use vstd::arithmetic::div_mod::{lemma_fundamental_div_mod, lemma_fundamental_div_mod_converse};

use crate::error::Error;
use crate::text::{
    all_digits, ascii_chars, ascii_string, chars_of, concat3, debug_quoted, debug_str,
    digits_value, has_sign, is_digit, is_whitespace, parse_i64, parse_i64_chars, trim,
    trim_bounds, trim_end_by, trim_end_char, trim_start, unsigned_part,
};

verus! {

// ------------------------------------------------------------ the calendar

/// Gregorian leap-year rule.
pub open spec fn is_leap(y: int) -> bool {
    y % 4 == 0 && (y % 100 != 0 || y % 400 == 0)
}

/// Leap years among the years 1..=y (counted negatively below year 1).
pub open spec fn leap_years_through(y: int) -> int {
    y / 4 - y / 100 + y / 400
}

/// Days from 1970-01-01 to January 1st of year `y`.
pub open spec fn days_before_year(y: int) -> int {
    365 * (y - 1970) + leap_years_through(y - 1) - leap_years_through(1969)
}

/// Length of month `m` (1..=12) of year `y`.
pub open spec fn month_days(y: int, m: int) -> int {
    if m == 2 {
        if is_leap(y) {
            29
        } else {
            28
        }
    } else if m == 4 || m == 6 || m == 9 || m == 11 {
        30
    } else {
        31
    }
}

/// Days of year `y` before the first of month `m` (1..=12).
pub open spec fn days_before_month(y: int, m: int) -> int {
    let common: int = if m == 1 {
        0
    } else if m == 2 {
        31
    } else if m == 3 {
        59
    } else if m == 4 {
        90
    } else if m == 5 {
        120
    } else if m == 6 {
        151
    } else if m == 7 {
        181
    } else if m == 8 {
        212
    } else if m == 9 {
        243
    } else if m == 10 {
        273
    } else if m == 11 {
        304
    } else {
        334
    };
    common + if m > 2 && is_leap(y) {
        1int
    } else {
        0int
    }
}

/// A calendar date that exists.
pub open spec fn valid_date(y: int, m: int, d: int) -> bool {
    1 <= m <= 12 && 1 <= d <= month_days(y, m)
}

/// Day number of a date: days since 1970-01-01 (negative before). A day
/// past the end of its month counts on into the following days.
pub open spec fn epoch_days(y: int, m: int, d: int) -> int {
    days_before_year(y) + days_before_month(y, m) + d - 1
}

/// Successive years start 365 or 366 days apart, and 1970 starts at day 0:
/// this pins [`days_before_year`] down.
pub proof fn lemma_days_before_year_step(y: int)
    ensures
        days_before_year(1970) == 0,
        days_before_year(y + 1) == days_before_year(y) + 365 + if is_leap(y) {
            1int
        } else {
            0int
        },
{
    lemma_floor_step(y, 4);
    lemma_floor_step(y, 100);
    lemma_floor_step(y, 400);
}

/// Distinct existing dates have distinct day numbers, so a day number names
/// exactly one date: [`civil_from_days`] inverts [`days_from_civil`] on every
/// existing date, as [`days_from_civil`] inverts [`civil_from_days`].
pub proof fn law_epoch_days_injective(y1: int, m1: int, d1: int, y2: int, m2: int, d2: int)
    requires
        valid_date(y1, m1, d1),
        valid_date(y2, m2, d2),
        epoch_days(y1, m1, d1) == epoch_days(y2, m2, d2),
    ensures
        y1 == y2 && m1 == m2 && d1 == d2,
{
    lemma_date_within_year(y1, m1, d1);
    lemma_date_within_year(y2, m2, d2);
    if y1 < y2 {
        lemma_years_ordered(y1, y2);
    } else if y2 < y1 {
        lemma_years_ordered(y2, y1);
    } else if m1 < m2 {
        lemma_months_ordered(y1, m1, m2);
    } else if m2 < m1 {
        lemma_months_ordered(y1, m2, m1);
    }
}

proof fn lemma_years_ordered(a: int, b: int)
    requires
        a < b,
    ensures
        days_before_year(a + 1) <= days_before_year(b),
    decreases b - a,
{
    if a + 1 < b {
        lemma_years_ordered(a + 1, b);
        lemma_days_before_year_step(a + 1);
    }
}

proof fn lemma_months_ordered(y: int, a: int, b: int)
    requires
        1 <= a < b <= 12,
    ensures
        days_before_month(y, a) + month_days(y, a) <= days_before_month(y, b),
{
}

proof fn lemma_date_within_year(y: int, m: int, d: int)
    requires
        valid_date(y, m, d),
    ensures
        days_before_year(y) <= epoch_days(y, m, d) < days_before_year(y + 1),
        days_before_month(y, m) <= epoch_days(y, m, d) - days_before_year(y) < days_before_month(
            y,
            m,
        ) + month_days(y, m),
{
    lemma_days_before_year_step(y);
}

// ------------------------------------------------------------ division helpers

/// Rust's `/` on integers: rounds toward zero (`b > 0`).
pub open spec fn tdiv(a: int, b: int) -> int {
    if a >= 0 {
        a / b
    } else {
        -((-a) / b)
    }
}

/// Rust's `%` on integers: the remainder of [`tdiv`].
pub open spec fn tmod(a: int, b: int) -> int {
    a - b * tdiv(a, b)
}

proof fn lemma_floor_step(x: int, k: int)
    requires
        k > 0,
    ensures
        x / k - (x - 1) / k == if x % k == 0 {
            1int
        } else {
            0int
        },
{
    lemma_fundamental_div_mod(x, k);
    let q = x / k;
    let r = x % k;
    if r == 0 {
        assert(x - 1 == (q - 1) * k + (k - 1)) by (nonlinear_arith)
            requires
                x == k * q + r,
                r == 0,
        ;
        lemma_fundamental_div_mod_converse(x - 1, k, q - 1, k - 1);
    } else {
        assert(x - 1 == q * k + (r - 1)) by (nonlinear_arith)
            requires
                x == k * q + r,
        ;
        lemma_fundamental_div_mod_converse(x - 1, k, q, r - 1);
    }
}

proof fn lemma_div_shift(e: int, x: int, k: int, q: int)
    requires
        k > 0,
        q == 400int / k,
        400int % k == 0,
    ensures
        (400 * e + x) / k == q * e + x / k,
        (400 * e + x) % k == x % k,
{
    lemma_fundamental_div_mod(x, k);
    lemma_fundamental_div_mod(400, k);
    assert(400 * e + x == (q * e + x / k) * k + x % k) by (nonlinear_arith)
        requires
            x == k * (x / k) + x % k,
            q * k == 400,
    ;
    lemma_fundamental_div_mod_converse(400 * e + x, k, q * e + x / k, x % k);
}

proof fn lemma_leaps_shift(e: int, x: int)
    ensures
        leap_years_through(400 * e + x) == 97 * e + leap_years_through(x),
        is_leap(400 * e + x) == is_leap(x),
{
    lemma_div_shift(e, x, 4, 100);
    lemma_div_shift(e, x, 100, 4);
    lemma_div_shift(e, x, 400, 1);
}

/// `tdiv(if y >= 0 { y } else { y - 399 }, 400)` is the floor of `y / 400`.
proof fn lemma_era(y: int)
    ensures
        tdiv(if y >= 0 {
            y
        } else {
            y - 399
        }, 400) == y / 400,
{
    if y < 0 {
        lemma_fundamental_div_mod(y, 400);
        let q = y / 400;
        let s = y % 400;
        lemma_fundamental_div_mod_converse(399 - y, 400, -q, 399 - s);
    }
}

// ------------------------------------------------------------ the algorithm

/// The value `days_from_civil` computes, step by step with Rust's integer
/// division; for months 1..=12 it is the day number (see
/// [`lemma_civil_formula_is_calendar`]).
pub open spec fn civil_formula(y: int, m: int, d: int) -> int {
    let y1 = if m <= 2 {
        y - 1
    } else {
        y
    };
    let era = tdiv(if y1 >= 0 {
        y1
    } else {
        y1 - 399
    }, 400);
    let yoe = y1 - era * 400;
    let mp = tmod(m + 9, 12);
    let doy = tdiv(153 * mp + 2, 5) + d - 1;
    let doe = yoe * 365 + tdiv(yoe, 4) - tdiv(yoe, 100) + doy;
    era * 146097 + doe - 719468
}

pub open spec fn in_i64(x: int) -> bool {
    i64::MIN <= x <= i64::MAX
}

/// Every intermediate value of `days_from_civil` fits in an `i64`.
pub open spec fn civil_fits(y: int, m: int, d: int) -> bool {
    let y1 = if m <= 2 {
        y - 1
    } else {
        y
    };
    let n = if y1 >= 0 {
        y1
    } else {
        y1 - 399
    };
    let era = tdiv(n, 400);
    let yoe = y1 - era * 400;
    let mp = tmod(m + 9, 12);
    let a = tdiv(153 * mp + 2, 5);
    let doe = yoe * 365 + tdiv(yoe, 4) - tdiv(yoe, 100) + (a + d - 1);
    &&& in_i64(y1)
    &&& in_i64(n)
    &&& in_i64(m + 9)
    &&& in_i64(a + d)
    &&& in_i64(a + d - 1)
    &&& in_i64(doe)
    &&& in_i64(era * 146097)
    &&& in_i64(era * 146097 + doe)
    &&& in_i64(era * 146097 + doe - 719468)
}

/// For a month 1..=12 the algorithm computes the calendar day number.
pub proof fn lemma_civil_formula_is_calendar(y: int, m: int, d: int)
    requires
        1 <= m <= 12,
    ensures
        civil_formula(y, m, d) == epoch_days(y, m, d),
{
    let y1 = if m <= 2 {
        y - 1
    } else {
        y
    };
    lemma_era(y1);
    let e = y1 / 400;
    let r = y1 % 400;
    lemma_fundamental_div_mod(y1, 400);
    assert(y1 == 400 * e + r);
    assert(civil_formula(y, m, d) == e * 146097 + r * 365 + r / 4 - r / 100 + tdiv(
        153 * tmod(m + 9, 12) + 2,
        5,
    ) + d - 1 - 719468);
    if m <= 2 {
        lemma_leaps_shift(e, r);
        assert(leap_years_through(y - 1) == 97 * e + r / 4 - r / 100);
    } else {
        lemma_leaps_shift(e, r - 1);
        lemma_leaps_shift(e, r);
        lemma_floor_step(r, 4);
        lemma_floor_step(r, 100);
        lemma_floor_step(r, 400);
        assert(leap_years_through(y - 1) + if is_leap(y) {
            1int
        } else {
            0int
        } == 97 * e + r / 4 - r / 100);
    }
}

/// Days since 1970-01-01 for a civil date (proleptic Gregorian).
pub fn days_from_civil(y: i64, m: i64, d: i64) -> (z: i64)
    requires
        civil_fits(y as int, m as int, d as int),
    ensures
        z == civil_formula(y as int, m as int, d as int),
        1 <= m <= 12 ==> z == epoch_days(y as int, m as int, d as int),
{
    proof {
        if 1 <= m <= 12 {
            lemma_civil_formula_is_calendar(y as int, m as int, d as int);
        }
        lemma_era(if m <= 2 { y - 1 } else { y as int });
    }
    let y = if m <= 2 {
        y - 1
    } else {
        y
    };
    let era = if y >= 0 {
        y
    } else {
        y - 399
    } / 400;
    let yoe = y - era * 400;
    let mp = (m + 9) % 12;
    let doy = (153 * mp + 2) / 5 + d - 1;
    let doe = yoe * 365 + yoe / 4 - yoe / 100 + doy;
    era * 146_097 + doe - 719_468
}


/// Days before March-based year `k` of a 400-year era (years start on
/// March 1st, so each holds the February of the following calendar year).
pub open spec fn era_year_start(k: int) -> int {
    365 * k + k / 4 - k / 100 + k / 400
}

/// Days before March-based month `mp` (0 = March, ..., 11 = February).
pub open spec fn era_month_start(mp: int) -> int {
    (153 * mp + 2) / 5
}

proof fn lemma_year_of_era_bv(x: u32)
    requires
        x < 146097,
    ensures
        ({
            let yoe = (x - x / 1460 + x / 36524 - x / 146096) / 365;
            &&& yoe <= 399
            &&& 365 * yoe + yoe / 4 - yoe / 100 <= x
            &&& x < 365 * (yoe + 1) + (yoe + 1) / 4 - (yoe + 1) / 100 + (yoe + 1) / 400
        }),
{
    assert({
        let yoe = (x - x / 1460 + x / 36524 - x / 146096) / 365;
        &&& yoe <= 399
        &&& 365 * yoe + yoe / 4 - yoe / 100 <= x
        &&& x < 365 * (yoe + 1) + (yoe + 1) / 4 - (yoe + 1) / 100 + (yoe + 1) / 400
    }) by (bit_vector)
        requires
            x < 146097u32,
    ;
}

/// Hinnant's year-of-era formula finds the March-based year holding a day.
proof fn lemma_year_of_era(doe: int)
    requires
        0 <= doe < 146097,
    ensures
        ({
            let yoe = (doe - doe / 1460 + doe / 36524 - doe / 146096) / 365;
            &&& 0 <= yoe <= 399
            &&& era_year_start(yoe) <= doe < era_year_start(yoe + 1)
        }),
{
    lemma_year_of_era_bv(doe as u32);
}

proof fn lemma_month_of_year_bv(x: u32)
    requires
        x <= 365,
    ensures
        ({
            let mp = (5 * x + 2) / 153;
            &&& mp <= 11
            &&& (153 * mp + 2) / 5 <= x
            &&& x < (153 * (mp + 1) + 2) / 5
        }),
{
    assert({
        let mp = (5 * x + 2) / 153;
        &&& mp <= 11
        &&& (153 * mp + 2) / 5 <= x
        &&& x < (153 * (mp + 1) + 2) / 5
    }) by (bit_vector)
        requires
            x <= 365u32,
    ;
}

/// Hinnant's month formula finds the March-based month holding a day of
/// the year.
proof fn lemma_month_of_year(doy: int)
    requires
        0 <= doy <= 365,
    ensures
        ({
            let mp = (5 * doy + 2) / 153;
            &&& 0 <= mp <= 11
            &&& era_month_start(mp) <= doy < era_month_start(mp + 1)
        }),
{
    lemma_month_of_year_bv(doy as u32);
}

/// The date that Hinnant's algorithm assembles from an era and a day of
/// that era.
pub open spec fn date_in_era(era: int, doe: int) -> (int, int, int) {
    let yoe = (doe - doe / 1460 + doe / 36524 - doe / 146096) / 365;
    let y = yoe + era * 400;
    let doy = doe - (365 * yoe + yoe / 4 - yoe / 100);
    let mp = (5 * doy + 2) / 153;
    let d = doy - (153 * mp + 2) / 5 + 1;
    let m = if mp < 10 {
        mp + 3
    } else {
        mp - 9
    };
    (if m <= 2 {
        y + 1
    } else {
        y
    }, m, d)
}

/// The date assembled from an era and a day of it exists, and its day
/// number is that day of that era.
proof fn lemma_date_in_era(era: int, doe: int)
    requires
        0 <= doe < 146097,
    ensures
        valid_date(date_in_era(era, doe).0, date_in_era(era, doe).1, date_in_era(era, doe).2),
        epoch_days(date_in_era(era, doe).0, date_in_era(era, doe).1, date_in_era(era, doe).2)
            == era * 146097 + doe - 719468,
{
    lemma_year_of_era(doe);
    let yoe = (doe - doe / 1460 + doe / 36524 - doe / 146096) / 365;
    let y = yoe + era * 400;
    let doy = doe - (365 * yoe + yoe / 4 - yoe / 100);
    assert(era_year_start(yoe) == 365 * yoe + yoe / 4 - yoe / 100);
    lemma_floor_step(yoe + 1, 4);
    lemma_floor_step(yoe + 1, 100);
    lemma_floor_step(yoe + 1, 400);
    assert(era_year_start(yoe + 1) - era_year_start(yoe) == 365 + if is_leap(yoe + 1) {
        1int
    } else {
        0int
    });
    lemma_month_of_year(doy);
    let mp = (5 * doy + 2) / 153;
    let d = doy - (153 * mp + 2) / 5 + 1;
    let m = if mp < 10 {
        mp + 3
    } else {
        mp - 9
    };
    let year = if m <= 2 {
        y + 1
    } else {
        y
    };
    assert(date_in_era(era, doe) == (year, m, d));
    lemma_leaps_shift(era, yoe + 1);
    if m <= 2 {
        assert(year == 400 * era + (yoe + 1));
    }
    let y1 = if m <= 2 {
        year - 1
    } else {
        year
    };
    assert(y1 == 400 * era + yoe);
    lemma_fundamental_div_mod_converse(y1, 400, era, yoe);
    lemma_era(y1);
    assert(tmod(m + 9, 12) == mp);
    assert(civil_formula(year, m, d) == era * 146097 + doe - 719468);
    lemma_civil_formula_is_calendar(year, m, d);
}

/// Every intermediate value of `civil_from_days` fits in an `i64`.
pub open spec fn civil_from_days_fits(z: int) -> bool {
    &&& z + 719468 <= i64::MAX
    &&& i64::MIN <= z + 719468 - 146096
}

/// Civil date (y, m, d) from days since 1970-01-01: the one existing date
/// whose day number is `z`.
pub fn civil_from_days(z: i64) -> (r: (i64, i64, i64))
    requires
        civil_from_days_fits(z as int),
    ensures
        valid_date(r.0 as int, r.1 as int, r.2 as int),
        epoch_days(r.0 as int, r.1 as int, r.2 as int) == z,
{
    let z = z + 719_468;
    let era = if z >= 0 {
        z
    } else {
        z - 146_096
    } / 146_097;
    proof {
        lemma_fundamental_div_mod(z as int, 146097);
        let q = (z as int) / 146097;
        let s = (z as int) % 146097;
        if z < 0 {
            lemma_fundamental_div_mod_converse(146096 - z, 146097, -q, 146096 - s);
        }
        assert(era == q);
        assert(z - era * 146097 == s);
    }
    let doe = z - era * 146_097;
    proof {
        lemma_year_of_era(doe as int);
        lemma_date_in_era(era as int, doe as int);
    }
    let yoe = (doe - doe / 1460 + doe / 36_524 - doe / 146_096) / 365;
    let y = yoe + era * 400;
    let doy = doe - (365 * yoe + yoe / 4 - yoe / 100);
    proof {
        lemma_month_of_year(doy as int);
    }
    let mp = (5 * doy + 2) / 153;
    let d = doy - (153 * mp + 2) / 5 + 1;
    let m = if mp < 10 {
        mp + 3
    } else {
        mp - 9
    };
    let year = if m <= 2 {
        y + 1
    } else {
        y
    };
    assert((year as int, m as int, d as int) == date_in_era(era as int, doe as int));
    (year, m, d)
}


/// `days_from_civil` undoes `civil_from_days`: the existing date whose day
/// number is `z` (what `civil_from_days(z)` returns) is computed back to `z`.
pub proof fn law_days_from_civil_undoes_civil_from_days(z: int, y: int, m: int, d: int)
    requires
        valid_date(y, m, d),
        epoch_days(y, m, d) == z,
    ensures
        civil_formula(y, m, d) == z,
{
    lemma_civil_formula_is_calendar(y, m, d);
}

/// `civil_from_days` undoes `days_from_civil` on every existing date: the
/// existing date whose day number is what `days_from_civil` computed for a
/// date is that date.
pub proof fn law_civil_from_days_undoes_days_from_civil(
    y: int,
    m: int,
    d: int,
    y2: int,
    m2: int,
    d2: int,
)
    requires
        valid_date(y, m, d),
        valid_date(y2, m2, d2),
        epoch_days(y2, m2, d2) == civil_formula(y, m, d),
    ensures
        y2 == y && m2 == m && d2 == d,
{
    lemma_civil_formula_is_calendar(y, m, d);
    law_epoch_days_injective(y, m, d, y2, m2, d2);
}


// ------------------------------------------------------------ parsing

/// Separates the date from the time of day.
pub open spec fn is_date_time_sep(c: char) -> bool {
    c == 'T' || c == ' '
}

/// `i` is the first date/time separator of `s`.
pub open spec fn first_sep_at(s: Seq<char>, i: int) -> bool {
    &&& 0 <= i < s.len()
    &&& is_date_time_sep(s[i])
    &&& forall|k: int| 0 <= k < i ==> !is_date_time_sep(#[trigger] s[k])
}

/// `str::split_once(['T', ' '])`: the part before the first separator and
/// the part after it, or all of `s` and nothing.
pub open spec fn split_date_time(s: Seq<char>) -> (Seq<char>, Option<Seq<char>>) {
    if exists|i: int| first_sep_at(s, i) {
        let i = choose|i: int| first_sep_at(s, i);
        (s.subrange(0, i), Some(s.subrange(i + 1, s.len() as int)))
    } else {
        (s, None)
    }
}

/// `s` holds the character `c` at `i` and `j` (`i < j`) and nowhere else.
pub open spec fn exactly_two_at(s: Seq<char>, c: char, i: int, j: int) -> bool {
    &&& 0 <= i < j < s.len()
    &&& s[i] == c
    &&& s[j] == c
    &&& forall|k: int| 0 <= k < s.len() && #[trigger] s[k] == c ==> k == i || k == j
}

/// `s` holds the character `c` at `i` and nowhere else.
pub open spec fn exactly_one_at(s: Seq<char>, c: char, i: int) -> bool {
    &&& 0 <= i < s.len()
    &&& s[i] == c
    &&& forall|k: int| 0 <= k < s.len() && #[trigger] s[k] == c ==> k == i
}

/// Three integers separated by two `c`s (what `split(c)` into exactly three
/// parts, each parsed as an `i64`, gives).
pub open spec fn three_fields(s: Seq<char>, c: char) -> Option<(i64, i64, i64)> {
    if exists|i: int, j: int| exactly_two_at(s, c, i, j) {
        let (i, j) = choose|i: int, j: int| exactly_two_at(s, c, i, j);
        match (
            parse_i64(s.subrange(0, i)),
            parse_i64(s.subrange(i + 1, j)),
            parse_i64(s.subrange(j + 1, s.len() as int)),
        ) {
            (Some(a), Some(b), Some(e)) => Some((a, b, e)),
            _ => None,
        }
    } else {
        None
    }
}

/// Hours and minutes, with optional seconds (zero when absent), separated
/// by colons.
pub open spec fn clock_fields(t: Seq<char>) -> Option<(i64, i64, i64)> {
    if exists|i: int| exactly_one_at(t, ':', i) {
        let i = choose|i: int| exactly_one_at(t, ':', i);
        match (parse_i64(t.subrange(0, i)), parse_i64(t.subrange(i + 1, t.len() as int))) {
            (Some(h), Some(m)) => Some((h, m, 0i64)),
            _ => None,
        }
    } else {
        three_fields(t, ':')
    }
}

/// A time of day.
pub open spec fn valid_clock(h: int, m: int, s: int) -> bool {
    0 <= h < 24 && 0 <= m < 60 && 0 <= s < 60
}

/// The date of a time string that is not plain unix seconds, once its
/// month and day passed the range checks.
pub open spec fn when_date(s: Seq<char>) -> Option<(i64, i64, i64)> {
    let t = trim(s);
    if parse_i64(t) is Some {
        None
    } else {
        match three_fields(split_date_time(t).0, '-') {
            Some((y, m, d)) => if 1 <= m <= 12 && 1 <= d <= 31 {
                Some((y, m, d))
            } else {
                None
            },
            None => None,
        }
    }
}

/// The time of day of a time string, where one follows its date (`Z`
/// suffixes ignored).
pub open spec fn when_clock(s: Seq<char>) -> Option<Option<(i64, i64, i64)>> {
    match split_date_time(trim(s)).1 {
        Some(tt) => Some(clock_fields(trim_end_by(tt, |c: char| c == 'Z'))),
        None => None,
    }
}

/// What a time string means, in unix seconds: raw unix seconds
/// ("1751500800"), a date ("2026-07-03", midnight), or a date-time
/// ("2026-07-03T14:30:00" / "2026-07-03 14:30"), surrounding whitespace
/// ignored; `None` for anything else.
pub open spec fn parse_when_spec(s: Seq<char>) -> Option<int> {
    let t = trim(s);
    match parse_i64(t) {
        Some(n) => Some(n as int),
        None => match when_date(s) {
            None => None,
            Some((y, m, d)) => {
                let base = epoch_days(y as int, m as int, d as int) * 86400;
                match when_clock(s) {
                    None => Some(base),
                    Some(None) => None,
                    Some(Some((hh, mm, ss))) => if valid_clock(hh as int, mm as int, ss as int) {
                        Some(base + hh * 3600 + mm * 60 + ss)
                    } else {
                        None
                    },
                }
            },
        },
    }
}

/// The seconds of a time string fit in an `i64` at every step of the
/// computation (years so large that they do not are left out).
pub open spec fn when_fits(s: Seq<char>) -> bool {
    match when_date(s) {
        None => true,
        Some((y, m, d)) => {
            let base = epoch_days(y as int, m as int, d as int) * 86400;
            &&& civil_fits(y as int, m as int, d as int)
            &&& in_i64(base)
            &&& match when_clock(s) {
                Some(Some((hh, mm, ss))) => in_i64(base + hh * 3600 + mm * 60 + ss),
                _ => true,
            }
        },
    }
}

/// The first date/time separator in `v[lo..hi]`, or `hi`.
fn find_date_time_sep(v: &Vec<char>, lo: usize, hi: usize) -> (i: usize)
    requires
        lo <= hi <= v@.len(),
    ensures
        lo <= i <= hi,
        i < hi ==> first_sep_at(v@.subrange(lo as int, hi as int), i - lo),
        i == hi ==> !exists|k: int| first_sep_at(v@.subrange(lo as int, hi as int), k),
{
    let ghost s = v@.subrange(lo as int, hi as int);
    let mut i = lo;
    while i < hi && !(v[i] == 'T' || v[i] == ' ')
        invariant
            lo <= i <= hi <= v@.len(),
            s == v@.subrange(lo as int, hi as int),
            forall|k: int| 0 <= k < i - lo ==> !is_date_time_sep(#[trigger] s[k]),
        decreases hi - i,
    {
        assert(s[i - lo] == v@[i as int]);
        i += 1;
    }
    if i < hi {
        assert(s[i - lo] == v@[i as int]);
    } else {
        assert forall|k: int| !first_sep_at(s, k) by {
            if 0 <= k < s.len() {
                assert(!is_date_time_sep(s[k]));
            }
        }
    }
    i
}

/// `split(c)` of `v[lo..hi]` into exactly three parts, each read as an
/// `i64`.
fn three_fields_chars(v: &Vec<char>, lo: usize, hi: usize, c: char) -> (r: Option<(i64, i64, i64)>)
    requires
        lo <= hi <= v@.len(),
    ensures
        r == three_fields(v@.subrange(lo as int, hi as int), c),
{
    let ghost s = v@.subrange(lo as int, hi as int);
    let mut count: usize = 0;
    let mut first: usize = 0;
    let mut second: usize = 0;
    let mut k = lo;
    while k < hi
        invariant
            lo <= k <= hi <= v@.len(),
            s == v@.subrange(lo as int, hi as int),
            count <= 3,
            count >= 1 ==> lo <= first < k && s[first - lo] == c,
            count >= 2 ==> first < second < k && s[second - lo] == c,
            count == 0 ==> forall|x: int| 0 <= x < k - lo ==> #[trigger] s[x] != c,
            count == 1 ==> forall|x: int| 0 <= x < k - lo && #[trigger] s[x] == c ==> x == first - lo,
            count == 2 ==> forall|x: int|
                0 <= x < k - lo && #[trigger] s[x] == c ==> x == first - lo || x == second - lo,
            count == 3 ==> exists|x: int|
                0 <= x < s.len() && #[trigger] s[x] == c && x != first - lo && x != second - lo,
        decreases hi - k,
    {
        assert(s[k - lo] == v@[k as int]);
        if v[k] == c {
            if count == 0 {
                first = k;
                count = 1;
            } else if count == 1 {
                second = k;
                count = 2;
            } else if count == 2 {
                count = 3;
            }
        }
        k += 1;
    }
    if count != 2 {
        proof {
            assert forall|i: int, j: int| !exactly_two_at(s, c, i, j) by {
                if exactly_two_at(s, c, i, j) {
                    if count == 0 {
                        assert(s[i] == c);
                    } else if count == 1 {
                        assert(s[i] == c && s[j] == c);
                    }
                }
            }
        }
        return None;
    }
    let i = first - lo;
    let j = second - lo;
    assert(exactly_two_at(s, c, i as int, j as int));
    proof {
        let (i2, j2) = choose|i2: int, j2: int| exactly_two_at(s, c, i2, j2);
        assert(exactly_two_at(s, c, i2, j2));
        assert(i2 == i || i2 == j);
        assert(j2 == i || j2 == j);
        assert(s.subrange(0, i as int) =~= v@.subrange(lo as int, first as int));
        assert(s.subrange(i + 1, j as int) =~= v@.subrange(first + 1, second as int));
        assert(s.subrange(j + 1, s.len() as int) =~= v@.subrange(second + 1, hi as int));
    }
    let a = match parse_i64_chars(v, lo, first) {
        Some(x) => x,
        None => return None,
    };
    let b = match parse_i64_chars(v, first + 1, second) {
        Some(x) => x,
        None => return None,
    };
    let e = match parse_i64_chars(v, second + 1, hi) {
        Some(x) => x,
        None => return None,
    };
    Some((a, b, e))
}

/// Hours, minutes and optional seconds of `v[lo..hi]`.
fn clock_fields_chars(v: &Vec<char>, lo: usize, hi: usize) -> (r: Option<(i64, i64, i64)>)
    requires
        lo <= hi <= v@.len(),
    ensures
        r == clock_fields(v@.subrange(lo as int, hi as int)),
{
    let ghost s = v@.subrange(lo as int, hi as int);
    let mut count: usize = 0;
    let mut first: usize = 0;
    let mut k = lo;
    while k < hi
        invariant
            lo <= k <= hi <= v@.len(),
            s == v@.subrange(lo as int, hi as int),
            count <= 2,
            count >= 1 ==> lo <= first < k && s[first - lo] == ':',
            count == 0 ==> forall|x: int| 0 <= x < k - lo ==> #[trigger] s[x] != ':',
            count == 1 ==> forall|x: int| 0 <= x < k - lo && #[trigger] s[x] == ':' ==> x == first - lo,
            count == 2 ==> exists|x: int| 0 <= x < s.len() && #[trigger] s[x] == ':' && x != first - lo,
        decreases hi - k,
    {
        assert(s[k - lo] == v@[k as int]);
        if v[k] == ':' {
            if count == 0 {
                first = k;
                count = 1;
            } else {
                count = 2;
            }
        }
        k += 1;
    }
    if count == 1 {
        let i = first - lo;
        assert(exactly_one_at(s, ':', i as int));
        proof {
            let i2 = choose|i2: int| exactly_one_at(s, ':', i2);
            assert(exactly_one_at(s, ':', i2));
            assert(s.subrange(0, i as int) =~= v@.subrange(lo as int, first as int));
            assert(s.subrange(i + 1, s.len() as int) =~= v@.subrange(first + 1, hi as int));
        }
        let h = match parse_i64_chars(v, lo, first) {
            Some(x) => x,
            None => return None,
        };
        let m = match parse_i64_chars(v, first + 1, hi) {
            Some(x) => x,
            None => return None,
        };
        return Some((h, m, 0));
    }
    proof {
        assert forall|i: int| !exactly_one_at(s, ':', i) by {
            if exactly_one_at(s, ':', i) {
                assert(s[i] == ':');
            }
        }
    }
    three_fields_chars(v, lo, hi, ':')
}

/// Where `v[lo..hi]` splits into date and time of day: `i`, with the date
/// before it and the time after it, or `hi` when there is no time.
fn split_date_time_chars(v: &Vec<char>, lo: usize, hi: usize) -> (i: usize)
    requires
        lo <= hi <= v@.len(),
    ensures
        lo <= i <= hi,
        split_date_time(v@.subrange(lo as int, hi as int)).0 == v@.subrange(lo as int, i as int),
        i < hi ==> split_date_time(v@.subrange(lo as int, hi as int)).1 == Some(
            v@.subrange(i + 1, hi as int),
        ),
        i == hi ==> split_date_time(v@.subrange(lo as int, hi as int)).1 is None,
{
    let ghost t = v@.subrange(lo as int, hi as int);
    let i = find_date_time_sep(v, lo, hi);
    proof {
        if i < hi {
            let k = choose|k: int| first_sep_at(t, k);
            assert(first_sep_at(t, k));
            assert(k == i - lo) by {
                if k < i - lo {
                    assert(!is_date_time_sep(t[k]));
                }
                if i - lo < k {
                    assert(!is_date_time_sep(t[i - lo]));
                }
            }
            assert(t.subrange(0, i - lo) =~= v@.subrange(lo as int, i as int));
            assert(t.subrange(i - lo + 1, t.len() as int) =~= v@.subrange(i + 1, hi as int));
        } else {
            assert(v@.subrange(lo as int, i as int) =~= t);
        }
    }
    i
}

/// The message for a time string that cannot be read: it quotes the
/// string without its surrounding whitespace.
pub open spec fn bad_time_message(s: Seq<char>) -> Seq<char> {
    "cannot parse time "@ + debug_str(trim(s))
        + "; use YYYY-MM-DD, YYYY-MM-DDTHH:MM[:SS], or unix seconds"@
}

/// The error for a time string whose trimmed text is `t`.
fn bad_time(t: &str) -> (e: Error)
    ensures
        e matches Error::Invalid(m) && m@ == "cannot parse time "@ + debug_str(t@)
            + "; use YYYY-MM-DD, YYYY-MM-DDTHH:MM[:SS], or unix seconds"@,
{
    let q = debug_quoted(t);
    Error::Invalid(
        concat3(
            "cannot parse time ",
            q.as_str(),
            "; use YYYY-MM-DD, YYYY-MM-DDTHH:MM[:SS], or unix seconds",
        ),
    )
}

/// Parse a point in time: raw unix seconds ("1751500800"), a date
/// ("2026-07-03"), or a date-time ("2026-07-03T14:30:00" / "... 14:30").
#[verifier::rlimit(40)]
pub fn parse_when(s: &str) -> (r: Result<i64, Error>)
    requires
        when_fits(s@),
    ensures
        match r {
            Ok(t) => parse_when_spec(s@) == Some(t as int),
            Err(e) => parse_when_spec(s@) is None && (e matches Error::Invalid(m) && m@
                == bad_time_message(s@)),
        },
{
    let v = chars_of(s);
    let (a, b) = trim_bounds(&v, 0, v.len());
    let ghost t = trim(s@);
    assert(v@.subrange(0, v@.len() as int) =~= s@);
    let ts = s.substring_char(a, b);
    assert(ts@ == t);
    if let Some(n) = parse_i64_chars(&v, a, b) {
        return Ok(n);
    }
    let i = split_date_time_chars(&v, a, b);
    let (y, m, d) = match three_fields_chars(&v, a, i, '-') {
        Some(f) => f,
        None => return Err(bad_time(ts)),
    };
    if !(1 <= m && m <= 12) || !(1 <= d && d <= 31) {
        return Err(bad_time(ts));
    }
    assert(when_date(s@) == Some((y, m, d)));
    let mut secs = days_from_civil(y, m, d) * 86_400;
    if i < b {
        let hi = trim_end_char(&v, i + 1, b, 'Z');
        let (hh, mm, ss) = match clock_fields_chars(&v, i + 1, hi) {
            Some(f) => f,
            None => return Err(bad_time(ts)),
        };
        if !(0 <= hh && hh < 24) || !(0 <= mm && mm < 60) || !(0 <= ss && ss < 60) {
            return Err(bad_time(ts));
        }
        secs = secs + (hh * 3600 + mm * 60 + ss);
    }
    Ok(secs)
}

/// Whether `days_from_civil(y, m, d)` stays within `i64` at every step;
/// also returns the day number it computes (in a wider type).
fn civil_fits_check(y: i64, m: i64, d: i64) -> (r: (bool, i128))
    ensures
        r.0 == civil_fits(y as int, m as int, d as int),
        r.1 == civil_formula(y as int, m as int, d as int),
{
    let y = y as i128;
    let m = m as i128;
    let d = d as i128;
    let lo: i128 = -0x8000_0000_0000_0000;
    let hi: i128 = 0x7fff_ffff_ffff_ffff;
    let y1 = if m <= 2 {
        y - 1
    } else {
        y
    };
    let n = if y1 >= 0 {
        y1
    } else {
        y1 - 399
    };
    let era = n / 400;
    proof {
        lemma_era(y1 as int);
        lemma_fundamental_div_mod(y1 as int, 400);
    }
    assert(era == (y1 as int) / 400);
    assert(0 <= y1 - era * 400 < 400);
    assert(-23058430092136941 <= era <= 23058430092136940);
    let yoe = y1 - era * 400;
    let mp = (m + 9) % 12;
    assert(-11 <= mp <= 11);
    let a = (153 * mp + 2) / 5;
    let doe = yoe * 365 + yoe / 4 - yoe / 100 + (a + d - 1);
    assert(-3368767461170930669277 <= era * 146097 <= 3368767461170930523180) by (nonlinear_arith)
        requires
            -23058430092136941 <= era <= 23058430092136940,
    ;
    let e = era * 146097;
    let ok = lo <= y1 && y1 <= hi && lo <= n && n <= hi && m + 9 <= hi && lo <= a + d && a + d
        <= hi && lo <= a + d - 1 && a + d - 1 <= hi && lo <= doe && doe <= hi && lo <= e && e
        <= hi && lo <= e + doe && e + doe <= hi && lo <= e + doe - 719468 && e + doe - 719468 <= hi;
    (ok, e + doe - 719468)
}

/// Whether [`parse_when`] can read `s` without leaving `i64` (see
/// [`when_fits`]); a caller tests this before calling it.
pub fn parse_when_in_range(s: &str) -> (b: bool)
    ensures
        b == when_fits(s@),
{
    let v = chars_of(s);
    let (a, b) = trim_bounds(&v, 0, v.len());
    assert(v@.subrange(0, v@.len() as int) =~= s@);
    if parse_i64_chars(&v, a, b).is_some() {
        return true;
    }
    let i = split_date_time_chars(&v, a, b);
    let (y, m, d) = match three_fields_chars(&v, a, i, '-') {
        Some(f) => f,
        None => return true,
    };
    if !(1 <= m && m <= 12) || !(1 <= d && d <= 31) {
        return true;
    }
    assert(when_date(s@) == Some((y, m, d)));
    proof {
        lemma_civil_formula_is_calendar(y as int, m as int, d as int);
    }
    let (fits, days) = civil_fits_check(y, m, d);
    let lo: i128 = -0x8000_0000_0000_0000;
    let hi: i128 = 0x7fff_ffff_ffff_ffff;
    if !fits || days < lo || days > hi {
        return false;
    }
    let base = days * 86400;
    if base < lo || base > hi {
        return false;
    }
    if i < b {
        let e = trim_end_char(&v, i + 1, b, 'Z');
        match clock_fields_chars(&v, i + 1, e) {
            Some((hh, mm, ss)) => {
                let total = base + (hh as i128) * 3600 + (mm as i128) * 60 + (ss as i128);
                lo <= total && total <= hi
            },
            None => true,
        }
    } else {
        true
    }
}


// ------------------------------------------------------------ formatting

/// The decimal digits of `n` (ASCII), without leading zeros.
pub open spec fn dec_digits(n: nat) -> Seq<u8>
    decreases n,
{
    if n < 10 {
        seq![(48 + n) as u8]
    } else {
        dec_digits(n / 10) + seq![(48 + n % 10) as u8]
    }
}

/// `k` ASCII zeros (none when `k <= 0`).
pub open spec fn zeros(k: int) -> Seq<u8> {
    Seq::new(if k > 0 {
        k as nat
    } else {
        0nat
    }, |i: int| 48u8)
}

/// `x` in decimal, zero-padded after the sign to at least `width`
/// characters (Rust's `{:0width}`).
pub open spec fn padded(x: int, width: int) -> Seq<u8> {
    if x < 0 {
        seq![45u8] + zeros(width - 1 - dec_digits((-x) as nat).len()) + dec_digits((-x) as nat)
    } else {
        zeros(width - dec_digits(x as nat).len()) + dec_digits(x as nat)
    }
}

/// "YYYY-MM-DD".
pub open spec fn date_text(y: int, m: int, d: int) -> Seq<u8> {
    padded(y, 4) + seq![45u8] + padded(m, 2) + seq![45u8] + padded(d, 2)
}

/// "THH:MM:SS" for the second `r` of a day.
pub open spec fn clock_text(r: int) -> Seq<u8> {
    seq![84u8] + padded(r / 3600, 2) + seq![58u8] + padded((r % 3600) / 60, 2) + seq![58u8]
        + padded(r % 60, 2)
}

/// The text of a unix time: its date, and its time of day unless that is
/// midnight.
pub open spec fn unix_text(t: int, y: int, m: int, d: int) -> Seq<u8> {
    date_text(y, m, d) + if t % 86400 == 0 {
        Seq::<u8>::empty()
    } else {
        clock_text(t % 86400)
    }
}

proof fn lemma_dec_digits_ascii(n: nat)
    ensures
        forall|i: int| 0 <= i < dec_digits(n).len() ==> 48 <= #[trigger] dec_digits(n)[i] <= 57,
    decreases n,
{
    if n >= 10 {
        lemma_dec_digits_ascii(n / 10);
        let p = dec_digits(n / 10);
        assert(dec_digits(n) == p + seq![(48 + n % 10) as u8]);
        assert forall|i: int| 0 <= i < dec_digits(n).len() implies 48 <= #[trigger] dec_digits(
            n,
        )[i] <= 57 by {
            if i < p.len() {
                assert(dec_digits(n)[i] == p[i]);
            }
        }
    }
}

fn push_dec(out: &mut Vec<u8>, n: u64)
    ensures
        final(out)@ == old(out)@ + dec_digits(n as nat),
    decreases n,
{
    if n >= 10 {
        push_dec(out, n / 10);
    }
    out.push(48 + (n % 10) as u8);
    assert(final(out)@ =~= old(out)@ + dec_digits(n as nat));
}

fn push_padded(out: &mut Vec<u8>, x: i64, width: usize)
    ensures
        final(out)@ == old(out)@ + padded(x as int, width as int),
{
    let neg = x < 0;
    let mag: u64 = if neg {
        (0 - (x as i128)) as u64
    } else {
        x as u64
    };
    let mut digits: Vec<u8> = Vec::new();
    push_dec(&mut digits, mag);
    assert(digits@ =~= dec_digits(mag as nat));
    if neg {
        out.push(45);
    }
    let pad_target: usize = if neg {
        if width > 0 {
            width - 1
        } else {
            0
        }
    } else {
        width
    };
    let ghost mid = out@;
    let mut k = digits.len();
    while k < pad_target
        invariant
            digits@.len() <= k,
            k <= pad_target || k == digits@.len(),
            out@ == mid + zeros(k - digits@.len()),
        decreases pad_target - k,
    {
        out.push(48);
        k += 1;
        assert(out@ =~= mid + zeros(k - digits@.len()));
    }
    assert(zeros(k - digits@.len()) =~= zeros(pad_target - digits@.len()));
    assert(zeros(pad_target - digits@.len()) =~= if neg {
        zeros(width - 1 - digits@.len())
    } else {
        zeros(width - digits@.len())
    });
    let ghost mid2 = out@;
    let mut i: usize = 0;
    while i < digits.len()
        invariant
            i <= digits@.len(),
            out@ == mid2 + digits@.subrange(0, i as int),
        decreases digits@.len() - i,
    {
        out.push(digits[i]);
        i += 1;
        assert(out@ =~= mid2 + digits@.subrange(0, i as int));
    }
    assert(digits@.subrange(0, i as int) =~= digits@);
    assert(final(out)@ =~= old(out)@ + padded(x as int, width as int));
}

/// Format unix seconds as "YYYY-MM-DD", or "YYYY-MM-DDTHH:MM:SS" when the
/// time is not midnight.
#[verifier::rlimit(40)]
pub fn format_unix(t: i64) -> (s: String)
    ensures
        exists|y: int, m: int, d: int|
            in_i64(y) && valid_date(y, m, d) && epoch_days(y, m, d) == t / 86400 && s@
                == ascii_chars(#[trigger] unix_text(t as int, y, m, d)),
        t >= -62_167_219_200 ==> when_fits(s@) && parse_when_spec(s@) == Some(t as int),
{
    let mut days = t / 86_400;
    let mut rem = t % 86_400;
    if rem < 0 {
        days = days - 1;
        rem = rem + 86_400;
    }
    assert(days == t / 86400 && rem == t % 86400);
    let (y, m, d) = civil_from_days(days);
    let mut out: Vec<u8> = Vec::new();
    push_padded(&mut out, y, 4);
    out.push(45);
    push_padded(&mut out, m, 2);
    out.push(45);
    push_padded(&mut out, d, 2);
    if rem != 0 {
        out.push(84);
        push_padded(&mut out, rem / 3600, 2);
        out.push(58);
        push_padded(&mut out, (rem % 3600) / 60, 2);
        out.push(58);
        push_padded(&mut out, rem % 60, 2);
    }
    let ghost text = unix_text(t as int, y as int, m as int, d as int);
    assert(out@ =~= text);
    proof {
        lemma_dec_digits_ascii(((if y < 0 { -y } else { y as int })) as nat);
        assert forall|i: int| 0 <= i < out@.len() implies #[trigger] out@[i] < 128 by {
            lemma_unix_text_ascii(t as int, y as int, m as int, d as int, i);
        }
    }
    let s = ascii_string(&out);
    assert(in_i64(y as int) && valid_date(y as int, m as int, d as int) && epoch_days(
        y as int,
        m as int,
        d as int,
    ) == t / 86400 && s@ == ascii_chars(unix_text(t as int, y as int, m as int, d as int)));
    proof {
        if t >= -62_167_219_200 {
            lemma_formatted_time_reads_back(t as int, y as int, m as int, d as int);
        }
    }
    s
}

proof fn lemma_padded_ascii(x: int, w: int)
    ensures
        forall|i: int| 0 <= i < padded(x, w).len() ==> #[trigger] padded(x, w)[i] < 128,
{
    let n = (if x < 0 {
        -x
    } else {
        x
    }) as nat;
    lemma_dec_digits_ascii(n);
    assert forall|i: int| 0 <= i < padded(x, w).len() implies #[trigger] padded(x, w)[i] < 128 by {
        let z = zeros(w - (if x < 0 { 1int } else { 0int }) - dec_digits(n).len());
        if x < 0 {
            assert(padded(x, w) == seq![45u8] + z + dec_digits(n));
            if i >= 1 + z.len() {
                assert(padded(x, w)[i] == dec_digits(n)[i - 1 - z.len()]);
            }
        } else {
            assert(padded(x, w) == z + dec_digits(n));
            if i >= z.len() {
                assert(padded(x, w)[i] == dec_digits(n)[i - z.len()]);
            }
        }
    }
}

proof fn lemma_unix_text_ascii(t: int, y: int, m: int, d: int, i: int)
    requires
        0 <= i < unix_text(t, y, m, d).len(),
    ensures
        unix_text(t, y, m, d)[i] < 128,
{
    let r = t % 86400;
    lemma_padded_ascii(y, 4);
    lemma_padded_ascii(m, 2);
    lemma_padded_ascii(d, 2);
    lemma_padded_ascii(r / 3600, 2);
    lemma_padded_ascii((r % 3600) / 60, 2);
    lemma_padded_ascii(r % 60, 2);
    let s = unix_text(t, y, m, d);
    assert(forall|k: int| 0 <= k < s.len() ==> #[trigger] s[k] < 128);
}


// ------------------------------------------------------------ reading back what was written

/// `k` ASCII zeros as characters.
proof fn lemma_zeros_value(k: int)
    ensures
        all_digits(ascii_chars(zeros(k))),
        digits_value(ascii_chars(zeros(k))) == 0,
    decreases k,
{
    let z = ascii_chars(zeros(k));
    assert forall|i: int| 0 <= i < z.len() implies is_digit(#[trigger] z[i]) by {
        assert(zeros(k)[i] == 48u8);
    }
    if k > 0 {
        lemma_zeros_value(k - 1);
        assert(z.drop_last() =~= ascii_chars(zeros(k - 1)));
        assert(z.last() == '0');
    } else {
        assert(z =~= Seq::<char>::empty());
    }
}

/// The decimal digits of `n` read back give `n`.
proof fn lemma_dec_digits_value(n: nat)
    ensures
        dec_digits(n).len() >= 1,
        n < 10 ==> dec_digits(n).len() == 1,
        n < 100 ==> dec_digits(n).len() <= 2,
        all_digits(ascii_chars(dec_digits(n))),
        digits_value(ascii_chars(dec_digits(n))) == n,
    decreases n,
{
    let c = ascii_chars(dec_digits(n));
    if n < 10 {
        assert(c =~= seq![((48 + n) as u8) as char]);
        assert(c.drop_last() =~= Seq::<char>::empty());
        let b = (48 + n) as u8;
        assert((b as char) as u32 == b as u32);
        assert('0' as u32 == 48);
        assert(c.last() == b as char);
        assert(digits_value(c.drop_last()) == 0);
        assert(digits_value(c) == digits_value(c.drop_last()) * 10 + ((c.last() as u32 - '0' as u32) as nat));
    } else {
        lemma_dec_digits_value(n / 10);
        let p = dec_digits(n / 10);
        assert(dec_digits(n) == p + seq![(48 + n % 10) as u8]);
        assert(c.drop_last() =~= ascii_chars(p));
        assert(c.last() == ((48 + n % 10) as u8) as char);
        let b = (48 + n % 10) as u8;
        assert((b as char) as u32 == b as u32);
        assert('0' as u32 == 48);
        assert(digits_value(c) == digits_value(c.drop_last()) * 10 + ((c.last() as u32 - '0' as u32) as nat));
        assert(n == (n / 10) * 10 + n % 10);
        assert forall|i: int| 0 <= i < c.len() implies is_digit(#[trigger] c[i]) by {
            if i < p.len() {
                assert(c[i] == ascii_chars(p)[i]);
            }
        }
    }
}

/// Leading zeros do not change the value of a run of digits.
proof fn lemma_leading_zeros(z: Seq<char>, s: Seq<char>)
    requires
        digits_value(z) == 0,
    ensures
        digits_value(z + s) == digits_value(s),
    decreases s.len(),
{
    if s.len() == 0 {
        assert(z + s =~= z);
    } else {
        lemma_leading_zeros(z, s.drop_last());
        assert((z + s).drop_last() =~= z + s.drop_last());
        assert((z + s).last() == s.last());
    }
}

/// A non-negative number written zero-padded reads back as itself.
proof fn lemma_padded_reads_back(x: int, w: int)
    requires
        0 <= x <= i64::MAX,
    ensures
        all_digits(ascii_chars(padded(x, w))),
        ascii_chars(padded(x, w)).len() >= 1,
        parse_i64(ascii_chars(padded(x, w))) == Some(x as i64),
        w == 2 && x < 100 ==> ascii_chars(padded(x, w)).len() == 2,
{
    let n = x as nat;
    lemma_dec_digits_value(n);
    lemma_zeros_value(w - dec_digits(n).len());
    let z = ascii_chars(zeros(w - dec_digits(n).len()));
    let ds = ascii_chars(dec_digits(n));
    let c = ascii_chars(padded(x, w));
    assert(c =~= z + ds);
    lemma_leading_zeros(z, ds);
    assert forall|i: int| 0 <= i < c.len() implies is_digit(#[trigger] c[i]) by {
        if i < z.len() {
            assert(c[i] == z[i]);
        } else {
            assert(c[i] == ds[i - z.len()]);
        }
    }
    assert(!has_sign(c)) by {
        assert(is_digit(c[0]));
    }
    assert(unsigned_part(c) == c);
}

/// Fields of digits joined by a separator that is no digit.
pub open spec fn joined3(a: Seq<char>, b: Seq<char>, e: Seq<char>, c: char) -> Seq<char> {
    a + seq![c] + b + seq![c] + e
}

/// Three fields of digits split at their two separators give their numbers.
#[verifier::rlimit(30)]
proof fn lemma_three_fields_joined(a: Seq<char>, b: Seq<char>, e: Seq<char>, c: char)
    requires
        all_digits(a),
        all_digits(b),
        all_digits(e),
        !is_digit(c),
    ensures
        three_fields(joined3(a, b, e, c), c) == match (parse_i64(a), parse_i64(b), parse_i64(e)) {
            (Some(x), Some(y), Some(z)) => Some((x, y, z)),
            _ => None::<(i64, i64, i64)>,
        },
        forall|k: int| exactly_one_at(joined3(a, b, e, c), c, k) ==> false,
{
    let s = joined3(a, b, e, c);
    let i = a.len() as int;
    let j = (a.len() + 1 + b.len()) as int;
    assert(s[i] == c);
    assert(s[j] == c);
    assert forall|k: int| 0 <= k < s.len() && #[trigger] s[k] == c implies k == i || k == j by {
        if k < i {
            assert(s[k] == a[k]);
        } else if i < k < j {
            assert(s[k] == b[k - i - 1]);
        } else if k > j {
            assert(s[k] == e[k - j - 1]);
        }
    }
    assert(exactly_two_at(s, c, i, j));
    let (i2, j2) = choose|i2: int, j2: int| exactly_two_at(s, c, i2, j2);
    assert(i2 == i && j2 == j);
    assert(s.subrange(0, i) =~= a);
    assert(s.subrange(i + 1, j) =~= b);
    assert(s.subrange(j + 1, s.len() as int) =~= e);
    assert forall|k: int| exactly_one_at(s, c, k) implies false by {
        assert(s[i] == c && s[j] == c);
    }
}

proof fn lemma_ascii_concat(a: Seq<u8>, b: Seq<u8>)
    ensures
        ascii_chars(a + b) == ascii_chars(a) + ascii_chars(b),
{
    assert(ascii_chars(a + b) =~= ascii_chars(a) + ascii_chars(b));
}

/// The three fields of a date or a clock, as formatted.
pub open spec fn fields_text(a: int, b: int, e: int, wa: int, c: char) -> Seq<char> {
    joined3(ascii_chars(padded(a, wa)), ascii_chars(padded(b, 2)), ascii_chars(padded(e, 2)), c)
}

#[verifier::rlimit(30)]
proof fn lemma_fields_text(a: int, b: int, e: int, wa: int, c: char)
    requires
        0 <= a <= i64::MAX,
        0 <= b < 100,
        0 <= e < 100,
        c == '-' || c == ':',
    ensures
        three_fields(fields_text(a, b, e, wa, c), c) == Some((a as i64, b as i64, e as i64)),
        forall|k: int| exactly_one_at(fields_text(a, b, e, wa, c), c, k) ==> false,
        fields_text(a, b, e, wa, c).len() >= 7,
        is_digit(fields_text(a, b, e, wa, c)[0]),
        is_digit(fields_text(a, b, e, wa, c).last()),
        fields_text(a, b, e, wa, c)[ascii_chars(padded(a, wa)).len() as int] == c,
        forall|k: int|
            0 <= k < fields_text(a, b, e, wa, c).len() ==> is_digit(
                #[trigger] fields_text(a, b, e, wa, c)[k],
            ) || fields_text(a, b, e, wa, c)[k] == c,
{
    let pa = ascii_chars(padded(a, wa));
    let pb = ascii_chars(padded(b, 2));
    let pe = ascii_chars(padded(e, 2));
    lemma_padded_reads_back(a, wa);
    lemma_padded_reads_back(b, 2);
    lemma_padded_reads_back(e, 2);
    lemma_three_fields_joined(pa, pb, pe, c);
    let s = fields_text(a, b, e, wa, c);
    assert(s[0] == pa[0]);
    assert(s.last() == pe[1]);
    assert forall|k: int| 0 <= k < s.len() implies is_digit(#[trigger] s[k]) || s[k] == c by {
        if k < pa.len() {
            assert(s[k] == pa[k]);
        } else if pa.len() < k < pa.len() + 1 + pb.len() {
            assert(s[k] == pb[k - pa.len() - 1]);
        } else if k > pa.len() + 1 + pb.len() {
            assert(s[k] == pe[k - pa.len() - 2 - pb.len()]);
        }
    }
}

proof fn lemma_trim_plain(text: Seq<char>)
    requires
        text.len() > 0,
        !is_whitespace(text[0]),
        !is_whitespace(text.last()),
    ensures
        trim(text) == text,
{
    assert(trim_start(text) == text);
}

proof fn lemma_not_a_number(text: Seq<char>, p: int)
    requires
        0 < p < text.len(),
        is_digit(text[0]),
        text[p] == '-',
    ensures
        parse_i64(text) is None,
{
    assert(!has_sign(text));
    assert(unsigned_part(text) == text);
    assert(!is_digit(text[p]));
}

proof fn lemma_split_date_only(text: Seq<char>)
    requires
        forall|k: int| 0 <= k < text.len() ==> is_digit(#[trigger] text[k]) || text[k] == '-',
    ensures
        split_date_time(text) == (text, None::<Seq<char>>),
{
    assert forall|k: int| !first_sep_at(text, k) by {
        if 0 <= k < text.len() {
            assert(is_digit(text[k]) || text[k] == '-');
        }
    }
}

proof fn lemma_split_date_clock(date: Seq<char>, clock: Seq<char>)
    requires
        forall|k: int| 0 <= k < date.len() ==> is_digit(#[trigger] date[k]) || date[k] == '-',
    ensures
        split_date_time(date + seq!['T'] + clock) == (date, Some(clock)),
{
    let text = date + seq!['T'] + clock;
    let l = date.len() as int;
    assert(text[l] == 'T');
    assert forall|k: int| 0 <= k < l implies !is_date_time_sep(#[trigger] text[k]) by {
        assert(text[k] == date[k]);
        assert(is_digit(date[k]) || date[k] == '-');
    }
    assert(first_sep_at(text, l));
    let i = choose|i: int| first_sep_at(text, i);
    assert(i == l) by {
        if i < l {
            assert(text[i] == date[i]);
            assert(is_digit(date[i]) || date[i] == '-');
        } else if i > l {
            assert(is_date_time_sep(text[l]));
        }
    }
    assert(text.subrange(0, l) =~= date);
    assert(text.subrange(l + 1, text.len() as int) =~= clock);
}

/// The clock of second `r` of a day, as formatted, reads back as `r`.
#[verifier::rlimit(30)]
proof fn lemma_clock_reads_back(r: int)
    requires
        0 <= r < 86400,
    ensures
        ({
            let clock = fields_text(r / 3600, (r % 3600) / 60, r % 60, 2, ':');
            &&& trim_end_by(clock, |c: char| c == 'Z') == clock
            &&& clock_fields(trim_end_by(clock, |c: char| c == 'Z')) == Some(
                ((r / 3600) as i64, ((r % 3600) / 60) as i64, (r % 60) as i64),
            )
            &&& valid_clock(r / 3600, (r % 3600) / 60, r % 60)
            &&& (r / 3600) * 3600 + ((r % 3600) / 60) * 60 + r % 60 == r
        }),
{
    let hh = r / 3600;
    let mm = (r % 3600) / 60;
    let ss = r % 60;
    let clock = fields_text(hh, mm, ss, 2, ':');
    lemma_fields_text(hh, mm, ss, 2, ':');
    assert(trim_end_by(clock, |c: char| c == 'Z') == clock) by {
        assert(is_digit(clock.last()));
    }
    assert(clock_fields(clock) == Some((hh as i64, mm as i64, ss as i64)));
    assert(hh * 3600 + mm * 60 + ss == r) by (nonlinear_arith)
        requires
            0 <= r < 86400,
            hh == r / 3600,
            mm == (r % 3600) / 60,
            ss == r % 60,
    ;
}

/// The formatted text of a time: its date, then (unless midnight) `T` and
/// its clock.
#[verifier::rlimit(30)]
proof fn lemma_unix_text_shape(t: int, y: int, m: int, d: int)
    requires
        0 <= y <= i64::MAX,
        valid_date(y, m, d),
    ensures
        ascii_chars(date_text(y, m, d)) == fields_text(y, m, d, 4, '-'),
        t % 86400 == 0 ==> ascii_chars(unix_text(t, y, m, d)) == fields_text(y, m, d, 4, '-'),
        t % 86400 != 0 ==> ascii_chars(unix_text(t, y, m, d)) == fields_text(y, m, d, 4, '-')
            + seq!['T'] + fields_text(
            (t % 86400) / 3600,
            ((t % 86400) % 3600) / 60,
            (t % 86400) % 60,
            2,
            ':',
        ),
{
    let r = t % 86400;
    let date = fields_text(y, m, d, 4, '-');
    assert(ascii_chars(date_text(y, m, d)) =~= date);
    if r == 0 {
        assert(unix_text(t, y, m, d) =~= date_text(y, m, d));
    } else {
        let clock = fields_text(r / 3600, (r % 3600) / 60, r % 60, 2, ':');
        let ct = clock_text(r);
        assert(ascii_chars(ct) =~= seq!['T'] + clock);
        lemma_ascii_concat(date_text(y, m, d), ct);
    }
}

/// What `parse_when` makes of a text that is its own trim, no plain number,
/// and splits into a date and (perhaps) a clock that read as given.
proof fn lemma_parse_when_of(
    text: Seq<char>,
    date: Seq<char>,
    clock: Option<Seq<char>>,
    y: i64,
    m: i64,
    d: i64,
    hms: (i64, i64, i64),
)
    requires
        trim(text) == text,
        parse_i64(text) is None,
        split_date_time(text) == (date, clock),
        three_fields(date, '-') == Some((y, m, d)),
        1 <= m <= 12,
        1 <= d <= 31,
        clock matches Some(c) ==> clock_fields(trim_end_by(c, |ch: char| ch == 'Z')) == Some(hms)
            && valid_clock(hms.0 as int, hms.1 as int, hms.2 as int),
    ensures
        parse_when_spec(text) == Some(
            epoch_days(y as int, m as int, d as int) * 86400 + match clock {
                Some(_) => hms.0 * 3600 + hms.1 * 60 + hms.2,
                None => 0int,
            },
        ),
        when_date(text) == Some((y, m, d)),
        when_clock(text) == match clock {
            Some(_) => Some(Some(hms)),
            None => None::<Option<(i64, i64, i64)>>,
        },
{
    assert(when_date(text) == Some((y, m, d)));
}

/// `format_unix` writes what `parse_when` reads back: for every time whose
/// year is not negative, parsing its formatted text gives the time itself.
/// (A negative year is written with a leading minus, which the date syntax
/// `YYYY-MM-DD` cannot read.)
#[verifier::rlimit(30)]
pub proof fn law_parse_reads_back_format(t: int, y: int, m: int, d: int)
    requires
        0 <= y <= i64::MAX,
        valid_date(y, m, d),
        epoch_days(y, m, d) == t / 86400,
    ensures
        parse_when_spec(ascii_chars(unix_text(t, y, m, d))) == Some(t),
        when_date(ascii_chars(unix_text(t, y, m, d))) == Some((y as i64, m as i64, d as i64)),
        t % 86400 == 0 ==> when_clock(ascii_chars(unix_text(t, y, m, d))) is None,
        t % 86400 != 0 ==> when_clock(ascii_chars(unix_text(t, y, m, d))) == Some(
            Some(
                (
                    ((t % 86400) / 3600) as i64,
                    (((t % 86400) % 3600) / 60) as i64,
                    ((t % 86400) % 60) as i64,
                ),
            ),
        ),
{
    let r = t % 86400;
    let date = fields_text(y, m, d, 4, '-');
    lemma_fields_text(y, m, d, 4, '-');
    lemma_unix_text_shape(t, y, m, d);
    let text = ascii_chars(unix_text(t, y, m, d));
    let p1 = ascii_chars(padded(y, 4)).len() as int;
    assert(t == (t / 86400) * 86400 + r);
    assert(month_days(y, m) <= 31);
    if r == 0 {
        assert(text == date);
        lemma_split_date_only(text);
        lemma_trim_plain(text);
        lemma_not_a_number(text, p1);
        lemma_parse_when_of(text, date, None, y as i64, m as i64, d as i64, (0, 0, 0));
    } else {
        let hms = ((r / 3600) as i64, ((r % 3600) / 60) as i64, (r % 60) as i64);
        let clock = fields_text(r / 3600, (r % 3600) / 60, r % 60, 2, ':');
        lemma_fields_text(r / 3600, (r % 3600) / 60, r % 60, 2, ':');
        assert(text == date + seq!['T'] + clock);
        lemma_split_date_clock(date, clock);
        lemma_clock_reads_back(r);
        assert(text[0] == date[0]);
        assert(text.last() == clock.last());
        lemma_trim_plain(text);
        assert(text[p1] == date[p1]);
        lemma_not_a_number(text, p1);
        lemma_parse_when_of(text, date, Some(clock), y as i64, m as i64, d as i64, hms);
    }
}

proof fn lemma_days_before_year_grows(y: int)
    requires
        y >= 1970,
    ensures
        days_before_year(y) >= 365 * (y - 1970),
    decreases y - 1970,
{
    if y > 1970 {
        lemma_days_before_year_grows(y - 1);
        lemma_days_before_year_step(y - 1);
    } else {
        lemma_days_before_year_step(y);
    }
}

/// `days_from_civil` stays within `i64` for every existing date of a year
/// from 0 to 3 * 10^11.
proof fn lemma_civil_fits_small(y: int, m: int, d: int)
    requires
        0 <= y <= 300_000_000_000,
        valid_date(y, m, d),
    ensures
        civil_fits(y, m, d),
{
    let y1 = if m <= 2 {
        y - 1
    } else {
        y
    };
    if y1 >= 0 {
        assert(0 <= tdiv(y1, 400) <= 750_000_000);
        assert(y1 - tdiv(y1, 400) * 400 >= 0) by (nonlinear_arith)
            requires
                y1 >= 0,
        ;
    } else {
        assert(tdiv(y1 - 399, 400) == -1);
    }
}

/// The text `format_unix` writes for a time of year 0 or later is read back
/// by `parse_when` as that time, without leaving `i64`.
proof fn lemma_formatted_time_reads_back(t: int, y: int, m: int, d: int)
    requires
        in_i64(t),
        t >= -62_167_219_200,
        in_i64(y),
        valid_date(y, m, d),
        epoch_days(y, m, d) == t / 86400,
    ensures
        when_fits(ascii_chars(unix_text(t, y, m, d))),
        parse_when_spec(ascii_chars(unix_text(t, y, m, d))) == Some(t),
{
    lemma_date_within_year(y, m, d);
    lemma_days_before_year_step(0);
    assert(days_before_year(0) == -719528);
    if y < 0 {
        lemma_years_ordered(y, 0);
        if y + 1 < 0 {
            assert(days_before_year(y + 1) <= days_before_year(0));
        }
    }
    assert(y >= 0);
    if y > 300_000_000_000 {
        lemma_days_before_year_grows(y);
    }
    assert(y <= 300_000_000_000);
    lemma_civil_fits_small(y, m, d);
    law_parse_reads_back_format(t, y, m, d);
    let text = ascii_chars(unix_text(t, y, m, d));
    let r = t % 86400;
    assert(epoch_days(y, m, d) * 86400 == t - r);
    if r != 0 {
        lemma_clock_reads_back(r);
    }
}

} // verus!
