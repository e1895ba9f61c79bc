use vstd::prelude::*;
use crate::utils::div_floor_i64;
use crate::coords::Angle;
use crate::coords::Direction;
use crate::coords::angle_canonical;
use crate::coords::angle_of_nanos;
use crate::coords::angle_total_nanos;
use vstd::arithmetic::div_mod::lemma_div_is_ordered;
use vstd::arithmetic::div_mod::lemma_fundamental_div_mod;
use vstd::arithmetic::div_mod::lemma_fundamental_div_mod_converse;
use vstd::arithmetic::div_mod::lemma_mod_bound;
use vstd::arithmetic::div_mod::lemma_div_nonincreasing;
use vstd::arithmetic::div_mod::lemma_div_pos_is_pos;
use vstd::arithmetic::div_mod::lemma_mod_mod;

verus! {

/// A calendar date: proleptic Julian calendar up to 1582-10-04,
/// Gregorian calendar from 1582-10-15 on (the ten days in between were
/// struck from the civil calendar).
#[derive(Clone, Copy, PartialEq, Eq, Structural, Debug)]
pub struct Date {
    pub year: i32,
    pub month: u32,
    pub day: u32,
}

/// The error a caller gets back for a month/day pair that does not
/// exist in the civil calendar of its year.
#[derive(Clone, Copy, PartialEq, Eq, Structural, Debug)]
pub enum DateError {
    InvalidDate,
}

/// The standard Gregorian leap-year rule, as a mathematical predicate:
/// divisible by 4, except centuries, which must be divisible by 400.
pub open spec fn is_leap_spec(year: int) -> bool {
    year % 4 == 0 && (year % 100 != 0 || year % 400 == 0)
}

/// The leap-year rule that fixes the length of February of a given
/// year: the plain every-fourth-year rule while the Julian calendar
/// was in force, the Gregorian century rule afterwards.
pub open spec fn is_leap_in_calendar(year: int) -> bool {
    if year > 1582 {
        is_leap_spec(year)
    } else {
        year % 4 == 0
    }
}

/// How many days the given month of the given year has.
pub open spec fn days_in_month_spec(year: int, month: int) -> int {
    if month == 2 {
        if is_leap_in_calendar(year) {
            29
        } else {
            28
        }
    } else if month == 4 || month == 6 || month == 9 || month == 11 {
        30
    } else {
        31
    }
}

/// A month/day pair that exists in the civil calendar of its year.
pub open spec fn valid_date(year: int, month: int, day: int) -> bool {
    &&& 1 <= month <= 12
    &&& 1 <= day <= days_in_month_spec(year, month)
}

/// The ten dates 1582-10-05 .. 1582-10-14 that the Gregorian reform
/// struck from the civil calendar.
pub open spec fn in_gregorian_gap(year: int, month: int, day: int) -> bool {
    year == 1582 && month == 10 && 5 <= day <= 14
}

/// True for dates up to 1582-10-14, the regime in which the
/// calendar-to-Julian-day conversion applies the Julian rule.
pub open spec fn julian_regime(year: int, month: int, day: int) -> bool {
    ||| year < 1582
    ||| (year == 1582 && month < 10)
    ||| (year == 1582 && month == 10 && day <= 14)
}

/// January and February are counted as months 13 and 14 of the
/// previous year by the Julian-day algorithm.
pub open spec fn shifted_year(year: int, month: int) -> int {
    if month <= 2 {
        year - 1
    } else {
        year
    }
}

pub open spec fn shifted_month(month: int) -> int {
    if month <= 2 {
        month + 12
    } else {
        month
    }
}

/// The month-offset table of the Julian-day algorithm: the textbook
/// term floor(30.6001 * (m + 1)) for the shifted month m in 3..=14.
pub open spec fn month_offset(sm: int) -> int {
    (153 * (sm + 1)) / 5
}

/// The number of days from the start of year -4712 (Julian) to the
/// given civil date, plus one: the integer J such that the textbook
/// Julian Day of the date at 0h Universal Time is J - 0.5.
pub open spec fn jdn_of(year: int, month: int, day: int) -> int {
    let sy = shifted_year(year, month);
    let sm = shifted_month(month);
    let b: int = if julian_regime(year, month, day) {
        0
    } else {
        2 - sy / 100 + (sy / 100) / 4
    };
    let c: int = if sy < 0 {
        (1461 * sy - 3) / 4
    } else {
        (1461 * sy) / 4
    };
    b + c + month_offset(sm) + day + 1720995
}

/// How many days the given month has in the civil calendar.
pub fn days_in_month(year: i32, month: u32) -> (n: u32)
    requires
        1 <= month <= 12,
    ensures
        n as int == days_in_month_spec(year as int, month as int),
{
    if month == 2 {
        let leap: bool = if year > 1582 {
            is_leap_year(year)
        } else {
            let y: i64 = year as i64;
            let a: i64 = if y < 0 {
                -y
            } else {
                y
            };
            proof {
                if y < 0 {
                    lemma_neg_mod_zero(y as int, 4);
                }
            }
            a % 4 == 0
        };
        if leap {
            29
        } else {
            28
        }
    } else if month == 4 || month == 6 || month == 9 || month == 11 {
        30
    } else {
        31
    }
}

/// Whether the month/day pair exists in the civil calendar of its
/// year: the check a caller makes to reject an invalid date rather
/// than feed it to the conversions.  The ten dates the Gregorian
/// reform struck count as invalid.
pub fn is_valid_date(date: &Date) -> (r: bool)
    ensures
        r == (valid_date(date.year as int, date.month as int, date.day as int)
            && !in_gregorian_gap(date.year as int, date.month as int, date.day as int)),
{
    if date.month < 1 || date.month > 12 {
        return false;
    }
    if date.day < 1 || date.day > days_in_month(date.year, date.month) {
        return false;
    }
    if date.year == 1582 && date.month == 10 && 5 <= date.day && date.day <= 14 {
        return false;
    }
    true
}

impl Date {
    /// Builds a date after checking it against the calendar: exactly
    /// the dates that exist come back as `Ok`, every other
    /// combination is rejected as invalid.
    pub fn try_new(year: i32, month: u32, day: u32) -> (r: Result<Date, DateError>)
        ensures
            valid_date(year as int, month as int, day as int) && !in_gregorian_gap(
                year as int,
                month as int,
                day as int,
            ) ==> r == Ok::<Date, DateError>(Date { year, month, day }),
            !(valid_date(year as int, month as int, day as int) && !in_gregorian_gap(
                year as int,
                month as int,
                day as int,
            )) ==> r == Err::<Date, DateError>(DateError::InvalidDate),
    {
        let date = Date { year, month, day };
        if is_valid_date(&date) {
            Ok(date)
        } else {
            Err(DateError::InvalidDate)
        }
    }
}

/// Checks if the given date falls in the Julian-calendar regime,
/// i.e. on or before 1582-10-14.
pub fn is_julian_date(date: &Date) -> (r: bool)
    ensures
        r == julian_regime(date.year as int, date.month as int, date.day as int),
{
    if date.year > 1582 {
        return false;
    }
    if date.year < 1582 {
        return true;
    }
    if date.month > 10 {
        return false;
    }
    if date.month < 10 {
        return true;
    }
    if date.day > 14 {
        return false;
    }
    true
}

/// A number and its negation are divisible by the same moduli.
proof fn lemma_neg_mod_zero(a: int, m: int)
    requires
        m > 0,
    ensures
        ((-a) % m == 0) == (a % m == 0),
{
    let q: int = a / m;
    let r: int = a % m;
    lemma_fundamental_div_mod(a, m);
    lemma_mod_bound(a, m);
    if r == 0 {
        assert(-a == (-q) * m + 0) by (nonlinear_arith)
            requires
                a == m * q + r,
                r == 0,
        ;
        lemma_fundamental_div_mod_converse(-a, m, -q, 0);
    } else {
        assert(-a == (-q - 1) * m + (m - r)) by (nonlinear_arith)
            requires
                a == m * q + r,
        ;
        lemma_fundamental_div_mod_converse(-a, m, -q - 1, m - r);
    }
}

/// Check if the given year is a leap year (Gregorian rule).
pub fn is_leap_year(year: i32) -> (r: bool)
    ensures
        r == is_leap_spec(year as int),
{
    let y: i64 = year as i64;
    let a: i64 = if y < 0 {
        -y
    } else {
        y
    };
    proof {
        if y < 0 {
            lemma_neg_mod_zero(y as int, 4);
            lemma_neg_mod_zero(y as int, 100);
            lemma_neg_mod_zero(y as int, 400);
        }
    }
    if a % 4 == 0 {
        if a % 100 == 0 {
            a % 400 == 0
        } else {
            true
        }
    } else {
        false
    }
}

/// Integer core of the calendar-to-Julian-Day conversion: returns the
/// Julian day number of the date, the count of civil days such that
/// the Julian Day at 0h is the returned number minus one half.  A
/// fractional day is added by the caller on top of this integer.
pub fn julian_day_number(date: &Date) -> (j: i64)
    requires
        -1_000_000 <= date.year <= 1_000_000,
        1 <= date.month <= 12,
        date.day <= 1_000,
    ensures
        j == jdn_of(date.year as int, date.month as int, date.day as int),
{
    let (sy, sm): (i64, i64) = if date.month <= 2 {
        ((date.year as i64) - 1, (date.month as i64) + 12)
    } else {
        (date.year as i64, date.month as i64)
    };

    let b: i64 = if is_julian_date(date) {
        0
    } else {
        let a: i64 = sy / 100;
        2 - a + a / 4
    };

    let c: i64 = if sy < 0 {
        div_floor_i64(1461 * sy - 3, 4)
    } else {
        (1461 * sy) / 4
    };

    let e: i64 = (153 * (sm + 1)) / 5;

    b + c + e + (date.day as i64) + 1_720_995
}

/// The inverse algorithm, Julian day number to (year, month, day):
/// the textbook procedure for turning a Julian Day back into a
/// calendar date, restated over integers.
pub open spec fn date_of_jdn(j: int) -> (int, int, int) {
    let b: int = if j > 2299160 {
        let a: int = (4 * j - 7468865) / 146097;
        j + 1 + a - a / 4
    } else {
        j
    };
    let c: int = b + 1524;
    let dd: int = (20 * c - 2442) / 7305;
    let e: int = (1461 * dd) / 4;
    let g: int = (10000 * (c - e)) / 306001;
    let day: int = c - e - (153 * g) / 5;
    let month: int = if g <= 13 {
        g - 1
    } else {
        g - 13
    };
    let year: int = if month >= 3 {
        dd - 4716
    } else {
        dd - 4715
    };
    (year, month, day)
}

/// If x lies in [q*d, (q+1)*d) then q is exactly the quotient of x by d.
proof fn lemma_div_is(x: int, d: int, q: int)
    requires
        0 < d,
        q * d <= x < (q + 1) * d,
    ensures
        x / d == q,
        x % d == x - q * d,
{
    assert(0 <= x - q * d < d) by (nonlinear_arith)
        requires
            0 < d,
            q * d <= x,
            x < (q + 1) * d,
    ;
    lemma_fundamental_div_mod_converse(x, d, q, x - q * d);
}

/// Facts about the month-offset term for a valid calendar date: its
/// bounds, the coupling with the day of the month that the divisions
/// of the inverse algorithm rely on, and February's leap-day bound.
proof fn lemma_month_facts(year: int, month: int, day: int)
    requires
        valid_date(year, month, day),
    ensures
        3 <= shifted_month(month) <= 14,
        122 <= month_offset(shifted_month(month)) <= 459,
        month_offset(shifted_month(month)) + day <= 488,
        month_offset(shifted_month(month)) + day == 488 ==> month == 2 && day == 29,
        (shifted_month(month) + 1) * 306001 <= 10000 * (month_offset(shifted_month(month)) + day),
        10000 * (month_offset(shifted_month(month)) + day) < (shifted_month(month) + 2) * 306001,
{
    let sm: int = shifted_month(month);
    assert(month_offset(3) == 122);
    assert(month_offset(4) == 153);
    assert(month_offset(5) == 183);
    assert(month_offset(6) == 214);
    assert(month_offset(7) == 244);
    assert(month_offset(8) == 275);
    assert(month_offset(9) == 306);
    assert(month_offset(10) == 336);
    assert(month_offset(11) == 367);
    assert(month_offset(12) == 397);
    assert(month_offset(13) == 428);
    assert(month_offset(14) == 459);
}

/// The shared tail of the inverse algorithm recovers the shifted year,
/// the month offset plus day, and the shifted month, from the value c.
proof fn lemma_inverse_tail(sy: int, sm: int, em: int, day: int, c: int)
    requires
        3 <= sm <= 14,
        em == month_offset(sm),
        1 <= day,
        em + day <= 488,
        em + day == 488 ==> sy % 4 == 3,
        (sm + 1) * 306001 <= 10000 * (em + day),
        10000 * (em + day) < (sm + 2) * 306001,
        sy >= 0 || sy % 4 == 3,
        c == 365 * sy + sy / 4 + em + day + 1722519,
    ensures
        ({
            let dd = (20 * c - 2442) / 7305;
            let e = (1461 * dd) / 4;
            let g = (10000 * (c - e)) / 306001;
            dd == sy + 4716 && c - e == em + day && g == sm + 1 && c - e - (153 * g) / 5 == day
        }),
{
    let q4: int = sy / 4;
    let r4: int = sy % 4;
    lemma_fundamental_div_mod(sy, 4);
    lemma_mod_bound(sy, 4);
    assert(sy == 4 * q4 + r4);

    // dd == sy + 4716
    let x: int = 20 * c - 2442;
    assert(x == 7305 * (sy + 4716) + (20 * em + 20 * day - 2442 - 5 * r4));
    assert(20 * em + 20 * day - 2442 - 5 * r4 >= 0);
    assert(20 * em + 20 * day - 2442 - 5 * r4 < 7305);
    assert((sy + 4716) * 7305 <= x < (sy + 4717) * 7305) by (nonlinear_arith)
        requires
            x == 7305 * (sy + 4716) + (20 * em + 20 * day - 2442 - 5 * r4),
            0 <= 20 * em + 20 * day - 2442 - 5 * r4 < 7305,
    ;
    lemma_div_is(x, 7305, sy + 4716);
    let dd: int = x / 7305;
    assert(dd == sy + 4716);

    // e == 365 * dd + sy / 4 + 1179
    let e: int = (1461 * dd) / 4;
    assert(1461 * dd == (365 * dd + q4 + 1179) * 4 + r4) by (nonlinear_arith)
        requires
            dd == sy + 4716,
            sy == 4 * q4 + r4,
    ;
    lemma_div_is(1461 * dd, 4, 365 * dd + q4 + 1179);
    assert(e == 365 * dd + q4 + 1179);
    assert(c - e == em + day);

    // g == sm + 1
    lemma_div_is(10000 * (em + day), 306001, sm + 1);
    let g: int = (10000 * (c - e)) / 306001;
    assert(g == sm + 1);

    // the day comes back out
    assert((153 * g) / 5 == em);
    assert(c - e - (153 * g) / 5 == day);
}

/// In the inverse algorithm the value c minus the year estimate e
/// always lands in the band of one shifted year, whatever c is.
proof fn lemma_inverse_range(c: int)
    ensures
        ({
            let dd = (20 * c - 2442) / 7305;
            let e = (1461 * dd) / 4;
            123 <= c - e <= 488
        }),
{
    let x: int = 20 * c - 2442;
    let dd: int = x / 7305;
    let s: int = x % 7305;
    lemma_fundamental_div_mod(x, 7305);
    lemma_mod_bound(x, 7305);
    assert(x == 7305 * dd + s);

    let q: int = dd / 4;
    let r: int = dd % 4;
    lemma_fundamental_div_mod(dd, 4);
    lemma_mod_bound(dd, 4);
    assert(dd == 4 * q + r);

    let e: int = (1461 * dd) / 4;
    assert(1461 * dd == (365 * dd + q) * 4 + r) by (nonlinear_arith)
        requires
            dd == 4 * q + r,
    ;
    lemma_div_is(1461 * dd, 4, 365 * dd + q);
    assert(e == 365 * dd + q);

    // 20 * (c - e) == 2442 + s + 5 * r, which lies in [2442, 9761]
    assert(20 * c == 7305 * dd + 2442 + s);
    assert(20 * e == 7300 * dd + 20 * q);
    assert(20 * (c - e) == 5 * dd - 20 * q + 2442 + s);
    assert(5 * dd - 20 * q == 5 * r);
    assert(2442 <= 20 * (c - e) <= 9761);
}

/// Round trip of the calendar conversion: converting a civil date to
/// its Julian day number and back recovers the date.  This holds for
/// every date of the civil calendar from year 1 on (and for the
/// proleptic years whose shifted year is 3 modulo 4); the dates that
/// the Gregorian reform struck from the calendar never come back out.
pub proof fn lemma_julian_day_round_trip(year: int, month: int, day: int)
    requires
        valid_date(year, month, day),
        !in_gregorian_gap(year, month, day),
        shifted_year(year, month) >= 0 || shifted_year(year, month) % 4 == 3,
    ensures
        date_of_jdn(jdn_of(year, month, day)) == (year, month, day),
{
    let sy: int = shifted_year(year, month);
    let sm: int = shifted_month(month);
    let em: int = month_offset(sm);
    lemma_month_facts(year, month, day);

    let q4: int = sy / 4;
    let r4: int = sy % 4;
    lemma_fundamental_div_mod(sy, 4);
    lemma_mod_bound(sy, 4);
    assert(sy == 4 * q4 + r4);

    // February 29 only occurs when the shifted year is 3 modulo 4
    if em + day == 488 {
        assert(month == 2 && day == 29);
        assert(is_leap_in_calendar(year));
        assert(year % 4 == 0);
        let qy: int = year / 4;
        lemma_fundamental_div_mod(year, 4);
        assert(year == 4 * qy);
        assert(sy == (qy - 1) * 4 + 3);
        lemma_div_is(sy, 4, qy - 1);
        assert(r4 == 3);
    }

    // the c term of the forward algorithm equals 365*sy + sy/4
    let cterm: int = if sy < 0 {
        (1461 * sy - 3) / 4
    } else {
        (1461 * sy) / 4
    };
    if sy >= 0 {
        assert(1461 * sy == (365 * sy + q4) * 4 + r4) by (nonlinear_arith)
            requires
                sy == 4 * q4 + r4,
        ;
        lemma_div_is(1461 * sy, 4, 365 * sy + q4);
    } else {
        assert(r4 == 3);
        assert(1461 * sy - 3 == (365 * sy + q4) * 4 + 0) by (nonlinear_arith)
            requires
                sy == 4 * q4 + 3,
        ;
        lemma_div_is(1461 * sy - 3, 4, 365 * sy + q4);
    }
    assert(cterm == 365 * sy + q4);

    let j: int = jdn_of(year, month, day);

    if julian_regime(year, month, day) {
        assert(j == 365 * sy + q4 + em + day + 1720995);

        // the branch test of the inverse: j stays at or below 2299160
        if sy <= 1581 {
            lemma_div_is_ordered(sy, 1581, 4);
            assert(q4 <= 395);
            assert(j <= 2298943);
        } else {
            assert(sy == 1582);
            assert(month >= 3 && year == 1582);
            assert(q4 == 395);
            if month == 10 {
                assert(day <= 4);
                assert(em + day <= 340);
            } else {
                assert(month < 10);
                assert(em + day <= 337);
            }
            assert(j <= 2299160);
        }
        assert(j <= 2299160);

        let c: int = j + 1524;
        assert(c == 365 * sy + q4 + em + day + 1722519);
        lemma_inverse_tail(sy, sm, em, day, c);
    } else {
        // Gregorian regime: year >= 1582, and 1582 only from October 15 on
        assert(sy >= 1582);
        let a100: int = sy / 100;
        let u: int = sy % 100;
        lemma_fundamental_div_mod(sy, 100);
        lemma_mod_bound(sy, 100);
        assert(sy == 100 * a100 + u);
        let qa: int = a100 / 4;
        let ra: int = a100 % 4;
        lemma_fundamental_div_mod(a100, 4);
        lemma_mod_bound(a100, 4);
        assert(a100 == 4 * qa + ra);
        lemma_div_is_ordered(1582, sy, 100);
        assert(a100 >= 15);

        assert(j == 365 * sy + q4 - a100 + qa + em + day + 1720997);

        // the branch test of the inverse: j exceeds 2299160
        if sy >= 1583 {
            lemma_div_is_ordered(1583, sy, 4);
            assert(q4 >= 395);
            if a100 >= 16 {
                lemma_div_is_ordered(16, a100, 4);
                assert(qa >= 4);
                assert(365 * sy >= 36500 * a100 + 365 * u) by (nonlinear_arith)
                    requires
                        sy == 100 * a100 + u,
                        u >= 0,
                ;
                assert(36524 * a100 >= 36524 * 16) by (nonlinear_arith)
                    requires
                        a100 >= 16,
                ;
                assert(j > 2299160);
            } else {
                assert(a100 == 15);
                assert(sy >= 1583 && sy == 1500 + u);
                assert(u >= 83);
                assert(365 * sy >= 365 * 1583);
                assert(qa == 3);
                assert(j > 2299160);
            }
        } else {
            assert(sy == 1582);
            assert(a100 == 15 && qa == 3 && q4 == 395);
            if month <= 2 {
                // January or February 1583: shifted month 13 or 14
                assert(sm >= 13);
                assert(em + day >= 429);
            } else {
                // within 1582, the Gregorian regime starts at October 15
                assert(year == 1582 && month >= 10);
                if month == 10 {
                    assert(day >= 15);
                    assert(em + day >= 351);
                } else {
                    assert(em + day >= 368);
                }
            }
            assert(j > 2299160);
        }
        assert(j > 2299160);

        // the century correction of the inverse equals a100 - 4
        let nn: int = 4 * j - 7468865;
        assert(nn == 146097 * (a100 - 4) + (1461 * u - r4 - ra + 4 * (em + day) - 489)) by (nonlinear_arith)
            requires
                nn == 4 * j - 7468865,
                j == 365 * sy + q4 - a100 + qa + em + day + 1720997,
                sy == 100 * a100 + u,
                sy == 4 * q4 + r4,
                a100 == 4 * qa + ra,
        ;
        let slack: int = 1461 * u - r4 - ra + 4 * (em + day) - 489;

        if u == 0 {
            // a year divisible by 100 is divisible by 4
            assert(sy == 4 * (25 * a100) + 0) by (nonlinear_arith)
                requires
                    sy == 100 * a100 + u,
                    u == 0,
            ;
            lemma_div_is(sy, 4, 25 * a100);
            assert(r4 == 0);
            assert(slack >= 0);
        } else {
            assert(slack >= 1461 - 3 - 3 + 4 * 123 - 489);
        }

        if u == 99 {
            assert(sy == 4 * (25 * a100 + 24) + 3) by (nonlinear_arith)
                requires
                    sy == 100 * a100 + u,
                    u == 99,
            ;
            lemma_div_is(sy, 4, 25 * a100 + 24);
            assert(r4 == 3);
            if em + day == 488 {
                // a valid February 29 above a century needs the 400-year rule
                assert(month == 2 && day == 29);
                assert(year == sy + 1 == 100 * (a100 + 1));
                assert(year > 1582);
                assert(is_leap_in_calendar(year));
                assert(year == (a100 + 1) * 100 + 0) by (nonlinear_arith)
                    requires
                        year == 100 * (a100 + 1),
                ;
                lemma_div_is(year, 100, a100 + 1);
                assert(year % 100 == 0);
                assert(year % 400 == 0);
                let q400: int = year / 400;
                lemma_fundamental_div_mod(year, 400);
                assert(year == 400 * q400);
                assert(a100 + 1 == 4 * q400) by (nonlinear_arith)
                    requires
                        year == 400 * q400,
                        year == 100 * (a100 + 1),
                ;
                assert(a100 == 4 * (q400 - 1) + 3);
                lemma_div_is(a100, 4, q400 - 1);
                assert(ra == 3);
                assert(slack < 146097);
            } else {
                assert(em + day <= 487);
                assert(slack < 146097);
            }
        } else {
            assert(u <= 98);
            assert(1461 * u <= 1461 * 98);
            assert(slack < 146097);
        }
        assert(0 <= slack < 146097);
        assert((a100 - 4) * 146097 <= nn < (a100 - 3) * 146097) by (nonlinear_arith)
            requires
                nn == 146097 * (a100 - 4) + slack,
                0 <= slack < 146097,
        ;
        lemma_div_is(nn, 146097, a100 - 4);
        let a: int = nn / 146097;
        assert(a == a100 - 4);

        // a / 4 == qa - 1
        assert(a == (qa - 1) * 4 + ra);
        lemma_div_is(a, 4, qa - 1);

        let b: int = j + 1 + a - a / 4;
        assert(b == 365 * sy + q4 + em + day + 1720995);
        let c: int = b + 1524;
        assert(c == 365 * sy + q4 + em + day + 1722519);
        lemma_inverse_tail(sy, sm, em, day, c);
    }
}

/// The next day of the civil calendar: carries across month ends and
/// year ends, and jumps over the ten dates the Gregorian reform
/// struck.
pub open spec fn next_date(year: int, month: int, day: int) -> (int, int, int) {
    if year == 1582 && month == 10 && day == 4 {
        (1582, 10, 15)
    } else if day < days_in_month_spec(year, month) {
        (year, month, day + 1)
    } else if month == 12 {
        (year + 1, 1, 1)
    } else {
        (year, month + 1, 1)
    }
}

/// The successor date has the successor Julian day number.
proof fn lemma_next_jdn(year: int, month: int, day: int)
    requires
        valid_date(year, month, day),
        !in_gregorian_gap(year, month, day),
        year >= 1,
    ensures
        ({
            let (y2, m2, d2) = next_date(year, month, day);
            &&& valid_date(y2, m2, d2)
            &&& !in_gregorian_gap(y2, m2, d2)
            &&& y2 >= 1
            &&& jdn_of(y2, m2, d2) == jdn_of(year, month, day) + 1
        }),
{
    if year == 1582 && month == 10 && day == 4 {
        assert(jdn_of(1582, 10, 4) == 2299160);
        assert(jdn_of(1582, 10, 15) == 2299161);
    } else if day < days_in_month_spec(year, month) {
        assert(julian_regime(year, month, day) == julian_regime(year, month, day + 1));
    } else if month == 2 {
        // the last of February: the shifted year advances
        let sy0: int = year - 1;
        let qy: int = year / 4;
        let ry: int = year % 4;
        lemma_fundamental_div_mod(year, 4);
        lemma_mod_bound(year, 4);
        assert(year == 4 * qy + ry);
        assert(1461 * year == (365 * year + qy) * 4 + ry) by (nonlinear_arith)
            requires
                year == 4 * qy + ry,
        ;
        lemma_div_is(1461 * year, 4, 365 * year + qy);
        if ry == 0 {
            assert(sy0 == (qy - 1) * 4 + 3);
            lemma_div_is(sy0, 4, qy - 1);
        } else {
            assert(sy0 == qy * 4 + (ry - 1));
            lemma_div_is(sy0, 4, qy);
        }
        assert(1461 * sy0 == (365 * sy0 + sy0 / 4) * 4 + sy0 % 4) by (nonlinear_arith)
            requires
                sy0 == 4 * (sy0 / 4) + sy0 % 4,
        ;
        lemma_div_is(1461 * sy0, 4, 365 * sy0 + sy0 / 4);
        // (1461 * year) / 4 == (1461 * sy0) / 4 + 365 + (1 if year is
        // divisible by 4 else 0)

        if year <= 1582 {
            // both dates in the Julian regime; February has 29 days
            // exactly when the year is divisible by 4
            assert(jdn_of(year, 3, 1) == jdn_of(year, 2, day) + 1);
        } else {
            // Gregorian regime on both sides; the century term moves
            // only when the year itself crosses a century
            let k: int = year / 100;
            let u: int = year % 100;
            lemma_fundamental_div_mod(year, 100);
            lemma_mod_bound(year, 100);
            assert(year == 100 * k + u);
            if u == 0 {
                assert(sy0 == (k - 1) * 100 + 99);
                lemma_div_is(sy0, 100, k - 1);
                assert(year == (25 * k) * 4 + 0) by (nonlinear_arith)
                    requires
                        year == 100 * k + u,
                        u == 0,
                ;
                lemma_div_is(year, 4, 25 * k);
                assert(ry == 0);
                let qk: int = k / 4;
                let rk: int = k % 4;
                lemma_fundamental_div_mod(k, 4);
                lemma_mod_bound(k, 4);
                assert(k == 4 * qk + rk);
                if rk == 0 {
                    assert(k - 1 == (qk - 1) * 4 + 3);
                    lemma_div_is(k - 1, 4, qk - 1);
                } else {
                    assert(k - 1 == qk * 4 + (rk - 1));
                    lemma_div_is(k - 1, 4, qk);
                }
                // the 400-year rule decides the leap day
                assert(year == qk * 400 + 100 * rk) by (nonlinear_arith)
                    requires
                        year == 100 * k + u,
                        u == 0,
                        k == 4 * qk + rk,
                ;
                lemma_div_is(year, 400, qk);
                assert(year % 400 == 100 * rk);
                assert(jdn_of(year, 3, 1) == jdn_of(year, 2, day) + 1);
            } else {
                assert(sy0 == k * 100 + (u - 1));
                lemma_div_is(sy0, 100, k);
                assert(year % 100 != 0);
                assert(jdn_of(year, 3, 1) == jdn_of(year, 2, day) + 1);
            }
        }
    } else {
        // the last day of any other month: the offset table advances
        // by exactly the length of the month
        assert(jdn_of(year, month, day) + 1 == ({
            let (y2, m2, d2) = next_date(year, month, day);
            jdn_of(y2, m2, d2)
        }));
    }
}

/// Every Julian day number from the start of year 1 onward is the
/// number of a calendar date.
proof fn lemma_jdn_has_a_date(j: int)
    requires
        1721424 <= j,
    ensures
        exists|t: (int, int, int)|
            {
                &&& valid_date(t.0, t.1, t.2)
                &&& !in_gregorian_gap(t.0, t.1, t.2)
                &&& t.0 >= 1
                &&& #[trigger] jdn_of(t.0, t.1, t.2) == j
            },
    decreases j - 1721424,
{
    if j == 1721424 {
        let w: (int, int, int) = (1, 1, 1);
        assert(jdn_of(w.0, w.1, w.2) == 1721424);
    } else {
        lemma_jdn_has_a_date(j - 1);
        let t: (int, int, int) = choose|t: (int, int, int)|
            {
                &&& valid_date(t.0, t.1, t.2)
                &&& !in_gregorian_gap(t.0, t.1, t.2)
                &&& t.0 >= 1
                &&& #[trigger] jdn_of(t.0, t.1, t.2) == j - 1
            };
        lemma_next_jdn(t.0, t.1, t.2);
        let w: (int, int, int) = next_date(t.0, t.1, t.2);
        assert(jdn_of(w.0, w.1, w.2) == j);
    }
}

/// The inverse algorithm is a true inverse: for any Julian day number
/// from the start of year 1 on, it yields a valid calendar date, not
/// one of the dates the reform struck, whose Julian day number is the
/// given number.
pub proof fn lemma_julian_day_surjective(j: int)
    requires
        1721424 <= j,
    ensures
        ({
            let (y, m, d) = date_of_jdn(j);
            &&& valid_date(y, m, d)
            &&& !in_gregorian_gap(y, m, d)
            &&& y >= 1
            &&& jdn_of(y, m, d) == j
        }),
{
    lemma_jdn_has_a_date(j);
    let t: (int, int, int) = choose|t: (int, int, int)|
        {
            &&& valid_date(t.0, t.1, t.2)
            &&& !in_gregorian_gap(t.0, t.1, t.2)
            &&& t.0 >= 1
            &&& #[trigger] jdn_of(t.0, t.1, t.2) == j
        };
    lemma_julian_day_round_trip(t.0, t.1, t.2);
}

/// Bounds for the month and day that the inverse algorithm produces:
/// the month index g runs over the shifted months and the day stays
/// inside an ordinary month.
proof fn lemma_day_bounds(ce: int, g: int)
    requires
        123 <= ce <= 488,
        g == (10000 * ce) / 306001,
    ensures
        4 <= g <= 15,
        1 <= ce - (153 * g) / 5 <= 31,
{
    lemma_div_is_ordered(1230000, 10000 * ce, 306001);
    lemma_div_is_ordered(10000 * ce, 4880000, 306001);
    assert(1230000int / 306001 == 4);
    assert(4880000int / 306001 == 15);
    lemma_fundamental_div_mod(10000 * ce, 306001);
    lemma_mod_bound(10000 * ce, 306001);
    assert(306001 * g <= 10000 * ce < 306001 * (g + 1));
    assert(1 <= ce - (153 * g) / 5 <= 31);
}

/// Integer core of the Julian-Day-to-calendar conversion: the civil
/// date whose Julian day number (as `julian_day_number` counts it) is
/// the given value.
pub fn date_from_julian_day_number(jdn: i64) -> (r: Date)
    requires
        0 <= jdn <= 600_000_000,
    ensures
        (r.year as int, r.month as int, r.day as int) == date_of_jdn(jdn as int),
        1 <= r.month <= 12,
        1 <= r.day <= 31,
        jdn >= 1721424 ==> valid_date(r.year as int, r.month as int, r.day as int)
            && !in_gregorian_gap(r.year as int, r.month as int, r.day as int) && r.year >= 1
            && jdn_of(r.year as int, r.month as int, r.day as int) == jdn,
{
    proof {
        if jdn >= 1721424 {
            lemma_julian_day_surjective(jdn as int);
        }
    }
    let b: i64 = if jdn > 2_299_160 {
        let a: i64 = (4 * jdn - 7_468_865) / 146_097;
        proof {
            lemma_div_pos_is_pos(4 * (jdn as int) - 7468865, 146097);
            lemma_div_is_ordered(4 * (jdn as int) - 7468865, 2_400_000_000int, 146097);
            lemma_div_pos_is_pos(a as int, 4);
            lemma_div_nonincreasing(a as int, 4);
        }
        jdn + 1 + a - a / 4
    } else {
        jdn
    };
    let c: i64 = b + 1524;
    let x: i64 = 20 * c - 2442;
    let dd: i64 = x / 7305;
    proof {
        lemma_div_pos_is_pos(x as int, 7305);
        lemma_div_is_ordered(x as int, 13_000_000_000, 7305);
    }
    let e: i64 = (1461 * dd) / 4;
    proof {
        lemma_div_pos_is_pos(1461 * (dd as int), 4);
        lemma_div_is_ordered(1461 * (dd as int), 2_600_580_000int, 4);
        lemma_inverse_range(c as int);
    }
    let g: i64 = (10_000 * (c - e)) / 306_001;
    proof {
        lemma_day_bounds((c - e) as int, g as int);
    }
    let day: i64 = c - e - (153 * g) / 5;
    let month: i64 = if g <= 13 {
        g - 1
    } else {
        g - 13
    };
    let year: i64 = if month >= 3 {
        dd - 4716
    } else {
        dd - 4715
    };
    Date { year: year as i32, month: month as u32, day: day as u32 }
}

/// Cumulative days before the given month, under the Gregorian rule
/// for February (the table the day-number routine folds into its
/// leap-year constant).
pub open spec fn days_before_month_spec(year: int, month: int) -> int {
    let leap: int = if is_leap_spec(year) {
        1
    } else {
        0
    };
    if month == 1 {
        0
    } else if month == 2 {
        31
    } else if month == 3 {
        59 + leap
    } else if month == 4 {
        90 + leap
    } else if month == 5 {
        120 + leap
    } else if month == 6 {
        151 + leap
    } else if month == 7 {
        181 + leap
    } else if month == 8 {
        212 + leap
    } else if month == 9 {
        243 + leap
    } else if month == 10 {
        273 + leap
    } else if month == 11 {
        304 + leap
    } else {
        334 + leap
    }
}

/// Finds the day number: how many days into its year the date lies.
pub fn day_number_from_date(date: &Date) -> (n: u32)
    requires
        1 <= date.month <= 12,
        date.day <= 1_000,
    ensures
        n as int == days_before_month_spec(date.year as int, date.month as int) + date.day,
{
    let tmp: u32 = if is_leap_year(date.year) {
        62
    } else {
        63
    };
    let num: u32 = if date.month <= 2 {
        (date.month - 1) * tmp / 2
    } else {
        (153 * (date.month + 1)) / 5 - tmp
    };
    num + date.day
}

/// The year offset the orbital models use: stepping year by year
/// from 1990 to the given year, 365 days per step and one more for
/// each leap year stepped onto, the far year included.
pub open spec fn days_since_1990_spec(year: int) -> int
    decreases
            (if year >= 1990 {
                year - 1990
            } else {
                1990 - year
            }),
{
    if year > 1990 {
        days_since_1990_spec(year - 1) + 365 + (if is_leap_spec(year) {
            1int
        } else {
            0int
        })
    } else if year < 1990 {
        days_since_1990_spec(year + 1) - 365 - (if is_leap_spec(year) {
            1int
        } else {
            0int
        })
    } else {
        0
    }
}

/// The offset stays within 366 days per year of distance from 1990.
proof fn lemma_days_since_1990_bound(year: int)
    requires
        -1_000_000 <= year <= 1_000_000,
    ensures
        year >= 1990 ==> 365 * (year - 1990) <= days_since_1990_spec(year) <= 366 * (year - 1990),
        year <= 1990 ==> 366 * (year - 1990) <= days_since_1990_spec(year) <= 365 * (year - 1990),
    decreases
            (if year >= 1990 {
                year - 1990
            } else {
                1990 - year
            }),
{
    if year > 1990 {
        lemma_days_since_1990_bound(year - 1);
    } else if year < 1990 {
        lemma_days_since_1990_bound(year + 1);
    }
}

/// Day offset of the year from 1990, the epoch of the orbital
/// models: negative for earlier years, positive for later ones.
pub fn days_since_1990(year: i32) -> (d: i32)
    requires
        -1_000_000 <= year <= 1_000_000,
    ensures
        d as int == days_since_1990_spec(year as int),
{
    let mut year_0: i32 = year;
    let mut days: i32 = 0;
    proof {
        lemma_days_since_1990_bound(year as int);
    }

    if year < 1990 {
        while year_0 < 1990
            invariant
                year <= year_0 <= 1990,
                -1_000_000 <= year,
                days as int == days_since_1990_spec(year as int) - days_since_1990_spec(
                    year_0 as int),
                year >= 1990 ==> 365 * (year - 1990) <= days_since_1990_spec(year as int) <= 366 * (
                year - 1990),
                year <= 1990 ==> 366 * (year - 1990) <= days_since_1990_spec(year as int) <= 365 * (
                year - 1990),
            decreases 1990 - year_0,
        {
            proof {
                lemma_days_since_1990_bound(year_0 as int);
                lemma_days_since_1990_bound(year_0 as int + 1);
            }
            let leap: bool = is_leap_year(year_0);
            days = days - 365;
            if leap {
                days = days - 1;
            }
            year_0 = year_0 + 1;
        }
    } else {
        while year_0 > 1990
            invariant
                1990 <= year_0 <= year,
                year <= 1_000_000,
                days as int == days_since_1990_spec(year as int) - days_since_1990_spec(
                    year_0 as int),
                year >= 1990 ==> 365 * (year - 1990) <= days_since_1990_spec(year as int) <= 366 * (
                year - 1990),
                year <= 1990 ==> 366 * (year - 1990) <= days_since_1990_spec(year as int) <= 365 * (
                year - 1990),
            decreases year_0 - 1990,
        {
            proof {
                lemma_days_since_1990_bound(year_0 as int);
                lemma_days_since_1990_bound(year_0 as int - 1);
            }
            let leap: bool = is_leap_year(year_0);
            days = days + 365;
            if leap {
                days = days + 1;
            }
            year_0 = year_0 - 1;
        }
    }

    days
}

/// The weekday number of the date counted from Sunday as 1 through
/// Saturday as 7, derived from the Julian day number modulo 7.
pub fn day_of_the_week(date: &Date) -> (w: u32)
    requires
        -1_000_000 <= date.year <= 1_000_000,
        1 <= date.month <= 12,
        date.day <= 1_000,
    ensures
        w as int == (jdn_of(date.year as int, date.month as int, date.day as int) + 1) % 7 + 1,
        1 <= w <= 7,
{
    let j: i64 = julian_day_number(date);
    // shift by a multiple of seven so the remainder is taken of a
    // positive number
    let shifted: i64 = j + 1 + 700_000_000;
    let w: i64 = shifted % 7;
    proof {
        vstd::arithmetic::div_mod::lemma_mod_multiples_vanish(
            100_000_000,
            (j + 1) as int,
            7,
        );
        lemma_mod_bound((j + 1) as int, 7);
        lemma_mod_bound(shifted as int, 7);
    }
    (w + 1) as u32
}

/// Moves the date by the given number of whole days, across month,
/// year and calendar-reform boundaries.
pub fn add_days(date: &Date, days: i64) -> (r: Date)
    requires
        -1_000_000 <= date.year <= 1_000_000,
        1 <= date.month <= 12,
        date.day <= 1_000,
        0 <= jdn_of(date.year as int, date.month as int, date.day as int) + days
            <= 600_000_000,
    ensures
        (r.year as int, r.month as int, r.day as int) == date_of_jdn(
            jdn_of(date.year as int, date.month as int, date.day as int) + days,
        ),
        1 <= r.month <= 12,
        1 <= r.day <= 31,
        jdn_of(date.year as int, date.month as int, date.day as int) + days >= 1721424
            ==> jdn_of(r.year as int, r.month as int, r.day as int) == jdn_of(
            date.year as int,
            date.month as int,
            date.day as int,
        ) + days,
{
    let j: i64 = julian_day_number(date);
    date_from_julian_day_number(j + days)
}

pub const NANOS_PER_SEC: i64 = 1_000_000_000;

pub const NANOS_PER_MIN: i64 = 60_000_000_000;

pub const NANOS_PER_HOUR: i64 = 3_600_000_000_000;

pub const NANOS_PER_DAY: i64 = 86_400_000_000_000;

/// The instant of a clock reading within its day, in nanoseconds.
pub open spec fn hms_total_nanos(hour: int, min: int, sec: int, nano: int) -> int {
    (hour * 3600 + min * 60 + sec) * 1_000_000_000 + nano
}

/// Packs a clock reading into nanoseconds of day: the exact quantity
/// of which the textbook's decimal hours are the 3.6e12th part.
pub fn nanos_from_hms(hour: u32, min: u32, sec: u32, nano: u32) -> (t: i64)
    requires
        hour < 24,
        min < 60,
        sec < 61,
        nano < 2_000_000_000,
    ensures
        t == hms_total_nanos(hour as int, min as int, sec as int, nano as int),
        0 <= t < NANOS_PER_DAY + 3_000_000_000,
{
    ((hour as i64) * 3600 + (min as i64) * 60 + (sec as i64)) * 1_000_000_000 + (nano as i64)
}

/// Splits nanoseconds of day back into hour, minute, second and
/// nanosecond.
pub fn hms_from_nanos(t: i64) -> (r: (u32, u32, u32, u32))
    requires
        0 <= t < NANOS_PER_DAY,
    ensures
        t == hms_total_nanos(r.0 as int, r.1 as int, r.2 as int, r.3 as int),
        r.0 < 24,
        r.1 < 60,
        r.2 < 60,
        r.3 < 1_000_000_000,
{
    let hour: i64 = t / NANOS_PER_HOUR;
    let rem_h: i64 = t % NANOS_PER_HOUR;
    let min: i64 = rem_h / NANOS_PER_MIN;
    let rem_m: i64 = rem_h % NANOS_PER_MIN;
    let sec: i64 = rem_m / NANOS_PER_SEC;
    let nano: i64 = rem_m % NANOS_PER_SEC;
    proof {
        lemma_fundamental_div_mod(t as int, NANOS_PER_HOUR as int);
        lemma_mod_bound(t as int, NANOS_PER_HOUR as int);
        lemma_fundamental_div_mod(rem_h as int, NANOS_PER_MIN as int);
        lemma_mod_bound(rem_h as int, NANOS_PER_MIN as int);
        lemma_fundamental_div_mod(rem_m as int, NANOS_PER_SEC as int);
        lemma_mod_bound(rem_m as int, NANOS_PER_SEC as int);
    }
    (hour as u32, min as u32, sec as u32, nano as u32)
}

/// Round trip of the clock packing: splitting the nanoseconds of day
/// recovers the hour, minute, second and nanosecond.
pub proof fn lemma_hms_round_trip(hour: int, min: int, sec: int, nano: int)
    requires
        0 <= hour < 24,
        0 <= min < 60,
        0 <= sec < 60,
        0 <= nano < 1_000_000_000,
    ensures
        ({
            let t = hms_total_nanos(hour, min, sec, nano);
            let hour2 = t / (NANOS_PER_HOUR as int);
            let rem_h = t % (NANOS_PER_HOUR as int);
            let min2 = rem_h / (NANOS_PER_MIN as int);
            let rem_m = rem_h % (NANOS_PER_MIN as int);
            hour2 == hour && min2 == min && rem_m / (NANOS_PER_SEC as int) == sec && rem_m % (
            NANOS_PER_SEC as int) == nano
        }),
{
    let t: int = hms_total_nanos(hour, min, sec, nano);
    lemma_div_is(t, NANOS_PER_HOUR as int, hour);
    let rem_h: int = t % (NANOS_PER_HOUR as int);
    assert(rem_h == (min * 60 + sec) * 1_000_000_000 + nano);
    lemma_div_is(rem_h, NANOS_PER_MIN as int, min);
    let rem_m: int = rem_h % (NANOS_PER_MIN as int);
    assert(rem_m == sec * 1_000_000_000 + nano);
    lemma_div_is(rem_m, NANOS_PER_SEC as int, sec);
}

/// Carries excess seconds into minutes, minutes into hours and hours
/// into days, and borrows back through the same places for negative
/// components, so that the result reads as a clock time.  The second
/// place is carried in nanoseconds.  Returns the normalized triple and
/// the day excess.
pub fn calibrate_hmsn(hour: i64, min: i64, sec_nanos: i64) -> (r: ((i64, i64, i64), i64))
    requires
        -1_000_000 <= hour <= 1_000_000,
        -1_000_000 <= min <= 1_000_000,
        -0x100_0000_0000_0000 <= sec_nanos <= 0x100_0000_0000_0000,
    ensures
        ({
            let ((h, m, s), day_excess) = r;
            &&& 0 <= h < 24
            &&& 0 <= m < 60
            &&& 0 <= s < NANOS_PER_MIN
            &&& day_excess * 86400 * 1_000_000_000 + hms_total_nanos(h as int, m as int, 0, s as int)
                == hms_total_nanos(hour as int, min as int, 0, sec_nanos as int)
        }),
{
    let (sec_2, min_excess): (i64, i64) = crate::utils::overflow(sec_nanos, NANOS_PER_MIN);
    let mut sec: i64 = sec_2;
    let mut min_c: i64 = min + min_excess;

    let (min_2, hour_excess): (i64, i64) = crate::utils::overflow(min_c, 60);
    min_c = min_2;
    let mut hour_c: i64 = hour + hour_excess;

    let (hour_2, day_excess_0): (i64, i64) = crate::utils::overflow(hour_c, 24);
    hour_c = hour_2;
    let mut day_excess: i64 = day_excess_0;

    if sec < 0 {
        sec = sec + NANOS_PER_MIN;
        min_c = min_c - 1;
    }
    if min_c < 0 {
        min_c = min_c + 60;
        hour_c = hour_c - 1;
    }
    if hour_c < 0 {
        hour_c = hour_c + 24;
        day_excess = day_excess - 1;
    }

    ((hour_c, min_c, sec), day_excess)
}

/// The value of a sign-carrying angle in nanoseconds of its base
/// unit; the exact counterpart of the textbook's decimal hours.
pub fn total_nanos_from_angle(angle: &Angle) -> (t: i64)
    requires
        -1_000_000 <= angle.hour <= 1_000_000,
        -1_000_000 <= angle.minute <= 1_000_000,
        -0x100_0000_0000_0000 <= angle.second_nanos <= 0x100_0000_0000_0000,
    ensures
        t == angle_total_nanos(*angle),
{
    let h: i64 = if angle.hour >= 0 {
        angle.hour as i64
    } else {
        -(angle.hour as i64)
    };
    let m: i64 = if angle.minute >= 0 {
        angle.minute as i64
    } else {
        -(angle.minute as i64)
    };
    let s: i64 = if angle.second_nanos >= 0 {
        angle.second_nanos
    } else {
        -angle.second_nanos
    };
    let magnitude: i64 = h * NANOS_PER_HOUR + m * NANOS_PER_MIN + s;
    if angle.hour < 0 || angle.minute < 0 || angle.second_nanos < 0 {
        -magnitude
    } else {
        magnitude
    }
}

/// Splits a signed quantity of nanoseconds into a canonical
/// sign-carrying angle: the sign lands on the first non-zero place.
pub fn angle_from_total_nanos(t: i64) -> (a: Angle)
    requires
        -0x100_0000_0000_0000 <= t <= 0x100_0000_0000_0000,
    ensures
        (a.hour as int, a.minute as int, a.second_nanos as int) == angle_of_nanos(t as int),
        angle_canonical(a),
        angle_total_nanos(a) == t,
{
    let n: i64 = if t >= 0 {
        t
    } else {
        -t
    };
    let h: i64 = n / NANOS_PER_HOUR;
    let rem_h: i64 = n % NANOS_PER_HOUR;
    let m: i64 = rem_h / NANOS_PER_MIN;
    let s: i64 = n % NANOS_PER_MIN;
    proof {
        lemma_fundamental_div_mod(n as int, NANOS_PER_HOUR as int);
        lemma_mod_bound(n as int, NANOS_PER_HOUR as int);
        lemma_fundamental_div_mod(rem_h as int, NANOS_PER_MIN as int);
        lemma_mod_bound(rem_h as int, NANOS_PER_MIN as int);
        lemma_fundamental_div_mod(n as int, NANOS_PER_MIN as int);
        lemma_mod_bound(n as int, NANOS_PER_MIN as int);
        lemma_mod_mod(n as int, 60, NANOS_PER_MIN as int);
        lemma_div_is_ordered(n as int, 0x100_0000_0000_0000, NANOS_PER_HOUR as int);
    }
    if t >= 0 {
        Angle { hour: h as i32, minute: m as i32, second_nanos: s }
    } else if h != 0 {
        Angle { hour: (-h) as i32, minute: m as i32, second_nanos: s }
    } else if m != 0 {
        Angle { hour: 0, minute: (-m) as i32, second_nanos: s }
    } else {
        Angle { hour: 0, minute: 0, second_nanos: -s }
    }
}

/// Round trip of the sign-carrying representation: a canonical angle
/// taken to nanoseconds and split back comes out unchanged, sign
/// placement included.
pub proof fn lemma_angle_round_trip(a: Angle)
    requires
        angle_canonical(a),
    ensures
        angle_of_nanos(angle_total_nanos(a)) == (a.hour as int, a.minute as int,
        a.second_nanos as int),
{
    let hbar: int = if a.hour >= 0 {
        a.hour as int
    } else {
        -(a.hour as int)
    };
    let mbar: int = if a.minute >= 0 {
        a.minute as int
    } else {
        -(a.minute as int)
    };
    let sbar: int = if a.second_nanos >= 0 {
        a.second_nanos as int
    } else {
        -(a.second_nanos as int)
    };
    let hh: int = NANOS_PER_HOUR as int;
    let mm: int = NANOS_PER_MIN as int;
    let mag: int = hbar * hh + mbar * mm + sbar;
    assert(mbar * mm <= 59 * mm) by (nonlinear_arith)
        requires
            mbar <= 59,
            mm == NANOS_PER_MIN as int,
    ;
    assert(hbar * hh <= mag < (hbar + 1) * hh) by (nonlinear_arith)
        requires
            mag == hbar * hh + mbar * mm + sbar,
            0 <= mbar * mm <= 59 * mm,
            0 <= sbar < mm,
            hh == 60 * mm,
            0 <= hbar,
    ;
    lemma_div_is(mag, hh, hbar);
    assert(mag % hh == mbar * mm + sbar);
    lemma_div_is(mbar * mm + sbar, mm, mbar);
    assert((hbar * 60 + mbar) * mm <= mag < (hbar * 60 + mbar + 1) * mm) by (nonlinear_arith)
        requires
            mag == hbar * hh + mbar * mm + sbar,
            hh == 60 * mm,
            0 <= sbar < mm,
    ;
    lemma_div_is(mag, mm, hbar * 60 + mbar);
    assert(mag % mm == sbar);
}

/// The sign with which an observer longitude is applied to sidereal
/// time: added going East, subtracted going West, and ignored for the
/// directions that carry no longitude convention.
pub open spec fn longitude_sign(dir: Direction) -> int {
    match dir {
        Direction::East => 1,
        Direction::West => -1,
        Direction::North => 0,
        Direction::South => 0,
    }
}

/// Local sidereal time from Greenwich sidereal time, both in
/// nanoseconds of day, for an observer whose longitude offset (also in
/// nanoseconds of time) lies in the given direction.
pub fn lst_from_gst_nanos(gst: i64, offset: i64, dir: &Direction) -> (r: i64)
    requires
        0 <= gst < NANOS_PER_DAY,
        0 <= offset <= NANOS_PER_DAY,
    ensures
        r as int == (gst + longitude_sign(*dir) * offset) % (NANOS_PER_DAY as int),
        0 <= r < NANOS_PER_DAY,
{
    let shifted: i64 = match dir {
        Direction::West => gst - offset,
        Direction::East => gst + offset,
        _ => gst,
    };
    let r: i64 = if shifted < 0 {
        shifted + NANOS_PER_DAY
    } else if shifted >= NANOS_PER_DAY {
        shifted - NANOS_PER_DAY
    } else {
        shifted
    };
    proof {
        if shifted < 0 {
            lemma_fundamental_div_mod_converse(shifted as int, NANOS_PER_DAY as int, -1, r as int);
        } else if shifted >= NANOS_PER_DAY {
            lemma_fundamental_div_mod_converse(shifted as int, NANOS_PER_DAY as int, 1, r as int);
        } else {
            lemma_fundamental_div_mod_converse(shifted as int, NANOS_PER_DAY as int, 0, r as int);
        }
    }
    r
}

/// Greenwich sidereal time back from local sidereal time: the same
/// offset applied with the opposite sign.
pub fn gst_from_lst_nanos(lst: i64, offset: i64, dir: &Direction) -> (r: i64)
    requires
        0 <= lst < NANOS_PER_DAY,
        0 <= offset <= NANOS_PER_DAY,
    ensures
        r as int == (lst - longitude_sign(*dir) * offset) % (NANOS_PER_DAY as int),
        0 <= r < NANOS_PER_DAY,
{
    let shifted: i64 = match dir {
        Direction::West => lst + offset,
        Direction::East => lst - offset,
        _ => lst,
    };
    let r: i64 = if shifted < 0 {
        shifted + NANOS_PER_DAY
    } else if shifted >= NANOS_PER_DAY {
        shifted - NANOS_PER_DAY
    } else {
        shifted
    };
    proof {
        if shifted < 0 {
            lemma_fundamental_div_mod_converse(shifted as int, NANOS_PER_DAY as int, -1, r as int);
        } else if shifted >= NANOS_PER_DAY {
            lemma_fundamental_div_mod_converse(shifted as int, NANOS_PER_DAY as int, 1, r as int);
        } else {
            lemma_fundamental_div_mod_converse(shifted as int, NANOS_PER_DAY as int, 0, r as int);
        }
    }
    r
}

/// East and West are complementary: applying a longitude offset to a
/// sidereal time and then applying it with the opposite sign returns
/// the original time, for any offset and either direction.
pub proof fn lemma_sidereal_round_trip(gst: int, delta: int)
    requires
        0 <= gst < NANOS_PER_DAY,
    ensures
        ((gst + delta) % (NANOS_PER_DAY as int) - delta) % (NANOS_PER_DAY as int) == gst,
{
    let day: int = NANOS_PER_DAY as int;
    let w: int = (gst + delta) % day;
    lemma_fundamental_div_mod(gst + delta, day);
    let q: int = (gst + delta) / day;
    assert(w - delta == gst + (-q) * day) by (nonlinear_arith)
        requires
            gst + delta == day * q + w,
    ;
    vstd::arithmetic::div_mod::lemma_mod_multiples_vanish(-q, gst, day);
    lemma_div_is(gst, day, 0);
}

} // verus!
