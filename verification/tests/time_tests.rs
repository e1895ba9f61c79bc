use sowngwala::time::add_days;
use sowngwala::time::calibrate_hmsn;
use sowngwala::time::date_from_julian_day_number;
use sowngwala::time::day_number_from_date;
use sowngwala::time::day_of_the_week;
use sowngwala::time::days_since_1990;
use sowngwala::time::hms_from_nanos;
use sowngwala::time::is_julian_date;
use sowngwala::time::is_leap_year;
use sowngwala::time::julian_day_number;
use sowngwala::time::nanos_from_hms;
use sowngwala::time::DateError;
use sowngwala::time::days_in_month;
use sowngwala::time::is_valid_date;
use sowngwala::time::Date;

fn date(year: i32, month: u32, day: u32) -> Date {
    Date { year, month, day }
}

#[test]
fn julian_day_for_marty_mcfly_goes_back() {
    // On Saturday, October 26, 1985, 1:35 AM,
    // Marty McFly goes back in time.
    let jdn = julian_day_number(&date(1985, 10, 26));
    let jd: f64 = (jdn as f64) - 0.5 + (nanos_from_hms(1, 35, 0, 0) as f64) / 86_400_000_000_000.0;

    let expected = 2446364.56597;
    assert!(((jd - expected) / expected).abs() < 1e-11); // 2446364.565972222
}

#[test]
fn julian_day_textbook_value() {
    // 1985 February 17.25 has the Julian Day 2446113.75, exactly.
    let jdn = julian_day_number(&date(1985, 2, 17));
    assert_eq!(jdn, 2_446_114);
    let jd: f64 = (jdn as f64) - 0.5 + 0.25;
    assert_eq!(jd, 2_446_113.75);
}

#[test]
fn julian_day_round_trip_gregorian() {
    for d in [
        date(1985, 2, 17),
        date(2000, 2, 29),
        date(1600, 2, 29),
        date(1900, 3, 1),
        date(1999, 12, 31),
        date(1582, 10, 15),
        date(2150, 1, 1),
    ] {
        let jdn = julian_day_number(&d);
        assert_eq!(date_from_julian_day_number(jdn), d);
    }
}

#[test]
fn julian_day_round_trip_julian_regime() {
    for d in [
        date(1582, 10, 4),
        date(1500, 2, 29),
        date(1000, 1, 1),
        date(1, 1, 1),
        date(800, 12, 25),
    ] {
        let jdn = julian_day_number(&d);
        assert_eq!(date_from_julian_day_number(jdn), d);
    }
}

#[test]
fn julian_day_at_the_reform() {
    assert_eq!(julian_day_number(&date(1582, 10, 4)), 2_299_160);
    assert_eq!(julian_day_number(&date(1582, 10, 15)), 2_299_161);
    // the ten struck dates collapse onto the Gregorian dates that
    // replaced them, and never come back out
    assert_eq!(julian_day_number(&date(1582, 10, 5)), 2_299_161);
    assert_eq!(date_from_julian_day_number(2_299_161), date(1582, 10, 15));
}

#[test]
fn julian_day_of_the_epoch() {
    assert_eq!(julian_day_number(&date(1, 1, 1)), 1_721_424);
    assert_eq!(julian_day_number(&date(-4712, 1, 1)), 0);
}

#[test]
fn julian_day_number_is_onto() {
    // every day number across the reform and across a leap century
    // comes from exactly the date the inverse returns
    for j in 2_298_900..2_299_400 {
        let d = date_from_julian_day_number(j);
        assert!(is_valid_date(&d));
        assert_eq!(julian_day_number(&d), j);
    }
    for j in 2_451_500..2_451_700 {
        let d = date_from_julian_day_number(j);
        assert!(is_valid_date(&d));
        assert_eq!(julian_day_number(&d), j);
    }
}

#[test]
fn julian_day_round_trip_whole_years() {
    for year in [1581, 1582, 1583, 1599, 1600, 1899, 1900, 1999, 2000] {
        for month in 1..=12 {
            for day in 1..=days_in_month(year, month) {
                let d = date(year, month, day);
                if !is_valid_date(&d) {
                    // only the ten dates the reform struck
                    continue;
                }
                let jdn = julian_day_number(&d);
                assert_eq!(date_from_julian_day_number(jdn), d);
            }
        }
    }
}

#[test]
fn day_number_textbook_values() {
    assert_eq!(day_number_from_date(&date(1985, 2, 17)), 48);
    assert_eq!(day_number_from_date(&date(1988, 7, 27)), 209);
}

#[test]
fn days_since_1990_for_1988() {
    // two years back across the 1988 leap year
    assert_eq!(days_since_1990(1988), -731);
    assert_eq!(days_since_1990(1990), 0);
    assert_eq!(days_since_1990(1992), 731);
}

#[test]
fn date_validation() {
    assert!(is_valid_date(&date(2024, 2, 29)));
    assert!(!is_valid_date(&date(2023, 2, 29)));
    // the Julian rule governs February before the reform
    assert!(is_valid_date(&date(1500, 2, 29)));
    // the Gregorian century rule afterwards
    assert!(!is_valid_date(&date(1900, 2, 29)));
    assert!(!is_valid_date(&date(2021, 4, 31)));
    assert!(!is_valid_date(&date(2021, 13, 1)));
    assert!(!is_valid_date(&date(2021, 1, 0)));
    // the ten dates struck by the reform are not civil dates
    assert!(!is_valid_date(&date(1582, 10, 10)));
    assert!(is_valid_date(&date(1582, 10, 4)));
    assert!(is_valid_date(&date(1582, 10, 15)));

    assert_eq!(days_in_month(2024, 2), 29);
    assert_eq!(days_in_month(1900, 2), 28);
    assert_eq!(days_in_month(1500, 2), 29);
    assert_eq!(days_in_month(2021, 4), 30);
    assert_eq!(days_in_month(2021, 12), 31);
}

#[test]
fn checked_construction() {
    assert_eq!(Date::try_new(1985, 2, 17), Ok(date(1985, 2, 17)));
    assert_eq!(Date::try_new(1985, 2, 29), Err(DateError::InvalidDate));
    assert_eq!(Date::try_new(1582, 10, 8), Err(DateError::InvalidDate));
    assert_eq!(Date::try_new(2000, 0, 1), Err(DateError::InvalidDate));
}

#[test]
fn leap_year_rule() {
    assert!(is_leap_year(1600));
    assert!(!is_leap_year(1700));
    assert!(!is_leap_year(1900));
    assert!(is_leap_year(2000));
    assert!(is_leap_year(2024));
    assert!(!is_leap_year(2023));
    assert!(is_leap_year(-4));
}

#[test]
fn weekday_from_julian_day() {
    // 1985 February 17 was a Sunday
    assert_eq!(day_of_the_week(&date(1985, 2, 17)), 1);
    // 2021 January 1 was a Friday
    assert_eq!(day_of_the_week(&date(2021, 1, 1)), 6);
}

#[test]
fn julian_date_predicate() {
    assert!(is_julian_date(&date(1582, 10, 14)));
    assert!(!is_julian_date(&date(1582, 10, 15)));
    assert!(is_julian_date(&date(1000, 5, 5)));
    assert!(!is_julian_date(&date(1986, 1, 1)));
}

#[test]
fn add_days_moves_across_boundaries() {
    assert_eq!(add_days(&date(2021, 1, 1), 1), date(2021, 1, 2));
    assert_eq!(add_days(&date(2020, 2, 28), 1), date(2020, 2, 29));
    assert_eq!(add_days(&date(2021, 1, 1), -1), date(2020, 12, 31));
    // the day after the last Julian date is the first Gregorian one
    assert_eq!(add_days(&date(1582, 10, 4), 1), date(1582, 10, 15));
}

#[test]
fn clock_packing_round_trip() {
    let t = nanos_from_hms(18, 31, 27, 0);
    assert_eq!(t, 66_687_000_000_000);
    // decimal hours of the textbook example: 18.52417 within 1e-6
    let dec = (t as f64) / 3_600_000_000_000.0;
    assert!((dec - 18.52417).abs() < 1e-5);
    assert_eq!(hms_from_nanos(t), (18, 31, 27, 0));

    let t2 = nanos_from_hms(14, 36, 51, 670_000_000);
    assert_eq!(hms_from_nanos(t2), (14, 36, 51, 670_000_000));
}

#[test]
fn calibrate_carries_upward() {
    // 63 seconds become one minute three seconds
    let ((h, m, s), day_excess) = calibrate_hmsn(0, 0, 63_000_000_000);
    assert_eq!((h, m, s, day_excess), (0, 1, 3_000_000_000, 0));

    // 63 minutes become one hour three minutes
    let ((h, m, s), day_excess) = calibrate_hmsn(0, 63, 0);
    assert_eq!((h, m, s, day_excess), (1, 3, 0, 0));

    // 24 hours carry into the next day
    let ((h, m, s), day_excess) = calibrate_hmsn(24, 0, 0);
    assert_eq!((h, m, s, day_excess), (0, 0, 0, 1));

    // 23:59:60 carries all the way up
    let ((h, m, s), day_excess) = calibrate_hmsn(23, 59, 60_000_000_000);
    assert_eq!((h, m, s, day_excess), (0, 0, 0, 1));
}

#[test]
fn calibrate_borrows_downward() {
    // one minute minus one second
    let ((h, m, s), day_excess) = calibrate_hmsn(0, 1, -1_000_000_000);
    assert_eq!((h, m, s, day_excess), (0, 0, 59_000_000_000, 0));

    // minus one second borrows from the previous day
    let ((h, m, s), day_excess) = calibrate_hmsn(0, 0, -1_000_000_000);
    assert_eq!((h, m, s, day_excess), (23, 59, 59_000_000_000, -1));
}
