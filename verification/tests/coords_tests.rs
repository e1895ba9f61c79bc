use sowngwala::coords::Angle;
use sowngwala::coords::Direction;
use sowngwala::time::angle_from_total_nanos;
use sowngwala::time::gst_from_lst_nanos;
use sowngwala::time::lst_from_gst_nanos;
use sowngwala::time::nanos_from_hms;
use sowngwala::time::total_nanos_from_angle;

#[test]
fn angle_round_trip_positive() {
    let a = Angle::new(18, 32, 21_000_000_000);
    let t = total_nanos_from_angle(&a);
    assert_eq!(t, 66_741_000_000_000);
    assert_eq!(angle_from_total_nanos(t), a);
}

#[test]
fn angle_round_trip_negative_hour() {
    // a southern declination: the sign sits on the hour
    let a = Angle::new(-8, 13, 30_000_000_000);
    let t = total_nanos_from_angle(&a);
    assert_eq!(t, -(8 * 3_600_000_000_000 + 13 * 60_000_000_000 + 30_000_000_000));
    assert_eq!(angle_from_total_nanos(t), a);
}

#[test]
fn angle_round_trip_negative_minute() {
    // the hour is zero, so the minute carries the sign
    let a = Angle::new(0, -5, 30_000_000_000);
    let t = total_nanos_from_angle(&a);
    assert_eq!(angle_from_total_nanos(t), a);
}

#[test]
fn angle_round_trip_negative_second() {
    // hour and minute are zero, so the second carries the sign
    let a = Angle::new(0, 0, -2_500_000_000);
    let t = total_nanos_from_angle(&a);
    assert_eq!(angle_from_total_nanos(t), a);
}

#[test]
fn angle_sign_lands_on_first_nonzero_place() {
    assert_eq!(
        angle_from_total_nanos(-30_000_000_000),
        Angle::new(0, 0, -30_000_000_000)
    );
    assert_eq!(
        angle_from_total_nanos(-90_000_000_000),
        Angle::new(0, -1, 30_000_000_000)
    );
    assert_eq!(
        angle_from_total_nanos(-3_660_000_000_000),
        Angle::new(-1, 1, 0)
    );
    assert_eq!(angle_from_total_nanos(0), Angle::new(0, 0, 0));
}

#[test]
fn angle_with_mixed_signs_reads_negative() {
    // any negative place makes the whole value negative, as the
    // decimal-hours conversion reads it
    let a = Angle::new(-1, 30, 0);
    assert_eq!(total_nanos_from_angle(&a), -5_400_000_000_000);
}

#[test]
fn calibrate_method_normalizes() {
    let mut a = Angle::new(26, 70, 75_000_000_000);
    let day_excess = a.calibrate();
    assert_eq!(day_excess, 1);
    assert_eq!(a, Angle::new(3, 11, 15_000_000_000));
}

#[test]
fn local_sidereal_time_westward() {
    // GST 4:40:05.23 at longitude 64 West (an offset of 4h16m) gives
    // LST 0:24:05.23
    let gst = nanos_from_hms(4, 40, 5, 230_000_000);
    let offset = 64 * 3_600_000_000_000 / 15;
    let lst = lst_from_gst_nanos(gst, offset, &Direction::West);
    assert_eq!(lst, nanos_from_hms(0, 24, 5, 230_000_000));

    // and East and West are complementary
    let back = gst_from_lst_nanos(lst, offset, &Direction::West);
    assert_eq!(back, gst);
}

#[test]
fn local_sidereal_time_eastward_wraps() {
    let gst = nanos_from_hms(23, 0, 0, 0);
    let offset = 2 * 3_600_000_000_000;
    let lst = lst_from_gst_nanos(gst, offset, &Direction::East);
    assert_eq!(lst, nanos_from_hms(1, 0, 0, 0));
    assert_eq!(gst_from_lst_nanos(lst, offset, &Direction::East), gst);
}

#[test]
fn unhandled_direction_leaves_time_alone() {
    let gst = nanos_from_hms(10, 0, 0, 0);
    let offset = 3_600_000_000_000;
    assert_eq!(lst_from_gst_nanos(gst, offset, &Direction::North), gst);
    assert_eq!(gst_from_lst_nanos(gst, offset, &Direction::South), gst);
}
