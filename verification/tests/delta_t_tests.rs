use sowngwala::delta_t::delta_t_era;
use sowngwala::delta_t::DeltaTEra;
use sowngwala::utils::normalize_angle;
use sowngwala::utils::overflow;

#[test]
fn delta_t_era_boundaries() {
    // December just below each boundary keeps the earlier era, and
    // January of the boundary year already selects the later one.
    let boundaries: [(i32, DeltaTEra, DeltaTEra); 14] = [
        (-500, DeltaTEra::BeforeBc500, DeltaTEra::Bc500ToAd500),
        (500, DeltaTEra::Bc500ToAd500, DeltaTEra::Ad500ToAd1600),
        (1600, DeltaTEra::Ad500ToAd1600, DeltaTEra::Ad1600ToAd1700),
        (1700, DeltaTEra::Ad1600ToAd1700, DeltaTEra::Ad1700ToAd1800),
        (1800, DeltaTEra::Ad1700ToAd1800, DeltaTEra::Ad1800ToAd1860),
        (1860, DeltaTEra::Ad1800ToAd1860, DeltaTEra::Ad1860ToAd1900),
        (1900, DeltaTEra::Ad1860ToAd1900, DeltaTEra::Ad1900ToAd1920),
        (1920, DeltaTEra::Ad1900ToAd1920, DeltaTEra::Ad1920ToAd1941),
        (1941, DeltaTEra::Ad1920ToAd1941, DeltaTEra::Ad1941ToAd1961),
        (1961, DeltaTEra::Ad1941ToAd1961, DeltaTEra::Ad1961ToAd1986),
        (1986, DeltaTEra::Ad1961ToAd1986, DeltaTEra::Ad1986ToAd2005),
        (2005, DeltaTEra::Ad1986ToAd2005, DeltaTEra::Ad2005ToAd2050),
        (2050, DeltaTEra::Ad2005ToAd2050, DeltaTEra::Ad2050ToAd2150),
        (2150, DeltaTEra::Ad2050ToAd2150, DeltaTEra::AfterAd2150),
    ];
    for (boundary, below, above) in boundaries {
        assert_eq!(delta_t_era(boundary - 1, 12), below);
        assert_eq!(delta_t_era(boundary, 1), above);
    }
}

#[test]
fn delta_t_era_within_brackets() {
    assert_eq!(delta_t_era(1986, 1), DeltaTEra::Ad1986ToAd2005);
    assert_eq!(delta_t_era(1980, 4), DeltaTEra::Ad1961ToAd1986);
    assert_eq!(delta_t_era(2022, 5), DeltaTEra::Ad2005ToAd2050);
    assert_eq!(delta_t_era(-1999, 6), DeltaTEra::BeforeBc500);
    assert_eq!(delta_t_era(0, 6), DeltaTEra::Bc500ToAd500);
    assert_eq!(delta_t_era(3000, 6), DeltaTEra::AfterAd2150);
}

#[test]
fn overflow_keeps_the_sign_of_the_value() {
    assert_eq!(overflow(59, 60), (59, 0));
    assert_eq!(overflow(60, 60), (0, 1));
    assert_eq!(overflow(120, 60), (0, 2));
    assert_eq!(overflow(121, 60), (1, 2));
    assert_eq!(overflow(-60, 60), (0, -1));
    assert_eq!(overflow(-120, 60), (0, -2));
    assert_eq!(overflow(-59, 60), (-59, 0));
    assert_eq!(overflow(-61, 60), (-1, -1));
}

#[test]
fn normalize_angle_lands_in_symmetric_range() {
    assert_eq!(normalize_angle(270, 360), -90);
    assert_eq!(normalize_angle(-200, 360), 160);
    assert_eq!(normalize_angle(180, 360), 180);
    assert_eq!(normalize_angle(-180, 360), 180);
    assert_eq!(normalize_angle(725, 360), 5);
}
