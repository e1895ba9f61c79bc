use vstd::prelude::*;

verus! {

/// The fourteen boundaries of the piecewise Delta-T model (TT minus
/// UT, the NASA polynomial fits) split the time axis into fifteen
/// eras.  Each era names the bracket of decimal years its polynomial
/// was fitted for.
#[derive(Clone, Copy, PartialEq, Eq, Structural, Debug)]
pub enum DeltaTEra {
    BeforeBc500,
    Bc500ToAd500,
    Ad500ToAd1600,
    Ad1600ToAd1700,
    Ad1700ToAd1800,
    Ad1800ToAd1860,
    Ad1860ToAd1900,
    Ad1900ToAd1920,
    Ad1920ToAd1941,
    Ad1941ToAd1961,
    Ad1961ToAd1986,
    Ad1986ToAd2005,
    Ad2005ToAd2050,
    Ad2050ToAd2150,
    AfterAd2150,
}

/// Twenty-four times the decimal year `year + (month - 0.5) / 12` that
/// keys the Delta-T model: an exact integer stand-in for the decimal
/// year, so that comparing it against 24 times a boundary year decides
/// the branch exactly.
pub open spec fn decimal_year_times_24(year: int, month: int) -> int {
    24 * year + 2 * month - 1
}

/// Selects the era of the Delta-T model for the given calendar month:
/// the half-open, ascending brackets of the piecewise model, keyed by
/// the decimal year of the middle of the month.
pub fn delta_t_era(year: i32, month: u32) -> (era: DeltaTEra)
    requires
        -1_000_000 <= year <= 1_000_000,
        1 <= month <= 12,
    ensures
        ({
            let dy = decimal_year_times_24(year as int, month as int);
            &&& (era is BeforeBc500 <==> dy < 24 * -500)
            &&& (era is Bc500ToAd500 <==> 24 * -500 <= dy < 24 * 500)
            &&& (era is Ad500ToAd1600 <==> 24 * 500 <= dy < 24 * 1600)
            &&& (era is Ad1600ToAd1700 <==> 24 * 1600 <= dy < 24 * 1700)
            &&& (era is Ad1700ToAd1800 <==> 24 * 1700 <= dy < 24 * 1800)
            &&& (era is Ad1800ToAd1860 <==> 24 * 1800 <= dy < 24 * 1860)
            &&& (era is Ad1860ToAd1900 <==> 24 * 1860 <= dy < 24 * 1900)
            &&& (era is Ad1900ToAd1920 <==> 24 * 1900 <= dy < 24 * 1920)
            &&& (era is Ad1920ToAd1941 <==> 24 * 1920 <= dy < 24 * 1941)
            &&& (era is Ad1941ToAd1961 <==> 24 * 1941 <= dy < 24 * 1961)
            &&& (era is Ad1961ToAd1986 <==> 24 * 1961 <= dy < 24 * 1986)
            &&& (era is Ad1986ToAd2005 <==> 24 * 1986 <= dy < 24 * 2005)
            &&& (era is Ad2005ToAd2050 <==> 24 * 2005 <= dy < 24 * 2050)
            &&& (era is Ad2050ToAd2150 <==> 24 * 2050 <= dy < 24 * 2150)
            &&& (era is AfterAd2150 <==> 24 * 2150 <= dy)
        }),
{
    let dy: i64 = 24 * (year as i64) + 2 * (month as i64) - 1;
    if dy < 24 * -500 {
        DeltaTEra::BeforeBc500
    } else if dy < 24 * 500 {
        DeltaTEra::Bc500ToAd500
    } else if dy < 24 * 1600 {
        DeltaTEra::Ad500ToAd1600
    } else if dy < 24 * 1700 {
        DeltaTEra::Ad1600ToAd1700
    } else if dy < 24 * 1800 {
        DeltaTEra::Ad1700ToAd1800
    } else if dy < 24 * 1860 {
        DeltaTEra::Ad1800ToAd1860
    } else if dy < 24 * 1900 {
        DeltaTEra::Ad1860ToAd1900
    } else if dy < 24 * 1920 {
        DeltaTEra::Ad1900ToAd1920
    } else if dy < 24 * 1941 {
        DeltaTEra::Ad1920ToAd1941
    } else if dy < 24 * 1961 {
        DeltaTEra::Ad1941ToAd1961
    } else if dy < 24 * 1986 {
        DeltaTEra::Ad1961ToAd1986
    } else if dy < 24 * 2005 {
        DeltaTEra::Ad1986ToAd2005
    } else if dy < 24 * 2050 {
        DeltaTEra::Ad2005ToAd2050
    } else if dy < 24 * 2150 {
        DeltaTEra::Ad2050ToAd2150
    } else {
        DeltaTEra::AfterAd2150
    }
}

/// Each boundary of the Delta-T model is decided the same way the
/// floating-point comparison of the decimal year decides it: December
/// of the year before a boundary still selects the earlier era, and
/// January of the boundary year already selects the later one.
pub proof fn lemma_delta_t_boundaries(boundary: int)
    ensures
        decimal_year_times_24(boundary - 1, 12) < 24 * boundary,
        decimal_year_times_24(boundary, 1) >= 24 * boundary,
{
}

} // verus!
