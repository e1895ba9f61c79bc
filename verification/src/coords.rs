use vstd::prelude::*;
use crate::time::calibrate_hmsn;
use crate::time::hms_total_nanos;
use crate::time::NANOS_PER_HOUR;
use crate::time::NANOS_PER_MIN;

verus! {

/// A sexagesimal value: hours (or degrees), minutes, and seconds, the
/// seconds held in nanoseconds.  A negative value carries its sign on
/// the first non-zero component, the remaining components stay
/// non-negative.
#[derive(Clone, Copy, PartialEq, Eq, Structural, Debug)]
pub struct Angle {
    pub hour: i32,
    pub minute: i32,
    pub second_nanos: i64,
}

/// The value of an angle in nanoseconds of its base unit: the
/// magnitudes of the places are combined, and any negative place makes
/// the whole value negative.
pub open spec fn angle_total_nanos(a: Angle) -> int {
    let h: int = if a.hour >= 0 {
        a.hour as int
    } else {
        -(a.hour as int)
    };
    let m: int = if a.minute >= 0 {
        a.minute as int
    } else {
        -(a.minute as int)
    };
    let s: int = if a.second_nanos >= 0 {
        a.second_nanos as int
    } else {
        -(a.second_nanos as int)
    };
    let magnitude: int = h * (NANOS_PER_HOUR as int) + m * (NANOS_PER_MIN as int) + s;
    if a.hour < 0 || a.minute < 0 || a.second_nanos < 0 {
        -magnitude
    } else {
        magnitude
    }
}

/// The canonical sign-carrying form: minutes and seconds inside their
/// bases, and a sign only on the first non-zero place.
pub open spec fn angle_canonical(a: Angle) -> bool {
    &&& -60 < a.minute < 60
    &&& -(NANOS_PER_MIN as int) < a.second_nanos < NANOS_PER_MIN as int
    &&& (a.hour < 0 ==> a.minute >= 0 && a.second_nanos >= 0)
    &&& (a.minute < 0 ==> a.hour == 0 && a.second_nanos >= 0)
    &&& (a.second_nanos < 0 ==> a.hour == 0 && a.minute == 0)
}

/// The canonical angle of a signed quantity of nanoseconds: split the
/// magnitude into places and put the sign on the first non-zero place.
pub open spec fn angle_of_nanos(t: int) -> (int, int, int) {
    let n: int = if t >= 0 {
        t
    } else {
        -t
    };
    let h: int = n / (NANOS_PER_HOUR as int);
    let m: int = (n % (NANOS_PER_HOUR as int)) / (NANOS_PER_MIN as int);
    let s: int = n % (NANOS_PER_MIN as int);
    if t >= 0 {
        (h, m, s)
    } else if h != 0 {
        (-h, m, s)
    } else if m != 0 {
        (0, -m, s)
    } else {
        (0, 0, -s)
    }
}

impl Angle {
    pub fn new(hour: i32, minute: i32, second_nanos: i64) -> (a: Angle)
        ensures
            a.hour == hour,
            a.minute == minute,
            a.second_nanos == second_nanos,
    {
        Angle { hour, minute, second_nanos }
    }

    pub fn hour(&self) -> (h: i32)
        ensures
            h == self.hour,
    {
        self.hour
    }

    pub fn minute(&self) -> (m: i32)
        ensures
            m == self.minute,
    {
        self.minute
    }

    pub fn second_nanos(&self) -> (s: i64)
        ensures
            s == self.second_nanos,
    {
        self.second_nanos
    }

    /// Carries every place into its base so the angle reads as a
    /// clock time, and returns the whole days taken out (negative
    /// when the angle borrowed from the day below).
    pub fn calibrate(&mut self) -> (day_excess: i64)
        requires
            -1_000_000 <= old(self).hour,
            old(self).hour <= 1_000_000,
            -1_000_000 <= old(self).minute,
            old(self).minute <= 1_000_000,
            -0x100_0000_0000_0000 <= old(self).second_nanos,
            old(self).second_nanos <= 0x100_0000_0000_0000,
        ensures
            0 <= final (self).hour < 24,
            0 <= final (self).minute < 60,
            0 <= final (self).second_nanos < NANOS_PER_MIN,
            day_excess * 86400 * 1_000_000_000 + hms_total_nanos(
                final (self).hour as int,
                final (self).minute as int,
                0,
                final (self).second_nanos as int,
            ) == hms_total_nanos(
                old(self).hour as int,
                old(self).minute as int,
                0,
                old(self).second_nanos as int,
            ),
    {
        let ((h, m, s), day_excess): ((i64, i64, i64), i64) = calibrate_hmsn(
            self.hour as i64,
            self.minute as i64,
            self.second_nanos,
        );
        self.hour = h as i32;
        self.minute = m as i32;
        self.second_nanos = s;
        day_excess
    }
}

/// The four cardinal directions; East and West select the sign with
/// which an observer longitude offsets the sidereal time.
#[derive(Clone, Copy, PartialEq, Eq, Structural, Debug)]
pub enum Direction {
    North,
    East,
    South,
    West,
}

} // verus!
