//! Positional-astronomy arithmetic with verified exact cores.
//!
//! The crate verifies the exact (integer) arithmetic that underlies
//! positional astronomy: the calendar <-> Julian-day-number conversion
//! with its round-trip proof, sign-carrying hour/minute/second values,
//! base-60 carries, sidereal-time wrap-around, and the branch selection
//! of the piecewise Delta-T model.  The floating-point formulas that
//! consume these results (trigonometric frame conversions, orbital
//! models) live outside the verified library.

pub mod coords;
pub mod delta_t;
pub mod time;
pub mod utils;
