use vstd::prelude::*;
use vstd::arithmetic::div_mod::lemma_fundamental_div_mod;
use vstd::arithmetic::div_mod::lemma_fundamental_div_mod_converse;
use vstd::arithmetic::div_mod::lemma_mod_add_multiples_vanish;
use vstd::arithmetic::div_mod::lemma_mod_pos_bound;
use vstd::arithmetic::div_mod::lemma_mod_sub_multiples_vanish;

verus! {

/// Splits `value` into a remainder and a carry for the given base
/// (seconds to minutes, minutes to hours, hours to days, degrees to
/// revolutions).  The remainder keeps the sign of `value`; the carry
/// holds how many whole multiples of `base` were taken out.
pub fn overflow(value: i64, base: i64) -> (r: (i64, i64))
    requires
        0 < base <= 0x1000_0000_0000,
        -0x1000_0000_0000_0000 < value < 0x1000_0000_0000_0000,
    ensures
        value == r.1 * base + r.0,
        -base < r.0 < base,
        value >= 0 ==> r.0 >= 0,
        value <= 0 ==> r.0 <= 0,
{
    if value >= 0 {
        let rem: i64 = value % base;
        let quot: i64 = value / base;
        proof {
            lemma_fundamental_div_mod(value as int, base as int);
            lemma_mod_pos_bound(value as int, base as int);
            assert(value == quot * base + rem) by (nonlinear_arith)
                requires
                    value as int == base * ((value as int) / (base as int)) + (value as int) % (
                    base as int),
                    quot == (value as int) / (base as int),
                    rem == (value as int) % (base as int),
            ;
        }
        (rem, quot)
    } else {
        let n: i64 = -value;
        let rem_n: i64 = n % base;
        let quot_n: i64 = n / base;
        proof {
            lemma_fundamental_div_mod(n as int, base as int);
            lemma_mod_pos_bound(n as int, base as int);
            assert(value == (-quot_n) * base + (-rem_n)) by (nonlinear_arith)
                requires
                    n as int == base * ((n as int) / (base as int)) + (n as int) % (base as int),
                    quot_n == (n as int) / (base as int),
                    rem_n == (n as int) % (base as int),
                    value == -n,
            ;
        }
        (-rem_n, -quot_n)
    }
}

/// Floor division by a positive divisor, also for negative dividends
/// (plain `/` on machine integers rounds toward zero instead).
pub fn div_floor_i64(a: i64, b: i64) -> (q: i64)
    requires
        0 < b <= 0x1000_0000_0000,
        -0x1000_0000_0000_0000 < a < 0x1000_0000_0000_0000,
    ensures
        q == (a as int) / (b as int),
{
    if a >= 0 {
        a / b
    } else {
        let n: i64 = -a;
        let q0: i64 = (n + b - 1) / b;
        proof {
            let x: int = n + b - 1;
            lemma_fundamental_div_mod(x, b as int);
            lemma_mod_pos_bound(x, b as int);
            let r0: int = x % (b as int);
            // a == (-q0) * b + (b - 1 - r0), with the remainder in [0, b)
            assert(a as int == (-(q0 as int)) * (b as int) + ((b as int) - 1 - r0))
                by (nonlinear_arith)
                requires
                    x == (b as int) * (x / (b as int)) + r0,
                    q0 == x / (b as int),
                    x == (n as int) + (b as int) - 1,
                    a == -n,
            ;
            lemma_fundamental_div_mod_converse(a as int, b as int, -(q0 as int), (b as int) - 1 - r0);
        }
        -q0
    }
}

/// Reduces `value` into the half-open symmetric range (-max/2, max/2]
/// around zero, moving by whole turns of `max`.
pub fn normalize_angle(value: i64, max: i64) -> (r: i64)
    requires
        0 < max <= 0x1000_0000_0000,
        max % 2 == 0,
        -0x1000_0000_0000_0000 < value < 0x1000_0000_0000_0000,
    ensures
        -max / 2 < r <= max / 2,
        (r as int) % (max as int) == (value as int) % (max as int),
{
    let half: i64 = max / 2;
    let mut angle: i64 = value;

    while angle <= -half
        invariant
            0 < max <= 0x1000_0000_0000,
            half == max / 2,
            2 * half == max,
            -0x1000_0000_0000_0000 < angle < 0x1000_0000_0000_0000,
            (angle as int) % (max as int) == (value as int) % (max as int),
        decreases half - angle + max,
    {
        proof {
            lemma_mod_add_multiples_vanish(angle as int, max as int);
        }
        angle = angle + max;
    }

    while angle > half
        invariant
            0 < max <= 0x1000_0000_0000,
            half == max / 2,
            2 * half == max,
            angle > -half,
            -0x1000_0000_0000_0000 < angle < 0x1000_0000_0000_0000,
            (angle as int) % (max as int) == (value as int) % (max as int),
        decreases angle + half + max,
    {
        proof {
            lemma_mod_sub_multiples_vanish(angle as int, max as int);
        }
        angle = angle - max;
    }

    angle
}

} // verus!
