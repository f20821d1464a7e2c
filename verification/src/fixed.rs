//! Fixed-point numbers: the crate's stand-in for real values.
//!
//! A [`Fx`] holds a real number as an `i64` count of micro-units, so one
//! whole unit is [`SCALE`] counts.  Arithmetic on these counts is exact
//! integer arithmetic; where a quotient is needed it truncates toward zero
//! ([`tdiv`]).  Values the library accepts from outside are limited to
//! [`VAL_LIMIT`] counts in magnitude, which keeps every intermediate product
//! of the engine inside `i128`.

use vstd::prelude::*;
use vstd::arithmetic::div_mod::{lemma_div_is_ordered, lemma_div_pos_is_pos};
use vstd::arithmetic::mul::lemma_mul_inequality;

verus! {

/// Micro-unit counts per whole unit.
pub const SCALE: i64 = 1_000_000;

/// Largest magnitude, in micro-units, of a value the library accepts from
/// outside: one million whole units.
pub const VAL_LIMIT: i64 = 1_000_000_000_000;

/// Largest magnitude, in micro-units, of a model parameter: one thousand
/// whole units.  Training stops rather than step a parameter past this.
pub const THETA_LIMIT: i64 = 1_000_000_000;

/// Largest number of samples an engine accepts.
pub const MAX_SAMPLES: usize = 100_000;

/// A real number as a count of micro-units ([`SCALE`] counts per unit).
#[derive(Clone, Copy, Debug, PartialEq, Eq, Structural)]
pub struct Fx {
    pub units: i64,
}

impl View for Fx {
    type V = int;

    open spec fn view(&self) -> int {
        self.units as int
    }
}

impl Fx {
    /// Whether the value lies in the library's supported range.
    pub open spec fn valid(self) -> bool {
        -VAL_LIMIT <= self.units <= VAL_LIMIT
    }

    /// Wraps a micro-unit count.
    pub fn from_units(units: i64) -> (r: Fx)
        ensures
            r.units == units,
    {
        Fx { units }
    }

    /// The value zero.
    pub fn zero() -> (r: Fx)
        ensures
            r.units == 0,
    {
        Fx { units: 0 }
    }
}

/// Quotient of `n` by `d`, truncated toward zero (the rounding every
/// division in this crate uses).
pub open spec fn tdiv(n: int, d: int) -> int
    recommends
        d > 0,
{
    if n >= 0 {
        n / d
    } else {
        -((-n) / d)
    }
}

/// Truncated division never enlarges a bound given as a multiple of the
/// divisor: `|n| <= b * d` gives `|tdiv(n, d)| <= b`.
pub proof fn lemma_tdiv_bound(n: int, d: int, b: int)
    requires
        d > 0,
        0 <= b,
        -(b * d) <= n <= b * d,
    ensures
        -b <= tdiv(n, d) <= b,
{
    if n >= 0 {
        lemma_div_is_ordered(n, b * d, d);
        vstd::arithmetic::div_mod::lemma_div_by_multiple(b, d);
        lemma_div_pos_is_pos(n, d);
    } else {
        lemma_div_is_ordered(-n, b * d, d);
        vstd::arithmetic::div_mod::lemma_div_by_multiple(b, d);
        lemma_div_pos_is_pos(-n, d);
    }
}

/// Exact truncated division on machine integers.
pub fn div_trunc(n: i128, d: i128) -> (q: i128)
    requires
        d > 0,
        n > i128::MIN,
    ensures
        q == tdiv(n as int, d as int),
{
    if n >= 0 {
        n / d
    } else {
        proof {
            lemma_div_pos_is_pos(-n, d as int);
            lemma_div_is_ordered(0, -n, d as int);
            vstd::arithmetic::div_mod::lemma_div_nonincreasing(-n, d as int);
        }
        -((-n) / d)
    }
}

/// Floor of the square root: the unique `r` with `r * r <= n < (r+1) * (r+1)`.
pub fn isqrt(n: u128) -> (r: u128)
    ensures
        r * r <= n,
        (r + 1) * (r + 1) > n,
{
    let mut lo: u128 = 0;
    let mut hi: u128 = 0xffff_ffff_ffff_ffff;
    proof {
        assert((0xffff_ffff_ffff_ffffu128 + 1) * (0xffff_ffff_ffff_ffffu128 + 1) > u128::MAX)
            by (nonlinear_arith);
    }
    while lo < hi
        invariant
            lo <= hi <= 0xffff_ffff_ffff_ffff,
            lo * lo <= n,
            (hi + 1) * (hi + 1) > n,
        decreases hi - lo,
    {
        let mid = lo + (hi - lo + 1) / 2;
        assert(lo < mid <= hi);
        if mid <= n / mid {
            proof {
                lemma_mul_inequality(mid as int, n as int / mid as int, mid as int);
                vstd::arithmetic::div_mod::lemma_fundamental_div_mod(n as int, mid as int);
                vstd::arithmetic::div_mod::lemma_mod_division_less_than_divisor(
                    n as int,
                    mid as int,
                );
            }
            lo = mid;
        } else {
            proof {
                let q = n as int / mid as int;
                vstd::arithmetic::div_mod::lemma_fundamental_div_mod(n as int, mid as int);
                vstd::arithmetic::div_mod::lemma_mod_division_less_than_divisor(
                    n as int,
                    mid as int,
                );
                assert((q + 1) * mid == q * mid + mid) by (nonlinear_arith);
                lemma_mul_inequality(q + 1, mid as int, mid as int);
            }
            hi = mid - 1;
        }
    }
    lo
}

} // verus!
