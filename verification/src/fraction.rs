//! Single-precision numbers, most of them between zero and one.
use crate::rounding::{
    lemma_rounded_bound, lemma_single_error, round_ratio, rounded, SINGLE,
};
use vstd::arithmetic::power2::{lemma2_to64_rest, pow2};
use vstd::prelude::*;

verus! {

/// Number of units in the fraction one.
pub const ONE: i64 = 0x100_0000_0000;

/// A single-precision number, counted in units of `2^-40`.
///
/// The numbers that arise here (slider positions, heat levels, opacities) are
/// all whole multiples of that unit, and lie between zero and one.
#[derive(Clone, Copy, Debug, PartialEq, Eq, Structural)]
pub struct Fraction {
    pub units: i64,
}

/// The single-precision number nearest to the integer `n`.
pub open spec fn single(n: nat) -> nat {
    rounded(n, 1, SINGLE as nat)
}

/// The number itself if it lies between zero and one, else the nearer one of the
/// two.
pub open spec fn clamped(f: Fraction) -> Fraction {
    if f.units < 0 {
        Fraction { units: 0 }
    } else if f.units > ONE {
        Fraction { units: ONE }
    } else {
        f
    }
}

/// The single-precision product of `f` and the integer `n`, in units.
pub open spec fn product(f: Fraction, n: nat) -> nat {
    single(f.units as nat * n)
}

/// The whole part of the single-precision product of `f` and `n`.
pub open spec fn whole_product(f: Fraction, n: nat) -> nat {
    product(f, n) / ONE as nat
}

/// The slider position `step` to the right of `f`, but not past the end.
pub open spec fn moved_right(f: Fraction, step: Fraction) -> Fraction {
    let sum = single(f.units as nat + step.units as nat);
    Fraction { units: (if sum <= ONE { sum } else { ONE as nat }) as i64 }
}

/// The slider position `step` to the left of `f`, but not past the start.
pub open spec fn moved_left(f: Fraction, step: Fraction) -> Fraction {
    if f.units < step.units {
        Fraction { units: 0 }
    } else {
        Fraction { units: single((f.units - step.units) as nat) as i64 }
    }
}

/// Rounding to single precision keeps an integer on its side of every whole
/// number of fractions one.
pub proof fn lemma_single_bound(n: nat, c: nat)
    requires
        n < SINGLE * ONE,
    ensures
        n <= c * ONE ==> single(n) <= c * ONE,
        n >= c * ONE ==> single(n) >= c * ONE,
{
    lemma2_to64_rest();
    assert(pow2(40) == ONE);
    assert(n / 1 == n);
    lemma_rounded_bound(n, 1, SINGLE as nat, c, 40);
}

/// A product with a number below the significand limit lies between zero and
/// that number, and is that number for the fraction one.
pub proof fn lemma_whole_product(f: Fraction, n: nat)
    requires
        f.wf(),
        n < SINGLE,
    ensures
        product(f, n) <= n * ONE,
        whole_product(f, n) <= n,
        f.units == ONE ==> whole_product(f, n) == n,
        f.units == 0 ==> whole_product(f, n) == 0,
{
    assert(f.units as nat * n <= ONE as nat * n) by (nonlinear_arith)
        requires
            0 <= f.units <= ONE,
    ;
    assert(ONE as nat * n == n * ONE) by (nonlinear_arith);
    lemma_single_bound(f.units as nat * n, n);
    lemma_single_bound(f.units as nat * n, 0);
    if f.units == 0 {
        assert(0 * n == 0) by (nonlinear_arith);
    }
}

/// Rounds an integer to single precision.
pub fn to_single(n: u128) -> (r: u128)
    requires
        n <= crate::rounding::ROUND_MAX,
    ensures
        r == single(n as nat),
{
    round_ratio(n, 1, SINGLE)
}

impl Fraction {
    /// The number lies between zero and one.
    pub open spec fn wf(self) -> bool {
        0 <= self.units <= ONE
    }

    pub fn zero() -> (f: Fraction)
        ensures
            f.units == 0,
    {
        Fraction { units: 0 }
    }

    pub fn half() -> (f: Fraction)
        ensures
            f.units * 2 == ONE,
    {
        Fraction { units: 0x80_0000_0000 }
    }

    pub fn one() -> (f: Fraction)
        ensures
            f.units == ONE,
    {
        Fraction { units: ONE }
    }

    /// Takes the number into the range from zero to one.
    pub fn clamp(self) -> (f: Fraction)
        ensures
            f.wf(),
            f == clamped(self),
    {
        if self.units < 0 {
            Fraction { units: 0 }
        } else if self.units > ONE {
            Fraction { units: ONE }
        } else {
            self
        }
    }

    /// The single-precision quotient `num / den`, for a quotient that is zero
    /// or at least `2^-17`.
    pub fn ratio(num: u32, den: u32) -> (f: Fraction)
        requires
            0 < den,
            num <= den,
            num == 0 || den <= num * 0x2_0000,
        ensures
            f.wf(),
            f.units == rounded(num as nat * ONE as nat, den as nat, SINGLE as nat),
    {
        proof {
            lemma2_to64_rest();
            assert(pow2(40) == ONE);
            assert(num as nat * ONE as nat <= (1 * pow2(40)) * den as nat) by (nonlinear_arith)
                requires
                    num <= den,
                    pow2(40) == ONE,
            ;
            assert((num as nat * ONE as nat) / (den as nat) <= ONE) by (nonlinear_arith)
                requires
                    num <= den,
                    den > 0,
            ;
            lemma_rounded_bound(num as nat * ONE as nat, den as nat, SINGLE as nat, 1, 40);
        }
        let units: u128 = round_ratio(num as u128 * ONE as u128, den as u128, SINGLE);
        Fraction { units: units as i64 }
    }

    /// The single-precision product with `n`, in units.
    pub fn times(self, n: u64) -> (r: u128)
        requires
            self.wf(),
        ensures
            r == product(self, n as nat),
    {
        assert(self.units as nat * n as nat <= ONE as nat * u64::MAX as nat) by (nonlinear_arith)
            requires
                0 <= self.units <= ONE,
                n <= u64::MAX,
        ;
        to_single(self.units as u128 * n as u128)
    }

    /// The whole part of the single-precision product with `n`.
    pub fn whole_times(self, n: u32) -> (r: u32)
        requires
            self.wf(),
            n < SINGLE,
        ensures
            r == whole_product(self, n as nat),
            r <= n,
    {
        proof {
            lemma_whole_product(self, n as nat);
        }
        (self.times(n as u64) / ONE as u128) as u32
    }

    /// Moves right by `step`, stopping at one.
    pub fn right(self, step: Fraction) -> (f: Fraction)
        requires
            self.wf(),
            step.wf(),
        ensures
            f.wf(),
            f == moved_right(self, step),
    {
        let sum: u128 = to_single(self.units as u128 + step.units as u128);
        if sum <= ONE as u128 {
            Fraction { units: sum as i64 }
        } else {
            Fraction { units: ONE }
        }
    }

    /// Moves left by `step`, stopping at zero.
    pub fn left(self, step: Fraction) -> (f: Fraction)
        requires
            self.wf(),
            step.wf(),
        ensures
            f.wf(),
            f == moved_left(self, step),
    {
        if self.units < step.units {
            Fraction { units: 0 }
        } else {
            proof {
                lemma_single_bound((self.units - step.units) as nat, 1);
            }
            Fraction { units: to_single((self.units - step.units) as u128) as i64 }
        }
    }
}

/// Rounding an integer to single precision is off by at most one part in `2^24`.
pub proof fn lemma_single_close(n: nat)
    ensures
        0x100_0000 * (single(n) - n) <= n,
        0x100_0000 * (n - single(n)) <= n,
{
    lemma_single_error(n, 1);
    assert(single(n) * 1 == single(n));
}

/// The whole part of a product is at most the exact product and above it less one,
/// but for one part in `2^24`.
pub proof fn law_whole_product_is_rounded_down(f: Fraction, n: nat)
    requires
        f.wf(),
    ensures
        0x100_0000 * (whole_product(f, n) * 0x100_0000_0000) <= 0x100_0001 * (f.units * n),
        0x100_0000 * (whole_product(f, n) * 0x100_0000_0000 + 0x100_0000_0000) > 0xff_ffff * (f.units
            * n),
{
    let x = f.units as nat * n;
    assert(x >= 0) by (nonlinear_arith)
        requires
            x == f.units as nat * n,
    ;
    lemma_single_close(x);
    let whole = single(x) / 0x100_0000_0000;
    assert(whole * 0x100_0000_0000 <= single(x) < whole * 0x100_0000_0000 + 0x100_0000_0000);
    assert(whole_product(f, n) == whole);
}

/// Moving by a step changes a number by that step, but for one part in `2^24`, and
/// stops at nought and one.
pub proof fn law_moves_by_the_step(f: Fraction, step: Fraction)
    requires
        f.wf(),
        step.wf(),
    ensures
        ({
            let (m, exact) = (moved_right(f, step).units, f.units + step.units);
            if exact >= 0x100_0000_0000 {
                m == 0x100_0000_0000
            } else {
                0x100_0000 * (m - exact) <= exact && 0x100_0000 * (exact - m) <= exact
            }
        }),
        ({
            let (m, exact) = (moved_left(f, step).units, f.units - step.units);
            if exact <= 0 {
                m == 0
            } else {
                0x100_0000 * (m - exact) <= exact && 0x100_0000 * (exact - m) <= exact
            }
        }),
{
    let sum = f.units as nat + step.units as nat;
    lemma_single_bound(sum, 1);
    lemma_single_close(sum);
    if f.units >= step.units {
        let rest = (f.units - step.units) as nat;
        lemma_single_bound(rest, 1);
        lemma_single_close(rest);
    }
}

/// A clamped number lies between nought and one, and no other number there is closer.
pub proof fn law_clamped_is_closest(f: Fraction, other: Fraction)
    requires
        0 <= other.units <= 0x100_0000_0000,
    ensures
        0 <= clamped(f).units <= 0x100_0000_0000,
        f.units >= 0x100_0000_0000 ==> other.units <= clamped(f).units,
        f.units <= 0 ==> clamped(f).units <= other.units,
        0 <= f.units <= 0x100_0000_0000 ==> clamped(f) == f,
{
}

/// Products, sums and differences are exact ones, rounded to a significand of 24 bits.
pub proof fn law_arithmetic_is_in_single_precision(f: Fraction, step: Fraction, n: nat)
    requires
        f.wf(),
        step.wf(),
    ensures
        single(n) == rounded(n, 1, 0x100_0000),
        product(f, n) == rounded((f.units * n) as nat, 1, 0x100_0000),
        whole_product(f, n) == rounded((f.units * n) as nat, 1, 0x100_0000) / 0x100_0000_0000,
        ({
            let sum = rounded((f.units + step.units) as nat, 1, 0x100_0000);
            moved_right(f, step).units == if sum < 0x100_0000_0000 {
                sum as int
            } else {
                0x100_0000_0000
            }
        }),
        moved_left(f, step).units == if f.units <= step.units {
            0
        } else {
            rounded((f.units - step.units) as nat, 1, 0x100_0000) as int
        },
{
    assert(f.units as nat * n == f.units * n) by (nonlinear_arith)
        requires
            f.units >= 0,
    ;
    lemma_single_bound(0, 0);
    if f.units >= step.units {
        lemma_single_bound((f.units - step.units) as nat, 1);
    }
}

} // verus!
