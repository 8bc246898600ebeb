//! The size at which a vector picture is drawn.
//!
//! The sides of a vector picture and the scale factor are single-precision
//! numbers, and are handled by their bits. In contracts such a number is counted
//! in units of `2^-149`, of which every one is a whole multiple.
use crate::fraction::{single, to_single};
use crate::raster::at_least_one;
use crate::rounding::{
    lemma_nearest_bound, lemma_rounded, lemma_rounded_bound, lemma_spacing, lemma_spacing_is_power, nearest, round_ratio,
    rounded, spacing, SINGLE,
};
use vstd::arithmetic::div_mod::{
    lemma_div_denominator, lemma_fundamental_div_mod, lemma_fundamental_div_mod_converse,
};
use vstd::arithmetic::power2::{
    lemma2_to64, lemma2_to64_rest, lemma_pow2_adds, lemma_pow2_pos, lemma_pow2_strictly_increases,
    lemma_pow2_unfold, pow2,
};
use vstd::prelude::*;

verus! {

/// The bits of infinity; those of finite positive numbers are smaller.
pub const INFINITE: u32 = 0x7f80_0000;

/// The value of a positive number in units, given its bits.
pub open spec fn float_units(bits: u32) -> nat {
    let exponent = bits / 0x80_0000;
    let fraction = bits % 0x80_0000;
    if exponent == 0 {
        fraction as nat
    } else {
        (fraction + 0x80_0000) as nat * pow2((exponent - 1) as nat)
    }
}

/// Number of units in one.
pub open spec fn unit_one() -> nat {
    pow2(149)
}

/// The smallest number of units that is too large for single precision.
pub open spec fn too_large() -> nat {
    pow2(277)
}

/// The single-precision quotient of a whole number and a side, in units.
pub open spec fn quotient(max: u32, side: nat) -> nat {
    rounded(single(max as nat) * pow2(298), side, SINGLE as nat)
}

/// The smaller one of the two quotients of box and picture.
pub open spec fn vector_scale(w: nat, h: nat, max_w: u32, max_h: u32) -> nat {
    if quotient(max_h, h) < quotient(max_w, w) {
        quotient(max_h, h)
    } else {
        quotient(max_w, w)
    }
}

/// The scaled side in units: the single-precision product, but at least one.
pub open spec fn scaled_units(side: nat, scale: nat) -> nat {
    let p = rounded(side * scale, unit_one(), SINGLE as nat);
    if p < unit_one() {
        unit_one()
    } else {
        p
    }
}

/// The scaled side in pixels: rounded, and as many as can be counted if there are
/// more.
pub open spec fn drawn_side(side: nat, scale: nat) -> u32 {
    let n = (scaled_units(side, scale) + unit_one() / 2) / unit_one();
    if scale >= too_large() || n > u32::MAX {
        u32::MAX
    } else {
        n as u32
    }
}

/// Rounding does not depend on the unit: dividend and divisor may be doubled
/// together.
proof fn lemma_rounded_cancel(n: nat, d: nat, limit: nat, k: nat)
    requires
        d > 0,
        limit >= 2,
    ensures
        rounded(n * pow2(k), d * pow2(k), limit) == rounded(n, d, limit),
{
    let p = pow2(k);
    lemma_pow2_pos(k);
    assert((n * p) / (d * p) == n / d) by (nonlinear_arith)
        requires
            d > 0,
            p > 0,
    {
        let q = n / d;
        let r = n % d;
        assert(n == d * q + r && r < d);
        assert((d * p) * q + r * p == n * p && r * p < d * p && 0 <= r * p);
    }
    let u = spacing(n / d, limit);
    lemma_spacing(n / d, limit);
    assert(d * u > 0) by (nonlinear_arith)
        requires
            d > 0,
            u >= 1,
    ;
    lemma_nearest_cancel(n, d * u, p);
    assert((d * p) * u == (d * u) * p) by (nonlinear_arith);
}

/// The nearest integer does not depend on the unit.
proof fn lemma_nearest_cancel(n: nat, d: nat, p: nat)
    requires
        d > 0,
        p > 0,
    ensures
        nearest(n * p, d * p) == nearest(n, d),
{
    let q = n / d;
    let r = n % d;
    lemma_fundamental_div_mod(n as int, d as int);
    assert(n * p == q * (d * p) + r * p) by (nonlinear_arith)
        requires
            n == d * q + r,
    ;
    assert(0 <= r * p < d * p) by (nonlinear_arith)
        requires
            0 <= r < d,
            p > 0,
    ;
    lemma_fundamental_div_mod_converse(
        (n * p) as int,
        (d * p) as int,
        q as int,
        (r * p) as int,
    );
    assert(2 * (r * p) < d * p <==> 2 * r < d) by (nonlinear_arith)
        requires
            p > 0,
    ;
    assert(2 * (r * p) == d * p <==> 2 * r == d) by (nonlinear_arith)
        requires
            p > 0,
    ;
}

/// A quotient that fills the significand is rounded in proportion: doubling it
/// doubles the result.
proof fn lemma_rounded_doubles(n: nat, d: nat, limit: nat)
    requires
        d > 0,
        limit >= 2,
        2 * (n / d) >= limit,
    ensures
        rounded(2 * n, d, limit) == 2 * rounded(n, d, limit),
{
    lemma_div_denominator((2 * n) as int, d as int, 2);
    assert((2 * n) / (d * 2) == n / d) by {
        lemma_fundamental_div_mod(n as int, d as int);
        let q = n / d;
        let r = n % d;
        assert(2 * n == q * (d * 2) + 2 * r) by (nonlinear_arith)
            requires
                n == d * q + r,
        ;
        lemma_fundamental_div_mod_converse((2 * n) as int, (d * 2) as int, q as int, 2 * r as int);
    }
    let a = (2 * n) / d;
    assert(a / 2 == n / d);
    assert(a >= limit);
    let u = spacing(n / d, limit);
    assert(spacing(a, limit) == 2 * u);
    lemma_spacing(n / d, limit);
    assert(d * u > 0) by (nonlinear_arith)
        requires
            d > 0,
            u >= 1,
    ;
    lemma_nearest_cancel(n, d * u, 2);
    assert((d * u) * 2 == d * (2 * u)) by (nonlinear_arith);
    assert(n * 2 == 2 * n);
    let k = nearest(n, d * u);
    assert(k * (2 * u) == 2 * (k * u)) by (nonlinear_arith);
}

/// A quotient that fills the significand is rounded in proportion.
proof fn lemma_rounded_scales(n: nat, d: nat, limit: nat, k: nat)
    requires
        d > 0,
        limit >= 2,
        2 * (n / d) >= limit,
    ensures
        rounded(n * pow2(k), d, limit) == rounded(n, d, limit) * pow2(k),
    decreases k,
{
    if k == 0 {
        lemma2_to64();
        assert(n * 1 == n && rounded(n, d, limit) * 1 == rounded(n, d, limit));
    } else {
        let j = (k - 1) as nat;
        lemma_rounded_scales(n, d, limit, j);
        lemma_pow2_unfold(k);
        lemma_pow2_pos(j);
        let m = n * pow2(j);
        assert(n * pow2(k) == 2 * m) by (nonlinear_arith)
            requires
                m == n * pow2(j),
                pow2(k) == 2 * pow2(j),
        ;
        assert(m >= n) by (nonlinear_arith)
            requires
                m == n * pow2(j),
                pow2(j) >= 1,
        ;
        vstd::arithmetic::div_mod::lemma_div_is_ordered(n as int, m as int, d as int);
        lemma_rounded_doubles(m, d, limit);
        let r = rounded(n, d, limit);
        assert(2 * (r * pow2(j)) == r * pow2(k)) by (nonlinear_arith)
            requires
                pow2(k) == 2 * pow2(j),
        ;
    }
}

/// A rounded number has a significand within the limit.
proof fn lemma_rounded_significand(n: nat, d: nat, limit: nat) -> (r: (nat, nat))
    requires
        d > 0,
        limit >= 2,
    ensures
        r.0 <= limit,
        rounded(n, d, limit) == r.0 * pow2(r.1),
{
    let q = n / d;
    let u = spacing(q, limit);
    lemma_spacing(q, limit);
    let e = lemma_spacing_is_power(q, limit);
    assert(d * u > 0) by (nonlinear_arith)
        requires
            d > 0,
            u >= 1,
    ;
    lemma_fundamental_div_mod(n as int, d as int);
    assert(n <= limit * (d * u)) by (nonlinear_arith)
        requires
            n < d * q + d,
            q + 1 <= limit * u,
            d > 0,
    ;
    lemma_nearest_bound(n, d * u, limit);
    (nearest(n, d * u), e)
}

/// Splits the bits of a positive number into significand and exponent.
fn take_apart(bits: u32) -> (r: (u32, u32))
    requires
        bits < INFINITE,
    ensures
        float_units(bits) == r.0 as nat * pow2(r.1 as nat),
        r.0 < 0x100_0000,
        r.1 <= 253,
        bits > 0 ==> r.0 > 0,
{
    let exponent: u32 = bits / 0x80_0000;
    let fraction: u32 = bits % 0x80_0000;
    if exponent == 0 {
        proof {
            lemma2_to64();
            assert(fraction as nat * 1 == fraction as nat);
        }
        (fraction, 0)
    } else {
        (fraction + 0x80_0000, exponent - 1)
    }
}

/// The bits of the number `r * 2^j`, whose significand fits, or those of infinity
/// if it is too large.
fn put_together(r: u128, j: u32, Ghost(c): Ghost<nat>, Ghost(t): Ghost<nat>) -> (bits: u32)
    requires
        r == c * pow2(t),
        c <= SINGLE,
        j <= 1000,
        r < 0x1_0000_0000_0000_0000_0000_0000,
    ensures
        if r as nat * pow2(j as nat) < too_large() {
            bits < INFINITE && float_units(bits) == r as nat * pow2(j as nat)
        } else {
            bits == INFINITE
        },
{
    let mut m: u128 = r;
    let mut e: u32 = j;
    let ghost value = r as nat * pow2(j as nat);
    let ghost mut c: nat = c;
    let ghost mut t: nat = t;
    proof {
        lemma2_to64();
        assert(m as nat * 1 == m as nat);
    }
    while m >= SINGLE
        invariant
            m as nat * pow2(e as nat) == value,
            m == c * pow2(t),
            c <= SINGLE,
            j <= e,
            m < 0x1_0000_0000_0000_0000_0000_0000,
            e - j <= 96,
            m as nat * pow2((e - j) as nat) == r,
            r < 0x1_0000_0000_0000_0000_0000_0000,
            j <= 1000,
        decreases m,
    {
        proof {
            lemma2_to64();
            if t == 0 {
                assert(c * 1 == c);
                assert(m == SINGLE);
                c = (SINGLE / 2) as nat;
                assert(c * 1 == c);
            } else {
                lemma_pow2_unfold(t);
                let p = pow2((t - 1) as nat);
                assert(c * (2 * p) == 2 * (c * p)) by (nonlinear_arith);
                t = (t - 1) as nat;
            }
            assert(m % 2 == 0);
            lemma_pow2_unfold((e + 1) as nat);
            let half = m as nat / 2;
            assert(half * (2 * pow2(e as nat)) == (2 * half) * pow2(e as nat)) by (nonlinear_arith);
            lemma_pow2_unfold((e - j + 1) as nat);
            let q = pow2((e - j) as nat);
            assert(half * (2 * q) == (2 * half) * q) by (nonlinear_arith);
            lemma_small_power(m as nat, (e - j) as nat);
        }
        m = m / 2;
        e = e + 1;
    }
    while m < 0x80_0000 && e > 0
        invariant
            m as nat * pow2(e as nat) == value,
            m < SINGLE,
        decreases e,
    {
        proof {
            lemma_pow2_unfold(e as nat);
            let p = pow2((e - 1) as nat);
            assert(m as nat * (2 * p) == (2 * m as nat) * p) by (nonlinear_arith);
        }
        m = m * 2;
        e = e - 1;
    }
    proof {
        lemma_put_together(m as nat, e as nat);
    }
    if m < 0x80_0000 {
        m as u32
    } else if e <= 253 {
        (e + 1) * 0x80_0000 + (m as u32 - 0x80_0000)
    } else {
        INFINITE
    }
}

/// A power of two times a number of at least `2^24` stays below `2^96` only for a
/// small power.
proof fn lemma_small_power(m: nat, k: nat)
    requires
        m >= SINGLE,
        m * pow2(k) < 0x1_0000_0000_0000_0000_0000_0000,
    ensures
        k < 96,
{
    if k >= 96 {
        lemma2_to64();
        lemma_pow2_adds(64, 32);
        lemma_pow2_adds(96, (k - 96) as nat);
        lemma_pow2_pos((k - 96) as nat);
        let p = pow2((k - 96) as nat);
        assert(pow2(96) == 0x1_0000_0000_0000_0000_0000_0000);
        assert(m * (0x1_0000_0000_0000_0000_0000_0000 * p)
            >= 0x1_0000_0000_0000_0000_0000_0000) by (nonlinear_arith)
            requires
                m >= 1,
                p >= 1,
        ;
    }
}

/// A normalized number is too large exactly if its exponent is.
proof fn lemma_put_together(m: nat, e: nat)
    requires
        m < SINGLE,
        m >= 0x80_0000 || e == 0,
    ensures
        m >= 0x80_0000 ==> (m * pow2(e) < too_large() <==> e <= 253),
        m < 0x80_0000 ==> m * pow2(e) == m && m * pow2(e) < too_large(),
{
    lemma2_to64();
    assert(pow2(23) == 0x80_0000 && pow2(24) == 0x100_0000);
    if m >= 0x80_0000 {
        if e <= 253 {
            lemma_pow2_adds(24, 253);
            if e < 253 {
                lemma_pow2_strictly_increases(e, 253);
            }
            lemma_pow2_pos(e);
            assert(m * pow2(e) < 0x100_0000 * pow2(253)) by (nonlinear_arith)
                requires
                    m < 0x100_0000,
                    0 < pow2(e) <= pow2(253),
            ;
        } else {
            lemma_pow2_adds(23, 254);
            if e > 254 {
                lemma_pow2_strictly_increases(254, e);
            }
            assert(m * pow2(e) >= 0x80_0000 * pow2(254)) by (nonlinear_arith)
                requires
                    m >= 0x80_0000,
                    pow2(e) >= pow2(254),
            ;
        }
    } else {
        assert(m * 1 == m);
        lemma_pow2_strictly_increases(23, 277);
    }
}

/// The bits of a single-precision quotient.
fn divide(max: u32, side: u32) -> (bits: u32)
    requires
        0 < side < INFINITE,
    ensures
        if quotient(max, float_units(side)) < too_large() {
            bits < INFINITE && float_units(bits) == quotient(max, float_units(side))
        } else {
            bits == INFINITE
        },
{
    proof {
        lemma2_to64();
        lemma2_to64_rest();
        assert(max as nat / 1 == max as nat);
        lemma_rounded_bound(max as nat, 1, SINGLE as nat, 1, 32);
    }
    let n: u128 = to_single(max as u128);
    let (m, e): (u32, u32) = take_apart(side);
    let shift: u32 = 298 - e;
    let first: u32 = if shift < 60 {
        shift
    } else {
        60
    };
    let power: u128 = power_of_two(first);
    proof {
        assert(n as nat * power as nat <= 0x1_0000_0000 * 0x1000_0000_0000_0000) by (nonlinear_arith)
            requires
                n <= 0x1_0000_0000,
                power <= 0x1000_0000_0000_0000,
        ;
    }
    let r: u128 = round_ratio(n * power, m as u128, SINGLE);
    let ghost base = (n * power) as nat;
    let ghost rest = (shift - first) as nat;
    proof {
        lemma_quotient_parts(n as nat, m as nat, e as nat, first as nat);
        assert(r as nat * pow2(rest) == quotient(max, float_units(side)));
        lemma_rounded_size(base, m as nat);
    }
    let ghost parts = lemma_rounded_significand(base, m as nat, SINGLE as nat);
    put_together(r, shift - first, Ghost(parts.0), Ghost(parts.1))
}

/// A power of two.
fn power_of_two(k: u32) -> (r: u128)
    requires
        k <= 100,
    ensures
        r == pow2(k as nat),
        k <= 60 ==> r <= 0x1000_0000_0000_0000,
{
    let mut r: u128 = 1;
    proof {
        lemma2_to64();
        lemma_pow2_strictly_increases(0, 100);
    }
    for i in 0..k
        invariant
            k <= 100,
            r == pow2(i as nat),
            r <= pow2(100),
    {
        proof {
            lemma_pow2_unfold((i + 1) as nat);
            lemma2_to64();
            lemma2_to64_rest();
            lemma_pow2_adds(64, 36);
            if i + 1 < 100 {
                lemma_pow2_strictly_increases((i + 1) as nat, 100);
            }
        }
        r = r * 2;
    }
    proof {
        lemma2_to64_rest();
        if k < 60 {
            lemma_pow2_strictly_increases(k as nat, 60);
        }
    }
    r
}

/// The quotient by a side of `m * 2^e` units, worked out in two steps.
proof fn lemma_quotient_parts(n: nat, m: nat, e: nat, first: nat)
    requires
        0 < m < 0x100_0000,
        e <= 253,
        first == if 298 - e < 60 {
            298 - e
        } else {
            60
        },
    ensures
        rounded(n * pow2(298), m * pow2(e), SINGLE as nat) == rounded(
            n * pow2(first),
            m,
            SINGLE as nat,
        ) * pow2((298 - e - first) as nat),
{
    let shift = (298 - e) as nat;
    lemma_pow2_adds(shift, e);
    assert(n * pow2(298) == (n * pow2(shift)) * pow2(e)) by (nonlinear_arith)
        requires
            pow2(298) == pow2(shift) * pow2(e),
    ;
    lemma_rounded_cancel(n * pow2(shift), m, SINGLE as nat, e);
    let rest = (shift - first) as nat;
    lemma2_to64();
    if rest == 0 {
        let r = rounded(n * pow2(first), m, SINGLE as nat);
        assert(r * 1 == r);
    } else {
        lemma2_to64_rest();
        lemma_pow2_adds(first, rest);
        let base = n * pow2(first);
        assert(n * pow2(shift) == base * pow2(rest)) by (nonlinear_arith)
            requires
                pow2(shift) == pow2(first) * pow2(rest),
                base == n * pow2(first),
        ;
        if n == 0 {
            assert(base == 0) by (nonlinear_arith)
                requires
                    base == n * pow2(first),
                    n == 0,
            ;
            assert(base * pow2(rest) == 0) by (nonlinear_arith)
                requires
                    base == 0,
            ;
            lemma_rounded_zero(m);
            assert(0 * pow2(rest) == 0) by (nonlinear_arith);
        } else {
            assert(base >= 0x80_0000 * m) by (nonlinear_arith)
                requires
                    base == n * pow2(first),
                    pow2(first) == 0x1000_0000_0000_0000,
                    n >= 1,
                    m < 0x100_0000,
            ;
            assert(base / m >= 0x80_0000) by (nonlinear_arith)
                requires
                    base >= 0x80_0000 * m,
                    m > 0,
            ;
            lemma_rounded_scales(base, m, SINGLE as nat, rest);
        }
    }
}

/// Nothing is rounded to nothing.
proof fn lemma_rounded_zero(d: nat)
    requires
        d > 0,
    ensures
        rounded(0, d, SINGLE as nat) == 0,
{
    lemma_nearest_bound(0, d, 0);
    assert(0nat / d == 0) by {
        vstd::arithmetic::div_mod::lemma_div_basics(d as int);
    }
    assert(0 * d == 0);
    let x = nearest(0, d);
    assert(x == 0);
    assert(rounded(0, d, SINGLE as nat) == nearest(0, d * 1) * 1);
    assert(d * 1 == d);
}

/// The first step of a quotient stays below `2^96`.
proof fn lemma_rounded_size(n: nat, d: nat)
    requires
        d > 0,
        n <= 0x1_0000_0000 * 0x1000_0000_0000_0000,
    ensures
        rounded(n, d, SINGLE as nat) < 0x1_0000_0000_0000_0000_0000_0000,
{
    lemma_rounded(n, d, SINGLE as nat);
    let u = spacing(n / d, SINGLE as nat);
    let r = rounded(n, d, SINGLE as nat);
    assert(u == 1 || d * u <= 2 * n) by {
        if u != 1 {
            assert(d * u <= (d * u) * SINGLE as nat) by (nonlinear_arith)
                requires
                    d * u >= 0,
            ;
        }
    }
    if u == 1 {
        assert(d * u == d) by (nonlinear_arith)
            requires
                u == 1,
        ;
        assert(r <= n + 1) by (nonlinear_arith)
            requires
                2 * (r * d - n) <= d,
                d >= 1,
        ;
    } else {
        assert(r <= r * d) by (nonlinear_arith)
            requires
                d >= 1,
        ;
    }
}

/// Positive numbers are ordered as their bits.
proof fn lemma_bits_order(a: u32, b: u32)
    requires
        a <= b,
    ensures
        float_units(a) <= float_units(b),
{
    let (ea, fa) = (a / 0x80_0000, a % 0x80_0000);
    let (eb, fb) = (b / 0x80_0000, b % 0x80_0000);
    if eb > 0 {
        lemma_pow2_pos((eb - 1) as nat);
        if ea == eb {
            assert((fa + 0x80_0000) as nat * pow2((ea - 1) as nat) <= (fb + 0x80_0000) as nat
                * pow2((eb - 1) as nat)) by (nonlinear_arith)
                requires
                    ea == eb,
                    fa <= fb,
            ;
        } else if ea == 0 {
            assert((fb + 0x80_0000) as nat * pow2((eb - 1) as nat) >= 0x80_0000)
                by (nonlinear_arith)
                requires
                    pow2((eb - 1) as nat) >= 1,
            ;
        } else {
            lemma_pow2_unfold(ea as nat);
            if ea < eb - 1 {
                lemma_pow2_strictly_increases(ea as nat, (eb - 1) as nat);
            }
            assert((fa + 0x80_0000) as nat * pow2((ea - 1) as nat) <= 0x80_0000 * pow2(ea as nat))
                by (nonlinear_arith)
                requires
                    fa < 0x80_0000,
                    pow2(ea as nat) == 2 * pow2((ea - 1) as nat),
            ;
            assert(0x80_0000 * pow2(ea as nat) <= (fb + 0x80_0000) as nat * pow2((eb - 1) as nat))
                by (nonlinear_arith)
                requires
                    pow2(ea as nat) <= pow2((eb - 1) as nat),
            ;
        }
    }
}

/// A common factor of dividend and divisor does not matter.
proof fn lemma_div_cancel(a: nat, b: nat, c: nat)
    requires
        b > 0,
        c > 0,
    ensures
        (a * c) / (b * c) == a / b,
{
    let q = a / b;
    let r = a % b;
    lemma_fundamental_div_mod(a as int, b as int);
    assert(a * c == q * (b * c) + r * c) by (nonlinear_arith)
        requires
            a == b * q + r,
    ;
    assert(0 <= r * c < b * c) by (nonlinear_arith)
        requires
            0 <= r < b,
            c > 0,
    ;
    lemma_fundamental_div_mod_converse((a * c) as int, (b * c) as int, q as int, (r * c) as int);
}

/// Half of one is a power of two as well.
proof fn lemma_unit_one()
    ensures
        unit_one() == 2 * pow2(148),
        unit_one() / 2 == pow2(148),
        pow2(148) > 0,
        pow2(298) == unit_one() * unit_one(),
{
    lemma_pow2_unfold(149);
    lemma_pow2_pos(148);
    lemma_pow2_adds(149, 149);
}

/// A small product is drawn as one pixel.
proof fn lemma_small_product(n: nat, e: nat)
    requires
        n < 0x1_0000_0000_0000,
        e < 251,
    ensures
        scaled_units(n * pow2(e), 1) == unit_one(),
{
    lemma_unit_one();
    lemma2_to64();
    lemma2_to64_rest();
    lemma_pow2_adds(48, 250);
    if e < 250 {
        lemma_pow2_strictly_increases(e, 250);
    }
    let x = n * pow2(e);
    assert(x <= pow2(298)) by (nonlinear_arith)
        requires
            x == n * pow2(e),
            n <= 0x1_0000_0000_0000,
            pow2(e) <= pow2(250),
            pow2(298) == 0x1_0000_0000_0000 * pow2(250),
    ;
    let one = unit_one();
    assert(x / one <= one) by (nonlinear_arith)
        requires
            x <= one * one,
            one > 0,
    ;
    assert(one < SINGLE as nat * pow2(149)) by (nonlinear_arith)
        requires
            one == pow2(149),
            one > 0,
    ;
    assert(x <= (1 * pow2(149)) * one);
    lemma_rounded_bound(x, one, SINGLE as nat, 1, 149);
    assert(x * 1 == x);
}

/// A larger product, worked out on its significand.
proof fn lemma_large_product(n: nat, e: nat)
    requires
        0 < n,
        251 <= e,
    ensures
        rounded(n * pow2(e), unit_one(), SINGLE as nat) == rounded(
            n * 0x100_0000,
            1,
            SINGLE as nat,
        ) * pow2((e - 173) as nat),
{
    lemma2_to64();
    let k = (e - 149) as nat;
    let rest = (e - 173) as nat;
    lemma_pow2_adds(k, 149);
    lemma_pow2_adds(24, rest);
    assert(n * pow2(e) == (n * pow2(k)) * pow2(149)) by (nonlinear_arith)
        requires
            pow2(e) == pow2(k) * pow2(149),
    ;
    lemma_rounded_cancel(n * pow2(k), 1, SINGLE as nat, 149);
    assert(1 * pow2(149) == pow2(149));
    let base = n * 0x100_0000;
    assert(n * pow2(k) == base * pow2(rest)) by (nonlinear_arith)
        requires
            base == n * 0x100_0000,
            pow2(k) == 0x100_0000 * pow2(rest),
    ;
    assert(base / 1 == base);
    lemma_rounded_scales(base, 1, SINGLE as nat, rest);
}

/// The scaled side in pixels.
fn draw_side(side: u32, scale: u32) -> (r: u32)
    requires
        0 < side < INFINITE,
        scale < INFINITE,
    ensures
        r == drawn_side(float_units(side), float_units(scale)),
{
    let (m1, e1): (u32, u32) = take_apart(side);
    let (m2, e2): (u32, u32) = take_apart(scale);
    let e: u32 = e1 + e2;
    proof {
        lemma_bits_order(scale, 0x7f7f_ffff);
        lemma_largest();
        assert(m1 as nat * m2 as nat <= 0xff_ffff * 0xff_ffff) by (nonlinear_arith)
            requires
                m1 <= 0xff_ffff,
                m2 <= 0xff_ffff,
        ;
        lemma_pow2_adds(e1 as nat, e2 as nat);
        let (p1, p2) = (pow2(e1 as nat), pow2(e2 as nat));
        assert((m1 as nat * p1) * (m2 as nat * p2) == (m1 as nat * m2 as nat) * (p1 * p2))
            by (nonlinear_arith);
        lemma_unit_one();
    }
    let n: u128 = m1 as u128 * m2 as u128;
    let ghost product = float_units(side) * float_units(scale);
    let ghost one = unit_one();
    assert(product == n as nat * pow2(e as nat));
    assert(product * 1 == product);
    if n == 0 || e < 251 {
        proof {
            if n == 0 {
                assert(product == 0) by (nonlinear_arith)
                    requires
                        product == n as nat * pow2(e as nat),
                        n == 0,
                ;
                lemma_rounded_zero(one);
            } else {
                lemma_small_product(n as nat, e as nat);
            }
            lemma_whole_and_half(1, one);
        }
        return 1;
    }
    let r: u128 = round_ratio(n * 0x100_0000, 1, SINGLE);
    let ghost rest = (e - 173) as nat;
    proof {
        lemma_large_product(n as nat, e as nat);
        lemma_significand_size(n as nat);
    }
    let ghost p = r as nat * pow2(rest);
    let ghost drawn = (scaled_units(float_units(side), float_units(scale)) + one / 2) / one;
    assert(rounded(product, one, SINGLE as nat) == p);
    let whole: u128 = if e >= 322 {
        let t: u32 = e - 322;
        proof {
            lemma_pow2_adds(149, t as nat);
            let x = r as nat * pow2(t as nat);
            assert(p == x * one) by (nonlinear_arith)
                requires
                    p == r as nat * pow2(rest),
                    pow2(rest) == one * pow2(t as nat),
                    x == r as nat * pow2(t as nat),
            ;
            lemma_whole_and_half(x, one);
            lemma_pow2_pos(t as nat);
            assert(x >= 1) by (nonlinear_arith)
                requires
                    x == r as nat * pow2(t as nat),
                    r >= 1,
                    pow2(t as nat) >= 1,
            ;
            assert(p >= one) by (nonlinear_arith)
                requires
                    p == x * one,
                    x >= 1,
            ;
            if t >= 9 {
                lemma2_to64();
                if t > 9 {
                    lemma_pow2_strictly_increases(9, t as nat);
                }
                assert(x >= 0x1_0000_0000) by (nonlinear_arith)
                    requires
                        x == r as nat * pow2(t as nat),
                        r >= 0x80_0000,
                        pow2(t as nat) >= 512,
                ;
            }
            assert(drawn == x);
        }
        if t >= 9 {
            return u32::MAX;
        }
        let power: u128 = power_of_two(t);
        proof {
            lemma2_to64();
            if t < 8 {
                lemma_pow2_strictly_increases(t as nat, 8);
            }
            assert(drawn == r as nat * power as nat);
            assert(r as nat * power as nat <= 0x400_0000_0000_0000_0000 * 256) by (nonlinear_arith)
                requires
                    r <= 0x400_0000_0000_0000_0000,
                    power <= 256,
            ;
        }
        r * power
    } else {
        let y: u32 = 322 - e;
        let power: u128 = power_of_two(y);
        let half: u128 = power_of_two(y - 1);
        proof {
            lemma_pow2_adds(rest, y as nat);
            lemma_pow2_adds(rest, (y - 1) as nat);
            lemma_pow2_pos(rest);
            lemma_pow2_pos(y as nat);
            let c = pow2(rest);
            let a = r as nat + half as nat;
            assert(a * c == p + one / 2) by (nonlinear_arith)
                requires
                    a == r as nat + half as nat,
                    p == r as nat * c,
                    one / 2 == c * half as nat,
            ;
            assert(power as nat * c == one) by (nonlinear_arith)
                requires
                    one == c * power as nat,
            ;
            lemma_div_cancel(a, power as nat, c);
            lemma_half_size((y - 1) as nat);
            lemma_whole_and_half(1, one);
            if p < one {
                assert((p + one / 2) / one <= 1) by (nonlinear_arith)
                    requires
                        p < one,
                        one > 0,
                ;
            } else {
                assert((p + one / 2) / one >= 1) by (nonlinear_arith)
                    requires
                        p >= one,
                        one > 0,
                ;
            }
            assert((1 * one + one / 2) / one == 1);
            assert(drawn == if p < one {
                1
            } else {
                a / power as nat
            });
        }
        (r + half) / power
    };
    assert(drawn == if whole < 1 {
        1
    } else {
        whole as nat
    });
    if whole < 1 {
        1
    } else if whole > u32::MAX as u128 {
        u32::MAX
    } else {
        whole as u32
    }
}

/// A whole number and a half, rounded down.
proof fn lemma_whole_and_half(x: nat, one: nat)
    requires
        one > 1,
    ensures
        (x * one + one / 2) / one == x,
{
    lemma_fundamental_div_mod_converse(
        (x * one + one / 2) as int,
        one as int,
        x as int,
        one as int / 2,
    );
}

/// Every finite number is below the limit.
proof fn lemma_largest()
    ensures
        float_units(0x7f7f_ffff) < too_large(),
{
    lemma_put_together(0xff_ffff, 253);
}

/// The significand of a product is at least `2^23` and at most `2^74`.
proof fn lemma_significand_size(n: nat)
    requires
        0 < n <= 0xff_ffff * 0xff_ffff,
    ensures
        0x80_0000 <= rounded(n * 0x100_0000, 1, SINGLE as nat) <= 0x400_0000_0000_0000_0000,
{
    let x = n * 0x100_0000;
    assert(x / 1 == x);
    lemma_rounded(x, 1, SINGLE as nat);
    let u = spacing(x, SINGLE as nat);
    assert((1 * u) * SINGLE as nat == u * 0x100_0000) by (nonlinear_arith);
}

/// A small power of two.
proof fn lemma_half_size(k: nat)
    requires
        k <= 70,
    ensures
        pow2(k) <= 0x40_0000_0000_0000_0000,
{
    lemma2_to64();
    lemma_pow2_adds(64, 6);
    if k < 70 {
        lemma_pow2_strictly_increases(k, 70);
    }
}

/// The product of a side and its own quotient differs from the box by at most one
/// part in `2^24`, or by a tiny part of a pixel.
proof fn lemma_product_near_box(max: u32, side: nat)
    requires
        max < 0x40_0000,
        0 < side < too_large(),
    ensures
        ({
            let a = pow2(298);
            let n = max * a;
            let x = side * quotient(max, side);
            &&& 0x100_0000 * (x - n) <= n || 0x40_0000 * (x - n) <= a
            &&& 0x100_0000 * (n - x) <= n || 0x40_0000 * (n - x) <= a
            &&& n <= 0x3f_ffff * a
        }),
{
    let a = pow2(298);
    let n = max as nat * a;
    assert(max as nat / 1 == max as nat && max as nat % 1 == 0);
    assert(max as nat * 1 == max as nat);
    assert(single(max as nat) == max);
    let q = quotient(max, side);
    lemma_rounded(n, side, SINGLE as nat);
    let u = spacing(n / side, SINGLE as nat);
    assert((side * u) * SINGLE as nat == (side * u) * 0x100_0000) by (nonlinear_arith);
    lemma2_to64();
    lemma_pow2_adds(277, 21);
    assert(side * 0x20_0000 < a) by (nonlinear_arith)
        requires
            side < pow2(277),
            a == pow2(277) * 0x20_0000,
    ;
    assert(n <= 0x3f_ffff * a) by (nonlinear_arith)
        requires
            n == max as nat * a,
            max <= 0x3f_ffff,
    ;
    if u == 1 {
        assert(side * u == side) by (nonlinear_arith)
            requires
                u == 1,
        ;
    }
    assert(side * q == q * side) by (nonlinear_arith);
}

/// The product of a side and a scale factor that is no more than the side's own
/// quotient exceeds the box by no more.
proof fn lemma_product_in_box(max: u32, side: nat, scale: nat)
    requires
        max < 0x40_0000,
        0 < side < too_large(),
        scale <= quotient(max, side),
    ensures
        ({
            let a = pow2(298);
            let n = max * a;
            let x = side * scale;
            &&& 0x100_0000 * (x - n) <= n || 0x40_0000 * (x - n) <= a
            &&& n <= 0x3f_ffff * a
        }),
{
    lemma_product_near_box(max, side);
    let q = quotient(max, side);
    assert(side * scale <= side * q) by (nonlinear_arith)
        requires
            scale <= q,
    ;
}

/// Rounding a product of units is off by at most one part in `2^24`, or by half a
/// unit.
proof fn lemma_product_rounded(x: nat)
    ensures
        ({
            let one = unit_one();
            let pt = rounded(x, one, SINGLE as nat) * one;
            &&& 0x100_0000 * (pt - x) <= x || 2 * (pt - x) <= one
            &&& 0x100_0000 * (x - pt) <= x || 2 * (x - pt) <= one
            &&& 0x1_0000_0000 * one <= pow2(298)
        }),
{
    let one = unit_one();
    lemma_unit_one();
    lemma2_to64();
    lemma_pow2_strictly_increases(32, 149);
    lemma_rounded(x, one, SINGLE as nat);
    let u = spacing(x / one, SINGLE as nat);
    assert((one * u) * SINGLE as nat == (one * u) * 0x100_0000) by (nonlinear_arith);
    if u == 1 {
        assert(one * u == one) by (nonlinear_arith)
            requires
                u == 1,
        ;
    }
    assert(0x1_0000_0000 * one <= one * one) by (nonlinear_arith)
        requires
            one >= 0x1_0000_0000,
    ;
}

/// A product that exceeds the box by at most one part in `2^24`, or by a tiny part
/// of a pixel, is drawn within a pixel of its size, and within the box.
proof fn lemma_drawn(side: nat, scale: nat, max: u32)
    requires
        max < 0x40_0000,
        scale < too_large(),
        ({
            let a = pow2(298);
            let n = max * a;
            let x = side * scale;
            &&& 0x100_0000 * (x - n) <= n || 0x40_0000 * (x - n) <= a
            &&& n <= 0x3f_ffff * a
        }),
    ensures
        ({
            let d = drawn_side(side, scale);
            &&& 1 <= d
            &&& d <= max || d == 1
            &&& side * scale <= d * pow2(298) + pow2(298)
            &&& d * pow2(298) <= side * scale + pow2(298) || d == 1
        }),
{
    let one = unit_one();
    let a = pow2(298);
    let x = side * scale;
    lemma_unit_one();
    let n = max as nat * a;
    lemma_product_rounded(x);
    let p = rounded(x, one, SINGLE as nat);
    let pt = p * one;
    assert(2 * (pt - x) <= a && 2 * (x - pt) <= a);
    assert(2 * pt < 2 * n + a);
    assert(2 * p < (2 * max as nat + 1) * one) by (nonlinear_arith)
        requires
            2 * pt < 2 * n + a,
            pt == p * one,
            n == max as nat * a,
            a == one * one,
            one > 0,
    ;
    if p < one {
        lemma_whole_and_half(1, one);
        assert(pt < a) by (nonlinear_arith)
            requires
                pt == p * one,
                p < one,
                a == one * one,
        ;
    } else {
        let d = (p + one / 2) / one;
        lemma_fundamental_div_mod((p + one / 2) as int, one as int);
        assert(one * d <= p + one / 2 && p + one / 2 < one * d + one);
        assert(d <= max) by (nonlinear_arith)
            requires
                one * d <= p + one / 2,
                2 * (one / 2) <= one,
                2 * p < (2 * max as nat + 1) * one,
                one > 0,
        ;
        assert(d >= 1) by (nonlinear_arith)
            requires
                p >= one,
                p + one / 2 < one * d + one,
                one > 0,
        ;
        assert(2 * (d * a) <= 2 * pt + a) by (nonlinear_arith)
            requires
                one * d <= p + one / 2,
                2 * (one / 2) <= one,
                pt == p * one,
                a == one * one,
        ;
        assert(2 * pt <= 2 * (d * a) + a) by (nonlinear_arith)
            requires
                p + one / 2 < one * d + one,
                2 * (one / 2) == one,
                pt == p * one,
                a == one * one,
                one > 0,
        ;
    }
}

/// A side drawn at its own quotient is as long as the box, or one pixel long if the
/// box has none.
proof fn lemma_drawn_reaches(side: nat, max: u32)
    requires
        max < 0x40_0000,
        0 < side < too_large(),
        quotient(max, side) < too_large(),
    ensures
        drawn_side(side, quotient(max, side)) == at_least_one(max as int),
{
    let one = unit_one();
    let a = pow2(298);
    let scale = quotient(max, side);
    let x = side * scale;
    lemma_unit_one();
    lemma_product_near_box(max, side);
    lemma_drawn(side, scale, max);
    let n = max as nat * a;
    lemma_product_rounded(x);
    let p = rounded(x, one, SINGLE as nat);
    let pt = p * one;
    assert(2 * n <= 2 * pt + a);
    assert(2 * max as nat * one <= 2 * p + one) by (nonlinear_arith)
        requires
            2 * n <= 2 * pt + a,
            pt == p * one,
            n == max as nat * a,
            a == one * one,
            one > 0,
    ;
    if p < one {
        assert(max <= 1) by (nonlinear_arith)
            requires
                2 * max as nat * one <= 2 * p + one,
                p < one,
                one > 0,
        ;
    } else {
        let d = (p + one / 2) / one;
        assert(d >= max) by (nonlinear_arith)
            requires
                2 * max as nat * one <= 2 * p + one,
                2 * (one / 2) == one,
                d == (p + one / 2) / one,
                one > 0,
        ;
    }
}

/// A vector picture is drawn within the box, except that each side is at least
/// one pixel, if the sides of the box are below `2^22` pixels and the scale factor
/// is finite.
pub proof fn law_vector_lies_in_box(w: nat, h: nat, max_w: u32, max_h: u32)
    requires
        0 < w < too_large(),
        0 < h < too_large(),
        max_w < 0x40_0000,
        max_h < 0x40_0000,
        vector_scale(w, h, max_w, max_h) < too_large(),
    ensures
        ({
            let scale = vector_scale(w, h, max_w, max_h);
            &&& 1 <= drawn_side(w, scale)
            &&& 1 <= drawn_side(h, scale)
            &&& drawn_side(w, scale) <= max_w || drawn_side(w, scale) == 1
            &&& drawn_side(h, scale) <= max_h || drawn_side(h, scale) == 1
        }),
{
    let scale = vector_scale(w, h, max_w, max_h);
    lemma_product_in_box(max_w, w, scale);
    lemma_product_in_box(max_h, h, scale);
    lemma_drawn(w, scale, max_w);
    lemma_drawn(h, scale, max_h);
}

/// A vector picture keeps its proportions: both sides are drawn at one scale
/// factor, each within a pixel of the exact product with it, but at least one
/// pixel long.
pub proof fn law_vector_keeps_proportions(w: nat, h: nat, max_w: u32, max_h: u32)
    requires
        0 < w < too_large(),
        0 < h < too_large(),
        max_w < 0x40_0000,
        max_h < 0x40_0000,
        vector_scale(w, h, max_w, max_h) < too_large(),
    ensures
        ({
            let scale = vector_scale(w, h, max_w, max_h);
            let (nw, nh) = (drawn_side(w, scale), drawn_side(h, scale));
            &&& w * scale <= nw * pow2(298) + pow2(298)
            &&& nw * pow2(298) <= w * scale + pow2(298) || nw == 1
            &&& h * scale <= nh * pow2(298) + pow2(298)
            &&& nh * pow2(298) <= h * scale + pow2(298) || nh == 1
        }),
{
    let scale = vector_scale(w, h, max_w, max_h);
    lemma_product_in_box(max_w, w, scale);
    lemma_product_in_box(max_h, h, scale);
    lemma_drawn(w, scale, max_w);
    lemma_drawn(h, scale, max_h);
}

/// A vector picture fills the box in one direction: one of its sides is as long as
/// the box, or one pixel long if the box has none. The sides of the box are below
/// `2^22` pixels and the scale factor is finite.
pub proof fn law_vector_reaches_the_box(w: nat, h: nat, max_w: u32, max_h: u32)
    requires
        0 < w < too_large(),
        0 < h < too_large(),
        max_w < 0x40_0000,
        max_h < 0x40_0000,
        vector_scale(w, h, max_w, max_h) < too_large(),
    ensures
        ({
            let scale = vector_scale(w, h, max_w, max_h);
            drawn_side(w, scale) == at_least_one(max_w as int) || drawn_side(h, scale)
                == at_least_one(max_h as int)
        }),
{
    if vector_scale(w, h, max_w, max_h) == quotient(max_w, w) {
        lemma_drawn_reaches(w, max_w);
    } else {
        lemma_drawn_reaches(h, max_h);
    }
}

/// How a vector picture is drawn.
#[derive(Clone, Copy, Debug, PartialEq, Eq, Structural)]
pub struct VectorPlan {
    /// The bits of the single-precision scale factor.
    pub scale: u32,
    pub width: u32,
    pub height: u32,
}

/// The bits stand for the number of `units`, or for infinity if that is too
/// large.
pub open spec fn stands_for(bits: u32, units: nat) -> bool {
    if units < too_large() {
        bits < INFINITE && float_units(bits) == units
    } else {
        bits == INFINITE
    }
}

/// A side that a picture can have, given its bits: positive.
pub open spec fn is_positive(bits: u32) -> bool {
    0 < bits < 0x8000_0000
}

/// Plans how to draw a vector picture with finite sides, given by their bits, so
/// that it lies within `max_w` by `max_h` pixels and keeps its proportions. Gives
/// nothing if a side is not positive.
pub fn plan_vector(w: u32, h: u32, max_w: u32, max_h: u32) -> (r: Option<VectorPlan>)
    requires
        w % 0x8000_0000 < INFINITE,
        h % 0x8000_0000 < INFINITE,
    ensures
        match r {
            Some(plan) => {
                let scale = vector_scale(float_units(w), float_units(h), max_w, max_h);
                &&& is_positive(w) && is_positive(h)
                &&& stands_for(plan.scale, scale)
                &&& plan.width == drawn_side(float_units(w), scale)
                &&& plan.height == drawn_side(float_units(h), scale)
            },
            None => !is_positive(w) || !is_positive(h),
        },
{
    if w == 0 || h == 0 || w >= 0x8000_0000 || h >= 0x8000_0000 {
        return None;
    }
    let across: u32 = divide(max_w, w);
    let down: u32 = divide(max_h, h);
    proof {
        lemma_largest();
        if across < INFINITE && down < INFINITE {
            if across <= down {
                lemma_bits_order(across, down);
            } else {
                lemma_bits_order(down, across);
            }
        }
    }
    let scale: u32 = if down < across {
        down
    } else {
        across
    };
    if scale == INFINITE {
        return Some(VectorPlan { scale, width: u32::MAX, height: u32::MAX });
    }
    Some(VectorPlan { scale, width: draw_side(w, scale), height: draw_side(h, scale) })
}

/// The bits of a positive number: those of one are known, the next exponent doubles
/// it, and between two exponents the numbers are evenly spaced. Below the smallest
/// exponent they are counted in units.
pub proof fn law_bits_stand_for_numbers(bits: u32)
    requires
        bits < 0x7f00_0000,
    ensures
        float_units(0x3f80_0000) == pow2(149),
        bits >= 0x80_0000 ==> float_units((bits + 0x80_0000) as u32) == 2 * float_units(bits),
        bits >= 0x80_0000 ==> 0x80_0000 * (float_units((bits + 1) as u32) - float_units(bits))
            == float_units((bits - bits % 0x80_0000) as u32),
        bits < 0x80_0000 ==> float_units(bits) == bits,
{
    lemma2_to64();
    lemma_pow2_adds(23, 126);
    assert(0x3f80_0000u32 / 0x80_0000 == 127 && 0x3f80_0000u32 % 0x80_0000 == 0);
    if bits >= 0x80_0000 {
        let e = bits / 0x80_0000;
        let f = bits % 0x80_0000;
        let p = pow2((e - 1) as nat);
        lemma_pow2_unfold(e as nat);
        let up = (bits + 0x80_0000) as u32;
        assert(up / 0x80_0000 == e + 1 && up % 0x80_0000 == f);
        assert((f + 0x80_0000) as nat * (2 * p) == 2 * ((f + 0x80_0000) as nat * p))
            by (nonlinear_arith);
        let next = (bits + 1) as u32;
        let base = (bits - f) as u32;
        assert(base / 0x80_0000 == e && base % 0x80_0000 == 0);
        assert((f + 0x80_0001) as nat * p == (f + 0x80_0000) as nat * p + p) by (nonlinear_arith);
        assert((0 + 0x80_0000) as nat * p == 0x80_0000 * p);
        if f == 0x7f_ffff {
            assert(next / 0x80_0000 == e + 1 && next % 0x80_0000 == 0);
            assert(0x80_0000nat * (2 * p) == 0x100_0000nat * p) by (nonlinear_arith);
        } else {
            assert(next / 0x80_0000 == e && next % 0x80_0000 == f + 1);
        }
    }
}

/// A side can be drawn if the bits of its length are neither those of nought nor
/// those of a negative number.
pub proof fn law_sides_are_positive(bits: u32)
    ensures
        is_positive(bits) <==> bits != 0 && bits <= 0x7fff_ffff,
        0 < bits < INFINITE ==> float_units(bits) > 0,
{
    if 0 < bits && bits < INFINITE && bits / 0x80_0000 > 0 {
        let e = (bits / 0x80_0000 - 1) as nat;
        lemma_pow2_pos(e);
        assert((bits % 0x80_0000 + 0x80_0000) as nat * pow2(e) > 0) by (nonlinear_arith)
            requires
                pow2(e) > 0,
        ;
    }
}

/// The scale factor is the smaller one of the two that take a side to its box, as
/// single-precision numbers, each off by at most one part in `2^24` or by half a
/// unit.
pub proof fn law_vector_scale_is_the_smaller_one(w: nat, h: nat, max_w: u32, max_h: u32)
    requires
        w > 0,
        h > 0,
        max_w < 0x100_0000,
        max_h < 0x100_0000,
    ensures
        ({
            let scale = vector_scale(w, h, max_w, max_h);
            let (a, b) = (max_w * pow2(298), max_h * pow2(298));
            &&& 0x100_0000 * (scale * w - a) <= a || 2 * (scale * w - a) <= w
            &&& 0x100_0000 * (scale * h - b) <= b || 2 * (scale * h - b) <= h
            &&& ({
                ||| 0x100_0000 * (a - scale * w) <= a
                ||| 2 * (a - scale * w) <= w
                ||| 0x100_0000 * (b - scale * h) <= b
                ||| 2 * (b - scale * h) <= h
            })
        }),
{
    lemma_quotient_error(w, max_w);
    lemma_quotient_error(h, max_h);
    let scale = vector_scale(w, h, max_w, max_h);
    let (p, q) = (quotient(max_w, w), quotient(max_h, h));
    assert(scale * w <= p * w && scale * h <= q * h) by (nonlinear_arith)
        requires
            scale <= p,
            scale <= q,
    ;
}

proof fn lemma_quotient_error(side: nat, max: u32)
    requires
        side > 0,
        max < 0x100_0000,
    ensures
        ({
            let a = max * pow2(298);
            let x = quotient(max, side) * side;
            &&& 0x100_0000 * (x - a) <= a || 2 * (x - a) <= side
            &&& 0x100_0000 * (a - x) <= a || 2 * (a - x) <= side
        }),
{
    assert(max as nat / 1 == max as nat && max as nat % 1 == 0);
    assert(max as nat * 1 == max as nat);
    assert(single(max as nat) == max);
    crate::rounding::lemma_single_error(max as nat * pow2(298), side);
}

/// The scale factor and the drawn sides are worked out in single precision, and the
/// sides rounded to whole pixels, halves upwards. What is too large stands for as
/// much as can be.
pub proof fn law_vectors_are_in_single_precision(max: u32, side: nat, scale: nat)
    requires
        side > 0,
    ensures
        quotient(max, side) == rounded(rounded(max as nat, 1, 0x100_0000) * pow2(298), side, 0x100_0000),
        ({
            let p = rounded(side * scale, pow2(149), 0x100_0000);
            let n = (2 * p + pow2(149)) as int / (2 * pow2(149)) as int;
            drawn_side(side, scale) == if scale >= pow2(277) || n > 0xffff_ffff {
                0xffff_ffff
            } else {
                at_least_one(n)
            }
        }),
{
    lemma_unit_one();
    let one = unit_one() as int;
    let p = rounded(side * scale, unit_one(), SINGLE as nat) as int;
    let half = one / 2;
    assert(one == 2 * half);
    let a = p + half;
    assert((2 * a) / (2 * one) == a / one) by {
        lemma_div_cancel(a as nat, one as nat, 2);
        assert(a * 2 == 2 * a && one * 2 == 2 * one);
    }
    assert(2 * a == 2 * p + one);
    lemma_whole_and_half(1, one as nat);
    assert(1 * one == one);
    if p < one {
        assert(a / one <= 1) by (nonlinear_arith)
            requires
                a < one + one,
                one > 0,
        ;
        assert(a / one >= 0) by (nonlinear_arith)
            requires
                a >= 0,
                one > 0,
        ;
    } else {
        assert(a / one >= 1) by (nonlinear_arith)
            requires
                a >= one,
                one > 0,
        ;
    }
}

/// The bits of a scale factor stand for it; those of infinity for one that is too
/// large.
pub proof fn law_scale_is_given_by_its_bits(bits: u32, units: nat)
    requires
        stands_for(bits, units),
    ensures
        units < pow2(277) ==> bits < 0x7f80_0000 && float_units(bits) == units,
        units >= pow2(277) ==> bits == 0x7f80_0000,
{
}

} // verus!
