//! Rounding of exact quotients to a binary significand of fixed width.
//!
//! Scale factors, blending weights and heat levels are defined by binary
//! floating-point arithmetic with ties to even. Every such value that occurs
//! here is a whole multiple of a known power of two, so the arithmetic can be
//! carried out exactly on integers: a floating-point operation is the exact
//! operation followed by [`rounded`].
use vstd::arithmetic::div_mod::{
    lemma_div_denominator, lemma_fundamental_div_mod, lemma_mod_bound, lemma_mod_multiples_basic,
};
use vstd::arithmetic::power2::{
    lemma2_to64, lemma_pow2_adds, lemma_pow2_pos, lemma_pow2_strictly_increases, lemma_pow2_unfold,
    pow2,
};
use vstd::prelude::*;

verus! {

/// One more than the largest significand of a single-precision number.
pub const SINGLE: u128 = 0x100_0000;

/// One more than the largest significand of a double-precision number.
pub const DOUBLE: u128 = 0x20_0000_0000_0000;

/// Largest dividend that [`round_ratio`] takes.
pub const ROUND_MAX: u128 = 0x4000_0000_0000_0000_0000_0000_0000_0000;

/// Spacing of the representable numbers around `n`: the smallest power of two
/// `u` for which `n / u` is below `limit`.
pub open spec fn spacing(n: nat, limit: nat) -> nat
    decreases n,
{
    if n < limit || n == 0 {
        1
    } else {
        2 * spacing(n / 2, limit)
    }
}

/// The integer nearest to `n / d`; of two equally near ones, the even one.
pub open spec fn nearest(n: nat, d: nat) -> nat {
    let q = n / d;
    let r = n % d;
    if 2 * r < d || (2 * r == d && q % 2 == 0) {
        q
    } else {
        q + 1
    }
}

/// The representable number nearest to `n / d`, when significands are below
/// `limit`.
pub open spec fn rounded(n: nat, d: nat, limit: nat) -> nat {
    let u = spacing(n / d, limit);
    nearest(n, d * u) * u
}

/// The spacing is at least one, and no coarser than the significand's width
/// asks for.
pub proof fn lemma_spacing(n: nat, limit: nat)
    requires
        limit >= 2,
    ensures
        spacing(n, limit) >= 1,
        n < limit * spacing(n, limit),
        spacing(n, limit) == 1 || spacing(n, limit) * limit <= 2 * n,
    decreases n,
{
    if n < limit || n == 0 {
        assert(limit * 1 == limit);
    } else {
        lemma_spacing(n / 2, limit);
        let s = spacing(n / 2, limit);
        assert(limit * (2 * s) == 2 * (limit * s)) by (nonlinear_arith);
        assert((2 * s) * limit == 2 * (s * limit)) by (nonlinear_arith);
        if s == 1 {
            assert(s * limit == limit);
        }
    }
}

/// Halving before taking the spacing halves the spacing.
proof fn lemma_spacing_step(m: nat, u: nat, limit: nat)
    requires
        limit >= 2,
        u >= 1,
        m / u >= limit,
    ensures
        u * spacing(m / u, limit) == (2 * u) * spacing(m / (2 * u), limit),
{
    lemma_div_denominator(m as int, u as int, 2);
    assert(u * 2 == 2 * u);
    let s = spacing((m / u) / 2, limit);
    assert(u * (2 * s) == (2 * u) * s) by (nonlinear_arith);
}

/// Rounding to the nearest integer is off by at most one half.
pub proof fn lemma_nearest(n: nat, d: nat)
    requires
        d > 0,
    ensures
        2 * (nearest(n, d) * d - n) <= d,
        2 * (n - nearest(n, d) * d) <= d,
{
    let q = n / d;
    let r = n % d;
    lemma_fundamental_div_mod(n as int, d as int);
    assert(q * d == d * q) by (nonlinear_arith);
    assert((q + 1) * d == d * q + d) by (nonlinear_arith);
}

/// Rounding moves a quotient by at most half the spacing, which is either one
/// or a `limit`-th of twice the quotient.
pub proof fn lemma_rounded(n: nat, d: nat, limit: nat)
    requires
        d > 0,
        limit >= 2,
    ensures
        ({
            let u = spacing(n / d, limit);
            &&& u >= 1
            &&& 2 * (rounded(n, d, limit) * d - n) <= d * u
            &&& 2 * (n - rounded(n, d, limit) * d) <= d * u
            &&& u == 1 || (d * u) * limit <= 2 * n
        }),
{
    let u = spacing(n / d, limit);
    lemma_spacing(n / d, limit);
    assert(d * u > 0) by (nonlinear_arith)
        requires
            d > 0,
            u >= 1,
    ;
    lemma_nearest(n, d * u);
    let k = nearest(n, d * u);
    assert((k * u) * d == k * (d * u)) by (nonlinear_arith);
    if u != 1 {
        lemma_fundamental_div_mod(n as int, d as int);
        let q = n / d;
        assert((d * u) * limit == d * (u * limit)) by (nonlinear_arith);
        assert(d * (u * limit) <= d * (2 * q)) by (nonlinear_arith)
            requires
                u * limit <= 2 * q,
        ;
        assert(d * (2 * q) == 2 * (d * q)) by (nonlinear_arith);
    }
}

/// The spacing is a power of two: it divides every power of two that is large
/// enough to bring `n` below `limit`.
pub proof fn lemma_spacing_divides(n: nat, limit: nat, e: nat)
    requires
        limit >= 2,
        n < limit * pow2(e),
    ensures
        pow2(e) % spacing(n, limit) == 0,
    decreases n,
{
    lemma_spacing(n, limit);
    if n < limit || n == 0 {
    } else {
        if e == 0 {
            lemma2_to64();
        }
        let p = pow2((e - 1) as nat);
        lemma_pow2_unfold(e);
        assert(limit * (2 * p) == 2 * (limit * p)) by (nonlinear_arith);
        lemma_spacing_divides(n / 2, limit, (e - 1) as nat);
        let s = spacing(n / 2, limit);
        lemma_spacing(n / 2, limit);
        lemma_fundamental_div_mod(p as int, s as int);
        let k = p as int / s as int;
        assert(2 * (s * k) == (2 * s) * k) by (nonlinear_arith);
        lemma_mod_multiples_basic(k, 2 * s as int);
        assert(k * (2 * s) == (2 * s) * k) by (nonlinear_arith);
    }
}

/// Rounding to the nearest integer does not cross an integer.
pub proof fn lemma_nearest_bound(n: nat, d: nat, c: nat)
    requires
        d > 0,
    ensures
        n <= c * d ==> nearest(n, d) <= c,
        n >= c * d ==> nearest(n, d) >= c,
{
    let q = n / d;
    let r = n % d;
    lemma_fundamental_div_mod(n as int, d as int);
    assert(d * q == q * d) by (nonlinear_arith);
    if n <= c * d {
        assert(q <= c) by (nonlinear_arith)
            requires
                q * d <= c * d,
                d > 0,
        ;
        if q == c {
            assert(r == 0);
        }
    }
    if n >= c * d {
        assert(q >= c) by (nonlinear_arith)
            requires
                (q * d) + r >= c * d,
                r < d,
                d > 0,
        ;
    }
}

/// Rounding does not cross a number that is representable: if `c * 2^e` lies on
/// one side of `n / d`, it stays there.
pub proof fn lemma_rounded_bound(n: nat, d: nat, limit: nat, c: nat, e: nat)
    requires
        d > 0,
        limit >= 2,
        n / d < limit * pow2(e),
    ensures
        n <= (c * pow2(e)) * d ==> rounded(n, d, limit) <= c * pow2(e),
        n >= (c * pow2(e)) * d ==> rounded(n, d, limit) >= c * pow2(e),
{
    let u = spacing(n / d, limit);
    lemma_spacing(n / d, limit);
    lemma_spacing_divides(n / d, limit, e);
    lemma_fundamental_div_mod(pow2(e) as int, u as int);
    let k = (pow2(e) as int / u as int) as nat;
    assert(c * (u * k) == (c * k) * u) by (nonlinear_arith);
    assert((((c * k) * u) * d) == (c * k) * (d * u)) by (nonlinear_arith);
    assert(d * u > 0) by (nonlinear_arith)
        requires
            d > 0,
            u >= 1,
    ;
    lemma_nearest_bound(n, d * u, c * k);
    let x = nearest(n, d * u);
    if n <= (c * pow2(e)) * d {
        assert(x * u <= (c * k) * u) by (nonlinear_arith)
            requires
                x <= c * k,
        ;
    }
    if n >= (c * pow2(e)) * d {
        assert(x * u >= (c * k) * u) by (nonlinear_arith)
            requires
                x >= c * k,
        ;
    }
}

/// The spacing is a power of two.
pub proof fn lemma_spacing_is_power(n: nat, limit: nat) -> (e: nat)
    requires
        limit >= 2,
    ensures
        spacing(n, limit) == pow2(e),
    decreases n,
{
    if n < limit || n == 0 {
        lemma2_to64();
        0
    } else {
        let e = lemma_spacing_is_power(n / 2, limit);
        lemma_pow2_unfold(e + 1);
        e + 1
    }
}

/// The spacing of larger numbers is the same or at least twice as wide.
proof fn lemma_spacing_grows(n: nat, m: nat, limit: nat)
    requires
        limit >= 2,
        n <= m,
    ensures
        spacing(n, limit) == spacing(m, limit) || 2 * spacing(n, limit) <= spacing(m, limit),
    decreases m,
{
    if m < limit {
    } else if n < limit {
        lemma_spacing(m / 2, limit);
    } else {
        lemma_spacing_grows(n / 2, m / 2, limit);
    }
}

/// Rounding to the nearest integer keeps the order.
proof fn lemma_nearest_grows(n: nat, m: nat, d: nat)
    requires
        d > 0,
        n <= m,
    ensures
        nearest(n, d) <= nearest(m, d),
{
    lemma_fundamental_div_mod(n as int, d as int);
    lemma_fundamental_div_mod(m as int, d as int);
    let (q1, r1) = (n / d, n % d);
    let (q2, r2) = (m / d, m % d);
    assert(q1 <= q2) by (nonlinear_arith)
        requires
            d * q1 + r1 <= d * q2 + r2,
            r2 < d,
            0 <= r1,
            d > 0,
    ;
}

/// Rounding keeps the order.
pub proof fn lemma_rounded_grows(n: nat, m: nat, d: nat, limit: nat)
    requires
        d > 0,
        limit >= 2,
        limit % 2 == 0,
        n <= m,
    ensures
        rounded(n, d, limit) <= rounded(m, d, limit),
{
    let (q1, q2) = (n / d, m / d);
    vstd::arithmetic::div_mod::lemma_div_is_ordered(n as int, m as int, d as int);
    let (u1, u2) = (spacing(q1, limit), spacing(q2, limit));
    lemma_spacing(q1, limit);
    lemma_spacing(q2, limit);
    lemma_spacing_grows(q1, q2, limit);
    if u1 == u2 {
        assert(d * u1 > 0) by (nonlinear_arith)
            requires
                d > 0,
                u1 >= 1,
        ;
        lemma_nearest_grows(n, m, d * u1);
        let (x, y) = (nearest(n, d * u1), nearest(m, d * u1));
        assert(x * u1 <= y * u1) by (nonlinear_arith)
            requires
                x <= y,
        ;
    } else {
        let e = lemma_spacing_is_power(q2, limit);
        let c = limit / 2;
        lemma_fundamental_div_mod(n as int, d as int);
        lemma_fundamental_div_mod(m as int, d as int);
        assert(n <= (c * u2) * d) by (nonlinear_arith)
            requires
                n < d * q1 + d,
                q1 + 1 <= limit * u1,
                2 * u1 <= u2,
                limit == 2 * c,
                d > 0,
        ;
        assert(m >= (c * u2) * d) by (nonlinear_arith)
            requires
                m >= d * q2,
                u2 * limit <= 2 * q2,
                limit == 2 * c,
                d > 0,
        ;
        lemma_rounded_bound(n, d, limit, c, e);
        lemma_rounded_bound(m, d, limit, c, e);
    }
}

/// Rounds `n / d` to the nearest number with a significand below `limit`.
pub fn round_ratio(n: u128, d: u128, limit: u128) -> (r: u128)
    requires
        0 < d,
        2 <= limit,
        n <= ROUND_MAX,
    ensures
        r == rounded(n as nat, d as nat, limit as nat),
{
    let m: u128 = n / d;
    let mut u: u128 = 1;
    proof {
        assert(m as nat / 1 == m as nat);
        assert(1 * spacing(m as nat, limit as nat) == spacing(m as nat, limit as nat));
    }
    while m / u >= limit
        invariant
            1 <= u,
            u == 1 || 2 * u * limit <= 4 * m,
            2 <= limit,
            m <= n <= ROUND_MAX,
            spacing(m as nat, limit as nat) == u as nat * spacing(m as nat / u as nat, limit as nat),
        decreases m / u,
    {
        proof {
            lemma_spacing_step(m as nat, u as nat, limit as nat);
            lemma_div_denominator(m as int, u as int, 2);
            lemma_fundamental_div_mod(m as int, u as int);
            let q = m as int / u as int;
            assert(u as int * limit as int <= u as int * q) by (nonlinear_arith)
                requires
                    limit as int <= q,
                    u >= 1,
            ;
            assert(u as int * 2 <= u as int * limit as int) by (nonlinear_arith)
                requires
                    limit >= 2,
                    u >= 1,
            ;
            assert(2 * (2 * u) * limit == 4 * (u as int * limit as int)) by (nonlinear_arith);
        }
        u = 2 * u;
    }
    proof {
        assert(spacing(m as nat / u as nat, limit as nat) == 1);
        assert(u as nat * 1 == u as nat);
        lemma_rounded(n as nat, d as nat, limit as nat);
        lemma_fundamental_div_mod(n as int, d as int);
        assert(d as int * u as int <= 2 * n as int || u == 1) by {
            if u != 1 {
                assert((d as int * u as int) * 2 <= (d as int * u as int) * limit as int)
                    by (nonlinear_arith)
                    requires
                        limit >= 2,
                        d as int * u as int >= 0,
                ;
            }
        }
        assert(d as int * 1 == d as int);
        assert(d as int * u as int > 0) by (nonlinear_arith)
            requires
                d > 0,
                u >= 1,
        ;
    }
    let du: u128 = d * u;
    let q: u128 = n / du;
    let r: u128 = n % du;
    proof {
        lemma_fundamental_div_mod(n as int, du as int);
        lemma_mod_bound(n as int, du as int);
        assert(q as int * u as int <= n as int) by (nonlinear_arith)
            requires
                du as int * q as int <= n as int,
                du as int == d as int * u as int,
                d >= 1,
                q >= 0,
                u >= 1,
        ;
        assert((q + 1) * u == q * u + u) by (nonlinear_arith);
        assert(u as int <= 2 * n as int || u == 1) by {
            assert(u as int <= d as int * u as int) by (nonlinear_arith)
                requires
                    d >= 1,
                    u >= 1,
            ;
        }
    }
    if r < du - r || (r == du - r && q % 2 == 0) {
        q * u
    } else {
        (q + 1) * u
    }
}

/// A rounded quotient is a number with a significand of the given width, and no
/// other such number is closer to the quotient.
pub proof fn law_rounded_is_closest(n: nat, d: nat, limit: nat, m: nat, e: nat)
    requires
        d > 0,
        limit >= 2,
        limit % 2 == 0,
        m < limit,
    ensures
        exists|c: nat, t: nat| c <= limit && rounded(n, d, limit) == #[trigger] (c * pow2(t)),
        ({
            let r = rounded(n, d, limit) * d;
            let v = (m * pow2(e)) * d;
            &&& r - n <= v - n || r - n <= n - v
            &&& n - r <= v - n || n - r <= n - v
        }),
{
    let q = n / d;
    let u = spacing(q, limit);
    lemma_spacing(q, limit);
    let t = lemma_spacing_is_power(q, limit);
    let du = d * u;
    assert(du > 0) by (nonlinear_arith)
        requires
            du == d * u,
            d > 0,
            u >= 1,
    ;
    let k = nearest(n, du);
    lemma_fundamental_div_mod(n as int, d as int);
    assert(n <= limit * du) by (nonlinear_arith)
        requires
            n < d * q + d,
            q + 1 <= limit * u,
            d > 0,
            du == d * u,
    ;
    lemma_nearest_bound(n, du, limit);
    assert(rounded(n, d, limit) == k * pow2(t));
    assert((k * u) * d == k * du) by (nonlinear_arith)
        requires
            du == d * u,
    ;
    if e >= t {
        lemma_pow2_adds(t, (e - t) as nat);
        let j = m * pow2((e - t) as nat);
        assert((m * pow2(e)) * d == j * du) by (nonlinear_arith)
            requires
                pow2(e) == u * pow2((e - t) as nat),
                j == m * pow2((e - t) as nat),
                du == d * u,
        ;
        lemma_nearest_is_nearest(n, du, j);
    } else {
        lemma_pow2_unfold(t);
        let half = pow2((t - 1) as nat);
        if e < t - 1 {
            lemma_pow2_strictly_increases(e, (t - 1) as nat);
        }
        let j = limit / 2;
        assert(j * u == limit * half) by (nonlinear_arith)
            requires
                limit == 2 * j,
                u == 2 * half,
        ;
        lemma_pow2_pos(e);
        assert(m * pow2(e) <= j * u) by (nonlinear_arith)
            requires
                j * u == limit * half,
                m < limit,
                pow2(e) <= half,
        ;
        let v = (m * pow2(e)) * d;
        assert(v <= j * du) by (nonlinear_arith)
            requires
                v == (m * pow2(e)) * d,
                m * pow2(e) <= j * u,
                du == d * u,
        ;
        assert(limit * half == half * limit && u * limit == 2 * (half * limit)) by (nonlinear_arith)
            requires
                u == 2 * half,
        ;
        assert(j * du <= n) by (nonlinear_arith)
            requires
                j * u == limit * half,
                2 * (limit * half) <= 2 * q,
                n >= d * q,
                du == d * u,
                d > 0,
        ;
        lemma_nearest_is_nearest(n, du, j);
    }
}

/// No multiple of `d` is closer to `n` than the nearest one.
proof fn lemma_nearest_is_nearest(n: nat, d: nat, j: nat)
    requires
        d > 0,
    ensures
        ({
            let r = nearest(n, d) * d;
            let v = j * d;
            &&& r - n <= v - n || r - n <= n - v
            &&& n - r <= v - n || n - r <= n - v
        }),
{
    let k = nearest(n, d);
    lemma_nearest(n, d);
    if j > k {
        assert(j * d >= k * d + d) by (nonlinear_arith)
            requires
                j >= k + 1,
        ;
    } else if j < k {
        assert(j * d + d <= k * d) by (nonlinear_arith)
            requires
                j + 1 <= k,
        ;
    }
}

/// A quotient halfway between two neighbouring integers is rounded to the even one.
pub proof fn law_halfway_is_even(k: nat, d: nat)
    requires
        d > 0,
    ensures
        nearest((2 * k + 1) * d, 2 * d) == if k % 2 == 0 {
            k
        } else {
            k + 1
        },
{
    let n = (2 * k + 1) * d;
    assert(n == k * (2 * d) + d) by (nonlinear_arith)
        requires
            n == (2 * k + 1) * d,
    ;
    vstd::arithmetic::div_mod::lemma_fundamental_div_mod_converse(
        n as int,
        (2 * d) as int,
        k as int,
        d as int,
    );
}

/// Rounding to single precision is off by at most one part in `2^24`, or by half a
/// unit.
pub proof fn lemma_single_error(n: nat, d: nat)
    requires
        d > 0,
    ensures
        ({
            let r = rounded(n, d, SINGLE as nat) * d;
            &&& 0x100_0000 * (r - n) <= n || 2 * (r - n) <= d
            &&& 0x100_0000 * (n - r) <= n || 2 * (n - r) <= d
        }),
{
    lemma_rounded(n, d, SINGLE as nat);
    let u = spacing(n / d, SINGLE as nat);
    assert((d * u) * SINGLE as nat == (d * u) * 0x100_0000) by (nonlinear_arith);
    if u == 1 {
        assert(d * u == d) by (nonlinear_arith)
            requires
                u == 1,
        ;
    }
}

/// A number halfway between two neighbouring numbers with significands of the given
/// width is rounded to the one with the even significand.
pub proof fn law_halfway_is_rounded_to_even(m: nat, e: nat, d: nat, limit: nat)
    requires
        d > 0,
        limit >= 2,
        limit <= 2 * m,
        m < limit,
        e > 0,
    ensures
        rounded((2 * m + 1) * pow2((e - 1) as nat) * d, d, limit) == (if m % 2 == 0 {
            m
        } else {
            m + 1
        }) * pow2(e),
{
    let half = pow2((e - 1) as nat);
    lemma_pow2_pos((e - 1) as nat);
    lemma_pow2_unfold(e);
    let q = (2 * m + 1) * half;
    let n = q * d;
    assert(n / d == q) by {
        vstd::arithmetic::div_mod::lemma_div_by_multiple(q as int, d as int);
    }
    let u = spacing(q, limit);
    lemma_spacing(q, limit);
    let t = lemma_spacing_is_power(q, limit);
    if t < e {
        if t < e - 1 {
            lemma_pow2_strictly_increases(t, (e - 1) as nat);
        }
        assert(limit * u <= q) by (nonlinear_arith)
            requires
                u <= half,
                limit <= 2 * m,
                q == (2 * m + 1) * half,
        ;
    }
    if t > e {
        if t > e + 1 {
            lemma_pow2_strictly_increases(e + 1, t);
        }
        lemma_pow2_unfold(e + 1);
        assert(u * limit > 2 * q) by (nonlinear_arith)
            requires
                u >= 4 * half,
                m < limit,
                half > 0,
                q == (2 * m + 1) * half,
        ;
        if u == 1 {
            lemma_pow2_pos(e);
        }
    }
    assert(u == 2 * half);
    let du = d * half;
    assert(n == (2 * m + 1) * du) by (nonlinear_arith)
        requires
            n == q * d,
            q == (2 * m + 1) * half,
            du == d * half,
    ;
    assert(d * u == 2 * du) by (nonlinear_arith)
        requires
            u == 2 * half,
            du == d * half,
    ;
    assert(du > 0) by (nonlinear_arith)
        requires
            du == d * half,
            d > 0,
            half > 0,
    ;
    law_halfway_is_even(m, du);
}

} // verus!
