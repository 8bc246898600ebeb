//! Fitting pictures into a box without changing their proportions.
//!
//! The scale factor is a double-precision number: the smaller one of the two
//! quotients of box and picture, width by width and height by height. It is kept
//! in units of `2^-84`, of which every such quotient is a whole multiple.
use crate::picture::{
    can_resample, decoded_resize, decoded_resized, decoded_rgba, read_rgba, resampled, resize,
    Picture, SAMPLE_MAX,
};
use crate::raster::{at_least_one, lemma_area, Raster};
use crate::rounding::{
    lemma_rounded, lemma_rounded_bound, round_ratio, rounded, DOUBLE,
};
use vstd::arithmetic::power2::{lemma2_to64, lemma2_to64_rest, lemma_pow2_adds, pow2};
use vstd::prelude::*;

verus! {

/// Number of units in the scale factor one.
pub const FACTOR_ONE: u128 = 0x10_0000_0000_0000_0000_0000;

/// A picture of `w` by `h` pixels lies within the box.
pub open spec fn fits(w: int, h: int, max_w: int, max_h: int) -> bool {
    w <= max_w && h <= max_h
}

/// The double-precision quotient `max / side`, in units.
pub open spec fn side_factor(max: nat, side: nat) -> nat {
    rounded(max * FACTOR_ONE as nat, side, DOUBLE as nat)
}

/// The smaller one of the two quotients; a picture without a row or a column
/// has only the other one.
pub open spec fn fit_factor(w: nat, h: nat, max_w: nat, max_h: nat) -> nat {
    if w == 0 || (h > 0 && side_factor(max_h, h) < side_factor(max_w, w)) {
        side_factor(max_h, h)
    } else {
        side_factor(max_w, w)
    }
}

/// The whole part of the double-precision product of a side and a factor, but
/// at least one pixel.
pub open spec fn scaled_side(side: nat, factor: nat) -> nat {
    let whole = rounded(side * factor, 1, DOUBLE as nat) / FACTOR_ONE as nat;
    if whole < 1 {
        1
    } else {
        whole
    }
}

/// The size of a picture once it is scaled into the box. A picture that fits is
/// not enlarged.
pub open spec fn fitted(w: nat, h: nat, max_w: nat, max_h: nat) -> (nat, nat) {
    if fits(w as int, h as int, max_w as int, max_h as int) {
        (w, h)
    } else {
        let factor = fit_factor(w, h, max_w, max_h);
        (scaled_side(w, factor), scaled_side(h, factor))
    }
}

proof fn lemma_factor_one()
    ensures
        pow2(84) == FACTOR_ONE,
{
    lemma2_to64();
    lemma2_to64_rest();
    lemma_pow2_adds(64, 20);
    assert(pow2(64) == 0x1_0000_0000_0000_0000);
    assert(pow2(20) == 0x10_0000);
}

/// Rounding to double precision is off by at most one part in `2^53`.
proof fn lemma_double(n: nat)
    ensures
        rounded(n, 1, DOUBLE as nat) * 0x20_0000_0000_0000 <= n * 0x20_0000_0000_0001,
        rounded(n, 1, DOUBLE as nat) * 0x20_0000_0000_0000 >= n * 0x1f_ffff_ffff_ffff,
{
    lemma_rounded(n, 1, DOUBLE as nat);
    assert(n / 1 == n);
    let u = crate::rounding::spacing(n, DOUBLE as nat);
    assert((1 * u) * DOUBLE as nat == u * 0x20_0000_0000_0000) by (nonlinear_arith);
}

/// The quotient of two sides is off by at most one part in `2^53`.
proof fn lemma_side_factor(max: nat, side: nat)
    requires
        max <= u32::MAX,
        1 <= side <= u32::MAX,
    ensures
        (side_factor(max, side) * side) * 0x20_0000_0000_0000 <= (max * 0x10_0000_0000_0000_0000_0000) * 0x20_0000_0000_0001,
        (side_factor(max, side) * side) * 0x20_0000_0000_0000 >= (max * 0x10_0000_0000_0000_0000_0000) * 0x1f_ffff_ffff_ffff,
        max == 0 ==> side_factor(max, side) == 0,
        max <= side ==> side_factor(max, side) <= FACTOR_ONE,
{
    let n = max * FACTOR_ONE as nat;
    let f = side_factor(max, side);
    assert(n == max * 0x10_0000_0000_0000_0000_0000) by (nonlinear_arith)
        requires
            n == max * FACTOR_ONE as nat,
    ;
    lemma_rounded(n, side, DOUBLE as nat);
    let u = crate::rounding::spacing(n / side, DOUBLE as nat);
    assert((side * u) * DOUBLE as nat == (side * u) * 0x20_0000_0000_0000) by (nonlinear_arith);
    if u == 1 {
        assert(side * u == side) by (nonlinear_arith)
            requires
                u == 1,
        ;
    }
    if max == 0 {
        assert(0nat / side == 0) by {
            vstd::arithmetic::div_mod::lemma_div_basics(side as int);
        }
        assert(f == 0 && f * side == 0) by (nonlinear_arith)
            requires
                2 * (f * side) <= side,
                side >= 1,
        ;
    }
    if max <= side {
        lemma_factor_one();
        assert(n <= (1 * pow2(84)) * side) by (nonlinear_arith)
            requires
                n == max * FACTOR_ONE as nat,
                pow2(84) == FACTOR_ONE as nat,
                max <= side,
        ;
        assert(n / side <= pow2(84)) by (nonlinear_arith)
            requires
                n <= (1 * pow2(84)) * side,
                side > 0,
        ;
        assert(pow2(84) < DOUBLE as nat * pow2(84)) by (nonlinear_arith)
            requires
                pow2(84) == FACTOR_ONE as nat,
        ;
        lemma_rounded_bound(n, side, DOUBLE as nat, 1, 84);
    }
}

/// A side scaled by no more than its own quotient comes out no longer than the
/// box, or one pixel long.
proof fn lemma_scaled_side_fits(side: nat, max: nat, factor: nat)
    requires
        side <= u32::MAX,
        max <= u32::MAX,
        side > 0 ==> factor <= side_factor(max, side),
    ensures
        scaled_side(side, factor) <= at_least_one(max as int),
{
    let n = side * factor;
    let p = rounded(n, 1, DOUBLE as nat);
    lemma_double(n);
    if side == 0 {
        assert(n == 0) by (nonlinear_arith)
            requires
                n == side * factor,
                side == 0,
        ;
    } else {
        let f = side_factor(max, side);
        lemma_side_factor(max, side);
        assert(n <= f * side) by (nonlinear_arith)
            requires
                n == side * factor,
                factor <= f,
        ;
        assert(n * 0x20_0000_0000_0000 <= (max * 0x10_0000_0000_0000_0000_0000) * 0x20_0000_0000_0001);
    }
    assert(p < (max + 1) * 0x10_0000_0000_0000_0000_0000);
    assert(p / FACTOR_ONE as nat <= max);
}

/// A side scaled by no more than one does not grow, beyond the one pixel that
/// every side has.
proof fn lemma_scaled_side_shrinks(side: nat, factor: nat)
    requires
        side <= u32::MAX,
        factor <= FACTOR_ONE,
    ensures
        scaled_side(side, factor) <= at_least_one(side as int),
{
    let n = side * factor;
    lemma_factor_one();
    assert(n <= side * pow2(84)) by (nonlinear_arith)
        requires
            n == side * factor,
            factor <= pow2(84),
    ;
    assert(n / 1 == n);
    lemma_rounded_bound(n, 1, DOUBLE as nat, side, 84);
}

/// A scaled picture lies within the box, except that it keeps at least one
/// pixel each way.
pub proof fn law_fitted_lies_in_box(w: u32, h: u32, max_w: u32, max_h: u32)
    ensures
        fitted(w as nat, h as nat, max_w as nat, max_h as nat).0 <= at_least_one(max_w as int),
        fitted(w as nat, h as nat, max_w as nat, max_h as nat).1 <= at_least_one(max_h as int),
{
    if !fits(w as int, h as int, max_w as int, max_h as int) {
        let factor = fit_factor(w as nat, h as nat, max_w as nat, max_h as nat);
        lemma_scaled_side_fits(w as nat, max_w as nat, factor);
        lemma_scaled_side_fits(h as nat, max_h as nat, factor);
    }
}

/// A side scaled by its own quotient reaches the box but for one pixel.
proof fn lemma_scaled_side_reaches(side: nat, max: nat)
    requires
        1 <= side <= u32::MAX,
        max <= u32::MAX,
    ensures
        max <= scaled_side(side, side_factor(max, side)) + 1,
{
    let f = side_factor(max, side);
    let n = side * f;
    let p = rounded(n, 1, DOUBLE as nat);
    lemma_side_factor(max, side);
    lemma_double(n);
    assert(n == f * side) by (nonlinear_arith)
        requires
            n == side * f,
    ;
    if max >= 2 {
        assert(p >= (max - 1) * 0x10_0000_0000_0000_0000_0000);
        assert(p / FACTOR_ONE as nat >= max - 1);
    }
}

/// A picture that is too large for the box is made no smaller than needed: one of
/// its sides is as long as the box allows, or one pixel shorter.
pub proof fn law_fitted_reaches_the_box(w: u32, h: u32, max_w: u32, max_h: u32)
    requires
        !fits(w as int, h as int, max_w as int, max_h as int),
    ensures
        ({
            let (nw, nh) = fitted(w as nat, h as nat, max_w as nat, max_h as nat);
            max_w - nw <= 1 || max_h - nh <= 1
        }),
{
    if w > 0 {
        lemma_scaled_side_reaches(w as nat, max_w as nat);
    }
    if h > 0 {
        lemma_scaled_side_reaches(h as nat, max_h as nat);
    }
}

/// Scaling into a box never enlarges a picture, except that a missing row or
/// column becomes one pixel.
pub proof fn law_fitted_shrinks(w: u32, h: u32, max_w: u32, max_h: u32)
    ensures
        fitted(w as nat, h as nat, max_w as nat, max_h as nat).0 <= at_least_one(w as int),
        fitted(w as nat, h as nat, max_w as nat, max_h as nat).1 <= at_least_one(h as int),
{
    if !fits(w as int, h as int, max_w as int, max_h as int) {
        let factor = fit_factor(w as nat, h as nat, max_w as nat, max_h as nat);
        if w > max_w {
            lemma_side_factor(max_w as nat, w as nat);
        }
        if h > max_h {
            lemma_side_factor(max_h as nat, h as nat);
        }
        lemma_scaled_side_shrinks(w as nat, factor);
        lemma_scaled_side_shrinks(h as nat, factor);
    }
}

/// A factor that makes the first side `na` pixels and the second `nb` pixels long
/// keeps `na / nb` close to `a / b` from above.
proof fn lemma_proportion(a: nat, b: nat, factor: nat, na: nat, nb: nat)
    requires
        a <= u32::MAX,
        factor <= FACTOR_ONE,
        na == scaled_side(a, factor),
        nb == scaled_side(b, factor),
    ensures
        na * b <= nb * a + a + b,
{
    lemma_double(a * factor);
    lemma_double(b * factor);
    if na == 1 {
        assert(na * b == b && nb * a >= 0) by (nonlinear_arith)
            requires
                na == 1,
        ;
    } else {
        let x = (a * factor) * b;
        assert((na * 0x10_0000_0000_0000_0000_0000) * 0x20_0000_0000_0000 <= (a * factor) * 0x20_0000_0000_0001);
        assert(((nb + 1) * 0x10_0000_0000_0000_0000_0000) * 0x20_0000_0000_0000 >= (b * factor) * 0x1f_ffff_ffff_ffff);
        assert(((na * b) * 0x10_0000_0000_0000_0000_0000) * 0x20_0000_0000_0000 <= x * 0x20_0000_0000_0001) by (nonlinear_arith)
            requires
                (na * 0x10_0000_0000_0000_0000_0000) * 0x20_0000_0000_0000 <= (a * factor) * 0x20_0000_0000_0001,
                x == (a * factor) * b,
        ;
        assert(((nb * a + a) * 0x10_0000_0000_0000_0000_0000) * 0x20_0000_0000_0000 >= x * 0x1f_ffff_ffff_ffff) by (nonlinear_arith)
            requires
                ((nb + 1) * 0x10_0000_0000_0000_0000_0000) * 0x20_0000_0000_0000 >= (b * factor) * 0x1f_ffff_ffff_ffff,
                x == (a * factor) * b,
        ;
        assert(x <= (b * 0x1_0000_0000) * 0x10_0000_0000_0000_0000_0000) by (nonlinear_arith)
            requires
                x == (a * factor) * b,
                a <= 0x1_0000_0000,
                factor <= 0x10_0000_0000_0000_0000_0000,
        ;
    }
}

/// Scaling keeps the proportions of a picture: width by height differs from what
/// it was by less than one pixel each way.
pub proof fn law_fitted_keeps_proportions(w: u32, h: u32, max_w: u32, max_h: u32)
    ensures
        ({
            let (nw, nh) = fitted(w as nat, h as nat, max_w as nat, max_h as nat);
            &&& nw * h <= nh * w + w + h
            &&& nh * w <= nw * h + w + h
        }),
{
    let (nw, nh) = fitted(w as nat, h as nat, max_w as nat, max_h as nat);
    if !fits(w as int, h as int, max_w as int, max_h as int) {
        let factor = fit_factor(w as nat, h as nat, max_w as nat, max_h as nat);
        if w > max_w {
            lemma_side_factor(max_w as nat, w as nat);
        }
        if h > max_h {
            lemma_side_factor(max_h as nat, h as nat);
        }
        lemma_proportion(w as nat, h as nat, factor, nw, nh);
        lemma_proportion(h as nat, w as nat, factor, nh, nw);
    } else {
        assert(w as nat * h as nat == h as nat * w as nat) by (nonlinear_arith);
    }
}

/// The double-precision quotient `max / side` in units.
fn compute_side_factor(max: u32, side: u32) -> (r: u128)
    requires
        side > 0,
    ensures
        r == side_factor(max as nat, side as nat),
{
    round_ratio(max as u128 * FACTOR_ONE, side as u128, DOUBLE)
}

/// The scaled length of a side.
fn compute_scaled_side(side: u32, factor: u128) -> (r: u32)
    requires
        factor <= FACTOR_ONE,
    ensures
        r == scaled_side(side as nat, factor as nat),
{
    proof {
        lemma_scaled_side_shrinks(side as nat, factor as nat);
        assert(side as nat * factor as nat <= u32::MAX as nat * FACTOR_ONE as nat)
            by (nonlinear_arith)
            requires
                side <= u32::MAX,
                factor <= FACTOR_ONE,
        ;
    }
    let whole: u128 = round_ratio(side as u128 * factor, 1, DOUBLE) / FACTOR_ONE;
    if whole < 1 {
        1
    } else {
        whole as u32
    }
}

/// The size of a picture of `w` by `h` pixels once it is scaled into a box.
pub fn fit_size(w: u32, h: u32, max_w: u32, max_h: u32) -> (r: (u32, u32))
    ensures
        (r.0 as nat, r.1 as nat) == fitted(w as nat, h as nat, max_w as nat, max_h as nat),
{
    if w <= max_w && h <= max_h {
        return (w, h);
    }
    proof {
        if w > max_w {
            lemma_side_factor(max_w as nat, w as nat);
        }
        if h > max_h {
            lemma_side_factor(max_h as nat, h as nat);
        }
    }
    let factor: u128 = if w == 0 {
        compute_side_factor(max_h, h)
    } else {
        let across: u128 = compute_side_factor(max_w, w);
        if h == 0 {
            across
        } else {
            let down: u128 = compute_side_factor(max_h, h);
            if down < across {
                down
            } else {
                across
            }
        }
    };
    (compute_scaled_side(w, factor), compute_scaled_side(h, factor))
}

/// A picture can be scaled into the box: it fits already, or can be resampled to
/// the size that it then has.
pub open spec fn can_scale(w: u32, h: u32, max_w: u32, max_h: u32) -> bool {
    let (nw, nh) = fitted(w as nat, h as nat, max_w as nat, max_h as nat);
    fits(w as int, h as int, max_w as int, max_h as int) || can_resample(
        w as int,
        h as int,
        nw as int,
        nh as int,
    )
}

/// Whether a picture can be resampled to another size.
fn is_resamplable(w: u32, h: u32, nw: u32, nh: u32) -> (r: bool)
    ensures
        r == can_resample(w as int, h as int, nw as int, nh as int),
{
    proof {
        lemma_area(w as int, nh as int);
        lemma_area(nw as int, nh as int);
        assert(w as int * nh as int <= 0xffff_ffff * 0xffff_ffff && nw as int * nh as int
            <= 0xffff_ffff * 0xffff_ffff) by (nonlinear_arith)
            requires
                0 <= w <= 0xffff_ffff,
                0 <= nw <= 0xffff_ffff,
                0 <= nh <= 0xffff_ffff,
        ;
    }
    let most: u128 = isize::MAX as u128;
    let small: bool = w == 0 || h == 0 || (nw <= SAMPLE_MAX && nh <= SAMPLE_MAX);
    1 <= nw && 1 <= nh && w as u128 * nh as u128 * 16 <= most && nw as u128 * nh as u128 * 16
        <= most && small
}

/// Whether a picture of `w` by `h` pixels can be scaled into a box.
pub fn is_scalable(w: u32, h: u32, max_w: u32, max_h: u32) -> (r: bool)
    ensures
        r == can_scale(w, h, max_w, max_h),
{
    if w <= max_w && h <= max_h {
        return true;
    }
    let (nw, nh): (u32, u32) = fit_size(w, h, max_w, max_h);
    is_resamplable(w, h, nw, nh)
}

/// Every picture can be scaled into every box of ordinary size, on a machine with
/// addresses of 64 bits.
pub proof fn law_every_picture_can_be_scaled(w: u32, h: u32, max_w: u32, max_h: u32)
    requires
        max_w <= 0x80_0000,
        max_h <= 0x80_0000,
        isize::MAX == 0x7fff_ffff_ffff_ffff,
    ensures
        can_scale(w, h, max_w, max_h),
{
    let (nw, nh) = fitted(w as nat, h as nat, max_w as nat, max_h as nat);
    law_fitted_lies_in_box(w, h, max_w, max_h);
    assert(w as int * nh as int <= 0xffff_ffff * 0x80_0000 && nw as int * nh as int <= 0x80_0000
        * 0x80_0000) by (nonlinear_arith)
        requires
            0 <= w <= 0xffff_ffff,
            0 <= nw <= 0x80_0000,
            0 <= nh <= 0x80_0000,
    ;
}

/// `r` is `img`, taken to the size that a picture of `w` by `h` pixels has once
/// it is scaled into the box.
pub open spec fn is_scaled(
    r: &Raster,
    img: &Raster,
    w: u32,
    h: u32,
    max_w: u32,
    max_h: u32,
) -> bool {
    &&& r.wf()
    &&& if fits(w as int, h as int, max_w as int, max_h as int) {
        r.same(img)
    } else {
        &&& (r.width as nat, r.height as nat) == fitted(
            w as nat,
            h as nat,
            max_w as nat,
            max_h as nat,
        )
        &&& r.data@ == resampled(img.width, img.height, img.data@, r.width, r.height)
    }
}

/// Scales a picture to lie within `max_w` by `max_h` pixels, keeping its
/// proportions. A picture that fits stays as it is.
pub fn scale_rgba(img: &Raster, max_w: u32, max_h: u32) -> (r: Raster)
    requires
        img.wf(),
        can_scale(img.width, img.height, max_w, max_h),
    ensures
        is_scaled(&r, img, img.width, img.height, max_w, max_h),
        (r.width as nat, r.height as nat) == fitted(
            img.width as nat,
            img.height as nat,
            max_w as nat,
            max_h as nat,
        ),
{
    if img.width <= max_w && img.height <= max_h {
        return img.duplicate();
    }
    let (w, h): (u32, u32) = fit_size(img.width, img.height, max_w, max_h);
    resize(img, w, h)
}

/// Scales two pictures by the factor that takes the first one into the box, so
/// that pictures of one size stay of one size.
pub fn scale_pair(a: &Raster, b: &Raster, max_w: u32, max_h: u32) -> (r: (Raster, Raster))
    requires
        a.wf(),
        b.wf(),
        fits(a.width as int, a.height as int, max_w as int, max_h as int) || ({
            let (nw, nh) = fitted(a.width as nat, a.height as nat, max_w as nat, max_h as nat);
            &&& can_resample(a.width as int, a.height as int, nw as int, nh as int)
            &&& can_resample(b.width as int, b.height as int, nw as int, nh as int)
        }),
    ensures
        is_scaled(&r.0, a, a.width, a.height, max_w, max_h),
        is_scaled(&r.1, b, a.width, a.height, max_w, max_h),
        (r.0.width as nat, r.0.height as nat) == fitted(
            a.width as nat,
            a.height as nat,
            max_w as nat,
            max_h as nat,
        ),
        a.width == b.width && a.height == b.height ==> r.0.width == r.1.width && r.0.height
            == r.1.height,
{
    if a.width <= max_w && a.height <= max_h {
        return (a.duplicate(), b.duplicate());
    }
    let (w, h): (u32, u32) = fit_size(a.width, a.height, max_w, max_h);
    (resize(a, w, h), resize(b, w, h))
}

/// `r` is what a decoded picture looks like once it is scaled into a box.
pub open spec fn is_thumbnail(r: &Raster, img: &Picture, max_w: u32, max_h: u32) -> bool {
    &&& r.wf()
    &&& (r.width as nat, r.height as nat) == fitted(
        img.rgba.width as nat,
        img.rgba.height as nat,
        max_w as nat,
        max_h as nat,
    )
    &&& r.data@ == if fits(
        img.rgba.width as int,
        img.rgba.height as int,
        max_w as int,
        max_h as int,
    ) {
        img.rgba.data@
    } else {
        decoded_rgba(decoded_resized(img.source, r.width, r.height))
    }
}

/// Scales a decoded picture to lie within `max_w` by `max_h` pixels, keeping its
/// proportions, and gives its pixels. The picture is resampled in its own colour
/// type.
pub fn scale_dynamic(img: &Picture, max_w: u32, max_h: u32) -> (r: Raster)
    requires
        img.wf(),
        can_scale(img.rgba.width, img.rgba.height, max_w, max_h),
    ensures
        is_thumbnail(&r, img, max_w, max_h),
{
    if img.rgba.width <= max_w && img.rgba.height <= max_h {
        return img.rgba.duplicate();
    }
    let (w, h): (u32, u32) = fit_size(img.rgba.width, img.rgba.height, max_w, max_h);
    read_rgba(&decoded_resize(&img.source, w, h))
}

/// A factor that takes a side of `a` pixels to `max_a`, but for one part in `2^53`,
/// takes a side of `b` pixels to `b * max_a / a`, rounded down, but for one part in
/// `2^51`.
proof fn lemma_other_side(a: nat, b: nat, max_a: nat, factor: nat)
    requires
        (factor * a) * 0x20_0000_0000_0000 <= (max_a * 0x10_0000_0000_0000_0000_0000) * 0x20_0000_0000_0001,
        (factor * a) * 0x20_0000_0000_0000 >= (max_a * 0x10_0000_0000_0000_0000_0000) * 0x1f_ffff_ffff_ffff,
    ensures
        ({
            let nb = scaled_side(b, factor);
            &&& nb == 1 || (nb * a) * 0x8_0000_0000_0000 <= (max_a * b) * 0x8_0000_0000_0001
            &&& (nb * a + a) * 0x8_0000_0000_0000 >= (max_a * b) * 0x7_ffff_ffff_ffff
        }),
{
    let n = b * factor;
    let p = rounded(n, 1, DOUBLE as nat);
    lemma_double(n);
    let x = n * a;
    let t = max_a * b;
    assert(x * 0x20_0000_0000_0000 <= (t * 0x10_0000_0000_0000_0000_0000) * 0x20_0000_0000_0001
        && x * 0x20_0000_0000_0000 >= (t * 0x10_0000_0000_0000_0000_0000) * 0x1f_ffff_ffff_ffff)
        by (nonlinear_arith)
        requires
            (factor * a) * 0x20_0000_0000_0000 <= (max_a * 0x10_0000_0000_0000_0000_0000) * 0x20_0000_0000_0001,
            (factor * a) * 0x20_0000_0000_0000 >= (max_a * 0x10_0000_0000_0000_0000_0000) * 0x1f_ffff_ffff_ffff,
            x == (b * factor) * a,
            t == max_a * b,
    ;
    let pa = p * a;
    assert(pa * 0x20_0000_0000_0000 <= x * 0x20_0000_0000_0001 && pa * 0x20_0000_0000_0000 >= x
        * 0x1f_ffff_ffff_ffff) by (nonlinear_arith)
        requires
            p * 0x20_0000_0000_0000 <= n * 0x20_0000_0000_0001,
            p * 0x20_0000_0000_0000 >= n * 0x1f_ffff_ffff_ffff,
            pa == p * a,
            x == n * a,
    ;
    let whole = p / FACTOR_ONE as nat;
    let nb = scaled_side(b, factor);
    let v = nb * a;
    assert(whole * 0x10_0000_0000_0000_0000_0000 <= p < whole * 0x10_0000_0000_0000_0000_0000
        + 0x10_0000_0000_0000_0000_0000);
    if whole >= 1 {
        assert(v * 0x10_0000_0000_0000_0000_0000 <= pa) by (nonlinear_arith)
            requires
                whole * 0x10_0000_0000_0000_0000_0000 <= p,
                v == whole * a,
                pa == p * a,
        ;
    }
    assert((v + a) * 0x10_0000_0000_0000_0000_0000 >= pa) by (nonlinear_arith)
        requires
            p < whole * 0x10_0000_0000_0000_0000_0000 + 0x10_0000_0000_0000_0000_0000,
            whole <= nb,
            v == nb * a,
            pa == p * a,
    ;
}

/// The side that has to shrink more decides: the other one is shrunk in the same
/// proportion and rounded down, but for one part in `2^51`, and is at least one
/// pixel long.
pub proof fn law_fitted_rounds_down(w: u32, h: u32, max_w: u32, max_h: u32)
    requires
        w > 0,
        h > 0,
        w > max_w || h > max_h,
    ensures
        ({
            let (nw, nh) = fitted(w as nat, h as nat, max_w as nat, max_h as nat);
            let (across, down) = (max_w * h, max_h * w);
            &&& across <= down ==> {
                &&& nh == 1 || (nh * w) * 0x8_0000_0000_0000 <= across * 0x8_0000_0000_0001
                &&& (nh * w + w) * 0x8_0000_0000_0000 >= across * 0x7_ffff_ffff_ffff
            }
            &&& down <= across ==> {
                &&& nw == 1 || (nw * h) * 0x8_0000_0000_0000 <= down * 0x8_0000_0000_0001
                &&& (nw * h + h) * 0x8_0000_0000_0000 >= down * 0x7_ffff_ffff_ffff
            }
        }),
{
    let (wn, hn) = (w as nat, h as nat);
    let (mw, mh) = (max_w as nat, max_h as nat);
    lemma_side_factor(mw, wn);
    lemma_side_factor(mh, hn);
    let f = fit_factor(wn, hn, mw, mh);
    let (fw, fh) = (side_factor(mw, wn), side_factor(mh, hn));
    assert(max_w * h == mw * hn && max_h * w == mh * wn);
    if mw * hn <= mh * wn {
        if f == fh {
            lemma_same_factor(wn, hn, mw, mh, f, fw);
        }
        lemma_other_side(wn, hn, mw, f);
    }
    if mh * wn <= mw * hn {
        if f == fw {
            lemma_same_factor(hn, wn, mh, mw, f, fh);
        }
        lemma_other_side(hn, wn, mh, f);
    }
}

/// The factor of the side that has to shrink less serves for the other one if it is
/// no larger than that one's own.
proof fn lemma_same_factor(a: nat, b: nat, max_a: nat, max_b: nat, factor: nat, own: nat)
    requires
        b > 0,
        max_a * b <= max_b * a,
        factor <= own,
        (own * a) * 0x20_0000_0000_0000 <= (max_a * 0x10_0000_0000_0000_0000_0000) * 0x20_0000_0000_0001,
        (factor * b) * 0x20_0000_0000_0000 >= (max_b * 0x10_0000_0000_0000_0000_0000) * 0x1f_ffff_ffff_ffff,
    ensures
        (factor * a) * 0x20_0000_0000_0000 <= (max_a * 0x10_0000_0000_0000_0000_0000) * 0x20_0000_0000_0001,
        (factor * a) * 0x20_0000_0000_0000 >= (max_a * 0x10_0000_0000_0000_0000_0000) * 0x1f_ffff_ffff_ffff,
{
    assert(factor * a <= own * a) by (nonlinear_arith)
        requires
            factor <= own,
    ;
    let y = factor * a;
    let t = max_a * b;
    assert((y * b) * 0x20_0000_0000_0000 >= (t * 0x10_0000_0000_0000_0000_0000) * 0x1f_ffff_ffff_ffff)
        by (nonlinear_arith)
        requires
            (factor * b) * 0x20_0000_0000_0000 >= (max_b * 0x10_0000_0000_0000_0000_0000) * 0x1f_ffff_ffff_ffff,
            y == factor * a,
            t == max_a * b,
            max_a * b <= max_b * a,
    ;
    assert(y * 0x20_0000_0000_0000 >= (max_a * 0x10_0000_0000_0000_0000_0000) * 0x1f_ffff_ffff_ffff)
        by (nonlinear_arith)
        requires
            (y * b) * 0x20_0000_0000_0000 >= (t * 0x10_0000_0000_0000_0000_0000) * 0x1f_ffff_ffff_ffff,
            t == max_a * b,
            b > 0,
    ;
}

/// A picture that is no larger than the box stays as it is, and any other one is
/// resampled from all its pixels to the size that it then has.
pub proof fn law_scaling_keeps_what_fits(r: &Raster, img: &Raster, max_w: u32, max_h: u32)
    requires
        is_scaled(r, img, img.width, img.height, max_w, max_h),
    ensures
        (r.width as nat, r.height as nat) == fitted(
            img.width as nat,
            img.height as nat,
            max_w as nat,
            max_h as nat,
        ),
        img.width <= max_w && img.height <= max_h ==> r.width == img.width && r.height == img.height
            && r.data@ == img.data@,
        img.width > max_w || img.height > max_h ==> r.data@ == resampled(
            img.width,
            img.height,
            img.data@,
            r.width,
            r.height,
        ) && r.width <= at_least_one(max_w as int) && r.height <= at_least_one(max_h as int),
{
    law_fitted_lies_in_box(img.width, img.height, max_w, max_h);
}

/// A decoded picture that is no larger than the box is shown as it is, and any other
/// one is resampled before it is taken to eight bits.
pub proof fn law_thumbnails_keep_what_fits(r: &Raster, img: &Picture, max_w: u32, max_h: u32)
    requires
        img.wf(),
        is_thumbnail(r, img, max_w, max_h),
    ensures
        (r.width as nat, r.height as nat) == fitted(
            img.rgba.width as nat,
            img.rgba.height as nat,
            max_w as nat,
            max_h as nat,
        ),
        img.rgba.width <= max_w && img.rgba.height <= max_h ==> r.same(&img.rgba),
        img.rgba.width > max_w || img.rgba.height > max_h ==> r.data@ == decoded_rgba(
            decoded_resized(img.source, r.width, r.height),
        ) && r.width <= at_least_one(max_w as int) && r.height <= at_least_one(max_h as int),
{
    law_fitted_lies_in_box(img.rgba.width, img.rgba.height, max_w, max_h);
}

/// Scale factors and scaled sides are worked out in double precision.
pub proof fn law_scaling_is_in_double_precision(side: nat, max: nat, factor: nat)
    requires
        side > 0,
    ensures
        side_factor(max, side) == rounded(
            max * 0x10_0000_0000_0000_0000_0000,
            side,
            0x20_0000_0000_0000,
        ),
        scaled_side(side, factor) == at_least_one(
            rounded(side * factor, 1, 0x20_0000_0000_0000) as int / 0x10_0000_0000_0000_0000_0000,
        ),
{
    assert(max * FACTOR_ONE as nat == max * 0x10_0000_0000_0000_0000_0000) by (nonlinear_arith)
        requires
            FACTOR_ONE == 0x10_0000_0000_0000_0000_0000,
    ;
}

/// The factor of a picture is the smaller one of its sides' factors, and takes each
/// side to its new length. A side of no length has no factor.
pub proof fn law_smaller_factor_scales_both_sides(w: nat, h: nat, max_w: nat, max_h: nat) -> (factor:
    nat)
    requires
        w > max_w || h > max_h,
    ensures
        w > 0 ==> factor <= side_factor(max_w, w),
        h > 0 ==> factor <= side_factor(max_h, h),
        (w > 0 && factor == side_factor(max_w, w)) || (h > 0 && factor == side_factor(max_h, h)),
        fitted(w, h, max_w, max_h) == (scaled_side(w, factor), scaled_side(h, factor)),
{
    fit_factor(w, h, max_w, max_h)
}

} // verus!
