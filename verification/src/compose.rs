//! Putting two pictures into one: side by side, swiped or laid on each other.
use crate::fraction::{
    clamped, law_whole_product_is_rounded_down, lemma_single_bound, lemma_single_close,
    lemma_whole_product, product, single, to_single, Fraction, ONE,
};
use crate::picture::{laid_on, overlay, Picture};
use crate::raster::{
    addressable, lemma_area, lemma_offset, pixel_in, Pixel, Raster,
};
use crate::rounding::{lemma_rounded_bound, lemma_rounded_grows, rounded, SINGLE};
use crate::scale::{can_scale, fitted, is_scaled, law_fitted_lies_in_box, scale_rgba};
use vstd::arithmetic::power2::{lemma2_to64_rest, pow2};
use vstd::prelude::*;

verus! {

/// Width of the bar between two pictures, in pixels.
pub const SEPARATOR: u32 = 4;

/// Colour of the bar between two pictures.
pub open spec fn gray() -> Pixel {
    Pixel { r: 128, g: 128, b: 128, a: 255 }
}

/// Colour of the line at which one picture gives way to the other.
pub open spec fn yellow() -> Pixel {
    Pixel { r: 255, g: 220, b: 0, a: 255 }
}

/// The larger one of two numbers.
pub open spec fn larger(a: u32, b: u32) -> u32 {
    if a < b {
        b
    } else {
        a
    }
}

pub(crate) fn max_of(a: u32, b: u32) -> (r: u32)
    ensures
        r == larger(a, b),
{
    if a < b {
        b
    } else {
        a
    }
}

/// `r` is a transparent canvas of `w` by `h` pixels with `img` in its top left
/// corner.
pub open spec fn is_laid_out(r: &Raster, img: &Raster, w: u32, h: u32) -> bool {
    &&& r.wf()
    &&& r.width == w
    &&& r.height == h
    &&& forall|x: int, y: int|
        r.contains(x, y) ==> #[trigger] r.pixel(x, y) == if img.contains(x, y) {
            laid_on(Pixel::clear(), img.pixel(x, y))
        } else {
            Pixel::clear()
        }
}

/// Lays a picture on a transparent canvas.
fn lay_out(img: &Raster, w: u32, h: u32) -> (r: Raster)
    requires
        img.wf(),
        addressable(w as int, h as int),
    ensures
        is_laid_out(&r, img, w, h),
{
    overlay(Raster::new(w, h), img, 0, 0)
}

/// Lays both pictures on canvases of a common size, the larger width and the
/// larger height, so that the same coordinates line up.
pub fn normalize_pair(a: &Picture, b: &Picture) -> (r: (Raster, Raster))
    requires
        a.wf(),
        b.wf(),
        addressable(
            larger(a.rgba.width, b.rgba.width) as int,
            larger(a.rgba.height, b.rgba.height) as int,
        ),
    ensures
        is_laid_out(
            &r.0,
            &a.rgba,
            larger(a.rgba.width, b.rgba.width),
            larger(a.rgba.height, b.rgba.height),
        ),
        is_laid_out(
            &r.1,
            &b.rgba,
            larger(a.rgba.width, b.rgba.width),
            larger(a.rgba.height, b.rgba.height),
        ),
{
    let w: u32 = max_of(a.rgba.width, b.rgba.width);
    let h: u32 = max_of(a.rgba.height, b.rgba.height);
    (lay_out(&a.rgba, w, h), lay_out(&b.rgba, w, h))
}

/// Pixel `(x, y)` of two pictures side by side with a bar between them.
pub open spec fn two_up_pixel(a: &Raster, b: &Raster, x: int, y: int) -> Pixel {
    if a.contains(x, y) {
        laid_on(Pixel::clear(), a.pixel(x, y))
    } else if a.width <= x < a.width + SEPARATOR {
        gray()
    } else if b.contains(x - a.width - SEPARATOR, y) {
        laid_on(Pixel::clear(), b.pixel(x - a.width - SEPARATOR, y))
    } else {
        Pixel::clear()
    }
}

/// `r` shows the two pictures side by side.
pub open spec fn is_two_up(r: &Raster, a: &Raster, b: &Raster) -> bool {
    &&& r.wf()
    &&& r.width == a.width + SEPARATOR + b.width
    &&& r.height == larger(a.height, b.height)
    &&& forall|x: int, y: int|
        r.contains(x, y) ==> #[trigger] r.pixel(x, y) == two_up_pixel(a, b, x, y)
}

/// Puts two pictures side by side, aligned at the top, with a gray bar between
/// them.
pub fn join_two_up(a: &Raster, b: &Raster) -> (r: Raster)
    requires
        a.wf(),
        b.wf(),
        a.width + SEPARATOR + b.width <= u32::MAX,
        addressable(a.width + SEPARATOR + b.width, larger(a.height, b.height) as int),
    ensures
        is_two_up(&r, a, b),
{
    let h: u32 = max_of(a.height, b.height);
    let w: u32 = a.width + SEPARATOR + b.width;
    let mut canvas = Raster::new(w, h);
    canvas.fill(a.width, a.width + SEPARATOR, 0, h, Pixel { r: 128, g: 128, b: 128, a: 255 });
    let left = overlay(canvas, a, 0, 0);
    let both = overlay(left, b, (a.width + SEPARATOR) as i64, 0);
    proof {
        assert forall|x: int, y: int| both.contains(x, y) implies #[trigger] both.pixel(x, y)
            == two_up_pixel(a, b, x, y) by {
            assert(canvas.contains(x, y) && left.contains(x, y));
            assert(left.pixel(x, y) == left.pixel(x, y));
            assert(canvas.pixel(x, y) == canvas.pixel(x, y));
        }
    }
    both
}

/// Width that each of two pictures side by side may take.
pub open spec fn half_width(max_w: u32) -> u32 {
    if max_w < SEPARATOR {
        0
    } else {
        ((max_w - SEPARATOR) / 2) as u32
    }
}

/// Size of two pictures side by side, each scaled into its half of the box.
pub open spec fn two_up_size(a: &Raster, b: &Raster, max_w: u32, max_h: u32) -> (int, int) {
    let (aw, ah) = fitted(
        a.width as nat,
        a.height as nat,
        half_width(max_w) as nat,
        max_h as nat,
    );
    let (bw, bh) = fitted(
        b.width as nat,
        b.height as nat,
        half_width(max_w) as nat,
        max_h as nat,
    );
    (
        aw + SEPARATOR + bw,
        if ah < bh {
            bh as int
        } else {
            ah as int
        },
    )
}

/// Two pictures side by side take no more width than the box, if there is room
/// for the bar and one pixel of each picture, and no more height.
pub proof fn law_two_up_lies_in_box(a: &Raster, b: &Raster, max_w: u32, max_h: u32)
    ensures
        max_w >= SEPARATOR + 2 ==> two_up_size(a, b, max_w, max_h).0 <= max_w,
        max_w < SEPARATOR + 2 ==> two_up_size(a, b, max_w, max_h).0 <= SEPARATOR + 2,
        max_h >= 1 ==> two_up_size(a, b, max_w, max_h).1 <= max_h,
        max_h == 0 ==> two_up_size(a, b, max_w, max_h).1 <= 1,
{
    law_fitted_lies_in_box(a.width, a.height, half_width(max_w), max_h);
    law_fitted_lies_in_box(b.width, b.height, half_width(max_w), max_h);
}

/// `r` shows the two pictures side by side, each scaled into its half of the box.
pub open spec fn is_two_up_in_box(
    r: &Raster,
    a: &Raster,
    b: &Raster,
    max_w: u32,
    max_h: u32,
) -> bool {
    exists|sa: Raster, sb: Raster| #[trigger]
        is_two_up(r, &sa, &sb) && is_scaled(
            &sa,
            a,
            a.width,
            a.height,
            half_width(max_w),
            max_h,
        ) && is_scaled(&sb, b, b.width, b.height, half_width(max_w), max_h)
}

/// Scales two pictures into the halves of a box and puts them side by side.
pub fn compose_two_up(a: &Raster, b: &Raster, max_w: u32, max_h: u32) -> (r: Raster)
    requires
        a.wf(),
        b.wf(),
        can_scale(a.width, a.height, half_width(max_w), max_h),
        can_scale(b.width, b.height, half_width(max_w), max_h),
        addressable(two_up_size(a, b, max_w, max_h).0, two_up_size(a, b, max_w, max_h).1),
    ensures
        is_two_up_in_box(&r, a, b, max_w, max_h),
        (r.width as int, r.height as int) == two_up_size(a, b, max_w, max_h),
{
    let half: u32 = if max_w < SEPARATOR {
        0
    } else {
        (max_w - SEPARATOR) / 2
    };
    let sa = scale_rgba(a, half, max_h);
    let sb = scale_rgba(b, half, max_h);
    proof {
        law_two_up_lies_in_box(a, b, max_w, max_h);
    }
    join_two_up(&sa, &sb)
}

/// The column at which the first picture gives way to the second one: the whole
/// part of the single-precision product of width and slider position.
pub open spec fn swipe_split(width: u32, t: Fraction) -> nat {
    product(clamped(t), single(width as nat)) / ONE as nat
}

/// The column at which the first picture gives way to the second one.
pub(crate) fn split_column(width: u32, t: Fraction) -> (r: u128)
    ensures
        r == swipe_split(width, t),
{
    proof {
        lemma_single_bound(width as nat, 1);
    }
    let wide: u128 = to_single(width as u128);
    t.clamp().times(wide as u64) / ONE as u128
}

/// Pixel `(x, y)` of the picture that shows the first picture up to the slider
/// and the second one after it.
pub open spec fn swipe_pixel(a: &Raster, b: &Raster, t: Fraction, x: int, y: int) -> Pixel {
    let split = swipe_split(a.width, t);
    if x < split {
        a.pixel(x, y)
    } else if x == split {
        yellow()
    } else {
        pixel_in(b.data@, a.width as int, x, y)
    }
}

/// Shows the first picture left of the slider and the second one right of it,
/// with a yellow line at the slider. The second picture is read as if it had the
/// width of the first one.
pub fn compose_swipe(a: &Raster, b: &Raster, t: Fraction) -> (r: Raster)
    requires
        a.wf(),
        b.wf(),
        a.data@.len() <= b.data@.len(),
        a.height > 0 ==> swipe_split(a.width, t) <= a.width,
    ensures
        r.wf(),
        r.width == a.width,
        r.height == a.height,
        forall|x: int, y: int|
            r.contains(x, y) ==> #[trigger] r.pixel(x, y) == swipe_pixel(a, b, t, x, y),
{
    let w: u32 = a.width;
    let h: u32 = a.height;
    let split: u32 = split_column(w, t) as u32;
    let mut out = Raster::new(w, h);
    proof {
        lemma_area(w as int, h as int);
    }
    for y in 0..h
        invariant
            a.wf(),
            b.wf(),
            a.data@.len() <= b.data@.len(),
            w == a.width,
            h == a.height,
            w * h * 4 <= isize::MAX,
            h > 0 ==> split == swipe_split(a.width, t),
            out.wf(),
            out.width == w,
            out.height == h,
            forall|i: int, j: int|
                0 <= i < w && 0 <= j < y ==> #[trigger] out.pixel(i, j) == swipe_pixel(
                    a,
                    b,
                    t,
                    i,
                    j,
                ),
    {
        for x in 0..w
            invariant
                a.wf(),
                b.wf(),
                a.data@.len() <= b.data@.len(),
                w == a.width,
                y < h == a.height,
                w * h * 4 <= isize::MAX,
                split == swipe_split(a.width, t),
                out.wf(),
                out.width == w,
                out.height == h,
                forall|i: int, j: int|
                    0 <= i < w && 0 <= j < y ==> #[trigger] out.pixel(i, j) == swipe_pixel(
                        a,
                        b,
                        t,
                        i,
                        j,
                    ),
                forall|i: int|
                    0 <= i < x ==> #[trigger] out.pixel(i, y as int) == swipe_pixel(
                        a,
                        b,
                        t,
                        i,
                        y as int,
                    ),
        {
            let p: Pixel = if x < split {
                a.get_pixel(x, y)
            } else if x == split {
                Pixel { r: 255, g: 220, b: 0, a: 255 }
            } else {
                proof {
                    lemma_offset(w as int, h as int, x as int, y as int);
                    assert(y as int * w as int >= 0) by (nonlinear_arith)
                        requires
                            y >= 0,
                            w >= 0,
                    ;
                }
                let i: usize = (y as usize * w as usize + x as usize) * 4;
                Pixel { r: b.data[i], g: b.data[i + 1], b: b.data[i + 2], a: b.data[i + 3] }
            };
            out.put_pixel(x, y, p);
        }
    }
    out
}

/// The slider stays within a picture of ordinary width. At its left end it is
/// before the first column, at its right end after the last one.
pub proof fn law_swipe_split(width: u32, t: Fraction)
    requires
        width < SINGLE,
    ensures
        swipe_split(width, t) <= width,
        t.units <= 0 ==> swipe_split(width, t) == 0,
        t.units >= ONE ==> swipe_split(width, t) == width,
{
    lemma_single_exact(width as nat);
    lemma_whole_product(clamped(t), width as nat);
}

/// A number below the significand limit is representable.
proof fn lemma_single_exact(n: nat)
    requires
        n < SINGLE,
    ensures
        single(n) == n,
{
    assert(n / 1 == n && n % 1 == 0);
    assert(n * 1 == n);
}

/// Moving the slider right never moves the column at which the pictures change
/// left.
pub proof fn law_swipe_follows_the_slider(width: u32, t1: Fraction, t2: Fraction)
    requires
        t1.units <= t2.units,
    ensures
        swipe_split(width, t1) <= swipe_split(width, t2),
{
    let n = single(width as nat);
    let (u1, u2) = (clamped(t1).units as nat, clamped(t2).units as nat);
    assert(u1 * n <= u2 * n) by (nonlinear_arith)
        requires
            u1 <= u2,
    ;
    lemma_rounded_grows(u1 * n, u2 * n, 1, SINGLE as nat);
    vstd::arithmetic::div_mod::lemma_div_is_ordered(
        product(clamped(t1), n) as int,
        product(clamped(t2), n) as int,
        ONE as int,
    );
}

/// With the slider at its right end a picture of ordinary width is the first
/// picture, and with the slider at its left end it is the second one behind the
/// yellow line.
pub proof fn law_swipe_ends(a: &Raster, b: &Raster, t: Fraction, x: int, y: int)
    requires
        a.width < SINGLE,
        b.width == a.width,
        a.contains(x, y),
    ensures
        t.units >= ONE ==> swipe_pixel(a, b, t, x, y) == a.pixel(x, y),
        t.units <= 0 ==> swipe_pixel(a, b, t, x, y) == if x == 0 {
            yellow()
        } else {
            b.pixel(x, y)
        },
{
    law_swipe_split(a.width, t);
}

/// The slider position in parts of 255: the whole part of the single-precision
/// value of `t * 255 + 0.5`.
pub open spec fn onion_weight(t: Fraction) -> nat {
    single(product(clamped(t), 255) + ONE as nat / 2) / ONE as nat
}

/// A byte of the first picture and one of the second, mixed by a weight in parts
/// of 255 and rounded.
pub open spec fn onion_byte(a: u8, b: u8, weight: int) -> int {
    (a * (255 - weight) + b * weight + 127) / 255
}

/// The weight goes from 0 to 255.
pub proof fn law_onion_weight(t: Fraction)
    ensures
        onion_weight(t) <= 255,
        t.units <= 0 ==> onion_weight(t) == 0,
        t.units >= ONE ==> onion_weight(t) == 255,
{
    let f = clamped(t);
    lemma_whole_product(f, 255);
    let half = ONE as nat / 2;
    let n = product(f, 255) + half;
    lemma2_to64_rest();
    assert(n / 1 == n);
    lemma_rounded_bound(n, 1, SINGLE as nat, 511, 39);
    assert(single(n) <= 511 * pow2(39));
    if f.units == 0 {
        lemma_single_bound(0, 0);
        assert(f.units as nat * 255 == 0);
        lemma_rounded_bound(n, 1, SINGLE as nat, 1, 39);
    }
    if f.units == ONE {
        lemma_single_bound(n, 255);
        lemma_single_bound(f.units as nat * 255, 255);
    }
}

/// The mixture of two bytes lies between them.
proof fn lemma_onion_byte(a: u8, b: u8, weight: int)
    requires
        0 <= weight <= 255,
    ensures
        a <= b ==> a <= onion_byte(a, b, weight) <= b,
        b <= a ==> b <= onion_byte(a, b, weight) <= a,
{
    if a <= b {
        assert(a * 255 <= a * (255 - weight) + b * weight <= b * 255) by (nonlinear_arith)
            requires
                0 <= weight <= 255,
                a <= b,
        ;
    } else {
        assert(b * 255 <= a * (255 - weight) + b * weight <= a * 255) by (nonlinear_arith)
            requires
                0 <= weight <= 255,
                b <= a,
        ;
    }
}

/// The mixture of two pictures lies between them, byte by byte. With the slider
/// at its left end it is the first picture, at its right end the second one.
pub proof fn law_onion_byte(a: u8, b: u8, t: Fraction)
    ensures
        a <= b ==> a <= onion_byte(a, b, onion_weight(t) as int) <= b,
        b <= a ==> b <= onion_byte(a, b, onion_weight(t) as int) <= a,
        t.units <= 0 ==> onion_byte(a, b, onion_weight(t) as int) == a,
        t.units >= ONE ==> onion_byte(a, b, onion_weight(t) as int) == b,
{
    law_onion_weight(t);
    lemma_onion_byte(a, b, onion_weight(t) as int);
    if t.units <= 0 {
        assert(b * onion_weight(t) == 0 && a * (255 - onion_weight(t)) == a * 255)
            by (nonlinear_arith)
            requires
                onion_weight(t) == 0,
        ;
    }
    if t.units >= ONE {
        assert(a * (255 - onion_weight(t)) == 0 && b * onion_weight(t) == b * 255)
            by (nonlinear_arith)
            requires
                onion_weight(t) == 255,
        ;
    }
}

/// Mixes two pictures by the slider position, byte by byte and opacity included.
pub fn compose_onion(a: &Raster, b: &Raster, t: Fraction) -> (r: Raster)
    requires
        a.wf(),
        b.wf(),
        a.data@.len() <= b.data@.len(),
    ensures
        r.wf(),
        r.width == a.width,
        r.height == a.height,
        forall|i: int|
            0 <= i < a.data@.len() ==> #[trigger] r.data@[i] == onion_byte(
                a.data@[i],
                b.data@[i],
                onion_weight(t) as int,
            ),
{
    proof {
        law_onion_weight(t);
        lemma_whole_product(clamped(t), 255);
    }
    let weight: u32 = (to_single(t.clamp().times(255) + (ONE / 2) as u128) / ONE as u128) as u32;
    let n: usize = a.data.len();
    let mut data: Vec<u8> = Vec::with_capacity(n);
    for i in 0..n
        invariant
            n == a.data@.len(),
            n <= b.data@.len(),
            weight == onion_weight(t),
            weight <= 255,
            data@.len() == i,
            forall|k: int|
                0 <= k < i ==> #[trigger] data@[k] == onion_byte(
                    a.data@[k],
                    b.data@[k],
                    onion_weight(t) as int,
                ),
    {
        proof {
            lemma_onion_byte(a.data@[i as int], b.data@[i as int], weight as int);
            assert(a.data@[i as int] * (255 - weight) <= 255 * 255) by (nonlinear_arith)
                requires
                    0 <= weight <= 255,
                    a.data@[i as int] <= 255,
            ;
            assert(b.data@[i as int] * weight <= 255 * 255) by (nonlinear_arith)
                requires
                    0 <= weight <= 255,
                    b.data@[i as int] <= 255,
            ;
        }
        let mixed: u32 = (a.data[i] as u32 * (255 - weight) + b.data[i] as u32 * weight + 127)
            / 255;
        data.push(mixed as u8);
    }
    Raster { width: a.width, height: a.height, data }
}

/// A picture on a common canvas keeps its place: opaque pixels stay where they are,
/// clear ones and the rest of the canvas are clear.
pub proof fn law_canvas_holds_the_picture(r: &Raster, img: &Raster, w: u32, h: u32, x: int, y: int)
    requires
        is_laid_out(r, img, w, h),
        0 <= x < w,
        0 <= y < h,
    ensures
        r.width == w,
        r.height == h,
        x < img.width && y < img.height && img.pixel(x, y).a == 255 ==> r.pixel(x, y) == img.pixel(
            x,
            y,
        ),
        x >= img.width || y >= img.height || img.pixel(x, y).a == 0 ==> r.pixel(x, y) == (Pixel {
            r: 0,
            g: 0,
            b: 0,
            a: 0,
        }),
{
    assert(r.contains(x, y));
}

/// Of two numbers the larger one is one of them, and neither is above it.
pub proof fn law_larger(a: u32, b: u32)
    ensures
        larger(a, b) == a || larger(a, b) == b,
        a <= larger(a, b),
        b <= larger(a, b),
{
}

/// Side by side, the opaque pixels of the first picture stay where they are, and
/// those of the second one are as far right as the first picture is wide, and four
/// pixels more. The four columns between them are gray from top to bottom, and what
/// lies below the lower picture is clear. The whole is as wide as both and the four
/// columns, and as high as the higher one.
pub proof fn law_two_up_shows_both(r: &Raster, a: &Raster, b: &Raster, x: int, y: int)
    requires
        is_two_up(r, a, b),
    ensures
        r.width == a.width + b.width + 4,
        r.height >= a.height && r.height >= b.height,
        r.height == a.height || r.height == b.height,
        0 <= x < a.width && 0 <= y < a.height && a.pixel(x, y).a == 255 ==> r.pixel(x, y) == a.pixel(
            x,
            y,
        ),
        0 <= x < b.width && 0 <= y < b.height && b.pixel(x, y).a == 255 ==> r.pixel(
            a.width + 4 + x,
            y,
        ) == b.pixel(x, y),
        0 <= x < 4 && 0 <= y < r.height ==> r.pixel(a.width + x, y) == (Pixel {
            r: 128,
            g: 128,
            b: 128,
            a: 255,
        }),
        0 <= x < a.width && a.height <= y < r.height ==> r.pixel(x, y) == (Pixel {
            r: 0,
            g: 0,
            b: 0,
            a: 0,
        }),
        0 <= x < b.width && b.height <= y < r.height ==> r.pixel(a.width + 4 + x, y) == (Pixel {
            r: 0,
            g: 0,
            b: 0,
            a: 0,
        }),
{
    if 0 <= x < a.width && 0 <= y < r.height {
        assert(r.contains(x, y));
    }
    if 0 <= x < b.width && 0 <= y < r.height {
        assert(r.contains(a.width + 4 + x, y));
    }
    if 0 <= x < 4 && 0 <= y < r.height {
        assert(r.contains(a.width + x, y));
    }
}

/// The two halves of a box are equal, and with four columns between them they fill
/// it, but for one column if they cannot be equal otherwise.
pub proof fn law_halves_fill_the_box(max_w: u32)
    ensures
        max_w >= 4 ==> max_w - 1 <= 2 * half_width(max_w) + 4 <= max_w,
        max_w < 4 ==> half_width(max_w) == 0,
{
}

/// A swipe shows the first picture left of a yellow line and the second one right of
/// it. The line has as many columns to its left as the slider asks for, rounded
/// down: its share of the width, but for one part in `2^24`.
pub proof fn law_swipe_shows_both(a: &Raster, b: &Raster, t: Fraction, x: int, y: int)
    requires
        a.width < SINGLE,
        b.width == a.width,
        0 <= t.units <= 0x100_0000_0000,
        0 <= x < a.width,
        0 <= y < a.height,
    ensures
        ({
            let line = swipe_split(a.width, t);
            &&& x < line ==> swipe_pixel(a, b, t, x, y) == a.pixel(x, y)
            &&& x > line ==> swipe_pixel(a, b, t, x, y) == b.pixel(x, y)
            &&& x == line ==> swipe_pixel(a, b, t, x, y) == (Pixel { r: 255, g: 220, b: 0, a: 255 })
            &&& 0x100_0000 * (line * 0x100_0000_0000) <= 0x100_0001 * (t.units * a.width)
            &&& 0x100_0000 * (line * 0x100_0000_0000 + 0x100_0000_0000) > 0xff_ffff * (t.units
                * a.width)
        }),
{
    lemma_single_exact(a.width as nat);
    law_whole_product_is_rounded_down(t, a.width as nat);
}

/// The weight of the second picture is the slider position in parts of 255, rounded
/// to the nearest, but for a tiny part.
pub proof fn law_onion_weight_is_rounded(t: Fraction)
    requires
        0 <= t.units <= 0x100_0000_0000,
    ensures
        onion_weight(t) * 0x100_0000_0000 <= 255 * t.units + 0x80_0000_0000 + 0x200_0000,
        onion_weight(t) * 0x100_0000_0000 >= 255 * t.units - 0x80_0000_0000 - 0x200_0000,
{
    let x = t.units as nat * 255;
    lemma_single_close(x);
    let n = product(clamped(t), 255) + ONE as nat / 2;
    lemma_single_close(n);
    assert(clamped(t) == t);
}

/// The mixture of two bytes is the nearest to their weighted mean, and grows with
/// each of them.
pub proof fn law_onion_byte_is_the_mean(a: u8, b: u8, weight: int, more_a: u8, more_b: u8)
    requires
        0 <= weight <= 255,
        a <= more_a,
        b <= more_b,
    ensures
        ({
            let exact = a * (255 - weight) + b * weight;
            -127 <= 255 * onion_byte(a, b, weight) - exact <= 127
        }),
        onion_byte(a, b, weight) <= onion_byte(more_a, more_b, weight),
{
    assert(a * (255 - weight) + b * weight <= more_a * (255 - weight) + more_b * weight)
        by (nonlinear_arith)
        requires
            0 <= weight <= 255,
            a <= more_a,
            b <= more_b,
    ;
}

/// On a canvas and side by side, each pixel is laid on a clear one.
pub proof fn law_pixels_are_laid_on_clear_ones(
    canvas: &Raster,
    img: &Raster,
    w: u32,
    h: u32,
    r: &Raster,
    a: &Raster,
    b: &Raster,
    x: int,
    y: int,
)
    requires
        is_laid_out(canvas, img, w, h),
        is_two_up(r, a, b),
    ensures
        ({
            let clear = Pixel { r: 0, g: 0, b: 0, a: 0 };
            &&& 0 <= x < img.width && x < w && 0 <= y < img.height && y < h ==> canvas.pixel(x, y)
                == laid_on(clear, img.pixel(x, y))
            &&& 0 <= x < a.width && 0 <= y < a.height ==> r.pixel(x, y) == laid_on(
                clear,
                a.pixel(x, y),
            )
            &&& 0 <= x < b.width && 0 <= y < b.height ==> r.pixel(a.width + 4 + x, y) == laid_on(
                clear,
                b.pixel(x, y),
            )
        }),
{
    if 0 <= x < w && 0 <= y < h {
        assert(canvas.contains(x, y));
    }
    if 0 <= x < a.width && 0 <= y < a.height {
        assert(r.contains(x, y));
    }
    if 0 <= x < b.width && 0 <= y < b.height {
        assert(r.contains(a.width + 4 + x, y));
    }
}

/// Two pictures side by side in a box are each scaled into half of what four columns
/// leave, and into the whole height.
pub proof fn law_two_up_scales_both(r: &Raster, a: &Raster, b: &Raster, max_w: u32, max_h: u32) -> (
parts: (Raster, Raster))
    requires
        is_two_up_in_box(r, a, b, max_w, max_h),
        max_w >= 4,
    ensures
        ({
            let half = ((max_w - 4) / 2) as u32;
            &&& is_two_up(r, &parts.0, &parts.1)
            &&& is_scaled(&parts.0, a, a.width, a.height, half, max_h)
            &&& is_scaled(&parts.1, b, b.width, b.height, half, max_h)
        }),
{
    choose|sa: Raster, sb: Raster| #[trigger]
        is_two_up(r, &sa, &sb) && is_scaled(
            &sa,
            a,
            a.width,
            a.height,
            half_width(max_w),
            max_h,
        ) && is_scaled(&sb, b, b.width, b.height, half_width(max_w), max_h)
}

/// The place of a swipe and the weight of a mixture are worked out in single
/// precision.
pub proof fn law_slider_is_in_single_precision(width: u32, t: Fraction)
    requires
        0 <= t.units <= 0x100_0000_0000,
    ensures
        swipe_split(width, t) == rounded(
            (t.units * rounded(width as nat, 1, 0x100_0000)) as nat,
            1,
            0x100_0000,
        ) / 0x100_0000_0000,
        onion_weight(t) == rounded(
            rounded((t.units * 255) as nat, 1, 0x100_0000) + 0x80_0000_0000,
            1,
            0x100_0000,
        ) / 0x100_0000_0000,
{
    assert(clamped(t) == t);
    let n = rounded(width as nat, 1, 0x100_0000);
    assert(t.units as nat * n == t.units * n) by (nonlinear_arith)
        requires
            t.units >= 0,
    ;
}

/// Right of the line a swipe takes the bytes that stand in the second picture where
/// those of the first one stand in theirs, whatever width the second picture has.
pub proof fn law_swipe_keeps_the_places_of_bytes(a: &Raster, b: &Raster, t: Fraction, x: int, y: int)
    requires
        swipe_split(a.width, t) < x < a.width,
        0 <= y < a.height,
    ensures
        ({
            let i = 4 * (y * a.width + x);
            let p = swipe_pixel(a, b, t, x, y);
            p.r == b.data@[i] && p.g == b.data@[i + 1] && p.b == b.data@[i + 2] && p.a == b.data@[i
                + 3]
        }),
{
    let n = y * a.width + x;
    assert(n * 4 == 4 * n);
}

/// A slider before its start counts as one at the start, and one past its end as one
/// at the end.
pub proof fn law_slider_stays_on_its_way(width: u32, t: Fraction)
    ensures
        ({
            let start = Fraction { units: 0 };
            let end = Fraction { units: 0x100_0000_0000 };
            &&& t.units < 0 ==> swipe_split(width, t) == swipe_split(width, start) && onion_weight(t)
                == onion_weight(start)
            &&& t.units > 0x100_0000_0000 ==> swipe_split(width, t) == swipe_split(width, end)
                && onion_weight(t) == onion_weight(end)
        }),
{
    assert(clamped(Fraction { units: 0 }) == (Fraction { units: 0 }));
    assert(clamped(Fraction { units: 0x100_0000_0000 }) == (Fraction { units: 0x100_0000_0000 }));
}

} // verus!
