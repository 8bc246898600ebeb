//! The still comparison: both pictures small above, their differences large
//! below.
use crate::compose::{
    gray, half_width, larger, max_of, two_up_pixel, SEPARATOR,
};
use crate::fraction::{
    clamped, law_whole_product_is_rounded_down, lemma_whole_product, whole_product, Fraction, ONE,
};
use crate::picture::{laid_on, overlay, Picture};
use crate::raster::{addressable, is_addressable, Pixel, Raster};
use crate::rounding::{rounded, SINGLE};
use crate::scale::{
    can_scale, fit_size, fitted, is_scalable, is_scaled, is_thumbnail,
    law_every_picture_can_be_scaled, law_fitted_lies_in_box, scale_dynamic, scale_rgba,
};
use vstd::arithmetic::power2::pow2;
use vstd::prelude::*;

verus! {

/// The largest weighted difference of two pixels.
pub const HEAT_MAX: u32 = 65280;

/// Distance of two bytes.
pub open spec fn gap(a: u8, b: u8) -> int {
    if a < b {
        b - a
    } else {
        a - b
    }
}

/// The difference of two pixels: the distances of their colours, weighted by how
/// bright each colour appears. Opacity does not count.
pub open spec fn difference(p: Pixel, q: Pixel) -> int {
    77 * gap(p.r, q.r) + 151 * gap(p.g, q.g) + 28 * gap(p.b, q.b)
}

/// The single-precision number between zero and one that stands for a weighted
/// difference.
pub open spec fn heat(level: int) -> Fraction {
    Fraction {
        units: rounded(level as nat * ONE as nat, HEAT_MAX as nat, SINGLE as nat) as i64,
    }
}

/// A share of full brightness as a byte.
pub open spec fn brightness(units: int) -> u8 {
    whole_product(Fraction { units: units as i64 }, 255) as u8
}

/// The colour of a heat: from black over blue, green and yellow to red, a quarter
/// of the way for each step. The differences from the quarters are exact. Below
/// nought there is no less heat, and above one no more.
pub open spec fn heat_color(heat: Fraction) -> Pixel {
    let t = clamped(heat);
    let quarter = ONE as int / 4;
    if t.units < quarter {
        Pixel { r: 0, g: 0, b: brightness(4 * t.units), a: 255 }
    } else if t.units < 2 * quarter {
        let s = 4 * (t.units - quarter);
        Pixel { r: 0, g: brightness(s), b: brightness(ONE - s), a: 255 }
    } else if t.units < 3 * quarter {
        let s = 4 * (t.units - 2 * quarter);
        Pixel { r: brightness(s), g: 255, b: 0, a: 255 }
    } else {
        let s = 4 * (t.units - 3 * quarter);
        Pixel { r: 255, g: brightness(ONE - s), b: 0, a: 255 }
    }
}

/// Colour of the places that only one picture has.
pub open spec fn magenta() -> Pixel {
    Pixel { r: 255, g: 0, b: 255, a: 255 }
}

/// Pixel `(x, y)` of the heatmap of two pictures.
pub open spec fn heatmap_pixel(a: &Raster, b: &Raster, x: int, y: int) -> Pixel {
    if a.contains(x, y) && b.contains(x, y) {
        heat_color(heat(difference(a.pixel(x, y), b.pixel(x, y))))
    } else {
        magenta()
    }
}

/// `r` is the heatmap of the two pictures.
pub open spec fn is_heatmap(r: &Raster, a: &Raster, b: &Raster) -> bool {
    &&& r.wf()
    &&& r.width == larger(a.width, b.width)
    &&& r.height == larger(a.height, b.height)
    &&& forall|x: int, y: int|
        r.contains(x, y) ==> #[trigger] r.pixel(x, y) == heatmap_pixel(a, b, x, y)
}

/// Swapping the pictures does not change their heatmap.
pub proof fn law_heatmap_is_symmetric(a: &Raster, b: &Raster, x: int, y: int)
    ensures
        heatmap_pixel(a, b, x, y) == heatmap_pixel(b, a, x, y),
{
    assert(difference(a.pixel(x, y), b.pixel(x, y)) == difference(b.pixel(x, y), a.pixel(x, y)));
}

/// Where two pictures have the same colour the heatmap is black, whatever the
/// opacity.
pub proof fn law_equal_colors_are_black(a: &Raster, b: &Raster, x: int, y: int)
    requires
        a.contains(x, y),
        b.contains(x, y),
        a.pixel(x, y).r == b.pixel(x, y).r,
        a.pixel(x, y).g == b.pixel(x, y).g,
        a.pixel(x, y).b == b.pixel(x, y).b,
    ensures
        heatmap_pixel(a, b, x, y) == (Pixel { r: 0, g: 0, b: 0, a: 255 }),
{
    lemma_heat_zero();
    lemma_whole_product(Fraction { units: 0 }, 255);
}

/// The five corners of the scale of heat: black, blue, green, yellow and red, each
/// a quarter after the other; and beyond its ends the colours at the ends.
pub proof fn law_heat_scale(t: Fraction)
    ensures
        t.units <= 0 ==> heat_color(t) == (Pixel { r: 0, g: 0, b: 0, a: 255 }),
        t.units == ONE / 4 ==> heat_color(t) == (Pixel { r: 0, g: 0, b: 255, a: 255 }),
        t.units == ONE / 2 ==> heat_color(t) == (Pixel { r: 0, g: 255, b: 0, a: 255 }),
        t.units == ONE / 4 * 3 ==> heat_color(t) == (Pixel { r: 255, g: 255, b: 0, a: 255 }),
        t.units >= ONE ==> heat_color(t) == (Pixel { r: 255, g: 0, b: 0, a: 255 }),
{
    lemma_whole_product(Fraction { units: 0 }, 255);
    lemma_whole_product(Fraction { units: ONE }, 255);
}

/// No difference is no heat.
proof fn lemma_heat_zero()
    ensures
        heat(0).units == 0,
{
    assert(0nat * ONE as nat == 0);
    crate::rounding::lemma_rounded(0, HEAT_MAX as nat, SINGLE as nat);
    let f = rounded(0, HEAT_MAX as nat, SINGLE as nat);
    assert(f == 0) by (nonlinear_arith)
        requires
            2 * (f * HEAT_MAX as nat) <= HEAT_MAX,
    ;
}

/// The largest difference, white against black, is red.
pub proof fn law_opposite_colors_are_red(a: &Raster, b: &Raster, x: int, y: int)
    requires
        a.contains(x, y),
        b.contains(x, y),
        a.pixel(x, y).r == 255 && a.pixel(x, y).g == 255 && a.pixel(x, y).b == 255,
        b.pixel(x, y).r == 0 && b.pixel(x, y).g == 0 && b.pixel(x, y).b == 0,
    ensures
        heatmap_pixel(a, b, x, y) == (Pixel { r: 255, g: 0, b: 0, a: 255 }),
{
    assert(difference(a.pixel(x, y), b.pixel(x, y)) == HEAT_MAX);
    vstd::arithmetic::power2::lemma2_to64_rest();
    let n = HEAT_MAX as nat * ONE as nat;
    assert(n / (HEAT_MAX as nat) == ONE) by (nonlinear_arith)
        requires
            n == HEAT_MAX as nat * ONE as nat,
    ;
    crate::rounding::lemma_rounded_bound(n, HEAT_MAX as nat, SINGLE as nat, 1, 40);
    assert(heat(HEAT_MAX as int).units == ONE);
    lemma_whole_product(Fraction { units: 0 }, 255);
}

/// A byte for a share of full brightness.
fn brighten(units: i64) -> (r: u8)
    requires
        0 <= units <= ONE,
    ensures
        r == brightness(units as int),
{
    let t = Fraction { units };
    let whole: u32 = t.whole_times(255);
    whole as u8
}

/// The colour of a heat.
pub fn heatmap_color(heat: Fraction) -> (p: Pixel)
    ensures
        p == heat_color(heat),
{
    let t = heat.clamp();
    let quarter: i64 = ONE / 4;
    if t.units < quarter {
        Pixel { r: 0, g: 0, b: brighten(4 * t.units), a: 255 }
    } else if t.units < 2 * quarter {
        let s: i64 = 4 * (t.units - quarter);
        Pixel { r: 0, g: brighten(s), b: brighten(ONE - s), a: 255 }
    } else if t.units < 3 * quarter {
        let s: i64 = 4 * (t.units - 2 * quarter);
        Pixel { r: brighten(s), g: 255, b: 0, a: 255 }
    } else {
        let s: i64 = 4 * (t.units - 3 * quarter);
        Pixel { r: 255, g: brighten(ONE - s), b: 0, a: 255 }
    }
}

fn byte_gap(a: u8, b: u8) -> (r: u32)
    ensures
        r == gap(a, b),
{
    if a < b {
        (b - a) as u32
    } else {
        (a - b) as u32
    }
}

/// The colour for the difference of two pixels.
pub fn heat_of(p: Pixel, q: Pixel) -> (r: Pixel)
    ensures
        r == heat_color(heat(difference(p, q))),
{
    let level: u32 = 77 * byte_gap(p.r, q.r) + 151 * byte_gap(p.g, q.g) + 28 * byte_gap(p.b, q.b);
    heatmap_color(Fraction::ratio(level, HEAT_MAX))
}

/// The heatmap of two pictures in their full size: the colour of the difference
/// where both have a pixel, magenta where only one has.
pub fn build_diff_heatmap(a: &Raster, b: &Raster) -> (r: Raster)
    requires
        a.wf(),
        b.wf(),
        addressable(larger(a.width, b.width) as int, larger(a.height, b.height) as int),
    ensures
        is_heatmap(&r, a, b),
{
    let common_w: u32 = if a.width < b.width {
        a.width
    } else {
        b.width
    };
    let common_h: u32 = if a.height < b.height {
        a.height
    } else {
        b.height
    };
    let mut out = Raster::from_pixel(
        max_of(a.width, b.width),
        max_of(a.height, b.height),
        Pixel { r: 255, g: 0, b: 255, a: 255 },
    );
    for y in 0..common_h
        invariant
            a.wf(),
            b.wf(),
            common_w <= a.width && common_w <= b.width,
            common_w == a.width || common_w == b.width,
            common_h <= a.height && common_h <= b.height,
            common_h == a.height || common_h == b.height,
            out.wf(),
            out.width == larger(a.width, b.width),
            out.height == larger(a.height, b.height),
            forall|i: int, j: int|
                out.contains(i, j) ==> #[trigger] out.pixel(i, j) == if i < common_w && j < y {
                    heatmap_pixel(a, b, i, j)
                } else {
                    magenta()
                },
    {
        for x in 0..common_w
            invariant
                a.wf(),
                b.wf(),
                common_w <= a.width && common_w <= b.width,
                common_h <= a.height && common_h <= b.height,
                y < common_h,
                out.wf(),
                out.width == larger(a.width, b.width),
                out.height == larger(a.height, b.height),
                forall|i: int, j: int|
                    out.contains(i, j) ==> #[trigger] out.pixel(i, j) == if (i < common_w && j < y)
                        || (i < x && j == y) {
                        heatmap_pixel(a, b, i, j)
                    } else {
                        magenta()
                    },
        {
            let p: Pixel = heat_of(a.get_pixel(x, y), b.get_pixel(x, y));
            out.put_pixel(x, y, p);
        }
    }
    out
}

/// Difference of two numbers, but not below zero.
pub open spec fn less(a: u32, b: u32) -> u32 {
    if a < b {
        0
    } else {
        (a - b) as u32
    }
}

/// Height that the two small pictures may take: a third of the screen.
pub open spec fn top_height(term_h: u32) -> u32 {
    less(term_h, SEPARATOR) / 3
}

/// Height that the heatmap may take: what the small pictures and the bar leave.
pub open spec fn bottom_height(term_h: u32) -> u32 {
    less(less(term_h, top_height(term_h)), SEPARATOR)
}

/// Pixel `(x, y)` of a comparison that is `width` pixels wide: the two small
/// pictures side by side, a bar, and the heatmap in the middle below.
pub open spec fn comparison_pixel(
    first: &Raster,
    second: &Raster,
    heatmap: &Raster,
    width: int,
    x: int,
    y: int,
) -> Pixel {
    let top = larger(first.height, second.height);
    if y < top {
        two_up_pixel(first, second, x, y)
    } else if y < top + SEPARATOR {
        gray()
    } else {
        let left = (width - heatmap.width) / 2;
        if heatmap.contains(x - left, y - top - SEPARATOR) {
            laid_on(Pixel::clear(), heatmap.pixel(x - left, y - top - SEPARATOR))
        } else {
            Pixel::clear()
        }
    }
}

/// Width of a comparison: that of its wider part.
pub open spec fn comparison_width(first: &Raster, second: &Raster, heatmap: &Raster) -> int {
    let top = first.width + SEPARATOR + second.width;
    if top < heatmap.width {
        heatmap.width as int
    } else {
        top
    }
}

/// Height of a comparison: that of its parts and the bar.
pub open spec fn comparison_height(first: &Raster, second: &Raster, heatmap: &Raster) -> int {
    larger(first.height, second.height) + SEPARATOR + heatmap.height
}

/// `r` shows the two small pictures above the heatmap.
pub open spec fn is_comparison(
    r: &Raster,
    first: &Raster,
    second: &Raster,
    heatmap: &Raster,
) -> bool {
    &&& r.wf()
    &&& r.width == comparison_width(first, second, heatmap)
    &&& r.height == comparison_height(first, second, heatmap)
    &&& forall|x: int, y: int|
        r.contains(x, y) ==> #[trigger] r.pixel(x, y) == comparison_pixel(
            first,
            second,
            heatmap,
            r.width as int,
            x,
            y,
        )
}

/// Puts two small pictures side by side above a heatmap, with gray bars between
/// them.
pub fn join_comparison(first: &Raster, second: &Raster, heatmap: &Raster) -> (r: Raster)
    requires
        first.wf(),
        second.wf(),
        heatmap.wf(),
        comparison_width(first, second, heatmap) <= u32::MAX,
        comparison_height(first, second, heatmap) <= u32::MAX,
        addressable(
            comparison_width(first, second, heatmap),
            comparison_height(first, second, heatmap),
        ),
    ensures
        is_comparison(&r, first, second, heatmap),
{
    let top: u32 = max_of(first.height, second.height);
    let w: u32 = max_of(first.width + SEPARATOR + second.width, heatmap.width);
    let h: u32 = top + SEPARATOR + heatmap.height;
    let mut canvas = Raster::new(w, h);
    let bar = Pixel { r: 128, g: 128, b: 128, a: 255 };
    canvas.fill(first.width, first.width + SEPARATOR, 0, top, bar);
    canvas.fill(0, w, top, top + SEPARATOR, bar);
    let with_first = overlay(canvas, first, 0, 0);
    let with_both = overlay(with_first, second, (first.width + SEPARATOR) as i64, 0);
    let left: u32 = (w - heatmap.width) / 2;
    let all = overlay(with_both, heatmap, left as i64, (top + SEPARATOR) as i64);
    proof {
        assert forall|x: int, y: int| all.contains(x, y) implies #[trigger] all.pixel(x, y)
            == comparison_pixel(first, second, heatmap, w as int, x, y) by {
            assert(with_both.contains(x, y) && with_first.contains(x, y) && canvas.contains(x, y));
            assert(with_both.pixel(x, y) == with_both.pixel(x, y));
            assert(with_first.pixel(x, y) == with_first.pixel(x, y));
            assert(canvas.pixel(x, y) == canvas.pixel(x, y));
        }
    }
    all
}

/// `r` compares two decoded pictures on a screen of `term_w` by `term_h` pixels,
/// with the given parts: the two small pictures, the heatmap in full size and the
/// heatmap as it is shown.
pub open spec fn has_parts(
    r: &Raster,
    img1: &Picture,
    img2: &Picture,
    term_w: u32,
    term_h: u32,
    parts: (Raster, Raster, Raster, Raster),
) -> bool {
    let (first, second, full, heatmap) = parts;
    &&& is_thumbnail(&first, img1, half_width(term_w), top_height(term_h))
    &&& is_thumbnail(&second, img2, half_width(term_w), top_height(term_h))
    &&& is_heatmap(&full, &img1.rgba, &img2.rgba)
    &&& is_scaled(&heatmap, &full, full.width, full.height, term_w, bottom_height(term_h))
    &&& is_comparison(r, &first, &second, &heatmap)
}

/// `r` compares two decoded pictures on a screen of `term_w` by `term_h` pixels.
pub open spec fn is_comparison_on_screen(
    r: &Raster,
    img1: &Picture,
    img2: &Picture,
    term_w: u32,
    term_h: u32,
) -> bool {
    exists|parts: (Raster, Raster, Raster, Raster)| #[trigger]
        has_parts(r, img1, img2, term_w, term_h, parts)
}

/// Size of the comparison of two pictures on a screen.
pub open spec fn comparison_size(a: &Raster, b: &Raster, term_w: u32, term_h: u32) -> (int, int) {
    let (w1, h1) = fitted(
        a.width as nat,
        a.height as nat,
        half_width(term_w) as nat,
        top_height(term_h) as nat,
    );
    let (w2, h2) = fitted(
        b.width as nat,
        b.height as nat,
        half_width(term_w) as nat,
        top_height(term_h) as nat,
    );
    let (w3, h3) = fitted(
        larger(a.width, b.width) as nat,
        larger(a.height, b.height) as nat,
        term_w as nat,
        bottom_height(term_h) as nat,
    );
    (
        if w1 + SEPARATOR + w2 < w3 {
            w3 as int
        } else {
            w1 + SEPARATOR + w2
        },
        (if h1 < h2 {
            h2
        } else {
            h1
        }) + SEPARATOR + h3,
    )
}

/// A comparison takes no more room than the screen, if the screen has room for
/// the bars and one pixel of each part.
pub proof fn law_comparison_lies_on_screen(a: &Raster, b: &Raster, term_w: u32, term_h: u32)
    ensures
        term_w >= SEPARATOR + 2 ==> comparison_size(a, b, term_w, term_h).0 <= term_w,
        term_w < SEPARATOR + 2 ==> comparison_size(a, b, term_w, term_h).0 <= SEPARATOR + 2,
        term_h >= SEPARATOR + 3 ==> comparison_size(a, b, term_w, term_h).1 <= term_h,
        term_h < SEPARATOR + 3 ==> comparison_size(a, b, term_w, term_h).1 <= SEPARATOR + 3,
{
    law_fitted_lies_in_box(a.width, a.height, half_width(term_w), top_height(term_h));
    law_fitted_lies_in_box(b.width, b.height, half_width(term_w), top_height(term_h));
    law_fitted_lies_in_box(
        larger(a.width, b.width),
        larger(a.height, b.height),
        term_w,
        bottom_height(term_h),
    );
}

/// Two pictures can be compared on a screen: the parts of the comparison can be
/// scaled into their places, and the heatmap and the comparison can be addressed.
pub open spec fn can_compare(a: &Raster, b: &Raster, term_w: u32, term_h: u32) -> bool {
    let (w, h) = (larger(a.width, b.width), larger(a.height, b.height));
    &&& can_scale(a.width, a.height, half_width(term_w), top_height(term_h))
    &&& can_scale(b.width, b.height, half_width(term_w), top_height(term_h))
    &&& can_scale(w, h, term_w, bottom_height(term_h))
    &&& addressable(w as int, h as int)
    &&& addressable(
        comparison_size(a, b, term_w, term_h).0,
        comparison_size(a, b, term_w, term_h).1,
    )
}

/// Size of the comparison of two pictures on a screen.
fn measure_comparison(a: &Raster, b: &Raster, term_w: u32, term_h: u32) -> (r: (u32, u32))
    ensures
        (r.0 as int, r.1 as int) == comparison_size(a, b, term_w, term_h),
{
    let top_h: u32 = term_h.saturating_sub(SEPARATOR) / 3;
    let diff_h: u32 = term_h.saturating_sub(top_h).saturating_sub(SEPARATOR);
    let half: u32 = term_w.saturating_sub(SEPARATOR) / 2;
    let (w1, h1): (u32, u32) = fit_size(a.width, a.height, half, top_h);
    let (w2, h2): (u32, u32) = fit_size(b.width, b.height, half, top_h);
    let (w3, h3): (u32, u32) = fit_size(
        max_of(a.width, b.width),
        max_of(a.height, b.height),
        term_w,
        diff_h,
    );
    proof {
        law_comparison_lies_on_screen(a, b, term_w, term_h);
    }
    (max_of(w1 + SEPARATOR + w2, w3), max_of(h1, h2) + SEPARATOR + h3)
}

/// Whether two pictures can be compared on a screen.
pub fn is_comparable(a: &Raster, b: &Raster, term_w: u32, term_h: u32) -> (r: bool)
    ensures
        r == can_compare(a, b, term_w, term_h),
{
    let top_h: u32 = term_h.saturating_sub(SEPARATOR) / 3;
    let diff_h: u32 = term_h.saturating_sub(top_h).saturating_sub(SEPARATOR);
    let half: u32 = term_w.saturating_sub(SEPARATOR) / 2;
    let w: u32 = max_of(a.width, b.width);
    let h: u32 = max_of(a.height, b.height);
    let (cw, ch): (u32, u32) = measure_comparison(a, b, term_w, term_h);
    is_addressable(w, h) && is_addressable(cw, ch) && is_scalable(w, h, term_w, diff_h)
        && is_scalable(a.width, a.height, half, top_h) && is_scalable(
        b.width,
        b.height,
        half,
        top_h,
    )
}

/// Compares two pictures on a screen of `term_w` by `term_h` pixels: both small
/// in the top third, their heatmap below.
pub fn build_comparison(img1: &Picture, img2: &Picture, term_w: u32, term_h: u32) -> (r: Raster)
    requires
        img1.wf(),
        img2.wf(),
        can_compare(&img1.rgba, &img2.rgba, term_w, term_h),
    ensures
        is_comparison_on_screen(&r, img1, img2, term_w, term_h),
        (r.width as int, r.height as int) == comparison_size(
            &img1.rgba,
            &img2.rgba,
            term_w,
            term_h,
        ),
{
    let top_h: u32 = term_h.saturating_sub(SEPARATOR) / 3;
    let diff_h: u32 = term_h.saturating_sub(top_h).saturating_sub(SEPARATOR);
    let thumb_w: u32 = term_w.saturating_sub(SEPARATOR) / 2;
    let first = scale_dynamic(img1, thumb_w, top_h);
    let second = scale_dynamic(img2, thumb_w, top_h);
    let full = build_diff_heatmap(&img1.rgba, &img2.rgba);
    let heatmap = scale_rgba(&full, term_w, diff_h);
    proof {
        law_comparison_lies_on_screen(&img1.rgba, &img2.rgba, term_w, term_h);
    }
    let r = join_comparison(&first, &second, &heatmap);
    assert(has_parts(&r, img1, img2, term_w, term_h, (first, second, full, heatmap)));
    r
}

/// A share of full brightness is rounded down, but for a tiny part.
proof fn lemma_brightness(units: int)
    requires
        0 <= units <= ONE,
    ensures
        brightness(units) * 0x100_0000_0000 <= 255 * units + 0x100_0000,
        brightness(units) * 0x100_0000_0000 + 0x100_0000_0000 + 0x100_0000 > 255 * units,
{
    let f = Fraction { units: units as i64 };
    lemma_whole_product(f, 255);
    law_whole_product_is_rounded_down(f, 255);
}

/// The colours of heat change evenly: in the first quarter of the scale blue grows
/// from nothing to all, in the second green does and blue goes back, in the third
/// red grows, and in the last green goes back. Each is its share of 255, rounded
/// down, but for a tiny part.
pub proof fn law_heat_colors_change_evenly(t: Fraction)
    requires
        0 <= t.units <= 0x100_0000_0000,
    ensures
        ({
            let p = heat_color(t);
            let quarter = 0x40_0000_0000int;
            let tiny = 0x100_0000int;
            let full = 4 * quarter;
            &&& p.a == 255
            &&& t.units < quarter ==> p.r == 0 && p.g == 0 && p.b * full - tiny <= 1020 * t.units < p.b
                * full + full + tiny
            &&& quarter <= t.units < 2 * quarter ==> {
                &&& p.r == 0
                &&& p.g * full - tiny <= 1020 * (t.units - quarter) < p.g * full + full + tiny
                &&& p.b * full - tiny <= 1020 * (2 * quarter - t.units) < p.b * full + full + tiny
            }
            &&& 2 * quarter <= t.units < 3 * quarter ==> p.g == 255 && p.b == 0 && p.r * full - tiny
                <= 1020 * (t.units - 2 * quarter) < p.r * full + full + tiny
            &&& 3 * quarter <= t.units ==> p.r == 255 && p.b == 0 && p.g * full - tiny <= 1020 * (full
                - t.units) < p.g * full + full + tiny
        }),
{
    let quarter = 0x40_0000_0000int;
    assert(clamped(t) == t);
    assert(ONE as int / 4 == quarter);
    if t.units < quarter {
        lemma_brightness(4 * t.units);
    } else if t.units < 2 * quarter {
        lemma_brightness(4 * (t.units - quarter));
        lemma_brightness(ONE - 4 * (t.units - quarter));
    } else if t.units < 3 * quarter {
        lemma_brightness(4 * (t.units - 2 * quarter));
    } else {
        lemma_brightness(ONE - 4 * (t.units - 3 * quarter));
    }
}

/// A weighted difference in units of heat, but for one part in `2^24`.
proof fn lemma_heat(level: int)
    requires
        0 <= level <= 65280,
    ensures
        heat(level).units == rounded(
            level as nat * ONE as nat,
            HEAT_MAX as nat,
            SINGLE as nat,
        ),
        0 <= heat(level).units <= ONE,
        65280 * heat(level).units <= level * 0x100_0000_0000 + level * 0x1_0000,
        65280 * heat(level).units >= level * 0x100_0000_0000 - level * 0x1_0000,
        level >= 16320 ==> heat(level).units >= ONE / 4,
        level >= 32640 ==> heat(level).units >= ONE / 2,
        level >= 48960 ==> heat(level).units >= ONE / 4 * 3,
{
    let n = level as nat * ONE as nat;
    let d = HEAT_MAX as nat;
    assert(n == level * 0x100_0000_0000) by (nonlinear_arith)
        requires
            n == level as nat * ONE as nat,
            level >= 0,
    ;
    let f = rounded(n, d, SINGLE as nat);
    crate::rounding::lemma_single_error(n, d);
    assert(f * d == 65280 * f) by (nonlinear_arith)
        requires
            d == 65280,
    ;
    vstd::arithmetic::power2::lemma2_to64_rest();
    assert(n / d <= 0x100_0000_0000) by (nonlinear_arith)
        requires
            n <= 65280 * 0x100_0000_0000,
            d == 65280,
    ;
    let (h, q) = (pow2(39), pow2(38));
    assert(h == 0x80_0000_0000 && q == 0x40_0000_0000);
    assert(pow2(40) == 0x100_0000_0000);
    assert((1 * pow2(40)) * d == 0x100_0000_0000 * 65280 && (1 * q) * d == 0x40_0000_0000 * 65280
        && (1 * h) * d == 0x80_0000_0000 * 65280 && (3 * q) * d == 3 * 0x40_0000_0000 * 65280);
    crate::rounding::lemma_rounded_bound(n, d, SINGLE as nat, 1, 40);
    crate::rounding::lemma_rounded_bound(n, d, SINGLE as nat, 1, 38);
    crate::rounding::lemma_rounded_bound(n, d, SINGLE as nat, 1, 39);
    crate::rounding::lemma_rounded_bound(n, d, SINGLE as nat, 3, 38);
}

/// The colour of a pixel in the heatmap goes by how far the two pixels are apart in
/// red, green and blue, whichever of them is above the other: 77, 151 and 28 times
/// the distances are added up, and the sum runs through the scale of heat from
/// nothing to its largest value, 65280. Opacity does not count.
pub proof fn law_heatmap_shows_the_distance(
    a: &Raster,
    b: &Raster,
    x: int,
    y: int,
    dr: int,
    dg: int,
    db: int,
)
    requires
        0 <= x < a.width && x < b.width,
        0 <= y < a.height && y < b.height,
        dr >= 0 && (a.pixel(x, y).r - b.pixel(x, y).r == dr || b.pixel(x, y).r - a.pixel(x, y).r
            == dr),
        dg >= 0 && (a.pixel(x, y).g - b.pixel(x, y).g == dg || b.pixel(x, y).g - a.pixel(x, y).g
            == dg),
        db >= 0 && (a.pixel(x, y).b - b.pixel(x, y).b == db || b.pixel(x, y).b - a.pixel(x, y).b
            == db),
    ensures
        ({
            let sum = 77 * dr + 151 * dg + 28 * db;
            let p = heatmap_pixel(a, b, x, y);
            &&& p.a == 255
            &&& sum < 16320 ==> p.r == 0 && p.g == 0 && 64 * p.b <= sum <= 64 * p.b + 64
            &&& 16320 <= sum < 32640 ==> {
                &&& p.r == 0
                &&& 64 * p.g <= sum - 16320 <= 64 * p.g + 64
                &&& 64 * p.b <= 32640 - sum <= 64 * p.b + 64
            }
            &&& 32640 <= sum < 48960 ==> p.g == 255 && p.b == 0 && 64 * p.r <= sum - 32640 <= 64
                * p.r + 64
            &&& 48960 <= sum ==> p.r == 255 && p.b == 0 && 64 * p.g <= 65280 - sum <= 64 * p.g + 64
        }),
{
    let sum = 77 * dr + 151 * dg + 28 * db;
    assert(difference(a.pixel(x, y), b.pixel(x, y)) == sum);
    lemma_heat(sum);
    law_heat_colors_change_evenly(heat(sum));
}

/// The heatmap is as large as both pictures together need, and magenta wherever one
/// of them has no pixel.
pub proof fn law_heatmap_marks_what_is_missing(r: &Raster, a: &Raster, b: &Raster, x: int, y: int)
    requires
        is_heatmap(r, a, b),
    ensures
        r.width >= a.width && r.width >= b.width && (r.width == a.width || r.width == b.width),
        r.height >= a.height && r.height >= b.height && (r.height == a.height || r.height
            == b.height),
        0 <= x < r.width && 0 <= y < r.height && (x >= a.width || x >= b.width || y >= a.height || y
            >= b.height) ==> r.pixel(x, y) == (Pixel { r: 255, g: 0, b: 255, a: 255 }),
        0 <= x < a.width && x < b.width && 0 <= y < a.height && y < b.height ==> r.pixel(x, y)
            == heatmap_pixel(a, b, x, y),
{
    if 0 <= x < r.width && 0 <= y < r.height {
        assert(r.contains(x, y));
    }
}

/// A screen is divided into three: four rows for the bar, a third of the others,
/// rounded down, for the small pictures above it, and the rest for the heatmap below.
pub proof fn law_screen_is_divided(term_h: u32)
    ensures
        term_h >= 4 ==> top_height(term_h) + 4 + bottom_height(term_h) == term_h,
        term_h >= 4 ==> 3 * top_height(term_h) <= term_h - 4 <= 3 * top_height(term_h) + 2,
        term_h < 4 ==> top_height(term_h) == 0 && bottom_height(term_h) == 0,
{
}

/// A comparison shows its parts: the opaque pixels of the first small picture at the
/// top left, those of the second one four columns right of it, four gray rows below
/// the higher one and four gray columns between them, and below the rows those of
/// the heatmap, with as much room left of it as right of it, or one column less.
pub proof fn law_comparison_shows_its_parts(
    r: &Raster,
    first: &Raster,
    second: &Raster,
    heatmap: &Raster,
    x: int,
    y: int,
) -> (left: int)
    requires
        is_comparison(r, first, second, heatmap),
    ensures
        ({
            let bar = Pixel { r: 128, g: 128, b: 128, a: 255 };
            let top = if first.height < second.height {
                second.height
            } else {
                first.height
            };
            &&& r.height == top + 4 + heatmap.height
            &&& r.width >= first.width + 4 + second.width && r.width >= heatmap.width
            &&& r.width == first.width + 4 + second.width || r.width == heatmap.width
            &&& 2 * left <= r.width - heatmap.width <= 2 * left + 1
            &&& 0 <= x < first.width && 0 <= y < first.height && first.pixel(x, y).a == 255
                ==> r.pixel(x, y) == first.pixel(x, y)
            &&& 0 <= x < second.width && 0 <= y < second.height && second.pixel(x, y).a == 255
                ==> r.pixel(first.width + 4 + x, y) == second.pixel(x, y)
            &&& 0 <= x < 4 && 0 <= y < top ==> r.pixel(first.width + x, y) == bar
            &&& 0 <= x < r.width && 0 <= y < 4 ==> r.pixel(x, top + y) == bar
            &&& 0 <= x < heatmap.width && 0 <= y < heatmap.height && heatmap.pixel(x, y).a == 255
                ==> r.pixel(left + x, top + 4 + y) == heatmap.pixel(x, y)
        }),
{
    let top = larger(first.height, second.height);
    let left = (r.width - heatmap.width) / 2;
    if 0 <= x < first.width && 0 <= y < first.height {
        assert(r.contains(x, y));
    }
    if 0 <= x < second.width && 0 <= y < second.height {
        assert(r.contains(first.width + 4 + x, y));
    }
    if 0 <= x < 4 && 0 <= y < top {
        assert(r.contains(first.width + x, y));
    }
    if 0 <= x < r.width && 0 <= y < 4 {
        assert(r.contains(x, top + y));
    }
    if 0 <= x < heatmap.width && 0 <= y < heatmap.height {
        assert(r.contains(left + x, top + 4 + y));
    }
    left
}

/// A comparison on a screen is of its two pictures: the first one small at the left,
/// the second one small at the right, each in half the width that four columns leave
/// and in the rows above the bar, and below it the heatmap of both in full size,
/// scaled into the whole width and the rows that are left.
pub proof fn law_comparison_is_of_its_pictures(
    r: &Raster,
    img1: &Picture,
    img2: &Picture,
    term_w: u32,
    term_h: u32,
) -> (parts: (Raster, Raster, Raster, Raster))
    requires
        term_w >= 4,
        term_h >= 4,
        is_comparison_on_screen(r, img1, img2, term_w, term_h),
    ensures
        ({
            let (first, second, full, heatmap) = parts;
            let half = ((term_w - 4) / 2) as u32;
            let top = ((term_h - 4) / 3) as u32;
            &&& is_thumbnail(&first, img1, half, top)
            &&& is_thumbnail(&second, img2, half, top)
            &&& is_heatmap(&full, &img1.rgba, &img2.rgba)
            &&& is_scaled(
                &heatmap,
                &full,
                full.width,
                full.height,
                term_w,
                (term_h - 4 - top) as u32,
            )
            &&& is_comparison(r, &first, &second, &heatmap)
        }),
{
    choose|parts: (Raster, Raster, Raster, Raster)| #[trigger]
        has_parts(r, img1, img2, term_w, term_h, parts)
}

/// On a machine with addresses of 64 bits, pictures that can be addressed together
/// can be compared on every screen of ordinary size.
pub proof fn law_ordinary_screens_hold_every_comparison(
    a: &Raster,
    b: &Raster,
    term_w: u32,
    term_h: u32,
    w: u32,
    h: u32,
)
    requires
        isize::MAX == 0x7fff_ffff_ffff_ffff,
        w >= a.width && w >= b.width,
        h >= a.height && h >= b.height,
        4 * (w * h) <= isize::MAX,
        term_w <= 0x80_0000,
        term_h <= 0x80_0000,
    ensures
        can_compare(a, b, term_w, term_h),
{
    let (cw, ch) = (larger(a.width, b.width), larger(a.height, b.height));
    assert(cw * ch <= w * h) by (nonlinear_arith)
        requires
            0 <= cw <= w,
            0 <= ch <= h,
    ;
    assert(cw * ch * 4 == 4 * (cw * ch)) by (nonlinear_arith);
    let (half, top) = (half_width(term_w), top_height(term_h));
    law_every_picture_can_be_scaled(a.width, a.height, half, top);
    law_every_picture_can_be_scaled(b.width, b.height, half, top);
    law_every_picture_can_be_scaled(cw, ch, term_w, bottom_height(term_h));
    law_comparison_lies_on_screen(a, b, term_w, term_h);
    let (x, y) = comparison_size(a, b, term_w, term_h);
    assert(x * y * 4 <= 0x80_0000 * 0x80_0000 * 4) by (nonlinear_arith)
        requires
            0 <= x <= 0x80_0000,
            0 <= y <= 0x80_0000,
    ;
}

/// Heat and brightness are worked out in single precision.
pub proof fn law_heat_is_in_single_precision(level: nat, units: nat)
    requires
        level <= 65280,
        units <= 0x100_0000_0000,
    ensures
        heat(level as int).units == rounded(level * 0x100_0000_0000, 65280, 0x100_0000),
        brightness(units as int) == rounded(units * 255, 1, 0x100_0000) / 0x100_0000_0000,
{
    lemma_heat(level as int);
    assert(level * ONE as nat == level * 0x100_0000_0000) by (nonlinear_arith)
        requires
            ONE == 0x100_0000_0000,
    ;
    lemma_whole_product(Fraction { units: units as i64 }, 255);
}

/// Beside and below its parts a comparison is clear.
pub proof fn law_comparison_is_clear_elsewhere(
    r: &Raster,
    first: &Raster,
    second: &Raster,
    heatmap: &Raster,
    x: int,
    y: int,
)
    requires
        is_comparison(r, first, second, heatmap),
        0 <= x < r.width,
        0 <= y < r.height,
    ensures
        ({
            let top = if first.height < second.height {
                second.height
            } else {
                first.height
            };
            let left = (r.width - heatmap.width) / 2;
            let clear = Pixel { r: 0, g: 0, b: 0, a: 0 };
            &&& x < first.width && first.height <= y < top ==> r.pixel(x, y) == clear
            &&& first.width + 4 <= x && second.height <= y < top ==> r.pixel(x, y) == clear
            &&& first.width + 4 + second.width <= x && y < top ==> r.pixel(x, y) == clear
            &&& top + 4 <= y && (x < left || x >= left + heatmap.width) ==> r.pixel(x, y) == clear
        }),
{
    assert(r.contains(x, y));
}

/// A partly transparent pixel of a part is mixed with nothing but a clear one.
pub proof fn law_comparison_mixes_no_parts(
    r: &Raster,
    first: &Raster,
    second: &Raster,
    heatmap: &Raster,
    x: int,
    y: int,
)
    requires
        is_comparison(r, first, second, heatmap),
    ensures
        ({
            let clear = Pixel { r: 0, g: 0, b: 0, a: 0 };
            let top = if first.height < second.height {
                second.height
            } else {
                first.height
            };
            let left = (r.width - heatmap.width) / 2;
            &&& 0 <= x < first.width && 0 <= y < first.height ==> r.pixel(x, y) == laid_on(
                clear,
                first.pixel(x, y),
            )
            &&& 0 <= x < second.width && 0 <= y < second.height ==> r.pixel(first.width + 4 + x, y)
                == laid_on(clear, second.pixel(x, y))
            &&& 0 <= x < heatmap.width && 0 <= y < heatmap.height ==> r.pixel(left + x, top + 4 + y)
                == laid_on(clear, heatmap.pixel(x, y))
        }),
{
    let top = larger(first.height, second.height);
    let left = (r.width - heatmap.width) / 2;
    if 0 <= x < first.width && 0 <= y < first.height {
        assert(r.contains(x, y));
    }
    if 0 <= x < second.width && 0 <= y < second.height {
        assert(r.contains(first.width + 4 + x, y));
    }
    if 0 <= x < heatmap.width && 0 <= y < heatmap.height {
        assert(r.contains(left + x, top + 4 + y));
    }
}

} // verus!
