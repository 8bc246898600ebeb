//! Text output: half-block characters in colour, two pixels per character cell.
use crate::fraction::{
    law_whole_product_is_rounded_down, lemma_whole_product, whole_product, Fraction, ONE,
};
use crate::palette::Rgb;
use crate::raster::{Pixel, Raster};
use crate::rounding::{
    lemma_rounded, lemma_rounded_bound, lemma_single_error, rounded, SINGLE,
};
use crate::text::{
    law_decimal_reads_back, lemma_ascii, push_text, push_three_numbers, three_numbers, utf8,
};
use vstd::arithmetic::power2::{lemma2_to64_rest, pow2};
use vstd::prelude::*;
use vstd::utf8::{encode_scalar, encode_utf8};

verus! {

/// The single-precision number between zero and one that stands for an opacity.
pub open spec fn opacity(a: u8) -> Fraction {
    Fraction { units: rounded(a as nat * ONE as nat, 255, SINGLE as nat) as i64 }
}

/// A colour value of a pixel on a black background: the whole part of the
/// single-precision product of opacity and value.
pub open spec fn on_black(value: u8, a: u8) -> u8 {
    whole_product(opacity(a), value as nat) as u8
}

/// The colour of a pixel on a black background.
pub open spec fn color_on_black(p: Pixel) -> Rgb {
    (on_black(p.r, p.a), on_black(p.g, p.a), on_black(p.b, p.a))
}

/// An opacity lies between zero and one.
proof fn lemma_opacity(a: u8)
    ensures
        rounded(a as nat * ONE as nat, 255, SINGLE as nat) <= ONE,
        opacity(a).wf(),
        a == 0 ==> opacity(a).units == 0,
        a == 255 ==> opacity(a).units == ONE,
{
    lemma2_to64_rest();
    let n = a as nat * ONE as nat;
    assert(pow2(40) == ONE);
    assert(n <= (1 * pow2(40)) * 255) by (nonlinear_arith)
        requires
            n == a as nat * ONE as nat,
            pow2(40) == ONE,
            a <= 255,
    ;
    lemma_rounded_bound(n, 255, SINGLE as nat, 1, 40);
    if a == 0 {
        lemma_rounded(0, 255, SINGLE as nat);
        assert(n == 0);
    }
    if a == 255 {
        assert(n >= (1 * pow2(40)) * 255) by (nonlinear_arith)
            requires
                n == a as nat * ONE as nat,
                pow2(40) == ONE,
                a == 255,
        ;
    }
}

/// On a black background an opaque colour stays, a clear one is black, and none
/// becomes brighter.
pub proof fn law_on_black(value: u8, a: u8)
    ensures
        a == 255 ==> on_black(value, a) == value,
        a == 0 ==> on_black(value, a) == 0,
        on_black(value, a) <= value,
{
    lemma_opacity(a);
    lemma_whole_product(opacity(a), value as nat);
}

/// Blends a pixel with a black background.
pub fn blend_alpha_rgb(p: Pixel) -> (r: Rgb)
    ensures
        r == color_on_black(p),
{
    let a = Fraction::ratio(p.a as u32, 255);
    let r: u32 = a.whole_times(p.r as u32);
    let g: u32 = a.whole_times(p.g as u32);
    let b: u32 = a.whole_times(p.b as u32);
    (r as u8, g as u8, b as u8)
}

/// A colour as three numbers.
pub open spec fn color_numbers(c: Rgb) -> Seq<u8> {
    three_numbers(c.0 as nat, c.1 as nat, c.2 as nat)
}

/// A character cell: the upper pixel as the background of a half-block, the lower
/// one as its foreground.
pub open spec fn cell(top: Pixel, bottom: Pixel) -> Seq<u8> {
    utf8("\x1b[48;2;") + color_numbers(color_on_black(top)) + utf8("m\x1b[38;2;") + color_numbers(
        color_on_black(bottom),
    ) + utf8("m▄")
}

/// The first `n` cells of the line for the pixel rows `y` and `y + 1`; a missing
/// last row repeats the one above.
pub open spec fn cells(img: &Raster, y: int, n: nat) -> Seq<u8>
    decreases n,
{
    if n == 0 {
        Seq::empty()
    } else {
        let x = n - 1;
        let bottom = if y + 1 < img.height {
            img.pixel(x, y + 1)
        } else {
            img.pixel(x, y)
        };
        cells(img, y, (n - 1) as nat) + cell(img.pixel(x, y), bottom)
    }
}

/// The line for the pixel rows `y` and `y + 1`. It ends with a carriage return as
/// well as a line feed, as a terminal in raw mode needs both.
pub open spec fn line(img: &Raster, y: int) -> Seq<u8> {
    cells(img, y, img.width as nat) + utf8("\x1b[0m\r\n")
}

/// The first `n` lines of a picture.
pub open spec fn lines(img: &Raster, n: nat) -> Seq<u8>
    decreases n,
{
    if n == 0 {
        Seq::empty()
    } else {
        lines(img, (n - 1) as nat) + line(img, 2 * (n - 1))
    }
}

/// Number of lines that a picture takes: one for two pixel rows.
pub open spec fn line_count(height: u32) -> nat {
    ((height + 1) / 2) as nat
}

/// The half-block character.
pub open spec fn glyph() -> Seq<u8> {
    utf8("▄")
}

/// How many half-block characters there are.
pub open spec fn glyph_count(bytes: Seq<u8>) -> nat
    decreases bytes.len(),
{
    if bytes.len() < 3 {
        0
    } else {
        glyph_count(bytes.drop_last()) + if bytes.skip(bytes.len() - 3) == glyph() {
            1nat
        } else {
            0nat
        }
    }
}

/// How many line feeds there are.
pub open spec fn feed_count(bytes: Seq<u8>) -> nat
    decreases bytes.len(),
{
    if bytes.len() == 0 {
        0
    } else {
        feed_count(bytes.drop_last()) + if bytes.last() == 10 {
            1nat
        } else {
            0nat
        }
    }
}

/// Every line feed follows a carriage return.
pub open spec fn feeds_follow_returns(bytes: Seq<u8>) -> bool {
    forall|i: int| 0 <= i < bytes.len() && #[trigger] bytes[i] == 10 ==> 0 < i && bytes[i - 1] == 13
}

/// The half-block character has three bytes.
pub proof fn lemma_glyph()
    ensures
        glyph() == seq![0xe2u8, 0x96u8, 0x84u8],
        utf8("m▄") == seq![109u8, 0xe2u8, 0x96u8, 0x84u8],
{
    reveal_strlit("▄");
    reveal_strlit("m▄");
    reveal_with_fuel(encode_utf8, 3);
    let c: u32 = 0x2584;
    assert('▄' as u32 == c);
    assert((0xE0 | ((c >> 12) & 0x0F) as u8) == 0xe2) by (bit_vector)
        requires
            c == 0x2584,
    ;
    assert((0x80 | ((c >> 6) & 0x3F) as u8) == 0x96) by (bit_vector)
        requires
            c == 0x2584,
    ;
    assert((0x80 | (c & 0x3F) as u8) == 0x84) by (bit_vector)
        requires
            c == 0x2584,
    ;
    let m: u32 = 109;
    assert('m' as u32 == m);
    assert((m & 0x7F) as u8 == 109) by (bit_vector)
        requires
            m == 109,
    ;
    assert("▄"@.drop_first() =~= Seq::empty());
    assert("m▄"@.drop_first() =~= seq!['▄']);
    assert("m▄"@.drop_first().drop_first() =~= Seq::empty());
    assert(encode_scalar(c) =~= seq![0xe2u8, 0x96u8, 0x84u8]);
    assert(encode_scalar(m) =~= seq![109u8]);
    assert(glyph() =~= seq![0xe2u8, 0x96u8, 0x84u8]);
    assert(utf8("m▄") =~= seq![109u8, 0xe2u8, 0x96u8, 0x84u8]);
}

/// Bytes of ASCII characters other than line feeds.
spec fn is_plain(bytes: Seq<u8>) -> bool {
    forall|i: int| 0 <= i < bytes.len() ==> #[trigger] bytes[i] < 128 && bytes[i] != 10
}

/// Plain bytes add no character and no line feed.
proof fn lemma_add_plain(before: Seq<u8>, plain: Seq<u8>)
    requires
        is_plain(plain),
    ensures
        glyph_count(before + plain) == glyph_count(before),
        feed_count(before + plain) == feed_count(before),
        feeds_follow_returns(before) ==> feeds_follow_returns(before + plain),
    decreases plain.len(),
{
    if plain.len() == 0 {
        assert(before + plain =~= before);
    } else {
        let rest = plain.drop_last();
        let whole = before + plain;
        assert forall|i: int| 0 <= i < rest.len() implies #[trigger] rest[i] < 128 && rest[i]
            != 10 by {
            assert(rest[i] == plain[i]);
        }
        lemma_add_plain(before, rest);
        assert(whole.drop_last() =~= before + rest);
        assert(whole.last() == plain[plain.len() - 1]);
        lemma_glyph();
        if whole.len() >= 3 {
            assert(whole.skip(whole.len() - 3)[2] == whole.last());
        }
        if feeds_follow_returns(before) {
            assert forall|i: int| 0 <= i < whole.len() && #[trigger] whole[i] == 10 implies 0 < i
                && whole[i - 1] == 13 by {
                if i < before.len() {
                    assert(before[i] == 10);
                } else {
                    assert(plain[i - before.len()] == 10);
                }
            }
        }
    }
}

/// A half-block character adds itself and no line feed.
proof fn lemma_add_glyph(before: Seq<u8>)
    ensures
        glyph_count(before + glyph()) == glyph_count(before) + 1,
        feed_count(before + glyph()) == feed_count(before),
        feeds_follow_returns(before) ==> feeds_follow_returns(before + glyph()),
{
    lemma_glyph();
    let one = before.push(0xe2);
    let two = one.push(0x96);
    let three = two.push(0x84);
    assert(before + glyph() =~= three);
    assert(one.drop_last() =~= before && two.drop_last() =~= one && three.drop_last() =~= two);
    if one.len() >= 3 {
        assert(one.skip(one.len() - 3)[2] == 0xe2);
    }
    if two.len() >= 3 {
        assert(two.skip(two.len() - 3)[2] == 0x96);
    }
    assert(three.skip(three.len() - 3) =~= glyph());
    assert(glyph_count(one) == glyph_count(before) && feed_count(one) == feed_count(before));
    assert(glyph_count(two) == glyph_count(one) && feed_count(two) == feed_count(one));
    assert(glyph_count(three) == glyph_count(two) + 1 && feed_count(three) == feed_count(two));
    if feeds_follow_returns(before) {
        assert forall|i: int| 0 <= i < three.len() && #[trigger] three[i] == 10 implies 0 < i
            && three[i - 1] == 13 by {
            assert(before[i] == 10);
        }
    }
}

/// The text of a cell before its character is plain.
proof fn lemma_cell(top: Pixel, bottom: Pixel) -> (plain: Seq<u8>)
    ensures
        cell(top, bottom) == plain + glyph(),
        is_plain(plain),
{
    lemma_glyph();
    let (t, b) = (color_on_black(top), color_on_black(bottom));
    let plain = utf8("\x1b[48;2;") + color_numbers(t) + utf8("m\x1b[38;2;") + color_numbers(b)
        + seq![109u8];
    assert(cell(top, bottom) =~= plain + glyph());
    reveal_strlit("\x1b[48;2;");
    reveal_strlit("m\x1b[38;2;");
    lemma_ascii("\x1b[48;2;");
    lemma_ascii("m\x1b[38;2;");
    lemma_color_numbers(t);
    lemma_color_numbers(b);
    plain
}

/// The numbers of a colour are plain.
proof fn lemma_color_numbers(c: Rgb)
    ensures
        is_plain(color_numbers(c)),
{
    reveal_strlit(";");
    lemma_ascii(";");
    law_decimal_reads_back(c.0 as nat);
    law_decimal_reads_back(c.1 as nat);
    law_decimal_reads_back(c.2 as nat);
}

/// So many cells are so many characters, without line feeds.
proof fn lemma_cells(before: Seq<u8>, img: &Raster, y: int, n: nat)
    ensures
        glyph_count(before + cells(img, y, n)) == glyph_count(before) + n,
        feed_count(before + cells(img, y, n)) == feed_count(before),
        feeds_follow_returns(before) ==> feeds_follow_returns(before + cells(img, y, n)),
    decreases n,
{
    if n == 0 {
        assert(before + cells(img, y, n) =~= before);
    } else {
        let m = (n - 1) as nat;
        lemma_cells(before, img, y, m);
        let done = before + cells(img, y, m);
        let x = n - 1;
        let bottom = if y + 1 < img.height {
            img.pixel(x, y + 1)
        } else {
            img.pixel(x, y)
        };
        let plain = lemma_cell(img.pixel(x, y), bottom);
        lemma_add_plain(done, plain);
        lemma_add_glyph(done + plain);
        assert(before + cells(img, y, n) =~= done + plain + glyph());
    }
}

/// A line adds its characters and one line feed, behind a carriage return.
proof fn lemma_line(before: Seq<u8>, img: &Raster, y: int)
    ensures
        glyph_count(before + line(img, y)) == glyph_count(before) + img.width,
        feed_count(before + line(img, y)) == feed_count(before) + 1,
        feeds_follow_returns(before) ==> feeds_follow_returns(before + line(img, y)),
        (before + line(img, y)).last() == 10,
{
    let end = utf8("\x1b[0m\r\n");
    reveal_strlit("\x1b[0m\r\n");
    lemma_ascii("\x1b[0m\r\n");
    lemma_cells(before, img, y, img.width as nat);
    let done = before + cells(img, y, img.width as nat);
    let plain = end.drop_last();
    assert(end.len() == 6 && end[4] == 13 && end[5] == 10);
    assert(is_plain(plain)) by {
        assert forall|i: int| 0 <= i < plain.len() implies #[trigger] plain[i] < 128 && plain[i]
            != 10 by {
            assert(plain[i] == end[i]);
        }
    }
    lemma_add_plain(done, plain);
    let most = done + plain;
    let whole = before + line(img, y);
    assert(whole =~= most.push(10));
    assert(whole.drop_last() =~= most);
    lemma_glyph();
    assert(whole.skip(whole.len() - 3)[2] == 10);
    if feeds_follow_returns(before) {
        assert forall|i: int| 0 <= i < whole.len() && #[trigger] whole[i] == 10 implies 0 < i
            && whole[i - 1] == 13 by {
            if i < most.len() {
                assert(most[i] == 10);
            } else {
                assert(most[i - 1] == end[4]);
            }
        }
    }
}

/// Each line holds one half-block character for each column, and ends in a reset of
/// the colours, a carriage return and its only line feed.
pub proof fn law_line_is_as_wide_as_the_picture(img: &Raster, y: int)
    ensures
        glyph_count(line(img, y)) == img.width,
        feed_count(line(img, y)) == 1,
        line(img, y).last() == 10,
        utf8("\x1b[0m\r\n").is_suffix_of(line(img, y)),
{
    let none = Seq::<u8>::empty();
    lemma_line(none, img, y);
    assert(none + line(img, y) =~= line(img, y));
    let end = utf8("\x1b[0m\r\n");
    let whole = line(img, y);
    assert(whole.subrange(whole.len() - end.len(), whole.len() as int) =~= end);
}

/// Text of `n` lines has `n` line feeds, each behind a carriage return and the last
/// one at the end, and `n` times as many half-block characters as the picture has
/// columns.
pub proof fn law_lines_are_counted(img: &Raster, n: nat)
    ensures
        feed_count(lines(img, n)) == n,
        glyph_count(lines(img, n)) == n * img.width,
        feeds_follow_returns(lines(img, n)),
        n > 0 ==> lines(img, n).last() == 10,
    decreases n,
{
    if n > 0 {
        let m = (n - 1) as nat;
        law_lines_are_counted(img, m);
        lemma_line(lines(img, m), img, 2 * (n - 1));
        assert(m * img.width + img.width == n * img.width) by (nonlinear_arith)
            requires
                m == n - 1,
        ;
    } else {
        assert(0 * img.width == 0) by (nonlinear_arith);
    }
}

fn push_cell(out: &mut Vec<u8>, top: Pixel, bottom: Pixel)
    ensures
        final(out)@ == old(out)@ + cell(top, bottom),
{
    let ghost before = out@;
    push_text(out, "\x1b[48;2;");
    let upper: Rgb = blend_alpha_rgb(top);
    push_three_numbers(out, upper.0 as u64, upper.1 as u64, upper.2 as u64);
    push_text(out, "m\x1b[38;2;");
    let lower: Rgb = blend_alpha_rgb(bottom);
    push_three_numbers(out, lower.0 as u64, lower.1 as u64, lower.2 as u64);
    push_text(out, "m▄");
    assert(out@ =~= before + cell(top, bottom));
}

fn push_cells(out: &mut Vec<u8>, img: &Raster, y: u32)
    requires
        img.wf(),
        y < img.height,
    ensures
        final(out)@ == old(out)@ + cells(img, y as int, img.width as nat),
{
    let ghost before = out@;
    assert(out@ =~= before + cells(img, y as int, 0));
    for x in 0..img.width
        invariant
            img.wf(),
            y < img.height,
            out@ == before + cells(img, y as int, x as nat),
    {
        let top: Pixel = img.get_pixel(x, y);
        let bottom: Pixel = if img.height - y > 1 {
            img.get_pixel(x, y + 1)
        } else {
            top
        };
        push_cell(out, top, bottom);
        assert(out@ =~= before + cells(img, y as int, (x + 1) as nat));
    }
}

/// Writes a picture as coloured half-block characters. Each line of text shows
/// two pixel rows.
pub fn write_text(img: &Raster) -> (r: Vec<u8>)
    requires
        img.wf(),
    ensures
        r@ == lines(img, line_count(img.height)),
{
    let mut out: Vec<u8> = Vec::new();
    let count: u32 = img.height / 2 + img.height % 2;
    assert(out@ =~= lines(img, 0));
    for k in 0..count
        invariant
            img.wf(),
            count == line_count(img.height),
            out@ == lines(img, k as nat),
    {
        push_cells(&mut out, img, 2 * k);
        push_text(&mut out, "\x1b[0m\r\n");
        assert(out@ =~= lines(img, (k + 1) as nat));
    }
    out
}

/// A colour value on a black background is its share by opacity, rounded down; it
/// may be one less where the share is whole.
pub proof fn law_on_black_is_the_share(value: u8, a: u8)
    ensures
        255 * on_black(value, a) <= value * a <= 255 * on_black(value, a) + 255,
{
    lemma_opacity(a);
    let f = opacity(a);
    let n = a as nat * ONE as nat;
    assert(n == a * 0x100_0000_0000) by (nonlinear_arith)
        requires
            n == a as nat * ONE as nat,
    ;
    lemma_single_error(n, 255);
    assert(255 * f.units <= a * 0x100_0000_0000 + a * 0x1_0000);
    assert(255 * f.units >= a * 0x100_0000_0000 - a * 0x1_0000);
    lemma_whole_product(f, value as nat);
    law_whole_product_is_rounded_down(f, value as nat);
    let (v, t) = (on_black(value, a) as int, value * a);
    let x = f.units * value;
    assert(255 * x <= t * 0x100_0000_0000 + t * 0x1_0000 && 255 * x >= t * 0x100_0000_0000 - t
        * 0x1_0000 && 0 <= t <= 65025) by (nonlinear_arith)
        requires
            255 * f.units <= a * 0x100_0000_0000 + a * 0x1_0000,
            255 * f.units >= a * 0x100_0000_0000 - a * 0x1_0000,
            x == f.units * value,
            t == value * a,
            0 <= value <= 255,
            0 <= a <= 255,
    ;
    assert(0x100_0000 * (v * 0x100_0000_0000) <= 0x100_0001 * x);
    assert(0x100_0000 * (v * 0x100_0000_0000 + 0x100_0000_0000) > 0xff_ffff * x);
}

/// The colour of an opaque pixel is its red, its green and its blue.
pub proof fn law_opaque_colors_stay(p: Pixel)
    requires
        p.a == 255,
    ensures
        color_on_black(p) == (p.r, p.g, p.b),
{
    law_on_black(p.r, p.a);
    law_on_black(p.g, p.a);
    law_on_black(p.b, p.a);
}

/// A colour value on a black background is worked out in single precision.
pub proof fn law_on_black_is_in_single_precision(value: u8, a: u8)
    ensures
        on_black(value, a) == rounded(
            rounded(a as nat * 0x100_0000_0000, 255, 0x100_0000) * value as nat,
            1,
            0x100_0000,
        ) / 0x100_0000_0000,
{
    lemma_opacity(a);
    lemma_whole_product(opacity(a), value as nat);
    assert(a as nat * ONE as nat == a as nat * 0x100_0000_0000) by (nonlinear_arith)
        requires
            ONE == 0x100_0000_0000,
    ;
}

} // verus!
