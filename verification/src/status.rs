//! The two lines at the bottom of the screen: the slider and the help.
use crate::fraction::{
    law_whole_product_is_rounded_down, lemma_single_close, lemma_whole_product, product,
    whole_product, Fraction, ONE,
};
use crate::mode::CompareMode;
use crate::rounding::rounded;
use crate::text::{decimal, lemma_ascii, push_decimal, push_text, utf8};
use vstd::prelude::*;
use vstd::string::*;
use vstd::utf8::encode_utf8;

verus! {

/// The slider position in percent: the single-precision product, rounded.
pub open spec fn percentage(slider: Fraction) -> nat {
    (product(slider, 100) + ONE as nat / 2) / ONE as nat
}

/// A percentage in three places.
pub open spec fn percentage_label(p: nat) -> Seq<u8> {
    (if p < 10 {
        utf8("   ")
    } else if p < 100 {
        utf8("  ")
    } else {
        utf8(" ")
    }) + decimal(p) + utf8("%")
}

/// Width of the slider's bar: what the label and the brackets leave of the
/// columns, but at least ten.
pub open spec fn bar_width(cols: u16) -> nat {
    if cols < 17 {
        10
    } else {
        (cols - 7) as nat
    }
}

/// Place of the slider's knob on a bar.
pub open spec fn knob(slider: Fraction, width: nat) -> int {
    let place = whole_product(slider, width);
    if place < width {
        place as int
    } else {
        width - 1
    }
}

/// The symbol at place `i` of the bar: the knob, and lines left and right of it.
/// In a mode without slider there are dots.
pub open spec fn bar_symbol(slider: Fraction, width: nat, active: bool, i: int) -> Seq<u8> {
    if !active {
        utf8("·")
    } else if i == knob(slider, width) {
        utf8("\x1b[33m█\x1b[0m")
    } else if i < whole_product(slider, width) {
        utf8("=")
    } else {
        utf8("-")
    }
}

/// The first `n` symbols of the bar.
pub open spec fn bar(slider: Fraction, width: nat, active: bool, n: nat) -> Seq<u8>
    decreases n,
{
    if n == 0 {
        Seq::empty()
    } else {
        bar(slider, width, active, (n - 1) as nat) + bar_symbol(slider, width, active, n - 1)
    }
}

/// Moves to the start of row `row`, counted from one, and clears it.
pub open spec fn clear_row(row: nat) -> Seq<u8> {
    utf8("\x1b[") + decimal(row) + utf8(";1H\x1b[2K")
}

/// The row, counted from one, that lies `above` rows above the bottom row; the
/// second row on a screen that is too low.
pub open spec fn row_from_bottom(rows: u16, above: int) -> nat {
    if rows < above + 2 {
        2
    } else {
        (rows - above) as nat
    }
}

/// The slider's line.
pub open spec fn slider_line(cols: u16, slider: Fraction, active: bool) -> Seq<u8> {
    utf8("[") + bar(slider, bar_width(cols), active, bar_width(cols)) + utf8("]")
        + percentage_label(percentage(slider))
}

/// The line that names the mode and the keys.
pub open spec fn help_line(mode: CompareMode) -> Seq<u8> {
    utf8("mode: \x1b[1m") + utf8(mode.name()) + utf8(
        "\x1b[0m    \x1b[2m←/→ slider   m mode   q quit\x1b[0m",
    )
}

/// The two lines at the bottom of the screen.
pub open spec fn status_bar(cols: u16, rows: u16, slider: Fraction, mode: CompareMode) -> Seq<u8> {
    clear_row(row_from_bottom(rows, 1)) + slider_line(cols, slider, mode.slides()) + clear_row(
        row_from_bottom(rows, 0),
    ) + help_line(mode)
}

/// The percentage goes from nought to a hundred.
pub proof fn law_percentage(slider: Fraction)
    requires
        slider.wf(),
    ensures
        percentage(slider) <= 100,
        slider.units == 0 ==> percentage(slider) == 0,
        slider.units == ONE ==> percentage(slider) == 100,
{
    lemma_whole_product(slider, 100);
    if slider.units == 0 {
        assert(slider.units as nat * 100 == 0);
        crate::fraction::lemma_single_bound(0, 0);
    }
    if slider.units == ONE {
        crate::fraction::lemma_single_bound(slider.units as nat * 100, 100);
    }
}

/// The knob is on the bar: at its left end for the slider's left end, at its right
/// end for the slider's right end.
pub proof fn law_knob_lies_on_bar(slider: Fraction, cols: u16)
    requires
        slider.wf(),
    ensures
        0 <= knob(slider, bar_width(cols)) < bar_width(cols),
        slider.units == 0 ==> knob(slider, bar_width(cols)) == 0,
        slider.units == ONE ==> knob(slider, bar_width(cols)) == bar_width(cols) - 1,
{
    lemma_whole_product(slider, bar_width(cols));
}

fn push_clear_row(out: &mut Vec<u8>, row: u32)
    ensures
        final(out)@ == old(out)@ + clear_row(row as nat),
{
    let ghost before = out@;
    push_text(out, "\x1b[");
    push_decimal(out, row as u64);
    push_text(out, ";1H\x1b[2K");
    assert(out@ =~= before + clear_row(row as nat));
}

fn push_bar(out: &mut Vec<u8>, slider: Fraction, width: u32, active: bool)
    requires
        slider.wf(),
        0 < width <= 0xffff,
    ensures
        final(out)@ == old(out)@ + bar(slider, width as nat, active, width as nat),
{
    let ghost before = out@;
    let place: u32 = slider.whole_times(width);
    let knob: u32 = if place < width {
        place
    } else {
        width - 1
    };
    assert(out@ =~= before + bar(slider, width as nat, active, 0));
    for i in 0..width
        invariant
            place == whole_product(slider, width as nat),
            knob == self::knob(slider, width as nat),
            out@ == before + bar(slider, width as nat, active, i as nat),
    {
        if !active {
            push_text(out, "·");
        } else if i == knob {
            push_text(out, "\x1b[33m█\x1b[0m");
        } else if i < place {
            push_text(out, "=");
        } else {
            push_text(out, "-");
        }
        assert(out@ =~= before + bar(slider, width as nat, active, (i + 1) as nat));
    }
}

fn push_percentage(out: &mut Vec<u8>, slider: Fraction)
    requires
        slider.wf(),
    ensures
        final(out)@ == old(out)@ + percentage_label(percentage(slider)),
{
    let ghost before = out@;
    proof {
        law_percentage(slider);
        lemma_whole_product(slider, 100);
    }
    let p: u64 = ((slider.times(100) + (ONE / 2) as u128) / ONE as u128) as u64;
    if p < 10 {
        push_text(out, "   ");
    } else if p < 100 {
        push_text(out, "  ");
    } else {
        push_text(out, " ");
    }
    push_decimal(out, p);
    push_text(out, "%");
    assert(out@ =~= before + percentage_label(percentage(slider)));
}

fn push_slider_line(out: &mut Vec<u8>, cols: u16, slider: Fraction, active: bool)
    requires
        slider.wf(),
    ensures
        final(out)@ == old(out)@ + slider_line(cols, slider, active),
{
    let ghost before = out@;
    let width: u32 = if cols < 17 {
        10
    } else {
        cols as u32 - 7
    };
    push_text(out, "[");
    push_bar(out, slider, width, active);
    push_text(out, "]");
    push_percentage(out, slider);
    assert(out@ =~= before + slider_line(cols, slider, active));
}

fn push_help_line(out: &mut Vec<u8>, mode: CompareMode)
    ensures
        final(out)@ == old(out)@ + help_line(mode),
{
    let ghost before = out@;
    push_text(out, "mode: \x1b[1m");
    push_text(out, mode.label());
    push_text(out, "\x1b[0m    \x1b[2m←/→ slider   m mode   q quit\x1b[0m");
    assert(out@ =~= before + help_line(mode));
}

/// Draws the slider and the help at the bottom of a screen of `cols` by `rows`
/// characters.
pub fn draw_status_bar(cols: u16, rows: u16, slider: Fraction, mode: CompareMode) -> (r: Vec<u8>)
    requires
        slider.wf(),
    ensures
        r@ == status_bar(cols, rows, slider, mode),
{
    let slider_row: u32 = if rows < 3 {
        2
    } else {
        rows as u32 - 1
    };
    let help_row: u32 = if rows < 2 {
        2
    } else {
        rows as u32
    };
    let mut out: Vec<u8> = Vec::new();
    push_clear_row(&mut out, slider_row);
    push_slider_line(&mut out, cols, slider, mode.uses_slider());
    push_clear_row(&mut out, help_row);
    push_help_line(&mut out, mode);
    assert(out@ =~= status_bar(cols, rows, slider, mode));
    out
}

/// The percentage is the nearest to the slider's share of a hundred, but for a tiny
/// part.
pub proof fn law_percentage_is_rounded(slider: Fraction)
    requires
        slider.wf(),
    ensures
        percentage(slider) * 0x100_0000_0000 <= 100 * slider.units + 0x80_0000_0000 + 0x100_0000,
        percentage(slider) * 0x100_0000_0000 >= 100 * slider.units - 0x80_0000_0000 - 0x100_0000,
{
    lemma_single_close(slider.units as nat * 100);
}

/// A percentage takes five places: its digits are at the right, before the sign, and
/// the places before them are empty.
pub proof fn law_percentage_takes_five_places(p: nat)
    requires
        p <= 100,
    ensures
        ({
            let label = percentage_label(p);
            let d = decimal(p).len() as int;
            &&& label.len() == 5
            &&& label[4] == 37
            &&& label.subrange(4 - d, 4) == decimal(p)
            &&& forall|i: int| 0 <= i < 4 - d ==> #[trigger] label[i] == 32
        }),
{
    reveal_strlit("   ");
    reveal_strlit("  ");
    reveal_strlit(" ");
    reveal_strlit("%");
    lemma_ascii("   ");
    lemma_ascii("  ");
    lemma_ascii(" ");
    lemma_ascii("%");
    reveal_with_fuel(decimal, 4);
    let label = percentage_label(p);
    let d = decimal(p).len() as int;
    assert(label.subrange(4 - d, 4) =~= decimal(p));
}

/// The bar, its two brackets and the percentage fill the row, if there is room for
/// ten places of the bar.
pub proof fn law_bar_fills_the_row(cols: u16)
    ensures
        cols >= 17 ==> bar_width(cols) + 2 + 5 == cols,
        cols < 17 ==> bar_width(cols) == 10,
{
}

/// The slider is in the last row but one, and the help in the last one; a screen of
/// less than three rows has both in the second one.
pub proof fn law_status_is_at_the_bottom(rows: u16)
    ensures
        rows >= 3 ==> row_from_bottom(rows, 1) == rows - 1 && row_from_bottom(rows, 0) == rows,
        rows < 3 ==> row_from_bottom(rows, 1) == 2 && row_from_bottom(rows, 0) == 2,
{
}

/// The knob is at the slider's share of the bar, rounded down, but for one part in
/// `2^24`, and on the last place at the slider's end.
pub proof fn law_knob_is_at_its_share(slider: Fraction, width: nat)
    requires
        slider.wf(),
        0 < width < 0x100_0000,
    ensures
        ({
            let k = knob(slider, width);
            &&& 0x100_0000 * (k * 0x100_0000_0000) <= 0x100_0001 * (slider.units * width)
            &&& k == width - 1 || 0x100_0000 * (k * 0x100_0000_0000 + 0x100_0000_0000) > 0xff_ffff * (
            slider.units * width)
        }),
{
    law_whole_product_is_rounded_down(slider, width);
    lemma_whole_product(slider, width);
}

/// The help names the mode, in bold, and comes in the order of its rows behind the
/// slider.
pub proof fn law_status_has_its_order(cols: u16, rows: u16, slider: Fraction, mode: CompareMode)
    ensures
        status_bar(cols, rows, slider, mode) == clear_row(row_from_bottom(rows, 1)) + slider_line(
            cols,
            slider,
            mode == CompareMode::Swipe || mode == CompareMode::OnionSkin,
        ) + (clear_row(row_from_bottom(rows, 0)) + help_line(mode)),
        help_line(mode).take(10) == seq![109u8, 111, 100, 101, 58, 32, 27, 91, 49, 109],
        help_line(mode).subrange(10, 10int + utf8(mode.name()).len()) == utf8(mode.name()),
{
    reveal_strlit("mode: \x1b[1m");
    lemma_ascii("mode: \x1b[1m");
    let start = utf8("mode: \x1b[1m");
    assert(start =~= seq![109u8, 111, 100, 101, 58, 32, 27, 91, 49, 109]);
    let line = help_line(mode);
    assert(line.take(10) =~= start);
    assert(line.subrange(10, 10int + utf8(mode.name()).len()) =~= utf8(mode.name()));
    assert(status_bar(cols, rows, slider, mode) =~= clear_row(row_from_bottom(rows, 1))
        + slider_line(cols, slider, mode.slides()) + (clear_row(row_from_bottom(rows, 0))
        + help_line(mode)));
}

/// The slider's line ends with the percentage, right behind the second bracket.
pub proof fn law_percentage_ends_the_line(cols: u16, slider: Fraction, active: bool)
    ensures
        ({
            let line = slider_line(cols, slider, active);
            let label = percentage_label(percentage(slider));
            let n = line.len() - label.len();
            &&& n > 0
            &&& line.skip(n) == label
            &&& line[n - 1] == 93
        }),
{
    reveal_strlit("]");
    lemma_ascii("]");
    let line = slider_line(cols, slider, active);
    let label = percentage_label(percentage(slider));
    assert(line.skip(line.len() - label.len()) =~= label);
}

/// Behind the mode the help tells the keys.
pub proof fn law_help_tells_the_keys(mode: CompareMode)
    ensures
        help_line(mode).skip(10int + utf8(mode.name()).len()) == encode_utf8(
            seq![
                '\x1b', '[', '0', 'm', ' ', ' ', ' ', ' ', '\x1b', '[', '2', 'm', '←', '/', '→',
                ' ', 's', 'l', 'i', 'd', 'e', 'r', ' ', ' ', ' ', 'm', ' ', 'm', 'o', 'd', 'e', ' ',
                ' ', ' ', 'q', ' ', 'q', 'u', 'i', 't', '\x1b', '[', '0', 'm',
            ],
        ),
{
    reveal_strlit("mode: \x1b[1m");
    lemma_ascii("mode: \x1b[1m");
    reveal_strlit("\x1b[0m    \x1b[2m←/→ slider   m mode   q quit\x1b[0m");
    let keys = seq![
        '\x1b', '[', '0', 'm', ' ', ' ', ' ', ' ', '\x1b', '[', '2', 'm', '←', '/', '→', ' ', 's',
        'l', 'i', 'd', 'e', 'r', ' ', ' ', ' ', 'm', ' ', 'm', 'o', 'd', 'e', ' ', ' ', ' ', 'q',
        ' ', 'q', 'u', 'i', 't', '\x1b', '[', '0', 'm',
    ];
    assert("\x1b[0m    \x1b[2m←/→ slider   m mode   q quit\x1b[0m"@ =~= keys);
    let line = help_line(mode);
    let tail = utf8("\x1b[0m    \x1b[2m←/→ slider   m mode   q quit\x1b[0m");
    assert(line.skip(10int + utf8(mode.name()).len()) =~= tail);
}

/// The percentage and the place of the knob are worked out in single precision.
pub proof fn law_status_is_in_single_precision(slider: Fraction, width: nat)
    requires
        slider.wf(),
        width > 0,
    ensures
        percentage(slider) == (rounded((100 * slider.units) as nat, 1, 0x100_0000) + 0x80_0000_0000)
            / 0x100_0000_0000,
        ({
            let place = rounded((slider.units * width) as nat, 1, 0x100_0000) / 0x100_0000_0000;
            knob(slider, width) == if place < width {
                place as int
            } else {
                width - 1
            }
        }),
{
    assert(slider.units as nat * width == slider.units * width) by (nonlinear_arith)
        requires
            slider.units >= 0,
    ;
    assert(slider.units as nat * 100 == 100 * slider.units);
}

} // verus!
