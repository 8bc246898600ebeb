//! Frames of the interactive comparison, and the still picture.
use crate::compare::{
    build_comparison, can_compare, is_comparable, is_comparison_on_screen,
};
use crate::compose::{
    compose_onion, compose_swipe, compose_two_up, half_width, is_laid_out, is_two_up,
    is_two_up_in_box, larger, law_swipe_split, law_two_up_lies_in_box, max_of, normalize_pair, onion_byte,
    onion_weight, split_column, swipe_pixel, swipe_split, two_up_pixel, two_up_size, SEPARATOR,
};
use crate::fraction::Fraction;
use crate::graphics::{
    can_send, iterm2_bytes, kitty_bytes, png_file, write_iterm2, write_kitty,
};
use crate::halfblock::{
    feed_count, feeds_follow_returns, glyph_count, law_lines_are_counted, line_count, lines,
    write_text,
};
use crate::mode::CompareMode;
use crate::palette::{all_samples, picture_samples, SixelPalette};
use crate::picture::Picture;
use crate::protocol::Protocol;
use crate::raster::{addressable, at_least_one, is_addressable, lemma_same_pixels, Raster};
use crate::scale::{
    can_scale, fit_size, fitted, is_scalable, is_scaled, law_every_picture_can_be_scaled,
    law_fitted_lies_in_box, scale_pair,
};
use crate::sixel::{sixel_text, write_sixel};
use crate::status::{draw_status_bar, status_bar};
use crate::terminal::{
    char_size, nonzero, pixel_room, rows_left, size_or_default, terminal_char_size,
    terminal_pixel_size,
};
use crate::text::{decimal, lemma_ascii, push_bytes, push_decimal, push_text, utf8};
use vstd::prelude::*;

verus! {

/// Rows at the bottom that are kept for a space, the slider and the help.
pub const INTERACTIVE_RESERVE_ROWS: u16 = 3;

/// Colours in a sixel palette.
pub const PALETTE_COLORS: usize = 255;

/// What a frame is made from, for one size of the terminal.
pub struct InteractiveCache {
    pub cols: u16,
    pub rows: u16,
    /// Rows that the picture may take.
    pub usable_rows: u16,
    /// Pixels that the picture may take.
    pub term_px_w: u32,
    pub term_px_h: u32,
    /// Height of a character cell in pixels.
    pub cell_h: u32,
    pub scaled_a: Raster,
    pub scaled_b: Raster,
    /// The palette, for sixels.
    pub sixel_palette: Option<SixelPalette>,
}

/// A finished frame.
pub struct Frame {
    pub bytes: Vec<u8>,
    /// Size of the picture in it.
    pub width: u32,
    pub height: u32,
}

/// Rows that a picture may take: all but those at the bottom, and at least one.
pub open spec fn usable(rows: u16) -> u16 {
    nonzero(rows_left(rows as u32, INTERACTIVE_RESERVE_ROWS as u32)) as u16
}

/// Width and height in pixels that a picture may take, and the height of a
/// character cell. A terminal that does not tell its size has cells of eight by
/// sixteen pixels; half-block characters are cells of one by two.
pub open spec fn picture_room(
    cols: u16,
    rows: u16,
    protocol: Protocol,
    pixels: Option<(u32, u32)>,
) -> (int, int, int) {
    if protocol == Protocol::Ansi {
        (cols as int, usable(rows) * 2, 2)
    } else {
        let (w, h): (int, int) = match pixels {
            Some((w, h)) => (w as int, h as int),
            None => (cols * 8, rows * 16),
        };
        let cell = nonzero((h / (nonzero(rows as u32) as int)) as u32);
        (w, usable(rows) * cell, cell as int)
    }
}

impl InteractiveCache {
    /// The pictures have one size, and there is a palette if one is needed.
    pub open spec fn wf(&self) -> bool {
        &&& self.scaled_a.wf()
        &&& self.scaled_b.wf()
        &&& self.scaled_a.width == self.scaled_b.width
        &&& self.scaled_a.height == self.scaled_b.height
        &&& self.cell_h > 0
        &&& self.usable_rows > 0
        &&& self.sixel_palette matches Some(palette) ==> palette.wf()
    }

    /// The cache is for a terminal of that size.
    pub open spec fn is_for(
        &self,
        protocol: Protocol,
        size: Option<(u16, u16)>,
        pixels: Option<(u32, u32)>,
    ) -> bool {
        &&& (self.cols, self.rows) == char_size(size)
        &&& self.usable_rows == usable(self.rows)
        &&& (self.term_px_w as int, self.term_px_h as int, self.cell_h as int) == picture_room(
            self.cols,
            self.rows,
            protocol,
            pixels,
        )
    }

    /// The cache holds two pictures, laid out on a common canvas and scaled into
    /// the room that there is.
    pub open spec fn holds(&self, img1: &Picture, img2: &Picture) -> bool {
        exists|a: Raster, b: Raster| #[trigger]
            is_laid_out(
                &a,
                &img1.rgba,
                larger(img1.rgba.width, img2.rgba.width),
                larger(img1.rgba.height, img2.rgba.height),
            ) && #[trigger] is_laid_out(
                &b,
                &img2.rgba,
                larger(img1.rgba.width, img2.rgba.width),
                larger(img1.rgba.height, img2.rgba.height),
            ) && is_scaled(
                &self.scaled_a,
                &a,
                a.width,
                a.height,
                self.term_px_w,
                self.term_px_h,
            ) && is_scaled(
                &self.scaled_b,
                &b,
                a.width,
                a.height,
                self.term_px_w,
                self.term_px_h,
            )
    }

    /// The palette is made from both pictures, for sixels only.
    pub open spec fn has_palette(&self, protocol: Protocol) -> bool {
        match self.sixel_palette {
            Some(palette) => protocol == Protocol::Sixel && palette.made_from(
                all_samples(seq![&self.scaled_a, &self.scaled_b], 10_000),
                PALETTE_COLORS as int,
            ),
            None => protocol != Protocol::Sixel,
        }
    }
}

/// The room for a picture, in pixels, and the height of a cell.
fn measure_room(cols: u16, rows: u16, protocol: Protocol, pixels: Option<(u32, u32)>) -> (r: (
    u32,
    u32,
    u32,
))
    ensures
        (r.0 as int, r.1 as int, r.2 as int) == picture_room(cols, rows, protocol, pixels),
        r.2 > 0,
{
    let left: u16 = rows.saturating_sub(INTERACTIVE_RESERVE_ROWS);
    let usable_rows: u32 = if left == 0 {
        1
    } else {
        left as u32
    };
    match protocol {
        Protocol::Ansi => (cols as u32, usable_rows * 2, 2),
        _ => {
            let (w, h): (u32, u32) = match pixels {
                Some((w, h)) => (w, h),
                None => (cols as u32 * 8, rows as u32 * 16),
            };
            let all_rows: u32 = if rows == 0 {
                1
            } else {
                rows as u32
            };
            let whole: u32 = h / all_rows;
            let cell: u32 = if whole == 0 {
                1
            } else {
                whole
            };
            assert(usable_rows as int * cell as int <= u32::MAX) by {
                assert(usable_rows as int * cell as int <= all_rows as int * cell as int)
                    by (nonlinear_arith)
                    requires
                        usable_rows <= all_rows,
                        cell >= 0,
                ;
                if whole > 0 {
                    vstd::arithmetic::div_mod::lemma_fundamental_div_mod(h as int, all_rows as int);
                } else {
                    assert(all_rows as int * 1 == all_rows as int);
                }
            }
            (w, usable_rows * cell, cell)
        },
    }
}

/// Two pictures can be prepared for a terminal: their common canvas can be
/// addressed, and scaled into the room that there is.
pub open spec fn can_prepare(
    img1: &Picture,
    img2: &Picture,
    protocol: Protocol,
    size: Option<(u16, u16)>,
    pixels: Option<(u32, u32)>,
) -> bool {
    let w = larger(img1.rgba.width, img2.rgba.width);
    let h = larger(img1.rgba.height, img2.rgba.height);
    let (cols, rows) = char_size(size);
    let room = picture_room(cols, rows, protocol, pixels);
    addressable(w as int, h as int) && can_scale(w, h, room.0 as u32, room.1 as u32)
}

/// Prepares two pictures for a terminal of `size` characters and, if it tells,
/// `pixels` pixels. Gives nothing if they are too large for that.
pub fn compute_interactive_cache(
    img1: &Picture,
    img2: &Picture,
    protocol: Protocol,
    size: Option<(u16, u16)>,
    pixels: Option<(u32, u32)>,
) -> (r: Option<InteractiveCache>)
    requires
        img1.wf(),
        img2.wf(),
    ensures
        r is Some <==> can_prepare(img1, img2, protocol, size, pixels),
        r matches Some(c) ==> {
            &&& c.wf()
            &&& c.is_for(protocol, size, pixels)
            &&& c.holds(img1, img2)
            &&& c.has_palette(protocol)
            &&& (c.scaled_a.width as nat, c.scaled_a.height as nat) == fitted(
                larger(img1.rgba.width, img2.rgba.width) as nat,
                larger(img1.rgba.height, img2.rgba.height) as nat,
                c.term_px_w as nat,
                c.term_px_h as nat,
            )
        },
{
    let (cols, rows): (u16, u16) = size_or_default(size);
    let left: u16 = rows.saturating_sub(INTERACTIVE_RESERVE_ROWS);
    let usable_rows: u16 = if left == 0 {
        1
    } else {
        left
    };
    let (term_px_w, term_px_h, cell_h): (u32, u32, u32) = measure_room(
        cols,
        rows,
        protocol,
        pixels,
    );
    let w: u32 = max_of(img1.rgba.width, img2.rgba.width);
    let h: u32 = max_of(img1.rgba.height, img2.rgba.height);
    if !is_addressable(w, h) || !is_scalable(w, h, term_px_w, term_px_h) {
        return None;
    }
    let (a, b) = normalize_pair(img1, img2);
    let (scaled_a, scaled_b) = scale_pair(&a, &b, term_px_w, term_px_h);
    let sixel_palette: Option<SixelPalette> = match protocol {
        Protocol::Sixel => {
            let both: [&Raster; 2] = [&scaled_a, &scaled_b];
            assert(both@ =~= seq![&scaled_a, &scaled_b]);
            Some(SixelPalette::from_images(&both, PALETTE_COLORS))
        },
        _ => None,
    };
    Some(
        InteractiveCache {
            cols,
            rows,
            usable_rows,
            term_px_w,
            term_px_h,
            cell_h,
            scaled_a,
            scaled_b,
            sixel_palette,
        },
    )
}

/// Character rows that a picture takes: two pixel rows each for half-blocks, the
/// height of a cell otherwise and at least one row.
pub open spec fn cell_rows(height: u32, protocol: Protocol, cell_h: u32) -> nat {
    if protocol == Protocol::Ansi {
        line_count(height)
    } else {
        let n = (height + cell_h - 1) / cell_h as int;
        if n < 1 {
            1
        } else {
            n as nat
        }
    }
}

/// Character rows that a picture takes.
pub fn image_cell_rows(img_h: u32, protocol: Protocol, cell_h: u32) -> (r: u32)
    requires
        protocol != Protocol::Ansi ==> cell_h > 0,
    ensures
        r == cell_rows(img_h, protocol, cell_h),
{
    match protocol {
        Protocol::Ansi => img_h / 2 + img_h % 2,
        _ => {
            let n: u64 = (img_h as u64 + cell_h as u64 - 1) / cell_h as u64;
            proof {
                assert(n <= img_h) by (nonlinear_arith)
                    requires
                        n == (img_h as int + cell_h as int - 1) / cell_h as int,
                        cell_h >= 1,
                ;
            }
            if n < 1 {
                1
            } else {
                n as u32
            }
        },
    }
}

/// A frame can be composed: two pictures side by side can be scaled into their
/// halves and addressed, and the slider of a swipe is on the picture if that has rows.
pub open spec fn can_compose(c: &InteractiveCache, mode: CompareMode, slider: Fraction) -> bool {
    match mode {
        CompareMode::TwoUp => {
            let (w, h) = two_up_size(&c.scaled_a, &c.scaled_b, c.term_px_w, c.term_px_h);
            let half = half_width(c.term_px_w);
            &&& can_scale(c.scaled_a.width, c.scaled_a.height, half, c.term_px_h)
            &&& can_scale(c.scaled_b.width, c.scaled_b.height, half, c.term_px_h)
            &&& addressable(w, h)
        },
        CompareMode::Swipe => c.scaled_a.height > 0 ==> swipe_split(c.scaled_a.width, slider)
            <= c.scaled_a.width,
        _ => true,
    }
}

/// `r` shows the two pictures in a mode.
pub open spec fn is_composed(
    r: &Raster,
    c: &InteractiveCache,
    mode: CompareMode,
    slider: Fraction,
) -> bool {
    &&& r.wf()
    &&& match mode {
        CompareMode::TwoUp => is_two_up_in_box(
            r,
            &c.scaled_a,
            &c.scaled_b,
            c.term_px_w,
            c.term_px_h,
        ),
        CompareMode::Swipe => {
            &&& r.width == c.scaled_a.width
            &&& r.height == c.scaled_a.height
            &&& forall|x: int, y: int|
                r.contains(x, y) ==> #[trigger] r.pixel(x, y) == swipe_pixel(
                    &c.scaled_a,
                    &c.scaled_b,
                    slider,
                    x,
                    y,
                )
        },
        CompareMode::OnionSkin => {
            &&& r.width == c.scaled_a.width
            &&& r.height == c.scaled_a.height
            &&& forall|i: int|
                0 <= i < r.data@.len() ==> #[trigger] r.data@[i] == onion_byte(
                    c.scaled_a.data@[i],
                    c.scaled_b.data@[i],
                    onion_weight(slider) as int,
                )
        },
        CompareMode::Left => r.same(&c.scaled_a),
        CompareMode::Right => r.same(&c.scaled_b),
    }
}

/// Size of two pictures side by side in a box.
fn measure_two_up(a: &Raster, b: &Raster, max_w: u32, max_h: u32) -> (r: (u32, u32))
    ensures
        (r.0 as int, r.1 as int) == two_up_size(a, b, max_w, max_h),
{
    let half: u32 = max_w.saturating_sub(SEPARATOR) / 2;
    let (aw, ah): (u32, u32) = fit_size(a.width, a.height, half, max_h);
    let (bw, bh): (u32, u32) = fit_size(b.width, b.height, half, max_h);
    proof {
        law_two_up_lies_in_box(a, b, max_w, max_h);
    }
    (aw + SEPARATOR + bw, max_of(ah, bh))
}

/// Composes the picture of a frame, if that is possible.
pub fn compose_frame(c: &InteractiveCache, mode: CompareMode, slider: Fraction) -> (r: Option<
    Raster,
>)
    requires
        c.wf(),
    ensures
        r is Some <==> can_compose(c, mode, slider),
        r matches Some(picture) ==> is_composed(&picture, c, mode, slider),
{
    match mode {
        CompareMode::TwoUp => {
            let (w, h): (u32, u32) = measure_two_up(
                &c.scaled_a,
                &c.scaled_b,
                c.term_px_w,
                c.term_px_h,
            );
            let half: u32 = c.term_px_w.saturating_sub(SEPARATOR) / 2;
            if is_addressable(w, h) && is_scalable(
                c.scaled_a.width,
                c.scaled_a.height,
                half,
                c.term_px_h,
            ) && is_scalable(c.scaled_b.width, c.scaled_b.height, half, c.term_px_h) {
                Some(compose_two_up(&c.scaled_a, &c.scaled_b, c.term_px_w, c.term_px_h))
            } else {
                None
            }
        },
        CompareMode::Swipe => {
            if c.scaled_a.height == 0 || split_column(c.scaled_a.width, slider)
                <= c.scaled_a.width as u128 {
                Some(compose_swipe(&c.scaled_a, &c.scaled_b, slider))
            } else {
                None
            }
        },
        CompareMode::OnionSkin => Some(compose_onion(&c.scaled_a, &c.scaled_b, slider)),
        CompareMode::Left => Some(c.scaled_a.duplicate()),
        CompareMode::Right => Some(c.scaled_b.duplicate()),
    }
}

/// What clears the screen. On a Kitty terminal earlier pictures are deleted too.
pub open spec fn clear_screen(protocol: Protocol) -> Seq<u8> {
    utf8("\x1b[2J\x1b[H") + if protocol == Protocol::Kitty {
        utf8("\x1b_Ga=d;\x1b\\")
    } else {
        Seq::empty()
    }
}

/// Clears the screen.
pub fn clear_frame(protocol: Protocol) -> (r: Vec<u8>)
    ensures
        r@ == clear_screen(protocol),
{
    let mut out: Vec<u8> = Vec::new();
    push_text(&mut out, "\x1b[2J\x1b[H");
    if protocol == Protocol::Kitty {
        push_text(&mut out, "\x1b_Ga=d;\x1b\\");
    }
    assert(out@ =~= clear_screen(protocol));
    out
}

/// Rows above a picture that stands in the middle of the rows that it may take.
pub open spec fn rows_above(usable_rows: u16, taken: nat) -> nat {
    if usable_rows < taken {
        0
    } else {
        ((usable_rows - taken) / 2) as nat
    }
}

/// What moves to the row where a picture of that height begins.
pub open spec fn picture_start(c: &InteractiveCache, protocol: Protocol, height: u32) -> Seq<u8> {
    utf8("\x1b[") + decimal(
        rows_above(c.usable_rows, cell_rows(height, protocol, c.cell_h)) + 1,
    ) + utf8(";1H")
}

/// Moves to where the picture begins.
pub fn place_frame(c: &InteractiveCache, protocol: Protocol, height: u32) -> (r: Vec<u8>)
    requires
        c.wf(),
    ensures
        r@ == picture_start(c, protocol, height),
{
    let taken: u32 = image_cell_rows(height, protocol, c.cell_h);
    let above: u32 = (c.usable_rows as u32).saturating_sub(taken) / 2;
    let mut out: Vec<u8> = Vec::new();
    push_text(&mut out, "\x1b[");
    push_decimal(&mut out, above as u64 + 1);
    push_text(&mut out, ";1H");
    assert(out@ =~= picture_start(c, protocol, height));
    out
}

/// The terminal can be told to show a picture.
pub open spec fn can_show(
    img: &Raster,
    protocol: Protocol,
    palette: Option<SixelPalette>,
) -> bool {
    match protocol {
        Protocol::Kitty | Protocol::Iterm2 => can_send(img),
        Protocol::Sixel => palette is Some && (img.drawn() ==> palette->0.colors@.len() > 0),
        Protocol::Ansi => true,
    }
}

/// What tells the terminal to show a picture.
pub open spec fn shown(
    img: &Raster,
    protocol: Protocol,
    palette: Option<SixelPalette>,
) -> Seq<u8> {
    match protocol {
        Protocol::Kitty => kitty_bytes(png_file(img.width, img.height, img.data@)),
        Protocol::Iterm2 => iterm2_bytes(png_file(img.width, img.height, img.data@)),
        Protocol::Sixel => sixel_text(img, &palette->0),
        Protocol::Ansi => lines(img, line_count(img.height)),
    }
}

/// Shows a picture by a protocol, if that is possible.
pub fn show(img: &Raster, protocol: Protocol, palette: &Option<SixelPalette>) -> (r: Option<
    Vec<u8>,
>)
    requires
        img.wf(),
        palette matches Some(p) ==> p.wf(),
    ensures
        r is Some <==> can_show(img, protocol, *palette),
        r matches Some(bytes) ==> bytes@ == shown(img, protocol, *palette),
{
    match protocol {
        Protocol::Kitty => write_kitty(img),
        Protocol::Iterm2 => write_iterm2(img),
        Protocol::Sixel => {
            match palette {
                Some(p) => {
                    if p.colors.len() > 0 || img.width == 0 || img.height == 0 {
                        Some(write_sixel(img, p))
                    } else {
                        None
                    }
                },
                None => None,
            }
        },
        Protocol::Ansi => Some(write_text(img)),
    }
}

/// The bytes of a frame around its picture.
pub open spec fn frame_bytes(
    c: &InteractiveCache,
    mode: CompareMode,
    slider: Fraction,
    protocol: Protocol,
    picture: &Raster,
) -> Seq<u8> {
    clear_screen(protocol) + picture_start(c, protocol, picture.height) + shown(
        picture,
        protocol,
        c.sixel_palette,
    ) + status_bar(c.cols, c.rows, slider, mode)
}

/// `picture` is what the frame shows, and the terminal can be told to show it.
pub open spec fn is_shown(
    picture: &Raster,
    c: &InteractiveCache,
    mode: CompareMode,
    slider: Fraction,
    protocol: Protocol,
) -> bool {
    is_composed(picture, c, mode, slider) && can_show(picture, protocol, c.sixel_palette)
}

/// Draws a frame: an empty screen, the picture in its middle, and the slider and
/// the help below. Gives nothing if the picture cannot be composed or shown.
pub fn render_interactive_frame(
    c: &InteractiveCache,
    mode: CompareMode,
    slider: Fraction,
    protocol: Protocol,
) -> (r: Option<Frame>)
    requires
        c.wf(),
        slider.wf(),
    ensures
        match r {
            Some(frame) => exists|picture: Raster| #[trigger]
                is_shown(&picture, c, mode, slider, protocol) && frame.width == picture.width
                    && frame.height == picture.height && frame.bytes@ == frame_bytes(
                    c,
                    mode,
                    slider,
                    protocol,
                    &picture,
                ),
            None => can_compose(c, mode, slider) ==> exists|picture: Raster| #[trigger]
                is_composed(&picture, c, mode, slider) && !can_show(
                    &picture,
                    protocol,
                    c.sixel_palette,
                ),
        },
{
    let picture: Raster = match compose_frame(c, mode, slider) {
        Some(picture) => picture,
        None => return None,
    };
    let image: Vec<u8> = match show(&picture, protocol, &c.sixel_palette) {
        Some(image) => image,
        None => return None,
    };
    let mut bytes: Vec<u8> = clear_frame(protocol);
    let start: Vec<u8> = place_frame(c, protocol, picture.height);
    push_bytes(&mut bytes, start.as_slice());
    push_bytes(&mut bytes, image.as_slice());
    let status: Vec<u8> = draw_status_bar(c.cols, c.rows, slider, mode);
    push_bytes(&mut bytes, status.as_slice());
    proof {
        assert(bytes@ =~= frame_bytes(c, mode, slider, protocol, &picture));
        assert(is_shown(&picture, c, mode, slider, protocol));
    }
    Some(Frame { bytes, width: picture.width, height: picture.height })
}

/// Two pictures that show the same cache in the same mode are the same.
pub proof fn law_frame_is_determined(
    c: &InteractiveCache,
    mode: CompareMode,
    slider: Fraction,
    p: &Raster,
    q: &Raster,
)
    requires
        c.wf(),
        is_composed(p, c, mode, slider),
        is_composed(q, c, mode, slider),
    ensures
        p.same(q),
{
    match mode {
        CompareMode::TwoUp => {
            let half = half_width(c.term_px_w);
            let (a1, b1) = choose|a: Raster, b: Raster| #[trigger]
                is_two_up(p, &a, &b) && is_scaled(
                    &a,
                    &c.scaled_a,
                    c.scaled_a.width,
                    c.scaled_a.height,
                    half,
                    c.term_px_h,
                ) && is_scaled(
                    &b,
                    &c.scaled_b,
                    c.scaled_b.width,
                    c.scaled_b.height,
                    half,
                    c.term_px_h,
                );
            let (a2, b2) = choose|a: Raster, b: Raster| #[trigger]
                is_two_up(q, &a, &b) && is_scaled(
                    &a,
                    &c.scaled_a,
                    c.scaled_a.width,
                    c.scaled_a.height,
                    half,
                    c.term_px_h,
                ) && is_scaled(
                    &b,
                    &c.scaled_b,
                    c.scaled_b.width,
                    c.scaled_b.height,
                    half,
                    c.term_px_h,
                );
            assert(a1.same(&a2) && b1.same(&b2));
            assert forall|x: int, y: int| p.contains(x, y) implies #[trigger] p.pixel(x, y)
                == q.pixel(x, y) by {
                assert(q.contains(x, y));
                assert(two_up_pixel(&a1, &b1, x, y)
                    == two_up_pixel(&a2, &b2, x, y));
            }
            lemma_same_pixels(p, q);
        },
        CompareMode::Swipe => {
            assert forall|x: int, y: int| p.contains(x, y) implies #[trigger] p.pixel(x, y)
                == q.pixel(x, y) by {
                assert(q.contains(x, y));
            }
            lemma_same_pixels(p, q);
        },
        CompareMode::OnionSkin => {
            assert(p.data@ =~= q.data@);
        },
        CompareMode::Left => {},
        CompareMode::Right => {},
    }
}

/// The picture of a frame stays above the rows that are kept for the slider and
/// the help, on every screen that has more rows than those.
pub proof fn law_picture_stays_above_the_slider(
    c: &InteractiveCache,
    img1: &Picture,
    img2: &Picture,
    mode: CompareMode,
    slider: Fraction,
    protocol: Protocol,
    size: Option<(u16, u16)>,
    pixels: Option<(u32, u32)>,
    picture: &Raster,
)
    requires
        c.wf(),
        c.is_for(protocol, size, pixels),
        c.holds(img1, img2),
        is_composed(picture, c, mode, slider),
    ensures
        ({
            let taken = cell_rows(picture.height, protocol, c.cell_h);
            &&& rows_above(c.usable_rows, taken) + taken <= c.usable_rows
            &&& c.rows > INTERACTIVE_RESERVE_ROWS ==> rows_above(c.usable_rows, taken) + taken
                + INTERACTIVE_RESERVE_ROWS <= c.rows
        }),
{
    let u = c.usable_rows as int;
    let cell = c.cell_h as int;
    assert(u * cell >= 1) by (nonlinear_arith)
        requires
            u >= 1,
            cell >= 1,
    ;
    assert(c.term_px_h == u * cell);
    let (a, b) = choose|a: Raster, b: Raster| #[trigger]
        is_laid_out(
            &a,
            &img1.rgba,
            larger(img1.rgba.width, img2.rgba.width),
            larger(img1.rgba.height, img2.rgba.height),
        ) && #[trigger] is_laid_out(
            &b,
            &img2.rgba,
            larger(img1.rgba.width, img2.rgba.width),
            larger(img1.rgba.height, img2.rgba.height),
        ) && is_scaled(&c.scaled_a, &a, a.width, a.height, c.term_px_w, c.term_px_h) && is_scaled(
            &c.scaled_b,
            &b,
            a.width,
            a.height,
            c.term_px_w,
            c.term_px_h,
        );
    law_fitted_lies_in_box(a.width, a.height, c.term_px_w, c.term_px_h);
    law_two_up_lies_in_box(&c.scaled_a, &c.scaled_b, c.term_px_w, c.term_px_h);
    if mode == CompareMode::TwoUp {
        lemma_two_up_height(picture, &c.scaled_a, &c.scaled_b, c.term_px_w, c.term_px_h);
    }
    let h = picture.height as int;
    assert(h <= u * cell);
    if protocol != Protocol::Ansi {
        assert((h + cell - 1) / cell <= u) by (nonlinear_arith)
            requires
                0 <= h <= u * cell,
                cell >= 1,
                u >= 1,
        ;
    }
}

/// A picture of half-block characters is as many lines of text as it takes rows,
/// whatever the height of a cell, and each is as wide as the picture.
pub proof fn law_text_takes_its_rows(img: &Raster, palette: Option<SixelPalette>, cell_h: u32)
    ensures
        ({
            let text = shown(img, Protocol::Ansi, palette);
            &&& feed_count(text) == cell_rows(img.height, Protocol::Ansi, cell_h)
            &&& glyph_count(text) == feed_count(text) * img.width
            &&& feeds_follow_returns(text)
        }),
{
    law_lines_are_counted(img, line_count(img.height));
}

/// A picture that takes no more rows than there are stands in their middle: as
/// many are free above it as below, or one less.
pub proof fn law_picture_is_centred(usable_rows: u16, taken: nat)
    requires
        taken <= usable_rows,
    ensures
        ({
            let above = rows_above(usable_rows, taken);
            let below = usable_rows - taken - above;
            above <= below <= above + 1
        }),
{
}

/// Two pictures side by side have the height that the box allows.
proof fn lemma_two_up_height(r: &Raster, a: &Raster, b: &Raster, max_w: u32, max_h: u32)
    requires
        is_two_up_in_box(r, a, b, max_w, max_h),
    ensures
        r.height == two_up_size(a, b, max_w, max_h).1,
{
}

/// Rows at the bottom that a still comparison leaves free.
pub const STILL_RESERVE_ROWS: u16 = 5;

/// Room for a still comparison, in pixels.
pub fn still_room(protocol: Protocol, size: Option<(u16, u16)>, pixels: Option<(u32, u32)>) -> (r: (
    u32,
    u32,
))
    ensures
        (r.0 as int, r.1 as int) == if protocol == Protocol::Ansi {
            (
                char_size(size).0 as int,
                rows_left(char_size(size).1 as u32, STILL_RESERVE_ROWS as u32) * 2,
            )
        } else {
            pixel_room(size, STILL_RESERVE_ROWS, pixels)
        },
{
    match protocol {
        Protocol::Ansi => terminal_char_size(size, STILL_RESERVE_ROWS),
        _ => terminal_pixel_size(size, STILL_RESERVE_ROWS, pixels),
    }
}

/// `palette` is the one for showing `img`: made from its pixels for sixels, none
/// otherwise.
pub open spec fn is_own_palette(
    palette: Option<SixelPalette>,
    img: &Raster,
    protocol: Protocol,
) -> bool {
    match palette {
        Some(p) => protocol == Protocol::Sixel && p.made_from(
            picture_samples(img, 20_000),
            PALETTE_COLORS as int,
        ),
        None => protocol != Protocol::Sixel,
    }
}

/// Shows a picture in colours of its own, if that is possible.
pub fn show_alone(img: &Raster, protocol: Protocol) -> (r: Option<Vec<u8>>)
    requires
        img.wf(),
    ensures
        match r {
            Some(bytes) => exists|palette: Option<SixelPalette>| #[trigger]
                is_own_palette(palette, img, protocol) && bytes@ == shown(img, protocol, palette),
            None => (protocol == Protocol::Kitty || protocol == Protocol::Iterm2) && !can_send(img),
        },
{
    let palette: Option<SixelPalette> = match protocol {
        Protocol::Sixel => Some(SixelPalette::from_image(img, PALETTE_COLORS)),
        _ => None,
    };
    assert(is_own_palette(palette, img, protocol));
    show(img, protocol, &palette)
}

/// Compares two pictures on a screen of `term_w` by `term_h` pixels and shows the
/// comparison. Gives nothing if the comparison is too large or cannot be shown.
pub fn render_comparison(
    img1: &Picture,
    img2: &Picture,
    protocol: Protocol,
    term_w: u32,
    term_h: u32,
) -> (r: Option<Vec<u8>>)
    requires
        img1.wf(),
        img2.wf(),
    ensures
        match r {
            Some(bytes) => {
                &&& can_compare(&img1.rgba, &img2.rgba, term_w, term_h)
                &&& exists|picture: Raster, palette: Option<SixelPalette>| #[trigger]
                    is_comparison_on_screen(&picture, img1, img2, term_w, term_h) && #[trigger]
                        is_own_palette(palette, &picture, protocol) && bytes@ == shown(
                        &picture,
                        protocol,
                        palette,
                    )
            },
            None => can_compare(&img1.rgba, &img2.rgba, term_w, term_h) ==> exists|picture: Raster| #[trigger]
                is_comparison_on_screen(&picture, img1, img2, term_w, term_h) && (protocol
                    == Protocol::Kitty || protocol == Protocol::Iterm2) && !can_send(&picture),
        },
{
    if !is_comparable(&img1.rgba, &img2.rgba, term_w, term_h) {
        return None;
    }
    let picture = build_comparison(img1, img2, term_w, term_h);
    show_alone(&picture, protocol)
}

/// Three rows at the bottom are kept free of the interactive picture, as far as one
/// row is left, and five of a still one; palettes have up to 255 colours.
pub proof fn law_rows_are_reserved(rows: u16)
    ensures
        rows >= 4 ==> usable(rows) == rows - 3,
        rows < 4 ==> usable(rows) == 1,
        STILL_RESERVE_ROWS == 5,
        PALETTE_COLORS == 255,
{
}

/// The room for a picture: half-blocks are one pixel wide and two high. Otherwise
/// the terminal's width, and as many times the height of a character as there are
/// usable rows; that height is what the screen divided by its rows gives, rounded
/// down, but at least one. A terminal that does not tell has characters of eight by
/// sixteen pixels.
pub proof fn law_room_for_the_picture(
    cols: u16,
    rows: u16,
    protocol: Protocol,
    w: u32,
    h: u32,
    cell: int,
)
    requires
        rows > 0,
        cell * rows <= h < cell * rows + rows,
    ensures
        picture_room(cols, rows, Protocol::Ansi, Some((w, h))) == (
            cols as int,
            2 * usable(rows),
            2int,
        ),
        picture_room(cols, rows, Protocol::Ansi, None) == (cols as int, 2 * usable(rows), 2int),
        protocol != Protocol::Ansi ==> picture_room(cols, rows, protocol, None) == (
            8 * cols,
            usable(rows) * 16,
            16int,
        ),
        protocol != Protocol::Ansi ==> picture_room(cols, rows, protocol, Some((w, h))) == (
            w as int,
            usable(rows) * at_least_one(cell),
            at_least_one(cell),
        ),
{
    assert(cell * rows == rows * cell) by (nonlinear_arith);
    vstd::arithmetic::div_mod::lemma_fundamental_div_mod_converse(
        h as int,
        rows as int,
        cell,
        h - rows * cell,
    );
    let all = rows * 16;
    assert(all == rows * 16 + 0);
    vstd::arithmetic::div_mod::lemma_fundamental_div_mod_converse(all, rows as int, 16, 0);
    assert(cell <= h) by (nonlinear_arith)
        requires
            cell * rows <= h,
            rows >= 1,
            h >= 0,
    ;
    assert(cell >= 0) by (nonlinear_arith)
        requires
            h < cell * rows + rows,
            rows >= 1,
            h >= 0,
    ;
}

/// A picture takes the fewest rows that hold it: of two pixels each for half-blocks,
/// else of the height of a character and at least one.
pub proof fn law_picture_takes_the_fewest_rows(height: u32, protocol: Protocol, cell_h: u32)
    requires
        cell_h > 0,
    ensures
        ({
            let n = cell_rows(height, protocol, cell_h);
            let each = if protocol == Protocol::Ansi {
                2
            } else {
                cell_h as int
            };
            &&& n * each >= height
            &&& n > 1 ==> (n - 1) * each < height
            &&& protocol == Protocol::Ansi ==> (n == 0 <==> height == 0)
            &&& protocol != Protocol::Ansi ==> n >= 1
        }),
{
    if protocol != Protocol::Ansi {
        let c = cell_h as int;
        let s = height + c - 1;
        let n = s / c;
        vstd::arithmetic::div_mod::lemma_fundamental_div_mod(s, c);
        assert(n * c >= height && (n > 1 ==> (n - 1) * c < height)) by (nonlinear_arith)
            requires
                c * n + s % c == s,
                0 <= s % c < c,
                s == height + c - 1,
                c >= 1,
        ;
        assert(n >= 0) by (nonlinear_arith)
            requires
                n == s / c,
                s >= 0,
                c >= 1,
        ;
        assert(n < 1 ==> height == 0) by (nonlinear_arith)
            requires
                n * c >= height,
                n >= 0,
                height >= 0,
        ;
        assert(1 * c == c);
    }
}

/// A picture that needs more rows than there are begins in the first one.
pub proof fn law_large_pictures_begin_at_the_top(usable_rows: u16, taken: nat)
    requires
        taken >= usable_rows,
    ensures
        rows_above(usable_rows, taken) == 0,
{
}

/// The screen is cleared and the cursor taken home, and on a Kitty terminal the
/// pictures there are deleted.
pub proof fn law_screen_is_cleared(protocol: Protocol)
    ensures
        ({
            let home: Seq<u8> = seq![27, 91, 50, 74, 27, 91, 72];
            // ESC _Ga=d; ESC \
            let delete: Seq<u8> = seq![27, 95, 71, 97, 61, 100, 59, 27, 92];
            clear_screen(protocol) == if protocol == Protocol::Kitty {
                home + delete
            } else {
                home
            }
        }),
{
    reveal_strlit("\x1b[2J\x1b[H");
    reveal_strlit("\x1b_Ga=d;\x1b\\");
    lemma_ascii("\x1b[2J\x1b[H");
    lemma_ascii("\x1b_Ga=d;\x1b\\");
    assert(utf8("\x1b[2J\x1b[H") =~= seq![27u8, 91u8, 50u8, 74u8, 27u8, 91u8, 72u8]);
    assert(utf8("\x1b_Ga=d;\x1b\\") =~= seq![
        27u8,
        95u8,
        71u8,
        97u8,
        61u8,
        100u8,
        59u8,
        27u8,
        92u8,
    ]);
    assert(clear_screen(protocol) =~= utf8("\x1b[2J\x1b[H") + if protocol == Protocol::Kitty {
        utf8("\x1b_Ga=d;\x1b\\")
    } else {
        Seq::empty()
    });
    assert(utf8("\x1b[2J\x1b[H") + Seq::<u8>::empty() =~= utf8("\x1b[2J\x1b[H"));
}

/// A frame clears the screen first; then it moves to where the picture begins and
/// shows it; the slider and the help come last, over whatever is there.
pub proof fn law_frame_has_its_order(
    c: &InteractiveCache,
    mode: CompareMode,
    slider: Fraction,
    protocol: Protocol,
    picture: &Raster,
)
    ensures
        ({
            let bytes = frame_bytes(c, mode, slider, protocol, picture);
            let clear = clear_screen(protocol);
            let start = picture_start(c, protocol, picture.height);
            let image = shown(picture, protocol, c.sixel_palette);
            let status = status_bar(c.cols, c.rows, slider, mode);
            let (a, b) = (clear.len() as int, clear.len() as int + start.len());
            let d = b + image.len();
            &&& bytes.len() == d + status.len()
            &&& bytes.subrange(0, a) == clear
            &&& bytes.subrange(a, b) == start
            &&& bytes.subrange(b, d) == image
            &&& bytes.skip(d) == status
        }),
{
    let bytes = frame_bytes(c, mode, slider, protocol, picture);
    let clear = clear_screen(protocol);
    let start = picture_start(c, protocol, picture.height);
    let image = shown(picture, protocol, c.sixel_palette);
    let status = status_bar(c.cols, c.rows, slider, mode);
    let (a, b) = (clear.len() as int, clear.len() as int + start.len());
    let d = b + image.len();
    assert(bytes.subrange(0, a) =~= clear);
    assert(bytes.subrange(a, b) =~= start);
    assert(bytes.subrange(b, d) =~= image);
    assert(bytes.skip(d) =~= status);
}

/// Each protocol has its own way of showing a picture.
pub proof fn law_protocols_show_in_their_way(
    img: &Raster,
    protocol: Protocol,
    palette: Option<SixelPalette>,
)
    ensures
        ({
            let file = png_file(img.width, img.height, img.data@);
            let bytes = shown(img, protocol, palette);
            &&& protocol == Protocol::Kitty ==> bytes == kitty_bytes(file)
            &&& protocol == Protocol::Iterm2 ==> bytes == iterm2_bytes(file)
            &&& protocol == Protocol::Sixel && palette is Some ==> bytes == sixel_text(
                img,
                &palette->0,
            )
            &&& protocol == Protocol::Ansi ==> bytes == lines(img, line_count(img.height))
        }),
{
}

/// Each mode shows what it is called: the first picture alone, the second one alone,
/// both side by side in the room for the picture, or both as the slider has it.
pub proof fn law_modes_show_their_pictures(
    r: &Raster,
    c: &InteractiveCache,
    mode: CompareMode,
    slider: Fraction,
    x: int,
    y: int,
)
    requires
        c.wf(),
        is_composed(r, c, mode, slider),
    ensures
        mode == CompareMode::Left ==> r.same(&c.scaled_a),
        mode == CompareMode::Right ==> r.same(&c.scaled_b),
        mode == CompareMode::TwoUp ==> is_two_up_in_box(
            r,
            &c.scaled_a,
            &c.scaled_b,
            c.term_px_w,
            c.term_px_h,
        ),
        mode == CompareMode::Swipe || mode == CompareMode::OnionSkin ==> r.width == c.scaled_a.width
            && r.height == c.scaled_a.height,
        mode == CompareMode::Swipe && 0 <= x < r.width && 0 <= y < r.height ==> r.pixel(x, y)
            == swipe_pixel(&c.scaled_a, &c.scaled_b, slider, x, y),
        mode == CompareMode::OnionSkin && 0 <= x < r.data@.len() ==> r.data@[x] == onion_byte(
            c.scaled_a.data@[x],
            c.scaled_b.data@[x],
            onion_weight(slider) as int,
        ),
{
    if 0 <= x < r.width && 0 <= y < r.height {
        assert(r.contains(x, y));
    }
}

/// The cache holds the first picture first and the second one second: each on a
/// canvas that is as wide as the wider and as high as the higher one, both scaled by
/// the same factor into the room for the picture. For sixels it has a palette of at
/// most 255 colours of both, from up to ten thousand pixels each.
pub proof fn law_cache_holds_both_pictures(
    c: &InteractiveCache,
    img1: &Picture,
    img2: &Picture,
    protocol: Protocol,
) -> (canvases: (Raster, Raster))
    requires
        c.holds(img1, img2),
        c.has_palette(protocol),
    ensures
        ({
            let (a, b) = canvases;
            let w = if img1.rgba.width < img2.rgba.width {
                img2.rgba.width
            } else {
                img1.rgba.width
            };
            let h = if img1.rgba.height < img2.rgba.height {
                img2.rgba.height
            } else {
                img1.rgba.height
            };
            &&& is_laid_out(&a, &img1.rgba, w, h)
            &&& is_laid_out(&b, &img2.rgba, w, h)
            &&& is_scaled(&c.scaled_a, &a, w, h, c.term_px_w, c.term_px_h)
            &&& is_scaled(&c.scaled_b, &b, w, h, c.term_px_w, c.term_px_h)
        }),
        c.sixel_palette is Some <==> protocol == Protocol::Sixel,
        c.sixel_palette is Some ==> c.sixel_palette->0.made_from(
            all_samples(seq![&c.scaled_a, &c.scaled_b], 10_000),
            255,
        ),
{
    choose|a: Raster, b: Raster| #[trigger]
        is_laid_out(
            &a,
            &img1.rgba,
            larger(img1.rgba.width, img2.rgba.width),
            larger(img1.rgba.height, img2.rgba.height),
        ) && #[trigger] is_laid_out(
            &b,
            &img2.rgba,
            larger(img1.rgba.width, img2.rgba.width),
            larger(img1.rgba.height, img2.rgba.height),
        ) && is_scaled(&c.scaled_a, &a, a.width, a.height, c.term_px_w, c.term_px_h) && is_scaled(
            &c.scaled_b,
            &b,
            a.width,
            a.height,
            c.term_px_w,
            c.term_px_h,
        )
}

/// On a screen without rows a character is as high as the screen, but at least one
/// pixel.
pub proof fn law_room_without_rows(cols: u16, protocol: Protocol, w: u32, h: u32)
    requires
        protocol != Protocol::Ansi,
    ensures
        picture_room(cols, 0, protocol, Some((w, h))) == (
            w as int,
            at_least_one(h as int),
            at_least_one(h as int),
        ),
        picture_room(cols, 0, protocol, None) == (8 * cols, 1int, 1int),
{
    assert(usable(0) == 1);
    assert(nonzero(0) == 1);
    assert(h as int / 1 == h && 0int / 1 == 0);
    assert(nonzero((h as int / 1) as u32) == at_least_one(h as int));
    let none = picture_room(cols, 0, protocol, None);
    let some = picture_room(cols, 0, protocol, Some((w, h)));
    assert(none.0 == cols * 8 && none.2 == 1 && none.1 == 1 * none.2);
    assert(some.0 == w && some.2 == at_least_one(h as int) && some.1 == 1 * some.2);
}

/// On a machine with addresses of 64 bits, pictures that can be addressed together
/// can be prepared for every room of ordinary size.
pub proof fn law_ordinary_rooms_hold_every_picture(
    img1: &Picture,
    img2: &Picture,
    protocol: Protocol,
    size: Option<(u16, u16)>,
    pixels: Option<(u32, u32)>,
    w: u32,
    h: u32,
)
    requires
        isize::MAX == 0x7fff_ffff_ffff_ffff,
        w >= img1.rgba.width && w >= img2.rgba.width,
        h >= img1.rgba.height && h >= img2.rgba.height,
        4 * (w * h) <= isize::MAX,
        picture_room(char_size(size).0, char_size(size).1, protocol, pixels).0 <= 0x80_0000,
        picture_room(char_size(size).0, char_size(size).1, protocol, pixels).1 <= 0x80_0000,
        0 <= picture_room(char_size(size).0, char_size(size).1, protocol, pixels).0,
        0 <= picture_room(char_size(size).0, char_size(size).1, protocol, pixels).1,
    ensures
        can_prepare(img1, img2, protocol, size, pixels),
{
    let (cw, ch) = (
        larger(img1.rgba.width, img2.rgba.width),
        larger(img1.rgba.height, img2.rgba.height),
    );
    let (cols, rows) = char_size(size);
    let room = picture_room(cols, rows, protocol, pixels);
    assert(cw * ch <= w * h) by (nonlinear_arith)
        requires
            0 <= cw <= w,
            0 <= ch <= h,
    ;
    assert(cw * ch * 4 == 4 * (cw * ch)) by (nonlinear_arith);
    law_every_picture_can_be_scaled(cw, ch, room.0 as u32, room.1 as u32);
}

/// On a machine with addresses of 64 bits a frame can be composed in every mode, if
/// the room for it is of ordinary size.
pub proof fn law_ordinary_frames_can_be_composed(
    c: &InteractiveCache,
    mode: CompareMode,
    slider: Fraction,
)
    requires
        isize::MAX == 0x7fff_ffff_ffff_ffff,
        c.term_px_w <= 0x80_0000,
        c.term_px_h <= 0x80_0000,
        c.scaled_a.width < 0x100_0000,
    ensures
        can_compose(c, mode, slider),
{
    if mode == CompareMode::TwoUp {
        let half = half_width(c.term_px_w);
        law_every_picture_can_be_scaled(c.scaled_a.width, c.scaled_a.height, half, c.term_px_h);
        law_every_picture_can_be_scaled(c.scaled_b.width, c.scaled_b.height, half, c.term_px_h);
        law_two_up_lies_in_box(&c.scaled_a, &c.scaled_b, c.term_px_w, c.term_px_h);
        let (w, h) = two_up_size(&c.scaled_a, &c.scaled_b, c.term_px_w, c.term_px_h);
        assert(w * h * 4 <= 0x80_0000 * 0x80_0000 * 4) by (nonlinear_arith)
            requires
                0 <= w <= 0x80_0000,
                0 <= h <= 0x80_0000,
        ;
    } else if mode == CompareMode::Swipe {
        law_swipe_split(c.scaled_a.width, slider);
    }
}

/// A picture can always be shown as text, as sixels if there is a palette with
/// colours for its pixels, and as a file if it has pixels and its file, with four
/// characters for three bytes, is no longer than half the address space.
pub proof fn law_pictures_can_be_shown(
    img: &Raster,
    protocol: Protocol,
    palette: Option<SixelPalette>,
)
    ensures
        protocol == Protocol::Ansi ==> can_show(img, protocol, palette),
        protocol == Protocol::Sixel ==> (can_show(img, protocol, palette) <==> palette is Some && (
        palette->0.colors@.len() > 0 || img.width == 0 || img.height == 0)),
        protocol == Protocol::Kitty || protocol == Protocol::Iterm2 ==> (can_show(
            img,
            protocol,
            palette,
        ) <==> img.width > 0 && img.height > 0 && (png_file(
            img.width,
            img.height,
            img.data@,
        ).len() + 2) / 3 * 4 <= isize::MAX),
{
}

/// A picture that is shown by itself has its own palette for sixels, of at most 255
/// colours from up to twenty thousand of its pixels.
pub proof fn law_own_palettes(palette: Option<SixelPalette>, img: &Raster, protocol: Protocol)
    requires
        is_own_palette(palette, img, protocol),
    ensures
        palette is Some <==> protocol == Protocol::Sixel,
        palette is Some ==> palette->0.made_from(picture_samples(img, 20_000), 255),
{
}

/// A cache is for the terminal as it is: for its columns and rows, for all rows but
/// three, though at least one, and for the room that there is for a picture.
pub proof fn law_caches_fit_the_terminal(
    c: &InteractiveCache,
    protocol: Protocol,
    cols: u16,
    rows: u16,
    pixels: Option<(u32, u32)>,
)
    requires
        c.is_for(protocol, Some((cols, rows)), pixels),
    ensures
        c.cols == cols,
        c.rows == rows,
        c.usable_rows == at_least_one(rows - 3),
        (c.term_px_w as int, c.term_px_h as int, c.cell_h as int) == picture_room(
            cols,
            rows,
            protocol,
            pixels,
        ),
{
}

} // verus!
