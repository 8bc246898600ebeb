use imgap::fraction::{Fraction, ONE};
use imgap::frame::{
    clear_frame, compose_frame, compute_interactive_cache, image_cell_rows, place_frame,
    render_comparison, render_interactive_frame, show, show_alone, still_room,
};
use imgap::halfblock::write_text;
use imgap::mode::CompareMode;
use imgap::palette::SixelPalette;
use imgap::picture::Picture;
use imgap::protocol::Protocol;
use imgap::raster::{Pixel, Raster};
use imgap::status::draw_status_bar;

const RED: Pixel = Pixel { r: 255, g: 0, b: 0, a: 255 };
const BLUE: Pixel = Pixel { r: 0, g: 0, b: 255, a: 255 };
const PROTOCOLS: [Protocol; 4] =
    [Protocol::Kitty, Protocol::Iterm2, Protocol::Sixel, Protocol::Ansi];
const MODES: [CompareMode; 5] = [
    CompareMode::TwoUp,
    CompareMode::Swipe,
    CompareMode::OnionSkin,
    CompareMode::Left,
    CompareMode::Right,
];

fn picture(w: u32, h: u32, p: Pixel) -> Picture {
    let rgba = image::RgbaImage::from_pixel(w, h, image::Rgba([p.r, p.g, p.b, p.a]));
    Picture::new(image::DynamicImage::ImageRgba8(rgba)).unwrap()
}

fn fraction(t: f32) -> Fraction {
    Fraction { units: (t as f64 * ONE as f64) as i64 }
}

fn status(cols: u16, rows: u16, slider: Fraction, mode: CompareMode) -> String {
    String::from_utf8(draw_status_bar(cols, rows, slider, mode)).unwrap()
}

fn expected_status(cols: u16, rows: u16, slider: f32, mode: CompareMode) -> String {
    let slider_row = rows.saturating_sub(2).max(1);
    let help_row = rows.saturating_sub(1).max(1);
    let pct = (slider * 100.0).round() as u32;
    let label = format!(" {:3}%", pct);
    let width = (cols as usize).saturating_sub(label.len() + 2).max(10);
    let pos = ((width as f32) * slider) as usize;
    let mut bar = String::new();
    for i in 0..width {
        if !mode.uses_slider() {
            bar.push('·');
        } else if i == pos.min(width - 1) {
            bar.push_str("\x1b[33m█\x1b[0m");
        } else if i < pos {
            bar.push('=');
        } else {
            bar.push('-');
        }
    }
    format!(
        "\x1b[{};1H\x1b[2K[{}]{}\x1b[{};1H\x1b[2Kmode: \x1b[1m{}\x1b[0m    \x1b[2m←/→ slider   m mode   q quit\x1b[0m",
        slider_row + 1,
        bar,
        label,
        help_row + 1,
        mode.label()
    )
}

#[test]
fn status_follows_single_precision() {
    for cols in [0u16, 5, 16, 17, 18, 80, 200, 65535] {
        for rows in [0u16, 1, 2, 3, 4, 24, 65535] {
            for k in 0..=50 {
                if cols == 65535 && k % 25 != 0 {
                    continue;
                }
                let t = (k as f32 * 0.0211).min(1.0);
                for mode in MODES {
                    assert_eq!(status(cols, rows, fraction(t), mode), expected_status(cols, rows, t, mode));
                }
            }
        }
    }
}

#[test]
fn status_of_a_narrow_screen() {
    assert_eq!(
        status(17, 10, Fraction::half(), CompareMode::Swipe),
        "\x1b[9;1H\x1b[2K[=====\x1b[33m█\x1b[0m----]  50%\x1b[10;1H\x1b[2Kmode: \x1b[1mswipe\x1b[0m    \
         \x1b[2m←/→ slider   m mode   q quit\x1b[0m"
    );
    assert_eq!(
        status(1, 1, Fraction::one(), CompareMode::Left),
        "\x1b[2;1H\x1b[2K[··········] 100%\x1b[2;1H\x1b[2Kmode: \x1b[1mleft only\x1b[0m    \
         \x1b[2m←/→ slider   m mode   q quit\x1b[0m"
    );
}

#[test]
fn percentages_follow_single_precision() {
    for k in 0..=10_000u32 {
        let t = k as f32 / 10_000.0;
        let text = status(17, 10, fraction(t), CompareMode::Swipe);
        let label = format!("] {:3}%", (t * 100.0).round() as u32);
        assert!(text.contains(&label));
    }
}

#[test]
fn rows_that_a_picture_takes() {
    assert_eq!(image_cell_rows(0, Protocol::Ansi, 2), 0);
    assert_eq!(image_cell_rows(1, Protocol::Ansi, 2), 1);
    assert_eq!(image_cell_rows(7, Protocol::Ansi, 0), 4);
    assert_eq!(image_cell_rows(0, Protocol::Kitty, 16), 1);
    assert_eq!(image_cell_rows(16, Protocol::Sixel, 16), 1);
    assert_eq!(image_cell_rows(17, Protocol::Iterm2, 16), 2);
    assert_eq!(image_cell_rows(u32::MAX, Protocol::Kitty, 1), u32::MAX);
}

#[test]
fn cache_measures_the_terminal() {
    let (a, b) = (picture(100, 50, RED), picture(80, 60, BLUE));
    let c = compute_interactive_cache(&a, &b, Protocol::Kitty, Some((40, 23)), Some((400, 460))).unwrap();
    assert_eq!((c.cols, c.rows, c.usable_rows), (40, 23, 20));
    assert_eq!((c.term_px_w, c.term_px_h, c.cell_h), (400, 400, 20));
    assert_eq!((c.scaled_a.width, c.scaled_a.height), (100, 60));
    assert!(c.sixel_palette.is_none());
    let c = compute_interactive_cache(&a, &b, Protocol::Sixel, None, None).unwrap();
    assert_eq!((c.term_px_w, c.term_px_h, c.cell_h), (640, 336, 16));
    assert!(c.sixel_palette.is_some());
    let c = compute_interactive_cache(&a, &b, Protocol::Ansi, Some((50, 2)), Some((9, 9))).unwrap();
    assert_eq!((c.usable_rows, c.term_px_w, c.term_px_h, c.cell_h), (1, 50, 2, 2));
    assert_eq!((c.scaled_a.width, c.scaled_a.height), (3, 2));
    assert_eq!((c.scaled_b.width, c.scaled_b.height), (3, 2));
    let c = compute_interactive_cache(&a, &b, Protocol::Kitty, Some((0, 0)), Some((10, 0))).unwrap();
    assert_eq!((c.usable_rows, c.term_px_w, c.term_px_h, c.cell_h), (1, 10, 1, 1));
}

#[test]
fn frame_is_its_parts_in_order() {
    let (a, b) = (picture(30, 20, RED), picture(20, 30, BLUE));
    for protocol in PROTOCOLS {
        let c = compute_interactive_cache(&a, &b, protocol, Some((60, 20)), None).unwrap();
        for mode in MODES {
            let slider = fraction(0.3);
            let frame = render_interactive_frame(&c, mode, slider, protocol).unwrap();
            let composed = compose_frame(&c, mode, slider).unwrap();
            let mut bytes = clear_frame(protocol);
            bytes.extend(place_frame(&c, protocol, composed.height));
            bytes.extend(show(&composed, protocol, &c.sixel_palette).unwrap());
            bytes.extend(draw_status_bar(60, 20, slider, mode));
            assert_eq!(frame.bytes, bytes);
            assert_eq!((frame.width, frame.height), (composed.width, composed.height));
        }
    }
}

#[test]
fn single_modes_show_the_scaled_pictures() {
    let (a, b) = (picture(3, 2, RED), picture(3, 2, BLUE));
    let c = compute_interactive_cache(&a, &b, Protocol::Ansi, Some((60, 20)), None).unwrap();
    let left = compose_frame(&c, CompareMode::Left, Fraction::half()).unwrap();
    let right = compose_frame(&c, CompareMode::Right, Fraction::half()).unwrap();
    assert_eq!(left.data, a.rgba.data);
    assert_eq!(right.data, b.rgba.data);
    let both = compose_frame(&c, CompareMode::TwoUp, Fraction::half()).unwrap();
    assert_eq!((both.width, both.height), (10, 2));
}

#[test]
fn picture_stands_in_the_middle_above_the_slider() {
    let (a, b) = (picture(10, 6, RED), picture(10, 6, BLUE));
    let c = compute_interactive_cache(&a, &b, Protocol::Ansi, Some((60, 20)), None).unwrap();
    // Three rows of characters in seventeen.
    assert_eq!(place_frame(&c, Protocol::Ansi, 6), b"\x1b[8;1H".to_vec());
    assert_eq!(place_frame(&c, Protocol::Ansi, 34), b"\x1b[1;1H".to_vec());
    assert_eq!(place_frame(&c, Protocol::Ansi, 1000), b"\x1b[1;1H".to_vec());
    for rows in 4..40u16 {
        for protocol in PROTOCOLS {
            let (a, b) = (picture(70, 500, RED), picture(90, 400, BLUE));
            let c = compute_interactive_cache(&a, &b, protocol, Some((60, rows)), Some((600, 777))).unwrap();
            for mode in MODES {
                let h = compose_frame(&c, mode, Fraction::half()).unwrap().height;
                let taken = image_cell_rows(h, protocol, c.cell_h);
                let above = (c.usable_rows as u32).saturating_sub(taken) / 2;
                assert!(above + taken + 3 <= rows as u32);
            }
        }
    }
}

#[test]
fn kitty_pictures_are_deleted_first() {
    assert_eq!(clear_frame(Protocol::Kitty), b"\x1b[2J\x1b[H\x1b_Ga=d;\x1b\\".to_vec());
    assert_eq!(clear_frame(Protocol::Ansi), b"\x1b[2J\x1b[H".to_vec());
}

#[test]
fn pictures_without_pixels_are_not_shown() {
    let (a, b) = (picture(0, 0, RED), picture(0, 0, BLUE));
    for protocol in [Protocol::Kitty, Protocol::Iterm2] {
        let c = compute_interactive_cache(&a, &b, protocol, None, None).unwrap();
        assert!(render_interactive_frame(&c, CompareMode::Left, Fraction::half(), protocol).is_none());
    }
    let c = compute_interactive_cache(&a, &b, Protocol::Ansi, None, None).unwrap();
    assert!(render_interactive_frame(&c, CompareMode::Left, Fraction::half(), Protocol::Ansi).is_some());
    // The bar between two pictures without columns has no colour in the palette.
    let (a, b) = (picture(0, 5, RED), picture(0, 5, BLUE));
    let c = compute_interactive_cache(&a, &b, Protocol::Sixel, None, None).unwrap();
    let slider = Fraction::half();
    assert!(render_interactive_frame(&c, CompareMode::TwoUp, slider, Protocol::Sixel).is_none());
    assert!(render_interactive_frame(&c, CompareMode::Swipe, slider, Protocol::Sixel).is_some());
}

#[test]
fn picture_is_shown_by_each_protocol() {
    let img = Raster::from_pixel(4, 4, RED);
    let palette = Some(SixelPalette::from_image(&img, 255));
    assert!(show(&img, Protocol::Kitty, &None).unwrap().starts_with(b"\x1b_Gf=100,a=T,m=0;"));
    assert!(show(&img, Protocol::Iterm2, &None).unwrap().starts_with(b"\x1b]1337;File=inline=1;"));
    assert!(show(&img, Protocol::Sixel, &palette).unwrap().starts_with(b"\x1bP0;1q\"1;1;4;4#0"));
    assert!(show(&img, Protocol::Sixel, &None).is_none());
    assert_eq!(show(&img, Protocol::Ansi, &None).unwrap(), write_text(&img));
    assert!(show_alone(&img, Protocol::Sixel).unwrap().starts_with(b"\x1bP0;1q\"1;1;4;4#0;2;100;0;0"));
    assert_eq!(show_alone(&img, Protocol::Ansi).unwrap(), write_text(&img));
}

#[test]
fn still_comparison_is_shown() {
    let (a, b) = (picture(20, 20, RED), picture(20, 20, BLUE));
    let whole = imgap::compare::build_comparison(&a, &b, 100, 100);
    for protocol in PROTOCOLS {
        let bytes = render_comparison(&a, &b, protocol, 100, 100).unwrap();
        assert_eq!(bytes, show_alone(&whole, protocol).unwrap());
    }
    assert_eq!(still_room(Protocol::Ansi, Some((80, 24)), Some((1, 1))), (80, 38));
    assert_eq!(still_room(Protocol::Kitty, Some((80, 24)), None), (640, 304));
    assert_eq!(still_room(Protocol::Sixel, Some((80, 24)), Some((800, 480))), (800, 380));
}

#[test]
fn comparison_that_is_too_large_is_not_made() {
    let empty = |w, h| {
        let source = image::DynamicImage::ImageRgba8(image::RgbaImage::new(w, h));
        Picture::new(source).unwrap()
    };
    let (wide, tall) = (empty(u32::MAX, 0), empty(0, u32::MAX));
    assert!(render_comparison(&wide, &tall, Protocol::Ansi, 10, 10).is_none());
    assert!(render_comparison(&wide, &wide, Protocol::Ansi, 10, 10).is_some());
}

#[test]
fn pictures_with_very_long_sides_are_shown() {
    let long = || {
        let source = image::DynamicImage::ImageRgba8(image::RgbaImage::new(5_000_000, 1));
        Picture::new(source).unwrap()
    };
    let (a, b) = (long(), long());
    let c = compute_interactive_cache(&a, &b, Protocol::Ansi, None, None).unwrap();
    assert_eq!((c.scaled_a.width, c.scaled_a.height), (80, 1));
    assert_eq!((c.scaled_b.width, c.scaled_b.height), (80, 1));
    let slider = Fraction::half();
    assert!(compose_frame(&c, CompareMode::TwoUp, slider).is_some());
    assert!(render_comparison(&a, &b, Protocol::Ansi, 100, 100).is_some());
}

#[test]
fn pictures_are_not_prepared_for_rooms_that_are_too_large() {
    let long = || {
        let source = image::DynamicImage::ImageRgba8(image::RgbaImage::new(8_388_610, 1));
        Picture::new(source).unwrap()
    };
    let (a, b) = (long(), long());
    let room = Some((8_388_609, 480));
    assert!(compute_interactive_cache(&a, &b, Protocol::Kitty, None, room).is_none());
    let room = Some((8_388_610, 480));
    let c = compute_interactive_cache(&a, &b, Protocol::Kitty, None, room).unwrap();
    assert!(compose_frame(&c, CompareMode::Left, Fraction::half()).is_some());
}

#[test]
fn swipes_without_rows_are_empty() {
    let wide = || {
        let source = image::DynamicImage::ImageRgba8(image::RgbaImage::new(16_777_219, 0));
        Picture::new(source).unwrap()
    };
    let room = Some((u32::MAX, 480));
    let c = compute_interactive_cache(&wide(), &wide(), Protocol::Kitty, None, room).unwrap();
    let r = compose_frame(&c, CompareMode::Swipe, Fraction::one()).unwrap();
    assert_eq!((r.width, r.height, r.data.len()), (16_777_219, 0, 0));
}

#[test]
fn half_block_pictures_are_as_many_lines_as_they_take_rows() {
    for (w, h) in [(0u32, 3u32), (1, 1), (3, 4), (5, 7), (10, 0)] {
        let img = Raster::from_pixel(w, h, RED);
        let text = String::from_utf8(show(&img, Protocol::Ansi, &None).unwrap()).unwrap();
        let lines: Vec<&str> = text.split_inclusive('\n').collect();
        assert_eq!(lines.len() as u32, image_cell_rows(h, Protocol::Ansi, 9));
        for line in lines {
            assert!(line.ends_with("\x1b[0m\r\n"));
            assert_eq!(line.matches('▄').count() as u32, w);
        }
        assert_eq!(text.matches('\n').count(), text.matches("\r\n").count());
    }
}
