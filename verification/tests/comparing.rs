use imgap::compare::{
    build_comparison, build_diff_heatmap, heat_of, heatmap_color, join_comparison,
};
use imgap::fraction::{Fraction, ONE};
use imgap::picture::Picture;
use imgap::raster::{Pixel, Raster};

const BLACK: Pixel = Pixel { r: 0, g: 0, b: 0, a: 255 };
const WHITE: Pixel = Pixel { r: 255, g: 255, b: 255, a: 255 };
const MAGENTA: Pixel = Pixel { r: 255, g: 0, b: 255, a: 255 };
const GRAY: Pixel = Pixel { r: 128, g: 128, b: 128, a: 255 };
const CLEAR: Pixel = Pixel { r: 0, g: 0, b: 0, a: 0 };

fn single_precision_color(t: f32) -> Pixel {
    let t = t.clamp(0.0, 1.0);
    let (r, g, b) = if t < 0.25 {
        (0.0, 0.0, t / 0.25)
    } else if t < 0.5 {
        let s = (t - 0.25) / 0.25;
        (0.0, s, 1.0 - s)
    } else if t < 0.75 {
        ((t - 0.5) / 0.25, 1.0, 0.0)
    } else {
        (1.0, 1.0 - (t - 0.75) / 0.25, 0.0)
    };
    Pixel { r: (r * 255.0) as u8, g: (g * 255.0) as u8, b: (b * 255.0) as u8, a: 255 }
}

fn picture(w: u32, h: u32, p: Pixel) -> Picture {
    let rgba = image::RgbaImage::from_pixel(w, h, image::Rgba([p.r, p.g, p.b, p.a]));
    Picture::new(image::DynamicImage::ImageRgba8(rgba)).unwrap()
}

#[test]
fn every_heat_follows_single_precision() {
    for level in 0..=65280u32 {
        let t = level as f32 / (255.0 * 256.0);
        assert_eq!(heatmap_color(Fraction::ratio(level, 65280)), single_precision_color(t));
    }
}

#[test]
fn heat_goes_from_black_to_red() {
    assert_eq!(heat_of(BLACK, BLACK), BLACK);
    assert_eq!(heat_of(WHITE, BLACK), Pixel { r: 255, g: 0, b: 0, a: 255 });
    assert_eq!(heatmap_color(Fraction::half()), Pixel { r: 0, g: 255, b: 0, a: 255 });
    assert_eq!(heatmap_color(Fraction::ratio(1, 4)), Pixel { r: 0, g: 0, b: 255, a: 255 });
    assert_eq!(heatmap_color(Fraction::ratio(3, 4)), Pixel { r: 255, g: 255, b: 0, a: 255 });
    assert_eq!(heatmap_color(Fraction::ratio(1, 8)), Pixel { r: 0, g: 0, b: 127, a: 255 });
}

#[test]
fn colours_are_weighted_by_brightness() {
    let p = |r, g, b| Pixel { r, g, b, a: 255 };
    for d in [1u8, 17, 100, 255] {
        let level = d as u32;
        assert_eq!(heat_of(p(d, 0, 0), BLACK), heatmap_color(Fraction::ratio(77 * level, 65280)));
        assert_eq!(heat_of(p(0, d, 0), BLACK), heatmap_color(Fraction::ratio(151 * level, 65280)));
        assert_eq!(heat_of(BLACK, p(0, 0, d)), heatmap_color(Fraction::ratio(28 * level, 65280)));
    }
}

#[test]
fn opacity_makes_no_heat() {
    assert_eq!(heat_of(Pixel { r: 5, g: 6, b: 7, a: 0 }, Pixel { r: 5, g: 6, b: 7, a: 255 }), BLACK);
}

#[test]
fn heatmap_is_magenta_where_one_picture_ends() {
    let a = Raster::from_pixel(3, 1, WHITE);
    let b = Raster::from_pixel(1, 2, WHITE);
    let r = build_diff_heatmap(&a, &b);
    assert_eq!((r.width, r.height), (3, 2));
    for y in 0..2 {
        for x in 0..3 {
            assert_eq!(r.get_pixel(x, y), if x == 0 && y == 0 { BLACK } else { MAGENTA });
        }
    }
}

#[test]
fn heatmap_does_not_depend_on_the_order() {
    let mut a = Raster::from_pixel(4, 3, Pixel { r: 10, g: 20, b: 30, a: 255 });
    let mut b = Raster::from_pixel(2, 5, Pixel { r: 200, g: 0, b: 31, a: 9 });
    a.put_pixel(1, 2, WHITE);
    b.put_pixel(0, 1, BLACK);
    assert_eq!(build_diff_heatmap(&a, &b).data, build_diff_heatmap(&b, &a).data);
    let same = build_diff_heatmap(&a, &a);
    for y in 0..3 {
        for x in 0..4 {
            assert_eq!(same.get_pixel(x, y), BLACK);
        }
    }
}

#[test]
fn parts_of_a_comparison_are_put_together() {
    let first = Raster::from_pixel(2, 1, WHITE);
    let second = Raster::from_pixel(1, 2, BLACK);
    let heatmap = Raster::from_pixel(3, 1, MAGENTA);
    let r = join_comparison(&first, &second, &heatmap);
    assert_eq!((r.width, r.height), (7, 7));
    for y in 0..7 {
        for x in 0..7 {
            let expected = if y < 2 {
                if x < 2 {
                    if y < 1 { WHITE } else { CLEAR }
                } else if x < 6 {
                    GRAY
                } else {
                    BLACK
                }
            } else if y < 6 {
                GRAY
            } else if (2..5).contains(&x) {
                MAGENTA
            } else {
                CLEAR
            };
            assert_eq!(r.get_pixel(x, y), expected, "{} {}", x, y);
        }
    }
}

#[test]
fn comparison_takes_a_third_for_the_pictures_and_the_rest_for_the_heatmap() {
    let r = build_comparison(&picture(100, 100, WHITE), &picture(100, 100, BLACK), 200, 124);
    // A third of 120 rows for the pictures, 80 for the heatmap.
    assert_eq!((r.width, r.height), (84, 124));
    assert_eq!(r.get_pixel(0, 0), WHITE);
    assert_eq!(r.get_pixel(39, 39), WHITE);
    assert_eq!(r.get_pixel(40, 39), GRAY);
    assert_eq!(r.get_pixel(44, 39), BLACK);
    assert_eq!(r.get_pixel(0, 40), GRAY);
    assert_eq!(r.get_pixel(83, 43), GRAY);
    assert_eq!(r.get_pixel(1, 44), CLEAR);
    assert_eq!(r.get_pixel(2, 44), Pixel { r: 255, g: 0, b: 0, a: 255 });
    assert_eq!(r.get_pixel(81, 123), Pixel { r: 255, g: 0, b: 0, a: 255 });
    assert_eq!(r.get_pixel(82, 123), CLEAR);
}

#[test]
fn comparison_fits_a_screen_that_is_too_small() {
    let r = build_comparison(&picture(50, 50, WHITE), &picture(60, 60, BLACK), 0, 0);
    assert_eq!((r.width, r.height), (6, 6));
}

#[test]
fn heats_beyond_the_scale_have_the_colours_at_its_ends() {
    let heats = [0.0f32, 0.25, 0.5, 0.75, 1.0, 7.0, -7.0];
    let colors = [
        (0, 0, 0),
        (0, 0, 255),
        (0, 255, 0),
        (255, 255, 0),
        (255, 0, 0),
        (255, 0, 0),
        (0, 0, 0),
    ];
    for (t, (r, g, b)) in heats.into_iter().zip(colors) {
        let heat = Fraction { units: (t as f64 * ONE as f64) as i64 };
        assert_eq!(heatmap_color(heat), Pixel { r, g, b, a: 255 });
        assert_eq!(heatmap_color(heat), single_precision_color(t));
    }
}
