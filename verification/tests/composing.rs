use imgap::compose::{
    compose_onion, compose_swipe, compose_two_up, join_two_up, normalize_pair,
};
use imgap::fraction::{Fraction, ONE};
use imgap::picture::Picture;
use imgap::raster::{Pixel, Raster};

const RED: Pixel = Pixel { r: 255, g: 0, b: 0, a: 255 };
const BLUE: Pixel = Pixel { r: 0, g: 0, b: 255, a: 255 };
const CLEAR: Pixel = Pixel { r: 0, g: 0, b: 0, a: 0 };
const GRAY: Pixel = Pixel { r: 128, g: 128, b: 128, a: 255 };
const YELLOW: Pixel = Pixel { r: 255, g: 220, b: 0, a: 255 };

fn picture(w: u32, h: u32, p: Pixel) -> Picture {
    let rgba = image::RgbaImage::from_pixel(w, h, image::Rgba([p.r, p.g, p.b, p.a]));
    Picture::new(image::DynamicImage::ImageRgba8(rgba)).unwrap()
}

fn fraction(t: f32) -> Fraction {
    Fraction { units: (t as f64 * ONE as f64) as i64 }
}

fn noise(w: u32, h: u32, mut seed: u32) -> Raster {
    let mut data: Vec<u8> = Vec::new();
    for _ in 0..w * h * 4 {
        seed = seed.wrapping_mul(1103515245).wrapping_add(12345);
        data.push((seed >> 16) as u8);
    }
    Raster::from_raw(w, h, data).unwrap()
}

#[test]
fn pictures_line_up_on_a_common_canvas() {
    let (a, b) = normalize_pair(&picture(3, 1, RED), &picture(2, 4, BLUE));
    assert_eq!((a.width, a.height, b.width, b.height), (3, 4, 3, 4));
    for y in 0..4 {
        for x in 0..3 {
            assert_eq!(a.get_pixel(x, y), if y == 0 { RED } else { CLEAR });
            assert_eq!(b.get_pixel(x, y), if x < 2 { BLUE } else { CLEAR });
        }
    }
}

#[test]
fn clear_pixels_lose_their_colour_on_the_canvas() {
    let ghost = Pixel { r: 90, g: 80, b: 70, a: 0 };
    let (a, _) = normalize_pair(&picture(1, 1, ghost), &picture(1, 1, RED));
    assert_eq!(a.get_pixel(0, 0), CLEAR);
}

#[test]
fn partly_clear_pixels_are_blended_by_the_image_crate() {
    let half = Pixel { r: 200, g: 100, b: 50, a: 128 };
    let (a, _) = normalize_pair(&picture(1, 1, half), &picture(1, 1, RED));
    let mut canvas = image::RgbaImage::new(1, 1);
    let top = image::RgbaImage::from_pixel(1, 1, image::Rgba([200, 100, 50, 128]));
    image::imageops::overlay(&mut canvas, &top, 0, 0);
    assert_eq!(a.data, canvas.into_raw());
}

#[test]
fn two_up_puts_a_gray_bar_between_the_pictures() {
    let a = Raster::from_pixel(2, 3, RED);
    let b = Raster::from_pixel(3, 1, BLUE);
    let r = join_two_up(&a, &b);
    assert_eq!((r.width, r.height), (9, 3));
    for y in 0..3 {
        for x in 0..9 {
            let expected = if x < 2 {
                RED
            } else if x < 6 {
                GRAY
            } else if y < 1 {
                BLUE
            } else {
                CLEAR
            };
            assert_eq!(r.get_pixel(x, y), expected);
        }
    }
}

#[test]
fn two_up_scales_each_picture_into_its_half() {
    let a = Raster::from_pixel(100, 50, RED);
    let b = Raster::from_pixel(10, 10, BLUE);
    let r = compose_two_up(&a, &b, 44, 100);
    assert_eq!((r.width, r.height), (20 + 4 + 10, 10));
    assert_eq!(r.get_pixel(0, 0), RED);
    assert_eq!(r.get_pixel(19, 9), RED);
    assert_eq!(r.get_pixel(20, 9), GRAY);
    assert_eq!(r.get_pixel(24, 0), BLUE);
    let tiny = compose_two_up(&a, &b, 3, 0);
    assert_eq!((tiny.width, tiny.height), (6, 1));
}

#[test]
fn swipe_follows_single_precision() {
    for w in [1u32, 2, 3, 7, 640, 1001] {
        let a = noise(w, 2, 1);
        let b = noise(w, 2, 2);
        for k in 0..=60 {
            let t = (k as f32 * 0.0173).min(1.0);
            let split = ((w as f32) * t) as u32;
            let r = compose_swipe(&a, &b, fraction(t));
            for y in 0..2 {
                for x in 0..w {
                    let expected = if x < split {
                        a.get_pixel(x, y)
                    } else if x == split {
                        YELLOW
                    } else {
                        b.get_pixel(x, y)
                    };
                    assert_eq!(r.get_pixel(x, y), expected);
                }
            }
        }
    }
}

#[test]
fn swipe_shows_one_picture_at_each_end() {
    let a = noise(5, 3, 3);
    let b = noise(5, 3, 4);
    assert_eq!(compose_swipe(&a, &b, Fraction::one()).data, a.data);
    let left = compose_swipe(&a, &b, Fraction::zero());
    for y in 0..3 {
        assert_eq!(left.get_pixel(0, y), YELLOW);
        for x in 1..5 {
            assert_eq!(left.get_pixel(x, y), b.get_pixel(x, y));
        }
    }
}

#[test]
fn swipe_reads_a_longer_second_picture_in_the_first_ones_rows() {
    let a = noise(2, 2, 5);
    let b = noise(4, 2, 6);
    let r = compose_swipe(&a, &b, Fraction::zero());
    assert_eq!(&r.data[4..8], &b.data[4..8]);
    assert_eq!(&r.data[12..16], &b.data[12..16]);
}

#[test]
fn onion_follows_single_precision() {
    let a = noise(16, 16, 7);
    let b = noise(16, 16, 8);
    for k in 0..=1000 {
        let t = k as f32 / 1000.0;
        let weight = (t * 255.0 + 0.5) as u32;
        let r = compose_onion(&a, &b, fraction(t));
        for i in 0..a.data.len() {
            let mixed = (a.data[i] as u32 * (255 - weight) + b.data[i] as u32 * weight + 127) / 255;
            assert_eq!(r.data[i] as u32, mixed);
        }
    }
}

#[test]
fn onion_shows_one_picture_at_each_end() {
    let a = noise(4, 4, 9);
    let b = noise(4, 4, 10);
    assert_eq!(compose_onion(&a, &b, Fraction::zero()).data, a.data);
    assert_eq!(compose_onion(&a, &b, Fraction::one()).data, b.data);
    let middle = compose_onion(&a, &b, Fraction::half());
    for i in 0..a.data.len() {
        assert!(middle.data[i] >= a.data[i].min(b.data[i]));
        assert!(middle.data[i] <= a.data[i].max(b.data[i]));
    }
}

#[test]
fn swipe_never_moves_against_the_slider() {
    let a = Raster::from_pixel(500, 1, RED);
    let b = Raster::from_pixel(500, 1, BLUE);
    let mut last = 0;
    for k in 0..=1000 {
        let r = compose_swipe(&a, &b, fraction(k as f32 / 1000.0));
        let split = (0..500).take_while(|x| r.get_pixel(*x, 0) == RED).count();
        assert!(split >= last);
        last = split;
    }
    assert_eq!(last, 500);
}

#[test]
fn sliders_beyond_their_ends_are_clamped() {
    let a = noise(9, 2, 11);
    let b = noise(9, 2, 12);
    for far in [fraction(7.0), fraction(1.5)] {
        assert_eq!(compose_swipe(&a, &b, far).data, compose_swipe(&a, &b, Fraction::one()).data);
        assert_eq!(compose_onion(&a, &b, far).data, b.data);
    }
    for low in [fraction(-7.0), fraction(-0.25)] {
        assert_eq!(compose_swipe(&a, &b, low).data, compose_swipe(&a, &b, Fraction::zero()).data);
        assert_eq!(compose_onion(&a, &b, low).data, a.data);
    }
}
