use imgap::palette::{channel_range, sample_pixels, split_bucket, Rgb, SixelPalette};
use imgap::raster::{Pixel, Raster};
use imgap::sixel::write_sixel;

const RED: Pixel = Pixel { r: 255, g: 0, b: 0, a: 255 };
const BLUE: Pixel = Pixel { r: 0, g: 0, b: 255, a: 255 };

fn noise(w: u32, h: u32, mut seed: u32) -> Raster {
    let mut data: Vec<u8> = Vec::new();
    for _ in 0..w * h * 4 {
        seed = seed.wrapping_mul(1103515245).wrapping_add(12345);
        data.push((seed >> 16) as u8);
    }
    Raster::from_raw(w, h, data).unwrap()
}

fn text(img: &Raster, palette: &SixelPalette) -> String {
    String::from_utf8(write_sixel(img, palette)).unwrap()
}

/// Paints a sixel stream with palette indices; cells that nothing painted stay
/// `None`.
fn paint(stream: &str, w: usize, h: usize) -> Vec<Option<usize>> {
    let rows = (h + 5) / 6 * 6;
    let mut cells: Vec<Option<usize>> = vec![None; w * rows];
    let body = stream.strip_suffix("\x1b\\\n").unwrap();
    let body = body.strip_prefix(&format!("\x1bP0;1q\"1;1;{};{}", w, h)).unwrap();
    let bytes = body.as_bytes();
    let (mut i, mut x, mut band, mut color) = (0usize, 0usize, 0usize, 0usize);
    while i < bytes.len() {
        let mut number = 0usize;
        let c = bytes[i];
        i += 1;
        if c == b'#' || c == b'!' {
            while bytes[i].is_ascii_digit() {
                number = number * 10 + (bytes[i] - b'0') as usize;
                i += 1;
            }
        }
        if c == b'#' {
            color = number;
            while i < bytes.len() && (bytes[i] == b';' || bytes[i].is_ascii_digit()) {
                i += 1;
            }
        } else if c == b'$' {
            assert_eq!(x, w);
            x = 0;
        } else if c == b'-' {
            band += 1;
            x = 0;
        } else {
            let (count, v) = if c == b'!' {
                i += 1;
                (number, bytes[i - 1] - 63)
            } else {
                (1, c - 63)
            };
            for _ in 0..count {
                for k in 0..6 {
                    if v >> k & 1 == 1 {
                        let place = (band * 6 + k) * w + x;
                        assert_eq!(cells[place], None);
                        cells[place] = Some(color);
                    }
                }
                x += 1;
            }
        }
    }
    assert_eq!(band, rows / 6);
    cells.truncate(w * h);
    cells
}

#[test]
fn one_colour_is_one_run() {
    let img = Raster::from_pixel(5, 2, RED);
    let palette = SixelPalette::from_image(&img, 255);
    assert_eq!(palette.colors, vec![(255, 0, 0)]);
    assert_eq!(text(&img, &palette), "\x1bP0;1q\"1;1;5;2#0;2;100;0;0#0!5B$-\x1b\\\n");
}

#[test]
fn short_runs_are_written_out() {
    let mut img = Raster::from_pixel(3, 1, RED);
    img.put_pixel(2, 0, BLUE);
    let palette = SixelPalette { colors: vec![(255, 0, 0), (0, 0, 255)], lut: Vec::new() };
    let made = SixelPalette::from_samples(vec![(255, 0, 0), (0, 0, 255)], 255);
    assert_eq!(made.colors.len(), palette.colors.len());
    let red = made.index(255, 0, 0);
    let blue = made.index(0, 0, 255);
    assert_ne!(red, blue);
    let stream = text(&img, &made);
    assert!(stream.ends_with(&format!("#{}@@?$#{}??@$-\x1b\\\n", red, blue)));
}

#[test]
fn every_cell_is_painted_once_in_its_colour() {
    for (w, h) in [(1u32, 1u32), (7, 6), (13, 14), (40, 31)] {
        let img = noise(w, h, w * 100 + h);
        let palette = SixelPalette::from_image(&img, 255);
        let cells = paint(&text(&img, &palette), w as usize, h as usize);
        for y in 0..h {
            for x in 0..w {
                let p = img.get_pixel(x, y);
                let expected = palette.index(p.r, p.g, p.b) as usize;
                assert_eq!(cells[(y * w + x) as usize], Some(expected));
            }
        }
    }
}

#[test]
fn empty_picture_is_an_empty_stream() {
    let img = Raster::new(0, 0);
    let palette = SixelPalette::from_image(&img, 255);
    assert!(palette.colors.is_empty());
    assert_eq!(text(&img, &palette), "\x1bP0;1q\"1;1;0;0\x1b\\\n");
}

#[test]
fn lookup_finds_the_nearest_colour_of_the_bin() {
    let samples: Vec<Rgb> = (0..600u32)
        .map(|i| ((i * 7 % 256) as u8, (i * 13 % 256) as u8, (i * 29 % 256) as u8))
        .collect();
    let palette = SixelPalette::from_samples(samples, 40);
    assert_eq!(palette.colors.len(), 40);
    for (r, g, b) in [(0u8, 0u8, 0u8), (255, 255, 255), (12, 130, 77), (200, 9, 250)] {
        let middle = |v: u8| (v as i32 / 8) * 8 + 4;
        let distance = |c: &Rgb| {
            let (dr, dg, db) =
                (middle(r) - c.0 as i32, middle(g) - c.1 as i32, middle(b) - c.2 as i32);
            dr * dr + dg * dg + db * db
        };
        let found = palette.index(r, g, b) as usize;
        let best = palette.colors.iter().map(distance).min().unwrap();
        let first = palette.colors.iter().position(|c| distance(c) == best).unwrap();
        assert_eq!(found, first);
    }
}

#[test]
fn palette_keeps_few_colours_exactly() {
    let samples: Vec<Rgb> = vec![(1, 2, 3), (200, 100, 0), (1, 2, 3), (9, 250, 9), (200, 100, 0)];
    let mut colors = SixelPalette::from_samples(samples, 255).colors;
    colors.sort();
    assert_eq!(colors, vec![(1, 2, 3), (9, 250, 9), (200, 100, 0)]);
}

#[test]
fn palette_of_one_colour_is_the_mean() {
    let samples: Vec<Rgb> = vec![(0, 10, 20), (10, 20, 30), (20, 30, 41)];
    assert_eq!(SixelPalette::from_samples(samples, 1).colors, vec![(10, 20, 30)]);
    assert!(SixelPalette::from_samples(Vec::new(), 255).colors.is_empty());
}

#[test]
fn range_is_the_widest_channel() {
    assert_eq!(channel_range(&[(10, 0, 5), (20, 200, 6)]), 200);
    assert_eq!(channel_range(&[(10, 0, 5)]), 0);
    assert_eq!(channel_range(&[(0, 0, 0), (3, 2, 90)]), 90);
}

#[test]
fn bucket_is_cut_in_the_middle_of_its_widest_channel() {
    let (a, b) = split_bucket(vec![(0, 9, 0), (1, 1, 0), (0, 5, 0), (1, 0, 0), (0, 7, 0)]);
    let mut left: Vec<u8> = a.iter().map(|p| p.1).collect();
    let mut right: Vec<u8> = b.iter().map(|p| p.1).collect();
    left.sort();
    right.sort();
    assert_eq!(left, vec![0, 1]);
    assert_eq!(right, vec![5, 7, 9]);
    // Red wins over green, and green over blue, where they are equally wide.
    let (a, b) = split_bucket(vec![(4, 0, 0), (0, 4, 4)]);
    assert_eq!((a, b), (vec![(0, 4, 4)], vec![(4, 0, 0)]));
    let (a, b) = split_bucket(vec![(0, 4, 0), (0, 0, 4)]);
    assert_eq!((a, b), (vec![(0, 0, 4)], vec![(0, 4, 0)]));
    let (a, b) = split_bucket(vec![(0, 0, 9), (0, 0, 3)]);
    assert_eq!((a, b), (vec![(0, 0, 3)], vec![(0, 0, 9)]));
}

#[test]
fn at_most_so_many_pixels_are_sampled() {
    let img = noise(100, 100, 5);
    for max in [1usize, 3, 100, 3333, 9999, 10_000, 20_000] {
        let samples = sample_pixels(&[&img], max);
        assert!(samples.len() <= max);
        assert!(!samples.is_empty());
        assert_eq!(samples[0], (img.data[0], img.data[1], img.data[2]));
    }
    assert_eq!(sample_pixels(&[&img], 10_000).len(), 10_000);
    assert_eq!(sample_pixels(&[&img], 5_000).len(), 5_000);
    let second = sample_pixels(&[&img], 5_000)[1];
    assert_eq!(second, (img.data[8], img.data[9], img.data[10]));
}

#[test]
fn samples_of_several_pictures_follow_each_other() {
    let a = Raster::from_pixel(2, 1, RED);
    let empty = Raster::new(0, 5);
    let b = Raster::from_pixel(1, 1, BLUE);
    assert_eq!(
        sample_pixels(&[&a, &empty, &b], 100),
        vec![(255, 0, 0), (255, 0, 0), (0, 0, 255)]
    );
    let palette = SixelPalette::from_images(&[&a, &b], 255);
    assert_eq!(palette.colors.len(), 2);
}

#[test]
fn pictures_without_pixels_give_no_samples() {
    let flat = Raster::from_raw(7, 0, Vec::new()).unwrap();
    let thin = Raster::from_raw(0, 7, Vec::new()).unwrap();
    assert!(sample_pixels(&[&flat, &thin], 0).is_empty());
    assert!(sample_pixels(&[], 0).is_empty());
    let img = noise(3, 2, 5);
    assert_eq!(sample_pixels(&[&flat, &img, &thin], 6), sample_pixels(&[&img], 6));
}

#[test]
fn ample_palettes_lose_no_color() {
    let two: Vec<Rgb> = vec![(9, 9, 9), (9, 9, 9), (9, 9, 9), (200, 0, 0)];
    let mut colors = SixelPalette::from_samples(two, 4).colors;
    assert!(colors.len() < 4);
    colors.sort();
    colors.dedup();
    assert_eq!(colors, vec![(9, 9, 9), (200, 0, 0)]);
    for (count, distinct, max) in
        [(1u32, 1u32, 255usize), (7, 7, 255), (7, 7, 7), (200, 200, 200), (1000, 100, 1000)]
    {
        let samples: Vec<Rgb> = (0..count)
            .map(|i| {
                let k = i * 37 % distinct;
                ((k * 53 % 251) as u8, (k % 16) as u8, (k / 2) as u8)
            })
            .collect();
        let mut wanted = samples.clone();
        wanted.sort();
        wanted.dedup();
        let mut colors = SixelPalette::from_samples(samples, max).colors;
        colors.sort();
        colors.dedup();
        assert_eq!(colors, wanted);
    }
}
