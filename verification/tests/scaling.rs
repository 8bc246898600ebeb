use image::imageops::FilterType;
use imgap::picture::Picture;
use imgap::raster::{is_addressable, Pixel, Raster};
use imgap::scale::{fit_size, is_scalable, scale_dynamic, scale_pair, scale_rgba};

fn gradient(w: u32, h: u32) -> Raster {
    let mut data: Vec<u8> = Vec::new();
    for y in 0..h {
        for x in 0..w {
            data.push((x * 7 + y * 3) as u8);
            data.push((x * x + y) as u8);
            data.push((y * 11) as u8);
            data.push(255 - (x % 50) as u8);
        }
    }
    Raster::from_raw(w, h, data).unwrap()
}

fn double_precision_size(w: u32, h: u32, max_w: u32, max_h: u32) -> (u32, u32) {
    if w <= max_w && h <= max_h {
        return (w, h);
    }
    let scale = (max_w as f64 / w as f64).min(max_h as f64 / h as f64);
    (((w as f64 * scale) as u32).max(1), ((h as f64 * scale) as u32).max(1))
}

fn next(seed: &mut u64) -> u64 {
    *seed = seed.wrapping_mul(6364136223846793005).wrapping_add(1442695040888963407);
    *seed >> 33
}

#[test]
fn size_follows_double_precision() {
    let mut seed: u64 = 7;
    for round in 0..200_000u32 {
        let bits = 1 + round % 31;
        let w = (next(&mut seed) % (1u64 << bits)) as u32;
        let h = (next(&mut seed) % (1u64 << (1 + next(&mut seed) % 31))) as u32;
        let max_w = (next(&mut seed) % 5000) as u32;
        let max_h = (next(&mut seed) % 5000) as u32;
        assert_eq!(
            fit_size(w, h, max_w, max_h),
            double_precision_size(w, h, max_w, max_h),
            "{}x{} into {}x{}",
            w,
            h,
            max_w,
            max_h
        );
    }
}

#[test]
fn size_follows_double_precision_at_the_limits() {
    let edges = [0u32, 1, 2, 3, 99, 100, 4095, 4096, 16_777_217, u32::MAX - 1, u32::MAX];
    for w in edges {
        for h in edges {
            for max_w in edges {
                for max_h in edges {
                    assert_eq!(
                        fit_size(w, h, max_w, max_h),
                        double_precision_size(w, h, max_w, max_h)
                    );
                }
            }
        }
    }
}

#[test]
fn sizes_worked_out_by_hand() {
    assert_eq!(fit_size(200, 100, 100, 100), (100, 50));
    assert_eq!(fit_size(300, 100, 100, 100), (100, 33));
    assert_eq!(fit_size(50, 40, 100, 100), (50, 40));
    assert_eq!(fit_size(1000, 1, 10, 10), (10, 1));
    assert_eq!(fit_size(10, 10, 0, 0), (1, 1));
    assert_eq!(fit_size(0, 10, 5, 5), (1, 5));
}

#[test]
fn scaled_size_lies_in_the_box_and_keeps_proportions() {
    for (w, h) in [(640u64, 480u64), (3, 1000), (1000, 3), (777, 333)] {
        for (max_w, max_h) in [(100u64, 100u64), (50, 200), (7, 9)] {
            let (nw, nh) = fit_size(w as u32, h as u32, max_w as u32, max_h as u32);
            let (nw, nh) = (nw as u64, nh as u64);
            assert!(nw <= max_w.max(1) && nh <= max_h.max(1));
            assert!(nw <= w && nh <= h);
            assert!(nw * h <= nh * w + w + h && nh * w <= nw * h + w + h);
        }
    }
}

#[test]
fn fitting_picture_is_not_scaled() {
    let img = gradient(12, 9);
    let r = scale_rgba(&img, 12, 9);
    assert_eq!((r.width, r.height), (12, 9));
    assert_eq!(r.data, img.data);
}

#[test]
fn scaled_picture_is_resampled_with_the_triangle_filter() {
    let img = gradient(40, 30);
    let r = scale_rgba(&img, 20, 20);
    assert_eq!((r.width, r.height), (20, 15));
    let source = image::RgbaImage::from_raw(40, 30, img.data.clone()).unwrap();
    let expected = image::imageops::resize(&source, 20, 15, FilterType::Triangle);
    assert_eq!(r.data, expected.into_raw());
    assert_ne!(r.data, img.data);
}

#[test]
fn one_colour_stays_when_scaled() {
    let img = Raster::from_pixel(64, 64, Pixel { r: 10, g: 200, b: 30, a: 255 });
    let r = scale_rgba(&img, 16, 16);
    for y in 0..16 {
        for x in 0..16 {
            assert_eq!(r.get_pixel(x, y), Pixel { r: 10, g: 200, b: 30, a: 255 });
        }
    }
}

#[test]
fn pictures_without_columns_become_one_clear_column() {
    let img = Raster::from_raw(0, 10, Vec::new()).unwrap();
    let r = scale_rgba(&img, 5, 5);
    assert_eq!((r.width, r.height), (1, 5));
    assert_eq!(r.data, vec![0u8; 20]);
}

#[test]
fn pair_is_scaled_by_one_factor() {
    let a = gradient(50, 40);
    let b = Raster::from_pixel(50, 40, Pixel { r: 1, g: 2, b: 3, a: 255 });
    let (sa, sb) = scale_pair(&a, &b, 25, 100);
    assert_eq!((sa.width, sa.height), (25, 20));
    assert_eq!((sb.width, sb.height), (25, 20));
    assert_eq!(sa.data, scale_rgba(&a, 25, 100).data);
    assert_eq!(sb.get_pixel(24, 19), Pixel { r: 1, g: 2, b: 3, a: 255 });
    let (ka, kb) = scale_pair(&a, &b, 50, 40);
    assert_eq!(ka.data, a.data);
    assert_eq!(kb.data, b.data);
}

#[test]
fn second_picture_of_a_pair_takes_the_size_of_the_first() {
    let a = gradient(50, 40);
    for (w, h) in [(3u32, 3u32), (10, 100), (80, 7)] {
        let b = Raster::from_pixel(w, h, Pixel { r: 1, g: 2, b: 3, a: 255 });
        let (sa, sb) = scale_pair(&a, &b, 25, 100);
        assert_eq!((sa.width, sa.height), (25, 20));
        assert_eq!((sb.width, sb.height), (25, 20));
        assert_eq!(sb.get_pixel(24, 19), Pixel { r: 1, g: 2, b: 3, a: 255 });
    }
    let a = gradient(4_194_304, 1);
    let b = Raster::from_pixel(4_194_302, 1, Pixel { r: 1, g: 2, b: 3, a: 255 });
    let (_, sb) = scale_pair(&a, &b, 4_194_303, 1);
    assert_eq!((sb.width, sb.height), (4_194_303, 1));
    assert_eq!(sb.get_pixel(4_194_302, 0), Pixel { r: 1, g: 2, b: 3, a: 255 });
}

#[test]
fn decoded_picture_is_resampled_in_its_own_colour_type() {
    let mut gray = image::ImageBuffer::<image::Luma<u16>, Vec<u16>>::new(30, 20);
    for y in 0..20 {
        for x in 0..30 {
            gray.put_pixel(x, y, image::Luma([(x * 2100 + y * 97) as u16]));
        }
    }
    let source = image::DynamicImage::ImageLuma16(gray);
    let expected = source.resize_exact(15, 10, FilterType::Triangle).to_rgba8();
    let picture = Picture::new(source).unwrap();
    assert_eq!((picture.rgba.width, picture.rgba.height), (30, 20));
    let r = scale_dynamic(&picture, 15, 15);
    assert_eq!((r.width, r.height), (15, 10));
    assert_eq!(r.data, expected.into_raw());
    let whole = scale_dynamic(&picture, 30, 20);
    assert_eq!(whole.data, picture.rgba.data);
}

#[test]
fn decoded_rgb_picture_is_opaque() {
    let mut rgb = image::RgbImage::new(2, 1);
    rgb.put_pixel(0, 0, image::Rgb([1, 2, 3]));
    rgb.put_pixel(1, 0, image::Rgb([4, 5, 6]));
    let picture = Picture::new(image::DynamicImage::ImageRgb8(rgb)).unwrap();
    assert_eq!(picture.rgba.data, vec![1, 2, 3, 255, 4, 5, 6, 255]);
}

#[test]
fn raster_takes_a_buffer_of_the_right_length_only() {
    assert!(Raster::from_raw(2, 2, vec![0; 16]).is_some());
    assert!(Raster::from_raw(2, 2, vec![0; 15]).is_none());
    assert!(Raster::from_raw(u32::MAX, u32::MAX, Vec::new()).is_none());
    assert!(is_addressable(10_000, 10_000));
    assert!(!is_addressable(u32::MAX, u32::MAX));
}

#[test]
fn pixels_are_read_back() {
    let mut img = Raster::new(3, 2);
    assert_eq!(img.get_pixel(2, 1), Pixel { r: 0, g: 0, b: 0, a: 0 });
    let p = Pixel { r: 9, g: 8, b: 7, a: 6 };
    img.put_pixel(1, 1, p);
    assert_eq!(img.get_pixel(1, 1), p);
    assert_eq!(&img.data[16..20], &[9, 8, 7, 6]);
    img.fill(0, 2, 0, 1, p);
    assert_eq!(img.get_pixel(0, 0), p);
    assert_eq!(img.get_pixel(2, 0), Pixel { r: 0, g: 0, b: 0, a: 0 });
    let copy = img.duplicate();
    assert_eq!(copy.data, img.data);
}

#[test]
fn bytes_behind_a_decoded_picture_are_cut_off() {
    let long = image::RgbaImage::from_raw(1, 1, vec![1, 2, 3, 4, 5, 6, 7, 8]).unwrap();
    let picture = Picture::new(image::DynamicImage::ImageRgba8(long)).unwrap();
    assert_eq!(picture.rgba.data, vec![1, 2, 3, 4]);
    let gray = image::GrayImage::from_raw(2, 1, vec![9, 8, 7]).unwrap();
    let picture = Picture::new(image::DynamicImage::ImageLuma8(gray)).unwrap();
    assert_eq!(picture.rgba.data, vec![9, 9, 9, 255, 8, 8, 8, 255]);
}

#[test]
fn pictures_are_not_resampled_to_sides_that_are_too_long() {
    assert!(is_scalable(5_000_000, 1, 80, 42));
    assert!(is_scalable(3, 5_000_000, 10, 10));
    assert!(is_scalable(u32::MAX, 1, 8_388_608, 1));
    assert!(!is_scalable(u32::MAX, 1, 8_388_609, 1));
    assert!(!is_scalable(32_715_610, 1, 8_388_618, 1));
    assert!(!is_scalable(67_108_860, 1, 67_108_856, 1));
    assert!(is_scalable(67_108_860, 1, 67_108_860, 1));
    assert!(is_scalable(0, u32::MAX, 5, 5));
}

#[test]
fn long_sides_are_shrunk() {
    let color = Pixel { r: 5, g: 6, b: 7, a: 255 };
    let img = Raster::from_pixel(5_000_000, 1, color);
    for max in [80u32, 2_097_152, 4_194_304, 4_999_999] {
        let r = scale_rgba(&img, max, 1);
        assert_eq!((r.width, r.height), (max, 1));
        assert_eq!(r.get_pixel(0, 0), color);
        assert_eq!(r.get_pixel(max - 1, 0), color);
    }
    let tall = Raster::from_pixel(1, 16_777_217, color);
    let r = scale_rgba(&tall, 1, 43);
    assert_eq!((r.width, r.height), (1, 43));
    assert_eq!(r.get_pixel(0, 42), color);
    let source = image::DynamicImage::ImageLuma8(image::GrayImage::from_pixel(5_000_000, 1, image::Luma([9])));
    let picture = Picture::new(source).unwrap();
    let r = scale_dynamic(&picture, 80, 42);
    assert_eq!((r.width, r.height), (80, 1));
    assert_eq!(r.get_pixel(79, 0), Pixel { r: 9, g: 9, b: 9, a: 255 });
}

#[test]
fn shrunk_pictures_are_no_smaller_than_needed() {
    for (w, h, max_w, max_h) in
        [(50u32, 40u32, 25u32, 100u32), (3, 7, 2, 6), (1920, 1080, 333, 777), (7, 1_000_000, 5, 999), (9, 9, 0, 4)]
    {
        let (nw, nh) = fit_size(w, h, max_w, max_h);
        assert!(max_w <= nw + 1 || max_h <= nh + 1);
    }
}

#[test]
fn longest_sides_are_resampled() {
    let color = Pixel { r: 5, g: 6, b: 7, a: 255 };
    let img = Raster::from_pixel(8_388_610, 1, color);
    let r = scale_rgba(&img, 8_388_608, 1);
    assert_eq!((r.width, r.height), (8_388_608, 1));
    assert_eq!(r.get_pixel(8_388_607, 0), color);
    let tall = Raster::from_pixel(1, 8_388_609, color);
    let r = scale_rgba(&tall, 1, 8_388_608);
    assert_eq!(r.get_pixel(0, 8_388_607), color);
}
