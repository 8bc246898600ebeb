use imgap::halfblock::{blend_alpha_rgb, write_text};
use imgap::raster::{Pixel, Raster};

#[test]
fn every_opacity_follows_single_precision() {
    for a in 0..=255u8 {
        for v in 0..=255u8 {
            let share = a as f32 / 255.0;
            let expected = (share * v as f32) as u8;
            let p = Pixel { r: v, g: 255 - v, b: v / 2, a };
            assert_eq!(
                blend_alpha_rgb(p),
                (
                    expected,
                    (share * (255 - v) as f32) as u8,
                    (share * (v / 2) as f32) as u8
                )
            );
        }
    }
}

#[test]
fn opaque_stays_and_clear_is_black() {
    for v in [0u8, 1, 77, 254, 255] {
        assert_eq!(blend_alpha_rgb(Pixel { r: v, g: v, b: v, a: 255 }), (v, v, v));
        assert_eq!(blend_alpha_rgb(Pixel { r: v, g: v, b: v, a: 0 }), (0, 0, 0));
        for a in 0..=255u8 {
            assert!(blend_alpha_rgb(Pixel { r: v, g: 0, b: 0, a }).0 <= v);
        }
    }
}

#[test]
fn two_pixel_rows_are_one_line() {
    let mut img = Raster::new(2, 2);
    img.put_pixel(0, 0, Pixel { r: 1, g: 2, b: 3, a: 255 });
    img.put_pixel(0, 1, Pixel { r: 40, g: 50, b: 60, a: 255 });
    img.put_pixel(1, 0, Pixel { r: 255, g: 254, b: 253, a: 255 });
    let expected = "\x1b[48;2;1;2;3m\x1b[38;2;40;50;60m▄\
        \x1b[48;2;255;254;253m\x1b[38;2;0;0;0m▄\x1b[0m\r\n";
    assert_eq!(String::from_utf8(write_text(&img)).unwrap(), expected);
}

#[test]
fn odd_last_row_is_repeated() {
    let img = Raster::from_pixel(1, 3, Pixel { r: 7, g: 8, b: 9, a: 255 });
    let line = "\x1b[48;2;7;8;9m\x1b[38;2;7;8;9m▄\x1b[0m\r\n";
    assert_eq!(String::from_utf8(write_text(&img)).unwrap(), format!("{}{}", line, line));
}

#[test]
fn picture_without_rows_is_no_text() {
    assert!(write_text(&Raster::new(4, 0)).is_empty());
    assert_eq!(write_text(&Raster::new(0, 2)), b"\x1b[0m\r\n".to_vec());
}
