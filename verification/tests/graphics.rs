use base64::Engine;
use imgap::graphics::{iterm2_text, kitty_text, write_iterm2, write_kitty, CHUNK};
use imgap::raster::{Pixel, Raster};

fn noise(w: u32, h: u32) -> Raster {
    let mut seed: u32 = 99;
    let mut data: Vec<u8> = Vec::new();
    for _ in 0..w * h * 4 {
        seed = seed.wrapping_mul(1103515245).wrapping_add(12345);
        data.push((seed >> 16) as u8);
    }
    Raster::from_raw(w, h, data).unwrap()
}

/// The parts that Kitty messages carry, with their headers.
fn messages(bytes: &[u8]) -> Vec<(String, String)> {
    let text = String::from_utf8(bytes.to_vec()).unwrap();
    assert!(text.ends_with('\n'));
    let mut out: Vec<(String, String)> = Vec::new();
    for message in text.trim_end_matches('\n').split("\x1b\\") {
        if message.is_empty() {
            continue;
        }
        let body = message.strip_prefix("\x1b_G").unwrap();
        let (head, part) = body.split_once(';').unwrap();
        out.push((head.to_string(), part.to_string()));
    }
    out
}

#[test]
fn short_file_is_one_kitty_message() {
    let out = kitty_text(&vec![104, 105, 33]);
    assert_eq!(out, b"\x1b_Gf=100,a=T,m=0;aGkh\x1b\\\n".to_vec());
    assert_eq!(kitty_text(&vec![104, 105]), b"\x1b_Gf=100,a=T,m=0;aGk=\x1b\\\n".to_vec());
    assert_eq!(kitty_text(&vec![104]), b"\x1b_Gf=100,a=T,m=0;aA==\x1b\\\n".to_vec());
    assert_eq!(kitty_text(&Vec::new()), b"\n".to_vec());
}

#[test]
fn long_file_is_sent_in_several_kitty_messages() {
    for len in [3072usize, 3073, 6144, 10_000] {
        let file: Vec<u8> = (0..len).map(|i| (i * 31 % 251) as u8).collect();
        let parts = messages(&kitty_text(&file));
        let expected = base64::engine::general_purpose::STANDARD.encode(&file);
        assert_eq!(parts.len(), (expected.len() + CHUNK - 1) / CHUNK);
        let mut joined = String::new();
        for (i, (head, part)) in parts.iter().enumerate() {
            let more = if i + 1 < parts.len() { 1 } else { 0 };
            if i == 0 {
                assert_eq!(head, &format!("f=100,a=T,m={}", more));
            } else {
                assert_eq!(head, &format!("m={}", more));
            }
            assert!(part.len() <= CHUNK && !part.is_empty());
            joined.push_str(part);
        }
        assert_eq!(joined, expected);
        assert_eq!(base64::engine::general_purpose::STANDARD.decode(joined).unwrap(), file);
    }
}

#[test]
fn kitty_carries_the_picture_as_png() {
    let img = noise(40, 30);
    let parts = messages(&write_kitty(&img).unwrap());
    assert!(parts.len() > 1);
    let text: String = parts.iter().map(|p| p.1.as_str()).collect();
    let file = base64::engine::general_purpose::STANDARD.decode(text).unwrap();
    assert_eq!(&file[..8], &[0x89, b'P', b'N', b'G', 13, 10, 26, 10]);
    let back = image::load_from_memory(&file).unwrap().to_rgba8();
    assert_eq!(back.dimensions(), (40, 30));
    assert_eq!(back.into_raw(), img.data);
}

#[test]
fn iterm2_names_the_length_of_the_file() {
    let out = iterm2_text(&vec![104, 105, 33]);
    let expected = "\x1b]1337;File=inline=1;size=3;width=auto;height=auto;\
        preserveAspectRatio=1:aGkh\x07\n";
    assert_eq!(out, expected.as_bytes().to_vec());
}

#[test]
fn iterm2_carries_the_picture_as_png() {
    let img = noise(5, 4);
    let text = String::from_utf8(write_iterm2(&img).unwrap()).unwrap();
    let (head, rest) = text.split_once("preserveAspectRatio=1:").unwrap();
    let file = base64::engine::general_purpose::STANDARD
        .decode(rest.trim_end_matches('\n').trim_end_matches('\x07'))
        .unwrap();
    assert_eq!(
        head,
        format!("\x1b]1337;File=inline=1;size={};width=auto;height=auto;", file.len())
    );
    assert_eq!(image::load_from_memory(&file).unwrap().to_rgba8().into_raw(), img.data);
}

#[test]
fn picture_without_pixels_cannot_be_sent() {
    let img = Raster::from_pixel(0, 3, Pixel { r: 0, g: 0, b: 0, a: 0 });
    assert!(write_kitty(&img).is_none());
    assert!(write_iterm2(&img).is_none());
    let flat = Raster::new(3, 0);
    assert!(write_kitty(&flat).is_none());
    assert!(write_iterm2(&flat).is_none());
}
