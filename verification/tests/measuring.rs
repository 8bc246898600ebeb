use imgap::fraction::{to_single, Fraction, ONE};
use imgap::profile::{FrameSample, FrameStats, Times};
use imgap::rounding::{round_ratio, DOUBLE, SINGLE};
use imgap::search::{
    chars_of, contains_text, cut, find_pattern, parse_u32, same_text, split_fields,
};
use imgap::text::{push_bytes, push_decimal, push_text, push_three_numbers};

fn sample(n: u128) -> FrameSample {
    FrameSample {
        times: Times {
            clear: n,
            compose: 2 * n,
            render: 3 * n,
            status: 4 * n,
            flush: 5 * n,
            total: 15 * n,
        },
        img_w: n as u32,
        img_h: 7,
    }
}

#[test]
fn integers_are_rounded_to_single_precision() {
    for n in [0u128, 1, 16_777_215, 16_777_216, 16_777_217, 16_777_219, 33_554_434, 4_294_967_295] {
        assert_eq!(to_single(n) as f64, n as f32 as f64);
    }
    let mut n: u128 = 1;
    while n < 1 << 60 {
        assert_eq!(to_single(n) as f64, n as f32 as f64);
        assert_eq!(round_ratio(n, 1, DOUBLE) as f64, n as f64);
        n = n * 3 + 1;
    }
}

#[test]
fn quotients_are_rounded_half_to_even() {
    assert_eq!(round_ratio(7, 2, SINGLE), 4);
    assert_eq!(round_ratio(5, 2, SINGLE), 2);
    assert_eq!(round_ratio(9, 4, SINGLE), 2);
    assert_eq!(round_ratio(11, 4, SINGLE), 3);
    assert_eq!(round_ratio(20, 1, 4), 16);
    assert_eq!(round_ratio(21, 1, 4), 24);
    assert_eq!(round_ratio(28, 1, 4), 32);
}

#[test]
fn ratios_are_single_precision_quotients() {
    for den in [1u32, 3, 7, 50, 255, 1000, 65280] {
        for num in 0..=den.min(2000) {
            let f = Fraction::ratio(num, den);
            assert_eq!((f.units as f64 / ONE as f64) as f32, num as f32 / den as f32);
        }
    }
}

#[test]
fn products_are_cut_off() {
    for num in 0..=100u32 {
        let f = Fraction::ratio(num, 100);
        for n in [0u32, 1, 10, 255, 65535, 16_000_000] {
            assert_eq!(f.whole_times(n), (num as f32 / 100.0 * n as f32) as u32);
        }
    }
}

#[test]
fn frames_are_summed_and_averaged() {
    let mut stats = FrameStats::new();
    assert_eq!(stats.averages(), None);
    assert!(stats.record(sample(10)));
    assert!(stats.record(sample(15)));
    assert_eq!(stats.frames, 2);
    assert_eq!(stats.last, Some(sample(15)));
    let t = stats.averages().unwrap();
    assert_eq!((t.clear, t.compose, t.render), (12, 25, 37));
    assert_eq!((t.status, t.flush, t.total), (50, 62, 187));
}

#[test]
fn sums_that_are_too_large_are_refused() {
    let mut stats = FrameStats::new();
    assert!(stats.record(sample(1)));
    let mut huge = sample(1);
    huge.times.flush = u128::MAX;
    let before = stats;
    assert!(!stats.record(huge));
    assert_eq!(stats, before);
    stats.frames = u32::MAX;
    assert!(!stats.record(sample(1)));
}

#[test]
fn texts_are_searched() {
    assert!(same_text("", "") && same_text("kïtty", "kïtty"));
    assert!(!same_text("a", "b") && !same_text("a", "ab") && !same_text("ab", "a"));
    assert!(contains_text("xterm-kitty", "kitty") && contains_text("kitty", "kitty"));
    assert!(!contains_text("kitt", "kitty") && contains_text("any", ""));
    let text = chars_of("aXbXc");
    assert_eq!(find_pattern(&text, &chars_of("X"), 0), Some(1));
    assert_eq!(find_pattern(&text, &chars_of("X"), 2), Some(3));
    assert_eq!(find_pattern(&text, &chars_of("X"), 4), None);
    assert_eq!(find_pattern(&text, &chars_of(""), 5), Some(5));
    assert_eq!(find_pattern(&text, &chars_of(""), 6), None);
    assert_eq!(cut(&text, 1, 4), chars_of("XbX"));
}

#[test]
fn texts_are_split_at_semicolons() {
    let parts = |s: &str| -> Vec<String> {
        split_fields(&chars_of(s)).iter().map(|p| p.iter().collect()).collect()
    };
    for s in ["", ";", "a", "a;b", ";;x;", "1;22;333"] {
        let expected: Vec<String> = s.split(';').map(|p| p.to_string()).collect();
        assert_eq!(parts(s), expected);
    }
}

#[test]
fn numbers_are_read_as_by_the_standard_library() {
    for s in [
        "", "0", "7", "+7", "-7", "007", "4294967295", "4294967296", "99999999999999999999", "+", "++1",
        "1 ", " 1", "1_0", "１", "12a", "+0004294967295",
    ] {
        assert_eq!(parse_u32(&chars_of(s)), s.parse::<u32>().ok(), "{:?}", s);
    }
}

#[test]
fn numbers_are_written_in_decimal() {
    let mut out: Vec<u8> = Vec::new();
    for n in [0u64, 9, 10, 255, 1000, u64::MAX] {
        out.clear();
        push_decimal(&mut out, n);
        assert_eq!(String::from_utf8(out.clone()).unwrap(), format!("{}", n));
    }
    out.clear();
    push_text(&mut out, "ü:");
    push_three_numbers(&mut out, 1, 20, 300);
    push_bytes(&mut out, &[33]);
    assert_eq!(String::from_utf8(out).unwrap(), "ü:1;20;300!");
}
