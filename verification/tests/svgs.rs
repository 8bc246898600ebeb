use imgap::svg::{demultiply, is_svg};
use std::path::Path;

fn by_path(path: &str) -> bool {
    matches!(
        Path::new(path)
            .extension()
            .and_then(|e| e.to_str())
            .map(str::to_ascii_lowercase)
            .as_deref(),
        Some("svg") | Some("svgz")
    )
}

#[test]
fn svg_files_are_told_by_their_extension() {
    assert!(is_svg("a.svg"));
    assert!(is_svg("dir/a.SVG"));
    assert!(is_svg("/x/y.tar.sVgZ"));
    assert!(!is_svg("a.png"));
    assert!(!is_svg("svg"));
    assert!(!is_svg(".svg"));
    assert!(!is_svg("a.svg.png"));
    assert!(!is_svg("a.svg/b"));
    assert!(is_svg("a.svg/"));
    assert!(is_svg("a.svg/./"));
    assert!(!is_svg("a.svg/.."));
    assert!(is_svg("..svg"));
    assert!(!is_svg(""));
}

#[test]
fn extensions_are_those_of_the_standard_library() {
    let parts = [
        "", ".", "..", "...", "a", "a.svg", ".svg", "..svg", "...svg", "a.", "a..svg", "svg", "ü.svgz",
        "a.svgz", "a.svgzz", "a.sv", "a.SVG", "x.svg.gz", "a b.svg", "a.ſvg",
    ];
    for a in parts {
        for b in parts {
            for c in parts {
                for path in [
                    format!("{}/{}/{}", a, b, c),
                    format!("/{}//{}", a, b),
                    format!("{}/", a),
                    a.to_string(),
                ] {
                    assert_eq!(is_svg(&path), by_path(&path), "{:?}", path);
                }
            }
        }
    }
}

#[test]
fn colours_are_divided_by_their_opacity() {
    assert_eq!(
        demultiply(&[10, 20, 30, 0, 10, 20, 30, 255, 64, 128, 1, 128, 9, 9], 1, 3),
        vec![0, 0, 0, 0, 10, 20, 30, 255, 128, 255, 2, 128]
    );
    assert!(demultiply(&[], 0, 0).is_empty());
    assert_eq!(demultiply(&[255, 7, 0, 1], 1, 1), vec![255, 255, 0, 1]);
}

#[test]
fn dividing_by_the_opacity_can_be_undone() {
    for a in 0..=255u8 {
        for v in 0..=a {
            let out = demultiply(&[v, 0, 0, a], 1, 1);
            assert_eq!((out[0] as u32 * a as u32 + 127) / 255, v as u32);
            assert_eq!(out[3], a);
        }
    }
}
