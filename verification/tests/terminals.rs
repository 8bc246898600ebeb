use imgap::terminal::{
    query_pixel_size_csi, query_sixel_support, size_or_default, terminal_char_size,
    terminal_pixel_size, Reply, REPLY_MAX,
};

#[test]
fn pixel_size_is_read_from_the_reply() {
    assert_eq!(query_pixel_size_csi(b"\x1b[4;600;800t"), Some((800, 600)));
    assert_eq!(query_pixel_size_csi(b"noise\x1b[4;+1;0002tmore"), Some((2, 1)));
    assert_eq!(query_pixel_size_csi(b"[4;1;2;3t"), Some((2, 1)));
    assert_eq!(query_pixel_size_csi(b"[4;4294967295;4294967295t"), Some((u32::MAX, u32::MAX)));
}

#[test]
fn broken_replies_give_no_pixel_size() {
    for reply in [
        &b""[..],
        b"[4;600;800",
        b"[5;600;800t",
        b"[4;600t",
        b"[4;;800t",
        b"[4;600;t",
        b"[4;+;800t",
        b"[4;-1;800t",
        b"[4; 600;800t",
        b"[4;4294967296;800t",
        b"[4;6x;800t",
        b"\xff[4;600;800t",
    ] {
        assert_eq!(query_pixel_size_csi(reply), None);
    }
}

#[test]
fn sixels_are_attribute_four() {
    assert!(query_sixel_support(b"\x1b[?62;4;22c"));
    assert!(query_sixel_support(b"\x1b[?4c"));
    assert!(query_sixel_support(b"\x1b[?1; 4 ;2c"));
    assert!(query_sixel_support("[?1;\u{3000}4\u{a0};2c".as_bytes()));
    assert!(!query_sixel_support(b"\x1b[?62;22c"));
    assert!(!query_sixel_support(b"\x1b[?44;14c"));
    assert!(!query_sixel_support(b"\x1b[?4 4c"));
    assert!(!query_sixel_support(b"\x1b[?c;4;c"));
    assert!(!query_sixel_support(b"\x1b[?62;4;22"));
    assert!(!query_sixel_support(b"4c"));
    assert!(!query_sixel_support(b"\xff\x1b[?4c"));
    assert!(!query_sixel_support(b""));
}

#[test]
fn reply_ends_with_its_terminator() {
    let mut reply = Reply::new(b't');
    assert_eq!(reply.room(), REPLY_MAX);
    reply.take(b"\x1b[4;6");
    assert_eq!(reply.room(), REPLY_MAX - 5);
    assert!(!reply.complete);
    reply.take(b"00;800tx");
    assert!(reply.complete);
    assert_eq!(reply.room(), 0);
    assert_eq!(reply.bytes, b"\x1b[4;600;800tx".to_vec());
}

#[test]
fn reply_ends_when_nothing_comes_or_there_is_no_room() {
    let mut silent = Reply::new(b'c');
    silent.take(b"abd");
    silent.take(b"");
    assert!(silent.complete);
    assert_eq!(silent.bytes, b"abd".to_vec());
    let mut long = Reply::new(b'c');
    long.take(&[b'x'; 100]);
    assert_eq!(long.room(), 28);
    long.take(&[b'x'; 28]);
    assert!(long.complete);
    assert_eq!(long.bytes.len(), REPLY_MAX);
}

#[test]
fn room_in_pixels() {
    assert_eq!(size_or_default(None), (80, 24));
    assert_eq!(size_or_default(Some((0, 7))), (0, 7));
    assert_eq!(terminal_pixel_size(None, 5, None), (640, 304));
    assert_eq!(terminal_pixel_size(Some((100, 50)), 5, Some((1000, 1000))), (1000, 900));
    assert_eq!(terminal_pixel_size(Some((100, 50)), 5, Some((1000, 10))), (1000, 10));
    assert_eq!(terminal_pixel_size(Some((100, 4)), 5, Some((1000, 400))), (1000, 1));
    assert_eq!(terminal_pixel_size(Some((100, 4)), 5, None), (800, 0));
    assert_eq!(terminal_pixel_size(Some((0, 0)), 5, None), (8, 0));
    assert_eq!(terminal_pixel_size(Some((0, 0)), 5, Some((7, u32::MAX))), (7, 1));
}

#[test]
fn room_in_half_blocks() {
    assert_eq!(terminal_char_size(None, 5), (80, 38));
    assert_eq!(terminal_char_size(Some((120, 40)), 5), (120, 70));
    assert_eq!(terminal_char_size(Some((120, 3)), 5), (120, 0));
}
