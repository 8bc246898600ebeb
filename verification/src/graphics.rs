//! Graphics protocols that carry a PNG file in base64: Kitty and iTerm2.
use crate::raster::Raster;
use crate::text::{
    decimal, law_decimal_reads_back, lemma_ascii, push_bytes, push_decimal, push_text, utf8,
};
use vstd::prelude::*;

verus! {

/// Longest base64 text that one Kitty message carries.
pub const CHUNK: usize = 4096;

/// The PNG file that `image` writes for an RGBA picture.
pub uninterp spec fn png_file(width: u32, height: u32, data: Seq<u8>) -> Seq<u8>;

/// The base64 digit for a number below 64.
pub open spec fn base64_digit(n: int) -> u8 {
    if n < 26 {
        (65 + n) as u8
    } else if n < 52 {
        (97 + n - 26) as u8
    } else if n < 62 {
        (48 + n - 52) as u8
    } else if n == 62 {
        43
    } else {
        47
    }
}

/// The base64 text of some bytes, with padding: four digits for three bytes, six
/// bits each.
pub open spec fn base64_text(data: Seq<u8>) -> Seq<u8>
    decreases data.len(),
{
    if data.len() == 0 {
        Seq::empty()
    } else {
        let a = data[0] as int;
        let b = if data.len() > 1 {
            data[1] as int
        } else {
            0
        };
        let c = if data.len() > 2 {
            data[2] as int
        } else {
            0
        };
        let pad: u8 = 61;
        seq![
            base64_digit(a / 4),
            base64_digit(a % 4 * 16 + b / 16),
            if data.len() > 1 {
                base64_digit(b % 16 * 4 + c / 64)
            } else {
                pad
            },
            if data.len() > 2 {
                base64_digit(c % 64)
            } else {
                pad
            },
        ] + base64_text(
            if data.len() > 3 {
                data.skip(3)
            } else {
                Seq::empty()
            },
        )
    }
}

/// The base64 text of that many bytes can be held in memory.
pub open spec fn base64_fits(len: int) -> bool {
    (len + 2) / 3 * 4 <= isize::MAX
}

/// `ImageBuffer::write_with_encoder` of the `image` crate with its `PngEncoder`,
/// which fails on a picture without pixels only: the contract gives the file a
/// name.
#[verifier::external_body]
pub(crate) fn encode_png(img: &Raster) -> (r: Vec<u8>)
    requires
        img.wf(),
        img.drawn(),
    ensures
        r@ == png_file(img.width, img.height, img.data@),
{
    let mut buf = Vec::new();
    let encoder = image::codecs::png::PngEncoder::new(&mut buf);
    let picture = image::ImageBuffer::<image::Rgba<u8>, &[u8]>::from_raw(
        img.width,
        img.height,
        img.data.as_slice(),
    ).unwrap();
    picture.write_with_encoder(encoder).expect("PNG encode failed");
    buf
}

/// `base64::Engine::encode` with the standard alphabet and padding: the contract
/// states the text that it gives. It panics where the text is too long to be
/// held in memory.
#[verifier::external_body]
pub(crate) fn encode_base64(data: &[u8]) -> (r: Vec<u8>)
    requires
        base64_fits(data@.len() as int),
    ensures
        r@ == base64_text(data@),
{
    base64::Engine::encode(&base64::engine::general_purpose::STANDARD, data).into_bytes()
}

/// How many messages carry a text.
pub open spec fn chunk_count(text: Seq<u8>) -> nat {
    ((text.len() + CHUNK - 1) / CHUNK as int) as nat
}

/// The part of a text that message `i` carries.
pub open spec fn chunk(text: Seq<u8>, i: int) -> Seq<u8> {
    let end = if (i + 1) * CHUNK < text.len() {
        (i + 1) * CHUNK
    } else {
        text.len() as int
    };
    text.subrange(i * CHUNK, end)
}

/// The first `n` parts of a text, one after the other.
pub open spec fn chunks_joined(text: Seq<u8>, n: nat) -> Seq<u8>
    decreases n,
{
    if n == 0 {
        Seq::empty()
    } else {
        chunks_joined(text, (n - 1) as nat) + chunk(text, n - 1)
    }
}

/// A Kitty message: the first one says that a PNG file follows and that it is to
/// be shown, and each says whether there are more to come.
pub open spec fn kitty_message(part: Seq<u8>, first: bool, more: bool) -> Seq<u8> {
    (if first {
        utf8("\x1b_Gf=100,a=T,m=")
    } else {
        utf8("\x1b_Gm=")
    }) + (if more {
        utf8("1;")
    } else {
        utf8("0;")
    }) + part + utf8("\x1b\\")
}

/// The first `n` Kitty messages that carry a text.
pub open spec fn kitty_messages(text: Seq<u8>, n: nat) -> Seq<u8>
    decreases n,
{
    if n == 0 {
        Seq::empty()
    } else {
        kitty_messages(text, (n - 1) as nat) + kitty_message(
            chunk(text, n - 1),
            n == 1,
            n < chunk_count(text),
        )
    }
}

/// What shows a PNG file on a Kitty terminal.
pub open spec fn kitty_bytes(png: Seq<u8>) -> Seq<u8> {
    let text = base64_text(png);
    kitty_messages(text, chunk_count(text)) + utf8("\n")
}

/// What shows a PNG file on an iTerm2 terminal.
pub open spec fn iterm2_bytes(png: Seq<u8>) -> Seq<u8> {
    utf8("\x1b]1337;File=inline=1;size=") + decimal(png.len()) + utf8(
        ";width=auto;height=auto;preserveAspectRatio=1:",
    ) + base64_text(png) + utf8("\x07\n")
}

/// The messages together carry the whole text and nothing else, none is empty,
/// and none carries more than the terminal takes.
pub proof fn law_chunks_carry_the_text(text: Seq<u8>)
    ensures
        chunks_joined(text, chunk_count(text)) == text,
        forall|i: int|
            0 <= i < chunk_count(text) ==> 1 <= (#[trigger] chunk(text, i)).len() <= CHUNK,
{
    lemma_chunks_joined(text, chunk_count(text));
    assert(text.subrange(0, text.len() as int) =~= text);
}

/// The number that a base64 digit stands for.
pub open spec fn base64_value(digit: u8) -> int {
    if 65 <= digit <= 90 {
        digit - 65
    } else if 97 <= digit <= 122 {
        digit - 97 + 26
    } else if 48 <= digit <= 57 {
        digit - 48 + 52
    } else if digit == 43 {
        62
    } else {
        63
    }
}

/// The bytes that a base64 text with padding stands for.
pub open spec fn base64_bytes(text: Seq<u8>) -> Seq<u8>
    decreases text.len(),
{
    if text.len() < 4 {
        Seq::empty()
    } else {
        let a = base64_value(text[0]);
        let b = base64_value(text[1]);
        let c = base64_value(text[2]);
        let d = base64_value(text[3]);
        let first = (a * 4 + b / 16) as u8;
        let second = (b % 16 * 16 + c / 4) as u8;
        let third = (c % 4 * 64 + d) as u8;
        (if text[2] == 61 {
            seq![first]
        } else if text[3] == 61 {
            seq![first, second]
        } else {
            seq![first, second, third]
        }) + base64_bytes(text.skip(4))
    }
}

/// A base64 digit stands for its number, and is not the padding.
proof fn lemma_base64_digit(n: int)
    requires
        0 <= n < 64,
    ensures
        base64_value(base64_digit(n)) == n,
        base64_digit(n) != 61,
{
}

/// The first four digits of a base64 text give back the first three bytes, or as
/// many as there are.
proof fn lemma_base64_group(data: Seq<u8>)
    requires
        data.len() > 0,
    ensures
        ({
            let text = base64_text(data);
            let n = if data.len() < 3 {
                data.len() as int
            } else {
                3
            };
            &&& text.len() >= 4
            &&& text.skip(4) == base64_text(data.skip(n))
            &&& base64_bytes(text) == data.take(n) + base64_bytes(text.skip(4))
        }),
{
    let text = base64_text(data);
    let n = if data.len() < 3 {
        data.len() as int
    } else {
        3
    };
    let a = data[0] as int;
    let b = if data.len() > 1 {
        data[1] as int
    } else {
        0
    };
    let c = if data.len() > 2 {
        data[2] as int
    } else {
        0
    };
    lemma_base64_digit(a / 4);
    lemma_base64_digit(a % 4 * 16 + b / 16);
    lemma_base64_digit(b % 16 * 4 + c / 64);
    lemma_base64_digit(c % 64);
    let rest = if data.len() > 3 {
        data.skip(3)
    } else {
        Seq::empty()
    };
    assert(data.skip(n) =~= rest);
    assert(text.skip(4) =~= base64_text(rest));
    assert((a / 4) * 4 + (a % 4 * 16 + b / 16) / 16 == a);
    assert((a % 4 * 16 + b / 16) % 16 * 16 + (b % 16 * 4 + c / 64) / 4 == b);
    assert((b % 16 * 4 + c / 64) % 4 * 64 + c % 64 == c);
    let first = a as u8;
    let second = b as u8;
    let third = c as u8;
    if data.len() == 1 {
        assert(data.take(n) =~= seq![first]);
    } else if data.len() == 2 {
        assert(data.take(n) =~= seq![first, second]);
    } else {
        assert(data.take(n) =~= seq![first, second, third]);
    }
}

/// A base64 text stands for the bytes that it was made from, so a terminal gets
/// the very file that was sent.
pub proof fn law_base64_reads_back(data: Seq<u8>)
    ensures
        base64_bytes(base64_text(data)) == data,
    decreases data.len(),
{
    if data.len() > 0 {
        let n = if data.len() < 3 {
            data.len() as int
        } else {
            3
        };
        lemma_base64_group(data);
        law_base64_reads_back(data.skip(n));
        assert(data.take(n) + data.skip(n) =~= data);
    } else {
        assert(base64_bytes(base64_text(data)) =~= data);
    }
}

proof fn lemma_chunks_joined(text: Seq<u8>, n: nat)
    requires
        n <= chunk_count(text),
    ensures
        chunks_joined(text, n) == text.subrange(
            0,
            if n * CHUNK < text.len() {
                n * CHUNK
            } else {
                text.len() as int
            },
        ),
    decreases n,
{
    if n > 0 {
        lemma_chunks_joined(text, (n - 1) as nat);
    }
    assert(chunks_joined(text, n) =~= text.subrange(
        0,
        if n * CHUNK < text.len() {
            n * CHUNK
        } else {
            text.len() as int
        },
    ));
}

/// Appends one Kitty message.
fn push_kitty_message(out: &mut Vec<u8>, part: &[u8], first: bool, more: bool)
    ensures
        final(out)@ == old(out)@ + kitty_message(part@, first, more),
{
    let ghost before = out@;
    if first {
        push_text(out, "\x1b_Gf=100,a=T,m=");
    } else {
        push_text(out, "\x1b_Gm=");
    }
    if more {
        push_text(out, "1;");
    } else {
        push_text(out, "0;");
    }
    push_bytes(out, part);
    push_text(out, "\x1b\\");
    assert(out@ =~= before + kitty_message(part@, first, more));
}

/// Appends the messages that carry a text.
fn push_kitty_messages(out: &mut Vec<u8>, text: &Vec<u8>)
    ensures
        final(out)@ == old(out)@ + kitty_messages(text@, chunk_count(text@)),
{
    let ghost before = out@;
    let len: usize = text.len();
    let mut pos: usize = 0;
    let ghost mut n: nat = 0;
    assert(out@ =~= before + kitty_messages(text@, 0));
    while pos < len
        invariant
            len == text@.len(),
            pos == if n * CHUNK < len {
                n * CHUNK
            } else {
                len as int
            },
            n <= chunk_count(text@),
            out@ == before + kitty_messages(text@, n),
        decreases len - pos,
    {
        let end: usize = if len - pos > CHUNK {
            pos + CHUNK
        } else {
            len
        };
        let part = vstd::slice::slice_subrange(text.as_slice(), pos, end);
        assert(part@ =~= chunk(text@, n as int));
        push_kitty_message(out, part, pos == 0, end < len);
        proof {
            n = n + 1;
        }
        assert(out@ =~= before + kitty_messages(text@, n));
        pos = end;
    }
    assert(n == chunk_count(text@));
}

/// What shows a PNG file on a Kitty terminal: base64 text in messages of limited
/// length.
pub fn kitty_text(png: &Vec<u8>) -> (r: Vec<u8>)
    requires
        base64_fits(png@.len() as int),
    ensures
        r@ == kitty_bytes(png@),
{
    let text: Vec<u8> = encode_base64(png.as_slice());
    let mut out: Vec<u8> = Vec::new();
    push_kitty_messages(&mut out, &text);
    push_text(&mut out, "\n");
    assert(out@ =~= kitty_bytes(png@));
    out
}

/// What shows a PNG file on an iTerm2 terminal: one message with the file's
/// length and its base64 text.
pub fn iterm2_text(png: &Vec<u8>) -> (r: Vec<u8>)
    requires
        base64_fits(png@.len() as int),
    ensures
        r@ == iterm2_bytes(png@),
{
    let text: Vec<u8> = encode_base64(png.as_slice());
    let mut out: Vec<u8> = Vec::new();
    push_text(&mut out, "\x1b]1337;File=inline=1;size=");
    push_decimal(&mut out, png.len() as u64);
    push_text(&mut out, ";width=auto;height=auto;preserveAspectRatio=1:");
    push_bytes(&mut out, text.as_slice());
    push_text(&mut out, "\x07\n");
    assert(out@ =~= iterm2_bytes(png@));
    out
}

/// The base64 text of that many bytes can be held in memory.
fn is_base64_sized(len: usize) -> (r: bool)
    ensures
        r == base64_fits(len as int),
{
    (len as u128 + 2) / 3 * 4 <= isize::MAX as u128
}

/// A picture has a PNG file that can be sent as text.
pub open spec fn can_send(img: &Raster) -> bool {
    img.drawn() && base64_fits(png_file(img.width, img.height, img.data@).len() as int)
}

/// The PNG file of a picture, if the picture has pixels and the file can be sent
/// as text.
fn sendable_png(img: &Raster) -> (r: Option<Vec<u8>>)
    requires
        img.wf(),
    ensures
        r is Some <==> can_send(img),
        r matches Some(png) ==> png@ == png_file(img.width, img.height, img.data@),
{
    if img.width > 0 && img.height > 0 {
        let png: Vec<u8> = encode_png(img);
        if is_base64_sized(png.len()) {
            return Some(png);
        }
    }
    None
}

/// What shows a picture on a Kitty terminal; nothing if it has no pixels or its
/// file is too long to be sent.
pub fn write_kitty(img: &Raster) -> (r: Option<Vec<u8>>)
    requires
        img.wf(),
    ensures
        r is Some <==> can_send(img),
        r matches Some(bytes) ==> bytes@ == kitty_bytes(
            png_file(img.width, img.height, img.data@),
        ),
{
    match sendable_png(img) {
        Some(png) => Some(kitty_text(&png)),
        None => None,
    }
}

/// What shows a picture on an iTerm2 terminal; nothing if it has no pixels or its
/// file is too long to be sent.
pub fn write_iterm2(img: &Raster) -> (r: Option<Vec<u8>>)
    requires
        img.wf(),
    ensures
        r is Some <==> can_send(img),
        r matches Some(bytes) ==> bytes@ == iterm2_bytes(
            png_file(img.width, img.height, img.data@),
        ),
{
    match sendable_png(img) {
        Some(png) => Some(iterm2_text(&png)),
        None => None,
    }
}

/// How many bytes stand before the first `b`.
pub open spec fn bytes_before(bytes: Seq<u8>, b: u8) -> nat
    decreases bytes.len(),
{
    if bytes.len() == 0 || bytes[0] == b {
        0
    } else {
        1 + bytes_before(bytes.skip(1), b)
    }
}

/// A message to a Kitty terminal: what is to be done, and what with.
pub struct Message {
    pub control: Seq<u8>,
    pub payload: Seq<u8>,
}

/// The messages that the bytes begin with. Each stands between `ESC _ G` and
/// `ESC \`, with a semicolon between its parts.
pub open spec fn messages(bytes: Seq<u8>) -> Seq<Message>
    decreases bytes.len(),
{
    let inner = bytes.skip(3);
    let k = bytes_before(inner, 59);
    let body = inner.skip(k as int + 1);
    let n = bytes_before(body, 27);
    if bytes.len() < 3 || bytes[0] != 27 || bytes[1] != 95 || bytes[2] != 71 || k + n + 6
        > bytes.len() {
        seq![]
    } else {
        seq![Message { control: inner.take(k as int), payload: body.take(n as int) }] + messages(
            body.skip(n as int + 2),
        )
    }
}

/// What the messages carry together.
pub open spec fn carried(ms: Seq<Message>) -> Seq<u8>
    decreases ms.len(),
{
    if ms.len() == 0 {
        seq![]
    } else {
        carried(ms.drop_last()) + ms.last().payload
    }
}

proof fn lemma_bytes_before(a: Seq<u8>, b: u8, rest: Seq<u8>)
    requires
        forall|i: int| 0 <= i < a.len() ==> #[trigger] a[i] != b,
        rest.len() > 0,
        rest[0] == b,
    ensures
        bytes_before(a + rest, b) == a.len(),
    decreases a.len(),
{
    if a.len() == 0 {
        assert(a + rest =~= rest);
    } else {
        let tail = a.skip(1);
        assert forall|i: int| 0 <= i < tail.len() implies #[trigger] tail[i] != b by {
            assert(tail[i] == a[i + 1]);
        }
        lemma_bytes_before(tail, b, rest);
        assert((a + rest)[0] == a[0]);
        assert((a + rest).skip(1) =~= tail + rest);
    }
}

/// What a message says: the first one that a PNG file is sent and to be shown, and
/// each whether it is the last.
pub open spec fn kitty_control(first: bool, more: bool) -> Seq<u8> {
    let start: Seq<u8> = if first {
        // f=100,a=T,
        seq![102, 61, 49, 48, 48, 44, 97, 61, 84, 44]
    } else {
        seq![]
    };
    // m=1 or m=0
    start + seq![
        109,
        61,
        if more {
            49
        } else {
            48
        },
    ]
}

proof fn lemma_kitty_texts(first: bool, more: bool)
    ensures
        (if first {
            utf8("\x1b_Gf=100,a=T,m=")
        } else {
            utf8("\x1b_Gm=")
        }) + (if more {
            utf8("1;")
        } else {
            utf8("0;")
        }) == seq![27u8, 95u8, 71u8] + kitty_control(first, more) + seq![59u8],
        utf8("\x1b\\") == seq![27u8, 92u8],
{
    reveal_strlit("\x1b_Gf=100,a=T,m=");
    reveal_strlit("\x1b_Gm=");
    reveal_strlit("1;");
    reveal_strlit("0;");
    reveal_strlit("\x1b\\");
    lemma_ascii("\x1b_Gf=100,a=T,m=");
    lemma_ascii("\x1b_Gm=");
    lemma_ascii("1;");
    lemma_ascii("0;");
    lemma_ascii("\x1b\\");
    let head = if first {
        utf8("\x1b_Gf=100,a=T,m=")
    } else {
        utf8("\x1b_Gm=")
    };
    let tail = if more {
        utf8("1;")
    } else {
        utf8("0;")
    };
    assert(head + tail =~= seq![27u8, 95u8, 71u8] + kitty_control(first, more) + seq![59u8]);
    assert(utf8("\x1b\\") =~= seq![27u8, 92u8]);
}

/// A message is read as it was meant.
proof fn lemma_message(part: Seq<u8>, first: bool, more: bool, rest: Seq<u8>)
    requires
        forall|i: int| 0 <= i < part.len() ==> #[trigger] part[i] != 27,
    ensures
        messages(kitty_message(part, first, more) + rest) == seq![
            Message { control: kitty_control(first, more), payload: part },
        ] + messages(rest),
{
    lemma_kitty_texts(first, more);
    let control = kitty_control(first, more);
    let tail = seq![27u8, 92u8] + rest;
    let after = seq![59u8] + (part + tail);
    let bytes = kitty_message(part, first, more) + rest;
    assert(bytes =~= seq![27u8, 95u8, 71u8] + (control + after));
    let inner = bytes.skip(3);
    assert(inner =~= control + after);
    lemma_bytes_before(control, 59, after);
    assert(inner.take(control.len() as int) =~= control);
    let body = inner.skip(control.len() as int + 1);
    assert(body =~= part + tail);
    lemma_bytes_before(part, 27, tail);
    assert(body.take(part.len() as int) =~= part);
    assert(body.skip(part.len() as int + 2) =~= rest);
}

proof fn lemma_messages(text: Seq<u8>, n: nat, rest: Seq<u8>) -> (ms: Seq<Message>)
    requires
        n <= chunk_count(text),
        forall|i: int| 0 <= i < text.len() ==> #[trigger] text[i] != 27,
    ensures
        messages(kitty_messages(text, n) + rest) == ms + messages(rest),
        ms.len() == n,
        carried(ms) == chunks_joined(text, n),
        forall|i: int|
            0 <= i < n ==> #[trigger] ms[i] == (Message {
                control: kitty_control(i == 0, i + 1 < chunk_count(text)),
                payload: chunk(text, i),
            }),
    decreases n,
{
    let bytes = kitty_messages(text, n) + rest;
    if n == 0 {
        assert(bytes =~= rest);
        let ms = Seq::<Message>::empty();
        assert(ms + messages(rest) =~= messages(rest));
        ms
    } else {
        let m = (n - 1) as nat;
        let part = chunk(text, n - 1);
        let (first, more) = (n == 1, n < chunk_count(text));
        let last = kitty_message(part, first, more) + rest;
        assert(bytes =~= kitty_messages(text, m) + last);
        let ms = lemma_messages(text, m, last);
        law_chunks_carry_the_text(text);
        assert forall|i: int| 0 <= i < part.len() implies #[trigger] part[i] != 27 by {
            assert(part[i] == text[(n - 1) * 4096 + i]);
        }
        lemma_message(part, first, more, rest);
        let one = Message { control: kitty_control(first, more), payload: part };
        let all = ms.push(one);
        assert(ms + (seq![one] + messages(rest)) =~= all + messages(rest));
        assert(all.drop_last() =~= ms);
        all
    }
}

/// What is sent to a Kitty terminal is the PNG file: in messages of at most 4096
/// bytes, all of them full but the last, of which the first asks for the file to be
/// shown and all but the last announce another one. A line feed follows.
pub proof fn law_kitty_messages_carry_the_file(png: Seq<u8>)
    ensures
        ({
            let ms = messages(kitty_bytes(png));
            &&& base64_bytes(carried(ms)) == png
            &&& forall|i: int|
                0 <= i < ms.len() ==> {
                    &&& (#[trigger] ms[i]).control == kitty_control(i == 0, i + 1 < ms.len())
                    &&& 1 <= ms[i].payload.len() <= 4096
                    &&& i + 1 < ms.len() ==> ms[i].payload.len() == 4096
                }
            &&& kitty_bytes(png).last() == 10
        }),
{
    let text = base64_text(png);
    let n = chunk_count(text);
    lemma_base64_visible(png);
    reveal_strlit("\n");
    lemma_ascii("\n");
    let end = utf8("\n");
    let ms = lemma_messages(text, n, end);
    assert(messages(end) =~= Seq::<Message>::empty());
    assert(ms + messages(end) =~= ms);
    law_chunks_carry_the_text(text);
    law_base64_reads_back(png);
    assert forall|i: int| 0 <= i < ms.len() implies {
        &&& (#[trigger] ms[i]).control == kitty_control(i == 0, i + 1 < ms.len())
        &&& 1 <= ms[i].payload.len() <= 4096
        &&& i + 1 < ms.len() ==> ms[i].payload.len() == 4096
    } by {
        assert(ms[i].payload == chunk(text, i));
    }
    assert(kitty_bytes(png).last() == end[0]);
}

/// What is sent to an iTerm2 terminal is the PNG file, to be shown in the text, with
/// its length and at its own size and proportions.
pub proof fn law_iterm2_message_carries_the_file(png: Seq<u8>)
    ensures
        ({
            let bytes = iterm2_bytes(png);
            let colon = bytes_before(bytes, 58);
            let payload = bytes.skip(colon as int + 1);
            let n = bytes_before(payload, 7);
            let start: Seq<u8> = seq![
                // ESC ]1337;File=inline=1;size=
                27, 93, 49, 51, 51, 55, 59, 70, 105, 108, 101, 61, 105, 110, 108, 105, 110, 101, 61,
                49, 59, 115, 105, 122, 101, 61,
            ];
            let end: Seq<u8> = seq![
                // ;width=auto;height=auto;preserveAspectRatio=1
                59, 119, 105, 100, 116, 104, 61, 97, 117, 116, 111, 59, 104, 101, 105, 103, 104, 116,
                61, 97, 117, 116, 111, 59, 112, 114, 101, 115, 101, 114, 118, 101, 65, 115, 112, 101,
                99, 116, 82, 97, 116, 105, 111, 61, 49,
            ];
            &&& bytes.take(colon as int) == start + decimal(png.len()) + end
            &&& base64_bytes(payload.take(n as int)) == png
            &&& payload.skip(n as int) == seq![7u8, 10u8]
        }),
{
    let (s1, s2, s3) = (
        "\x1b]1337;File=inline=1;size=",
        ";width=auto;height=auto;preserveAspectRatio=1:",
        "\x07\n",
    );
    reveal_strlit("\x1b]1337;File=inline=1;size=");
    reveal_strlit(";width=auto;height=auto;preserveAspectRatio=1:");
    reveal_strlit("\x07\n");
    lemma_ascii(s1);
    lemma_ascii(s2);
    lemma_ascii(s3);
    let start: Seq<u8> = seq![
        27, 93, 49, 51, 51, 55, 59, 70, 105, 108, 101, 61, 105, 110, 108, 105, 110, 101, 61, 49, 59,
        115, 105, 122, 101, 61,
    ];
    let end: Seq<u8> = seq![
        59, 119, 105, 100, 116, 104, 61, 97, 117, 116, 111, 59, 104, 101, 105, 103, 104, 116, 61, 97,
        117, 116, 111, 59, 112, 114, 101, 115, 101, 114, 118, 101, 65, 115, 112, 101, 99, 116, 82, 97,
        116, 105, 111, 61, 49,
    ];
    assert(utf8(s1) =~= start);
    assert(utf8(s2) =~= end + seq![58u8]);
    assert(utf8(s3) =~= seq![7u8, 10u8]);
    let text = base64_text(png);
    let head = start + decimal(png.len()) + end;
    let payload = text + seq![7u8, 10u8];
    let bytes = iterm2_bytes(png);
    assert(bytes =~= head + (seq![58u8] + payload));
    law_decimal_reads_back(png.len());
    assert forall|i: int| 0 <= i < head.len() implies #[trigger] head[i] != 58 by {
        let (a, b) = (start.len() as int, decimal(png.len()).len() as int);
        if i < a {
            assert(head[i] == start[i]);
        } else if i < a + b {
            assert(head[i] == decimal(png.len())[i - a]);
        } else {
            assert(head[i] == end[i - a - b]);
        }
    }
    lemma_bytes_before(head, 58, seq![58u8] + payload);
    assert(bytes.take(head.len() as int) =~= head);
    assert(bytes.skip(head.len() as int + 1) =~= payload);
    lemma_base64_visible(png);
    lemma_bytes_before(text, 7, seq![7u8, 10u8]);
    assert(payload.take(text.len() as int) =~= text);
    assert(payload.skip(text.len() as int) =~= seq![7u8, 10u8]);
    law_base64_reads_back(png);
}

proof fn lemma_base64_visible(data: Seq<u8>)
    ensures
        forall|i: int| 0 <= i < base64_text(data).len() ==> #[trigger] base64_text(data)[i] >= 43,
    decreases data.len(),
{
    if data.len() > 0 {
        let rest = if data.len() > 3 {
            data.skip(3)
        } else {
            Seq::empty()
        };
        lemma_base64_visible(rest);
        let text = base64_text(data);
        assert forall|i: int| 0 <= i < text.len() implies #[trigger] text[i] >= 43 by {
            if i >= 4 {
                assert(text[i] == base64_text(rest)[i - 4]);
            }
        }
    }
}

} // verus!
