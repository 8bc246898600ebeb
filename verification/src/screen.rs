//! Reading what is written to a terminal, to say what it shows.
//!
//! A terminal takes characters, each of which it puts where its cursor stands and in
//! the colours that were set last, and commands for cursor and colours. This module
//! says what each of them does, and proves that the text written for a picture
//! shows that picture.
use crate::fraction::{lemma_whole_product, Fraction};
use crate::frame::{cell_rows, picture_start, rows_above, InteractiveCache};
use crate::halfblock::{
    cell, cells, color_numbers, color_on_black, glyph, lemma_glyph, line, line_count, lines,
    on_black,
};
use crate::palette::Rgb;
use crate::protocol::Protocol;
use crate::raster::{Pixel, Raster};
use crate::repaint::{
    is_digit, lemma_five_parameters, lemma_last_parameter, lemma_one_more, one_of_many, parameters,
};
use crate::status::{
    bar, bar_symbol, bar_width, clear_row, knob, percentage, percentage_label, slider_line,
};
use crate::text::{decimal, lemma_ascii, lemma_encode_joined, utf8};
use vstd::prelude::*;
use vstd::string::*;
use vstd::utf8::{encode_scalar, encode_utf8};

verus! {

/// What a terminal is told.
pub enum Token {
    /// A command: its numbers, and the letter that says what they are for.
    Control { numbers: Seq<nat>, letter: u8 },
    /// A character, in UTF-8.
    Character { bytes: Seq<u8> },
    /// Goes to the left end of the row.
    Return,
    /// Goes down by one row.
    Feed,
}

/// Number of bytes of the character that begins with a byte.
pub open spec fn character_len(first: u8) -> nat {
    if first < 0xc0 {
        1
    } else if first < 0xe0 {
        2
    } else if first < 0xf0 {
        3
    } else {
        4
    }
}

/// What the bytes begin with, and how many bytes it takes.
pub open spec fn token(bytes: Seq<u8>) -> (Token, nat) {
    let b = bytes[0];
    if b == 27 && bytes[1] == 91 {
        let (numbers, n) = parameters(bytes.skip(2));
        (Token::Control { numbers, letter: bytes[2 + n as int] }, n + 3)
    } else if b == 13 {
        (Token::Return, 1)
    } else if b == 10 {
        (Token::Feed, 1)
    } else {
        let n = character_len(b);
        (Token::Character { bytes: bytes.take(n as int) }, n)
    }
}

/// A character on the screen. The colours are the numbers that set them.
pub struct Print {
    pub bytes: Seq<u8>,
    pub back: Seq<nat>,
    pub front: Seq<nat>,
}

/// Where the cursor stands, from nought, and the colours that were set last.
pub struct Cursor {
    pub column: int,
    pub row: int,
    pub back: Seq<nat>,
    pub front: Seq<nat>,
}

impl Cursor {
    /// The cursor after a command to change the colours.
    pub open spec fn colored(self, numbers: Seq<nat>) -> Cursor {
        if numbers.len() > 1 && numbers[0] == 48 {
            Cursor { back: numbers.skip(1), ..self }
        } else if numbers.len() > 1 && numbers[0] == 38 {
            Cursor { front: numbers.skip(1), ..self }
        } else if numbers.len() == 1 && 30 <= numbers[0] <= 37 {
            Cursor { front: numbers, ..self }
        } else if numbers.len() == 1 && numbers[0] == 0 {
            Cursor { back: seq![], front: seq![], ..self }
        } else {
            self
        }
    }

    /// The cursor after it is told to go to a row and a column, counted from one; a
    /// missing number is one.
    pub open spec fn moved(self, numbers: Seq<nat>) -> Cursor {
        Cursor {
            row: if numbers.len() > 0 && numbers[0] > 0 {
                numbers[0] - 1
            } else {
                0
            },
            column: if numbers.len() > 1 && numbers[1] > 0 {
                numbers[1] - 1
            } else {
                0
            },
            ..self
        }
    }

    /// The cursor after a token.
    pub open spec fn after(self, t: Token) -> Cursor {
        match t {
            Token::Control { numbers, letter } => if letter == 109 {
                self.colored(numbers)
            } else if letter == 72 {
                self.moved(numbers)
            } else {
                self
            },
            Token::Character { .. } => Cursor { column: self.column + 1, ..self },
            Token::Return => Cursor { column: 0, ..self },
            Token::Feed => Cursor { row: self.row + 1, ..self },
        }
    }

    /// What a token puts in column `x` of row `y`.
    pub open spec fn put(self, t: Token, x: int, y: int) -> Seq<Print> {
        match t {
            Token::Character { bytes } => if self.column == x && self.row == y {
                seq![Print { bytes, back: self.back, front: self.front }]
            } else {
                seq![]
            },
            _ => seq![],
        }
    }
}

/// All characters that the bytes put in column `x` of row `y`, one after the other.
pub open spec fn printed(bytes: Seq<u8>, cursor: Cursor, x: int, y: int) -> Seq<Print>
    decreases bytes.len(),
{
    let (t, n) = token(bytes);
    if bytes.len() == 0 || n < 1 || n > bytes.len() {
        seq![]
    } else {
        cursor.put(t, x, y) + printed(bytes.skip(n as int), cursor.after(t), x, y)
    }
}

/// The cursor at the top left, with no colours set.
pub open spec fn home() -> Cursor {
    Cursor { column: 0, row: 0, back: seq![], front: seq![] }
}

/// One token, then the rest.
pub proof fn lemma_token(bytes: Seq<u8>, n: nat, cursor: Cursor, x: int, y: int)
    requires
        token(bytes).1 == n,
        1 <= n <= bytes.len(),
    ensures
        printed(bytes, cursor, x, y) == cursor.put(token(bytes).0, x, y) + printed(
            bytes.skip(n as int),
            cursor.after(token(bytes).0),
            x,
            y,
        ),
{
}

/// A command with one number.
pub proof fn lemma_control(a: nat, letter: u8, rest: Seq<u8>)
    requires
        !is_digit(letter),
        letter != 59,
    ensures
        token(seq![27u8, 91u8] + decimal(a) + seq![letter] + rest) == (
            Token::Control { numbers: seq![a], letter },
            decimal(a).len() + 3,
        ),
        (seq![27u8, 91u8] + decimal(a) + seq![letter] + rest).skip((decimal(a).len() + 3) as int)
            == rest,
{
    let bytes = seq![27u8, 91u8] + decimal(a) + seq![letter] + rest;
    let tail = seq![letter] + rest;
    assert(bytes.skip(2) =~= decimal(a) + tail);
    lemma_last_parameter(a, tail);
    assert(bytes.skip((decimal(a).len() + 3) as int) =~= rest);
}

/// The bytes of a half-block cell before the characters of its numbers.
proof fn lemma_texts()
    ensures
        utf8("\x1b[48;2;") == seq![27u8, 91u8, 52u8, 56u8, 59u8, 50u8, 59u8],
        utf8("m\x1b[38;2;") == seq![109u8, 27u8, 91u8, 51u8, 56u8, 59u8, 50u8, 59u8],
        utf8("\x1b[0m\r\n") == seq![27u8, 91u8, 48u8, 109u8, 13u8, 10u8],
        utf8(";") == seq![59u8],
        decimal(48) == seq![52u8, 56u8],
        decimal(38) == seq![51u8, 56u8],
        decimal(2) == seq![50u8],
        decimal(0) == seq![48u8],
{
    reveal_strlit("\x1b[48;2;");
    reveal_strlit("m\x1b[38;2;");
    reveal_strlit("\x1b[0m\r\n");
    reveal_strlit(";");
    lemma_ascii("\x1b[48;2;");
    lemma_ascii("m\x1b[38;2;");
    lemma_ascii("\x1b[0m\r\n");
    lemma_ascii(";");
    assert(utf8("\x1b[48;2;") =~= seq![27u8, 91u8, 52u8, 56u8, 59u8, 50u8, 59u8]);
    assert(utf8("m\x1b[38;2;") =~= seq![109u8, 27u8, 91u8, 51u8, 56u8, 59u8, 50u8, 59u8]);
    assert(utf8("\x1b[0m\r\n") =~= seq![27u8, 91u8, 48u8, 109u8, 13u8, 10u8]);
    assert(utf8(";") =~= seq![59u8]);
    reveal_with_fuel(decimal, 3);
    assert(decimal(48) =~= seq![52u8, 56u8]);
    assert(decimal(38) =~= seq![51u8, 56u8]);
}

/// The bytes that set a colour.
spec fn color_command(kind: nat, c: Rgb) -> Seq<u8> {
    seq![27u8, 91u8] + decimal(kind) + seq![59u8] + decimal(2) + seq![59u8] + color_numbers(c)
        + seq![109u8]
}

/// A command that sets a colour is one token.
proof fn lemma_color_token(kind: nat, c: Rgb, rest: Seq<u8>)
    ensures
        token(color_command(kind, c) + rest) == (
            Token::Control {
                numbers: seq![kind, 2nat, c.0 as nat, c.1 as nat, c.2 as nat],
                letter: 109,
            },
            color_command(kind, c).len(),
        ),
        (color_command(kind, c) + rest).skip(color_command(kind, c).len() as int) == rest,
{
    lemma_texts();
    let bytes = color_command(kind, c);
    let (r, g, b) = (c.0 as nat, c.1 as nat, c.2 as nat);
    let tail = seq![109u8] + rest;
    let three = one_of_many(r) + (one_of_many(g) + decimal(b));
    let numbers = one_of_many(kind) + (one_of_many(2) + three);
    assert(color_numbers(c) =~= three);
    assert(bytes =~= seq![27u8, 91u8] + numbers + seq![109u8]);
    assert((bytes + rest).skip(2) =~= numbers + tail);
    lemma_five_parameters(kind, 2, r, g, b, tail);
    assert((bytes + rest)[2 + numbers.len() as int] == 109);
    assert((bytes + rest).skip(bytes.len() as int) =~= rest);
}

/// A command that sets a colour prints nothing.
proof fn lemma_color_shown(kind: nat, c: Rgb, rest: Seq<u8>, cursor: Cursor, x: int, y: int) -> (end:
    Cursor)
    requires
        kind == 48 || kind == 38,
    ensures
        end.column == cursor.column,
        end.row == cursor.row,
        end.back == if kind == 48 {
            color_set(c.0, c.1, c.2)
        } else {
            cursor.back
        },
        end.front == if kind == 38 {
            color_set(c.0, c.1, c.2)
        } else {
            cursor.front
        },
        printed(color_command(kind, c) + rest, cursor, x, y) == printed(rest, end, x, y),
{
    let all = color_command(kind, c) + rest;
    lemma_color_token(kind, c, rest);
    lemma_token(all, color_command(kind, c).len(), cursor, x, y);
    let end = cursor.after(token(all).0);
    let numbers = seq![kind, 2nat, c.0 as nat, c.1 as nat, c.2 as nat];
    assert(numbers.skip(1) =~= color_set(c.0, c.1, c.2));
    assert(Seq::<Print>::empty() + printed(rest, end, x, y) =~= printed(rest, end, x, y));
    end
}

/// A half-block is printed where the cursor stands.
proof fn lemma_glyph_shown(rest: Seq<u8>, cursor: Cursor, x: int, y: int) -> (end: Cursor)
    ensures
        end == (Cursor { column: cursor.column + 1, ..cursor }),
        printed(glyph() + rest, cursor, x, y) == (if cursor.column == x && cursor.row == y {
            seq![Print { bytes: glyph(), back: cursor.back, front: cursor.front }]
        } else {
            seq![]
        }) + printed(rest, end, x, y),
{
    lemma_glyph();
    let all = glyph() + rest;
    assert(all.take(3) =~= glyph());
    assert(all.skip(3) =~= rest);
    lemma_token(all, 3, cursor, x, y);
    cursor.after(token(all).0)
}

/// A cell is two colours and a half-block.
proof fn lemma_cell_parts(top: Pixel, bottom: Pixel, rest: Seq<u8>)
    ensures
        cell(top, bottom) + rest == color_command(48, color_on_black(top)) + (color_command(
            38,
            color_on_black(bottom),
        ) + (glyph() + rest)),
{
    lemma_texts();
    lemma_glyph();
    let (t, b) = (color_numbers(color_on_black(top)), color_numbers(color_on_black(bottom)));
    let (first, second) = (utf8("\x1b[48;2;"), utf8("m\x1b[38;2;"));
    assert(color_command(48, color_on_black(top)) =~= first + t + seq![109u8]);
    assert(seq![109u8] + color_command(38, color_on_black(bottom)) =~= second + b + seq![109u8]);
    assert(utf8("m▄") =~= seq![109u8] + glyph());
    assert(cell(top, bottom) + rest =~= first + t + second + b + (seq![109u8] + (glyph() + rest)));
    assert(first + t + (second + b + seq![109u8]) + (glyph() + rest) =~= first + t + second + b + (
    seq![109u8] + (glyph() + rest)));
    assert(first + t + (seq![109u8] + color_command(38, color_on_black(bottom))) + (glyph() + rest)
        =~= color_command(48, color_on_black(top)) + (color_command(38, color_on_black(bottom)) + (
    glyph() + rest)));
}

/// The numbers that set a colour.
pub open spec fn color_set(r: u8, g: u8, b: u8) -> Seq<nat> {
    seq![2nat, r as nat, g as nat, b as nat]
}

/// A cell puts one half-block where the cursor stands, with the upper pixel behind
/// and the lower one in front.
proof fn lemma_cell_shown(
    top: Pixel,
    bottom: Pixel,
    rest: Seq<u8>,
    cursor: Cursor,
    x: int,
    y: int,
) -> (end: Cursor)
    ensures
        end.column == cursor.column + 1,
        end.row == cursor.row,
        printed(cell(top, bottom) + rest, cursor, x, y) == (if cursor.column == x && cursor.row
            == y {
            let (t, b) = (color_on_black(top), color_on_black(bottom));
            seq![
                Print {
                    bytes: glyph(),
                    back: color_set(t.0, t.1, t.2),
                    front: color_set(b.0, b.1, b.2),
                },
            ]
        } else {
            seq![]
        }) + printed(rest, end, x, y),
{
    let (t, b) = (color_on_black(top), color_on_black(bottom));
    lemma_cell_parts(top, bottom, rest);
    let tail = glyph() + rest;
    let first = lemma_color_shown(48, t, color_command(38, b) + tail, cursor, x, y);
    let second = lemma_color_shown(38, b, tail, first, x, y);
    lemma_glyph_shown(rest, second, x, y)
}

/// The half-block in column `x` of a line that begins with pixel row `y`.
spec fn block(img: &Raster, x: int, y: int) -> Print {
    let t = color_on_black(img.pixel(x, y));
    let b = color_on_black(
        if y + 1 < img.height {
            img.pixel(x, y + 1)
        } else {
            img.pixel(x, y)
        },
    );
    Print { bytes: glyph(), back: color_set(t.0, t.1, t.2), front: color_set(b.0, b.1, b.2) }
}

proof fn lemma_cells_shown(
    img: &Raster,
    top: int,
    n: nat,
    rest: Seq<u8>,
    cursor: Cursor,
    x: int,
    y: int,
) -> (end: Cursor)
    requires
        cursor.column == 0,
    ensures
        end.column == n,
        end.row == cursor.row,
        printed(cells(img, top, n) + rest, cursor, x, y) == (if 0 <= x < n && cursor.row == y {
            seq![block(img, x, top)]
        } else {
            seq![]
        }) + printed(rest, end, x, y),
    decreases n,
{
    let all = cells(img, top, n) + rest;
    if n == 0 {
        assert(all =~= rest);
        assert(printed(all, cursor, x, y) =~= Seq::<Print>::empty() + printed(rest, cursor, x, y));
        cursor
    } else {
        let m = (n - 1) as nat;
        let k = n - 1;
        let bottom = if top + 1 < img.height {
            img.pixel(k, top + 1)
        } else {
            img.pixel(k, top)
        };
        let last = cell(img.pixel(k, top), bottom) + rest;
        assert(all =~= cells(img, top, m) + last);
        let mid = lemma_cells_shown(img, top, m, last, cursor, x, y);
        let end = lemma_cell_shown(img.pixel(k, top), bottom, rest, mid, x, y);
        let ghost shown = if 0 <= x < n && cursor.row == y {
            seq![block(img, x, top)]
        } else {
            seq![]
        };
        assert(printed(all, cursor, x, y) =~= shown + printed(rest, end, x, y));
        end
    }
}

proof fn lemma_line_shown(
    img: &Raster,
    top: int,
    rest: Seq<u8>,
    cursor: Cursor,
    x: int,
    y: int,
) -> (end: Cursor)
    requires
        cursor.column == 0,
    ensures
        end.column == 0,
        end.row == cursor.row + 1,
        printed(line(img, top) + rest, cursor, x, y) == (if 0 <= x < img.width && cursor.row == y {
            seq![block(img, x, top)]
        } else {
            seq![]
        }) + printed(rest, end, x, y),
{
    lemma_texts();
    let feed = seq![10u8] + rest;
    let back = seq![13u8] + feed;
    let tail = utf8("\x1b[0m\r\n") + rest;
    assert(line(img, top) + rest =~= cells(img, top, img.width as nat) + tail);
    let c0 = lemma_cells_shown(img, top, img.width as nat, tail, cursor, x, y);
    assert(tail =~= seq![27u8, 91u8] + decimal(0) + seq![109u8] + back);
    lemma_control(0, 109, back);
    lemma_token(tail, 4, c0, x, y);
    let c1 = c0.after(token(tail).0);
    assert(back.skip(1) =~= feed && feed.skip(1) =~= rest);
    lemma_token(back, 1, c1, x, y);
    let c2 = c1.after(token(back).0);
    lemma_token(feed, 1, c2, x, y);
    let end = c2.after(token(feed).0);
    assert(printed(tail, c0, x, y) =~= printed(rest, end, x, y));
    end
}

proof fn lemma_lines_shown(
    img: &Raster,
    n: nat,
    rest: Seq<u8>,
    cursor: Cursor,
    x: int,
    y: int,
) -> (end: Cursor)
    requires
        cursor.column == 0,
        cursor.row == 0,
    ensures
        end.column == 0,
        end.row == n,
        printed(lines(img, n) + rest, cursor, x, y) == (if 0 <= x < img.width && 0 <= y < n {
            seq![block(img, x, 2 * y)]
        } else {
            seq![]
        }) + printed(rest, end, x, y),
    decreases n,
{
    let all = lines(img, n) + rest;
    if n == 0 {
        assert(all =~= rest);
        assert(printed(all, cursor, x, y) =~= Seq::<Print>::empty() + printed(rest, cursor, x, y));
        cursor
    } else {
        let m = (n - 1) as nat;
        let last = line(img, 2 * (n - 1)) + rest;
        assert(all =~= lines(img, m) + last);
        let mid = lemma_lines_shown(img, m, last, cursor, x, y);
        let end = lemma_line_shown(img, 2 * (n - 1), rest, mid, x, y);
        let ghost shown = if 0 <= x < img.width && 0 <= y < n {
            seq![block(img, x, 2 * y)]
        } else {
            seq![]
        };
        assert(printed(all, cursor, x, y) =~= shown + printed(rest, end, x, y));
        end
    }
}

/// The text that is written for a picture shows each of its pixels exactly once: that
/// in column `x` of pixel row `y` in column `x` of text row `y / 2`, behind the lower
/// half-block there if `y` is even and as that half-block if `y` is odd. A last row
/// without another one below it is the half-block, too.
pub proof fn law_text_shows_the_picture(img: &Raster, x: int, y: int)
    requires
        0 <= x < img.width,
        0 <= y < img.height,
    ensures
        ({
            let p = img.pixel(x, y);
            let color = color_set(on_black(p.r, p.a), on_black(p.g, p.a), on_black(p.b, p.a));
            let shown = printed(lines(img, line_count(img.height)), home(), x, y / 2);
            &&& shown.len() == 1
            &&& shown[0].bytes == seq![0xe2u8, 0x96u8, 0x84u8]
            &&& y % 2 == 0 ==> shown[0].back == color
            &&& y % 2 == 1 || y == img.height - 1 ==> shown[0].front == color
        }),
{
    let n = line_count(img.height);
    let text = lines(img, n);
    lemma_glyph();
    let end = lemma_lines_shown(img, n, Seq::empty(), home(), x, y / 2);
    assert(text + Seq::<u8>::empty() =~= text);
    assert(printed(Seq::<u8>::empty(), end, x, y / 2) =~= Seq::<Print>::empty());
    assert(printed(text, home(), x, y / 2) =~= seq![block(img, x, 2 * (y / 2))]);
}

/// The text that is written for a picture puts nothing beside it or below it.
pub proof fn law_text_shows_nothing_else(img: &Raster, x: int, y: int)
    requires
        x < 0 || x >= img.width || y < 0 || 2 * y >= img.height,
    ensures
        printed(lines(img, line_count(img.height)), home(), x, y).len() == 0,
{
    let n = line_count(img.height);
    let text = lines(img, n);
    let end = lemma_lines_shown(img, n, Seq::empty(), home(), x, y);
    assert(text + Seq::<u8>::empty() =~= text);
    assert(printed(Seq::<u8>::empty(), end, x, y) =~= Seq::<Print>::empty());
}

/// The command that moves the cursor is one token.
proof fn lemma_move(row: nat, rest: Seq<u8>)
    ensures
        ({
            let bytes = utf8("\x1b[") + decimal(row) + utf8(";1H");
            &&& token(bytes + rest) == (
                Token::Control { numbers: seq![row, 1nat], letter: 72 },
                bytes.len(),
            )
            &&& (bytes + rest).skip(bytes.len() as int) == rest
        }),
{
    reveal_strlit("\x1b[");
    reveal_strlit(";1H");
    lemma_ascii("\x1b[");
    lemma_ascii(";1H");
    assert(utf8("\x1b[") =~= seq![27u8, 91u8]);
    assert(utf8(";1H") =~= seq![59u8, 49u8, 72u8]);
    assert(decimal(1) =~= seq![49u8]);
    let bytes = utf8("\x1b[") + decimal(row) + utf8(";1H");
    let tail = seq![72u8] + rest;
    let numbers = one_of_many(row) + (decimal(1) + tail);
    assert((bytes + rest).skip(2) =~= numbers);
    lemma_last_parameter(1, tail);
    lemma_one_more(row, seq![1nat], 1, decimal(1) + tail);
    assert(seq![row] + seq![1nat] =~= seq![row, 1nat]);
    assert((bytes + rest).skip(bytes.len() as int) =~= rest);
}

/// Before a picture is shown the cursor is taken to the left end of the row that has
/// as many rows above it as the picture is to have.
pub proof fn law_pictures_begin_where_they_should(
    c: &InteractiveCache,
    protocol: Protocol,
    height: u32,
    rest: Seq<u8>,
    cursor: Cursor,
    x: int,
    y: int,
)
    ensures
        printed(picture_start(c, protocol, height) + rest, cursor, x, y) == printed(
            rest,
            Cursor {
                column: 0,
                row: rows_above(c.usable_rows, cell_rows(height, protocol, c.cell_h)) as int,
                ..cursor
            },
            x,
            y,
        ),
{
    let above = rows_above(c.usable_rows, cell_rows(height, protocol, c.cell_h));
    let start = picture_start(c, protocol, height);
    lemma_move(above + 1, rest);
    lemma_token(start + rest, start.len(), cursor, x, y);
    let next = Cursor { column: 0, row: above as int, ..cursor };
    assert(Seq::<Print>::empty() + printed(rest, next, x, y) =~= printed(rest, next, x, y));
}

/// An ASCII character is printed where the cursor stands.
proof fn lemma_char_shown(b: u8, rest: Seq<u8>, cursor: Cursor, x: int, y: int)
    requires
        32 <= b < 128,
    ensures
        printed(seq![b] + rest, cursor, x, y) == (if cursor.column == x && cursor.row == y {
            seq![Print { bytes: seq![b], back: cursor.back, front: cursor.front }]
        } else {
            seq![]
        }) + printed(rest, (Cursor { column: cursor.column + 1, ..cursor }), x, y),
{
    let all = seq![b] + rest;
    assert(all.take(1) =~= seq![b]);
    assert(all.skip(1) =~= rest);
    lemma_token(all, 1, cursor, x, y);
}

/// The bytes of the slider's symbols.
proof fn lemma_symbols()
    ensures
        utf8("=") == seq![61u8],
        utf8("-") == seq![45u8],
        utf8("[") == seq![91u8],
        utf8("]") == seq![93u8],
        utf8("·") == seq![0xc2u8, 0xb7u8],
        utf8("\x1b[33m█\x1b[0m") == seq![27u8, 91u8] + decimal(33) + seq![109u8] + (seq![
            0xe2u8,
            0x96u8,
            0x88u8,
        ] + (seq![27u8, 91u8] + decimal(0) + seq![109u8])),
{
    reveal_strlit("=");
    reveal_strlit("-");
    reveal_strlit("[");
    reveal_strlit("]");
    lemma_ascii("=");
    lemma_ascii("-");
    lemma_ascii("[");
    lemma_ascii("]");
    assert(utf8("=") =~= seq![61u8]);
    assert(utf8("-") =~= seq![45u8]);
    assert(utf8("[") =~= seq![91u8]);
    assert(utf8("]") =~= seq![93u8]);
    reveal_strlit("·");
    reveal_with_fuel(encode_utf8, 2);
    let d: u32 = 0xb7;
    assert('·' as u32 == d);
    assert((0xC0 | ((d >> 6) & 0x1F) as u8) == 0xc2) by (bit_vector)
        requires
            d == 0xb7,
    ;
    assert((0x80 | (d & 0x3F) as u8) == 0xb7) by (bit_vector)
        requires
            d == 0xb7,
    ;
    assert("·"@.drop_first() =~= Seq::empty());
    assert(encode_scalar(d) =~= seq![0xc2u8, 0xb7u8]);
    assert(utf8("·") =~= seq![0xc2u8, 0xb7u8]);
    let k: u32 = 0x2588;
    assert('█' as u32 == k);
    assert((0xE0 | ((k >> 12) & 0x0F) as u8) == 0xe2) by (bit_vector)
        requires
            k == 0x2588,
    ;
    assert((0x80 | ((k >> 6) & 0x3F) as u8) == 0x96) by (bit_vector)
        requires
            k == 0x2588,
    ;
    assert((0x80 | (k & 0x3F) as u8) == 0x88) by (bit_vector)
        requires
            k == 0x2588,
    ;
    let knob = seq!['█'];
    assert(knob.drop_first() =~= Seq::empty());
    assert(encode_scalar(k) =~= seq![0xe2u8, 0x96u8, 0x88u8]);
    assert(encode_utf8(knob) =~= seq![0xe2u8, 0x96u8, 0x88u8]);
    reveal_strlit("\x1b[33m█\x1b[0m");
    reveal_strlit("\x1b[33m");
    reveal_strlit("\x1b[0m");
    lemma_ascii("\x1b[33m");
    lemma_ascii("\x1b[0m");
    let (a, b) = ("\x1b[33m"@, "\x1b[0m"@);
    assert("\x1b[33m█\x1b[0m"@ =~= a + (knob + b));
    lemma_encode_joined(a, knob + b);
    lemma_encode_joined(knob, b);
    reveal_with_fuel(decimal, 3);
    assert(utf8("\x1b[33m") =~= seq![27u8, 91u8] + decimal(33) + seq![109u8]);
    assert(utf8("\x1b[0m") =~= seq![27u8, 91u8] + decimal(0) + seq![109u8]);
}

/// What is to be seen of the slider's bar at a place: in a mode without slider a dot,
/// else the knob in yellow, and double lines left of it and single ones right of it.
pub open spec fn bar_print(active: bool, place: int, knob: int) -> Print {
    if !active {
        Print { bytes: seq![0xc2u8, 0xb7u8], back: seq![], front: seq![] }
    } else if place == knob {
        Print { bytes: seq![0xe2u8, 0x96u8, 0x88u8], back: seq![], front: seq![33nat] }
    } else if place < knob {
        Print { bytes: seq![61u8], back: seq![], front: seq![] }
    } else {
        Print { bytes: seq![45u8], back: seq![], front: seq![] }
    }
}

/// A command that sets plain colours prints nothing.
proof fn lemma_plain_color_shown(n: nat, rest: Seq<u8>, cursor: Cursor, x: int, y: int)
    ensures
        printed(seq![27u8, 91u8] + decimal(n) + seq![109u8] + rest, cursor, x, y) == printed(
            rest,
            cursor.colored(seq![n]),
            x,
            y,
        ),
{
    let all = seq![27u8, 91u8] + decimal(n) + seq![109u8] + rest;
    lemma_control(n, 109, rest);
    lemma_token(all, decimal(n).len() + 3, cursor, x, y);
    let next = cursor.colored(seq![n]);
    assert(Seq::<Print>::empty() + printed(rest, next, x, y) =~= printed(rest, next, x, y));
}

/// The knob is printed in yellow.
proof fn lemma_knob_shown(rest: Seq<u8>, cursor: Cursor, x: int, y: int)
    requires
        cursor.back == Seq::<nat>::empty(),
        cursor.front == Seq::<nat>::empty(),
    ensures
        printed(utf8("\x1b[33m█\x1b[0m") + rest, cursor, x, y) == (if cursor.column == x
            && cursor.row == y {
            seq![bar_print(true, 0, 0)]
        } else {
            seq![]
        }) + printed(rest, (Cursor { column: cursor.column + 1, ..cursor }), x, y),
{
    lemma_symbols();
    let block = seq![0xe2u8, 0x96u8, 0x88u8];
    let (on, off) = (
        seq![27u8, 91u8] + decimal(33) + seq![109u8],
        seq![27u8, 91u8] + decimal(0) + seq![109u8],
    );
    let all = utf8("\x1b[33m█\x1b[0m") + rest;
    let middle = block + (off + rest);
    assert(all =~= on + middle);
    lemma_plain_color_shown(33, middle, cursor, x, y);
    let yellow = cursor.colored(seq![33nat]);
    assert(middle.take(3) =~= block);
    assert(middle.skip(3) =~= off + rest);
    lemma_token(middle, 3, yellow, x, y);
    let next = yellow.after(token(middle).0);
    lemma_plain_color_shown(0, rest, next, x, y);
    let end = next.colored(seq![0nat]);
    assert(end == (Cursor { column: cursor.column + 1, ..cursor }));
}

/// A dot is printed.
proof fn lemma_dot_shown(rest: Seq<u8>, cursor: Cursor, x: int, y: int)
    requires
        cursor.back == Seq::<nat>::empty(),
        cursor.front == Seq::<nat>::empty(),
    ensures
        printed(utf8("·") + rest, cursor, x, y) == (if cursor.column == x && cursor.row == y {
            seq![bar_print(false, 0, 0)]
        } else {
            seq![]
        }) + printed(rest, (Cursor { column: cursor.column + 1, ..cursor }), x, y),
{
    lemma_symbols();
    let all = utf8("·") + rest;
    assert(all.take(2) =~= seq![0xc2u8, 0xb7u8]);
    assert(all.skip(2) =~= rest);
    lemma_token(all, 2, cursor, x, y);
}

/// A symbol of the bar is printed as one character.
proof fn lemma_symbol_shown(
    slider: Fraction,
    width: nat,
    active: bool,
    i: int,
    rest: Seq<u8>,
    cursor: Cursor,
    x: int,
    y: int,
)
    requires
        slider.wf(),
        0 < width < 0x100_0000,
        0 <= i < width,
        cursor.back == Seq::<nat>::empty(),
        cursor.front == Seq::<nat>::empty(),
    ensures
        printed(bar_symbol(slider, width, active, i) + rest, cursor, x, y) == (if cursor.column == x
            && cursor.row == y {
            seq![bar_print(active, i, knob(slider, width))]
        } else {
            seq![]
        }) + printed(rest, (Cursor { column: cursor.column + 1, ..cursor }), x, y),
{
    lemma_symbols();
    lemma_whole_product(slider, width);
    if !active {
        lemma_dot_shown(rest, cursor, x, y);
    } else if i == knob(slider, width) {
        lemma_knob_shown(rest, cursor, x, y);
    } else if i < knob(slider, width) {
        lemma_char_shown(61, rest, cursor, x, y);
    } else {
        lemma_char_shown(45, rest, cursor, x, y);
    }
}

proof fn lemma_bar_shown(
    slider: Fraction,
    width: nat,
    active: bool,
    n: nat,
    rest: Seq<u8>,
    cursor: Cursor,
    x: int,
    y: int,
)
    requires
        slider.wf(),
        0 < width < 0x100_0000,
        n <= width,
        cursor.back == Seq::<nat>::empty(),
        cursor.front == Seq::<nat>::empty(),
    ensures
        printed(bar(slider, width, active, n) + rest, cursor, x, y) == (if cursor.column <= x
            < cursor.column + n && cursor.row == y {
            seq![bar_print(active, x - cursor.column, knob(slider, width))]
        } else {
            seq![]
        }) + printed(rest, (Cursor { column: cursor.column + n, ..cursor }), x, y),
    decreases n,
{
    let all = bar(slider, width, active, n) + rest;
    if n == 0 {
        assert(all =~= rest);
        assert((Cursor { column: cursor.column + n, ..cursor }) == cursor);
        assert(printed(all, cursor, x, y) =~= Seq::<Print>::empty() + printed(rest, cursor, x, y));
    } else {
        let m = (n - 1) as nat;
        let last = bar_symbol(slider, width, active, n - 1) + rest;
        assert(all =~= bar(slider, width, active, m) + last);
        lemma_bar_shown(slider, width, active, m, last, cursor, x, y);
        let mid = Cursor { column: cursor.column + m, ..cursor };
        lemma_symbol_shown(slider, width, active, n - 1, rest, mid, x, y);
        let end = Cursor { column: cursor.column + n, ..cursor };
        assert((Cursor { column: mid.column + 1, ..mid }) == end);
        let ghost seen = if cursor.column <= x < cursor.column + n && cursor.row == y {
            seq![bar_print(active, x - cursor.column, knob(slider, width))]
        } else {
            seq![]
        };
        assert(printed(all, cursor, x, y) =~= seen + printed(rest, end, x, y));
    }
}

/// The slider's line is a bracket, the bar with its knob, and another bracket, one
/// character in each column from the left end; the percentage follows.
pub proof fn law_slider_line_is_shown(
    cols: u16,
    slider: Fraction,
    active: bool,
    row: int,
    x: int,
)
    requires
        slider.wf(),
        0 <= x <= bar_width(cols) + 1,
    ensures
        ({
            let cursor = Cursor { column: 0, row, back: seq![], front: seq![] };
            let shown = printed(slider_line(cols, slider, active), cursor, x, row);
            let width = bar_width(cols);
            shown.len() > 0 && shown[0] == if x == 0 {
                Print { bytes: seq![91u8], back: seq![], front: seq![] }
            } else if x == width + 1 {
                Print { bytes: seq![93u8], back: seq![], front: seq![] }
            } else {
                bar_print(active, x - 1, knob(slider, width))
            }
        }),
{
    lemma_symbols();
    let cursor = Cursor { column: 0, row, back: seq![], front: seq![] };
    let width = bar_width(cols);
    let label = percentage_label(percentage(slider));
    let t1 = seq![93u8] + label;
    let t0 = bar(slider, width, active, width) + t1;
    let all = slider_line(cols, slider, active);
    assert(all =~= seq![91u8] + t0);
    lemma_char_shown(91, t0, cursor, x, row);
    let c0 = Cursor { column: cursor.column + 1, ..cursor };
    lemma_bar_shown(slider, width, active, width, t1, c0, x, row);
    let c1 = Cursor { column: c0.column + width, ..c0 };
    lemma_char_shown(93, label, c1, x, row);
}

/// A row is cleared before it is written: the cursor goes to its left end, and all of
/// the row is erased.
pub proof fn law_rows_are_cleared(row: nat, rest: Seq<u8>, cursor: Cursor, x: int, y: int)
    requires
        row > 0,
    ensures
        printed(clear_row(row) + rest, cursor, x, y) == printed(
            rest,
            Cursor { column: 0, row: row - 1, ..cursor },
            x,
            y,
        ),
        clear_row(row).skip(clear_row(row).len() - 4) == seq![27u8, 91u8, 50u8, 75u8],
{
    reveal_strlit("\x1b[");
    reveal_strlit(";1H");
    reveal_strlit(";1H\x1b[2K");
    lemma_ascii("\x1b[");
    lemma_ascii(";1H");
    lemma_ascii(";1H\x1b[2K");
    let erase = seq![27u8, 91u8, 50u8, 75u8];
    assert(utf8(";1H\x1b[2K") =~= utf8(";1H") + erase);
    let go = utf8("\x1b[") + decimal(row) + utf8(";1H");
    assert(clear_row(row) =~= go + erase);
    assert(clear_row(row).skip(clear_row(row).len() - 4) =~= erase);
    let all = clear_row(row) + rest;
    assert(all =~= go + (erase + rest));
    lemma_move(row, erase + rest);
    lemma_token(all, go.len(), cursor, x, y);
    let next = Cursor { column: 0, row: row - 1, ..cursor };
    assert(decimal(2) =~= seq![50u8]);
    assert(erase + rest =~= seq![27u8, 91u8] + decimal(2) + seq![75u8] + rest);
    lemma_control(2, 75, rest);
    lemma_token(erase + rest, 4, next, x, y);
    assert(printed(all, cursor, x, y) =~= printed(rest, next, x, y));
}

} // verus!
