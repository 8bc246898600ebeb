//! Reading sixel streams, to say what they paint.
//!
//! A stream is a sequence of commands that move a pen over bands of six rows. This
//! module says what each command does, and proves that the stream written for a
//! picture paints that picture.
use crate::palette::{Rgb, SixelPalette};
use crate::raster::{lemma_offset, offset, Raster};
use crate::sixel::{
    band_cells, band_count, band_end, band_text, bands_text, color_definition, color_definitions,
    color_line, color_lines, color_row, first_uses, header, indexed,
    law_cells_are_painted_in_their_color, law_one_line_per_color, lemma_color_row,
    lemma_run_length, percent, run_length, run_text, runs, runs_text, sixel_text,
};
use crate::text::{decimal, law_decimal_reads_back, lemma_ascii, number, three_numbers, utf8};
use vstd::arithmetic::power2::pow2;
use vstd::prelude::*;
use vstd::string::*;

verus! {

/// The byte is a decimal digit.
pub open spec fn is_digit(b: u8) -> bool {
    48 <= b <= 57
}

/// How many digits the bytes begin with.
pub open spec fn digit_run(bytes: Seq<u8>) -> nat
    decreases bytes.len(),
{
    if bytes.len() == 0 || !is_digit(bytes[0]) {
        0
    } else {
        1 + digit_run(bytes.skip(1))
    }
}

/// The numbers that the bytes begin with, separated by semicolons, and how many
/// bytes they take.
pub open spec fn parameters(bytes: Seq<u8>) -> (Seq<nat>, nat)
    decreases bytes.len(),
{
    let k = digit_run(bytes);
    let first = number(bytes.take(k as int));
    if k < bytes.len() && bytes[k as int] == 59 {
        let (others, n) = parameters(bytes.skip(k as int + 1));
        (seq![first] + others, k + 1 + n)
    } else {
        (seq![first], k)
    }
}

/// A command of a sixel stream.
pub enum Command {
    /// Takes up a colour register.
    Select { register: nat },
    /// Gives a colour register its colour, in percent, and takes it up.
    Define { register: nat, red: nat, green: nat, blue: nat },
    /// Paints columns of six pixels, where bits are set.
    Paint { columns: nat, bits: nat },
    /// Goes back to the left end of the band.
    Return,
    /// Goes on to the next band.
    Next,
    /// Ends the stream.
    End,
}

/// The command that the bytes begin with, and how many bytes it takes.
pub open spec fn command(bytes: Seq<u8>) -> (Command, nat) {
    let b = bytes[0];
    if b == 35 {
        let (p, n) = parameters(bytes.skip(1));
        if p.len() == 5 && p[1] == 2 {
            (Command::Define { register: p[0], red: p[2], green: p[3], blue: p[4] }, 1 + n)
        } else {
            (Command::Select { register: p[0] }, 1 + n)
        }
    } else if b == 33 {
        let (p, n) = parameters(bytes.skip(1));
        (Command::Paint { columns: p[0], bits: (bytes[1 + n as int] - 63) as nat }, 2 + n)
    } else if 63 <= b <= 126 {
        (Command::Paint { columns: 1, bits: (b - 63) as nat }, 1)
    } else if b == 36 {
        (Command::Return, 1)
    } else if b == 45 {
        (Command::Next, 1)
    } else {
        (Command::End, 1)
    }
}

/// Where the pen stands, and the colour register that it paints with.
pub struct Pen {
    pub x: nat,
    /// The first row of the band.
    pub top: nat,
    pub register: nat,
}

impl Pen {
    /// The pen after a command.
    pub open spec fn after(self, c: Command) -> Pen {
        match c {
            Command::Select { register } => Pen { register, ..self },
            Command::Define { register, .. } => Pen { register, ..self },
            Command::Paint { columns, .. } => Pen { x: self.x + columns, ..self },
            Command::Return => Pen { x: 0, ..self },
            Command::Next => Pen { x: 0, top: self.top + 6, ..self },
            Command::End => self,
        }
    }

    /// The columns that are painted from here on hold the pixel `(x, y)`, and the
    /// bit for its row is set.
    pub open spec fn covers(self, columns: nat, bits: nat, x: int, y: int) -> bool {
        &&& self.x <= x < self.x + columns
        &&& self.top <= y < self.top + 6
        &&& (bits / pow2((y - self.top) as nat)) % 2 == 1
    }

    /// How often a command paints the pixel `(x, y)` with a register.
    pub open spec fn strokes(self, c: Command, x: int, y: int, register: nat) -> nat {
        if c is Paint && self.register == register && self.covers(c->columns, c->bits, x, y) {
            1
        } else {
            0
        }
    }
}

/// How often the commands paint the pixel `(x, y)` with a register.
pub open spec fn painted(bytes: Seq<u8>, pen: Pen, x: int, y: int, register: nat) -> nat
    decreases bytes.len(),
{
    let (c, n) = command(bytes);
    if bytes.len() == 0 || c is End || n < 1 || n > bytes.len() {
        0
    } else {
        pen.strokes(c, x, y, register) + painted(
            bytes.skip(n as int),
            pen.after(c),
            x,
            y,
            register,
        )
    }
}

/// The colour that the commands give a register in the end, in percent.
pub open spec fn defined(bytes: Seq<u8>, register: nat) -> Option<(nat, nat, nat)>
    decreases bytes.len(),
{
    let (c, n) = command(bytes);
    if bytes.len() == 0 || c is End || n < 1 || n > bytes.len() {
        None
    } else {
        let later = defined(bytes.skip(n as int), register);
        if later is None && c is Define && c->Define_register == register {
            Some((c->red, c->green, c->blue))
        } else {
            later
        }
    }
}

/// The raster attributes of a stream: the proportions of a pixel, and the width and
/// height of the picture. They stand behind the seven bytes that begin the stream.
pub open spec fn attributes(stream: Seq<u8>) -> Seq<nat> {
    parameters(stream.skip(7)).0
}

/// The commands of a stream.
pub open spec fn commands(stream: Seq<u8>) -> Seq<u8> {
    stream.skip(7 + parameters(stream.skip(7)).1 as int)
}

/// The pen at the start of a stream.
pub open spec fn first_pen() -> Pen {
    Pen { x: 0, top: 0, register: 0 }
}

/// Digits with no digit behind them are counted.
proof fn lemma_digit_run(digits: Seq<u8>, rest: Seq<u8>)
    requires
        forall|i: int| 0 <= i < digits.len() ==> is_digit(#[trigger] digits[i]),
        rest.len() == 0 || !is_digit(rest[0]),
    ensures
        digit_run(digits + rest) == digits.len(),
    decreases digits.len(),
{
    let all = digits + rest;
    if digits.len() == 0 {
        assert(all =~= rest);
    } else {
        assert(all[0] == digits[0]);
        let tail = digits.skip(1);
        assert forall|i: int| 0 <= i < tail.len() implies is_digit(#[trigger] tail[i]) by {
            assert(tail[i] == digits[i + 1]);
        }
        lemma_digit_run(tail, rest);
        assert(all.skip(1) =~= tail + rest);
    }
}

/// The last number of some parameters.
pub proof fn lemma_last_parameter(n: nat, rest: Seq<u8>)
    requires
        rest.len() == 0 || (!is_digit(rest[0]) && rest[0] != 59),
    ensures
        parameters(decimal(n) + rest) == (seq![n], decimal(n).len()),
{
    law_decimal_reads_back(n);
    lemma_digit_run(decimal(n), rest);
    let all = decimal(n) + rest;
    assert(all.take(decimal(n).len() as int) =~= decimal(n));
}

/// A number of some parameters that is not the last one.
proof fn lemma_parameter(n: nat, rest: Seq<u8>)
    ensures
        parameters(decimal(n) + seq![59u8] + rest) == (
            seq![n] + parameters(rest).0,
            decimal(n).len() + 1 + parameters(rest).1,
        ),
{
    law_decimal_reads_back(n);
    let tail = seq![59u8] + rest;
    let all = decimal(n) + seq![59u8] + rest;
    assert(all =~= decimal(n) + tail);
    lemma_digit_run(decimal(n), tail);
    assert(all.take(decimal(n).len() as int) =~= decimal(n));
    assert(all.skip(decimal(n).len() as int + 1) =~= rest);
}

/// What stands behind a command does not begin like one more parameter.
spec fn breaks_off(rest: Seq<u8>) -> bool {
    rest.len() > 0 && !is_digit(rest[0]) && rest[0] != 59
}

/// The bytes of the short texts in a stream.
proof fn lemma_literals()
    ensures
        utf8("#") == seq![35u8],
        utf8("$") == seq![36u8],
        utf8("-") == seq![45u8],
        utf8("!") == seq![33u8],
        utf8(";") == seq![59u8],
        utf8(";2;") == seq![59u8, 50u8, 59u8],
        utf8("\x1bP0;1q\"1;1;").len() == 11,
        utf8("\x1bP0;1q\"1;1;").skip(7) == seq![49u8, 59u8, 49u8, 59u8],
        utf8("\x1b\\").len() == 2,
        utf8("\x1b\\")[0] == 27,
{
    reveal_strlit("#");
    reveal_strlit("$");
    reveal_strlit("-");
    reveal_strlit("!");
    reveal_strlit(";");
    reveal_strlit(";2;");
    reveal_strlit("\x1bP0;1q\"1;1;");
    reveal_strlit("\x1b\\");
    lemma_ascii("#");
    lemma_ascii("$");
    lemma_ascii("-");
    lemma_ascii("!");
    lemma_ascii(";");
    lemma_ascii(";2;");
    lemma_ascii("\x1bP0;1q\"1;1;");
    lemma_ascii("\x1b\\");
    assert(utf8("#") =~= seq![35u8]);
    assert(utf8("$") =~= seq![36u8]);
    assert(utf8("-") =~= seq![45u8]);
    assert(utf8("!") =~= seq![33u8]);
    assert(utf8(";") =~= seq![59u8]);
    assert(utf8(";2;") =~= seq![59u8, 50u8, 59u8]);
    assert(utf8("\x1bP0;1q\"1;1;").skip(7) =~= seq![49u8, 59u8, 49u8, 59u8]);
}

/// A number and the semicolon behind it.
pub open spec fn one_of_many(n: nat) -> Seq<u8> {
    decimal(n).push(59)
}

/// Concatenation is associative.
proof fn lemma_regroup(a: Seq<u8>, b: Seq<u8>, c: Seq<u8>)
    ensures
        (a + b) + c == a + (b + c),
{
    assert((a + b) + c =~= a + (b + c));
}

/// A number and a semicolon before other parameters.
pub proof fn lemma_one_more(n: nat, others: Seq<nat>, len: nat, rest: Seq<u8>)
    requires
        parameters(rest) == (others, len),
    ensures
        parameters(one_of_many(n) + rest) == (seq![n] + others, one_of_many(n).len() + len),
{
    lemma_parameter(n, rest);
    assert(decimal(n) + seq![59u8] =~= one_of_many(n));
}

/// Five parameters, as colours are given.
pub proof fn lemma_five_parameters(a: nat, b: nat, c: nat, d: nat, e: nat, rest: Seq<u8>)
    requires
        rest.len() == 0 || (!is_digit(rest[0]) && rest[0] != 59),
    ensures
        ({
            let text = one_of_many(a) + (one_of_many(b) + (one_of_many(c) + (one_of_many(d)
                + decimal(e))));
            parameters(text + rest) == (seq![a, b, c, d, e], text.len())
        }),
{
    let t4 = decimal(e);
    let t3 = one_of_many(d) + t4;
    let t2 = one_of_many(c) + t3;
    let t1 = one_of_many(b) + t2;
    let t0 = one_of_many(a) + t1;
    lemma_last_parameter(e, rest);
    lemma_regroup(one_of_many(d), t4, rest);
    lemma_one_more(d, seq![e], t4.len(), t4 + rest);
    lemma_regroup(one_of_many(c), t3, rest);
    lemma_one_more(c, seq![d] + seq![e], t3.len(), t3 + rest);
    lemma_regroup(one_of_many(b), t2, rest);
    lemma_one_more(b, seq![c] + (seq![d] + seq![e]), t2.len(), t2 + rest);
    lemma_regroup(one_of_many(a), t1, rest);
    lemma_one_more(a, seq![b] + (seq![c] + (seq![d] + seq![e])), t1.len(), t1 + rest);
    assert(seq![a] + (seq![b] + (seq![c] + (seq![d] + seq![e]))) =~= seq![a, b, c, d, e]);
}

/// A colour definition is one command.
proof fn lemma_definition(i: nat, c: Rgb, rest: Seq<u8>)
    requires
        breaks_off(rest),
    ensures
        command(color_definition(i, c) + rest) == (
            Command::Define {
                register: i,
                red: percent(c.0),
                green: percent(c.1),
                blue: percent(c.2),
            },
            color_definition(i, c).len(),
        ),
{
    lemma_literals();
    let (r, g, b) = (percent(c.0), percent(c.1), percent(c.2));
    let numbers = one_of_many(i) + (one_of_many(2) + (one_of_many(r) + (one_of_many(g) + decimal(
        b,
    ))));
    assert(decimal(2) =~= seq![50u8]);
    let three = three_numbers(r, g, b);
    assert(three =~= one_of_many(r) + (one_of_many(g) + decimal(b)));
    assert(utf8("#") + decimal(i) + utf8(";2;") =~= seq![35u8] + (one_of_many(i) + one_of_many(2)));
    assert(color_definition(i, c) =~= seq![35u8] + numbers);
    let text = color_definition(i, c) + rest;
    assert(text.skip(1) =~= numbers + rest);
    assert(text[0] == 35);
    lemma_five_parameters(i, 2, r, g, b, rest);
}

/// A stroke of the pen in one command, then the rest.
proof fn lemma_step(bytes: Seq<u8>, n: nat, pen: Pen, x: int, y: int, register: nat)
    requires
        command(bytes).1 == n,
        1 <= n <= bytes.len(),
        !(command(bytes).0 is End),
    ensures
        painted(bytes, pen, x, y, register) == pen.strokes(command(bytes).0, x, y, register)
            + painted(bytes.skip(n as int), pen.after(command(bytes).0), x, y, register),
        !(command(bytes).0 is Define) ==> defined(bytes, register) == defined(
            bytes.skip(n as int),
            register,
        ),
{
}

/// Taking up a register is one command.
proof fn lemma_select(register: nat, rest: Seq<u8>)
    requires
        breaks_off(rest),
    ensures
        command(utf8("#") + decimal(register) + rest) == (
            Command::Select { register },
            1 + decimal(register).len(),
        ),
{
    lemma_literals();
    let text = utf8("#") + decimal(register) + rest;
    assert(text.skip(1) =~= decimal(register) + rest);
    assert(text[0] == 35);
    lemma_last_parameter(register, rest);
}

/// A run paints its columns and moves the pen behind them.
proof fn lemma_run(count: nat, v: u8, rest: Seq<u8>, pen: Pen, x: int, y: int, register: nat)
    requires
        count > 0,
        v <= 63,
    ensures
        painted(run_text(count, v) + rest, pen, x, y, register) == pen.strokes(
            Command::Paint { columns: count, bits: v as nat },
            x,
            y,
            register,
        ) + painted(rest, Pen { x: pen.x + count, ..pen }, x, y, register),
        defined(run_text(count, v) + rest, register) == defined(rest, register),
{
    lemma_literals();
    let text = run_text(count, v) + rest;
    let ch = (v + 63) as u8;
    if count >= 3 {
        let tail = seq![ch] + rest;
        assert(text =~= seq![33u8] + (decimal(count) + tail));
        assert(text.skip(1) =~= decimal(count) + tail);
        lemma_last_parameter(count, tail);
        let n = decimal(count).len();
        assert(text[1 + n as int] == ch);
        assert(text.skip(2 + n as int) =~= rest);
        lemma_step(text, 2 + n, pen, x, y, register);
    } else {
        let next = Pen { x: pen.x + 1, ..pen };
        if count == 1 {
            assert(text =~= seq![ch] + rest);
            assert(text.skip(1) =~= rest);
            lemma_step(text, 1, pen, x, y, register);
        } else {
            let tail = seq![ch] + rest;
            assert(text =~= seq![ch] + tail);
            assert(text.skip(1) =~= tail);
            assert(tail.skip(1) =~= rest);
            lemma_step(text, 1, pen, x, y, register);
            lemma_step(tail, 1, next, x, y, register);
        }
    }
}

/// How often a row of columns, painted from the pen on, paints the pixel `(x, y)`.
spec fn row_strokes(row: Seq<u8>, pen: Pen, x: int, y: int, register: nat) -> nat {
    if pen.register == register && pen.x <= x < pen.x + row.len() && pen.covers(
        row.len(),
        row[x - pen.x] as nat,
        x,
        y,
    ) {
        1
    } else {
        0
    }
}

/// The runs of a row paint the row and move the pen behind it.
proof fn lemma_runs(row: Seq<u8>, rest: Seq<u8>, pen: Pen, x: int, y: int, register: nat)
    requires
        forall|i: int| 0 <= i < row.len() ==> #[trigger] row[i] <= 63,
    ensures
        painted(runs_text(runs(row)) + rest, pen, x, y, register) == row_strokes(
            row,
            pen,
            x,
            y,
            register,
        ) + painted(rest, Pen { x: pen.x + row.len(), ..pen }, x, y, register),
        defined(runs_text(runs(row)) + rest, register) == defined(rest, register),
    decreases row.len(),
{
    if row.len() == 0 {
        assert(runs_text(runs(row)) + rest =~= rest);
    } else {
        lemma_run_length(row);
        let n = run_length(row);
        let v = row[0];
        let tail = row.skip(n as int);
        let next = Pen { x: pen.x + n, ..pen };
        assert forall|i: int| 0 <= i < tail.len() implies #[trigger] tail[i] <= 63 by {
            assert(tail[i] == row[i + n]);
        }
        assert(runs(row) == seq![(n, v)] + runs(tail));
        assert(runs(row).skip(1) =~= runs(tail));
        let later = runs_text(runs(tail)) + rest;
        assert(runs_text(runs(row)) + rest =~= run_text(n, v) + later);
        lemma_run(n, v, later, pen, x, y, register);
        lemma_runs(tail, rest, next, x, y, register);
        if pen.x <= x < pen.x + n {
            assert(row[x - pen.x] == v);
        } else if pen.x + n <= x < pen.x + row.len() {
            assert(tail[x - next.x] == row[x - pen.x]);
        }
    }
}

/// The cell of a band that holds the pixel `(x, y)` has a colour.
spec fn has_color(cells: Seq<u8>, width: nat, rows: nat, top: nat, x: int, y: int, c: nat) -> bool {
    &&& 0 <= x < width
    &&& top <= y < top + rows
    &&& cells[(y - top) * width + x] == c
}

/// What stands for the runs of a row does not begin like a parameter.
proof fn lemma_runs_break_off(row: Seq<u8>, rest: Seq<u8>)
    requires
        forall|i: int| 0 <= i < row.len() ==> #[trigger] row[i] <= 63,
        breaks_off(rest),
    ensures
        breaks_off(runs_text(runs(row)) + rest),
{
    lemma_literals();
    let text = runs_text(runs(row)) + rest;
    if row.len() == 0 {
        assert(text =~= rest);
    } else {
        lemma_run_length(row);
        let n = run_length(row);
        let first = run_text(n, row[0]);
        assert(runs(row)[0] == (n, row[0]));
        assert(text[0] == first[0]);
    }
}

/// The line of a colour paints the cells of that colour and returns the pen.
proof fn lemma_line(
    cells: Seq<u8>,
    width: nat,
    rows: nat,
    c: u8,
    rest: Seq<u8>,
    pen: Pen,
    x: int,
    y: int,
    register: nat,
)
    requires
        pen.x == 0,
        rows <= 6,
    ensures
        painted(color_line(cells, width, rows, c) + rest, pen, x, y, register) == (if register == c
            && has_color(cells, width, rows, pen.top, x, y, c as nat) {
            1nat
        } else {
            0nat
        }) + painted(rest, Pen { x: 0, register: c as nat, ..pen }, x, y, register),
        defined(color_line(cells, width, rows, c) + rest, register) == defined(rest, register),
{
    lemma_literals();
    let row = color_row(cells, width, rows, c);
    lemma_color_row(cells, width, rows, c);
    let text = color_line(cells, width, rows, c) + rest;
    let tail = seq![36u8] + rest;
    let body = runs_text(runs(row)) + tail;
    assert(text =~= utf8("#") + decimal(c as nat) + body);
    lemma_runs_break_off(row, tail);
    lemma_select(c as nat, body);
    let n = 1 + decimal(c as nat).len();
    let held = Pen { register: c as nat, ..pen };
    assert(text.skip(n as int) =~= body);
    lemma_step(text, n, pen, x, y, register);
    lemma_runs(row, tail, held, x, y, register);
    let end = Pen { x: width, ..held };
    assert(tail.skip(1) =~= rest);
    lemma_step(tail, 1, end, x, y, register);
    if 0 <= x < width && pen.top <= y < pen.top + 6 {
        let k = (y - pen.top) as nat;
        if k < rows {
            law_cells_are_painted_in_their_color(cells, width, rows, c, x, k);
        } else {
            let v = row[x] as nat;
            assert(v < pow2(rows));
            vstd::arithmetic::power2::lemma_pow2_pos(k);
            if rows < k {
                vstd::arithmetic::power2::lemma_pow2_strictly_increases(rows, k);
            }
            vstd::arithmetic::div_mod::lemma_basic_div(v as int, pow2(k) as int);
        }
    }
}

/// The lines of some colours paint the cells of those colours and return the pen.
proof fn lemma_lines(
    cells: Seq<u8>,
    width: nat,
    rows: nat,
    colors: Seq<u8>,
    rest: Seq<u8>,
    pen: Pen,
    x: int,
    y: int,
    register: nat,
) -> (end: Pen)
    requires
        pen.x == 0,
        rows <= 6,
        colors.no_duplicates(),
    ensures
        end.x == 0,
        end.top == pen.top,
        painted(color_lines(cells, width, rows, colors) + rest, pen, x, y, register) == (if (
        exists|i: int| 0 <= i < colors.len() && #[trigger] colors[i] == register) && has_color(
            cells,
            width,
            rows,
            pen.top,
            x,
            y,
            register,
        ) {
            1nat
        } else {
            0nat
        }) + painted(rest, end, x, y, register),
        defined(color_lines(cells, width, rows, colors) + rest, register) == defined(
            rest,
            register,
        ),
    decreases colors.len(),
{
    let text = color_lines(cells, width, rows, colors) + rest;
    if colors.len() == 0 {
        assert(text =~= rest);
        pen
    } else {
        let others = colors.drop_last();
        let c = colors.last();
        let last = color_line(cells, width, rows, c) + rest;
        assert(text =~= color_lines(cells, width, rows, others) + last);
        let mid = lemma_lines(cells, width, rows, others, last, pen, x, y, register);
        lemma_line(cells, width, rows, c, rest, mid, x, y, register);
        assert(forall|i: int| 0 <= i < others.len() ==> others[i] == #[trigger] colors[i]);
        assert(c == colors[colors.len() - 1]);
        if register == c {
            assert(forall|i: int| 0 <= i < others.len() ==> #[trigger] others[i] != register);
        }
        Pen { x: 0, register: c as nat, ..mid }
    }
}

/// A band paints each of its cells once, in its colour, and moves the pen to the
/// next one.
proof fn lemma_band(
    cells: Seq<u8>,
    width: nat,
    rows: nat,
    rest: Seq<u8>,
    pen: Pen,
    x: int,
    y: int,
    register: nat,
) -> (end: Pen)
    requires
        pen.x == 0,
        rows <= 6,
        cells.len() == rows * width,
    ensures
        end.x == 0,
        end.top == pen.top + 6,
        painted(band_text(cells, width, rows) + rest, pen, x, y, register) == (if has_color(
            cells,
            width,
            rows,
            pen.top,
            x,
            y,
            register,
        ) {
            1nat
        } else {
            0nat
        }) + painted(rest, end, x, y, register),
        defined(band_text(cells, width, rows) + rest, register) == defined(rest, register),
{
    lemma_literals();
    let tail = seq![45u8] + rest;
    let colors = first_uses(cells);
    assert(band_text(cells, width, rows) + rest =~= color_lines(cells, width, rows, colors) + tail);
    law_one_line_per_color(cells);
    let mid = lemma_lines(cells, width, rows, colors, tail, pen, x, y, register);
    assert(tail.skip(1) =~= rest);
    lemma_step(tail, 1, mid, x, y, register);
    if has_color(cells, width, rows, pen.top, x, y, register) {
        let k = (y - pen.top) * width + x;
        assert(0 <= k < rows * width) by (nonlinear_arith)
            requires
                k == (y - pen.top) * width + x,
                0 <= x < width,
                0 <= y - pen.top,
                y - pen.top + 1 <= rows,
        ;
        let c = cells[k];
        assert(cells.contains(c));
        assert(colors.contains(c));
        let i = choose|i: int| 0 <= i < colors.len() && colors[i] == c;
        assert(colors[i] == register);
    }
    Pen { x: 0, top: mid.top + 6, ..mid }
}

/// Rows that the first `n` bands cover.
spec fn rows_covered(height: int, n: nat) -> int {
    if n == 0 {
        0
    } else {
        band_end(height, n - 1)
    }
}

/// The first bands paint each of their cells once, in its colour.
proof fn lemma_bands(
    index: Seq<u8>,
    width: nat,
    height: nat,
    n: nat,
    rest: Seq<u8>,
    pen: Pen,
    x: int,
    y: int,
    register: nat,
) -> (end: Pen)
    requires
        pen.x == 0,
        pen.top == 0,
        n <= band_count(height),
        index.len() == width * height,
    ensures
        end.x == 0,
        end.top == 6 * n,
        painted(bands_text(index, width, height, n) + rest, pen, x, y, register) == (if 0 <= x
            < width && 0 <= y < rows_covered(height as int, n) && index[y * width + x]
            == register {
            1nat
        } else {
            0nat
        }) + painted(rest, end, x, y, register),
        defined(bands_text(index, width, height, n) + rest, register) == defined(rest, register),
    decreases n,
{
    let text = bands_text(index, width, height, n) + rest;
    if n == 0 {
        assert(text =~= rest);
        pen
    } else {
        let i = n - 1;
        let m = (n - 1) as nat;
        let stop = band_end(height as int, i);
        let cells = band_cells(index, width as int, height as int, i);
        let rows = (stop - 6 * i) as nat;
        let last = band_text(cells, width, rows) + rest;
        assert(text =~= bands_text(index, width, height, m) + last);
        assert(0 <= 6 * i * width <= stop * width <= width * height && stop * width - 6 * i * width
            == rows * width) by (nonlinear_arith)
            requires
                0 <= i,
                6 * i <= stop <= height,
                rows == stop - 6 * i,
                width >= 0,
        ;
        let mid = lemma_bands(index, width, height, m, last, pen, x, y, register);
        let end = lemma_band(cells, width, rows, rest, mid, x, y, register);
        if 0 <= x < width && 6 * i <= y < stop {
            let k = (y - 6 * i) * width + x;
            assert(0 <= k < rows * width && 6 * i * width + k == y * width + x)
                by (nonlinear_arith)
                requires
                    k == (y - 6 * i) * width + x,
                    0 <= x < width,
                    0 <= y - 6 * i,
                    y - 6 * i + 1 <= rows,
            ;
            assert(cells[k] == index[y * width + x]);
        }
        end
    }
}

/// The definitions paint nothing, and define each register of the palette unless
/// what follows does.
proof fn lemma_definitions(
    colors: Seq<Rgb>,
    rest: Seq<u8>,
    pen: Pen,
    x: int,
    y: int,
    register: nat,
) -> (end: Pen)
    requires
        breaks_off(rest),
    ensures
        end.x == pen.x,
        end.top == pen.top,
        painted(color_definitions(colors) + rest, pen, x, y, register) == painted(
            rest,
            end,
            x,
            y,
            register,
        ),
        defined(color_definitions(colors) + rest, register) == if defined(rest, register) is Some {
            defined(rest, register)
        } else if register < colors.len() {
            let c = colors[register as int];
            Some((percent(c.0), percent(c.1), percent(c.2)))
        } else {
            None
        },
    decreases colors.len(),
{
    let text = color_definitions(colors) + rest;
    if colors.len() == 0 {
        assert(text =~= rest);
        pen
    } else {
        lemma_literals();
        let others = colors.drop_last();
        let i = (colors.len() - 1) as nat;
        let def = color_definition(i, colors.last());
        let last = def + rest;
        assert(def[0] == 35);
        assert(last[0] == 35);
        assert(text =~= color_definitions(others) + last);
        let mid = lemma_definitions(others, last, pen, x, y, register);
        lemma_definition(i, colors.last(), rest);
        assert(last.skip(def.len() as int) =~= rest);
        lemma_step(last, def.len(), mid, x, y, register);
        if register < others.len() {
            assert(others[register as int] == colors[register as int]);
        }
        Pen { register: i, ..mid }
    }
}

/// The parts of a stream are found: the attributes give the size of the picture, and
/// the commands follow them.
proof fn lemma_stream(width: u32, height: u32, body: Seq<u8>)
    requires
        breaks_off(body),
    ensures
        attributes(header(width, height) + body) == seq![1nat, 1nat, width as nat, height as nat],
        commands(header(width, height) + body) == body,
{
    lemma_literals();
    let (w, h) = (width as nat, height as nat);
    let stream = header(width, height) + body;
    let start = utf8("\x1bP0;1q\"1;1;");
    let t3 = decimal(h) + body;
    let t2 = decimal(w) + seq![59u8] + t3;
    let t1 = decimal(1) + seq![59u8] + t2;
    let t0 = decimal(1) + seq![59u8] + t1;
    assert(decimal(1) =~= seq![49u8]);
    assert(t0 =~= seq![49u8, 59u8, 49u8, 59u8] + t2);
    assert(stream.skip(7) =~= start.skip(7) + t2);
    lemma_last_parameter(h, body);
    lemma_parameter(w, t3);
    lemma_parameter(1, t2);
    lemma_parameter(1, t1);
    assert(parameters(t0).0 =~= seq![1nat, 1nat, w, h]);
    assert(stream.skip(7 + parameters(t0).1 as int) =~= body);
}

/// Bands begin with a colour or with their end.
proof fn lemma_bands_begin(index: Seq<u8>, width: nat, height: nat, n: nat, tail: Seq<u8>)
    requires
        breaks_off(tail),
    ensures
        breaks_off(bands_text(index, width, height, n) + tail),
    decreases n,
{
    lemma_literals();
    let text = bands_text(index, width, height, n) + tail;
    if n == 0 {
        assert(text =~= tail);
    } else {
        let i = n - 1;
        let cells = band_cells(index, width as int, height as int, i);
        let rows = (band_end(height as int, i) - 6 * i) as nat;
        let last = band_text(cells, width, rows) + tail;
        assert(text =~= bands_text(index, width, height, (n - 1) as nat) + last);
        lemma_lines_begin(cells, width, rows, first_uses(cells), seq![45u8] + tail);
        assert(last =~= color_lines(cells, width, rows, first_uses(cells)) + (seq![45u8] + tail));
        lemma_bands_begin(index, width, height, (n - 1) as nat, last);
    }
}

/// Lines of colours begin with a colour.
proof fn lemma_lines_begin(cells: Seq<u8>, width: nat, rows: nat, colors: Seq<u8>, tail: Seq<u8>)
    requires
        breaks_off(tail),
    ensures
        breaks_off(color_lines(cells, width, rows, colors) + tail),
    decreases colors.len(),
{
    lemma_literals();
    let text = color_lines(cells, width, rows, colors) + tail;
    if colors.len() == 0 {
        assert(text =~= tail);
    } else {
        let last = color_line(cells, width, rows, colors.last()) + tail;
        assert(last[0] == 35);
        assert(text =~= color_lines(cells, width, rows, colors.drop_last()) + last);
        lemma_lines_begin(cells, width, rows, colors.drop_last(), last);
    }
}

/// The stream that is written for a picture paints that picture: each pixel exactly
/// once, with the register of its palette colour, and nothing else; opacity does not
/// count. The stream gives the size of the picture and square pixels, and each
/// register is defined as its palette colour in percent, rounded down.
pub proof fn law_stream_paints_the_picture(
    img: &Raster,
    palette: &SixelPalette,
    x: int,
    y: int,
    register: nat,
)
    requires
        img.wf(),
    ensures
        ({
            let stream = sixel_text(img, palette);
            let body = commands(stream);
            let c = palette.colors@[register as int];
            &&& attributes(stream) == seq![1nat, 1nat, img.width as nat, img.height as nat]
            &&& painted(body, first_pen(), x, y, register) == if img.contains(x, y) && register
                == palette.lookup(img.pixel(x, y).r, img.pixel(x, y).g, img.pixel(x, y).b) {
                1nat
            } else {
                0nat
            }
            &&& defined(body, register) == if register < palette.colors@.len() {
                Some((percent(c.0), percent(c.1), percent(c.2)))
            } else {
                None
            }
        }),
{
    lemma_literals();
    let (w, h) = (img.width as nat, img.height as nat);
    let index = indexed(img, palette);
    let n = band_count(h);
    let bands = bands_text(index, w, h, n);
    let tail = utf8("\x1b\\") + utf8("\n");
    let defs = color_definitions(palette.colors@);
    let body = defs + (bands + tail);
    let stream = sixel_text(img, palette);
    assert(stream =~= header(img.width, img.height) + body);
    assert(tail[0] == 27);
    lemma_bands_begin(index, w, h, n, tail);
    assert(breaks_off(body)) by {
        lemma_definitions_begin(palette.colors@, bands + tail);
    }
    lemma_stream(img.width, img.height, body);
    let start = lemma_definitions(
        palette.colors@,
        bands + tail,
        first_pen(),
        x,
        y,
        register,
    );
    crate::raster::lemma_area(w as int, h as int);
    let end = lemma_bands(index, w, h, n, tail, start, x, y, register);
    assert(painted(tail, end, x, y, register) == 0);
    assert(defined(tail, register) is None);
    assert(rows_covered(h as int, n) == h);
    if img.contains(x, y) {
        lemma_offset(w as int, h as int, x, y);
        let k = y * w + x;
        assert(offset(w as int, x, y) == k * 4);
        assert(index[k] == palette.lookup(
            img.data@[k * 4],
            img.data@[k * 4 + 1],
            img.data@[k * 4 + 2],
        ));
    }
}

/// Definitions begin with a colour.
proof fn lemma_definitions_begin(colors: Seq<Rgb>, tail: Seq<u8>)
    requires
        breaks_off(tail),
    ensures
        breaks_off(color_definitions(colors) + tail),
    decreases colors.len(),
{
    lemma_literals();
    let text = color_definitions(colors) + tail;
    if colors.len() == 0 {
        assert(text =~= tail);
    } else {
        let last = color_definition((colors.len() - 1) as nat, colors.last()) + tail;
        assert(last[0] == 35);
        assert(text =~= color_definitions(colors.drop_last()) + last);
        lemma_definitions_begin(colors.drop_last(), last);
    }
}

/// Each register of a stream has the palette colour of its number, each primary
/// colour in percent and rounded down: no more than its share of a hundred, and less
/// than one below it. Other registers have no colour.
pub proof fn law_registers_have_the_palette_colors(
    img: &Raster,
    palette: &SixelPalette,
    register: nat,
)
    requires
        img.wf(),
    ensures
        ({
            let color = defined(commands(sixel_text(img, palette)), register);
            let c = palette.colors@[register as int];
            if register < palette.colors@.len() {
                &&& color is Some
                &&& 255 * (color->0).0 <= 100 * c.0 < 255 * (color->0).0 + 255
                &&& 255 * (color->0).1 <= 100 * c.1 < 255 * (color->0).1 + 255
                &&& 255 * (color->0).2 <= 100 * c.2 < 255 * (color->0).2 + 255
            } else {
                color is None
            }
        }),
{
    law_stream_paints_the_picture(img, palette, 0, 0, register);
}

/// A stream begins by announcing sixels on a background that stays, `ESC P 0;1 q "`,
/// and ends with `ESC \` and a line feed.
pub proof fn law_streams_are_announced(img: &Raster, palette: &SixelPalette)
    ensures
        ({
            let stream = sixel_text(img, palette);
            let n = stream.len() as int;
            &&& n >= 10
            &&& stream.take(7) == seq![27u8, 80u8, 48u8, 59u8, 49u8, 113u8, 34u8]
            &&& stream.skip(n - 3) == seq![27u8, 92u8, 10u8]
        }),
{
    lemma_literals();
    reveal_strlit("\x1bP0;1q\"1;1;");
    lemma_ascii("\x1bP0;1q\"1;1;");
    reveal_strlit("\x1b\\");
    lemma_ascii("\x1b\\");
    reveal_strlit("\n");
    lemma_ascii("\n");
    let stream = sixel_text(img, palette);
    assert(stream.take(7) =~= utf8("\x1bP0;1q\"1;1;").take(7));
    assert(utf8("\x1bP0;1q\"1;1;").take(7) =~= seq![
        27u8,
        80u8,
        48u8,
        59u8,
        49u8,
        113u8,
        34u8,
    ]);
    assert(stream.skip(stream.len() - 3) =~= utf8("\x1b\\") + utf8("\n"));
    assert(utf8("\x1b\\") + utf8("\n") =~= seq![27u8, 92u8, 10u8]);
}

} // verus!
