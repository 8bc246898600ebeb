//! Sixel output: bands of six rows, one run-length coded line per colour.
use crate::palette::{Rgb, SixelPalette};
use crate::raster::Raster;
use crate::text::{
    decimal, lemma_ascii, push_decimal, push_text, push_three_numbers, three_numbers, utf8,
};
use vstd::arithmetic::div_mod::{
    lemma_fundamental_div_mod_converse, lemma_hoist_over_denominator,
};
use vstd::arithmetic::power2::{
    lemma2_to64, lemma_pow2_adds, lemma_pow2_pos, lemma_pow2_unfold, pow2,
};
use vstd::prelude::*;
use vstd::string::*;

verus! {

/// The palette index of each pixel, row by row.
pub open spec fn indexed(img: &Raster, palette: &SixelPalette) -> Seq<u8> {
    Seq::new(
        (img.width * img.height) as nat,
        |i: int| palette.lookup(img.data@[i * 4], img.data@[i * 4 + 1], img.data@[i * 4 + 2]),
    )
}

/// The start of the stream: transparent background, square pixels, and the size
/// of the picture.
pub open spec fn header(width: u32, height: u32) -> Seq<u8> {
    utf8("\x1bP0;1q\"1;1;") + decimal(width as nat) + utf8(";") + decimal(height as nat)
}

/// A channel value in percent, rounded down.
pub open spec fn percent(v: u8) -> nat {
    (v as nat * 100) / 255
}

/// The definition of palette entry `i`.
pub open spec fn color_definition(i: nat, c: Rgb) -> Seq<u8> {
    utf8("#") + decimal(i) + utf8(";2;") + three_numbers(percent(c.0), percent(c.1), percent(c.2))
}

/// The definitions of all palette entries.
pub open spec fn color_definitions(colors: Seq<Rgb>) -> Seq<u8>
    decreases colors.len(),
{
    if colors.len() == 0 {
        seq![]
    } else {
        color_definitions(colors.drop_last()) + color_definition(
            (colors.len() - 1) as nat,
            colors.last(),
        )
    }
}

/// The colours that occur, in the order in which they occur first.
pub open spec fn first_uses(cells: Seq<u8>) -> Seq<u8>
    decreases cells.len(),
{
    if cells.len() == 0 {
        seq![]
    } else {
        let before = first_uses(cells.drop_last());
        if before.contains(cells.last()) {
            before
        } else {
            before.push(cells.last())
        }
    }
}

/// The cells of column `x` that have colour `c`, in the first `rows` rows of a
/// band, as a number whose bit `k` stands for row `k`.
pub open spec fn column_bits(cells: Seq<u8>, width: int, rows: nat, c: u8, x: int) -> nat
    decreases rows,
{
    if rows == 0 {
        0
    } else {
        column_bits(cells, width, (rows - 1) as nat, c, x) + if cells[(rows - 1) * width + x] == c {
            pow2((rows - 1) as nat)
        } else {
            0
        }
    }
}

/// The columns of a band for one colour.
pub open spec fn color_row(cells: Seq<u8>, width: nat, rows: nat, c: u8) -> Seq<u8> {
    Seq::new(width, |x: int| column_bits(cells, width as int, rows, c, x) as u8)
}

/// How many equal values a row starts with.
pub open spec fn run_length(row: Seq<u8>) -> nat
    decreases row.len(),
{
    if row.len() <= 1 {
        row.len()
    } else if row[0] == row[1] {
        1 + run_length(row.skip(1))
    } else {
        1
    }
}

/// A row as runs of equal values: how often, and which value.
pub open spec fn runs(row: Seq<u8>) -> Seq<(nat, u8)>
    decreases row.len(),
    via runs_decreases
{
    if row.len() == 0 {
        seq![]
    } else {
        seq![(run_length(row), row[0])] + runs(row.skip(run_length(row) as int))
    }
}

#[via_fn]
proof fn runs_decreases(row: Seq<u8>) {
    lemma_run_length(row);
}

pub proof fn lemma_run_length(row: Seq<u8>)
    ensures
        run_length(row) <= row.len(),
        row.len() > 0 ==> run_length(row) > 0,
        forall|i: int| 0 <= i < run_length(row) ==> #[trigger] row[i] == row[0],
        run_length(row) < row.len() ==> row[run_length(row) as int] != row[0],
    decreases row.len(),
{
    if row.len() > 1 && row[0] == row[1] {
        let rest = row.skip(1);
        lemma_run_length(rest);
        assert forall|i: int| 0 <= i < run_length(row) implies #[trigger] row[i] == row[0] by {
            if i > 0 {
                assert(rest[i - 1] == row[i]);
                assert(rest[0] == row[1]);
            }
        }
        assert(rest[0] == row[1]);
    }
}

/// A run in the stream: three or more equal values are counted, fewer are
/// written out.
pub open spec fn run_text(count: nat, v: u8) -> Seq<u8> {
    if count >= 3 {
        utf8("!") + decimal(count) + seq![(v + 63) as u8]
    } else {
        Seq::new(count, |i: int| (v + 63) as u8)
    }
}

pub open spec fn runs_text(rs: Seq<(nat, u8)>) -> Seq<u8>
    decreases rs.len(),
{
    if rs.len() == 0 {
        seq![]
    } else {
        run_text(rs[0].0, rs[0].1) + runs_text(rs.skip(1))
    }
}

/// The line of one colour in a band.
pub open spec fn color_line(cells: Seq<u8>, width: nat, rows: nat, c: u8) -> Seq<u8> {
    utf8("#") + decimal(c as nat) + runs_text(runs(color_row(cells, width, rows, c))) + utf8("$")
}

/// The lines of the given colours in a band.
pub open spec fn color_lines(cells: Seq<u8>, width: nat, rows: nat, colors: Seq<u8>) -> Seq<u8>
    decreases colors.len(),
{
    if colors.len() == 0 {
        seq![]
    } else {
        color_lines(cells, width, rows, colors.drop_last()) + color_line(
            cells,
            width,
            rows,
            colors.last(),
        )
    }
}

/// A band: a line for each colour that it uses.
pub open spec fn band_text(cells: Seq<u8>, width: nat, rows: nat) -> Seq<u8> {
    color_lines(cells, width, rows, first_uses(cells)) + utf8("-")
}

/// First row after band `i`.
pub open spec fn band_end(height: int, i: int) -> int {
    if 6 * i + 6 < height {
        6 * i + 6
    } else {
        height
    }
}

/// The cells of band `i`.
pub open spec fn band_cells(index: Seq<u8>, width: int, height: int, i: int) -> Seq<u8> {
    index.subrange(6 * i * width, band_end(height, i) * width)
}

/// The first `n` bands.
pub open spec fn bands_text(index: Seq<u8>, width: nat, height: nat, n: nat) -> Seq<u8>
    decreases n,
{
    if n == 0 {
        seq![]
    } else {
        let i = n - 1;
        bands_text(index, width, height, (n - 1) as nat) + band_text(
            band_cells(index, width as int, height as int, i),
            width,
            (band_end(height as int, i) - 6 * i) as nat,
        )
    }
}

/// Number of bands of a picture.
pub open spec fn band_count(height: nat) -> nat {
    (height + 5) / 6
}

/// The whole stream for a picture.
pub open spec fn sixel_text(img: &Raster, palette: &SixelPalette) -> Seq<u8> {
    header(img.width, img.height) + color_definitions(palette.colors@) + bands_text(
        indexed(img, palette),
        img.width as nat,
        img.height as nat,
        band_count(img.height as nat),
    ) + utf8("\x1b\\") + utf8("\n")
}

proof fn lemma_column_bits(cells: Seq<u8>, width: int, rows: nat, c: u8, x: int)
    ensures
        column_bits(cells, width, rows, c, x) < pow2(rows),
        rows <= 6 ==> pow2(rows) <= 64,
    decreases rows,
{
    lemma2_to64();
    if rows > 0 {
        lemma_column_bits(cells, width, (rows - 1) as nat, c, x);
        lemma_pow2_unfold(rows);
    }
}

proof fn lemma_column_bits_absent(cells: Seq<u8>, width: int, rows: nat, c: u8, x: int)
    requires
        0 <= x < width,
        cells.len() >= rows * width,
        !cells.contains(c),
    ensures
        column_bits(cells, width, rows, c, x) == 0,
    decreases rows,
{
    if rows > 0 {
        assert((rows - 1) * width + x < rows * width && 0 <= (rows - 1) * width && (rows - 1)
            * width <= rows * width) by (nonlinear_arith)
            requires
                0 <= x < width,
                rows >= 1,
        ;
        lemma_column_bits_absent(cells, width, (rows - 1) as nat, c, x);
        assert(cells[(rows - 1) * width + x] != c);
    }
}

proof fn lemma_first_uses(cells: Seq<u8>)
    ensures
        first_uses(cells).no_duplicates(),
        forall|c: u8| #[trigger] first_uses(cells).contains(c) <==> cells.contains(c),
        first_uses(cells).len() <= cells.len(),
    decreases cells.len(),
{
    if cells.len() > 0 {
        let rest = cells.drop_last();
        let last = cells.last();
        lemma_first_uses(rest);
        let before = first_uses(rest);
        let after = first_uses(cells);
        assert forall|c: u8| #[trigger] after.contains(c) <==> cells.contains(c) by {
            assert(cells =~= rest.push(last));
            if cells.contains(c) && c != last {
                let i = choose|i: int| 0 <= i < cells.len() && cells[i] == c;
                assert(rest[i] == c);
                assert(before.contains(c));
            }
            if before.contains(c) {
                let i = choose|i: int| 0 <= i < rest.len() && rest[i] == c;
                assert(cells[i] == c);
            }
            assert(cells[cells.len() - 1] == last);
            if !before.contains(last) {
                assert(after == before.push(last));
                assert(after[after.len() - 1] == last);
                if before.contains(c) {
                    let i = choose|i: int| 0 <= i < before.len() && before[i] == c;
                    assert(after[i] == c);
                }
                if after.contains(c) && c != last {
                    let i = choose|i: int| 0 <= i < after.len() && after[i] == c;
                    assert(before[i] == c);
                }
            }
        }
    } else {
        assert(first_uses(cells) =~= Seq::<u8>::empty());
    }
}

/// Appends the runs of a row.
fn push_runs(out: &mut Vec<u8>, row: &Vec<u8>)
    requires
        forall|i: int| 0 <= i < row@.len() ==> #[trigger] row@[i] <= 63,
    ensures
        final(out)@ == old(out)@ + runs_text(runs(row@)),
{
    let ghost before = out@;
    let n: usize = row.len();
    let mut i: usize = 0;
    proof {
        assert(row@.skip(0) =~= row@);
        assert(before + runs_text(runs(row@)) =~= before + runs_text(runs(row@.skip(0))));
    }
    while i < n
        invariant
            n == row@.len(),
            i <= n,
            forall|k: int| 0 <= k < row@.len() ==> #[trigger] row@[k] <= 63,
            out@ + runs_text(runs(row@.skip(i as int))) == before + runs_text(runs(row@)),
        decreases n - i,
    {
        let sv: u8 = row[i];
        let ghost rest = row@.skip(i as int);
        let ghost start = out@;
        let mut count: usize = 1;
        while i + count < n && row[i + count] == sv
            invariant
                n == row@.len(),
                1 <= count,
                i + count <= n,
                sv == row@[i as int],
                rest == row@.skip(i as int),
                forall|k: int| 0 <= k < count ==> #[trigger] rest[k] == sv,
            decreases n - count,
        {
            assert(rest[count as int] == row@[i + count]);
            count = count + 1;
        }
        proof {
            lemma_run_length(rest);
            let rl = run_length(rest);
            assert(rest[0] == sv);
            if count < rl {
                assert(rest[count as int] == rest[0]);
                assert(rest[count as int] == row@[i + count]);
            }
            if rl < count {
                assert(rest[rl as int] == sv);
            }
            assert(rl == count);
        }
        let ch: u8 = sv + 63;
        if count >= 3 {
            push_text(out, "!");
            push_decimal(out, count as u64);
            out.push(ch);
            assert(out@ =~= start + run_text(count as nat, sv));
        } else {
            for k in 0..count
                invariant
                    ch == sv + 63,
                    out@ == start + Seq::new(k as nat, |i: int| (sv + 63) as u8),
            {
                out.push(ch);
                assert(out@ =~= start + Seq::new((k + 1) as nat, |i: int| (sv + 63) as u8));
            }
            assert(out@ =~= start + run_text(count as nat, sv));
        }
        proof {
            let tail = runs(rest.skip(count as int));
            assert(rest.skip(count as int) =~= row@.skip(i + count));
            assert(runs(rest) == seq![(count as nat, sv)] + tail);
            assert(runs(rest).skip(1) =~= tail);
            assert(start + runs_text(runs(rest)) =~= out@ + runs_text(tail));
        }
        i = i + count;
    }
    proof {
        assert(row@.skip(i as int) =~= Seq::<u8>::empty());
        assert(out@ + runs_text(runs(row@.skip(i as int))) =~= out@);
    }
}

/// The scratch rows hold, for each colour, the bits of the first `k` rows of a
/// band, and of row `k` too in the columns before `x`.
spec fn rows_hold(bufs: Seq<Vec<u8>>, cells: Seq<u8>, width: int, k: nat, x: int) -> bool {
    forall|c: int, j: int|
        #![trigger bufs[c]@[j]]
        0 <= c < bufs.len() && 0 <= j < width ==> bufs[c]@[j] == column_bits(
            cells,
            width,
            if j < x {
                k + 1
            } else {
                k
            },
            c as u8,
            j,
        )
}

spec fn rows_shaped(bufs: Seq<Vec<u8>>, width: int) -> bool {
    forall|c: int| 0 <= c < bufs.len() ==> (#[trigger] bufs[c])@.len() == width
}

fn add_bit(bufs: &mut Vec<Vec<u8>>, c: usize, x: usize, bit: u8)
    requires
        c < old(bufs)@.len(),
        x < old(bufs)@[c as int]@.len(),
        old(bufs)@[c as int]@[x as int] + bit <= 255,
    ensures
        final(bufs)@.len() == old(bufs)@.len(),
        forall|i: int|
            0 <= i < old(bufs)@.len() ==> (#[trigger] final(bufs)@[i])@ == if i == c {
                old(bufs)@[i]@.update(x as int, (old(bufs)@[i]@[x as int] + bit) as u8)
            } else {
                old(bufs)@[i]@
            },
{
    let row = &mut bufs[c];
    let v: u8 = row[x];
    row.set(x, v + bit);
}

fn zero_fill(row: &mut Vec<u8>)
    ensures
        final(row)@.len() == old(row)@.len(),
        forall|i: int| 0 <= i < final(row)@.len() ==> #[trigger] final(row)@[i] == 0,
{
    let n: usize = row.len();
    for i in 0..n
        invariant
            row@.len() == n,
            forall|k: int| 0 <= k < i ==> #[trigger] row@[k] == 0,
    {
        row.set(i, 0);
    }
}

fn clear_row(bufs: &mut Vec<Vec<u8>>, c: usize)
    requires
        c < old(bufs)@.len(),
    ensures
        final(bufs)@.len() == old(bufs)@.len(),
        final(bufs)@[c as int]@.len() == old(bufs)@[c as int]@.len(),
        forall|j: int|
            0 <= j < final(bufs)@[c as int]@.len() ==> #[trigger] final(bufs)@[c as int]@[j] == 0,
        forall|i: int|
            0 <= i < old(bufs)@.len() && i != c ==> (#[trigger] final(bufs)@[i])@ == old(
                bufs,
            )@[i]@,
{
    zero_fill(&mut bufs[c]);
}

/// Scans the cells of a band: collects the colours in order of first use, and
/// sets their bits in the scratch rows.
fn scan_band(
    index: &Vec<u8>,
    width: usize,
    start: usize,
    rows: usize,
    bufs: &mut Vec<Vec<u8>>,
    used: &mut Vec<bool>,
    Ghost(cells): Ghost<Seq<u8>>,
) -> (list: Vec<u8>)
    requires
        rows <= 6,
        start + rows * width <= index@.len(),
        cells == index@.subrange(start as int, start + rows * width),
        old(bufs)@.len() <= 256,
        old(used)@.len() == old(bufs)@.len(),
        rows_shaped(old(bufs)@, width as int),
        rows_hold(old(bufs)@, cells, width as int, 0, 0),
        forall|c: int| 0 <= c < old(used)@.len() ==> !#[trigger] old(used)@[c],
        forall|i: int| 0 <= i < index@.len() ==> #[trigger] index@[i] < old(bufs)@.len(),
    ensures
        list@ == first_uses(cells),
        final(bufs)@.len() == old(bufs)@.len(),
        final(used)@.len() == old(used)@.len(),
        rows_shaped(final(bufs)@, width as int),
        rows_hold(final(bufs)@, cells, width as int, rows as nat, 0),
        forall|c: int|
            0 <= c < final(used)@.len() ==> #[trigger] final(used)@[c] == list@.contains(c as u8),
{
    let ghost colors = bufs@.len();
    let mut list: Vec<u8> = Vec::new();
    let mut p: usize = start;
    let mut bit: u8 = 1;
    proof {
        lemma2_to64();
        assert(cells.take(0) =~= Seq::<u8>::empty());
        assert(0 * width == 0) by (nonlinear_arith);
    }
    for k in 0..rows
        invariant
            rows <= 6,
            k < rows ==> bit == pow2(k as nat),
            bit <= 64,
            start + rows * width <= index@.len(),
            cells == index@.subrange(start as int, start + rows * width),
            bufs@.len() == colors <= 256,
            used@.len() == colors,
            rows_shaped(bufs@, width as int),
            rows_hold(bufs@, cells, width as int, k as nat, 0),
            forall|i: int| 0 <= i < index@.len() ==> #[trigger] index@[i] < colors,
            p == start + k * width,
            list@ == first_uses(cells.take(k * width)),
            forall|c: int|
                0 <= c < used@.len() ==> #[trigger] used@[c] == list@.contains(c as u8),
    {
        proof {
            assert(k * width + width <= rows * width) by (nonlinear_arith)
                requires
                    k + 1 <= rows,
            ;
            assert(0 <= k * width) by (nonlinear_arith);
            assert((k + 1) * width == k * width + width) by (nonlinear_arith);
            lemma_pow2_unfold((k + 1) as nat);
            lemma2_to64();
            assert(pow2(k as nat) <= 32);
        }
        for x in 0..width
            invariant
                rows <= 6,
                k < rows,
                bit == pow2(k as nat) <= 32,
                start + rows * width <= index@.len(),
                k * width + width <= rows * width,
                0 <= k * width,
                cells == index@.subrange(start as int, start + rows * width),
                bufs@.len() == colors <= 256,
                used@.len() == colors,
                rows_shaped(bufs@, width as int),
                rows_hold(bufs@, cells, width as int, k as nat, x as int),
                forall|i: int| 0 <= i < index@.len() ==> #[trigger] index@[i] < colors,
                p == start + k * width + x,
                list@ == first_uses(cells.take(k * width + x)),
                forall|c: int|
                    0 <= c < used@.len() ==> #[trigger] used@[c] == list@.contains(c as u8),
        {
            let c: u8 = index[p];
            let ghost m = k * width + x;
            let ghost prev = bufs@;
            let ghost prev_list = list@;
            proof {
                assert(cells[m] == c);
                assert(cells.take(m + 1).drop_last() =~= cells.take(m));
                assert(cells.take(m + 1).last() == c);
                lemma_column_bits(cells, width as int, k as nat, c, x as int);
                assert(bufs@[c as int]@[x as int] == column_bits(
                    cells,
                    width as int,
                    k as nat,
                    c,
                    x as int,
                ));
            }
            if !used[c as usize] {
                used.set(c as usize, true);
                list.push(c);
                proof {
                    assert(list@[list@.len() - 1] == c);
                    assert forall|d: int| 0 <= d < used@.len() implies #[trigger] used@[d]
                        == list@.contains(d as u8) by {
                        if d != c {
                            if prev_list.contains(d as u8) {
                                let i = choose|i: int|
                                    0 <= i < prev_list.len() && prev_list[i] == d as u8;
                                assert(list@[i] == d as u8);
                            }
                        }
                    }
                }
            }
            add_bit(bufs, c as usize, x, bit);
            proof {
                assert forall|d: int, j: int|
                    #![trigger bufs@[d]@[j]]
                    0 <= d < bufs@.len() && 0 <= j < width implies bufs@[d]@[j] == column_bits(
                    cells,
                    width as int,
                    if j < x + 1 {
                        (k + 1) as nat
                    } else {
                        k as nat
                    },
                    d as u8,
                    j,
                ) by {
                    assert(prev[d]@[j] == column_bits(
                        cells,
                        width as int,
                        if j < x {
                            (k + 1) as nat
                        } else {
                            k as nat
                        },
                        d as u8,
                        j,
                    ));
                    if j == x {
                        assert(cells[k * width + j] == c);
                    }
                }
                assert(rows_hold(bufs@, cells, width as int, k as nat, x + 1));
            }
            assert(p < index.len());
            p = p + 1;
        }
        proof {
            assert forall|d: int, j: int|
                #![trigger bufs@[d]@[j]]
                0 <= d < bufs@.len() && 0 <= j < width implies bufs@[d]@[j] == column_bits(
                cells,
                width as int,
                if j < 0 {
                    (k + 1 + 1) as nat
                } else {
                    (k + 1) as nat
                },
                d as u8,
                j,
            ) by {}
            assert(rows_hold(bufs@, cells, width as int, (k + 1) as nat, 0));
            assert(k * width + width == (k + 1) * width);
        }
        bit = bit * 2;
    }
    proof {
        assert(cells.take(rows * width) =~= cells);
    }
    list
}

/// The scratch row of a colour that is still to be written holds its bits; the
/// others are clear.
spec fn rows_pending(
    bufs: Seq<Vec<u8>>,
    cells: Seq<u8>,
    width: nat,
    rows: nat,
    pending: Seq<u8>,
) -> bool {
    forall|c: int|
        #![trigger bufs[c]]
        0 <= c < bufs.len() ==> if pending.contains(c as u8) {
            bufs[c]@ == color_row(cells, width, rows, c as u8)
        } else {
            bufs[c]@ == Seq::new(width, |x: int| 0u8)
        }
}

/// Appends a band.
fn push_band(
    out: &mut Vec<u8>,
    index: &Vec<u8>,
    width: usize,
    start: usize,
    rows: usize,
    bufs: &mut Vec<Vec<u8>>,
    used: &mut Vec<bool>,
)
    requires
        rows <= 6,
        start + rows * width <= index@.len(),
        old(bufs)@.len() <= 256,
        old(used)@.len() == old(bufs)@.len(),
        forall|c: int|
            0 <= c < old(bufs)@.len() ==> (#[trigger] old(bufs)@[c])@ == Seq::new(
                width as nat,
                |x: int| 0u8,
            ),
        forall|c: int| 0 <= c < old(used)@.len() ==> !#[trigger] old(used)@[c],
        forall|i: int| 0 <= i < index@.len() ==> #[trigger] index@[i] < old(bufs)@.len(),
    ensures
        final(out)@ == old(out)@ + band_text(
            index@.subrange(start as int, start + rows * width),
            width as nat,
            rows as nat,
        ),
        final(bufs)@.len() == old(bufs)@.len(),
        final(used)@.len() == old(used)@.len(),
        forall|c: int|
            0 <= c < final(bufs)@.len() ==> (#[trigger] final(bufs)@[c])@ == Seq::new(
                width as nat,
                |x: int| 0u8,
            ),
        forall|c: int| 0 <= c < final(used)@.len() ==> !#[trigger] final(used)@[c],
{
    let ghost before = out@;
    let ghost cells = index@.subrange(start as int, start + rows * width);
    let ghost colors = bufs@.len();
    let list: Vec<u8> = scan_band(index, width, start, rows, bufs, used, Ghost(cells));
    let n: usize = list.len();
    proof {
        lemma_first_uses(cells);
        assert(list@.skip(0) =~= list@);
        assert(list@.take(0) =~= Seq::<u8>::empty());
        assert forall|c: int|
            #![trigger bufs@[c]]
            0 <= c < bufs@.len() implies if list@.skip(0).contains(c as u8) {
            bufs@[c]@ == color_row(cells, width as nat, rows as nat, c as u8)
        } else {
            bufs@[c]@ == Seq::new(width as nat, |x: int| 0u8)
        } by {
            let row = color_row(cells, width as nat, rows as nat, c as u8);
            assert forall|j: int| 0 <= j < width implies bufs@[c]@[j] == row[j] by {
                lemma_column_bits(cells, width as int, rows as nat, c as u8, j);
            }
            assert(bufs@[c]@ =~= row);
            if !list@.skip(0).contains(c as u8) {
                assert forall|j: int| 0 <= j < width implies row[j] == 0 by {
                    lemma_column_bits_absent(cells, width as int, rows as nat, c as u8, j);
                }
                assert(row =~= Seq::new(width as nat, |x: int| 0u8));
            }
        }
        assert(before + color_lines(cells, width as nat, rows as nat, list@.take(0)) =~= before);
    }
    for t in 0..n
        invariant
            n == list@.len(),
            rows <= 6,
            list@ == first_uses(cells),
            list@.no_duplicates(),
            forall|i: int| 0 <= i < cells.len() ==> #[trigger] cells[i] < colors,
            forall|c: u8| #[trigger] list@.contains(c) <==> cells.contains(c),
            bufs@.len() == colors <= 256,
            used@.len() == colors,
            rows_pending(bufs@, cells, width as nat, rows as nat, list@.skip(t as int)),
            forall|c: int|
                0 <= c < used@.len() ==> #[trigger] used@[c] == list@.skip(t as int).contains(
                    c as u8,
                ),
            out@ == before + color_lines(cells, width as nat, rows as nat, list@.take(t as int)),
    {
        let c: u8 = list[t];
        let ghost mid = out@;
        let ghost prev = bufs@;
        proof {
            assert(list@.contains(c));
            let i = choose|i: int| 0 <= i < cells.len() && cells[i] == c;
            assert(cells[i] < colors);
            assert(list@.skip(t as int)[0] == c);
            assert(list@.skip(t as int).contains(c));
            assert(bufs@[c as int]@ == color_row(cells, width as nat, rows as nat, c));
            assert forall|j: int| 0 <= j < bufs@[c as int]@.len() implies #[trigger] bufs@[c as int]@[j]
                <= 63 by {
                lemma_column_bits(cells, width as int, rows as nat, c, j);
            }
        }
        push_text(out, "#");
        push_decimal(out, c as u64);
        push_runs(out, &bufs[c as usize]);
        push_text(out, "$");
        clear_row(bufs, c as usize);
        used.set(c as usize, false);
        proof {
            assert(out@ =~= mid + color_line(cells, width as nat, rows as nat, c));
            assert(list@.take(t + 1).drop_last() =~= list@.take(t as int));
            assert(list@.take(t + 1).last() == c);
            assert(before + color_lines(cells, width as nat, rows as nat, list@.take(t + 1))
                =~= mid + color_line(cells, width as nat, rows as nat, c));
            let now = list@.skip(t as int);
            let next = list@.skip(t + 1);
            assert forall|d: int| 0 <= d < colors implies (#[trigger] next.contains(d as u8) == (
            now.contains(d as u8) && d != c)) by {
                if next.contains(d as u8) {
                    let i = choose|i: int| 0 <= i < next.len() && next[i] == d as u8;
                    assert(now[i + 1] == d as u8);
                    assert(list@[t + 1 + i] == d as u8);
                }
                if now.contains(d as u8) && d != c {
                    let i = choose|i: int| 0 <= i < now.len() && now[i] == d as u8;
                    assert(i != 0);
                    assert(next[i - 1] == d as u8);
                }
            }
            assert forall|d: int|
                #![trigger bufs@[d]]
                0 <= d < bufs@.len() implies if next.contains(d as u8) {
                bufs@[d]@ == color_row(cells, width as nat, rows as nat, d as u8)
            } else {
                bufs@[d]@ == Seq::new(width as nat, |x: int| 0u8)
            } by {
                assert(prev[d]@.len() == width);
                if d == c {
                    assert(bufs@[d]@ =~= Seq::new(width as nat, |x: int| 0u8));
                } else {
                    assert(bufs@[d]@ == prev[d]@);
                }
            }
        }
    }
    proof {
        assert(list@.take(n as int) =~= list@);
        assert(list@.skip(n as int) =~= Seq::<u8>::empty());
    }
    let ghost mid = out@;
    push_text(out, "-");
    assert(out@ =~= before + band_text(cells, width as nat, rows as nat));
}

/// The palette index of each pixel.
fn index_picture(img: &Raster, palette: &SixelPalette) -> (index: Vec<u8>)
    requires
        img.wf(),
        palette.wf(),
        img.drawn() ==> palette.colors@.len() > 0,
    ensures
        index@ == indexed(img, palette),
        forall|i: int| 0 <= i < index@.len() ==> #[trigger] index@[i] < palette.colors@.len(),
{
    let n: usize = img.data.len() / 4;
    let mut index: Vec<u8> = Vec::with_capacity(n);
    proof {
        assert(n == img.width * img.height);
        if n > 0 {
            assert(img.drawn()) by (nonlinear_arith)
                requires
                    img.width * img.height > 0,
                    img.width >= 0,
                    img.height >= 0,
            ;
        }
    }
    for i in 0..n
        invariant
            img.wf(),
            palette.wf(),
            n > 0 ==> palette.colors@.len() > 0,
            n * 4 == img.data@.len(),
            index@.len() == i,
            forall|k: int|
                0 <= k < i ==> #[trigger] index@[k] == palette.lookup(
                    img.data@[k * 4],
                    img.data@[k * 4 + 1],
                    img.data@[k * 4 + 2],
                ) && index@[k] < palette.colors@.len(),
    {
        let e: u8 = palette.index(img.data[i * 4], img.data[i * 4 + 1], img.data[i * 4 + 2]);
        index.push(e);
    }
    assert(index@ =~= indexed(img, palette));
    index
}

/// Appends the definition of one colour.
fn push_color_definition(out: &mut Vec<u8>, i: usize, c: Rgb)
    ensures
        final(out)@ == old(out)@ + color_definition(i as nat, c),
{
    let ghost before = out@;
    push_text(out, "#");
    push_decimal(out, i as u64);
    push_text(out, ";2;");
    push_three_numbers(
        out,
        c.0 as u64 * 100 / 255,
        c.1 as u64 * 100 / 255,
        c.2 as u64 * 100 / 255,
    );
    assert(out@ =~= before + color_definition(i as nat, c));
}

/// Appends the definitions of the palette's colours.
fn push_color_definitions(out: &mut Vec<u8>, colors: &Vec<Rgb>)
    ensures
        final(out)@ == old(out)@ + color_definitions(colors@),
{
    let ghost before = out@;
    let n: usize = colors.len();
    proof {
        assert(colors@.take(0) =~= Seq::<Rgb>::empty());
        assert(before + color_definitions(colors@.take(0)) =~= before);
    }
    for i in 0..n
        invariant
            n == colors@.len(),
            out@ == before + color_definitions(colors@.take(i as int)),
    {
        let c: Rgb = colors[i];
        let ghost mid = out@;
        push_color_definition(out, i, c);
        proof {
            assert(colors@.take(i + 1).drop_last() =~= colors@.take(i as int));
            assert(out@ =~= before + color_definitions(colors@.take(i + 1)));
        }
    }
    assert(colors@.take(n as int) =~= colors@);
}

/// Writes a picture as a sixel stream, in the colours of the palette.
pub fn write_sixel(img: &Raster, palette: &SixelPalette) -> (out: Vec<u8>)
    requires
        img.wf(),
        palette.wf(),
        img.drawn() ==> palette.colors@.len() > 0,
    ensures
        out@ == sixel_text(img, palette),
{
    let index: Vec<u8> = index_picture(img, palette);
    let width: usize = img.width as usize;
    let height: usize = img.height as usize;
    let mut out: Vec<u8> = Vec::with_capacity(index.len());
    push_text(&mut out, "\x1bP0;1q\"1;1;");
    push_decimal(&mut out, img.width as u64);
    push_text(&mut out, ";");
    push_decimal(&mut out, img.height as u64);
    push_color_definitions(&mut out, &palette.colors);
    let ghost start = out@;
    proof {
        assert(start =~= header(img.width, img.height) + color_definitions(palette.colors@));
    }
    let colors: usize = if palette.colors.len() < 256 {
        palette.colors.len()
    } else {
        256
    };
    let mut bufs: Vec<Vec<u8>> = Vec::with_capacity(colors);
    let mut used: Vec<bool> = Vec::with_capacity(colors);
    for c in 0..colors
        invariant
            bufs@.len() == c,
            used@.len() == c,
            forall|k: int|
                0 <= k < c ==> (#[trigger] bufs@[k])@ == Seq::new(width as nat, |x: int| 0u8),
            forall|k: int| 0 <= k < c ==> !#[trigger] used@[k],
    {
        let mut row: Vec<u8> = Vec::new();
        row.resize(width, 0);
        assert(row@ =~= Seq::new(width as nat, |x: int| 0u8));
        bufs.push(row);
        used.push(false);
    }
    let mut top: usize = 0;
    let ghost mut n: nat = 0;
    proof {
        assert(start + bands_text(index@, width as nat, height as nat, 0) =~= start);
        assert(0 * width == 0) by (nonlinear_arith);
    }
    while top < height
        invariant
            width == img.width,
            height == img.height,
            index@.len() == width * height,
            bufs@.len() == colors <= 256,
            used@.len() == colors,
            forall|k: int|
                0 <= k < bufs@.len() ==> (#[trigger] bufs@[k])@ == Seq::new(
                    width as nat,
                    |x: int| 0u8,
                ),
            forall|k: int| 0 <= k < used@.len() ==> !#[trigger] used@[k],
            forall|i: int| 0 <= i < index@.len() ==> #[trigger] index@[i] < colors,
            top == (if 6 * n < height { 6 * n } else { height as nat }),
            n <= band_count(height as nat),
            out@ == start + bands_text(index@, width as nat, height as nat, n),
        decreases height - top,
    {
        let rows: usize = if height - top < 6 {
            height - top
        } else {
            6
        };
        let ghost mid = out@;
        proof {
            assert(top * width >= 0 && top * width <= width * height) by (nonlinear_arith)
                requires
                    top <= height,
            ;
            assert(top * width + rows * width == (top + rows) * width) by (nonlinear_arith);
            assert((top + rows) * width <= width * height) by (nonlinear_arith)
                requires
                    top + rows <= height,
            ;
            assert(band_end(height as int, n as int) == top + rows);
            assert(index.len() == width * height);
        }
        push_band(&mut out, &index, width, top * width, rows, &mut bufs, &mut used);
        proof {
            assert(band_cells(index@, width as int, height as int, n as int) =~= index@.subrange(
                (top * width) as int,
                top * width + rows * width,
            ));
            let m = (n + 1) as nat;
            assert(out@ =~= start + bands_text(index@, width as nat, height as nat, m));
            n = m;
        }
        top = top + rows;
    }
    proof {
        assert(n == band_count(height as nat));
    }
    push_text(&mut out, "\x1b\\");
    push_text(&mut out, "\n");
    assert(out@ =~= sixel_text(img, palette));
    out
}

/// The values that runs stand for.
pub open spec fn expanded(rs: Seq<(nat, u8)>) -> Seq<u8>
    decreases rs.len(),
{
    if rs.len() == 0 {
        seq![]
    } else {
        Seq::new(rs[0].0, |i: int| rs[0].1) + expanded(rs.skip(1))
    }
}

/// Run-length coding loses nothing: the runs of a row stand for that row.
pub proof fn law_runs_restore_the_row(row: Seq<u8>)
    ensures
        expanded(runs(row)) == row,
    decreases row.len(),
{
    lemma_run_length(row);
    if row.len() > 0 {
        let n = run_length(row);
        let rest = row.skip(n as int);
        law_runs_restore_the_row(rest);
        assert(runs(row).skip(1) =~= runs(rest));
        assert(expanded(runs(row)) =~= row);
    } else {
        assert(expanded(runs(row)) =~= row);
    }
}

proof fn lemma_high_bits(cells: Seq<u8>, width: int, n: nat, c: u8, x: int, k: nat)
    requires
        k < n,
    ensures
        (column_bits(cells, width, n, c, x) / pow2(k)) % 2 == (if cells[k * width + x] == c {
            1nat
        } else {
            0nat
        }),
    decreases n,
{
    let low = column_bits(cells, width, (n - 1) as nat, c, x);
    let top = column_bits(cells, width, n, c, x);
    lemma_pow2_pos(k);
    if k == n - 1 {
        lemma_column_bits(cells, width, k, c, x);
        let p = pow2(k) as int;
        if cells[k * width + x] == c {
            lemma_fundamental_div_mod_converse(top as int, p, 1, low as int);
        } else {
            lemma_fundamental_div_mod_converse(top as int, p, 0, low as int);
        }
    } else {
        lemma_high_bits(cells, width, (n - 1) as nat, c, x, k);
        let e = (n - 2 - k) as nat;
        let p = pow2(k) as int;
        lemma_pow2_adds(k, (e + 1) as nat);
        lemma_pow2_unfold((e + 1) as nat);
        let h = pow2(e) as int;
        if top != low {
            assert(top == low + p * (2 * h));
            lemma_hoist_over_denominator(low as int, 2 * h, p as nat);
            assert((2 * h) * p == p * (2 * h)) by (nonlinear_arith);
        }
    }
}

/// Every cell of a band is painted exactly once: in the row of a colour, the
/// bit of a cell is set if and only if the cell has that colour.
pub proof fn law_cells_are_painted_in_their_color(
    cells: Seq<u8>,
    width: nat,
    rows: nat,
    c: u8,
    x: int,
    k: nat,
)
    requires
        0 <= x < width,
        k < rows <= 6,
    ensures
        (color_row(cells, width, rows, c)[x] as nat / pow2(k)) % 2 == 1 <==> cells[k * width + x]
            == c,
{
    lemma_high_bits(cells, width as int, rows, c, x, k);
    lemma_column_bits(cells, width as int, rows, c, x);
}

/// The columns of a colour set no bits below the rows of the band.
pub proof fn lemma_color_row(cells: Seq<u8>, width: nat, rows: nat, c: u8)
    requires
        rows <= 6,
    ensures
        color_row(cells, width, rows, c).len() == width,
        forall|x: int|
            0 <= x < width ==> #[trigger] color_row(cells, width, rows, c)[x] < pow2(rows),
        pow2(rows) <= 64,
{
    assert forall|x: int| 0 <= x < width implies #[trigger] color_row(cells, width, rows, c)[x]
        < pow2(rows) by {
        lemma_column_bits(cells, width as int, rows, c, x);
    }
    lemma_column_bits(cells, width as int, rows, c, 0);
}

/// A band has exactly one line for each colour that occurs in it.
pub proof fn law_one_line_per_color(cells: Seq<u8>)
    ensures
        first_uses(cells).no_duplicates(),
        forall|c: u8| #[trigger] first_uses(cells).contains(c) <==> cells.contains(c),
{
    lemma_first_uses(cells);
}

/// A run goes as far as its value: neighbouring runs have different values, and none
/// is empty.
pub proof fn law_runs_are_as_long_as_can_be(row: Seq<u8>, i: int)
    requires
        0 <= i < runs(row).len(),
    ensures
        runs(row)[i].0 > 0,
        i + 1 < runs(row).len() ==> runs(row)[i].1 != runs(row)[i + 1].1,
    decreases row.len(),
{
    lemma_run_length(row);
    let n = run_length(row);
    let rest = row.skip(n as int);
    assert(runs(row).skip(1) =~= runs(rest));
    if i == 0 {
        if rest.len() > 0 {
            assert(runs(rest)[0].1 == rest[0]);
            assert(runs(row)[1] == runs(rest)[0]);
        } else {
            assert(runs(rest).len() == 0);
        }
    } else {
        law_runs_are_as_long_as_can_be(rest, i - 1);
        assert(runs(row)[i] == runs(rest)[i - 1]);
        if i + 1 < runs(row).len() {
            assert(runs(row)[i + 1] == runs(rest)[i]);
        }
    }
}

/// A run of at least three columns is an exclamation mark, their number and one
/// character; one of fewer columns is so many characters. The character is 63 above
/// the bits of the column.
pub proof fn law_long_runs_are_counted(count: nat, v: u8)
    requires
        v < 64,
    ensures
        count >= 3 ==> run_text(count, v) == seq![33u8] + decimal(count) + seq![(63 + v) as u8],
        count < 3 ==> run_text(count, v).len() == count && forall|i: int|
            0 <= i < count ==> #[trigger] run_text(count, v)[i] == 63 + v,
{
    reveal_strlit("!");
    lemma_ascii("!");
    assert(utf8("!") =~= seq![33u8]);
}

/// Colours have their lines in the order in which they occur first: more cells behind
/// those that there are only add lines at the end.
pub proof fn law_lines_come_in_order_of_use(a: Seq<u8>, b: Seq<u8>)
    ensures
        first_uses(a).is_prefix_of(first_uses(a + b)),
    decreases b.len(),
{
    if b.len() == 0 {
        assert(a + b =~= a);
    } else {
        law_lines_come_in_order_of_use(a, b.drop_last());
        assert((a + b).drop_last() =~= a + b.drop_last());
        let (p, q, r) = (first_uses(a), first_uses(a + b.drop_last()), first_uses(a + b));
        assert(q.is_prefix_of(r));
        assert(p =~= r.subrange(0, p.len() as int)) by {
            assert forall|i: int| 0 <= i < p.len() implies p[i] == r[i] by {
                assert(p[i] == q.subrange(0, p.len() as int)[i]);
                assert(q[i] == r.subrange(0, q.len() as int)[i]);
            }
        }
    }
}

} // verus!
