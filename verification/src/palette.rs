//! Colour palettes for indexed output, built by median cut.
use crate::raster::Raster;
use vstd::arithmetic::div_mod::{lemma_fundamental_div_mod, lemma_fundamental_div_mod_converse};
use vstd::multiset::Multiset;
use vstd::prelude::*;

verus! {

/// An opaque colour: red, green, blue.
pub type Rgb = (u8, u8, u8);

/// Bins per channel of a palette's lookup table: the five upper bits of a
/// channel select the bin.
pub const LUT_BINS: usize = 32;

/// Entries of a palette's lookup table, one for each triple of bins.
pub const LUT_LEN: usize = 32768;

#[derive(Clone, Copy, Debug, PartialEq, Eq, Structural)]
pub enum Channel {
    Red,
    Green,
    Blue,
}

pub open spec fn channel(p: Rgb, c: Channel) -> u8 {
    match c {
        Channel::Red => p.0,
        Channel::Green => p.1,
        Channel::Blue => p.2,
    }
}

/// Lowest value that the channel takes in `pixels`.
pub open spec fn lowest(pixels: Seq<Rgb>, c: Channel) -> u8
    decreases pixels.len(),
{
    if pixels.len() == 0 {
        255
    } else {
        let rest = lowest(pixels.drop_last(), c);
        let last = channel(pixels.last(), c);
        if last < rest {
            last
        } else {
            rest
        }
    }
}

/// Highest value that the channel takes in `pixels`.
pub open spec fn highest(pixels: Seq<Rgb>, c: Channel) -> u8
    decreases pixels.len(),
{
    if pixels.len() == 0 {
        0
    } else {
        let rest = highest(pixels.drop_last(), c);
        let last = channel(pixels.last(), c);
        if last > rest {
            last
        } else {
            rest
        }
    }
}

/// Width of the interval that the channel covers in `pixels`.
pub open spec fn spread(pixels: Seq<Rgb>, c: Channel) -> int {
    highest(pixels, c) - lowest(pixels, c)
}

/// Largest spread of the three channels.
pub open spec fn range(pixels: Seq<Rgb>) -> int {
    let r = spread(pixels, Channel::Red);
    let g = spread(pixels, Channel::Green);
    let b = spread(pixels, Channel::Blue);
    if r >= g && r >= b {
        r
    } else if g >= b {
        g
    } else {
        b
    }
}

/// The channel with the largest spread; of equal ones, the first.
pub open spec fn widest_channel(pixels: Seq<Rgb>) -> Channel {
    let r = spread(pixels, Channel::Red);
    let g = spread(pixels, Channel::Green);
    let b = spread(pixels, Channel::Blue);
    if r >= g && r >= b {
        Channel::Red
    } else if g >= b {
        Channel::Green
    } else {
        Channel::Blue
    }
}

pub open spec fn sorted_by(pixels: Seq<Rgb>, c: Channel) -> bool {
    forall|i: int, j: int|
        #![trigger pixels[i], pixels[j]]
        0 <= i <= j < pixels.len() ==> channel(pixels[i], c) <= channel(pixels[j], c)
}

/// `a` and `b` are the lower and the upper half of `pixels` along its widest
/// channel. Which of several equal values fall in which half is left open.
pub open spec fn is_split(pixels: Seq<Rgb>, a: Seq<Rgb>, b: Seq<Rgb>) -> bool {
    &&& (a + b).to_multiset() == pixels.to_multiset()
    &&& sorted_by(a + b, widest_channel(pixels))
    &&& a.len() == pixels.len() / 2
}

/// How much a bucket asks to be cut: its range, or nothing if it holds fewer
/// than two pixels.
pub open spec fn weight(bucket: Seq<Rgb>) -> int {
    if bucket.len() < 2 {
        0
    } else {
        range(bucket)
    }
}

/// Bucket `i` is the first of those with the greatest weight, and can be cut.
pub open spec fn is_widest(buckets: Seq<Seq<Rgb>>, i: int) -> bool {
    &&& 0 <= i < buckets.len()
    &&& weight(buckets[i]) > 0
    &&& forall|j: int| 0 <= j < buckets.len() ==> weight(#[trigger] buckets[j]) <= weight(buckets[i])
    &&& forall|j: int| 0 <= j < i ==> weight(#[trigger] buckets[j]) < weight(buckets[i])
}

/// No bucket can be cut any further.
pub open spec fn uncuttable(buckets: Seq<Seq<Rgb>>) -> bool {
    forall|j: int| 0 <= j < buckets.len() ==> weight(#[trigger] buckets[j]) == 0
}

/// `buckets` without bucket `i`, whose place the last bucket takes.
pub open spec fn without(buckets: Seq<Seq<Rgb>>, i: int) -> Seq<Seq<Rgb>> {
    buckets.update(i, buckets.last()).drop_last()
}

/// One cut: the widest bucket leaves, and its two halves are added at the end.
pub open spec fn is_cut(before: Seq<Seq<Rgb>>, after: Seq<Seq<Rgb>>) -> bool {
    &&& after.len() == before.len() + 1
    &&& exists|i: int| #[trigger]
        is_widest(before, i) && is_split(before[i], after[after.len() - 2], after.last())
            && after.drop_last().drop_last() == without(before, i)
}

/// The buckets that a run of cuts goes through, from all samples in one bucket
/// up to the last that are cut, never more than `max_colors` of them.
pub open spec fn is_cut_run(trace: Seq<Seq<Seq<Rgb>>>, samples: Seq<Rgb>, max_colors: int) -> bool {
    &&& trace.len() > 0
    &&& trace[0] == seq![samples]
    &&& forall|k: int|
        #![trigger trace[k]]
        0 <= k < trace.len() - 1 ==> trace[k].len() < max_colors && is_cut(trace[k], trace[k + 1])
}

/// `buckets` is what median cut makes of `samples`: a run of cuts leads to it
/// and goes no further.
pub open spec fn is_median_cut(
    samples: Seq<Rgb>,
    max_colors: int,
    buckets: Seq<Seq<Rgb>>,
) -> bool {
    &&& buckets.len() >= max_colors || uncuttable(buckets)
    &&& exists|trace: Seq<Seq<Seq<Rgb>>>| #[trigger]
        is_cut_run(trace, samples, max_colors) && trace.last() == buckets
}

/// Sum of a channel over `pixels`.
pub open spec fn channel_sum(pixels: Seq<Rgb>, c: Channel) -> nat
    decreases pixels.len(),
{
    if pixels.len() == 0 {
        0
    } else {
        channel_sum(pixels.drop_last(), c) + channel(pixels.last(), c) as nat
    }
}

/// Mean colour of a bucket that is not empty, rounded down.
pub open spec fn mean(bucket: Seq<Rgb>) -> Rgb {
    (
        (channel_sum(bucket, Channel::Red) / bucket.len()) as u8,
        (channel_sum(bucket, Channel::Green) / bucket.len()) as u8,
        (channel_sum(bucket, Channel::Blue) / bucket.len()) as u8,
    )
}

/// Mean colours of the buckets that are not empty, in order.
pub open spec fn means(buckets: Seq<Seq<Rgb>>) -> Seq<Rgb>
    decreases buckets.len(),
{
    if buckets.len() == 0 {
        seq![]
    } else if buckets.last().len() == 0 {
        means(buckets.drop_last())
    } else {
        means(buckets.drop_last()).push(mean(buckets.last()))
    }
}

/// Squared distance of a colour from the point `p`.
pub open spec fn distance(color: Rgb, p: (int, int, int)) -> int {
    (p.0 - color.0) * (p.0 - color.0) + (p.1 - color.1) * (p.1 - color.1) + (p.2 - color.2) * (p.2
        - color.2)
}

/// Colour `i` is the first of those closest to `p`.
pub open spec fn is_closest(colors: Seq<Rgb>, p: (int, int, int), i: int) -> bool {
    &&& 0 <= i < colors.len()
    &&& forall|j: int| 0 <= j < colors.len() ==> distance(colors[i], p) <= distance(
        #[trigger] colors[j],
        p,
    )
    &&& forall|j: int| 0 <= j < i ==> distance(colors[i], p) < distance(#[trigger] colors[j], p)
}

/// `e` is the index of the colour closest to `p`, as a byte.
pub open spec fn is_entry(colors: Seq<Rgb>, p: (int, int, int), e: u8) -> bool {
    if colors.len() == 0 {
        e == 0
    } else {
        exists|i: int| #[trigger] is_closest(colors, p, i) && e == i % 256
    }
}

/// Midpoint of a bin.
pub open spec fn midpoint(bin: int) -> int {
    8 * bin + 4
}

/// Place in the lookup table of a triple of bins.
pub open spec fn lut_place(r: int, g: int, b: int) -> int {
    r * 1024 + g * 32 + b
}

pub open spec fn views(buckets: Seq<Vec<Rgb>>) -> Seq<Seq<Rgb>> {
    Seq::new(buckets.len(), |i: int| buckets[i]@)
}

/// A palette and a table that finds the palette colour for a given colour.
pub struct SixelPalette {
    pub colors: Vec<Rgb>,
    pub lut: Vec<u8>,
}

impl SixelPalette {
    /// The table holds, for each triple of bins, the index of the colour
    /// closest to the bins' midpoints.
    pub open spec fn wf(&self) -> bool {
        &&& self.lut@.len() == LUT_LEN
        &&& forall|r: int, g: int, b: int|
            #![trigger self.lut@[lut_place(r, g, b)]]
            0 <= r < 32 && 0 <= g < 32 && 0 <= b < 32 ==> is_entry(
                self.colors@,
                (midpoint(r), midpoint(g), midpoint(b)),
                self.lut@[lut_place(r, g, b)],
            )
    }

    /// The palette is what median cut makes of `samples`.
    pub open spec fn made_from(&self, samples: Seq<Rgb>, max_colors: int) -> bool {
        &&& self.wf()
        &&& exists|buckets: Seq<Seq<Rgb>>| #[trigger]
            is_median_cut(samples, max_colors, buckets) && self.colors@ == means(buckets)
        &&& self.colors@.len() <= max_colors || self.colors@.len() <= 1
        &&& samples.len() > 0 <==> self.colors@.len() > 0
    }

    /// The palette index of a colour.
    pub open spec fn lookup(&self, r: u8, g: u8, b: u8) -> u8 {
        self.lut@[lut_place(r as int / 8, g as int / 8, b as int / 8)]
    }
}

proof fn lemma_extremes(pixels: Seq<Rgb>, c: Channel)
    ensures
        pixels.len() > 0 ==> lowest(pixels, c) <= highest(pixels, c),
        forall|i: int|
            0 <= i < pixels.len() ==> lowest(pixels, c) <= channel(#[trigger] pixels[i], c)
                <= highest(pixels, c),
    decreases pixels.len(),
{
    if pixels.len() > 0 {
        let rest = pixels.drop_last();
        lemma_extremes(rest, c);
        assert forall|i: int| 0 <= i < pixels.len() implies lowest(pixels, c) <= channel(
            #[trigger] pixels[i],
            c,
        ) <= highest(pixels, c) by {
            if i < rest.len() {
                assert(pixels[i] == rest[i]);
            }
        }
        assert(pixels[pixels.len() - 1] == pixels.last());
    }
}

fn channel_of(p: Rgb, c: Channel) -> (r: u8)
    ensures
        r == channel(p, c),
{
    match c {
        Channel::Red => p.0,
        Channel::Green => p.1,
        Channel::Blue => p.2,
    }
}

/// Lowest and highest value of one channel.
fn extremes(pixels: &[Rgb], c: Channel) -> (r: (u8, u8))
    ensures
        r.0 == lowest(pixels@, c),
        r.1 == highest(pixels@, c),
{
    let mut lo: u8 = 255;
    let mut hi: u8 = 0;
    let n: usize = pixels.len();
    for i in 0..n
        invariant
            n == pixels@.len(),
            lo == lowest(pixels@.take(i as int), c),
            hi == highest(pixels@.take(i as int), c),
    {
        let v: u8 = channel_of(pixels[i], c);
        proof {
            assert(pixels@.take(i + 1).drop_last() =~= pixels@.take(i as int));
        }
        if v < lo {
            lo = v;
        }
        if v > hi {
            hi = v;
        }
    }
    proof {
        assert(pixels@.take(n as int) =~= pixels@);
    }
    (lo, hi)
}

/// Spreads of the three channels.
fn spreads(pixels: &[Rgb]) -> (r: (u32, u32, u32))
    requires
        pixels@.len() > 0,
    ensures
        r.0 == spread(pixels@, Channel::Red),
        r.1 == spread(pixels@, Channel::Green),
        r.2 == spread(pixels@, Channel::Blue),
{
    let r: (u8, u8) = extremes(pixels, Channel::Red);
    let g: (u8, u8) = extremes(pixels, Channel::Green);
    let b: (u8, u8) = extremes(pixels, Channel::Blue);
    proof {
        lemma_extremes(pixels@, Channel::Red);
        lemma_extremes(pixels@, Channel::Green);
        lemma_extremes(pixels@, Channel::Blue);
    }
    ((r.1 - r.0) as u32, (g.1 - g.0) as u32, (b.1 - b.0) as u32)
}

/// Largest spread of the three channels.
pub fn channel_range(pixels: &[Rgb]) -> (r: u32)
    requires
        pixels@.len() > 0,
    ensures
        r == range(pixels@),
{
    let (rd, gd, bd) = spreads(pixels);
    if rd >= gd && rd >= bd {
        rd
    } else if gd >= bd {
        gd
    } else {
        bd
    }
}

/// Sorts by one channel. Calls `sort_unstable_by_key` of the standard library's
/// slices: the result holds the same pixels, in ascending order of the key; the
/// order among equal keys is not promised.
#[verifier::external_body]
fn sort_by_channel(pixels: &mut Vec<Rgb>, c: Channel)
    ensures
        final(pixels)@.to_multiset() == old(pixels)@.to_multiset(),
        sorted_by(final(pixels)@, c),
{
    pixels.sort_unstable_by_key(|p| channel_of(*p, c));
}

/// Splits a bucket at the median of its widest channel.
pub fn split_bucket(pixels: Vec<Rgb>) -> (r: (Vec<Rgb>, Vec<Rgb>))
    requires
        pixels@.len() > 0,
    ensures
        is_split(pixels@, r.0@, r.1@),
        r.0@.len() + r.1@.len() == pixels@.len(),
{
    let (rd, gd, bd) = spreads(pixels.as_slice());
    let ghost before = pixels@;
    let mut pixels = pixels;
    if rd >= gd && rd >= bd {
        sort_by_channel(&mut pixels, Channel::Red);
    } else if gd >= bd {
        sort_by_channel(&mut pixels, Channel::Green);
    } else {
        sort_by_channel(&mut pixels, Channel::Blue);
    }
    proof {
        pixels@.to_multiset_ensures();
        before.to_multiset_ensures();
    }
    let ghost sorted = pixels@;
    let mid: usize = pixels.len() / 2;
    let b: Vec<Rgb> = pixels.split_off(mid);
    proof {
        assert(pixels@ + b@ =~= sorted);
    }
    (pixels, b)
}

/// Finds the bucket that is to be cut next, if any can be cut.
fn widest_bucket(buckets: &Vec<Vec<Rgb>>) -> (r: Option<usize>)
    ensures
        match r {
            Some(i) => is_widest(views(buckets@), i as int),
            None => uncuttable(views(buckets@)),
        },
{
    let ghost all = views(buckets@);
    let mut best_idx: usize = 0;
    let mut best_range: u32 = 0;
    let n: usize = buckets.len();
    for i in 0..n
        invariant
            n == buckets@.len(),
            all == views(buckets@),
            forall|j: int| 0 <= j < i ==> weight(#[trigger] all[j]) <= best_range,
            best_range > 0 ==> best_idx < i && weight(all[best_idx as int]) == best_range,
            best_range > 0 ==> forall|j: int|
                0 <= j < best_idx ==> weight(#[trigger] all[j]) < best_range,
    {
        let bucket: &Vec<Rgb> = &buckets[i];
        assert(all[i as int] == bucket@);
        if bucket.len() >= 2 {
            let range: u32 = channel_range(bucket.as_slice());
            if range > best_range {
                best_range = range;
                best_idx = i;
            }
        }
    }
    if best_range == 0 {
        proof {
            assert forall|j: int| 0 <= j < all.len() implies weight(#[trigger] all[j]) == 0 by {
                lemma_weight(all[j]);
            }
        }
        None
    } else {
        Some(best_idx)
    }
}

proof fn lemma_weight(bucket: Seq<Rgb>)
    ensures
        weight(bucket) >= 0,
{
    lemma_extremes(bucket, Channel::Red);
    lemma_extremes(bucket, Channel::Green);
    lemma_extremes(bucket, Channel::Blue);
}

/// Splits samples into at most `max_colors` buckets by repeated median cuts.
fn median_cut(samples: Vec<Rgb>, max_colors: usize) -> (buckets: Vec<Vec<Rgb>>)
    ensures
        is_median_cut(samples@, max_colors as int, views(buckets@)),
        1 <= buckets@.len(),
        buckets@.len() <= max_colors || buckets@.len() == 1,
        forall|i: int|
            0 <= i < buckets@.len() ==> (#[trigger] buckets@[i])@.len() <= samples@.len(),
        samples@.len() > 0 ==> forall|i: int|
            0 <= i < buckets@.len() ==> (#[trigger] buckets@[i])@.len() > 0,
{
    let ghost all = samples@;
    let mut buckets: Vec<Vec<Rgb>> = Vec::new();
    buckets.push(samples);
    let ghost mut trace: Seq<Seq<Seq<Rgb>>> = seq![views(buckets@)];
    proof {
        assert(views(buckets@) =~= seq![all]);
    }
    let mut cuttable: bool = true;
    while cuttable && buckets.len() < max_colors
        invariant
            is_cut_run(trace, all, max_colors as int),
            trace.last() == views(buckets@),
            1 <= buckets@.len(),
            buckets@.len() <= max_colors || buckets@.len() == 1,
            !cuttable ==> uncuttable(views(buckets@)),
            forall|i: int| 0 <= i < buckets@.len() ==> (#[trigger] buckets@[i])@.len() <= all.len(),
            all.len() > 0 ==> forall|i: int|
                0 <= i < buckets@.len() ==> (#[trigger] buckets@[i])@.len() > 0,
        decreases max_colors - buckets.len(), (if cuttable { 1int } else { 0int }),
    {
        match widest_bucket(&buckets) {
            None => {
                cuttable = false;
            },
            Some(i) => {
                let ghost before = buckets@;
                let ghost before_views = views(buckets@);
                assert(before_views[i as int] == before[i as int]@);
                let bucket: Vec<Rgb> = buckets.swap_remove(i);
                let ghost rest = buckets@;
                let (a, b) = split_bucket(bucket);
                buckets.push(a);
                buckets.push(b);
                proof {
                    let after = views(buckets@);
                    assert forall|k: int| 0 <= k < rest.len() implies (#[trigger] rest[k])@.len()
                        <= all.len() && (all.len() > 0 ==> rest[k]@.len() > 0) by {
                        if k == i {
                            assert(rest[k] == before[before.len() - 1]);
                        } else {
                            assert(rest[k] == before[k]);
                        }
                    }
                    assert forall|k: int| 0 <= k < buckets@.len() implies (
                    #[trigger] buckets@[k])@.len() <= all.len() && (all.len() > 0
                        ==> buckets@[k]@.len() > 0) by {
                        if k < rest.len() {
                            assert(buckets@[k] == rest[k]);
                        }
                    }
                    assert(after.drop_last().drop_last() =~= without(before_views, i as int)) by {
                        let lhs = after.drop_last().drop_last();
                        let rhs = without(before_views, i as int);
                        assert(lhs.len() == rhs.len());
                        assert forall|k: int| 0 <= k < lhs.len() implies lhs[k] == rhs[k] by {
                            assert(lhs[k] == rest[k]@);
                        }
                    }
                    assert(after[after.len() - 2] == a@);
                    assert(after.last() == b@);
                    assert(is_widest(before_views, i as int));
                    assert(is_cut(before_views, after));
                    let longer = trace.push(after);
                    assert forall|k: int| 0 <= k < longer.len() - 1 implies (
                    #[trigger] longer[k]).len() < max_colors && is_cut(longer[k], longer[k + 1]) by {
                        if k < trace.len() - 1 {
                            assert(longer[k] == trace[k]);
                            assert(longer[k + 1] == trace[k + 1]);
                        } else {
                            assert(longer[k] == trace.last());
                        }
                    }
                    trace = longer;
                }
            },
        }
    }
    buckets
}

proof fn lemma_channel_sum(pixels: Seq<Rgb>, c: Channel)
    ensures
        channel_sum(pixels, c) <= 255 * pixels.len(),
    decreases pixels.len(),
{
    if pixels.len() > 0 {
        lemma_channel_sum(pixels.drop_last(), c);
    }
}

/// Mean of one channel, rounded down.
fn channel_mean(bucket: &Vec<Rgb>, c: Channel) -> (m: u8)
    requires
        0 < bucket@.len(),
        255 * bucket@.len() <= u64::MAX,
    ensures
        m == channel_sum(bucket@, c) / bucket@.len(),
{
    let n: usize = bucket.len();
    let mut sum: u64 = 0;
    for i in 0..n
        invariant
            n == bucket@.len(),
            255 * bucket@.len() <= u64::MAX,
            sum == channel_sum(bucket@.take(i as int), c),
    {
        proof {
            assert(bucket@.take(i + 1).drop_last() =~= bucket@.take(i as int));
            lemma_channel_sum(bucket@.take(i as int), c);
        }
        sum = sum + channel_of(bucket[i], c) as u64;
    }
    proof {
        assert(bucket@.take(n as int) =~= bucket@);
        lemma_channel_sum(bucket@, c);
        assert(sum as int / (n as int) <= 255) by (nonlinear_arith)
            requires
                sum <= 255 * n,
                n > 0,
        ;
    }
    (sum / n as u64) as u8
}

/// Mean colours of the buckets that are not empty.
fn mean_colors(buckets: &Vec<Vec<Rgb>>) -> (colors: Vec<Rgb>)
    requires
        forall|i: int| 0 <= i < buckets@.len() ==> 255 * (#[trigger] buckets@[i])@.len() <= u64::MAX,
    ensures
        colors@ == means(views(buckets@)),
{
    let mut colors: Vec<Rgb> = Vec::new();
    let n: usize = buckets.len();
    let ghost all = views(buckets@);
    for i in 0..n
        invariant
            n == buckets@.len(),
            all == views(buckets@),
            forall|k: int|
                0 <= k < buckets@.len() ==> 255 * (#[trigger] buckets@[k])@.len() <= u64::MAX,
            colors@ == means(all.take(i as int)),
    {
        let bucket: &Vec<Rgb> = &buckets[i];
        proof {
            assert(all.take(i + 1).drop_last() =~= all.take(i as int));
            assert(all.take(i + 1).last() == bucket@);
        }
        if bucket.len() > 0 {
            colors.push(
                (
                    channel_mean(bucket, Channel::Red),
                    channel_mean(bucket, Channel::Green),
                    channel_mean(bucket, Channel::Blue),
                ),
            );
        }
    }
    proof {
        assert(all.take(n as int) =~= all);
    }
    colors
}

/// Index of the colour closest to a point of the colour cube, as a byte.
fn closest_color(colors: &Vec<Rgb>, p: (i32, i32, i32)) -> (e: u8)
    requires
        0 <= p.0 <= 255,
        0 <= p.1 <= 255,
        0 <= p.2 <= 255,
    ensures
        is_entry(colors@, (p.0 as int, p.1 as int, p.2 as int), e),
{
    let ghost q = (p.0 as int, p.1 as int, p.2 as int);
    let mut best: usize = 0;
    let mut best_d: i32 = i32::MAX;
    let n: usize = colors.len();
    for i in 0..n
        invariant
            n == colors@.len(),
            q == (p.0 as int, p.1 as int, p.2 as int),
            0 <= p.0 <= 255,
            0 <= p.1 <= 255,
            0 <= p.2 <= 255,
            i == 0 ==> best_d == i32::MAX,
            i > 0 ==> best < i && best_d == distance(colors@[best as int], q),
            forall|j: int| 0 <= j < i ==> best_d <= distance(#[trigger] colors@[j], q),
            forall|j: int| 0 <= j < best ==> best_d < distance(#[trigger] colors@[j], q),
    {
        let c: Rgb = colors[i];
        let dr: i32 = p.0 - c.0 as i32;
        let dg: i32 = p.1 - c.1 as i32;
        let db: i32 = p.2 - c.2 as i32;
        proof {
            lemma_square(dr as int);
            lemma_square(dg as int);
            lemma_square(db as int);
        }
        let d: i32 = dr * dr + dg * dg + db * db;
        assert(d == distance(colors@[i as int], q));
        if d < best_d {
            best_d = d;
            best = i;
        }
    }
    if n == 0 {
        0
    } else {
        assert(is_closest(colors@, q, best as int));
        (best % 256) as u8
    }
}

proof fn lemma_square(d: int)
    requires
        -255 <= d <= 255,
    ensures
        0 <= d * d <= 65025,
{
    assert(0 <= d * d <= 65025) by (nonlinear_arith)
        requires
            -255 <= d <= 255,
    ;
}

/// Builds the lookup table of a palette.
fn build_lut(colors: &Vec<Rgb>) -> (lut: Vec<u8>)
    ensures
        lut@.len() == LUT_LEN,
        forall|r: int, g: int, b: int|
            #![trigger lut@[lut_place(r, g, b)]]
            0 <= r < 32 && 0 <= g < 32 && 0 <= b < 32 ==> is_entry(
                colors@,
                (midpoint(r), midpoint(g), midpoint(b)),
                lut@[lut_place(r, g, b)],
            ),
{
    let mut lut: Vec<u8> = Vec::with_capacity(LUT_LEN);
    for li in 0..LUT_LEN
        invariant
            lut@.len() == li,
            forall|k: int|
                #![trigger lut@[k]]
                0 <= k < li ==> is_entry(
                    colors@,
                    (midpoint(k / 1024), midpoint(k / 32 % 32), midpoint(k % 32)),
                    lut@[k],
                ),
    {
        let r: i32 = (li / 1024) as i32;
        let g: i32 = (li / 32 % 32) as i32;
        let b: i32 = (li % 32) as i32;
        let e: u8 = closest_color(colors, (8 * r + 4, 8 * g + 4, 8 * b + 4));
        lut.push(e);
    }
    proof {
        assert forall|r: int, g: int, b: int|
            #![trigger lut@[lut_place(r, g, b)]]
            0 <= r < 32 && 0 <= g < 32 && 0 <= b < 32 implies is_entry(
            colors@,
            (midpoint(r), midpoint(g), midpoint(b)),
            lut@[lut_place(r, g, b)],
        ) by {
            let k = lut_place(r, g, b);
            assert(k / 1024 == r && k / 32 % 32 == g && k % 32 == b);
        }
    }
    lut
}

proof fn lemma_means_len(buckets: Seq<Seq<Rgb>>)
    ensures
        means(buckets).len() <= buckets.len(),
        buckets.len() > 0 && buckets.last().len() > 0 ==> means(buckets).len() > 0,
    decreases buckets.len(),
{
    if buckets.len() > 0 {
        lemma_means_len(buckets.drop_last());
    }
}

impl SixelPalette {
    /// Builds a palette of at most `max_colors` colours (but at least one, if
    /// there are samples) by median cut.
    pub fn from_samples(samples: Vec<Rgb>, max_colors: usize) -> (palette: SixelPalette)
        requires
            255 * samples@.len() <= u64::MAX,
        ensures
            palette.made_from(samples@, max_colors as int),
    {
        let ghost all = samples@;
        let buckets: Vec<Vec<Rgb>> = median_cut(samples, max_colors);
        let colors: Vec<Rgb> = mean_colors(&buckets);
        let lut: Vec<u8> = build_lut(&colors);
        proof {
            let vs = views(buckets@);
            lemma_means_len(vs);
            assert(is_median_cut(all, max_colors as int, vs));
            assert(vs.last() == buckets@[buckets@.len() - 1]@);
            if all.len() == 0 {
                lemma_means_of_empty(vs);
            }
        }
        SixelPalette { colors, lut }
    }

    /// A palette for one picture.
    pub fn from_image(img: &Raster, max_colors: usize) -> (palette: SixelPalette)
        requires
            img.wf(),
        ensures
            palette.made_from(picture_samples(img, 20_000), max_colors as int),
            img.drawn() <==> palette.colors@.len() > 0,
    {
        let mut samples: Vec<Rgb> = Vec::new();
        push_samples(&mut samples, img, 20_000);
        proof {
            law_samples_are_few(img, 20_000);
            assert(samples@ =~= picture_samples(img, 20_000));
        }
        SixelPalette::from_samples(samples, max_colors)
    }

    /// A palette for several pictures together.
    pub fn from_images(imgs: &[&Raster], max_colors: usize) -> (palette: SixelPalette)
        requires
            forall|i: int| 0 <= i < imgs@.len() ==> (#[trigger] imgs@[i]).wf(),
            imgs@.len() * 2_550_000 <= u64::MAX,
        ensures
            palette.made_from(all_samples(imgs@, 10_000), max_colors as int),
    {
        proof {
            lemma_all_samples_are_few(imgs@, 10_000);
        }
        SixelPalette::from_samples(sample_pixels(imgs, 10_000), max_colors)
    }

    /// The palette index of a colour.
    pub fn index(&self, r: u8, g: u8, b: u8) -> (e: u8)
        requires
            self.wf(),
        ensures
            e == self.lookup(r, g, b),
            is_entry(
                self.colors@,
                (midpoint(r as int / 8), midpoint(g as int / 8), midpoint(b as int / 8)),
                e,
            ),
            self.colors@.len() > 0 ==> e < self.colors@.len(),
    {
        let li: usize = (r as usize / 8) * 1024 + (g as usize / 8) * 32 + b as usize / 8;
        assert(li == lut_place(r as int / 8, g as int / 8, b as int / 8));
        self.lut[li]
    }
}

proof fn lemma_means_of_empty(buckets: Seq<Seq<Rgb>>)
    requires
        forall|i: int| 0 <= i < buckets.len() ==> (#[trigger] buckets[i]).len() == 0,
    ensures
        means(buckets).len() == 0,
    decreases buckets.len(),
{
    if buckets.len() > 0 {
        assert(buckets.last() == buckets[buckets.len() - 1]);
        assert forall|i: int| 0 <= i < buckets.drop_last().len() implies (
        #[trigger] buckets.drop_last()[i]).len() == 0 by {
            assert(buckets.drop_last()[i] == buckets[i]);
        }
        lemma_means_of_empty(buckets.drop_last());
    }
}

/// Distance between samples of a picture of `total` pixels: the least that
/// gives at most `max_per_image` samples.
pub open spec fn sample_step(total: nat, max_per_image: nat) -> nat {
    if total > max_per_image {
        (total + max_per_image - 1) as nat / max_per_image
    } else {
        1
    }
}

/// Number of samples taken from a picture of `total` pixels.
pub open spec fn sample_count(total: nat, max_per_image: nat) -> nat {
    let step = sample_step(total, max_per_image);
    (total + step - 1) as nat / step
}

/// The samples of one picture: every `sample_step`-th pixel, from the first on.
pub open spec fn picture_samples(img: &Raster, max_per_image: nat) -> Seq<Rgb> {
    let total = (img.width * img.height) as nat;
    let step = sample_step(total, max_per_image);
    Seq::new(
        sample_count(total, max_per_image),
        |k: int|
            (
                img.data@[k * step * 4],
                img.data@[k * step * 4 + 1],
                img.data@[k * step * 4 + 2],
            ),
    )
}

/// The samples of several pictures, one picture after the other.
pub open spec fn all_samples(imgs: Seq<&Raster>, max_per_image: nat) -> Seq<Rgb>
    decreases imgs.len(),
{
    if imgs.len() == 0 {
        seq![]
    } else {
        all_samples(imgs.drop_last(), max_per_image) + picture_samples(imgs.last(), max_per_image)
    }
}

proof fn lemma_sample_step(total: nat, max_per_image: nat)
    requires
        max_per_image > 0,
    ensures
        sample_step(total, max_per_image) >= 1,
        total <= sample_step(total, max_per_image) * max_per_image,
        sample_step(total, max_per_image) <= total || total <= max_per_image,
{
    if total > max_per_image {
        let s = (total + max_per_image - 1) as int;
        let m = max_per_image as int;
        lemma_fundamental_div_mod(s, m);
        let q = s / m;
        assert(q * m == m * q) by (nonlinear_arith);
        assert(q >= 1) by (nonlinear_arith)
            requires
                m * q + s % m == s,
                s % m < m,
                s >= m,
                m > 0,
        ;
        assert(q <= total as int) by (nonlinear_arith)
            requires
                m * q <= s,
                s == total + m - 1,
                m >= 1,
                total >= 1,
        ;
    }
}

/// At most `max_per_image` pixels of a picture are sampled, and some if it has
/// any.
pub proof fn law_samples_are_few(img: &Raster, max_per_image: nat)
    requires
        img.wf(),
        max_per_image > 0,
    ensures
        picture_samples(img, max_per_image).len() <= max_per_image,
        picture_samples(img, max_per_image).len() > 0 <==> img.drawn(),
{
    let total = (img.width * img.height) as nat;
    assert(img.width * img.height >= 0) by (nonlinear_arith)
        requires
            img.width >= 0,
            img.height >= 0,
    ;
    assert(total > 0 <==> img.drawn()) by (nonlinear_arith)
        requires
            total == img.width * img.height,
            img.width >= 0,
            img.height >= 0,
            img.drawn() == (img.width > 0 && img.height > 0),
    ;
    lemma_sample_step(total, max_per_image);
    let step = sample_step(total, max_per_image) as int;
    let s = total + step - 1;
    lemma_fundamental_div_mod(s, step);
    let n = s / step;
    let m = max_per_image as int;
    assert(n <= m) by (nonlinear_arith)
        requires
            step * n <= s,
            s == total + step - 1,
            total <= step * m,
            step >= 1,
    ;
    assert(n > 0 <==> total > 0) by (nonlinear_arith)
        requires
            step * n + s % step == s,
            0 <= s % step < step,
            s == total + step - 1,
            step >= 1,
            total >= 0,
    ;
}

proof fn lemma_all_samples_are_few(imgs: Seq<&Raster>, max_per_image: nat)
    requires
        max_per_image > 0,
        forall|i: int| 0 <= i < imgs.len() ==> (#[trigger] imgs[i]).wf(),
    ensures
        all_samples(imgs, max_per_image).len() <= imgs.len() * max_per_image,
    decreases imgs.len(),
{
    if imgs.len() > 0 {
        assert forall|i: int| 0 <= i < imgs.drop_last().len() implies (
        #[trigger] imgs.drop_last()[i]).wf() by {
            assert(imgs.drop_last()[i] == imgs[i]);
        }
        assert(imgs.last() == imgs[imgs.len() - 1]);
        lemma_all_samples_are_few(imgs.drop_last(), max_per_image);
        law_samples_are_few(imgs.last(), max_per_image);
        assert(imgs.len() * max_per_image == (imgs.len() - 1) * max_per_image + max_per_image)
            by (nonlinear_arith);
    } else {
        assert(0 * max_per_image == 0) by (nonlinear_arith);
    }
}

/// Appends the samples of one picture.
fn push_samples(out: &mut Vec<Rgb>, img: &Raster, max_per_image: usize)
    requires
        img.wf(),
        max_per_image > 0 || !img.drawn(),
    ensures
        final(out)@ == old(out)@ + picture_samples(img, max_per_image as nat),
{
    let ghost before = out@;
    let total: usize = img.data.len() / 4;
    assert(total > 0 <==> img.drawn()) by (nonlinear_arith)
        requires
            total == img.width * img.height,
            img.width >= 0,
            img.height >= 0,
            img.drawn() == (img.width > 0 && img.height > 0),
    ;
    if total == 0 {
        assert(out@ =~= before + picture_samples(img, max_per_image as nat));
        return;
    }
    let step: usize = if total > max_per_image {
        if total % max_per_image == 0 {
            total / max_per_image
        } else {
            total / max_per_image + 1
        }
    } else {
        1
    };
    proof {
        assert(total == img.width * img.height);
        lemma_sample_step(total as nat, max_per_image as nat);
        if total > max_per_image {
            let m = max_per_image as int;
            let q = total as int / m;
            let r = total as int % m;
            lemma_fundamental_div_mod(total as int, m);
            assert(q * m == m * q) by (nonlinear_arith);
            if r == 0 {
                lemma_fundamental_div_mod_converse(total + m - 1, m, q, m - 1);
            } else {
                assert((q + 1) * m == m * q + m) by (nonlinear_arith);
                lemma_fundamental_div_mod_converse(total + m - 1, m, q + 1, r - 1);
            }
        }
        assert(step == sample_step(total as nat, max_per_image as nat));
    }
    let ghost samples = picture_samples(img, max_per_image as nat);
    let mut off: usize = 0;
    let ghost mut k: int = 0;
    proof {
        assert(0 * step == 0) by (nonlinear_arith);
        assert(before + samples.take(0) =~= before);
        law_samples_are_few(img, max_per_image as nat);
    }
    let mut more: bool = true;
    while more
        invariant
            total * 4 == img.data@.len(),
            total == img.width * img.height,
            max_per_image > 0,
            step >= 1,
            step == sample_step(total as nat, max_per_image as nat),
            samples == picture_samples(img, max_per_image as nat),
            more ==> off < total && off == k * step && 0 <= k < samples.len(),
            !more ==> k == samples.len(),
            out@ == before + samples.take(k),
        decreases (if more { total - off + 1 } else { 0 }),
    {
        assert(off * 4 < img.data.len());
        let base: usize = off * 4;
        out.push((img.data[base], img.data[base + 1], img.data[base + 2]));
        proof {
            assert(samples[k] == (img.data@[base as int], img.data@[base + 1], img.data@[base + 2]));
            assert(out@ =~= before + samples.take(k + 1));
            assert((k + 1) * step == k * step + step) by (nonlinear_arith);
            // Sample k + 1 exists exactly if its pixel does.
            let s = total + step - 1;
            lemma_fundamental_div_mod(s, step as int);
            let n = samples.len() as int;
            assert(n == s / (step as int));
            if off + step < total {
                assert(k + 1 < n) by (nonlinear_arith)
                    requires
                        step * n + s % (step as int) == s,
                        s % (step as int) < step,
                        s == total + step - 1,
                        (k + 1) * step < total,
                        step >= 1,
                ;
            } else {
                assert(k + 1 >= n) by (nonlinear_arith)
                    requires
                        step * n <= s,
                        s == total + step - 1,
                        (k + 1) * step >= total,
                        step >= 1,
                ;
            }
            k = k + 1;
        }
        if step < total - off {
            off = off + step;
        } else {
            more = false;
        }
    }
    assert(samples.take(k) =~= samples);
}

/// Evenly samples at most `max_per_image` pixels from each picture. None can be asked
/// for only of pictures that have none.
pub fn sample_pixels(imgs: &[&Raster], max_per_image: usize) -> (out: Vec<Rgb>)
    requires
        forall|i: int| 0 <= i < imgs@.len() ==> (#[trigger] imgs@[i]).wf(),
        max_per_image > 0 || forall|i: int|
            0 <= i < imgs@.len() ==> !(#[trigger] imgs@[i]).drawn(),
    ensures
        out@ == all_samples(imgs@, max_per_image as nat),
{
    let mut out: Vec<Rgb> = Vec::new();
    let n: usize = imgs.len();
    for i in 0..n
        invariant
            n == imgs@.len(),
            forall|k: int| 0 <= k < imgs@.len() ==> (#[trigger] imgs@[k]).wf(),
            max_per_image > 0 || forall|k: int|
                0 <= k < imgs@.len() ==> !(#[trigger] imgs@[k]).drawn(),
            out@ == all_samples(imgs@.take(i as int), max_per_image as nat),
    {
        assert(imgs@[i as int].wf());
        push_samples(&mut out, imgs[i], max_per_image);
        assert(imgs@.take(i + 1).drop_last() =~= imgs@.take(i as int));
    }
    assert(imgs@.take(n as int) =~= imgs@);
    out
}

/// All pixels of the buckets together.
pub open spec fn contents(buckets: Seq<Seq<Rgb>>) -> Multiset<Rgb>
    decreases buckets.len(),
{
    if buckets.len() == 0 {
        Multiset::empty()
    } else {
        contents(buckets.drop_last()).add(buckets.last().to_multiset())
    }
}

proof fn lemma_contents_push(buckets: Seq<Seq<Rgb>>, bucket: Seq<Rgb>)
    ensures
        contents(buckets.push(bucket)) == contents(buckets).add(bucket.to_multiset()),
{
    assert(buckets.push(bucket).drop_last() =~= buckets);
}

proof fn lemma_contents_update(buckets: Seq<Seq<Rgb>>, i: int, bucket: Seq<Rgb>)
    requires
        0 <= i < buckets.len(),
    ensures
        contents(buckets.update(i, bucket)).add(buckets[i].to_multiset()) == contents(buckets).add(
            bucket.to_multiset(),
        ),
    decreases buckets.len(),
{
    let rest = buckets.drop_last();
    let next = buckets.update(i, bucket);
    if i == buckets.len() - 1 {
        assert(next.drop_last() =~= rest);
        assert(contents(next).add(buckets[i].to_multiset()) =~= contents(buckets).add(
            bucket.to_multiset(),
        ));
    } else {
        lemma_contents_update(rest, i, bucket);
        assert(next.drop_last() =~= rest.update(i, bucket));
        assert(next.last() == buckets.last());
        let last = buckets.last().to_multiset();
        let old_i = buckets[i].to_multiset();
        let new_i = bucket.to_multiset();
        assert(contents(next).add(old_i) =~= contents(rest.update(i, bucket)).add(old_i).add(last));
        assert(contents(buckets).add(new_i) =~= contents(rest).add(new_i).add(last));
    }
}

proof fn lemma_contents_without(buckets: Seq<Seq<Rgb>>, i: int)
    requires
        0 <= i < buckets.len(),
    ensures
        contents(without(buckets, i)).add(buckets[i].to_multiset()) == contents(buckets),
{
    let rest = buckets.drop_last();
    if i == buckets.len() - 1 {
        assert(without(buckets, i) =~= rest);
    } else {
        assert(without(buckets, i) =~= rest.update(i, buckets.last()));
        lemma_contents_update(rest, i, buckets.last());
    }
}

proof fn lemma_cut_contents(before: Seq<Seq<Rgb>>, after: Seq<Seq<Rgb>>)
    requires
        is_cut(before, after),
    ensures
        contents(after) == contents(before),
{
    let i = choose|i: int| #[trigger]
        is_widest(before, i) && is_split(before[i], after[after.len() - 2], after.last())
            && after.drop_last().drop_last() == without(before, i);
    let a = after[after.len() - 2];
    let b = after.last();
    lemma_contents_without(before, i);
    lemma_contents_push(without(before, i), a);
    lemma_contents_push(without(before, i).push(a), b);
    assert(after =~= without(before, i).push(a).push(b));
    vstd::seq_lib::lemma_multiset_commutative(a, b);
    assert(contents(after) =~= contents(before));
}

proof fn lemma_run_contents(trace: Seq<Seq<Seq<Rgb>>>, samples: Seq<Rgb>, max_colors: int, k: int)
    requires
        is_cut_run(trace, samples, max_colors),
        0 <= k < trace.len(),
    ensures
        contents(trace[k]) == samples.to_multiset(),
    decreases k,
{
    if k == 0 {
        let empty: Seq<Seq<Rgb>> = seq![];
        assert(seq![samples] =~= empty.push(samples));
        lemma_contents_push(empty, samples);
        assert(contents(trace[0]) =~= samples.to_multiset());
    } else {
        lemma_run_contents(trace, samples, max_colors, k - 1);
        assert(trace[k - 1].len() < max_colors && is_cut(trace[k - 1], trace[k - 1 + 1]));
        lemma_cut_contents(trace[k - 1], trace[k]);
    }
}

/// Median cut neither drops nor invents a sample: the buckets together hold
/// exactly the samples.
pub proof fn law_buckets_hold_the_samples(
    samples: Seq<Rgb>,
    max_colors: int,
    buckets: Seq<Seq<Rgb>>,
)
    requires
        is_median_cut(samples, max_colors, buckets),
    ensures
        contents(buckets) == samples.to_multiset(),
{
    let trace = choose|trace: Seq<Seq<Seq<Rgb>>>| #[trigger]
        is_cut_run(trace, samples, max_colors) && trace.last() == buckets;
    lemma_run_contents(trace, samples, max_colors, trace.len() - 1);
}

proof fn lemma_in_contents(buckets: Seq<Seq<Rgb>>, i: int, j: int)
    requires
        0 <= i < buckets.len(),
        0 <= j < buckets[i].len(),
    ensures
        contents(buckets).count(buckets[i][j]) > 0,
    decreases buckets.len(),
{
    if i == buckets.len() - 1 {
        buckets[i].to_multiset_ensures();
        assert(buckets[i].contains(buckets[i][j]));
    } else {
        lemma_in_contents(buckets.drop_last(), i, j);
    }
}

proof fn lemma_sum_between(pixels: Seq<Rgb>, c: Channel, lo: u8, hi: u8)
    requires
        forall|i: int| 0 <= i < pixels.len() ==> lo <= channel(#[trigger] pixels[i], c) <= hi,
    ensures
        lo * pixels.len() <= channel_sum(pixels, c) <= hi * pixels.len(),
    decreases pixels.len(),
{
    if pixels.len() > 0 {
        let rest = pixels.drop_last();
        assert forall|i: int| 0 <= i < rest.len() implies lo <= channel(#[trigger] rest[i], c)
            <= hi by {
            assert(rest[i] == pixels[i]);
        }
        assert(pixels.last() == pixels[pixels.len() - 1]);
        lemma_sum_between(rest, c, lo, hi);
        assert(lo * pixels.len() == lo * rest.len() + lo) by (nonlinear_arith)
            requires
                pixels.len() == rest.len() + 1,
        ;
        assert(hi * pixels.len() == hi * rest.len() + hi) by (nonlinear_arith)
            requires
                pixels.len() == rest.len() + 1,
        ;
    }
}

proof fn lemma_mean_between(bucket: Seq<Rgb>, c: Channel, lo: u8, hi: u8)
    requires
        bucket.len() > 0,
        forall|i: int| 0 <= i < bucket.len() ==> lo <= channel(#[trigger] bucket[i], c) <= hi,
    ensures
        lo <= channel(mean(bucket), c) <= hi,
{
    lemma_sum_between(bucket, c, lo, hi);
    let sum = channel_sum(bucket, c) as int;
    let n = bucket.len() as int;
    assert(lo as int <= sum / n <= hi as int) by (nonlinear_arith)
        requires
            lo * n <= sum <= hi * n,
            n > 0,
    ;
}

proof fn lemma_means_between(buckets: Seq<Seq<Rgb>>, c: Channel, lo: u8, hi: u8)
    requires
        forall|i: int, j: int|
            #![trigger buckets[i][j]]
            0 <= i < buckets.len() && 0 <= j < buckets[i].len() ==> lo <= channel(buckets[i][j], c)
                <= hi,
    ensures
        forall|k: int|
            0 <= k < means(buckets).len() ==> lo <= channel(#[trigger] means(buckets)[k], c) <= hi,
    decreases buckets.len(),
{
    if buckets.len() > 0 {
        let rest = buckets.drop_last();
        assert forall|i: int, j: int|
            #![trigger rest[i][j]]
            0 <= i < rest.len() && 0 <= j < rest[i].len() implies lo <= channel(rest[i][j], c)
            <= hi by {
            assert(rest[i][j] == buckets[i][j]);
        }
        lemma_means_between(rest, c, lo, hi);
        let last = buckets.last();
        if last.len() > 0 {
            assert forall|j: int| 0 <= j < last.len() implies lo <= channel(#[trigger] last[j], c)
                <= hi by {
                assert(last[j] == buckets[buckets.len() - 1][j]);
            }
            lemma_mean_between(last, c, lo, hi);
        }
        assert forall|k: int| 0 <= k < means(buckets).len() implies lo <= channel(
            #[trigger] means(buckets)[k],
            c,
        ) <= hi by {
            if k < means(rest).len() {
                assert(means(buckets)[k] == means(rest)[k]);
            } else {
                assert(means(buckets)[k] == mean(last));
            }
        }
    }
}

/// No palette colour leaves the range of the samples: in each channel it lies
/// between the lowest and the highest value that occurs.
pub proof fn law_palette_stays_in_range(
    samples: Seq<Rgb>,
    max_colors: int,
    buckets: Seq<Seq<Rgb>>,
    c: Channel,
)
    requires
        is_median_cut(samples, max_colors, buckets),
    ensures
        forall|k: int|
            0 <= k < means(buckets).len() ==> lowest(samples, c) <= channel(
                #[trigger] means(buckets)[k],
                c,
            ) <= highest(samples, c),
{
    law_buckets_hold_the_samples(samples, max_colors, buckets);
    lemma_extremes(samples, c);
    let lo = lowest(samples, c);
    let hi = highest(samples, c);
    assert forall|i: int, j: int|
        #![trigger buckets[i][j]]
        0 <= i < buckets.len() && 0 <= j < buckets[i].len() implies lo <= channel(buckets[i][j], c)
        <= hi by {
        lemma_in_contents(buckets, i, j);
        samples.to_multiset_ensures();
        let k = choose|k: int| 0 <= k < samples.len() && samples[k] == buckets[i][j];
        assert(samples[k] == buckets[i][j]);
    }
    lemma_means_between(buckets, c, lo, hi);
}

/// Samples of a single colour give a palette of exactly that colour.
pub proof fn law_single_color_is_kept(
    samples: Seq<Rgb>,
    max_colors: int,
    buckets: Seq<Seq<Rgb>>,
    color: Rgb,
)
    requires
        is_median_cut(samples, max_colors, buckets),
        samples.len() > 0,
        forall|i: int| 0 <= i < samples.len() ==> #[trigger] samples[i] == color,
    ensures
        means(buckets) == seq![color],
{
    let trace = choose|trace: Seq<Seq<Seq<Rgb>>>| #[trigger]
        is_cut_run(trace, samples, max_colors) && trace.last() == buckets;
    lemma_flat(samples, color);
    if trace.len() > 1 {
        assert(is_cut(trace[0], trace[0int + 1]));
        let i = choose|i: int| #[trigger]
            is_widest(trace[0], i) && is_split(
                trace[0][i],
                trace[1][trace[1].len() - 2],
                trace[1].last(),
            ) && trace[1].drop_last().drop_last() == without(trace[0], i);
        assert(trace[0][i] == samples);
        assert(false);
    }
    assert(buckets == seq![samples]);
    assert(buckets.last() == samples);
    assert(buckets.drop_last() =~= Seq::<Seq<Rgb>>::empty());
    reveal_with_fuel(means, 2);
    lemma_mean_between(samples, Channel::Red, color.0, color.0);
    lemma_mean_between(samples, Channel::Green, color.1, color.1);
    lemma_mean_between(samples, Channel::Blue, color.2, color.2);
    assert(means(buckets) =~= seq![color]);
}

proof fn lemma_flat(pixels: Seq<Rgb>, color: Rgb)
    requires
        pixels.len() > 0,
        forall|i: int| 0 <= i < pixels.len() ==> #[trigger] pixels[i] == color,
    ensures
        weight(pixels) == 0,
{
    lemma_flat_channel(pixels, color, Channel::Red);
    lemma_flat_channel(pixels, color, Channel::Green);
    lemma_flat_channel(pixels, color, Channel::Blue);
}

proof fn lemma_flat_channel(pixels: Seq<Rgb>, color: Rgb, c: Channel)
    requires
        pixels.len() > 0,
        forall|i: int| 0 <= i < pixels.len() ==> #[trigger] pixels[i] == color,
    ensures
        lowest(pixels, c) == channel(color, c),
        highest(pixels, c) == channel(color, c),
    decreases pixels.len(),
{
    let rest = pixels.drop_last();
    assert(pixels.last() == pixels[pixels.len() - 1]);
    reveal_with_fuel(lowest, 2);
    reveal_with_fuel(highest, 2);
    if rest.len() > 0 {
        assert forall|i: int| 0 <= i < rest.len() implies #[trigger] rest[i] == color by {
            assert(rest[i] == pixels[i]);
        }
        lemma_flat_channel(rest, color, c);
    }
}

/// The halves of a cut bucket hold as many pixels as it did, at least one each.
proof fn lemma_split_len(pixels: Seq<Rgb>, a: Seq<Rgb>, b: Seq<Rgb>)
    requires
        is_split(pixels, a, b),
        pixels.len() >= 2,
    ensures
        a.len() > 0,
        b.len() > 0,
{
    pixels.to_multiset_ensures();
    (a + b).to_multiset_ensures();
}

/// No cut leaves an empty bucket.
proof fn lemma_run_fills_buckets(
    trace: Seq<Seq<Seq<Rgb>>>,
    samples: Seq<Rgb>,
    max_colors: int,
    k: int,
)
    requires
        is_cut_run(trace, samples, max_colors),
        samples.len() > 0,
        0 <= k < trace.len(),
    ensures
        forall|i: int| 0 <= i < trace[k].len() ==> (#[trigger] trace[k][i]).len() > 0,
    decreases k,
{
    if k > 0 {
        let before = trace[k - 1];
        let after = trace[k];
        lemma_run_fills_buckets(trace, samples, max_colors, k - 1);
        assert(trace[k - 1].len() < max_colors && is_cut(trace[k - 1], trace[k - 1 + 1]));
        let w = choose|i: int| #[trigger]
            is_widest(before, i) && is_split(before[i], after[after.len() - 2], after.last())
                && after.drop_last().drop_last() == without(before, i);
        lemma_split_len(before[w], after[after.len() - 2], after.last());
        assert forall|i: int| 0 <= i < after.len() implies (#[trigger] after[i]).len() > 0 by {
            if i < after.len() - 2 {
                assert(after[i] == after.drop_last().drop_last()[i]);
                assert(after[i] == without(before, w)[i]);
                if i == w {
                    assert(after[i] == before[before.len() - 1]);
                } else {
                    assert(after[i] == before[i]);
                }
            }
        }
    }
}

/// Buckets that all hold something, and no more than one pixel each on average,
/// hold one pixel each.
proof fn lemma_crowded(buckets: Seq<Seq<Rgb>>)
    requires
        forall|i: int| 0 <= i < buckets.len() ==> (#[trigger] buckets[i]).len() > 0,
    ensures
        contents(buckets).len() >= buckets.len(),
        contents(buckets).len() == buckets.len() ==> forall|i: int|
            0 <= i < buckets.len() ==> (#[trigger] buckets[i]).len() == 1,
    decreases buckets.len(),
{
    if buckets.len() > 0 {
        let rest = buckets.drop_last();
        assert forall|i: int| 0 <= i < rest.len() implies (#[trigger] rest[i]).len() > 0 by {
            assert(rest[i] == buckets[i]);
        }
        lemma_crowded(rest);
        assert(buckets.last() == buckets[buckets.len() - 1]);
        buckets.last().to_multiset_ensures();
        assert(contents(buckets).len() == contents(rest).len() + buckets.last().len());
        if contents(buckets).len() == buckets.len() {
            assert forall|i: int| 0 <= i < buckets.len() implies (#[trigger] buckets[i]).len()
                == 1 by {
                if i < rest.len() {
                    assert(buckets[i] == rest[i]);
                }
            }
        }
    } else {
        assert(contents(buckets).len() == 0);
    }
}

/// A bucket that cannot be cut holds a single colour, which is its mean.
proof fn lemma_uncut_mean(bucket: Seq<Rgb>)
    requires
        bucket.len() > 0,
        weight(bucket) == 0,
    ensures
        forall|j: int| 0 <= j < bucket.len() ==> #[trigger] bucket[j] == mean(bucket),
{
    let color = bucket[0];
    lemma_extremes(bucket, Channel::Red);
    lemma_extremes(bucket, Channel::Green);
    lemma_extremes(bucket, Channel::Blue);
    assert forall|j: int| 0 <= j < bucket.len() implies #[trigger] bucket[j] == color by {
        assert(channel(bucket[j], Channel::Red) == channel(color, Channel::Red));
        assert(channel(bucket[j], Channel::Green) == channel(color, Channel::Green));
        assert(channel(bucket[j], Channel::Blue) == channel(color, Channel::Blue));
    }
    lemma_mean_between(bucket, Channel::Red, color.0, color.0);
    lemma_mean_between(bucket, Channel::Green, color.1, color.1);
    lemma_mean_between(bucket, Channel::Blue, color.2, color.2);
}

/// Buckets that all hold something have one mean each.
proof fn lemma_means_of_filled(buckets: Seq<Seq<Rgb>>)
    requires
        forall|i: int| 0 <= i < buckets.len() ==> (#[trigger] buckets[i]).len() > 0,
    ensures
        means(buckets).len() == buckets.len(),
        forall|i: int|
            0 <= i < buckets.len() ==> #[trigger] means(buckets)[i] == mean(buckets[i]),
    decreases buckets.len(),
{
    if buckets.len() > 0 {
        let rest = buckets.drop_last();
        assert forall|i: int| 0 <= i < rest.len() implies (#[trigger] rest[i]).len() > 0 by {
            assert(rest[i] == buckets[i]);
        }
        lemma_means_of_filled(rest);
        assert(buckets.last() == buckets[buckets.len() - 1]);
        assert forall|i: int| 0 <= i < buckets.len() implies #[trigger] means(buckets)[i] == mean(
            buckets[i],
        ) by {
            if i < rest.len() {
                assert(means(buckets)[i] == means(rest)[i]);
                assert(rest[i] == buckets[i]);
            }
        }
    }
}

/// Whatever the buckets hold is in one of them.
proof fn lemma_out_of_contents(buckets: Seq<Seq<Rgb>>, color: Rgb) -> (r: (int, int))
    requires
        contents(buckets).count(color) > 0,
    ensures
        0 <= r.0 < buckets.len(),
        0 <= r.1 < buckets[r.0].len(),
        buckets[r.0][r.1] == color,
    decreases buckets.len(),
{
    if buckets.len() == 0 {
        (0, 0)
    } else {
        let rest = buckets.drop_last();
        let last = buckets.last();
        last.to_multiset_ensures();
        if last.to_multiset().count(color) > 0 {
            assert(last.contains(color));
            (buckets.len() - 1, choose|j: int| 0 <= j < last.len() && last[j] == color)
        } else {
            let r = lemma_out_of_contents(rest, color);
            assert(rest[r.0] == buckets[r.0]);
            r
        }
    }
}

/// A palette that is not cut short loses nothing: if it has fewer colours than it
/// might, or might have one for each sample, its colours are exactly those of the
/// samples.
pub proof fn law_ample_palette_is_lossless(
    palette: &SixelPalette,
    samples: Seq<Rgb>,
    max_colors: int,
)
    requires
        palette.made_from(samples, max_colors),
        palette.colors@.len() < max_colors || samples.len() <= max_colors,
    ensures
        forall|color: Rgb|
            #![trigger palette.colors@.contains(color)]
            palette.colors@.contains(color) <==> samples.contains(color),
{
    if samples.len() > 0 {
        let buckets = choose|buckets: Seq<Seq<Rgb>>| #[trigger]
            is_median_cut(samples, max_colors, buckets) && palette.colors@ == means(buckets);
        let trace = choose|trace: Seq<Seq<Seq<Rgb>>>| #[trigger]
            is_cut_run(trace, samples, max_colors) && trace.last() == buckets;
        lemma_run_fills_buckets(trace, samples, max_colors, trace.len() - 1);
        law_buckets_hold_the_samples(samples, max_colors, buckets);
        samples.to_multiset_ensures();
        lemma_means_of_filled(buckets);
        lemma_crowded(buckets);
        assert(uncuttable(buckets));
        assert forall|color: Rgb|
            #![trigger palette.colors@.contains(color)]
            palette.colors@.contains(color) <==> samples.contains(color) by {
            if palette.colors@.contains(color) {
                let i = choose|i: int|
                    0 <= i < palette.colors@.len() && palette.colors@[i] == color;
                assert(means(buckets)[i] == mean(buckets[i]));
                lemma_uncut_mean(buckets[i]);
                assert(buckets[i][0] == color);
                lemma_in_contents(buckets, i, 0);
                assert(samples.contains(color));
            }
            if samples.contains(color) {
                let (i, j) = lemma_out_of_contents(buckets, color);
                lemma_uncut_mean(buckets[i]);
                assert(means(buckets)[i] == mean(buckets[i]));
                assert(palette.colors@[i] == color);
            }
        }
    } else {
        assert(palette.colors@.len() == 0);
    }
}

/// The red, green or blue of a colour, by its number.
pub open spec fn primary(p: Rgb, k: int) -> int {
    if k == 0 {
        p.0 as int
    } else if k == 1 {
        p.1 as int
    } else {
        p.2 as int
    }
}

/// Two of the pixels are at least `d` apart in the primary colour `k`.
pub open spec fn apart(pixels: Seq<Rgb>, k: int, d: int) -> bool {
    exists|i: int, j: int|
        0 <= i < pixels.len() && 0 <= j < pixels.len() && primary(#[trigger] pixels[i], k) - primary(
            #[trigger] pixels[j],
            k,
        ) >= d
}

/// Two of the pixels are at least `d` apart in some primary colour.
pub open spec fn far_apart(pixels: Seq<Rgb>, d: int) -> bool {
    exists|k: int| 0 <= k < 3 && #[trigger] apart(pixels, k, d)
}

/// Pixels are further apart in the primary colour `k` than in `m`.
pub open spec fn wider(pixels: Seq<Rgb>, k: int, m: int) -> bool {
    exists|d: int| #[trigger] apart(pixels, k, d) && !apart(pixels, m, d)
}

/// Pixels of `p` are further apart than any of `q`.
pub open spec fn more_spread(p: Seq<Rgb>, q: Seq<Rgb>) -> bool {
    exists|d: int| #[trigger] far_apart(p, d) && !far_apart(q, d)
}

/// `a` and `b` are the halves of `pixels` in the primary colour `k`: nothing in `a`
/// is above anything in `b`, and there is no other primary colour in which pixels
/// are further apart, nor an earlier one in which they are as far apart.
pub open spec fn are_halves(pixels: Seq<Rgb>, a: Seq<Rgb>, b: Seq<Rgb>, k: int) -> bool {
    &&& 0 <= k < 3
    &&& (a + b).to_multiset() == pixels.to_multiset()
    &&& a.len() == pixels.len() / 2
    &&& b.len() == pixels.len() - pixels.len() / 2
    &&& forall|i: int, j: int|
        0 <= i < a.len() && 0 <= j < b.len() ==> primary(#[trigger] a[i], k) <= primary(
            #[trigger] b[j],
            k,
        )
    &&& forall|m: int, d: int| 0 <= m < 3 && #[trigger] apart(pixels, m, d) ==> apart(pixels, k, d)
    &&& forall|m: int| 0 <= m < k ==> #[trigger] wider(pixels, k, m)
}

/// Bucket `i` of `before` is cut into halves, which stand at the end of `after`;
/// the last bucket takes its place and the others keep theirs. Wherever pixels of
/// another bucket are apart, pixels of this one are as far apart, and further than
/// in all the buckets before it.
pub open spec fn cuts_bucket(before: Seq<Seq<Rgb>>, after: Seq<Seq<Rgb>>, i: int) -> bool {
    let n = before.len();
    &&& 0 <= i < n
    &&& after.len() == n + 1
    &&& forall|j: int| 0 <= j < n - 1 && j != i ==> #[trigger] after[j] == before[j]
    &&& i < n - 1 ==> after[i] == before[n - 1]
    &&& exists|k: int| #[trigger] are_halves(before[i], after[n - 1], after[n as int], k)
    &&& forall|j: int, d: int|
        0 <= j < n && d > 0 && #[trigger] far_apart(before[j], d) ==> far_apart(before[i], d)
    &&& forall|j: int| 0 <= j < i ==> more_spread(before[i], #[trigger] before[j])
}

/// The steps of a median cut of `samples` into at most `max_colors` buckets: each
/// cuts the bucket in which pixels are furthest apart, and the last one leaves no
/// bucket with different pixels, unless there are as many buckets as there may be.
pub open spec fn are_cuts(
    steps: Seq<Seq<Seq<Rgb>>>,
    samples: Seq<Rgb>,
    max_colors: int,
) -> bool {
    &&& steps.len() > 0
    &&& steps[0] == seq![samples]
    &&& forall|k: int|
        0 <= k < steps.len() - 1 ==> (#[trigger] steps[k]).len() < max_colors && exists|i: int|
            #[trigger] cuts_bucket(steps[k], steps[k + 1], i)
    &&& steps.last().len() >= max_colors || forall|j: int|
        0 <= j < steps.last().len() ==> !far_apart(#[trigger] steps.last()[j], 1)
}

/// The channel that a number stands for.
spec fn numbered(k: int) -> Channel {
    if k == 0 {
        Channel::Red
    } else if k == 1 {
        Channel::Green
    } else {
        Channel::Blue
    }
}

/// The lowest and the highest value of a channel occur.
proof fn lemma_extremes_occur(pixels: Seq<Rgb>, c: Channel) -> (r: (int, int))
    requires
        pixels.len() > 0,
    ensures
        0 <= r.0 < pixels.len(),
        0 <= r.1 < pixels.len(),
        channel(pixels[r.0], c) == lowest(pixels, c),
        channel(pixels[r.1], c) == highest(pixels, c),
    decreases pixels.len(),
{
    let rest = pixels.drop_last();
    let last = pixels.len() - 1;
    assert(pixels.last() == pixels[last]);
    if rest.len() == 0 {
        assert(lowest(rest, c) == 255 && highest(rest, c) == 0);
        (last, last)
    } else {
        let (i, j) = lemma_extremes_occur(rest, c);
        assert(pixels[i] == rest[i] && pixels[j] == rest[j]);
        (
            if channel(pixels.last(), c) < lowest(rest, c) {
                last
            } else {
                i
            },
            if channel(pixels.last(), c) > highest(rest, c) {
                last
            } else {
                j
            },
        )
    }
}

/// How far pixels are apart in a primary colour is the spread of its channel.
proof fn lemma_apart(pixels: Seq<Rgb>, k: int)
    requires
        pixels.len() > 0,
        0 <= k < 3,
    ensures
        forall|d: int| #[trigger] apart(pixels, k, d) <==> d <= spread(pixels, numbered(k)),
        0 <= spread(pixels, numbered(k)),
{
    let c = numbered(k);
    lemma_extremes(pixels, c);
    let (lo, hi) = lemma_extremes_occur(pixels, c);
    assert forall|d: int| #[trigger] apart(pixels, k, d) <==> d <= spread(pixels, c) by {
        if d <= spread(pixels, c) {
            assert(primary(pixels[hi], k) - primary(pixels[lo], k) >= d);
        }
    }
}

/// How far pixels are apart is their range.
proof fn lemma_far_apart(pixels: Seq<Rgb>)
    ensures
        pixels.len() > 0 ==> forall|d: int| #[trigger] far_apart(pixels, d) <==> d <= range(pixels),
        pixels.len() == 0 ==> forall|d: int| !#[trigger] far_apart(pixels, d),
        pixels.len() == 1 ==> range(pixels) == 0,
{
    if pixels.len() > 0 {
        lemma_apart(pixels, 0);
        lemma_apart(pixels, 1);
        lemma_apart(pixels, 2);
        assert forall|d: int| #[trigger] far_apart(pixels, d) <==> d <= range(pixels) by {
            if d <= range(pixels) {
                assert(apart(pixels, 0, d) || apart(pixels, 1, d) || apart(pixels, 2, d));
            }
        }
        if pixels.len() == 1 {
            lemma_flat(pixels, pixels[0]);
            lemma_flat_channel(pixels, pixels[0], Channel::Red);
            lemma_flat_channel(pixels, pixels[0], Channel::Green);
            lemma_flat_channel(pixels, pixels[0], Channel::Blue);
        }
    }
}

/// What is split off along the widest channel are halves.
proof fn lemma_split_halves(pixels: Seq<Rgb>, a: Seq<Rgb>, b: Seq<Rgb>) -> (k: int)
    requires
        is_split(pixels, a, b),
        pixels.len() > 0,
    ensures
        are_halves(pixels, a, b, k),
{
    let c = widest_channel(pixels);
    let k: int = match c {
        Channel::Red => 0,
        Channel::Green => 1,
        Channel::Blue => 2,
    };
    lemma_apart(pixels, 0);
    lemma_apart(pixels, 1);
    lemma_apart(pixels, 2);
    pixels.to_multiset_ensures();
    (a + b).to_multiset_ensures();
    assert forall|i: int, j: int| 0 <= i < a.len() && 0 <= j < b.len() implies primary(
        #[trigger] a[i],
        k,
    ) <= primary(#[trigger] b[j], k) by {
        assert((a + b)[i] == a[i] && (a + b)[a.len() + j] == b[j]);
    }
    assert forall|m: int, d: int|
        0 <= m < 3 && #[trigger] apart(pixels, m, d) implies apart(pixels, k, d) by {
        assert(spread(pixels, numbered(m)) <= spread(pixels, numbered(k)));
    }
    assert forall|m: int| 0 <= m < k implies #[trigger] wider(pixels, k, m) by {
        assert(spread(pixels, numbered(m)) < spread(pixels, numbered(k)));
        assert(apart(pixels, k, spread(pixels, c)) && !apart(pixels, m, spread(pixels, c)));
    }
    k
}

/// A cut takes the bucket in which pixels are furthest apart.
proof fn lemma_cut_bucket(before: Seq<Seq<Rgb>>, after: Seq<Seq<Rgb>>) -> (i: int)
    requires
        is_cut(before, after),
    ensures
        cuts_bucket(before, after, i),
{
    let i = choose|i: int| #[trigger]
        is_widest(before, i) && is_split(before[i], after[after.len() - 2], after.last())
            && after.drop_last().drop_last() == without(before, i);
    let n = before.len() as int;
    let rest = after.drop_last().drop_last();
    assert forall|j: int| 0 <= j < n - 1 implies #[trigger] after[j] == without(before, i)[j] by {
        assert(after[j] == rest[j]);
    }
    let k = lemma_split_halves(before[i], after[n - 1], after[n]);
    lemma_far_apart(before[i]);
    assert forall|j: int, d: int|
        0 <= j < n && d > 0 && #[trigger] far_apart(before[j], d) implies far_apart(before[i], d) by {
        lemma_far_apart(before[j]);
        assert(weight(before[j]) <= weight(before[i]));
    }
    assert forall|j: int| 0 <= j < i implies more_spread(before[i], #[trigger] before[j]) by {
        lemma_far_apart(before[j]);
        assert(weight(before[j]) < weight(before[i]));
        let d = range(before[i]);
        assert(far_apart(before[i], d) && !far_apart(before[j], d));
    }
    i
}

/// A palette comes from cutting, again and again, the bucket in which two pixels
/// are furthest apart, at the middle of the colour in which they are. Its colours
/// are the means of the buckets that there are in the end.
pub proof fn law_widest_bucket_is_cut(palette: &SixelPalette, samples: Seq<Rgb>, max_colors: int)
    requires
        palette.made_from(samples, max_colors),
    ensures
        exists|steps: Seq<Seq<Seq<Rgb>>>| #[trigger]
            are_cuts(steps, samples, max_colors) && palette.colors@ == means(steps.last()),
{
    let buckets = choose|buckets: Seq<Seq<Rgb>>| #[trigger]
        is_median_cut(samples, max_colors, buckets) && palette.colors@ == means(buckets);
    let trace = choose|trace: Seq<Seq<Seq<Rgb>>>| #[trigger]
        is_cut_run(trace, samples, max_colors) && trace.last() == buckets;
    assert forall|k: int| 0 <= k < trace.len() - 1 implies (#[trigger] trace[k]).len() < max_colors
        && exists|i: int| #[trigger] cuts_bucket(trace[k], trace[k + 1], i) by {
        let i = lemma_cut_bucket(trace[k], trace[k + 1]);
    }
    if buckets.len() < max_colors {
        assert forall|j: int| 0 <= j < buckets.len() implies !far_apart(
            #[trigger] buckets[j],
            1,
        ) by {
            lemma_far_apart(buckets[j]);
            assert(weight(buckets[j]) == 0);
        }
    }
    assert(are_cuts(trace, samples, max_colors));
}

/// The sum of a primary colour over some pixels.
pub open spec fn total(pixels: Seq<Rgb>, k: int) -> int {
    pixels.fold_left(0int, |sum: int, p: Rgb| sum + primary(p, k))
}

proof fn lemma_total(pixels: Seq<Rgb>, k: int)
    requires
        0 <= k < 3,
    ensures
        total(pixels, k) == channel_sum(pixels, numbered(k)),
    decreases pixels.len(),
{
    if pixels.len() > 0 {
        lemma_total(pixels.drop_last(), k);
    }
}

/// Each palette colour stands for a bucket: so many times as the bucket has pixels,
/// it adds up to what they add up to in each primary colour, but for less than one
/// per pixel.
pub proof fn law_palette_colors_are_means(buckets: Seq<Seq<Rgb>>, i: int, k: int)
    requires
        forall|j: int| 0 <= j < buckets.len() ==> (#[trigger] buckets[j]).len() > 0,
        0 <= i < buckets.len(),
        0 <= k < 3,
    ensures
        means(buckets).len() == buckets.len(),
        ({
            let n = buckets[i].len();
            let sum = total(buckets[i], k);
            primary(means(buckets)[i], k) * n <= sum < primary(means(buckets)[i], k) * n + n
        }),
{
    lemma_means_of_filled(buckets);
    let bucket = buckets[i];
    let c = numbered(k);
    assert(means(buckets)[i] == mean(bucket));
    lemma_total(bucket, k);
    lemma_channel_sum(bucket, c);
    let (sum, n) = (channel_sum(bucket, c) as int, bucket.len() as int);
    let m = sum / n;
    lemma_fundamental_div_mod(sum, n);
    assert(n * m == m * n) by (nonlinear_arith);
    assert(0 <= m <= 255) by (nonlinear_arith)
        requires
            m == sum / n,
            0 <= sum <= 255 * n,
            n > 0,
    ;
    assert(primary(mean(bucket), k) == m);
}

/// The palette index of a colour belongs to a palette colour that no other one is
/// closer than: to the colour in the middle of the eight neighbouring values of each
/// primary colour. Of equally close ones the first is taken.
pub proof fn law_lookup_is_closest(palette: &SixelPalette, r: u8, g: u8, b: u8, j: int)
    requires
        palette.wf(),
        palette.colors@.len() <= 256,
        0 <= j < palette.colors@.len(),
    ensures
        ({
            let i = palette.lookup(r, g, b) as int;
            let (x, y, z) = (r - r % 8 + 4, g - g % 8 + 4, b - b % 8 + 4);
            let (p, q) = (palette.colors@[i], palette.colors@[j]);
            let to_p = (p.0 - x) * (p.0 - x) + (p.1 - y) * (p.1 - y) + (p.2 - z) * (p.2 - z);
            let to_q = (q.0 - x) * (q.0 - x) + (q.1 - y) * (q.1 - y) + (q.2 - z) * (q.2 - z);
            &&& i < palette.colors@.len()
            &&& to_p <= to_q
            &&& j < i ==> to_p < to_q
        }),
{
    let (x, y, z) = (midpoint(r as int / 8), midpoint(g as int / 8), midpoint(b as int / 8));
    let colors = palette.colors@;
    let e = palette.lookup(r, g, b);
    assert(is_entry(colors, (x, y, z), e));
    let i = choose|i: int| #[trigger] is_closest(colors, (x, y, z), i) && e == i % 256;
    let (p, q) = (colors[i], colors[j]);
    lemma_square_turns(p.0 as int, x);
    lemma_square_turns(p.1 as int, y);
    lemma_square_turns(p.2 as int, z);
    lemma_square_turns(q.0 as int, x);
    lemma_square_turns(q.1 as int, y);
    lemma_square_turns(q.2 as int, z);
    assert(distance(colors[i], (x, y, z)) <= distance(colors[j], (x, y, z)));
}

proof fn lemma_square_turns(a: int, b: int)
    ensures
        (a - b) * (a - b) == (b - a) * (b - a),
{
    assert((a - b) * (a - b) == (b - a) * (b - a)) by (nonlinear_arith);
}

/// The samples of a picture lie `step` pixels apart in reading order, from its first
/// pixel to its end. There are at most so many as asked for, and they lie no further
/// apart than that needs: with one pixel less between them there would be more.
pub proof fn law_samples_are_even(img: &Raster, max_per_image: nat) -> (step: int)
    requires
        img.wf(),
        max_per_image > 0,
    ensures
        step >= 1,
        ({
            let n = picture_samples(img, max_per_image).len();
            let pixels = img.width * img.height;
            &&& n <= max_per_image
            &&& n * step >= pixels
            &&& n > 0 ==> (n - 1) * step < pixels
            &&& step > 1 ==> max_per_image * (step - 1) < pixels
        }),
        forall|k: int|
            0 <= k < picture_samples(img, max_per_image).len()
                ==> #[trigger] picture_samples(img, max_per_image)[k] == (
                img.data@[4 * (k * step)],
                img.data@[4 * (k * step) + 1],
                img.data@[4 * (k * step) + 2],
            ),
{
    let pixels = img.width * img.height;
    assert(pixels >= 0) by (nonlinear_arith)
        requires
            pixels == img.width * img.height,
            img.width >= 0,
            img.height >= 0,
    ;
    let total = pixels as nat;
    law_samples_are_few(img, max_per_image);
    lemma_sample_step(total, max_per_image);
    let step = sample_step(total, max_per_image) as int;
    let m = max_per_image as int;
    let n = picture_samples(img, max_per_image).len() as int;
    let s = total + step - 1;
    lemma_fundamental_div_mod(s, step);
    assert(n == s / step);
    assert(n * step >= total && (n > 0 ==> (n - 1) * step < total)) by (nonlinear_arith)
        requires
            step * n + s % step == s,
            0 <= s % step < step,
            s == total + step - 1,
            step >= 1,
    ;
    if step > 1 {
        let t = total + m - 1;
        lemma_fundamental_div_mod(t, m);
        assert(m * (step - 1) < total) by (nonlinear_arith)
            requires
                m * step + t % m == t,
                0 <= t % m,
                t == total + m - 1,
                m >= 1,
        ;
    }
    step
}

/// Several pictures are sampled one after the other, each by itself.
pub proof fn law_pictures_are_sampled_in_turn(
    first: Seq<&Raster>,
    then: Seq<&Raster>,
    img: &Raster,
    max_per_image: nat,
)
    ensures
        all_samples(first + then, max_per_image) == all_samples(first, max_per_image) + all_samples(
            then,
            max_per_image,
        ),
        all_samples(seq![img], max_per_image) == picture_samples(img, max_per_image),
        all_samples(seq![], max_per_image).len() == 0,
    decreases then.len(),
{
    let one = seq![img];
    assert(one.drop_last() =~= seq![]);
    reveal_with_fuel(all_samples, 2);
    assert(all_samples(one, max_per_image) =~= picture_samples(img, max_per_image));
    if then.len() == 0 {
        assert(first + then =~= first);
        assert(all_samples(first, max_per_image) + all_samples(then, max_per_image)
            =~= all_samples(first, max_per_image));
    } else {
        law_pictures_are_sampled_in_turn(first, then.drop_last(), img, max_per_image);
        assert((first + then).drop_last() =~= first + then.drop_last());
        assert((first + then).last() == then.last());
        assert(all_samples(first + then, max_per_image) =~= all_samples(first, max_per_image)
            + all_samples(then, max_per_image));
    }
}

/// The range of some pixels is how far two of them are apart at most, in any primary
/// colour.
pub proof fn law_range_is_the_largest_distance(pixels: Seq<Rgb>, d: int)
    requires
        pixels.len() > 0,
    ensures
        d <= range(pixels) <==> far_apart(pixels, d),
{
    lemma_far_apart(pixels);
}

/// A bucket is split into halves, in the primary colour in which its pixels are
/// furthest apart.
pub proof fn law_buckets_are_split_into_halves(
    pixels: Seq<Rgb>,
    a: Seq<Rgb>,
    b: Seq<Rgb>,
) -> (k: int)
    requires
        pixels.len() > 0,
        is_split(pixels, a, b),
    ensures
        are_halves(pixels, a, b, k),
{
    lemma_split_halves(pixels, a, b)
}

} // verus!
