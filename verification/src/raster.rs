//! Pictures in memory: four bytes per pixel, row by row.
use vstd::prelude::*;

verus! {

/// A pixel with straight (not premultiplied) opacity.
#[derive(Clone, Copy, Debug, PartialEq, Eq, Structural)]
pub struct Pixel {
    pub r: u8,
    pub g: u8,
    pub b: u8,
    pub a: u8,
}

/// A picture: red, green, blue and opacity of each pixel, row by row from the
/// top left.
#[derive(Debug)]
pub struct Raster {
    pub width: u32,
    pub height: u32,
    pub data: Vec<u8>,
}

/// The number itself, or one if it is smaller.
pub open spec fn at_least_one(n: int) -> int {
    if n < 1 {
        1
    } else {
        n
    }
}

/// The bytes of a picture of this size can be addressed.
pub open spec fn addressable(width: int, height: int) -> bool {
    width * height * 4 <= isize::MAX
}

/// Place of the first byte of pixel `(x, y)` in rows of `width` pixels.
pub open spec fn offset(width: int, x: int, y: int) -> int {
    (y * width + x) * 4
}

/// The pixel in column `x` of row `y` of a buffer with rows of `width` pixels.
pub open spec fn pixel_in(data: Seq<u8>, width: int, x: int, y: int) -> Pixel {
    let i = offset(width, x, y);
    Pixel { r: data[i], g: data[i + 1], b: data[i + 2], a: data[i + 3] }
}

impl Pixel {
    pub open spec fn clear() -> Pixel {
        Pixel { r: 0, g: 0, b: 0, a: 0 }
    }
}

impl Raster {
    /// There are four bytes for each pixel.
    pub open spec fn wf(&self) -> bool {
        &&& addressable(self.width as int, self.height as int)
        &&& self.data@.len() == self.width * self.height * 4
    }

    /// The pixel in column `x` of row `y`.
    pub open spec fn pixel(&self, x: int, y: int) -> Pixel {
        pixel_in(self.data@, self.width as int, x, y)
    }

    pub open spec fn contains(&self, x: int, y: int) -> bool {
        0 <= x < self.width && 0 <= y < self.height
    }

    /// Same size and same bytes.
    pub open spec fn same(&self, other: &Raster) -> bool {
        &&& self.width == other.width
        &&& self.height == other.height
        &&& self.data@ == other.data@
    }

    /// The picture holds at least one pixel.
    pub open spec fn drawn(&self) -> bool {
        self.width > 0 && self.height > 0
    }
}

/// A pixel of the picture has its four bytes in the buffer.
pub proof fn lemma_offset(width: int, height: int, x: int, y: int)
    requires
        0 <= x < width,
        0 <= y < height,
    ensures
        0 <= offset(width, x, y),
        offset(width, x, y) + 4 <= width * height * 4,
        0 <= y * width + x < width * height,
        offset(width, x, y) == (y * width + x) * 4,
{
    assert(0 <= y * width + x) by (nonlinear_arith)
        requires
            0 <= x,
            0 <= y,
            0 <= width,
    ;
    assert(y * width + x < width * height) by (nonlinear_arith)
        requires
            0 <= x < width,
            0 <= y,
            y + 1 <= height,
    ;
}

/// Different pixels have different places.
pub proof fn lemma_offset_distinct(width: int, x1: int, y1: int, x2: int, y2: int)
    requires
        0 <= x1 < width,
        0 <= x2 < width,
        x1 != x2 || y1 != y2,
    ensures
        offset(width, x1, y1) + 4 <= offset(width, x2, y2) || offset(width, x2, y2) + 4 <= offset(
            width,
            x1,
            y1,
        ),
{
    if y1 < y2 {
        assert(y1 * width + x1 + 1 <= y2 * width + x2) by (nonlinear_arith)
            requires
                y1 + 1 <= y2,
                0 <= x1 < width,
                0 <= x2,
        ;
    } else if y2 < y1 {
        assert(y2 * width + x2 + 1 <= y1 * width + x1) by (nonlinear_arith)
            requires
                y2 + 1 <= y1,
                0 <= x2 < width,
                0 <= x1,
        ;
    }
}

/// A picture has no negative number of pixels.
pub proof fn lemma_area(w: int, h: int)
    requires
        0 <= w,
        0 <= h,
    ensures
        0 <= w * h,
{
    assert(0 <= w * h) by (nonlinear_arith)
        requires
            0 <= w,
            0 <= h,
    ;
}

/// Two pictures of one size with equal pixels have equal bytes.
pub proof fn lemma_same_pixels(a: &Raster, b: &Raster)
    requires
        a.wf(),
        b.wf(),
        a.width == b.width,
        a.height == b.height,
        forall|x: int, y: int| a.contains(x, y) ==> #[trigger] a.pixel(x, y) == b.pixel(x, y),
    ensures
        a.same(b),
{
    let w = a.width as int;
    let h = a.height as int;
    assert forall|k: int| 0 <= k < a.data@.len() implies a.data@[k] == b.data@[k] by {
        let i = k / 4;
        assert(w > 0 && h > 0) by (nonlinear_arith)
            requires
                w >= 0,
                h >= 0,
                0 <= k < w * h * 4,
        ;
        let y = i / w;
        let x = i % w;
        vstd::arithmetic::div_mod::lemma_fundamental_div_mod(i, w);
        assert(w * y == y * w) by (nonlinear_arith);
        assert(0 <= y < h) by (nonlinear_arith)
            requires
                i == y * w + x,
                0 <= x < w,
                0 <= i,
                i < w * h,
        ;
        assert(a.contains(x, y));
        assert(a.pixel(x, y) == b.pixel(x, y));
        assert(offset(w, x, y) == i * 4);
    }
    assert(a.data@ =~= b.data@);
}

/// Whether a picture of this size can be addressed.
pub fn is_addressable(width: u32, height: u32) -> (r: bool)
    ensures
        r == addressable(width as int, height as int),
{
    let w: u128 = width as u128;
    let h: u128 = height as u128;
    assert(0 <= w * h <= 0xffff_ffff * 0xffff_ffff) by (nonlinear_arith)
        requires
            0 <= w <= 0xffff_ffff,
            0 <= h <= 0xffff_ffff,
    ;
    w * h * 4 <= isize::MAX as u128
}

impl Raster {
    /// Takes a buffer of `width * height` pixels; gives nothing if the buffer
    /// has another length or the size cannot be addressed.
    pub fn from_raw(width: u32, height: u32, data: Vec<u8>) -> (r: Option<Raster>)
        ensures
            match r {
                Some(raster) => raster.wf() && raster.width == width && raster.height == height
                    && raster.data@ == data@,
                None => !addressable(width as int, height as int) || data@.len() != width * height
                    * 4,
            },
    {
        if is_addressable(width, height) {
            proof {
                lemma_area(width as int, height as int);
            }
            if data.len() == width as usize * height as usize * 4 {
                return Some(Raster { width, height, data });
            }
        }
        None
    }

    /// A picture of one colour.
    pub fn from_pixel(width: u32, height: u32, p: Pixel) -> (r: Raster)
        requires
            addressable(width as int, height as int),
        ensures
            r.wf(),
            r.width == width,
            r.height == height,
            forall|x: int, y: int| r.contains(x, y) ==> #[trigger] r.pixel(x, y) == p,
    {
        proof {
            lemma_area(width as int, height as int);
        }
        let n: usize = width as usize * height as usize;
        let mut data: Vec<u8> = Vec::with_capacity(n * 4);
        for i in 0..n
            invariant
                n * 4 <= isize::MAX,
                data@.len() == i * 4,
                forall|k: int|
                    0 <= k < data@.len() ==> #[trigger] data@[k] == if k % 4 == 0 {
                        p.r
                    } else if k % 4 == 1 {
                        p.g
                    } else if k % 4 == 2 {
                        p.b
                    } else {
                        p.a
                    },
        {
            data.push(p.r);
            data.push(p.g);
            data.push(p.b);
            data.push(p.a);
        }
        let r = Raster { width, height, data };
        proof {
            assert forall|x: int, y: int| r.contains(x, y) implies #[trigger] r.pixel(x, y) == p by {
                lemma_offset(width as int, height as int, x, y);
            }
        }
        r
    }

    /// A transparent black picture.
    pub fn new(width: u32, height: u32) -> (r: Raster)
        requires
            addressable(width as int, height as int),
        ensures
            r.wf(),
            r.width == width,
            r.height == height,
            forall|x: int, y: int| r.contains(x, y) ==> #[trigger] r.pixel(x, y) == Pixel::clear(),
    {
        Raster::from_pixel(width, height, Pixel { r: 0, g: 0, b: 0, a: 0 })
    }

    /// The same picture in a buffer of its own.
    pub fn duplicate(&self) -> (r: Raster)
        requires
            self.wf(),
        ensures
            r.wf(),
            r.same(self),
            forall|x: int, y: int|
                self.contains(x, y) ==> #[trigger] r.pixel(x, y) == self.pixel(x, y),
    {
        let data: Vec<u8> = self.data.clone();
        assert(data@ =~= self.data@);
        Raster { width: self.width, height: self.height, data }
    }

    pub fn get_pixel(&self, x: u32, y: u32) -> (p: Pixel)
        requires
            self.wf(),
            x < self.width,
            y < self.height,
        ensures
            p == self.pixel(x as int, y as int),
    {
        proof {
            lemma_area(self.width as int, self.height as int);
            lemma_offset(self.width as int, self.height as int, x as int, y as int);
            assert(y as int * self.width as int >= 0) by (nonlinear_arith)
                requires
                    y >= 0,
                    self.width >= 0,
            ;
        }
        let i: usize = (y as usize * self.width as usize + x as usize) * 4;
        Pixel { r: self.data[i], g: self.data[i + 1], b: self.data[i + 2], a: self.data[i + 3] }
    }

    pub fn put_pixel(&mut self, x: u32, y: u32, p: Pixel)
        requires
            old(self).wf(),
            x < old(self).width,
            y < old(self).height,
        ensures
            final(self).wf(),
            final(self).width == old(self).width,
            final(self).height == old(self).height,
            forall|i: int, j: int|
                old(self).contains(i, j) ==> #[trigger] final(self).pixel(i, j) == if i == x && j
                    == y {
                    p
                } else {
                    old(self).pixel(i, j)
                },
    {
        proof {
            lemma_area(self.width as int, self.height as int);
            lemma_offset(self.width as int, self.height as int, x as int, y as int);
            assert(y as int * self.width as int >= 0) by (nonlinear_arith)
                requires
                    y >= 0,
                    self.width >= 0,
            ;
        }
        let ghost before = *self;
        let k: usize = (y as usize * self.width as usize + x as usize) * 4;
        self.data.set(k, p.r);
        self.data.set(k + 1, p.g);
        self.data.set(k + 2, p.b);
        self.data.set(k + 3, p.a);
        proof {
            assert forall|i: int, j: int| before.contains(i, j) implies #[trigger] self.pixel(i, j)
                == if i == x && j == y {
                p
            } else {
                before.pixel(i, j)
            } by {
                lemma_offset(self.width as int, self.height as int, i, j);
                if i != x || j != y {
                    lemma_offset_distinct(self.width as int, i, j, x as int, y as int);
                }
            }
        }
    }

    /// Paints the columns `x0..x1` of the rows `y0..y1` in one colour.
    pub fn fill(&mut self, x0: u32, x1: u32, y0: u32, y1: u32, p: Pixel)
        requires
            old(self).wf(),
            x0 <= x1 <= old(self).width,
            y0 <= y1 <= old(self).height,
        ensures
            final(self).wf(),
            final(self).width == old(self).width,
            final(self).height == old(self).height,
            forall|i: int, j: int|
                old(self).contains(i, j) ==> #[trigger] final(self).pixel(i, j) == if x0 <= i < x1
                    && y0 <= j < y1 {
                    p
                } else {
                    old(self).pixel(i, j)
                },
    {
        let ghost before = *self;
        for y in y0..y1
            invariant
                self.wf(),
                self.width == before.width,
                self.height == before.height,
                x0 <= x1 <= self.width,
                y0 <= y1 <= self.height,
                forall|i: int, j: int|
                    before.contains(i, j) ==> #[trigger] self.pixel(i, j) == if x0 <= i < x1 && y0
                        <= j < y {
                        p
                    } else {
                        before.pixel(i, j)
                    },
        {
            for x in x0..x1
                invariant
                    self.wf(),
                    self.width == before.width,
                    self.height == before.height,
                    x1 <= self.width,
                    y0 <= y < y1 <= self.height,
                    forall|i: int, j: int|
                        before.contains(i, j) ==> #[trigger] self.pixel(i, j) == if (x0 <= i < x1
                            && y0 <= j < y) || (x0 <= i < x && j == y) {
                            p
                        } else {
                            before.pixel(i, j)
                        },
            {
                self.put_pixel(x, y, p);
            }
        }
    }
}

/// A picture is stored row by row from the top, each row from the left, and each
/// pixel as its red, its green, its blue and its opacity.
pub proof fn law_pixels_lie_in_reading_order(img: &Raster, x: int, y: int)
    requires
        img.wf(),
        0 <= x < img.width,
        0 <= y < img.height,
    ensures
        ({
            let before = y * img.width + x;
            &&& 0 <= 4 * before
            &&& 4 * before + 3 < img.data@.len()
            &&& img.pixel(x, y).r == img.data@[4 * before]
            &&& img.pixel(x, y).g == img.data@[4 * before + 1]
            &&& img.pixel(x, y).b == img.data@[4 * before + 2]
            &&& img.pixel(x, y).a == img.data@[4 * before + 3]
        }),
{
    lemma_offset(img.width as int, img.height as int, x, y);
}

/// A picture can be addressed exactly if its four bytes per pixel are no more than
/// half the address space.
pub proof fn law_addressable(width: int, height: int)
    ensures
        addressable(width, height) <==> 4 * (width * height) <= isize::MAX,
{
    assert(width * height * 4 == 4 * (width * height)) by (nonlinear_arith);
}

/// A picture has the pixels from the left and top ends to before its width and height.
/// It is the same as another one if sizes and bytes are, and empty if a side is.
pub proof fn law_pictures_are_what_they_hold(a: &Raster, b: &Raster, x: int, y: int)
    ensures
        a.contains(x, y) <==> 0 <= x && x < a.width && 0 <= y && y < a.height,
        a.same(b) <==> a.width == b.width && a.height == b.height && a.data@ == b.data@,
        a.drawn() <==> a.width != 0 && a.height != 0,
        a.wf() ==> a.data@.len() == 4 * (a.width * a.height),
        Pixel::clear() == (Pixel { r: 0, g: 0, b: 0, a: 0 }),
{
    let n = a.width * a.height;
    assert(n * 4 == 4 * n);
}

} // verus!
