//! Pictures as they are decoded, and the operations of the `image` crate that
//! the library calls.
use crate::raster::{addressable, is_addressable, lemma_area, Pixel, Raster};
use vstd::prelude::*;

verus! {

/// A decoded picture in whatever colour type its file has.
#[verifier::external_type_specification]
#[verifier::external_body]
pub struct ExDynamicImage(image::DynamicImage);

/// Width and height that `image` reports for a decoded picture.
pub uninterp spec fn decoded_size(source: image::DynamicImage) -> (u32, u32);

/// The buffer that `image` gives for a decoded picture in eight-bit RGBA. It may
/// be longer than the picture.
pub uninterp spec fn decoded_buffer(source: image::DynamicImage) -> Seq<u8>;

/// The bytes of a decoded picture in eight-bit RGBA: as much of the buffer as the
/// picture has pixels for.
pub open spec fn decoded_rgba(source: image::DynamicImage) -> Seq<u8> {
    let (width, height) = decoded_size(source);
    decoded_buffer(source).take(width * height * 4)
}

/// What `image` makes of a decoded picture when it resamples it to another size
/// with its triangle filter.
pub uninterp spec fn decoded_resized(
    source: image::DynamicImage,
    width: u32,
    height: u32,
) -> image::DynamicImage;

/// The bytes that `image` makes of an RGBA picture when it resamples it to
/// another size with its triangle filter.
pub uninterp spec fn resampled(
    width: u32,
    height: u32,
    data: Seq<u8>,
    new_width: u32,
    new_height: u32,
) -> Seq<u8>;

/// Longest side that pictures are resampled to. The middles of the pixels of such a
/// side are single-precision numbers, so that none falls outside the source and each
/// has a pixel there to take a colour from.
pub const SAMPLE_MAX: u32 = 0x80_0000;

/// A picture of `w` by `h` pixels can be resampled to `nw` by `nh`: there is room
/// for the picture on the way, which has its new height and its old width, at
/// sixteen bytes per pixel; and unless there is nothing to resample, no new side is
/// too long.
pub open spec fn can_resample(w: int, h: int, nw: int, nh: int) -> bool {
    &&& 1 <= nw
    &&& 1 <= nh
    &&& w * nh * 16 <= isize::MAX
    &&& nw * nh * 16 <= isize::MAX
    &&& w > 0 && h > 0 ==> nw <= SAMPLE_MAX && nh <= SAMPLE_MAX
}

/// The pixel that `image` makes of a partly transparent pixel on another one.
pub uninterp spec fn blended(below: Pixel, above: Pixel) -> Pixel;

/// The pixel that results from laying `above` on `below`: a clear pixel changes
/// nothing, an opaque one covers, any other one gives the mixture `mixed`.
pub open spec fn over(below: Pixel, above: Pixel, mixed: Pixel) -> Pixel {
    if above.a == 0 {
        below
    } else if above.a == 255 {
        above
    } else {
        mixed
    }
}

/// The pixel that results from laying `above` on `below`.
pub open spec fn laid_on(below: Pixel, above: Pixel) -> Pixel {
    over(below, above, blended(below, above))
}

/// `image::GenericImageView::dimensions` of a decoded picture: the contract
/// gives its result a name.
#[verifier::external_body]
pub(crate) fn decoded_dimensions(source: &image::DynamicImage) -> (r: (u32, u32))
    ensures
        r == decoded_size(*source),
{
    image::GenericImageView::dimensions(source)
}

/// `image::DynamicImage::to_rgba8`: the contract gives the buffer a name, and says
/// that it holds at least four bytes for each pixel.
#[verifier::external_body]
fn decoded_to_rgba(source: &image::DynamicImage) -> (r: Vec<u8>)
    requires
        addressable(decoded_size(*source).0 as int, decoded_size(*source).1 as int),
    ensures
        r@ == decoded_buffer(*source),
        r@.len() >= decoded_size(*source).0 * decoded_size(*source).1 * 4,
{
    source.to_rgba8().into_raw()
}

/// `image::DynamicImage::resize_exact` with the triangle filter: the contract
/// gives the result a name and says that it has the size asked for.
#[verifier::external_body]
pub(crate) fn decoded_resize(source: &image::DynamicImage, width: u32, height: u32) -> (r:
    image::DynamicImage)
    requires
        can_resample(
            decoded_size(*source).0 as int,
            decoded_size(*source).1 as int,
            width as int,
            height as int,
        ),
    ensures
        r == decoded_resized(*source, width, height),
        decoded_size(r) == (width, height),
{
    source.resize_exact(width, height, image::imageops::FilterType::Triangle)
}

/// `image::imageops::resize` with the triangle filter: the contract gives the
/// bytes a name and says that there are four for each pixel of the size asked
/// for. A picture that has that size already stays as it is.
#[verifier::external_body]
pub(crate) fn resize(img: &Raster, width: u32, height: u32) -> (r: Raster)
    requires
        img.wf(),
        can_resample(img.width as int, img.height as int, width as int, height as int),
    ensures
        r.wf(),
        r.width == width,
        r.height == height,
        r.data@ == resampled(img.width, img.height, img.data@, width, height),
        width == img.width && height == img.height ==> r.data@ == img.data@,
{
    let source = image::ImageBuffer::<image::Rgba<u8>, &[u8]>::from_raw(
        img.width,
        img.height,
        img.data.as_slice(),
    ).unwrap();
    let filter = image::imageops::FilterType::Triangle;
    let out = image::imageops::resize(&source, width, height, filter);
    Raster { width: out.width(), height: out.height(), data: out.into_raw() }
}

/// `image::imageops::overlay`: the contract says that it lays each pixel of
/// `above` that falls on `below` over the pixel there, and leaves every other
/// pixel alone. How a partly transparent pixel mixes with the one below is given
/// a name.
#[verifier::external_body]
pub(crate) fn overlay(below: Raster, above: &Raster, x: i64, y: i64) -> (r: Raster)
    requires
        below.wf(),
        above.wf(),
    ensures
        r.wf(),
        r.width == below.width,
        r.height == below.height,
        forall|i: int, j: int|
            below.contains(i, j) ==> #[trigger] r.pixel(i, j) == if above.contains(i - x, j - y) {
                over(
                    below.pixel(i, j),
                    above.pixel(i - x, j - y),
                    blended(below.pixel(i, j), above.pixel(i - x, j - y)),
                )
            } else {
                below.pixel(i, j)
            },
{
    let (w, h) = (below.width, below.height);
    let mut canvas = image::RgbaImage::from_raw(w, h, below.data).unwrap();
    let top = image::ImageBuffer::<image::Rgba<u8>, &[u8]>::from_raw(
        above.width,
        above.height,
        above.data.as_slice(),
    ).unwrap();
    image::imageops::overlay(&mut canvas, &top, x, y);
    Raster { width: w, height: h, data: canvas.into_raw() }
}

/// The pixels of a decoded picture.
pub(crate) fn read_rgba(source: &image::DynamicImage) -> (r: Raster)
    requires
        addressable(decoded_size(*source).0 as int, decoded_size(*source).1 as int),
    ensures
        r.wf(),
        (r.width, r.height) == decoded_size(*source),
        r.data@ == decoded_rgba(*source),
{
    let (width, height): (u32, u32) = decoded_dimensions(source);
    let mut data: Vec<u8> = decoded_to_rgba(source);
    proof {
        lemma_area(width as int, height as int);
    }
    data.truncate(width as usize * height as usize * 4);
    assert(data@ =~= decoded_rgba(*source));
    Raster { width, height, data }
}

/// A decoded picture together with its pixels.
pub struct Picture {
    pub source: image::DynamicImage,
    pub rgba: Raster,
}

impl Picture {
    /// The pixels are those of the decoded picture.
    pub open spec fn wf(&self) -> bool {
        &&& self.rgba.wf()
        &&& (self.rgba.width, self.rgba.height) == decoded_size(self.source)
        &&& self.rgba.data@ == decoded_rgba(self.source)
    }

    /// Takes a decoded picture, unless it is too large to be addressed.
    pub fn new(source: image::DynamicImage) -> (r: Option<Picture>)
        ensures
            match r {
                Some(p) => p.wf() && p.source == source,
                None => !addressable(decoded_size(source).0 as int, decoded_size(source).1 as int),
            },
    {
        let (width, height): (u32, u32) = decoded_dimensions(&source);
        if is_addressable(width, height) {
            let rgba = read_rgba(&source);
            Some(Picture { source, rgba })
        } else {
            None
        }
    }
}

/// An opaque pixel covers what it is laid on, a clear one leaves it, and any other
/// one is mixed with it.
pub proof fn law_pixels_are_laid_on_each_other(below: Pixel, above: Pixel)
    ensures
        above.a == 255 ==> laid_on(below, above) == above,
        above.a == 0 ==> laid_on(below, above) == below,
        0 < above.a < 255 ==> laid_on(below, above) == blended(below, above),
{
}

/// A picture has the size of what was decoded, and of its bytes the first four for
/// each pixel.
pub proof fn law_pictures_have_their_pixels(p: &Picture)
    requires
        p.wf(),
    ensures
        p.rgba.width == decoded_size(p.source).0,
        p.rgba.height == decoded_size(p.source).1,
        p.rgba.data@ == decoded_buffer(p.source).take(4 * (p.rgba.width * p.rgba.height)),
        p.rgba.wf(),
{
    let n = p.rgba.width * p.rgba.height;
    assert(n * 4 == 4 * n);
}

} // verus!
