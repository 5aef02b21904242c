use vstd::prelude::*;
use crate::film::PartialImage;
use crate::tone::{spec_to_int, to_int};

verus! {

/// The levels of the three channels of a pixel, as they come out of gamma
/// encoding: red, green and blue.
pub type Levels = (i64, i64, i64);

/// An image of three bytes to the pixel, kept in an `ImageBuffer` of `image`.
#[verifier::external_body]
pub struct Raster {
    inner: image::RgbImage,
}

/// The width that the buffer was made with.
pub uninterp spec fn raster_width(raster: Raster) -> u32;

/// The height that the buffer was made with.
pub uninterp spec fn raster_height(raster: Raster) -> u32;

/// The bytes that the buffer holds: row after row from the top, in each row
/// pixel after pixel from the left, of each pixel red, green and blue.
pub uninterp spec fn raster_bytes(raster: Raster) -> Seq<u8>;

/// Where the first byte of the pixel in column `x` of row `y` stands in an
/// image that is `width` pixels wide.
pub open spec fn offset(x: int, y: int, width: int) -> int {
    3 * (y * width + x)
}

/// Makes a buffer by `ImageBuffer::new`, which allocates three zero bytes for
/// each pixel and panics where it cannot count them in `usize`: it counts
/// the bytes of a row first, then those of all rows.
#[verifier::external_body]
fn blank(width: u32, height: u32) -> (raster: Raster)
    requires
        3 * width <= usize::MAX,
        3 * width * height <= usize::MAX,
    ensures
        raster_width(raster) == width,
        raster_height(raster) == height,
        raster_bytes(raster) == Seq::new((3 * width * height) as nat, |i: int| 0u8),
{
    Raster { inner: image::ImageBuffer::new(width, height) }
}

/// Sets a pixel by `ImageBuffer::put_pixel`, which panics outside the image
/// and otherwise overwrites the three bytes of that pixel and nothing else.
#[verifier::external_body]
fn put(raster: &mut Raster, x: u32, y: u32, red: u8, green: u8, blue: u8)
    requires
        x < raster_width(*old(raster)),
        y < raster_height(*old(raster)),
    ensures
        raster_width(*final(raster)) == raster_width(*old(raster)),
        raster_height(*final(raster)) == raster_height(*old(raster)),
        raster_bytes(*final(raster)) == raster_bytes(*old(raster)).update(
            offset(x as int, y as int, raster_width(*old(raster)) as int),
            red,
        ).update(offset(x as int, y as int, raster_width(*old(raster)) as int) + 1, green).update(
            offset(x as int, y as int, raster_width(*old(raster)) as int) + 2,
            blue,
        ),
{
    raster.inner.put_pixel(x, y, image::Rgb([red, green, blue]));
}

/// Hands out the bytes by `ImageBuffer::into_raw`, which gives up the buffer
/// for the vector that it kept the bytes in.
#[verifier::external_body]
fn raw(raster: Raster) -> (bytes: Vec<u8>)
    ensures
        bytes@ == raster_bytes(raster),
{
    raster.inner.into_raw()
}

impl Raster {
    /// The width of the image.
    pub open spec fn width(self) -> u32 {
        raster_width(self)
    }

    /// The height of the image.
    pub open spec fn height(self) -> u32 {
        raster_height(self)
    }

    /// The bytes of the image.
    pub open spec fn view(self) -> Seq<u8> {
        raster_bytes(self)
    }

    /// Whether the image holds, for each pixel of `image`, the bytes that
    /// stand for its levels.
    pub open spec fn shows(self, image: &PartialImage<Levels>) -> bool {
        &&& self.width() == image.spec_width()
        &&& self.height() == image.spec_height()
        &&& self@.len() == 3 * self.width() * self.height()
        &&& forall|x: int, y: int|
            0 <= x < self.width() && 0 <= y < self.height() ==> {
                let at = offset(x, y, self.width() as int);
                let levels = #[trigger] image.pixel(x, y);
                &&& self@[at] == spec_to_int(levels.0)
                &&& self@[at + 1] == spec_to_int(levels.1)
                &&& self@[at + 2] == spec_to_int(levels.2)
            }
    }

    /// Gives up the image for its bytes.
    pub fn into_bytes(self) -> (bytes: Vec<u8>)
        ensures
            bytes@ == self@,
    {
        raw(self)
    }
}

/// The pixels of a row lie one behind the other, and the rows too.
pub proof fn lemma_offset_order(x: int, y: int, u: int, v: int, width: int)
    requires
        0 <= x < width,
        0 <= u < width,
        0 <= y,
        0 <= v,
        v < y || (v == y && u < x),
    ensures
        0 <= offset(u, v, width),
        offset(u, v, width) + 3 <= offset(x, y, width),
{
    if v < y {
        assert((v + 1) * width <= y * width) by (nonlinear_arith)
            requires
                v + 1 <= y,
                0 <= width,
        ;
        assert((v + 1) * width == v * width + width) by (nonlinear_arith);
    }
    assert(0 <= v * width) by (nonlinear_arith)
        requires
            0 <= v,
            0 <= width,
    ;
}

/// The last pixel ends where the image ends.
pub proof fn lemma_offset_bound(x: int, y: int, width: int, height: int)
    requires
        0 <= x < width,
        0 <= y < height,
    ensures
        0 <= offset(x, y, width),
        offset(x, y, width) + 3 <= 3 * width * height,
{
    assert((y + 1) * width <= height * width) by (nonlinear_arith)
        requires
            y + 1 <= height,
            0 <= width,
    ;
    assert((y + 1) * width == y * width + width) by (nonlinear_arith);
    assert(0 <= y * width) by (nonlinear_arith)
        requires
            0 <= y,
            0 <= width,
    ;
    assert(3 * width * height == 3 * (height * width)) by (nonlinear_arith);
}

/// Whether an image of this size can be kept as bytes: its width and height
/// fit into 32 bits, and three bytes for each pixel can be counted, in one
/// row and in all.
pub open spec fn fits(width: usize, height: usize) -> bool {
    &&& width <= u32::MAX
    &&& height <= u32::MAX
    &&& 3 * width <= usize::MAX
    &&& 3 * width * height <= usize::MAX
}

/// Makes the finished image of the levels of its pixels: each level is
/// forced into a byte.  There is an image exactly if its size fits.
pub fn rasterize(image: &PartialImage<Levels>) -> (r: Option<Raster>)
    ensures
        r.is_some() == fits(image.spec_width(), image.spec_height()),
        r.is_some() ==> r.unwrap().shows(image),
{
    let w = image.width();
    let h = image.height();
    if w > u32::MAX as usize || h > u32::MAX as usize {
        return None;
    }
    let row = match w.checked_mul(3) {
        Some(n) => n,
        None => {
            return None;
        },
    };
    if row.checked_mul(h).is_none() {
        return None;
    }
    let width = w as u32;
    let height = h as u32;
    let mut raster = blank(width, height);
    let mut y: u32 = 0;
    while y < height
        invariant
            y <= height,
            width == image.spec_width(),
            height == image.spec_height(),
            raster_width(raster) == width,
            raster_height(raster) == height,
            raster_bytes(raster).len() == 3 * width * height,
            forall|u: int, v: int|
                0 <= u < width && 0 <= v < y ==> {
                    let at = offset(u, v, width as int);
                    let levels = #[trigger] image.pixel(u, v);
                    &&& raster_bytes(raster)[at] == spec_to_int(levels.0)
                    &&& raster_bytes(raster)[at + 1] == spec_to_int(levels.1)
                    &&& raster_bytes(raster)[at + 2] == spec_to_int(levels.2)
                },
        decreases height - y,
    {
        let mut x: u32 = 0;
        while x < width
            invariant
                x <= width,
                y < height,
                width == image.spec_width(),
                height == image.spec_height(),
                raster_width(raster) == width,
                raster_height(raster) == height,
                raster_bytes(raster).len() == 3 * width * height,
                forall|u: int, v: int|
                    0 <= u < width && (0 <= v < y || (v == y && u < x)) ==> {
                        let at = offset(u, v, width as int);
                        let levels = #[trigger] image.pixel(u, v);
                        &&& raster_bytes(raster)[at] == spec_to_int(levels.0)
                        &&& raster_bytes(raster)[at + 1] == spec_to_int(levels.1)
                        &&& raster_bytes(raster)[at + 2] == spec_to_int(levels.2)
                    },
            decreases width - x,
        {
            let levels = *image.get(x as usize, y as usize);
            let ghost before = raster_bytes(raster);
            let ghost here = offset(x as int, y as int, width as int);
            proof {
                lemma_offset_bound(x as int, y as int, width as int, height as int);
            }
            put(&mut raster, x, y, to_int(levels.0), to_int(levels.1), to_int(levels.2));
            assert forall|u: int, v: int|
                0 <= u < width && (0 <= v < y || (v == y && u < x + 1)) implies {
                let at = offset(u, v, width as int);
                let l = #[trigger] image.pixel(u, v);
                &&& raster_bytes(raster)[at] == spec_to_int(l.0)
                &&& raster_bytes(raster)[at + 1] == spec_to_int(l.1)
                &&& raster_bytes(raster)[at + 2] == spec_to_int(l.2)
            } by {
                if v == y && u == x {
                } else {
                    lemma_offset_order(x as int, y as int, u, v, width as int);
                    let at = offset(u, v, width as int);
                    assert(raster_bytes(raster)[at] == before[at]);
                    assert(raster_bytes(raster)[at + 1] == before[at + 1]);
                    assert(raster_bytes(raster)[at + 2] == before[at + 2]);
                }
            }
            x += 1;
        }
        y += 1;
    }
    Some(raster)
}

} // verus!
