use vstd::prelude::*;

use crate::error::Error;
use crate::palette::{empty_color, Color};

verus! {

/// Image reference containing pixel data and dimensions info
pub struct Image<'data> {
    pub width: usize,
    pub height: usize,
    pub data: &'data [u8],
}

/// Number of pixels in an image of the given dimensions.
pub open spec fn pixel_count(width: usize, height: usize) -> int {
    width as int * height as int
}

/// The four bytes of pixel `i` of an interleaved RGBA buffer.
pub open spec fn pixel_at(data: Seq<u8>, i: int) -> Color {
    Color { r: data[4 * i], g: data[4 * i + 1], b: data[4 * i + 2], a: data[4 * i + 3] }
}

/// A fully transparent color is treated as `(0, 0, 0, 0)`.
pub open spec fn normalized(c: Color) -> Color {
    if c.a == 0 {
        empty_color()
    } else {
        c
    }
}

impl<'data> Image<'data> {
    /// The buffer holds at least `width * height` RGBA pixels.
    pub open spec fn wf(&self) -> bool {
        self.data@.len() >= 4 * pixel_count(self.width, self.height)
    }

    /// Pixel `i` with full transparency normalized to `(0, 0, 0, 0)`.
    pub open spec fn pixel(&self, i: int) -> Color {
        normalized(pixel_at(self.data@, i))
    }

    /// Creates an [`Image`] from a slice of RGBA pixels.
    ///
    /// Returns [`Error::BufferTooSmall`] if the provided slice length is less
    /// than `width * height * 4`
    pub fn new(data: &'data [u8], width: usize, height: usize) -> (r: Result<Self, Error>)
        ensures
            data@.len() >= 4 * pixel_count(width, height) <==> r is Ok,
            r is Err ==> r == Err::<Self, Error>(Error::BufferTooSmall),
            r matches Ok(img) ==> img.wf() && img.width == width && img.height == height
                && img.data@ == data@,
    {
        let size = width.checked_mul(height);
        let bytes = match size {
            Some(s) => s.checked_mul(4),
            None => None,
        };
        match bytes {
            Some(b) => {
                if data.len() < b {
                    return Err(Error::BufferTooSmall);
                }
            },
            None => {
                let len = data.len();
                proof {
                    assert(pixel_count(width, height) * 4 > usize::MAX) by (nonlinear_arith)
                        requires
                            size is None ==> width as int * height as int > usize::MAX,
                            size matches Some(s) ==> s == width as int * height as int && s * 4 > usize::MAX,
                    ;
                }
                return Err(Error::BufferTooSmall);
            },
        }
        Ok(Image { data, width, height })
    }
}

/// The first pixel of `pix`, with full transparency normalized.
///
/// Every pixel whose alpha is zero reads as `(0, 0, 0, 0)`, whatever its
/// color channels hold.
pub fn pix_or_empty(pix: &[u8]) -> (r: Color)
    requires
        pix@.len() >= 4,
    ensures
        r == normalized(pixel_at(pix@, 0)),
{
    if pix[3] == 0 {
        return Color { r: 0, g: 0, b: 0, a: 0 };
    }
    Color { r: pix[0], g: pix[1], b: pix[2], a: pix[3] }
}

/// Pixel `i` of an interleaved RGBA buffer, with full transparency normalized.
pub fn read_pixel(data: &[u8], i: usize) -> (r: Color)
    requires
        4 * i + 4 <= data@.len(),
    ensures
        r == normalized(pixel_at(data@, i as int)),
{
    let len = data.len();
    let base = 4 * i;
    if data[base + 3] == 0 {
        return Color { r: 0, g: 0, b: 0, a: 0 };
    }
    Color { r: data[base], g: data[base + 1], b: data[base + 2], a: data[base + 3] }
}

} // verus!
