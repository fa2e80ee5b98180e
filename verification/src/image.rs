//! The image model: an RGBA8 pixel buffer and its colors.
use vstd::prelude::*;

verus! {

/// One RGBA pixel.
#[derive(Clone, Copy, Debug, Default, PartialEq, Eq, Structural)]
pub struct Color {
    pub r: u8,
    pub g: u8,
    pub b: u8,
    pub a: u8,
}

/// An image: `width * height` pixels stored row by row as `[r, g, b, a]` bytes.
#[derive(Clone)]
pub struct Image {
    pub width: u32,
    pub height: u32,
    pub pixels: Vec<u8>,
}

/// The red, green and blue bytes of a color.
pub open spec fn rgb(c: Color) -> [u8; 3] {
    [c.r, c.g, c.b]
}

/// The red, green and blue bytes of each color, in order.
pub open spec fn rgb_seq(colors: Seq<Color>) -> Seq<[u8; 3]> {
    colors.map_values(|c: Color| rgb(c))
}

/// The opaque color with the red, green and blue of `c`.
pub open spec fn opaque(c: Color) -> Color {
    Color { r: c.r, g: c.g, b: c.b, a: 255 }
}

/// The color made of the four bytes of pixel `i` in a byte buffer.
pub open spec fn color_at(pixels: Seq<u8>, i: int) -> Color {
    Color { r: pixels[4 * i], g: pixels[4 * i + 1], b: pixels[4 * i + 2], a: pixels[4 * i + 3] }
}

/// The sequence of colors that a byte buffer holds, four bytes per color.
pub open spec fn colors_of(pixels: Seq<u8>) -> Seq<Color> {
    Seq::new(pixels.len() / 4, |i: int| color_at(pixels, i))
}

impl Image {
    /// The buffer holds exactly `width * height` pixels of four bytes.
    pub open spec fn wf(&self) -> bool {
        self.pixels@.len() == self.width * self.height * 4
    }

    /// The buffer is a whole number of pixels, and the pixel count fits in a
    /// `u32`. Palette generation counts the pixels of each color in a `u32`
    /// (the median-cut tally does, as the original does), so that no count
    /// can overflow; the bound is shared by every palette generator because
    /// the implementations of a trait method cannot add requirements of their own.
    pub open spec fn has_whole_pixels(&self) -> bool {
        &&& self.pixels@.len() % 4 == 0
        &&& self.pixels@.len() / 4 <= u32::MAX
    }

    /// The colors of the image, in buffer order.
    pub open spec fn color_seq(&self) -> Seq<Color> {
        colors_of(self.pixels@)
    }

    /// The colors of the pixels, in buffer order.
    pub fn colors(&self) -> (result: Vec<Color>)
        requires
            self.pixels@.len() % 4 == 0,
        ensures
            result@ == self.color_seq(),
    {
        let quads = pixel_quads(self.pixels.as_slice());
        let n = quads.len();
        let mut result: Vec<Color> = Vec::with_capacity(n);
        let mut i: usize = 0;
        while i < n
            invariant
                n == quads@.len(),
                n == self.pixels@.len() / 4,
                i <= n,
                forall|k: int, j: int| 0 <= k < n && 0 <= j < 4 ==> #[trigger] quads@[k][j]
                    == self.pixels@[4 * k + j],
                result@.len() == i,
                forall|k: int| 0 <= k < i ==> result@[k] == color_at(self.pixels@, k),
            decreases n - i,
        {
            let q = quads[i];
            proof {
                assert(q[0] == self.pixels@[4 * i + 0]);
                assert(q[1] == self.pixels@[4 * i + 1]);
                assert(q[2] == self.pixels@[4 * i + 2]);
                assert(q[3] == self.pixels@[4 * i + 3]);
            }
            result.push(Color { r: q[0], g: q[1], b: q[2], a: q[3] });
            i = i + 1;
        }
        assert(result@ =~= self.color_seq());
        result
    }
}

impl Image {
    /// The pixels as four-byte entries that can be changed in place.
    pub fn colors_mut(&mut self) -> (quads: &mut [[u8; 4]])
        requires
            old(self).pixels@.len() % 4 == 0,
        ensures
            quads@.len() == old(self).pixels@.len() / 4,
            forall|k: int, j: int|
                0 <= k < quads@.len() && 0 <= j < 4 ==> #[trigger] quads@[k][j] == old(
                    self,
                ).pixels@[4 * k + j],
            final(self).width == old(self).width,
            final(self).height == old(self).height,
            final(self).pixels@.len() == 4 * final(quads)@.len(),
            forall|k: int, j: int|
                0 <= k < final(quads)@.len() && 0 <= j < 4 ==> #[trigger] final(quads)@[k][j]
                    == final(self).pixels@[4 * k + j],
    {
        pixel_quads_mut(self.pixels.as_mut_slice())
    }
}

/// Views a byte buffer as a slice of four-byte pixels that can be changed in place.
///
/// Calls `bytemuck::cast_slice_mut::<u8, [u8; 4]>`. Its source casts without
/// copying when the byte length is a multiple of four (the alignment of
/// `[u8; 4]` is one) and panics otherwise, so the result shares the bytes of
/// the input: the contract claims that the result has `len / 4` entries,
/// that entry `k`, byte `j` is byte `4 * k + j` of the input, and that the
/// same holds of their final values.
#[verifier::external_body]
fn pixel_quads_mut(pixels: &mut [u8]) -> (quads: &mut [[u8; 4]])
    requires
        old(pixels)@.len() % 4 == 0,
    ensures
        quads@.len() == old(pixels)@.len() / 4,
        forall|k: int, j: int|
            0 <= k < quads@.len() && 0 <= j < 4 ==> #[trigger] quads@[k][j] == old(pixels)@[4 * k + j],
        final(pixels)@.len() == 4 * final(quads)@.len(),
        forall|k: int, j: int|
            0 <= k < final(quads)@.len() && 0 <= j < 4 ==> #[trigger] final(quads)@[k][j]
                == final(pixels)@[4 * k + j],
{
    bytemuck::cast_slice_mut::<u8, [u8; 4]>(pixels)
}

/// Views a byte buffer as a slice of four-byte pixels.
///
/// Calls `bytemuck::cast_slice::<u8, [u8; 4]>`. Its source casts without
/// copying when the byte length is a multiple of four (the alignment of
/// `[u8; 4]` is one) and panics otherwise; the contract claims that the
/// result has `len / 4` entries and that entry `k`, byte `j` is byte
/// `4 * k + j` of the input.
#[verifier::external_body]
fn pixel_quads(pixels: &[u8]) -> (quads: &[[u8; 4]])
    requires
        pixels@.len() % 4 == 0,
    ensures
        quads@.len() == pixels@.len() / 4,
        forall|k: int, j: int|
            0 <= k < quads@.len() && 0 <= j < 4 ==> #[trigger] quads@[k][j] == pixels@[4 * k + j],
{
    bytemuck::cast_slice::<u8, [u8; 4]>(pixels)
}

} // verus!
