//! The sizes that a GPU run of a filter needs: the parameter bytes padded to
//! whole 32-bit words, the byte size of the pixel buffers, and the number of
//! 16 by 16 workgroups that cover the image.
use vstd::prelude::*;

verus! {

/// The side of a square workgroup, in pixels.
pub const WORKGROUP_SIDE: u32 = 16;

/// `bytes` followed by the fewest zero bytes that make its length a multiple of 4.
pub open spec fn padded_spec(bytes: Seq<u8>) -> Seq<u8> {
    let pad = (4 - bytes.len() % 4) % 4;
    bytes + Seq::new(pad as nat, |i: int| 0u8)
}

/// The parameter bytes followed by zero bytes up to a whole number of
/// 32-bit words, as a uniform buffer needs them.
pub fn padded_params(bytes: &[u8]) -> (padded: Vec<u8>)
    requires
        bytes@.len() + 3 <= usize::MAX,
    ensures
        padded@ == padded_spec(bytes@),
        padded@.len() % 4 == 0,
        padded@.len() < bytes@.len() + 4,
{
    let mut padded: Vec<u8> = Vec::new();
    let mut i: usize = 0;
    while i < bytes.len()
        invariant
            i <= bytes@.len(),
            padded@ == bytes@.take(i as int),
        decreases bytes@.len() - i,
    {
        padded.push(bytes[i]);
        i = i + 1;
        assert(padded@ =~= bytes@.take(i as int));
    }
    assert(bytes@.take(bytes@.len() as int) =~= bytes@);
    let ghost pad = (4 - bytes@.len() % 4) % 4;
    while padded.len() % 4 != 0
        invariant
            bytes@.len() <= padded@.len() <= bytes@.len() + pad,
            pad == (4 - bytes@.len() % 4) % 4,
            padded@ == bytes@ + Seq::new((padded@.len() - bytes@.len()) as nat, |i: int| 0u8),
            bytes@.len() + 3 <= usize::MAX,
        decreases bytes@.len() + pad - padded@.len(),
    {
        padded.push(0u8);
        assert(padded@ =~= bytes@ + Seq::new((padded@.len() - bytes@.len()) as nat, |i: int| 0u8));
    }
    assert(padded@.len() == bytes@.len() + pad);
    assert(padded@ =~= padded_spec(bytes@));
    padded
}

/// The number of workgroups that cover `extent` pixels: `extent / 16`, rounded up.
pub fn workgroup_count(extent: u32) -> (count: u32)
    requires
        extent + 15 <= u32::MAX,
    ensures
        count == (extent as int + 15) / 16,
        count * 16 >= extent,
        count * 16 < extent + 16,
{
    (extent + 15) / WORKGROUP_SIDE
}

/// The byte size of the RGBA pixel buffer of a `width` by `height` image.
pub fn pixel_buffer_size(width: u32, height: u32) -> (size: u64)
    requires
        width * height <= u32::MAX,
    ensures
        size == 4 * width * height,
{
    let pixels: u32 = width * height;
    assert(4 * width * height == 4 * (width * height)) by (nonlinear_arith);
    pixels as u64 * 4
}

} // verus!
