//! The store of decoded images: the RGB bytes of all of them, one after the other.

use vstd::prelude::*;

use crate::decode;
use crate::decode::{decode_png_rgba8, DecodeError};

verus! {

/// Where the bytes of an image start in the store, and how large the image is.
#[derive(Clone, Copy, Debug, PartialEq, Eq, Structural)]
pub struct ImageMetaCpu {
    pub offset_bytes: u64,
    pub width: u32,
    pub height: u32,
}

/// The RGB bytes of RGBA pixels: three of every four bytes.
pub open spec fn rgb_of(rgba: Seq<u8>) -> Seq<u8> {
    Seq::new(rgba.len() / 4 * 3, |i: int| rgba[i / 3 * 4 + i % 3])
}

/// What the store notes of an image of the given size when it holds `stored` bytes already.
pub open spec fn meta_of(stored: nat, width: u32, height: u32) -> ImageMetaCpu {
    ImageMetaCpu { offset_bytes: stored as u64, width, height }
}

/// The index that an image gets after `count` others.
pub open spec fn index_after(count: nat) -> u32 {
    (count % 0x1_0000_0000) as u32
}

/// The store keeps the three colors of every pixel as they are, and nothing else.
pub proof fn law_store_keeps_colors(rgba: Seq<u8>)
    ensures
        rgb_of(rgba).len() == 3 * (rgba.len() / 4),
        forall|p: int, c: int|
            0 <= p < rgba.len() / 4 && 0 <= c < 3 ==> #[trigger] rgb_of(rgba)[3 * p + c] == rgba[4
                * p + c],
{
    assert forall|p: int, c: int| 0 <= p < rgba.len() / 4 && 0 <= c < 3 implies #[trigger] rgb_of(
        rgba,
    )[3 * p + c] == rgba[4 * p + c] by {
        assert((3 * p + c) / 3 == p && (3 * p + c) % 3 == c);
    }
}

/// An image is noted with its own size, at the end of what is stored before it.
pub proof fn law_image_is_noted(stored: nat, width: u32, height: u32)
    requires
        stored <= u64::MAX,
    ensures
        meta_of(stored, width, height).offset_bytes == stored,
        meta_of(stored, width, height).width == width,
        meta_of(stored, width, height).height == height,
{
}

/// Images are counted from 0, as far as a `u32` counts. From there the count starts over.
pub proof fn law_images_are_counted(count: nat)
    ensures
        count <= u32::MAX ==> index_after(count) == count,
        index_after(count + 0x1_0000_0000) == index_after(count),
{
}

/// Adds the RGB bytes of an image to the store and returns the index of the image.
pub fn push_pixels(
    width: u32,
    height: u32,
    rgba: &[u8],
    rgb_bytes: &mut Vec<u8>,
    image_meta: &mut Vec<ImageMetaCpu>,
) -> (index: u32)
    ensures
        final(rgb_bytes)@ == old(rgb_bytes)@ + rgb_of(rgba@),
        final(image_meta)@ == old(image_meta)@.push(
            meta_of(old(rgb_bytes)@.len(), width, height),
        ),
        index == index_after(old(image_meta)@.len()),
{
    let count: u64 = image_meta.len() as u64;
    let index: u32 = count as u32;
    assert(count as u32 == count % 0x1_0000_0000) by (bit_vector);
    let offset_bytes: u64 = rgb_bytes.len() as u64;
    let ghost rgb = rgb_of(rgba@);
    let mut i: usize = 0;
    while rgba.len() - i >= 4
        invariant
            i <= rgba@.len(),
            i % 4 == 0,
            rgb == rgb_of(rgba@),
            rgb_bytes@ == old(rgb_bytes)@ + rgb.take(i as int / 4 * 3),
        decreases rgba@.len() - i,
    {
        rgb_bytes.push(rgba[i]);
        rgb_bytes.push(rgba[i + 1]);
        rgb_bytes.push(rgba[i + 2]);
        i = i + 4;
        assert(rgb_bytes@ =~= old(rgb_bytes)@ + rgb.take(i as int / 4 * 3));
    }
    assert(rgb.take(i as int / 4 * 3) == rgb);
    image_meta.push(ImageMetaCpu { offset_bytes, width, height });
    index
}

/// Decodes a PNG file, adds its RGB bytes to the store and returns the index of the image. A file
/// that cannot be decoded leaves the store as it is.
pub fn push_image_data(
    file: &[u8],
    rgb_bytes: &mut Vec<u8>,
    image_meta: &mut Vec<ImageMetaCpu>,
) -> (r: Result<u32, DecodeError>)
    ensures
        match decode::decoded(file@) {
            decode::DecodeOutcome::Image { width, height, rgba } => {
                &&& r == Ok::<u32, DecodeError>(index_after(old(image_meta)@.len()))
                &&& rgba.len() == width * height * 4
                &&& final(rgb_bytes)@ == old(rgb_bytes)@ + rgb_of(rgba)
                &&& final(image_meta)@ == old(image_meta)@.push(
                    meta_of(old(rgb_bytes)@.len(), width, height),
                )
            },
            outcome => {
                &&& r matches Err(error) && decode::reports(error, outcome)
                &&& final(rgb_bytes)@ == old(rgb_bytes)@
                &&& final(image_meta)@ == old(image_meta)@
            },
        },
{
    match decode_png_rgba8(file) {
        Ok((width, height, rgba)) => Ok(
            push_pixels(width, height, rgba.as_slice(), rgb_bytes, image_meta),
        ),
        Err(error) => Err(error),
    }
}

} // verus!
