//! Packing the image bytes into the layers of a texture.

use vstd::prelude::*;

use crate::images::ImageMetaCpu;

verus! {

/// The width of a layer, in words of four bytes.
pub const PIXEL_TEXTURE_WORDS_PER_ROW: u32 = 4096;

/// The height of a layer.
pub const PIXEL_TEXTURE_ROWS_PER_LAYER: u32 = 4096;

/// A texture of four-byte words in equal layers.
#[derive(Debug)]
pub struct PixelTexture {
    pub width: u32,
    pub height: u32,
    pub layer_count: u32,
    pub data: Vec<u8>,
}

/// Why the images do not fit a texture.
#[derive(Clone, Copy, Debug, PartialEq, Eq, Structural)]
pub enum PackError {
    /// The texture would take more memory than can be allocated.
    TextureTooLarge,
    /// An image starts in a layer whose index exceeds a `u32`.
    LayerIndexTooLarge,
    /// The number of layers exceeds a `u32`.
    LayerCountTooLarge,
}

/// The number of bytes in a layer.
pub open spec fn bytes_per_layer() -> nat {
    (PIXEL_TEXTURE_WORDS_PER_ROW * PIXEL_TEXTURE_ROWS_PER_LAYER * 4) as nat
}

/// The number of layers that it takes to hold `len` bytes. There is always at least one.
pub open spec fn layers_for(len: nat) -> nat {
    if len == 0 {
        1
    } else {
        ((len - 1) / bytes_per_layer() as int + 1) as nat
    }
}

/// The bytes of the texture: those of the images, and zeros up to the end of the last layer.
pub open spec fn texture_bytes(rgb_bytes: Seq<u8>) -> Seq<u8> {
    Seq::new(
        layers_for(rgb_bytes.len()) * bytes_per_layer(),
        |i: int|
            if i < rgb_bytes.len() {
                rgb_bytes[i]
            } else {
                0
            },
    )
}

/// The layer in which an image starts.
pub open spec fn base_layer(meta: ImageMetaCpu) -> int {
    meta.offset_bytes as int / bytes_per_layer() as int
}

/// The byte of that layer at which the image starts.
pub open spec fn base_byte(meta: ImageMetaCpu) -> int {
    meta.offset_bytes as int % bytes_per_layer() as int
}

/// What the shader is told of an image.
pub open spec fn shader_meta_of(meta: ImageMetaCpu) -> Seq<u32> {
    seq![base_byte(meta) as u32, meta.width, meta.height, base_layer(meta) as u32]
}

/// Whether an image starts in a layer whose index exceeds a `u32`.
pub open spec fn starts_too_far(image_meta: Seq<ImageMetaCpu>) -> bool {
    exists|k: int| 0 <= k < image_meta.len() && base_layer(#[trigger] image_meta[k]) > u32::MAX
}

proof fn lemma_bytes_per_layer()
    ensures
        bytes_per_layer() == 0x400_0000,
{
    let width = PIXEL_TEXTURE_WORDS_PER_ROW as int;
    let height = PIXEL_TEXTURE_ROWS_PER_LAYER as int;
    assert(width * height * 4 == 0x400_0000) by (nonlinear_arith)
        requires
            width == 4096,
            height == 4096,
    ;
}

/// Packs the bytes of all images into one texture. Returns the texture, what the shader is told
/// of each image, and what it is told of the texture.
pub fn pack_rgb_bytes_to_layered_texture(rgb_bytes: &[u8], image_meta: &[ImageMetaCpu]) -> (r:
    Result<(PixelTexture, Vec<[u32; 4]>, [u32; 4]), PackError>)
    ensures
        ({
            let layers = layers_for(rgb_bytes@.len());
            if layers * bytes_per_layer() > isize::MAX {
                r matches Err(PackError::TextureTooLarge)
            } else if starts_too_far(image_meta@) {
                r matches Err(PackError::LayerIndexTooLarge)
            } else if layers > u32::MAX {
                r matches Err(PackError::LayerCountTooLarge)
            } else {
                r matches Ok((texture, shader_meta, pixel_layout)) && {
                    &&& texture.width == PIXEL_TEXTURE_WORDS_PER_ROW
                    &&& texture.height == PIXEL_TEXTURE_ROWS_PER_LAYER
                    &&& texture.layer_count == layers
                    &&& texture.data@ == texture_bytes(rgb_bytes@)
                    &&& shader_meta@.len() == image_meta@.len()
                    &&& forall|k: int|
                        0 <= k < image_meta@.len() ==> (#[trigger] shader_meta@[k])@
                            == shader_meta_of(image_meta@[k])
                    &&& pixel_layout@ == seq![
                        PIXEL_TEXTURE_WORDS_PER_ROW,
                        PIXEL_TEXTURE_ROWS_PER_LAYER,
                        bytes_per_layer() as u32,
                        layers as u32,
                    ]
                }
            }
        }),
{
    proof {
        lemma_bytes_per_layer();
    }
    let layer_len: u64 = PIXEL_TEXTURE_WORDS_PER_ROW as u64 * PIXEL_TEXTURE_ROWS_PER_LAYER as u64
        * 4;
    let len: u64 = rgb_bytes.len() as u64;
    let layer_count: u64 = if len == 0 {
        1
    } else {
        (len - 1) / layer_len + 1
    };
    proof {
        let limit = isize::MAX as int;
        assert(layer_count > limit / 0x400_0000 <==> layer_count * 0x400_0000 > limit);
    }
    if layer_count > isize::MAX as u64 / layer_len {
        return Err(PackError::TextureTooLarge);
    }
    let data_len: usize = (layer_count * layer_len) as usize;
    let mut data: Vec<u8> = Vec::with_capacity(data_len);
    data.extend_from_slice(rgb_bytes);
    assert(data@ == rgb_bytes@);
    data.resize(data_len, 0);
    assert(data@ == texture_bytes(rgb_bytes@)) by {
        assert(data_len >= len);
        assert(data@.subrange(0, len as int) == rgb_bytes@);
        assert forall|i: int| 0 <= i < data_len implies #[trigger] data@[i] == texture_bytes(
            rgb_bytes@,
        )[i] by {
            if i < len {
                assert(data@[i] == data@.subrange(0, len as int)[i]);
            }
        }
    }

    let mut shader_meta: Vec<[u32; 4]> = Vec::with_capacity(image_meta.len());
    let mut k: usize = 0;
    while k < image_meta.len()
        invariant
            k <= image_meta@.len(),
            layer_len == bytes_per_layer(),
            bytes_per_layer() == 0x400_0000,
            layers_for(rgb_bytes@.len()) * bytes_per_layer() <= isize::MAX,
            shader_meta@.len() == k,
            forall|j: int|
                0 <= j < k ==> (#[trigger] shader_meta@[j])@ == shader_meta_of(image_meta@[j]),
            forall|j: int| 0 <= j < k ==> base_layer(#[trigger] image_meta@[j]) <= u32::MAX,
        decreases image_meta@.len() - k,
    {
        let meta: ImageMetaCpu = image_meta[k];
        let layer: u64 = meta.offset_bytes / layer_len;
        let byte: u64 = meta.offset_bytes % layer_len;
        if layer > 0xffff_ffff {
            assert(base_layer(image_meta@[k as int]) > u32::MAX);
            return Err(PackError::LayerIndexTooLarge);
        }
        shader_meta.push([byte as u32, meta.width, meta.height, layer as u32]);
        k = k + 1;
    }
    if layer_count > 0xffff_ffff {
        return Err(PackError::LayerCountTooLarge);
    }
    let texture = PixelTexture {
        width: PIXEL_TEXTURE_WORDS_PER_ROW,
        height: PIXEL_TEXTURE_ROWS_PER_LAYER,
        layer_count: layer_count as u32,
        data,
    };
    let pixel_layout: [u32; 4] = [
        PIXEL_TEXTURE_WORDS_PER_ROW,
        PIXEL_TEXTURE_ROWS_PER_LAYER,
        layer_len as u32,
        layer_count as u32,
    ];
    Ok((texture, shader_meta, pixel_layout))
}

/// A layer has 4096 rows of 4096 words of four bytes.
pub proof fn law_layer_size()
    ensures
        PIXEL_TEXTURE_WORDS_PER_ROW == 4096,
        PIXEL_TEXTURE_ROWS_PER_LAYER == 4096,
        bytes_per_layer() == 4096 * 4096 * 4,
{
    lemma_bytes_per_layer();
}

/// The words that the shader is told of an image: its width and its height, and a layer and a
/// byte within that layer that lead back to the offset of the image.
pub proof fn law_shader_words(meta: ImageMetaCpu)
    requires
        meta.offset_bytes < 0x1_0000_0000 * 0x400_0000,
    ensures
        shader_meta_of(meta).len() == 4,
        shader_meta_of(meta)[1] == meta.width,
        shader_meta_of(meta)[2] == meta.height,
        shader_meta_of(meta)[0] < 0x400_0000,
        shader_meta_of(meta)[3] * 0x400_0000 + shader_meta_of(meta)[0] == meta.offset_bytes,
{
    lemma_bytes_per_layer();
}

/// An image starts too far exactly if its offset is past all layers that a `u32` can number.
pub proof fn law_too_far(image_meta: Seq<ImageMetaCpu>)
    ensures
        starts_too_far(image_meta) <==> exists|k: int|
            0 <= k < image_meta.len() && (#[trigger] image_meta[k]).offset_bytes >= 0x1_0000_0000
                * 0x400_0000,
{
    lemma_bytes_per_layer();
    assert forall|k: int| 0 <= k < image_meta.len() implies (base_layer(#[trigger] image_meta[k])
        > u32::MAX <==> image_meta[k].offset_bytes >= 0x1_0000_0000 * 0x400_0000) by {}
}

/// The texture holds every byte of the store at its own position, and zeros from there to the end
/// of a layer.
pub proof fn law_texture_holds_the_store(rgb_bytes: Seq<u8>)
    ensures
        texture_bytes(rgb_bytes).len() == layers_for(rgb_bytes.len()) * 0x400_0000,
        texture_bytes(rgb_bytes).len() >= rgb_bytes.len(),
        texture_bytes(rgb_bytes).take(rgb_bytes.len() as int) == rgb_bytes,
        forall|i: int|
            rgb_bytes.len() <= i < texture_bytes(rgb_bytes).len()
                ==> #[trigger] texture_bytes(rgb_bytes)[i] == 0,
{
    lemma_bytes_per_layer();
    assert(texture_bytes(rgb_bytes).take(rgb_bytes.len() as int) =~= rgb_bytes);
}

/// The texture gives back every byte of an image: the byte at `i` past the start that the shader
/// is told lies within the layers, and is the byte at `i` past the start of the image in the
/// store.
pub proof fn law_texture_gives_back(rgb_bytes: Seq<u8>, meta: ImageMetaCpu, i: int)
    requires
        0 <= i,
        meta.offset_bytes + i < rgb_bytes.len(),
    ensures
        ({
            let within = base_byte(meta) + i;
            let layer = base_layer(meta) + within / bytes_per_layer() as int;
            let byte = within % bytes_per_layer() as int;
            &&& 0 <= layer < layers_for(rgb_bytes.len())
            &&& 0 <= byte < bytes_per_layer()
            &&& texture_bytes(rgb_bytes)[layer * bytes_per_layer() + byte]
                == rgb_bytes[meta.offset_bytes + i]
        }),
{
    lemma_bytes_per_layer();
    let within = base_byte(meta) + i;
    let layer = base_layer(meta) + within / 0x400_0000;
    let byte = within % 0x400_0000;
    assert(layer * 0x400_0000 + byte == meta.offset_bytes + i);
    assert(layer < layers_for(rgb_bytes.len()));
    assert(layer * 0x400_0000 + byte < layers_for(rgb_bytes.len()) * 0x400_0000);
}

/// The texture is no larger than it has to be: without its last layer it would not hold all
/// bytes, unless there is only one layer.
pub proof fn law_texture_is_tight(len: nat)
    ensures
        bytes_per_layer() == 0x400_0000,
        layers_for(len) * 0x400_0000 >= len,
        layers_for(len) >= 1,
        layers_for(len) > 1 ==> (layers_for(len) - 1) * 0x400_0000 < len,
{
    lemma_bytes_per_layer();
}

} // verus!
