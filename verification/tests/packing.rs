use parallax::images::ImageMetaCpu;
use parallax::texture::{pack_rgb_bytes_to_layered_texture, PackError};

const LAYER: usize = 4096 * 4096 * 4;

fn meta(offset_bytes: u64) -> ImageMetaCpu {
    ImageMetaCpu { offset_bytes, width: 3, height: 5 }
}

#[test]
fn nothing_takes_one_layer() {
    let (texture, shader_meta, layout) = pack_rgb_bytes_to_layered_texture(&[], &[]).unwrap();
    assert_eq!((texture.width, texture.height, texture.layer_count), (4096, 4096, 1));
    assert_eq!(texture.data.len(), LAYER);
    assert_eq!(shader_meta.len(), 0);
    assert_eq!(layout, [4096, 4096, 67108864, 1]);
}

#[test]
fn bytes_come_first_and_zeros_follow() {
    let (texture, shader_meta, _) =
        pack_rgb_bytes_to_layered_texture(&[1, 2, 3, 4, 5], &[meta(0), meta(3)]).unwrap();
    assert_eq!(texture.data[..7], [1, 2, 3, 4, 5, 0, 0]);
    assert_eq!(texture.data[LAYER - 1], 0);
    assert_eq!(shader_meta, vec![[0, 3, 5, 0], [3, 3, 5, 0]]);
}

#[test]
fn a_full_layer_needs_no_second() {
    let rgb_bytes = vec![7; LAYER];
    let (texture, _, layout) = pack_rgb_bytes_to_layered_texture(&rgb_bytes, &[]).unwrap();
    assert_eq!(texture.layer_count, 1);
    assert_eq!(layout[3], 1);
    assert_eq!(texture.data[LAYER - 1], 7);
}

#[test]
fn a_byte_more_starts_a_second_layer() {
    let mut rgb_bytes = vec![7; LAYER];
    rgb_bytes.push(8);
    let starts = [meta(LAYER as u64 - 1), meta(LAYER as u64)];
    let (texture, shader_meta, layout) =
        pack_rgb_bytes_to_layered_texture(&rgb_bytes, &starts).unwrap();
    assert_eq!(texture.layer_count, 2);
    assert_eq!(texture.data.len(), 2 * LAYER);
    assert_eq!(texture.data[LAYER - 1..LAYER + 2], [7, 8, 0]);
    assert_eq!(shader_meta, vec![[67108863, 3, 5, 0], [0, 3, 5, 1]]);
    assert_eq!(layout, [4096, 4096, 67108864, 2]);
}

#[test]
fn an_image_beyond_all_layers_is_refused() {
    let last = (1u64 << 32) * LAYER as u64 - 1;
    let (_, shader_meta, _) = pack_rgb_bytes_to_layered_texture(&[], &[meta(last)]).unwrap();
    assert_eq!(shader_meta, vec![[67108863, 3, 5, 4294967295]]);
    assert!(matches!(
        pack_rgb_bytes_to_layered_texture(&[], &[meta(0), meta(last + 1)]),
        Err(PackError::LayerIndexTooLarge)
    ));
}
