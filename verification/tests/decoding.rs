use parallax::decode::{decode_png_rgba8, to_rgba, ColorType, DecodeError, MAX_WIDTH};
use parallax::images::{push_image_data, push_pixels, ImageMetaCpu};

fn encode(width: u32, height: u32, color: png::ColorType, depth: png::BitDepth, data: &[u8]) -> Vec<u8> {
    let palette: &[u8] = match color {
        png::ColorType::Indexed => &[10, 20, 30, 40, 50, 60, 70, 80, 90],
        _ => &[],
    };
    encode_with_palette(width, height, color, depth, palette, data)
}

fn encode_with_palette(
    width: u32,
    height: u32,
    color: png::ColorType,
    depth: png::BitDepth,
    palette: &[u8],
    data: &[u8],
) -> Vec<u8> {
    let mut out = Vec::new();
    let mut encoder = png::Encoder::new(&mut out, width, height);
    encoder.set_color(color);
    encoder.set_depth(depth);
    if !palette.is_empty() {
        encoder.set_palette(palette.to_vec());
    }
    let mut writer = encoder.write_header().unwrap();
    writer.write_image_data(data).unwrap();
    writer.finish().unwrap();
    out
}

#[test]
fn rgba_pixels_stay_as_they_are() {
    let data = [1, 2, 3, 4, 5, 6, 7, 8];
    let file = encode(1, 2, png::ColorType::Rgba, png::BitDepth::Eight, &data);
    assert_eq!(decode_png_rgba8(&file).unwrap(), (1, 2, data.to_vec()));
}

#[test]
fn rgb_pixels_become_opaque() {
    let file = encode(2, 1, png::ColorType::Rgb, png::BitDepth::Eight, &[1, 2, 3, 4, 5, 6]);
    assert_eq!(decode_png_rgba8(&file).unwrap(), (2, 1, vec![1, 2, 3, 255, 4, 5, 6, 255]));
}

#[test]
fn gray_fills_all_colors() {
    let file = encode(2, 1, png::ColorType::Grayscale, png::BitDepth::Eight, &[7, 200]);
    assert_eq!(decode_png_rgba8(&file).unwrap(), (2, 1, vec![7, 7, 7, 255, 200, 200, 200, 255]));
}

#[test]
fn gray_keeps_its_alpha() {
    let file = encode(2, 1, png::ColorType::GrayscaleAlpha, png::BitDepth::Eight, &[7, 8, 9, 10]);
    assert_eq!(decode_png_rgba8(&file).unwrap(), (2, 1, vec![7, 7, 7, 8, 9, 9, 9, 10]));
}

#[test]
fn one_bit_gray_is_expanded() {
    let file = encode(3, 1, png::ColorType::Grayscale, png::BitDepth::One, &[0b1010_0000]);
    assert_eq!(
        decode_png_rgba8(&file).unwrap(),
        (3, 1, vec![255, 255, 255, 255, 0, 0, 0, 255, 255, 255, 255, 255])
    );
}

#[test]
fn palettes_are_expanded() {
    let file = encode(3, 1, png::ColorType::Indexed, png::BitDepth::Eight, &[2, 0, 1]);
    assert_eq!(
        decode_png_rgba8(&file).unwrap(),
        (3, 1, vec![70, 80, 90, 255, 10, 20, 30, 255, 40, 50, 60, 255])
    );
}

#[test]
fn sixteen_bit_samples_keep_their_high_byte() {
    let data = [1, 101, 2, 102, 3, 103];
    let file = encode(1, 1, png::ColorType::Rgb, png::BitDepth::Sixteen, &data);
    assert_eq!(decode_png_rgba8(&file).unwrap(), (1, 1, vec![1, 2, 3, 255]));
}

#[test]
fn transparent_color_becomes_alpha() {
    let mut file = Vec::new();
    let mut encoder = png::Encoder::new(&mut file, 2, 1);
    encoder.set_color(png::ColorType::Rgb);
    encoder.set_depth(png::BitDepth::Eight);
    encoder.set_trns(vec![0, 1, 0, 2, 0, 3]);
    let mut writer = encoder.write_header().unwrap();
    writer.write_image_data(&[1, 2, 3, 4, 5, 6]).unwrap();
    writer.finish().unwrap();
    assert_eq!(decode_png_rgba8(&file).unwrap(), (2, 1, vec![1, 2, 3, 0, 4, 5, 6, 255]));
}

#[test]
fn decoded_pixels_fill_the_image() {
    let data: Vec<u8> = (0..5 * 7 * 3).collect();
    let file = encode(5, 7, png::ColorType::Rgb, png::BitDepth::Eight, &data);
    let (width, height, rgba) = decode_png_rgba8(&file).unwrap();
    assert_eq!(rgba.len(), (width * height * 4) as usize);
}

#[test]
fn a_file_that_is_no_png_has_a_bad_header() {
    assert!(matches!(decode_png_rgba8(&[]), Err(DecodeError::Header(_))));
    assert!(matches!(decode_png_rgba8(b"not a png at all"), Err(DecodeError::Header(_))));
}

/// A gray image of one row that ends where its image data would start.
fn without_image_data(width: u32) -> Vec<u8> {
    let mut out = Vec::new();
    let mut encoder = png::Encoder::new(&mut out, width, 1);
    encoder.set_color(png::ColorType::Grayscale);
    encoder.set_depth(png::BitDepth::Eight);
    drop(encoder.write_header().unwrap());
    out.truncate(33);
    out.extend_from_slice(b"\0\0\0\x01IDAT");
    out
}

#[test]
fn rows_over_the_limit_are_too_wide() {
    assert_eq!(MAX_WIDTH, 64 * 1024 * 1024);
    assert!(matches!(decode_png_rgba8(&without_image_data(MAX_WIDTH)), Err(DecodeError::Frame(_))));
    assert!(matches!(decode_png_rgba8(&without_image_data(MAX_WIDTH + 1)), Err(DecodeError::TooWide)));
    assert!(matches!(decode_png_rgba8(&without_image_data(u32::MAX)), Err(DecodeError::TooWide)));
}

#[test]
fn the_decoder_itself_has_that_limit() {
    let read_info = |width: u32| {
        let file = without_image_data(width);
        png::Decoder::new(std::io::Cursor::new(file)).read_info().map(|_| ())
    };
    assert!(read_info(MAX_WIDTH).is_ok());
    assert!(matches!(read_info(MAX_WIDTH + 1), Err(png::DecodingError::LimitsExceeded)));
}

#[test]
fn a_palette_with_half_a_color_is_broken() {
    for palette in [&[10, 20, 30, 40][..], &[10, 20, 30, 40, 50][..]] {
        for depth in [png::BitDepth::Eight, png::BitDepth::One] {
            let file = encode_with_palette(1, 1, png::ColorType::Indexed, depth, palette, &[0]);
            assert!(matches!(decode_png_rgba8(&file), Err(DecodeError::BrokenPalette)));
        }
    }
    let file =
        encode_with_palette(1, 1, png::ColorType::Indexed, png::BitDepth::Eight, &[10, 20, 30], &[0]);
    assert_eq!(decode_png_rgba8(&file).unwrap(), (1, 1, vec![10, 20, 30, 255]));
}

#[test]
fn a_palette_that_no_pixel_uses_may_be_broken() {
    let palette = [10, 20, 30, 40];
    let file =
        encode_with_palette(1, 1, png::ColorType::Rgb, png::BitDepth::Eight, &palette, &[1, 2, 3]);
    assert!(file.windows(8).any(|bytes| bytes == b"\0\0\0\x04PLTE"));
    assert_eq!(decode_png_rgba8(&file).unwrap(), (1, 1, vec![1, 2, 3, 255]));
}

#[test]
fn truncated_image_data_is_a_bad_frame() {
    let data: Vec<u8> = (0..30).map(|i| (i * 37) as u8).collect();
    let mut file = encode(5, 2, png::ColorType::Rgb, png::BitDepth::Eight, &data);
    let image_data = file.windows(4).position(|name| name == b"IDAT").unwrap();
    file.truncate(image_data + 8);
    assert!(matches!(decode_png_rgba8(&file), Err(DecodeError::Frame(_))));
}

#[test]
fn frames_as_rgba() {
    assert_eq!(to_rgba(ColorType::Rgba, &[1, 2, 3, 4, 5]), Some(vec![1, 2, 3, 4, 5]));
    assert_eq!(to_rgba(ColorType::Rgb, &[1, 2, 3, 4, 5]), Some(vec![1, 2, 3, 255]));
    assert_eq!(to_rgba(ColorType::Grayscale, &[9]), Some(vec![9, 9, 9, 255]));
    assert_eq!(to_rgba(ColorType::GrayscaleAlpha, &[9, 8, 7]), Some(vec![9, 9, 9, 8]));
    assert_eq!(to_rgba(ColorType::Rgb, &[]), Some(vec![]));
    assert_eq!(to_rgba(ColorType::Indexed, &[1, 2, 3]), None);
}

#[test]
fn pixels_are_stored_without_alpha() {
    let mut rgb_bytes = vec![100, 101];
    let mut image_meta = vec![ImageMetaCpu { offset_bytes: 0, width: 9, height: 9 }];
    let index = push_pixels(2, 1, &[1, 2, 3, 4, 5, 6, 7, 8, 9], &mut rgb_bytes, &mut image_meta);
    assert_eq!(index, 1);
    assert_eq!(rgb_bytes, vec![100, 101, 1, 2, 3, 5, 6, 7]);
    assert_eq!(image_meta[1], ImageMetaCpu { offset_bytes: 2, width: 2, height: 1 });
    assert_eq!(image_meta.len(), 2);
}

#[test]
fn images_are_stored_one_after_the_other() {
    let gray = encode(1, 2, png::ColorType::Grayscale, png::BitDepth::Eight, &[5, 6]);
    let rgba = encode(1, 1, png::ColorType::Rgba, png::BitDepth::Eight, &[1, 2, 3, 4]);
    let mut rgb_bytes = Vec::new();
    let mut image_meta = Vec::new();
    assert_eq!(push_image_data(&gray, &mut rgb_bytes, &mut image_meta).unwrap(), 0);
    assert_eq!(push_image_data(&rgba, &mut rgb_bytes, &mut image_meta).unwrap(), 1);
    assert_eq!(rgb_bytes, vec![5, 5, 5, 6, 6, 6, 1, 2, 3]);
    assert_eq!(
        image_meta,
        vec![
            ImageMetaCpu { offset_bytes: 0, width: 1, height: 2 },
            ImageMetaCpu { offset_bytes: 6, width: 1, height: 1 },
        ]
    );
}

#[test]
fn a_bad_file_leaves_the_store_alone() {
    let mut rgb_bytes = vec![1, 2, 3];
    let mut image_meta = vec![ImageMetaCpu { offset_bytes: 0, width: 1, height: 1 }];
    let r = push_image_data(b"junk", &mut rgb_bytes, &mut image_meta);
    assert!(matches!(r, Err(DecodeError::Header(_))));
    let broken =
        encode_with_palette(1, 1, png::ColorType::Indexed, png::BitDepth::Eight, &[1, 2, 3, 4], &[0]);
    let r = push_image_data(&broken, &mut rgb_bytes, &mut image_meta);
    assert!(matches!(r, Err(DecodeError::BrokenPalette)));
    assert_eq!(rgb_bytes, vec![1, 2, 3]);
    assert_eq!(image_meta.len(), 1);
}
