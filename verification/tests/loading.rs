use parallax::decode::DecodeError;
use parallax::images::ImageMetaCpu;
use parallax::loader::{
    load_full_parallax_images, load_half_parallax_images, load_images_for_mode, DecodedImages,
    ImageLoader, LoadError, INVALID_IMAGE_INDEX,
};
use parallax::mode::ParallaxMode;
use parallax::texture::pack_rgb_bytes_to_layered_texture;

fn listing(names: &[&str]) -> Vec<Option<String>> {
    names.iter().map(|name| Some(name.to_string())).collect()
}

/// An image of one gray pixel.
fn dot(gray: u8) -> Vec<u8> {
    let mut out = Vec::new();
    let mut encoder = png::Encoder::new(&mut out, 1, 1);
    encoder.set_color(png::ColorType::Grayscale);
    encoder.set_depth(png::BitDepth::Eight);
    let mut writer = encoder.write_header().unwrap();
    writer.write_image_data(&[gray]).unwrap();
    writer.finish().unwrap();
    out
}

fn run(mut loader: ImageLoader, files: &[Vec<u8>]) -> Result<DecodedImages, LoadError> {
    while let Some(index) = loader.next_file() {
        loader = loader.add_file(&files[index])?;
    }
    loader.finish()
}

#[test]
fn half_parallax_images_come_in_order() {
    let names = listing(&["h_10.png", "h_2.png", "readme.txt", "h_2_copy_2.png", "h_1.png"]);
    let files = vec![dot(10), dot(2), Vec::new(), dot(22), dot(1)];
    let images = run(load_half_parallax_images(&names).unwrap(), &files).unwrap();
    assert_eq!(images.mode, ParallaxMode::Half);
    assert_eq!(images.rgb_bytes, vec![1, 1, 1, 2, 2, 2, 22, 22, 22, 10, 10, 10]);
    assert_eq!(images.hogel_lookup, vec![0, 1, 2, 3]);
    assert_eq!(images.grid_width, 4);
    assert_eq!(images.grid_height, 1);
    assert_eq!(images.image_meta[2], ImageMetaCpu { offset_bytes: 6, width: 1, height: 1 });
    assert_eq!(images.shader_config(), [0, 4, 1, 0]);
}

#[test]
fn full_parallax_images_fill_their_cells() {
    let names = listing(&["h_13_21.png", "h_11_25.png", "h_12_23.png", "h_11_21.png"]);
    let files = vec![dot(1), dot(2), dot(3), dot(4)];
    let images = run(load_full_parallax_images(&names).unwrap(), &files).unwrap();
    assert_eq!(images.mode, ParallaxMode::Full);
    assert_eq!(images.grid_width, 2);
    assert_eq!(images.grid_height, 3);
    assert_eq!(images.rgb_bytes, vec![4, 4, 4, 1, 1, 1, 2, 2, 2]);
    assert_eq!(
        images.hogel_lookup,
        vec![0, 1, INVALID_IMAGE_INDEX, INVALID_IMAGE_INDEX, 2, INVALID_IMAGE_INDEX]
    );
    assert_eq!(images.shader_config(), [1, 2, 3, 0]);
}

#[test]
fn the_mode_decides_which_files_are_loaded() {
    let names = listing(&["1_1.png", "2_2.png"]);
    let files = vec![dot(1), dot(2)];
    let half = run(load_images_for_mode(&names, ParallaxMode::Half).unwrap(), &files).unwrap();
    assert_eq!(half.hogel_lookup, vec![0, 1]);
    let full = run(load_images_for_mode(&names, ParallaxMode::Full).unwrap(), &files).unwrap();
    assert_eq!(full.hogel_lookup, vec![0]);
    assert_eq!(full.mode, ParallaxMode::Full);
}

#[test]
fn the_order_of_the_listing_makes_no_difference() {
    let files_a = vec![dot(1), dot(2), dot(3)];
    let files_b = vec![dot(3), dot(1), dot(2)];
    let a = listing(&["1_1.png", "3_1.png", "1_3.png"]);
    let b = listing(&["1_3.png", "1_1.png", "3_1.png"]);
    let x = run(load_full_parallax_images(&a).unwrap(), &files_a).unwrap();
    let y = run(load_full_parallax_images(&b).unwrap(), &files_b).unwrap();
    assert_eq!(x.rgb_bytes, y.rgb_bytes);
    assert_eq!(x.hogel_lookup, y.hogel_lookup);
    assert_eq!(x.image_meta, y.image_meta);
}

#[test]
fn files_come_one_by_one() {
    let names = listing(&["5.png", "3.png"]);
    let loader = load_half_parallax_images(&names).unwrap();
    assert_eq!(loader.next_file(), Some(1));
    let loader = loader.add_file(&dot(3)).unwrap();
    assert_eq!(loader.next_file(), Some(0));
    let loader = loader.add_file(&dot(5)).unwrap();
    assert_eq!(loader.next_file(), None);
}

#[test]
fn a_directory_without_images_is_refused() {
    let names = listing(&["a.png", "5.jpg"]);
    assert!(matches!(load_half_parallax_images(&names), Err(LoadError::NoHalfParallaxImages)));
    assert!(matches!(load_half_parallax_images(&[]), Err(LoadError::NoHalfParallaxImages)));
    let names = listing(&["5.png", "2_3.png", "3_2.png"]);
    assert!(matches!(load_full_parallax_images(&names), Err(LoadError::NoFullParallaxImages)));
}

#[test]
fn an_enormous_grid_is_refused() {
    let names = listing(&["1_1.png", "4294967295_4294967295.png"]);
    assert!(matches!(
        load_full_parallax_images(&names),
        Err(LoadError::GridTooLarge { width: 2147483648, height: 2147483648 })
    ));
}

#[test]
fn files_without_a_place_make_no_difference() {
    for mode in [ParallaxMode::Half, ParallaxMode::Full] {
        let names = listing(&["h_1_3.png", "h_3_1.png"]);
        let plain = run(load_images_for_mode(&names, mode).unwrap(), &[dot(13), dot(31)]).unwrap();
        let mut names = listing(&["notes.txt", "h_3_1.png", "cover.png", "h_1_3.png", "7.jpg"]);
        names.push(None);
        let files = vec![Vec::new(), dot(31), Vec::new(), dot(13), Vec::new(), Vec::new()];
        let mixed = run(load_images_for_mode(&names, mode).unwrap(), &files).unwrap();
        assert_eq!(mixed.rgb_bytes, plain.rgb_bytes);
        assert_eq!(mixed.image_meta, plain.image_meta);
        assert_eq!(mixed.hogel_lookup, plain.hogel_lookup);
        assert_eq!((mixed.grid_width, mixed.grid_height), (plain.grid_width, plain.grid_height));
        assert_eq!(plain.rgb_bytes, vec![31, 31, 31, 13, 13, 13]);
    }
}

#[test]
fn two_files_for_one_cell_are_refused() {
    let names = listing(&["a_3_5.png", "b_3_5.png"]);
    let loader = load_full_parallax_images(&names).unwrap();
    let loader = loader.add_file(&dot(1)).unwrap();
    assert!(matches!(
        loader.add_file(&dot(2)),
        Err(LoadError::DuplicateCell { col: 1, row: 2 })
    ));
}

#[test]
fn a_damaged_file_ends_the_load() {
    let names = listing(&["a_3_5.png", "b_3_5.png"]);
    let loader = load_full_parallax_images(&names).unwrap();
    assert!(matches!(
        loader.add_file(b"junk"),
        Err(LoadError::Decode(DecodeError::Header(_)))
    ));
}

#[test]
fn every_color_reaches_the_texture() {
    let names = listing(&["2.png", "1.png"]);
    let files = vec![dot(20), dot(10)];
    let images = run(load_half_parallax_images(&names).unwrap(), &files).unwrap();
    let (texture, shader_meta, layout) =
        pack_rgb_bytes_to_layered_texture(&images.rgb_bytes, &images.image_meta).unwrap();
    for (k, gray) in [(0, 10), (1, 20)] {
        let [byte, width, height, layer] = shader_meta[k];
        assert_eq!((width, height), (1, 1));
        let at = layer as usize * layout[2] as usize + byte as usize;
        assert_eq!(texture.data[at..at + 3], [gray, gray, gray]);
    }
}
