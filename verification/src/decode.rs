//! Decoding of a PNG file into RGBA pixels.

use vstd::prelude::*;

verus! {

/// How the pixels of a decoded frame are laid out, one byte to a sample.
#[derive(Clone, Copy, Debug, PartialEq, Eq, Structural)]
pub enum ColorType {
    Grayscale,
    Rgb,
    Indexed,
    GrayscaleAlpha,
    Rgba,
}

/// The number of samples that make up one pixel.
pub open spec fn samples(color_type: ColorType) -> nat {
    match color_type {
        ColorType::Grayscale => 1,
        ColorType::Rgb => 3,
        ColorType::Indexed => 1,
        ColorType::GrayscaleAlpha => 2,
        ColorType::Rgba => 4,
    }
}

/// What the decoder reports of a frame that it wrote into a buffer.
#[derive(Clone, Copy, Debug, PartialEq, Eq, Structural)]
pub struct FrameInfo {
    pub width: u32,
    pub height: u32,
    pub color_type: ColorType,
    pub buffer_size: usize,
}

/// The error type of the `png` crate.
#[verifier::external_type_specification]
#[verifier::external_body]
pub struct ExDecodingError(png::DecodingError);

/// Why a file could not be decoded.
#[derive(Debug)]
pub enum DecodeError {
    /// What comes before the image data is no PNG header.
    Header(png::DecodingError),
    /// A row of the image is longer than the decoder allows.
    TooWide,
    /// The decoded frame would not fit into the memory space of the machine.
    OutputSize,
    /// The palette ends in the middle of a color.
    BrokenPalette,
    /// The image data is damaged.
    Frame(png::DecodingError),
    /// The pixels are still palette indices.
    UnexpectedIndexed,
}

/// What decoding a file comes to.
pub enum DecodeOutcome {
    BadHeader,
    RowTooLong,
    NoOutputSize,
    PaletteCutShort,
    BadFrame,
    StillIndexed,
    Image { width: u32, height: u32, rgba: Seq<u8> },
}

/// The greatest width that is handed to the decoder. The decoder sets itself a limit of 64 MiB for
/// a row, and a pixel takes at least a byte, so it accepts no greater width.
pub const MAX_WIDTH: u32 = 0x400_0000;

/// The width that `png::Decoder::read_header_info` finds in the header of `file`: `None` if the
/// header is refused.
pub uninterp spec fn png_width(file: Seq<u8>) -> Option<u32>;

/// What `png::Reader::output_buffer_size` returns for `file` on a machine whose `usize` has
/// `usize_bits` bits, where the decoder expands to full 8-bit samples: `None` if the header is
/// refused, and otherwise the size in bytes, if there is one.
pub uninterp spec fn png_output_size(file: Seq<u8>, usize_bits: nat) -> Option<Option<usize>>;

/// The color type that `png::Reader::info` gives for `file`, and the length in bytes of the
/// palette, if there is one: `None` if the header is refused.
pub uninterp spec fn png_palette(file: Seq<u8>, usize_bits: nat) -> Option<
    (ColorType, Option<usize>),
>;

/// What `png::Reader::next_frame` reports of the first frame of `file` and leaves in the buffer
/// that it was given, where the decoder expands to full 8-bit samples: `None` if it fails.
pub uninterp spec fn png_first_frame(file: Seq<u8>, buffer: Seq<u8>, usize_bits: nat) -> Option<
    (FrameInfo, Seq<u8>),
>;

/// Whether the header of `file` is in order but asks for rows that the decoder does not allow.
pub open spec fn is_too_wide(file: Seq<u8>) -> bool {
    png_width(file) matches Some(width) && width > MAX_WIDTH
}

/// Whether the pixels of `file` are indices into a palette that ends in the middle of a color.
pub open spec fn palette_is_broken(file: Seq<u8>) -> bool {
    png_palette(file, usize::BITS as nat) matches Some((ColorType::Indexed, Some(len))) && len % 3
        != 0
}

/// Reads the width of an image with `png::Decoder::read_header_info`, which stops behind the
/// header chunk. The answer depends on the bytes of the file alone. Which error comes is not
/// stated.
#[verifier::external_body]
fn header_width(file: &[u8]) -> (r: Result<u32, png::DecodingError>)
    ensures
        match r {
            Ok(width) => png_width(file@) == Some(width),
            Err(_) => png_width(file@) is None,
        },
{
    let mut decoder = png::Decoder::new(std::io::Cursor::new(file));
    Ok(decoder.read_header_info()?.width)
}

/// Asks `png::Reader::output_buffer_size` how many bytes the frame of a file takes, once
/// `png::Decoder::read_info` has read what comes before the image data. The decoder expands
/// palettes, samples of fewer than 8 bits and transparency, and strips 16-bit samples to 8 bits
/// (`EXPAND` and `STRIP_16`). The answer depends on the bytes of the file and on the width of
/// `usize` alone, and no size exceeds `isize::MAX`. Images that are too wide are left out, since
/// the decoder's count of their bytes may overflow. Which error comes is not stated.
#[verifier::external_body]
fn output_size(file: &[u8]) -> (r: Result<Option<usize>, png::DecodingError>)
    requires
        !is_too_wide(file@),
    ensures
        match r {
            Ok(size) => png_output_size(file@, usize::BITS as nat) == Some(size),
            Err(_) => png_output_size(file@, usize::BITS as nat) is None,
        },
        r matches Ok(Some(size)) ==> size <= isize::MAX,
{
    let mut decoder = png::Decoder::new(std::io::Cursor::new(file));
    decoder.set_transformations(png::Transformations::EXPAND | png::Transformations::STRIP_16);
    Ok(decoder.read_info()?.output_buffer_size())
}

/// Looks up in `png::Reader::info` the color type of a file and how many bytes its palette has,
/// once `png::Decoder::read_info` has read what comes before the image data, with the same
/// transformations as [`output_size`]. The answer depends on the bytes of the file and on the width
/// of `usize` alone. Images that are too wide are left out here too. Which error comes is not
/// stated.
#[verifier::external_body]
fn palette(file: &[u8]) -> (r: Result<(ColorType, Option<usize>), png::DecodingError>)
    requires
        !is_too_wide(file@),
    ensures
        match r {
            Ok(answer) => png_palette(file@, usize::BITS as nat) == Some(answer),
            Err(_) => png_palette(file@, usize::BITS as nat) is None,
        },
{
    let mut decoder = png::Decoder::new(std::io::Cursor::new(file));
    decoder.set_transformations(png::Transformations::EXPAND | png::Transformations::STRIP_16);
    let reader = decoder.read_info()?;
    let color_type = match reader.info().color_type {
        png::ColorType::Grayscale => ColorType::Grayscale,
        png::ColorType::Rgb => ColorType::Rgb,
        png::ColorType::Indexed => ColorType::Indexed,
        png::ColorType::GrayscaleAlpha => ColorType::GrayscaleAlpha,
        png::ColorType::Rgba => ColorType::Rgba,
    };
    Ok((color_type, reader.info().palette.as_deref().map(<[u8]>::len)))
}

/// Lets `png::Reader::next_frame` decode the first frame of a file into a buffer, with the same
/// transformations as [`output_size`]. The report and the buffer afterwards depend on the bytes
/// of the file, the buffer before and the width of `usize` alone. Samples come out with 8 bits
/// and palettes are expanded, so the frame takes a byte for each sample of each pixel, and it
/// lies within the buffer. Besides images that are too wide, those with a broken palette are left
/// out, since expanding such a palette panics. Which error comes is not stated.
#[verifier::external_body]
fn first_frame(file: &[u8], buffer: &mut Vec<u8>) -> (r: Result<FrameInfo, png::DecodingError>)
    requires
        !is_too_wide(file@),
        !palette_is_broken(file@),
    ensures
        match r {
            Ok(info) => png_first_frame(file@, old(buffer)@, usize::BITS as nat) == Some(
                (info, final(buffer)@),
            ),
            Err(_) => png_first_frame(file@, old(buffer)@, usize::BITS as nat) is None,
        },
        final(buffer)@.len() == old(buffer)@.len(),
        r matches Ok(info) ==> {
            &&& !(info.color_type is Indexed)
            &&& info.buffer_size == info.width * info.height * samples(info.color_type)
            &&& info.buffer_size <= old(buffer)@.len()
        },
{
    let mut decoder = png::Decoder::new(std::io::Cursor::new(file));
    decoder.set_transformations(png::Transformations::EXPAND | png::Transformations::STRIP_16);
    let info = decoder.read_info()?.next_frame(buffer)?;
    let color_type = match info.color_type {
        png::ColorType::Grayscale => ColorType::Grayscale,
        png::ColorType::Rgb => ColorType::Rgb,
        png::ColorType::Indexed => ColorType::Indexed,
        png::ColorType::GrayscaleAlpha => ColorType::GrayscaleAlpha,
        png::ColorType::Rgba => ColorType::Rgba,
    };
    let buffer_size: usize = info.buffer_size();
    Ok(FrameInfo { width: info.width, height: info.height, color_type, buffer_size })
}

/// The RGBA pixels that `data` shows when its pixels are of type `color_type`: gray fills all
/// three colors, and pixels without alpha become opaque. Bytes past the last whole pixel are
/// left out. There is nothing to show for palette indices.
pub open spec fn rgba_of(color_type: ColorType, data: Seq<u8>) -> Option<Seq<u8>> {
    match color_type {
        ColorType::Rgba => Some(data),
        ColorType::Rgb => Some(
            Seq::new(
                data.len() / 3 * 4,
                |i: int|
                    if i % 4 == 3 {
                        255
                    } else {
                        data[i / 4 * 3 + i % 4]
                    },
            ),
        ),
        ColorType::Grayscale => Some(
            Seq::new(
                data.len() * 4,
                |i: int|
                    if i % 4 == 3 {
                        255
                    } else {
                        data[i / 4]
                    },
            ),
        ),
        ColorType::GrayscaleAlpha => Some(
            Seq::new(
                data.len() / 2 * 4,
                |i: int|
                    if i % 4 == 3 {
                        data[i / 4 * 2 + 1]
                    } else {
                        data[i / 4 * 2]
                    },
            ),
        ),
        ColorType::Indexed => None,
    }
}

/// What a decoded frame comes to, `data` being its bytes.
pub open spec fn frame_outcome(info: FrameInfo, data: Seq<u8>) -> DecodeOutcome {
    match rgba_of(info.color_type, data) {
        Some(rgba) => DecodeOutcome::Image { width: info.width, height: info.height, rgba },
        None => DecodeOutcome::StillIndexed,
    }
}

/// What decoding a file comes to: unless its rows are too long or its palette is broken, its first
/// frame is decoded into a zeroed buffer of the size that the decoder asks for, and shown as RGBA.
pub open spec fn decoded(file: Seq<u8>) -> DecodeOutcome {
    if png_width(file) is None {
        DecodeOutcome::BadHeader
    } else if is_too_wide(file) {
        DecodeOutcome::RowTooLong
    } else {
        match png_output_size(file, usize::BITS as nat) {
            None => DecodeOutcome::BadHeader,
            Some(None) => DecodeOutcome::NoOutputSize,
            Some(Some(size)) => if png_palette(file, usize::BITS as nat) is None {
                DecodeOutcome::BadHeader
            } else if palette_is_broken(file) {
                DecodeOutcome::PaletteCutShort
            } else {
                let zeros = Seq::new(size as nat, |i: int| 0u8);
                match png_first_frame(file, zeros, usize::BITS as nat) {
                    None => DecodeOutcome::BadFrame,
                    Some((info, buffer)) => frame_outcome(
                        info,
                        buffer.take(info.buffer_size as int),
                    ),
                }
            },
        }
    }
}

/// Whether `error` reports the way in which `outcome` falls short of an image.
pub open spec fn reports(error: DecodeError, outcome: DecodeOutcome) -> bool {
    match outcome {
        DecodeOutcome::BadHeader => error is Header,
        DecodeOutcome::RowTooLong => error is TooWide,
        DecodeOutcome::NoOutputSize => error is OutputSize,
        DecodeOutcome::PaletteCutShort => error is BrokenPalette,
        DecodeOutcome::BadFrame => error is Frame,
        DecodeOutcome::StillIndexed => error is UnexpectedIndexed,
        DecodeOutcome::Image { .. } => false,
    }
}

/// Shows the pixels of a frame as RGBA.
pub fn to_rgba(color_type: ColorType, data: &[u8]) -> (rgba: Option<Vec<u8>>)
    ensures
        match rgba {
            Some(pixels) => rgba_of(color_type, data@) == Some(pixels@),
            None => rgba_of(color_type, data@) is None,
        },
{
    let mut rgba: Vec<u8> = Vec::new();
    let mut i: usize = 0;
    match color_type {
        ColorType::Rgba => {
            while i < data.len()
                invariant
                    i <= data@.len(),
                    rgba@ == data@.take(i as int),
                decreases data@.len() - i,
            {
                rgba.push(data[i]);
                i = i + 1;
            }
            assert(data@.take(i as int) == data@);
        },
        ColorType::Rgb => {
            let ghost whole = rgba_of(color_type, data@).unwrap();
            while data.len() - i >= 3
                invariant
                    i <= data@.len(),
                    i % 3 == 0,
                    color_type is Rgb,
                    rgba_of(color_type, data@) == Some(whole),
                    rgba@ == whole.take(i as int / 3 * 4),
                decreases data@.len() - i,
            {
                rgba.push(data[i]);
                rgba.push(data[i + 1]);
                rgba.push(data[i + 2]);
                rgba.push(255);
                i = i + 3;
                assert(rgba@ =~= whole.take(i as int / 3 * 4));
            }
            assert(whole.take(i as int / 3 * 4) == whole);
        },
        ColorType::Grayscale => {
            let ghost whole = rgba_of(color_type, data@).unwrap();
            while i < data.len()
                invariant
                    i <= data@.len(),
                    color_type is Grayscale,
                    rgba_of(color_type, data@) == Some(whole),
                    rgba@ == whole.take(i * 4),
                decreases data@.len() - i,
            {
                rgba.push(data[i]);
                rgba.push(data[i]);
                rgba.push(data[i]);
                rgba.push(255);
                i = i + 1;
                assert(rgba@ =~= whole.take(i * 4));
            }
            assert(whole.take(i * 4) == whole);
        },
        ColorType::GrayscaleAlpha => {
            let ghost whole = rgba_of(color_type, data@).unwrap();
            while data.len() - i >= 2
                invariant
                    i <= data@.len(),
                    i % 2 == 0,
                    color_type is GrayscaleAlpha,
                    rgba_of(color_type, data@) == Some(whole),
                    rgba@ == whole.take(i as int / 2 * 4),
                decreases data@.len() - i,
            {
                rgba.push(data[i]);
                rgba.push(data[i]);
                rgba.push(data[i]);
                rgba.push(data[i + 1]);
                i = i + 2;
                assert(rgba@ =~= whole.take(i as int / 2 * 4));
            }
            assert(whole.take(i as int / 2 * 4) == whole);
        },
        ColorType::Indexed => {
            return None;
        },
    }
    Some(rgba)
}

/// A frame of so many whole pixels is shown as that many RGBA pixels.
pub proof fn lemma_rgba_keeps_pixel_count(color_type: ColorType, data: Seq<u8>, pixels: nat)
    requires
        !(color_type is Indexed),
        data.len() == pixels * samples(color_type),
    ensures
        rgba_of(color_type, data) matches Some(rgba) && rgba.len() == pixels * 4,
{
}

/// Gray stands for each of the three colors, colors and alpha stay as they are, and what has no
/// alpha is opaque: so the pixel `p` of a frame becomes the four bytes of the pixel `p` in RGBA.
pub proof fn law_pixels_as_rgba(color_type: ColorType, data: Seq<u8>)
    ensures
        color_type is Rgba ==> rgba_of(color_type, data) == Some(data),
        color_type is Rgb ==> {
            &&& rgba_of(color_type, data) matches Some(rgba)
            &&& rgba.len() == 4 * (data.len() / 3)
            &&& forall|p: int, c: int|
                0 <= p && 3 * p + 2 < data.len() && 0 <= c < 3 ==> #[trigger] rgba[4 * p + c]
                    == data[3 * p + c]
            &&& forall|p: int|
                0 <= p && 3 * p + 2 < data.len() ==> #[trigger] rgba[4 * p + 3] == 255
        },
        color_type is Grayscale ==> {
            &&& rgba_of(color_type, data) matches Some(rgba)
            &&& rgba.len() == 4 * data.len()
            &&& forall|p: int, c: int|
                0 <= p < data.len() && 0 <= c < 3 ==> #[trigger] rgba[4 * p + c] == data[p]
            &&& forall|p: int| 0 <= p < data.len() ==> #[trigger] rgba[4 * p + 3] == 255
        },
        color_type is GrayscaleAlpha ==> {
            &&& rgba_of(color_type, data) matches Some(rgba)
            &&& rgba.len() == 4 * (data.len() / 2)
            &&& forall|p: int, c: int|
                0 <= p && 2 * p + 1 < data.len() && 0 <= c < 3 ==> #[trigger] rgba[4 * p + c]
                    == data[2 * p]
            &&& forall|p: int|
                0 <= p && 2 * p + 1 < data.len() ==> #[trigger] rgba[4 * p + 3] == data[2 * p + 1]
        },
        color_type is Indexed ==> rgba_of(color_type, data) is None,
{
    assert forall|p: int, c: int| 0 <= p && 0 <= c < 4 implies (#[trigger] (4 * p + c)) / 4 == p && (
    4 * p + c) % 4 == c by {}
}

/// A frame keeps its width and its height, and its pixels are those that RGBA shows of its bytes.
/// Only palette indices are no image.
pub proof fn law_frame_keeps_its_size(info: FrameInfo, data: Seq<u8>)
    ensures
        match frame_outcome(info, data) {
            DecodeOutcome::Image { width, height, rgba } => {
                &&& !(info.color_type is Indexed)
                &&& width == info.width
                &&& height == info.height
                &&& rgba_of(info.color_type, data) == Some(rgba)
            },
            outcome => outcome is StillIndexed && info.color_type is Indexed,
        },
{
}

/// Whether a file is decoded follows from what the decoder answers, one question after the other:
/// the width in the header, the size of the frame, the palette and the frame itself. Only a width
/// over 64 Mi pixels and a palette of pixels in use whose length is no multiple of three are
/// refused besides what the decoder refuses.
pub proof fn law_decoding(file: Seq<u8>, size: usize)
    ensures
        ({
            let bits = usize::BITS as nat;
            let zeros = Seq::new(size as nat, |i: int| 0u8);
            let too_wide = png_width(file) matches Some(width) && width > 0x400_0000;
            let broken = png_palette(file, bits) matches Some((color_type, Some(len)))
                && color_type is Indexed && len % 3 != 0;
            &&& png_width(file) is None ==> decoded(file) is BadHeader
            &&& too_wide <==> decoded(file) is RowTooLong
            &&& png_width(file) is Some && !too_wide ==> {
                &&& png_output_size(file, bits) is None ==> decoded(file) is BadHeader
                &&& png_output_size(file, bits) == Some(None::<usize>)
                    <==> decoded(file) is NoOutputSize
                &&& png_output_size(file, bits) == Some(Some(size)) ==> {
                    &&& png_palette(file, bits) is None <==> decoded(file) is BadHeader
                    &&& broken <==> decoded(file) is PaletteCutShort
                    &&& png_palette(file, bits) is Some && !broken ==> match png_first_frame(
                        file,
                        zeros,
                        bits,
                    ) {
                        None => decoded(file) is BadFrame,
                        Some((info, buffer)) => {
                            let data = buffer.take(info.buffer_size as int);
                            &&& info.color_type is Indexed <==> decoded(file) is StillIndexed
                            &&& !(info.color_type is Indexed) ==> {
                                &&& decoded(file) matches DecodeOutcome::Image {
                                    width,
                                    height,
                                    rgba,
                                }
                                &&& width == info.width
                                &&& height == info.height
                                &&& rgba_of(info.color_type, data) == Some(rgba)
                            }
                        },
                    }
                }
            }
        }),
{
}

/// Every error stands for one outcome, and an image is no error.
pub proof fn law_errors_tell_outcomes_apart(error: DecodeError, outcome: DecodeOutcome)
    ensures
        reports(error, outcome) <==> {
            ||| error is Header && outcome is BadHeader
            ||| error is TooWide && outcome is RowTooLong
            ||| error is OutputSize && outcome is NoOutputSize
            ||| error is BrokenPalette && outcome is PaletteCutShort
            ||| error is Frame && outcome is BadFrame
            ||| error is UnexpectedIndexed && outcome is StillIndexed
        },
{
}

/// Decodes a PNG file into its width, its height and its pixels, four bytes to a pixel.
pub fn decode_png_rgba8(file: &[u8]) -> (r: Result<(u32, u32, Vec<u8>), DecodeError>)
    ensures
        match r {
            Ok((width, height, rgba)) => {
                &&& decoded(file@) == (DecodeOutcome::Image { width, height, rgba: rgba@ })
                &&& rgba@.len() == width * height * 4
            },
            Err(error) => reports(error, decoded(file@)),
        },
        !(decoded(file@) is StillIndexed),
{
    match header_width(file) {
        Ok(width) => {
            if width > MAX_WIDTH {
                return Err(DecodeError::TooWide);
            }
        },
        Err(error) => {
            return Err(DecodeError::Header(error));
        },
    }
    let size: usize = match output_size(file) {
        Ok(Some(size)) => size,
        Ok(None) => {
            return Err(DecodeError::OutputSize);
        },
        Err(error) => {
            return Err(DecodeError::Header(error));
        },
    };
    match palette(file) {
        Ok((ColorType::Indexed, Some(len))) => {
            if len % 3 != 0 {
                return Err(DecodeError::BrokenPalette);
            }
        },
        Ok(_) => {},
        Err(error) => {
            return Err(DecodeError::Header(error));
        },
    }
    let mut buffer: Vec<u8> = vec![0u8; size];
    assert(buffer@ == Seq::new(size as nat, |i: int| 0u8));
    match first_frame(file, &mut buffer) {
        Err(error) => Err(DecodeError::Frame(error)),
        Ok(info) => {
            let data = vstd::slice::slice_subrange(buffer.as_slice(), 0, info.buffer_size);
            proof {
                assert(data@ == buffer@.take(info.buffer_size as int));
                lemma_rgba_keeps_pixel_count(
                    info.color_type,
                    data@,
                    (info.width * info.height) as nat,
                );
            }
            match to_rgba(info.color_type, data) {
                None => Err(DecodeError::UnexpectedIndexed),
                Some(rgba) => Ok((info.width, info.height, rgba)),
            }
        },
    }
}

} // verus!
