//! What holds of a load as a whole, from its start through any number of files.

use vstd::prelude::*;

use crate::entry::Entry;
use crate::images;
use crate::loader;
use crate::loader::{Grid, LoadState};
use crate::texture;

verus! {

/// A decoded image, with four bytes to a pixel.
pub struct Picture {
    pub width: u32,
    pub height: u32,
    pub rgba: Seq<u8>,
}

/// The load after these images have been taken one after the other.
pub open spec fn after(start: LoadState, pictures: Seq<Picture>) -> LoadState
    decreases pictures.len(),
{
    if pictures.len() == 0 {
        start
    } else {
        let last = pictures.last();
        loader::with_image(
            after(start, pictures.drop_last()),
            last.width,
            last.height,
            last.rgba,
        )
    }
}

/// Whether the loader takes all of these images: each finds its cell free when its turn comes.
pub open spec fn accepted(start: LoadState, pictures: Seq<Picture>) -> bool {
    forall|k: int|
        0 <= k < pictures.len() ==> {
            let state = #[trigger] after(start, pictures.take(k));
            !loader::next_cell_overflows(state) && !loader::next_cell_is_taken(state)
        }
}

/// Whether a load has just been started.
pub open spec fn fresh(start: LoadState) -> bool {
    &&& loader::valid(start)
    &&& start.taken == 0
    &&& start.rgb_bytes.len() == 0
    &&& start.grid is Cells ==> forall|c: int|
        0 <= c < start.hogel_lookup.len() ==> #[trigger] start.hogel_lookup[c]
            == loader::INVALID_IMAGE_INDEX
}

/// The store after these images holds this many bytes.
pub open spec fn stored(pictures: Seq<Picture>) -> nat
    decreases pictures.len(),
{
    if pictures.len() == 0 {
        0
    } else {
        stored(pictures.drop_last()) + images::rgb_of(pictures.last().rgba).len()
    }
}

/// Taking images changes neither the layout nor the selection, and keeps the load valid.
proof fn lemma_after(start: LoadState, pictures: Seq<Picture>)
    requires
        fresh(start),
        pictures.len() <= start.entries.len(),
    ensures
        loader::valid(after(start, pictures)),
        after(start, pictures).grid == start.grid,
        after(start, pictures).entries == start.entries,
        after(start, pictures).taken == pictures.len(),
        after(start, pictures).rgb_bytes.len() == stored(pictures),
    decreases pictures.len(),
{
    if pictures.len() > 0 {
        let shorter = pictures.drop_last();
        lemma_after(start, shorter);
        lemma_cell_in_table(start, shorter.len() as int);
    }
}

/// The cell of an entry has a place in the lookup table.
proof fn lemma_cell_in_table(start: LoadState, k: int)
    requires
        loader::valid(start),
        0 <= k < start.entries.len(),
    ensures
        start.grid is Cells ==> 0 <= loader::cell_of(start.grid, start.entries[k])
            < start.hogel_lookup.len(),
{
    if let Grid::Cells { min_col, min_row, width, height } = start.grid {
        assert(loader::in_grid(start.grid, start.entries[k]));
        loader::law_cells(min_col, min_row, width, height, start.entries[k], start.entries[k]);
    }
}

proof fn lemma_stored_grows(pictures: Seq<Picture>, k: int)
    requires
        0 <= k <= pictures.len(),
    ensures
        stored(pictures.take(k)) <= stored(pictures),
    decreases pictures.len(),
{
    if k < pictures.len() {
        lemma_stored_grows(pictures.drop_last(), k);
        assert(pictures.drop_last().take(k) == pictures.take(k));
    } else {
        assert(pictures.take(k) == pictures);
    }
}

/// In the store an image takes three bytes to a pixel.
pub proof fn law_three_bytes_to_a_pixel(picture: Picture)
    requires
        picture.rgba.len() == picture.width * picture.height * 4,
    ensures
        images::rgb_of(picture.rgba).len() == picture.width * picture.height * 3,
{
    let pixels = (picture.width * picture.height) as nat;
    assert(images::rgb_of(picture.rgba).len() == pixels * 4 / 4 * 3);
}

/// The store keeps every image: what is noted of the image at `k` is its size and where its bytes
/// start, its bytes are found there unchanged, and they start where those of the image before it
/// end.
pub proof fn law_images_are_kept(start: LoadState, pictures: Seq<Picture>, k: int)
    requires
        fresh(start),
        pictures.len() <= start.entries.len(),
        0 <= k < pictures.len(),
        stored(pictures) <= u64::MAX,
    ensures
        ({
            let state = after(start, pictures);
            let meta = state.image_meta[k];
            let rgb = images::rgb_of(pictures[k].rgba);
            &&& state.image_meta.len() == pictures.len()
            &&& meta.width == pictures[k].width
            &&& meta.height == pictures[k].height
            &&& meta.offset_bytes == stored(pictures.take(k))
            &&& meta.offset_bytes + rgb.len() == stored(pictures.take(k + 1))
            &&& stored(pictures.take(k + 1)) <= state.rgb_bytes.len()
            &&& state.rgb_bytes.len() == stored(pictures)
            &&& state.rgb_bytes.subrange(
                meta.offset_bytes as int,
                meta.offset_bytes + rgb.len(),
            ) == rgb
        }),
    decreases pictures.len(),
{
    let shorter = pictures.drop_last();
    let state = after(start, pictures);
    let before = after(start, shorter);
    lemma_after(start, pictures);
    lemma_after(start, shorter);
    lemma_stored_grows(pictures, k);
    lemma_stored_grows(pictures, k + 1);
    assert(pictures.take(k + 1).drop_last() == pictures.take(k));
    let rgb = images::rgb_of(pictures[k].rgba);
    if k < shorter.len() {
        law_images_are_kept(start, shorter, k);
        assert(shorter.take(k) == pictures.take(k));
        assert(shorter.take(k + 1) == pictures.take(k + 1));
        let from = state.image_meta[k].offset_bytes as int;
        assert(state.rgb_bytes.subrange(from, from + rgb.len()) == before.rgb_bytes.subrange(
            from,
            from + rgb.len(),
        ));
    } else {
        assert(shorter == pictures.take(k));
        assert(pictures.take(k + 1) == pictures);
        assert(state.rgb_bytes.subrange(before.rgb_bytes.len() as int, state.rgb_bytes.len() as int)
            == rgb);
    }
}

/// The lookup table of a half-parallax hologram shows the images in the order in which they were
/// loaded.
pub proof fn law_half_lookup(start: LoadState, pictures: Seq<Picture>)
    requires
        fresh(start),
        start.grid is Row,
        pictures.len() <= start.entries.len(),
        pictures.len() <= 0x1_0000_0000,
    ensures
        after(start, pictures).hogel_lookup.len() == pictures.len(),
        forall|k: int|
            0 <= k < pictures.len() ==> #[trigger] after(start, pictures).hogel_lookup[k] == k,
    decreases pictures.len(),
{
    lemma_after(start, pictures);
    if pictures.len() > 0 {
        let shorter = pictures.drop_last();
        law_half_lookup(start, shorter);
        lemma_after(start, shorter);
        assert forall|k: int| 0 <= k < pictures.len() implies #[trigger] after(
            start,
            pictures,
        ).hogel_lookup[k] == k by {
            if k < shorter.len() {
                assert(after(start, shorter).hogel_lookup[k] == k);
            }
        }
    }
}

/// A load that has just been started is fresh.
pub proof fn law_starts_are_fresh(entries: Seq<Entry>)
    ensures
        fresh(loader::half_start(entries)),
        loader::valid(loader::full_start(entries)) ==> fresh(loader::full_start(entries)),
{
}

proof fn lemma_accepted_prefix(start: LoadState, pictures: Seq<Picture>)
    requires
        pictures.len() > 0,
        accepted(start, pictures),
    ensures
        accepted(start, pictures.drop_last()),
        !loader::next_cell_overflows(after(start, pictures.drop_last())),
        !loader::next_cell_is_taken(after(start, pictures.drop_last())),
{
    let shorter = pictures.drop_last();
    assert forall|k: int| 0 <= k < shorter.len() implies {
        let state = #[trigger] after(start, shorter.take(k));
        !loader::next_cell_overflows(state) && !loader::next_cell_is_taken(state)
    } by {
        assert(shorter.take(k) == pictures.take(k));
    }
    assert(pictures.take(pictures.len() - 1) == shorter);
    assert(after(start, pictures.take(pictures.len() - 1)) == after(start, shorter));
}

/// Whether one of the first `count` entries has the cell `c`.
pub open spec fn occupied(start: LoadState, count: int, c: int) -> bool {
    exists|k: int|
        0 <= k < count && loader::cell_of(start.grid, #[trigger] start.entries[k]) == c
}

/// The lookup table of a full-parallax hologram leads from the cell of every image to that image,
/// and shows nothing in any other cell.
pub proof fn law_full_lookup(start: LoadState, pictures: Seq<Picture>)
    requires
        fresh(start),
        start.grid is Cells,
        pictures.len() <= start.entries.len(),
        pictures.len() <= u32::MAX,
        accepted(start, pictures),
    ensures
        after(start, pictures).hogel_lookup.len() == start.hogel_lookup.len(),
        forall|k: int|
            0 <= k < pictures.len() ==> after(start, pictures).hogel_lookup[loader::cell_of(
                start.grid,
                #[trigger] start.entries[k],
            )] == k,
        forall|c: int|
            0 <= c < start.hogel_lookup.len() ==> (#[trigger] after(
                start,
                pictures,
            ).hogel_lookup[c] == loader::INVALID_IMAGE_INDEX <==> !occupied(
                start,
                pictures.len() as int,
                c,
            )),
    decreases pictures.len(),
{
    let state = after(start, pictures);
    lemma_after(start, pictures);
    if pictures.len() > 0 {
        let shorter = pictures.drop_last();
        let before = after(start, shorter);
        let n = shorter.len() as int;
        lemma_accepted_prefix(start, pictures);
        law_full_lookup(start, shorter);
        lemma_after(start, shorter);
        lemma_cell_in_table(start, n);
        let cell = loader::cell_of(start.grid, start.entries[n]);
        assert(before.hogel_lookup[cell] == loader::INVALID_IMAGE_INDEX);
        assert(!occupied(start, n, cell));
        assert(state.hogel_lookup == before.hogel_lookup.update(cell, n as u32));
        assert forall|k: int| 0 <= k < pictures.len() implies state.hogel_lookup[loader::cell_of(
            start.grid,
            #[trigger] start.entries[k],
        )] == k by {
            lemma_cell_in_table(start, k);
            if k < n {
                assert(loader::cell_of(start.grid, start.entries[k]) != cell);
            }
        }
        assert forall|c: int| 0 <= c < start.hogel_lookup.len() implies (
        #[trigger] state.hogel_lookup[c] == loader::INVALID_IMAGE_INDEX <==> !occupied(
            start,
            pictures.len() as int,
            c,
        )) by {
            if c == cell {
                assert(loader::cell_of(start.grid, start.entries[n]) == c);
            } else {
                assert(before.hogel_lookup[c] == state.hogel_lookup[c]);
                if occupied(start, pictures.len() as int, c) {
                    let k = choose|k: int|
                        0 <= k < pictures.len() && loader::cell_of(
                            start.grid,
                            #[trigger] start.entries[k],
                        ) == c;
                    assert(k < n);
                }
            }
        }
    }
}

/// The lookup table shows the grid row by row: at the column `x` and the row `y` it has the image
/// whose place that is, and `u32::MAX` where there is no such image.
pub proof fn law_lookup_shows_the_grid(
    start: LoadState,
    pictures: Seq<Picture>,
    min_col: u32,
    min_row: u32,
    width: u32,
    height: u32,
    x: int,
    y: int,
)
    requires
        fresh(start),
        start.grid == (Grid::Cells { min_col, min_row, width, height }),
        pictures.len() <= start.entries.len(),
        pictures.len() <= u32::MAX,
        accepted(start, pictures),
        0 <= x < width,
        0 <= y < height,
    ensures
        after(start, pictures).hogel_lookup.len() == width * height,
        y * width + x < width * height,
        ({
            let image = after(start, pictures).hogel_lookup[y * width + x];
            if image == u32::MAX {
                forall|k: int|
                    0 <= k < pictures.len() ==> (#[trigger] start.entries[k]).col != min_col + x
                        || start.entries[k].row != min_row + y
            } else {
                &&& image < pictures.len()
                &&& start.entries[image as int].col == min_col + x
                &&& start.entries[image as int].row == min_row + y
            }
        }),
{
    let c = y * width + x;
    let n = pictures.len() as int;
    let image = after(start, pictures).hogel_lookup[c];
    lemma_after(start, pictures);
    law_full_lookup(start, pictures);
    assert(0 <= c < width * height) by (nonlinear_arith)
        requires
            c == y * width + x,
            0 <= x < width,
            0 <= y < height,
    ;
    vstd::arithmetic::div_mod::lemma_fundamental_div_mod_converse(c, width as int, y, x);
    if image != u32::MAX {
        let k = choose|k: int|
            0 <= k < n && loader::cell_of(start.grid, #[trigger] start.entries[k]) == c;
        assert(loader::in_grid(start.grid, start.entries[k]));
        loader::law_cells_go_row_by_row(min_col, min_row, width, height, start.entries[k]);
    } else {
        assert(!occupied(start, n, c));
        assert forall|k: int| 0 <= k < n implies (#[trigger] start.entries[k]).col != min_col + x
            || start.entries[k].row != min_row + y by {
            assert(loader::cell_of(start.grid, start.entries[k]) != c);
        }
    }
}

/// A full-parallax load takes images exactly as long as no two entries share a place and every
/// cell has an index that a `u32` can hold.
pub proof fn law_acceptance(start: LoadState, pictures: Seq<Picture>)
    requires
        fresh(start),
        start.grid is Cells,
        pictures.len() <= start.entries.len(),
        pictures.len() <= u32::MAX,
    ensures
        accepted(start, pictures) <==> {
            &&& forall|k: int|
                0 <= k < pictures.len() ==> loader::cell_of(
                    start.grid,
                    #[trigger] start.entries[k],
                ) <= u32::MAX
            &&& forall|i: int, j: int|
                0 <= i < j < pictures.len() ==> (#[trigger] start.entries[i]).col != (
                #[trigger] start.entries[j]).col || start.entries[i].row != start.entries[j].row
        },
    decreases pictures.len(),
{
    if pictures.len() > 0 {
        let shorter = pictures.drop_last();
        let before = after(start, shorter);
        let n = shorter.len() as int;
        lemma_after(start, shorter);
        law_acceptance(start, shorter);
        lemma_cell_in_table(start, n);
        let cell = loader::cell_of(start.grid, start.entries[n]);
        assert forall|k: int| 0 <= k < n implies (loader::cell_of(
            start.grid,
            #[trigger] start.entries[k],
        ) == cell <==> start.entries[k].col == start.entries[n].col && start.entries[k].row
            == start.entries[n].row) by {
            lemma_same_cell(start, k, n);
        }
        if accepted(start, pictures) {
            lemma_accepted_prefix(start, pictures);
            law_full_lookup(start, shorter);
            assert(!occupied(start, n, cell));
        }
        if accepted(start, shorter) && cell <= u32::MAX {
            law_full_lookup(start, shorter);
            if !occupied(start, n, cell) {
                assert(before.hogel_lookup[cell] == loader::INVALID_IMAGE_INDEX);
                assert forall|k: int| 0 <= k < pictures.len() implies {
                    let state = #[trigger] after(start, pictures.take(k));
                    !loader::next_cell_overflows(state) && !loader::next_cell_is_taken(state)
                } by {
                    if k < n {
                        assert(pictures.take(k) == shorter.take(k));
                        assert(after(start, shorter.take(k)) == after(start, pictures.take(k)));
                    } else {
                        assert(pictures.take(k) == shorter);
                    }
                }
            }
        }
    }
}

/// Two entries have the same cell exactly if they have the same place.
proof fn lemma_same_cell(start: LoadState, i: int, j: int)
    requires
        loader::valid(start),
        start.grid is Cells,
        0 <= i < start.entries.len(),
        0 <= j < start.entries.len(),
    ensures
        loader::cell_of(start.grid, start.entries[i]) == loader::cell_of(
            start.grid,
            start.entries[j],
        ) <==> start.entries[i].col == start.entries[j].col && start.entries[i].row
            == start.entries[j].row,
{
    if let Grid::Cells { min_col, min_row, width, height } = start.grid {
        assert(loader::in_grid(start.grid, start.entries[i]));
        assert(loader::in_grid(start.grid, start.entries[j]));
        loader::law_cells(min_col, min_row, width, height, start.entries[i], start.entries[j]);
    }
}

/// Every color that was decoded arrives in the texture: the color `c` of the pixel `p` of the
/// image at `k` is found where the shader is told to look for it.
pub proof fn law_colors_reach_the_texture(
    start: LoadState,
    pictures: Seq<Picture>,
    k: int,
    p: int,
    c: int,
)
    requires
        fresh(start),
        pictures.len() <= start.entries.len(),
        stored(pictures) <= u64::MAX,
        0 <= k < pictures.len(),
        0 <= p < pictures[k].rgba.len() / 4,
        0 <= c < 3,
    ensures
        ({
            let state = after(start, pictures);
            let meta = state.image_meta[k];
            let within = texture::base_byte(meta) + 3 * p + c;
            let layer = texture::base_layer(meta) + within / texture::bytes_per_layer() as int;
            let byte = within % texture::bytes_per_layer() as int;
            &&& 0 <= layer < texture::layers_for(state.rgb_bytes.len())
            &&& texture::texture_bytes(state.rgb_bytes)[layer * texture::bytes_per_layer() + byte]
                == pictures[k].rgba[4 * p + c]
        }),
{
    law_images_are_kept(start, pictures, k);
    let state = after(start, pictures);
    let meta = state.image_meta[k];
    let rgb = images::rgb_of(pictures[k].rgba);
    let i = 3 * p + c;
    texture::law_texture_gives_back(state.rgb_bytes, meta, i);
    let from = meta.offset_bytes as int;
    assert(state.rgb_bytes.subrange(from, from + rgb.len())[i] == state.rgb_bytes[from + i]);
    assert(rgb[i] == pictures[k].rgba[4 * p + c]);
}

/// The shader finds every pixel by the words that it is told: the color `c` of the pixel at `x` and
/// `y` of the image at `k` lies three bytes to a pixel and a width of pixels to a row past the byte
/// and the layer at which the image starts.
pub proof fn law_shader_finds_pixels(
    start: LoadState,
    pictures: Seq<Picture>,
    k: int,
    x: int,
    y: int,
    c: int,
)
    requires
        fresh(start),
        pictures.len() <= start.entries.len(),
        stored(pictures) <= 0x1_0000_0000 * 0x400_0000,
        0 <= k < pictures.len(),
        pictures[k].rgba.len() == pictures[k].width * pictures[k].height * 4,
        0 <= x < pictures[k].width,
        0 <= y < pictures[k].height,
        0 <= c < 3,
    ensures
        ({
            let state = after(start, pictures);
            let words = texture::shader_meta_of(state.image_meta[k]);
            let at = words[3] * 0x400_0000 + words[0] + 3 * (y * words[1] + x) + c;
            &&& words[1] == pictures[k].width
            &&& words[2] == pictures[k].height
            &&& 0 <= at < texture::texture_bytes(state.rgb_bytes).len()
            &&& texture::texture_bytes(state.rgb_bytes)[at] == pictures[k].rgba[4 * (y
                * pictures[k].width + x) + c]
        }),
{
    let picture = pictures[k];
    let state = after(start, pictures);
    let meta = state.image_meta[k];
    let rgb = images::rgb_of(picture.rgba);
    let p = y * picture.width + x;
    let pixels = (picture.width * picture.height) as int;
    law_images_are_kept(start, pictures, k);
    law_three_bytes_to_a_pixel(picture);
    images::law_store_keeps_colors(picture.rgba);
    texture::law_texture_holds_the_store(state.rgb_bytes);
    assert(0 <= p < pixels) by (nonlinear_arith)
        requires
            p == y * picture.width + x,
            pixels == picture.width * picture.height,
            0 <= x < picture.width,
            0 <= y < picture.height,
    ;
    texture::law_shader_words(meta);
    let from = meta.offset_bytes as int;
    let i = 3 * p + c;
    assert(rgb[i] == picture.rgba[4 * p + c]);
    assert(state.rgb_bytes.subrange(from, from + rgb.len())[i] == state.rgb_bytes[from + i]);
    assert(texture::texture_bytes(state.rgb_bytes).take(state.rgb_bytes.len() as int)[from + i]
        == texture::texture_bytes(state.rgb_bytes)[from + i]);
}

} // verus!
