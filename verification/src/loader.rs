//! Loading the images of a hologram, one file after the other.
//!
//! A load starts from the names in a directory. From then on the loader says which file comes
//! next and takes the bytes of that file, until every selected file has been taken.

use vstd::prelude::*;

use crate::decode;
use crate::decode::DecodeError;
use crate::entry;
use crate::entry::{sort_entries, Entry};
use crate::images;
use crate::images::{push_image_data, ImageMetaCpu};
use crate::mode;
use crate::mode::ParallaxMode;
use crate::select;
use crate::select::select;

verus! {

/// Stands in the lookup table for a cell without an image.
pub const INVALID_IMAGE_INDEX: u32 = 0xffff_ffff;

/// How the images of a hologram are laid out.
#[derive(Clone, Copy, Debug, PartialEq, Eq, Structural)]
pub enum Grid {
    /// In one row, in the order in which they are loaded.
    Row,
    /// In the cells of a grid whose first cell stands for `min_col` and `min_row`.
    Cells { min_col: u32, min_row: u32, width: u32, height: u32 },
}

/// Why a hologram could not be loaded.
#[derive(Debug)]
pub enum LoadError {
    /// No PNG with a number in its name was found.
    NoHalfParallaxImages,
    /// No PNG with two odd numbers in its name was found.
    NoFullParallaxImages,
    /// A lookup table for a grid of this size cannot be allocated.
    GridTooLarge { width: u32, height: u32 },
    /// The cell of an image has an index that a `u32` cannot hold.
    GridIndexOverflow,
    /// Two files claim the same cell.
    DuplicateCell { col: u32, row: u32 },
    /// There are more images than a `u32` can count.
    TooManyImages,
    /// A file could not be decoded.
    Decode(DecodeError),
}

/// The images of a hologram, with the table that tells which image shows in which cell.
#[derive(Debug)]
pub struct DecodedImages {
    pub mode: ParallaxMode,
    pub rgb_bytes: Vec<u8>,
    pub image_meta: Vec<ImageMetaCpu>,
    pub hogel_lookup: Vec<u32>,
    pub grid_width: u32,
    pub grid_height: u32,
}

impl DecodedImages {
    /// What the shader is told of the hologram as a whole.
    pub fn shader_config(&self) -> (config: [u32; 4])
        ensures
            config@ == seq![mode::mode_code(self.mode), self.grid_width, self.grid_height, 0u32],
    {
        [self.mode.as_u32(), self.grid_width, self.grid_height, 0]
    }
}

/// How far a load has come.
#[verifier::ext_equal]
pub struct LoadState {
    /// The layout of the images.
    pub grid: Grid,
    /// The selected files, in the order in which they are loaded.
    pub entries: Seq<Entry>,
    /// How many of them have been taken.
    pub taken: nat,
    /// The bytes of the images so far.
    pub rgb_bytes: Seq<u8>,
    /// What is noted of each image so far.
    pub image_meta: Seq<ImageMetaCpu>,
    /// The lookup table.
    pub hogel_lookup: Seq<u32>,
}

/// The least of some numbers.
pub open spec fn least(numbers: Seq<u32>) -> u32
    recommends
        numbers.len() > 0,
    decreases numbers.len(),
{
    if numbers.len() <= 1 {
        numbers[0]
    } else if numbers.last() < least(numbers.drop_last()) {
        numbers.last()
    } else {
        least(numbers.drop_last())
    }
}

/// The greatest of some numbers.
pub open spec fn greatest(numbers: Seq<u32>) -> u32
    recommends
        numbers.len() > 0,
    decreases numbers.len(),
{
    if numbers.len() <= 1 {
        numbers[0]
    } else if numbers.last() > greatest(numbers.drop_last()) {
        numbers.last()
    } else {
        greatest(numbers.drop_last())
    }
}

/// The columns of some entries.
pub open spec fn cols(entries: Seq<Entry>) -> Seq<u32> {
    entries.map_values(|entry: Entry| entry.col)
}

/// The rows of some entries.
pub open spec fn rows(entries: Seq<Entry>) -> Seq<u32> {
    entries.map_values(|entry: Entry| entry.row)
}

/// The number of columns from the first that is used to the last.
pub open spec fn width_of(entries: Seq<Entry>) -> int {
    greatest(cols(entries)) - least(cols(entries)) + 1
}

/// The number of rows from the first that is used to the last.
pub open spec fn height_of(entries: Seq<Entry>) -> int {
    greatest(rows(entries)) - least(rows(entries)) + 1
}

/// The start of a half-parallax load.
pub open spec fn half_start(entries: Seq<Entry>) -> LoadState {
    LoadState {
        grid: Grid::Row,
        entries,
        taken: 0,
        rgb_bytes: seq![],
        image_meta: seq![],
        hogel_lookup: seq![],
    }
}

/// The start of a full-parallax load: the smallest grid that has a cell for every entry, with no
/// image in any cell.
pub open spec fn full_start(entries: Seq<Entry>) -> LoadState {
    LoadState {
        grid: Grid::Cells {
            min_col: least(cols(entries)),
            min_row: least(rows(entries)),
            width: width_of(entries) as u32,
            height: height_of(entries) as u32,
        },
        entries,
        taken: 0,
        rgb_bytes: seq![],
        image_meta: seq![],
        hogel_lookup: Seq::new(
            (width_of(entries) * height_of(entries)) as nat,
            |i: int| INVALID_IMAGE_INDEX,
        ),
    }
}

/// Whether the lookup table for the grid of these entries exceeds what can be allocated.
pub open spec fn too_large(entries: Seq<Entry>) -> bool {
    width_of(entries) * height_of(entries) * 4 > isize::MAX
}

/// The position in the lookup table of the cell of an entry, counting the cells row by row.
pub open spec fn cell_of(grid: Grid, entry: Entry) -> int {
    match grid {
        Grid::Row => 0,
        Grid::Cells { min_col, min_row, width, height } => (entry.row - min_row) * width + (
        entry.col - min_col),
    }
}

/// Whether an entry lies within the grid.
pub open spec fn in_grid(grid: Grid, entry: Entry) -> bool {
    match grid {
        Grid::Row => true,
        Grid::Cells { min_col, min_row, width, height } => {
            &&& min_col <= entry.col < min_col + width
            &&& min_row <= entry.row < min_row + height
        },
    }
}

/// What every load that has been started keeps to.
pub open spec fn valid(state: LoadState) -> bool {
    &&& state.taken <= state.entries.len()
    &&& state.image_meta.len() == state.taken
    &&& forall|k: int|
        0 <= k < state.entries.len() ==> in_grid(state.grid, #[trigger] state.entries[k])
    &&& match state.grid {
        Grid::Row => state.hogel_lookup.len() == state.taken,
        Grid::Cells { min_col, min_row, width, height } => state.hogel_lookup.len() == width
            * height,
    }
}

/// Whether the cell of the next entry cannot be addressed by a `u32`.
pub open spec fn next_cell_overflows(state: LoadState) -> bool {
    state.grid is Cells && cell_of(state.grid, state.entries[state.taken as int]) > u32::MAX
}

/// Whether the cell of the next entry already has an image.
pub open spec fn next_cell_is_taken(state: LoadState) -> bool {
    state.grid is Cells && state.hogel_lookup[cell_of(
        state.grid,
        state.entries[state.taken as int],
    )] != INVALID_IMAGE_INDEX
}

/// The load once the next file has turned out to hold this image.
pub open spec fn with_image(state: LoadState, width: u32, height: u32, rgba: Seq<u8>) -> LoadState {
    let index = images::index_after(state.image_meta.len());
    LoadState {
        grid: state.grid,
        entries: state.entries,
        taken: state.taken + 1,
        rgb_bytes: state.rgb_bytes + images::rgb_of(rgba),
        image_meta: state.image_meta.push(
            images::meta_of(state.rgb_bytes.len(), width, height),
        ),
        hogel_lookup: match state.grid {
            Grid::Row => state.hogel_lookup.push(index),
            Grid::Cells { .. } => state.hogel_lookup.update(
                cell_of(state.grid, state.entries[state.taken as int]),
                index,
            ),
        },
    }
}

/// A load under way.
pub struct ImageLoader {
    grid: Grid,
    entries: Vec<Entry>,
    taken: usize,
    rgb_bytes: Vec<u8>,
    image_meta: Vec<ImageMetaCpu>,
    hogel_lookup: Vec<u32>,
}

impl View for ImageLoader {
    type V = LoadState;

    closed spec fn view(&self) -> LoadState {
        LoadState {
            grid: self.grid,
            entries: self.entries@,
            taken: self.taken as nat,
            rgb_bytes: self.rgb_bytes@,
            image_meta: self.image_meta@,
            hogel_lookup: self.hogel_lookup@,
        }
    }
}

proof fn lemma_least(numbers: Seq<u32>)
    requires
        numbers.len() > 0,
    ensures
        numbers.contains(least(numbers)),
        forall|i: int| 0 <= i < numbers.len() ==> least(numbers) <= #[trigger] numbers[i],
    decreases numbers.len(),
{
    if numbers.len() > 1 {
        let shorter = numbers.drop_last();
        lemma_least(shorter);
        let k = choose|k: int| 0 <= k < shorter.len() && shorter[k] == least(shorter);
        assert(numbers[k] == least(shorter));
        assert(numbers[numbers.len() - 1] == numbers.last());
        assert forall|i: int| 0 <= i < numbers.len() implies least(numbers)
            <= #[trigger] numbers[i] by {
            if i < shorter.len() {
                assert(least(shorter) <= shorter[i]);
            }
        }
    } else {
        assert(numbers[0] == least(numbers));
    }
}

proof fn lemma_greatest(numbers: Seq<u32>)
    requires
        numbers.len() > 0,
    ensures
        numbers.contains(greatest(numbers)),
        forall|i: int| 0 <= i < numbers.len() ==> #[trigger] numbers[i] <= greatest(numbers),
    decreases numbers.len(),
{
    if numbers.len() > 1 {
        let shorter = numbers.drop_last();
        lemma_greatest(shorter);
        let k = choose|k: int| 0 <= k < shorter.len() && shorter[k] == greatest(shorter);
        assert(numbers[k] == greatest(shorter));
        assert(numbers[numbers.len() - 1] == numbers.last());
        assert forall|i: int| 0 <= i < numbers.len() implies #[trigger] numbers[i] <= greatest(
            numbers,
        ) by {
            if i < shorter.len() {
                assert(shorter[i] <= greatest(shorter));
            }
        }
    } else {
        assert(numbers[0] == greatest(numbers));
    }
}

/// The grid of a full-parallax load is as small as it can be: every entry lies in it, and each of
/// its four edges has an entry.
pub proof fn law_grid_fits(entries: Seq<Entry>)
    requires
        entries.len() > 0,
    ensures
        forall|k: int|
            0 <= k < entries.len() ==> least(cols(entries)) <= (#[trigger] entries[k]).col
                <= greatest(cols(entries)) && least(rows(entries)) <= entries[k].row <= greatest(
                rows(entries),
            ),
        exists|k: int| 0 <= k < entries.len() && (#[trigger] entries[k]).col == least(cols(entries)),
        exists|k: int|
            0 <= k < entries.len() && (#[trigger] entries[k]).col == greatest(cols(entries)),
        exists|k: int| 0 <= k < entries.len() && (#[trigger] entries[k]).row == least(rows(entries)),
        exists|k: int|
            0 <= k < entries.len() && (#[trigger] entries[k]).row == greatest(rows(entries)),
{
    let c = cols(entries);
    let r = rows(entries);
    lemma_least(c);
    lemma_greatest(c);
    lemma_least(r);
    lemma_greatest(r);
    assert forall|k: int| 0 <= k < entries.len() implies least(c) <= (#[trigger] entries[k]).col
        <= greatest(c) && least(r) <= entries[k].row <= greatest(r) by {
        assert(c[k] == entries[k].col);
        assert(r[k] == entries[k].row);
    }
    let a = choose|k: int| 0 <= k < c.len() && c[k] == least(c);
    assert(entries[a].col == least(c));
    let b = choose|k: int| 0 <= k < c.len() && c[k] == greatest(c);
    assert(entries[b].col == greatest(c));
    let d = choose|k: int| 0 <= k < r.len() && r[k] == least(r);
    assert(entries[d].row == least(r));
    let e = choose|k: int| 0 <= k < r.len() && r[k] == greatest(r);
    assert(entries[e].row == greatest(r));
}

/// The places of a full-parallax hologram come from halved numbers.
proof fn lemma_full_places_are_small(names: Seq<Option<Seq<char>>>)
    ensures
        forall|k: int|
            0 <= k < select::selected(ParallaxMode::Full, names).len() ==> (
            #[trigger] select::selected(ParallaxMode::Full, names)[k]).row <= 0x7fff_ffff
                && select::selected(ParallaxMode::Full, names)[k].col <= 0x7fff_ffff,
    decreases names.len(),
{
    if names.len() > 0 {
        lemma_full_places_are_small(names.drop_last());
        let earlier = select::selected(ParallaxMode::Full, names.drop_last());
        let all = select::selected(ParallaxMode::Full, names);
        assert forall|k: int| 0 <= k < all.len() implies (#[trigger] all[k]).row <= 0x7fff_ffff
            && all[k].col <= 0x7fff_ffff by {
            if k < earlier.len() {
                assert(all[k] == earlier[k]);
            }
        }
    }
}

/// The least column, the greatest column, the least row and the greatest row.
fn bounds(entries: &Vec<Entry>) -> (r: (u32, u32, u32, u32))
    requires
        entries@.len() > 0,
    ensures
        r.0 == least(cols(entries@)),
        r.1 == greatest(cols(entries@)),
        r.2 == least(rows(entries@)),
        r.3 == greatest(rows(entries@)),
{
    let ghost c = cols(entries@);
    let ghost r = rows(entries@);
    let mut min_col: u32 = entries[0].col;
    let mut max_col: u32 = entries[0].col;
    let mut min_row: u32 = entries[0].row;
    let mut max_row: u32 = entries[0].row;
    let mut i: usize = 1;
    while i < entries.len()
        invariant
            1 <= i <= entries@.len(),
            c == cols(entries@),
            r == rows(entries@),
            min_col == least(c.take(i as int)),
            max_col == greatest(c.take(i as int)),
            min_row == least(r.take(i as int)),
            max_row == greatest(r.take(i as int)),
        decreases entries@.len() - i,
    {
        assert(c.take(i + 1).drop_last() == c.take(i as int));
        assert(r.take(i + 1).drop_last() == r.take(i as int));
        let entry: Entry = entries[i];
        if entry.col < min_col {
            min_col = entry.col;
        }
        if entry.col > max_col {
            max_col = entry.col;
        }
        if entry.row < min_row {
            min_row = entry.row;
        }
        if entry.row > max_row {
            max_row = entry.row;
        }
        i = i + 1;
    }
    assert(c.take(i as int) == c);
    assert(r.take(i as int) == r);
    (min_col, max_col, min_row, max_row)
}

/// What starting a load from files with these names comes to. It fails if no file has a place, or
/// if the grid is too large. Otherwise it begins with all files that have a place, in order.
pub open spec fn starts_as(
    mode: ParallaxMode,
    names: Seq<Option<Seq<char>>>,
    r: Result<ImageLoader, LoadError>,
) -> bool {
    let entries = select::selected(mode, names);
    let ordered = entry::in_order(entries);
    match mode {
        ParallaxMode::Half => if entries.len() == 0 {
            r matches Err(LoadError::NoHalfParallaxImages)
        } else {
            r matches Ok(loader) && loader@ == half_start(ordered) && valid(loader@)
        },
        ParallaxMode::Full => if entries.len() == 0 {
            r matches Err(LoadError::NoFullParallaxImages)
        } else if too_large(ordered) {
            r matches Err(LoadError::GridTooLarge { width, height }) && width == width_of(ordered)
                && height == height_of(ordered)
        } else {
            r matches Ok(loader) && loader@ == full_start(ordered) && valid(loader@)
        },
    }
}

/// Starts to load a half-parallax hologram from the files with these names.
pub fn load_half_parallax_images(names: &[Option<String>]) -> (r: Result<ImageLoader, LoadError>)
    ensures
        starts_as(ParallaxMode::Half, select::listing(names@), r),
{
    let entries = select(ParallaxMode::Half, names);
    if entries.len() == 0 {
        return Err(LoadError::NoHalfParallaxImages);
    }
    let ordered = sort_entries(&entries);
    let loader = ImageLoader {
        grid: Grid::Row,
        entries: ordered,
        taken: 0,
        rgb_bytes: Vec::new(),
        image_meta: Vec::new(),
        hogel_lookup: Vec::new(),
    };
    assert(loader@ =~= half_start(entry::in_order(entries@)));
    Ok(loader)
}

/// Starts to load a full-parallax hologram from the files with these names.
pub fn load_full_parallax_images(names: &[Option<String>]) -> (r: Result<ImageLoader, LoadError>)
    ensures
        starts_as(ParallaxMode::Full, select::listing(names@), r),
{
    let entries = select(ParallaxMode::Full, names);
    if entries.len() == 0 {
        return Err(LoadError::NoFullParallaxImages);
    }
    let ordered = sort_entries(&entries);
    proof {
        entry::lemma_in_order(entries@);
        assert forall|k: int| 0 <= k < ordered@.len() implies (#[trigger] ordered@[k]).row
            <= 0x7fff_ffff && ordered@[k].col <= 0x7fff_ffff by {
            lemma_full_places_are_small(select::listing(names@));
            assert(entry::in_order(entries@).contains(ordered@[k]));
            assert(entries@.contains(ordered@[k]));
        }
        law_grid_fits(ordered@);
    }
    let (min_col, max_col, min_row, max_row) = bounds(&ordered);
    let width: u32 = max_col - min_col + 1;
    let height: u32 = max_row - min_row + 1;
    proof {
        assert(width * height <= 0x8000_0000 * 0x8000_0000) by (nonlinear_arith)
            requires
                width <= 0x8000_0000,
                height <= 0x8000_0000,
        ;
    }
    let cells: u64 = width as u64 * height as u64;
    if cells > isize::MAX as u64 / 4 {
        return Err(LoadError::GridTooLarge { width, height });
    }
    let hogel_lookup: Vec<u32> = vec![INVALID_IMAGE_INDEX; cells as usize];
    let loader = ImageLoader {
        grid: Grid::Cells { min_col, min_row, width, height },
        entries: ordered,
        taken: 0,
        rgb_bytes: Vec::new(),
        image_meta: Vec::new(),
        hogel_lookup,
    };
    assert(loader@ =~= full_start(entry::in_order(entries@)));
    Ok(loader)
}

/// Starts to load a hologram of the given mode.
pub fn load_images_for_mode(names: &[Option<String>], mode: ParallaxMode) -> (r: Result<
    ImageLoader,
    LoadError,
>)
    ensures
        starts_as(mode, select::listing(names@), r),
{
    match mode {
        ParallaxMode::Half => load_half_parallax_images(names),
        ParallaxMode::Full => load_full_parallax_images(names),
    }
}

/// The cell of an entry that lies in the grid is one of the cells of the grid, and entries of
/// different places have different cells.
pub proof fn law_cells(min_col: u32, min_row: u32, width: u32, height: u32, a: Entry, b: Entry)
    requires
        in_grid(Grid::Cells { min_col, min_row, width, height }, a),
        in_grid(Grid::Cells { min_col, min_row, width, height }, b),
    ensures
        0 <= cell_of(Grid::Cells { min_col, min_row, width, height }, a) < width * height,
        cell_of(Grid::Cells { min_col, min_row, width, height }, a) == cell_of(
            Grid::Cells { min_col, min_row, width, height },
            b,
        ) <==> a.col == b.col && a.row == b.row,
{
    let w = width as int;
    let h = height as int;
    let c = a.col - min_col;
    let r = a.row - min_row;
    let d = b.col - min_col;
    let s = b.row - min_row;
    assert(0 <= r * w + c < w * h) by (nonlinear_arith)
        requires
            0 <= c < w,
            0 <= r < h,
    ;
    assert(r * w + c == s * w + d ==> r == s) by (nonlinear_arith)
        requires
            0 <= c < w,
            0 <= d < w,
    ;
}

/// The cells are counted row by row: the cell of an entry tells its row when it is divided by the
/// width, and its column by what remains.
pub proof fn law_cells_go_row_by_row(
    min_col: u32,
    min_row: u32,
    width: u32,
    height: u32,
    entry: Entry,
)
    requires
        min_col <= entry.col < min_col + width,
        min_row <= entry.row < min_row + height,
    ensures
        cell_of(Grid::Cells { min_col, min_row, width, height }, entry) / width as int == entry.row
            - min_row,
        cell_of(Grid::Cells { min_col, min_row, width, height }, entry) % width as int == entry.col
            - min_col,
{
    let x = entry.col - min_col;
    let y = entry.row - min_row;
    vstd::arithmetic::div_mod::lemma_fundamental_div_mod_converse(
        cell_of(Grid::Cells { min_col, min_row, width, height }, entry),
        width as int,
        y,
        x,
    );
}

/// A half-parallax load starts exactly if some file is a PNG with a number in its stem. It starts
/// with nothing stored, and with the files in order.
pub proof fn law_half_load_starts(
    names: Seq<Option<Seq<char>>>,
    r: Result<ImageLoader, LoadError>,
)
    requires
        names.len() <= usize::MAX,
        starts_as(ParallaxMode::Half, names, r),
    ensures
        match r {
            Ok(loader) => {
                &&& exists|i: int| 0 <= i < names.len() && select::is_half_image(#[trigger] names[i])
                &&& valid(loader@)
                &&& loader@.grid is Row
                &&& loader@.entries == entry::in_order(select::selected(ParallaxMode::Half, names))
                &&& loader@.taken == 0
                &&& loader@.rgb_bytes.len() == 0
                &&& loader@.image_meta.len() == 0
                &&& loader@.hogel_lookup.len() == 0
            },
            Err(error) => {
                &&& error is NoHalfParallaxImages
                &&& forall|i: int|
                    0 <= i < names.len() ==> !select::is_half_image(#[trigger] names[i])
            },
        },
{
    let entries = select::selected(ParallaxMode::Half, names);
    select::law_selection(ParallaxMode::Half, names);
    if entries.len() > 0 {
        assert(select::is_half_image(names[entries[0].index as int]));
    }
}

/// A full-parallax load fails for want of images exactly if no file is a PNG whose last two
/// numbers are odd.
pub proof fn law_full_load_needs_images(
    names: Seq<Option<Seq<char>>>,
    r: Result<ImageLoader, LoadError>,
)
    requires
        names.len() <= usize::MAX,
        starts_as(ParallaxMode::Full, names, r),
    ensures
        r matches Err(LoadError::NoFullParallaxImages) <==> forall|i: int|
            0 <= i < names.len() ==> !select::is_full_image(#[trigger] names[i]),
{
    let entries = select::selected(ParallaxMode::Full, names);
    select::law_selection(ParallaxMode::Full, names);
    if entries.len() > 0 {
        assert(select::is_full_image(names[entries[0].index as int]));
    }
}

/// Whether the numbers with `after` others behind them, in the names of the images of a
/// full-parallax hologram, go from that of the line `first` to that of the line `last`, a line
/// being a column or a row.
pub open spec fn lines_span(
    names: Seq<Option<Seq<char>>>,
    after: int,
    first: u32,
    last: u32,
) -> bool {
    &&& forall|i: int|
        0 <= i < names.len() && select::is_full_image(#[trigger] names[i]) ==> 2 * first + 1
            <= select::number(names[i], after) <= 2 * last + 1
    &&& exists|i: int|
        0 <= i < names.len() && select::is_full_image(#[trigger] names[i]) && select::number(
            names[i],
            after,
        ) == 2 * first + 1
    &&& exists|i: int|
        0 <= i < names.len() && select::is_full_image(#[trigger] names[i]) && select::number(
            names[i],
            after,
        ) == 2 * last + 1
}

/// A full-parallax load has the smallest grid that holds every image. It starts if the table for
/// that grid can be allocated, with nothing stored, no image in any cell and the files in order,
/// and otherwise tells how large the grid would be.
pub proof fn law_full_load_starts(
    names: Seq<Option<Seq<char>>>,
    min_col: u32,
    max_col: u32,
    min_row: u32,
    max_row: u32,
    r: Result<ImageLoader, LoadError>,
)
    requires
        names.len() <= usize::MAX,
        lines_span(names, 1, min_col, max_col),
        lines_span(names, 0, min_row, max_row),
        starts_as(ParallaxMode::Full, names, r),
    ensures
        match r {
            Ok(loader) => {
                &&& (max_col - min_col + 1) * (max_row - min_row + 1) * 4 <= isize::MAX
                &&& valid(loader@)
                &&& loader@.grid matches Grid::Cells { min_col: col, min_row: row, width, height }
                &&& col == min_col && width == max_col - min_col + 1
                &&& row == min_row && height == max_row - min_row + 1
                &&& loader@.entries == entry::in_order(select::selected(ParallaxMode::Full, names))
                &&& loader@.taken == 0
                &&& loader@.rgb_bytes.len() == 0
                &&& loader@.image_meta.len() == 0
                &&& loader@.hogel_lookup.len() == width * height
                &&& forall|c: int|
                    0 <= c < width * height ==> #[trigger] loader@.hogel_lookup[c] == u32::MAX
            },
            Err(error) => {
                &&& (max_col - min_col + 1) * (max_row - min_row + 1) * 4 > isize::MAX
                &&& error matches LoadError::GridTooLarge { width, height }
                &&& width == max_col - min_col + 1
                &&& height == max_row - min_row + 1
            },
        },
{
    let entries = select::selected(ParallaxMode::Full, names);
    let ordered = entry::in_order(entries);
    select::law_full_order(names);
    entry::lemma_in_order(entries);
    let first = choose|i: int| 0 <= i < names.len() && select::is_full_image(#[trigger] names[i]);
    assert(exists|k: int| 0 <= k < ordered.len() && (#[trigger] ordered[k]).index == first);
    law_grid_fits(ordered);
    lemma_span_is(names, 1, min_col, max_col);
    lemma_span_is(names, 0, min_row, max_row);
}

/// The lines that the numbers in the names span are those of the grid.
proof fn lemma_span_is(names: Seq<Option<Seq<char>>>, after: int, first: u32, last: u32)
    requires
        names.len() <= usize::MAX,
        after == 0 || after == 1,
        lines_span(names, after, first, last),
        entry::in_order(select::selected(ParallaxMode::Full, names)).len() > 0,
    ensures
        ({
            let ordered = entry::in_order(select::selected(ParallaxMode::Full, names));
            let lines = if after == 1 {
                cols(ordered)
            } else {
                rows(ordered)
            };
            least(lines) == first && greatest(lines) == last
        }),
{
    let ordered = entry::in_order(select::selected(ParallaxMode::Full, names));
    let lines = if after == 1 {
        cols(ordered)
    } else {
        rows(ordered)
    };
    select::law_full_order(names);
    lemma_least(lines);
    lemma_greatest(lines);
    assert forall|k: int| 0 <= k < lines.len() implies first <= #[trigger] lines[k] <= last && 2
        * lines[k] + 1 == select::number(names[ordered[k].index as int], after) by {
        assert(select::is_full_image(names[ordered[k].index as int]));
    }
    let i = choose|i: int|
        0 <= i < names.len() && select::is_full_image(#[trigger] names[i]) && select::number(
            names[i],
            after,
        ) == 2 * first + 1;
    let k = choose|k: int| 0 <= k < ordered.len() && (#[trigger] ordered[k]).index == i;
    assert(lines[k] == first);
    let j = choose|i: int|
        0 <= i < names.len() && select::is_full_image(#[trigger] names[i]) && select::number(
            names[i],
            after,
        ) == 2 * last + 1;
    let m = choose|k: int| 0 <= k < ordered.len() && (#[trigger] ordered[k]).index == j;
    assert(lines[m] == last);
}

/// A row of images is half parallax, and a grid of cells is full parallax.
pub proof fn law_layout_tells_the_mode(grid: Grid)
    ensures
        grid is Row <==> mode_of(grid) is Half,
        grid is Cells <==> mode_of(grid) is Full,
{
}

/// The mode of a hologram with this layout.
pub open spec fn mode_of(grid: Grid) -> ParallaxMode {
    match grid {
        Grid::Row => ParallaxMode::Half,
        Grid::Cells { .. } => ParallaxMode::Full,
    }
}

impl ImageLoader {
    /// The position in the listing of the file that comes next, until all have been taken.
    pub fn next_file(&self) -> (index: Option<usize>)
        requires
            valid(self@),
        ensures
            index == if self@.taken < self@.entries.len() {
                Some(self@.entries[self@.taken as int].index)
            } else {
                None
            },
    {
        if self.taken < self.entries.len() {
            Some(self.entries[self.taken].index)
        } else {
            None
        }
    }

    /// Takes the contents of the file that comes next.
    pub fn add_file(self, file: &[u8]) -> (r: Result<ImageLoader, LoadError>)
        requires
            valid(self@),
            self@.taken < self@.entries.len(),
        ensures
            match decode::decoded(file@) {
                decode::DecodeOutcome::Image { width, height, rgba } => {
                    let entry = self@.entries[self@.taken as int];
                    &&& rgba.len() == width * height * 4
                    &&& if next_cell_overflows(self@) {
                        r matches Err(LoadError::GridIndexOverflow)
                    } else if next_cell_is_taken(self@) {
                        r matches Err(LoadError::DuplicateCell { col, row }) && col == entry.col
                            && row == entry.row
                    } else {
                        r matches Ok(loader) && loader@ == with_image(self@, width, height, rgba)
                            && valid(loader@)
                    }
                },
                outcome => r matches Err(LoadError::Decode(error)) && decode::reports(
                    error,
                    outcome,
                ),
            },
    {
        let mut loader = self;
        let entry: Entry = loader.entries[loader.taken];
        let pushed = push_image_data(file, &mut loader.rgb_bytes, &mut loader.image_meta);
        let image_index: u32 = match pushed {
            Ok(index) => index,
            Err(error) => {
                return Err(LoadError::Decode(error));
            },
        };
        match loader.grid {
            Grid::Row => {
                loader.hogel_lookup.push(image_index);
            },
            Grid::Cells { min_col, min_row, width, height } => {
                let col: u64 = (entry.col - min_col) as u64;
                let row: u64 = (entry.row - min_row) as u64;
                proof {
                    law_cells(min_col, min_row, width, height, entry, entry);
                    assert(row * width <= 0xffff_ffff * 0xffff_ffff) by (nonlinear_arith)
                        requires
                            row <= 0xffff_ffff,
                            width <= 0xffff_ffff,
                    ;
                }
                let cell: u64 = row * width as u64 + col;
                if cell > 0xffff_ffff {
                    return Err(LoadError::GridIndexOverflow);
                }
                let cell: usize = cell as usize;
                if loader.hogel_lookup[cell] != INVALID_IMAGE_INDEX {
                    return Err(LoadError::DuplicateCell { col: entry.col, row: entry.row });
                }
                loader.hogel_lookup.set(cell, image_index);
            },
        }
        assert(loader.taken < loader.entries.len());
        loader.taken = loader.taken + 1;
        Ok(loader)
    }

    /// Hands over the images once every file has been taken.
    pub fn finish(self) -> (r: Result<DecodedImages, LoadError>)
        requires
            valid(self@),
            self@.taken == self@.entries.len(),
        ensures
            if self@.grid is Row && self@.entries.len() > u32::MAX {
                r matches Err(LoadError::TooManyImages)
            } else {
                r matches Ok(images) && {
                    &&& images.mode == mode_of(self@.grid)
                    &&& images.rgb_bytes@ == self@.rgb_bytes
                    &&& images.image_meta@ == self@.image_meta
                    &&& images.hogel_lookup@ == self@.hogel_lookup
                    &&& match self@.grid {
                        Grid::Row => images.grid_width == self@.entries.len()
                            && images.grid_height == 1,
                        Grid::Cells { width, height, .. } => images.grid_width == width
                            && images.grid_height == height,
                    }
                }
            },
    {
        let (mode, grid_width, grid_height) = match self.grid {
            Grid::Row => {
                let count: u64 = self.hogel_lookup.len() as u64;
                if count > 0xffff_ffff {
                    return Err(LoadError::TooManyImages);
                }
                (ParallaxMode::Half, count as u32, 1u32)
            },
            Grid::Cells { width, height, .. } => (ParallaxMode::Full, width, height),
        };
        Ok(
            DecodedImages {
                mode,
                rgb_bytes: self.rgb_bytes,
                image_meta: self.image_meta,
                hogel_lookup: self.hogel_lookup,
                grid_width,
                grid_height,
            },
        )
    }
}

} // verus!
