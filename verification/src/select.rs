//! Which files of a directory belong to the hologram, and where.

use vstd::prelude::*;

use crate::entry;
use crate::entry::Entry;
use crate::file_name;
use crate::file_name::{is_png_path, parse_numeric_groups};
use crate::mode::ParallaxMode;

verus! {

/// The names in a directory listing. A name that is not Unicode reads as `None`.
pub open spec fn listing(names: Seq<Option<String>>) -> Seq<Option<Seq<char>>> {
    names.map_values(|name: Option<String>| name_of(name))
}

/// The characters of a name.
pub open spec fn name_of(name: Option<String>) -> Option<Seq<char>> {
    match name {
        Some(text) => Some(text@),
        None => None,
    }
}

/// The place of a file in a half-parallax hologram, if it has one: the last number in the stem of
/// a PNG is its column in the only row. A name that cannot be read has no numbers.
pub open spec fn half_place(name: Option<Seq<char>>, index: int) -> Option<Entry> {
    match name {
        Some(text) => {
            let groups = file_name::name_groups(text);
            if file_name::has_png_extension(text) && groups.len() > 0 {
                Some(Entry { row: 0, col: groups.last(), index: index as usize })
            } else {
                None
            }
        },
        None => None,
    }
}

/// The place of a file in a full-parallax hologram, if it has one: the last two numbers in the
/// stem of a PNG are its column and its row. Only odd numbers count, and are halved.
pub open spec fn full_place(name: Option<Seq<char>>, index: int) -> Option<Entry> {
    match name {
        Some(text) => {
            let groups = file_name::name_groups(text);
            if file_name::has_png_extension(text) && groups.len() >= 2 {
                let col = groups[groups.len() - 2];
                let row = groups[groups.len() - 1];
                if col % 2 == 0 || row % 2 == 0 {
                    None
                } else {
                    Some(Entry { row: row / 2, col: col / 2, index: index as usize })
                }
            } else {
                None
            }
        },
        None => None,
    }
}

/// The place of a file in a hologram of the given mode, if it has one.
pub open spec fn place(mode: ParallaxMode, name: Option<Seq<char>>, index: int) -> Option<Entry> {
    match mode {
        ParallaxMode::Half => half_place(name, index),
        ParallaxMode::Full => full_place(name, index),
    }
}

/// The entries of all files that have a place, in the order of the listing.
pub open spec fn selected(mode: ParallaxMode, names: Seq<Option<Seq<char>>>) -> Seq<Entry>
    decreases names.len(),
{
    if names.len() == 0 {
        seq![]
    } else {
        let earlier = selected(mode, names.drop_last());
        match place(mode, names.last(), names.len() - 1) {
            Some(entry) => earlier.push(entry),
            None => earlier,
        }
    }
}

/// Finds the place of a file.
fn find_place(mode: ParallaxMode, name: &Option<String>, index: usize) -> (entry: Option<Entry>)
    ensures
        entry == place(mode, name_of(*name), index as int),
{
    match name {
        None => None,
        Some(text) => {
            if !is_png_path(text.as_str()) {
                return None;
            }
            let groups = parse_numeric_groups(text.as_str());
            let count: usize = groups.len();
            match mode {
                ParallaxMode::Half => {
                    if count == 0 {
                        return None;
                    }
                    Some(Entry { row: 0, col: groups[count - 1], index })
                },
                ParallaxMode::Full => {
                    if count < 2 {
                        return None;
                    }
                    let col: u32 = groups[count - 2];
                    let row: u32 = groups[count - 1];
                    if col % 2 == 0 || row % 2 == 0 {
                        return None;
                    }
                    Some(Entry { row: row / 2, col: col / 2, index })
                },
            }
        },
    }
}

/// Selects the files of a listing that have a place in the hologram.
pub fn select(mode: ParallaxMode, names: &[Option<String>]) -> (entries: Vec<Entry>)
    ensures
        entries@ == selected(mode, listing(names@)),
{
    let ghost all = listing(names@);
    let mut entries: Vec<Entry> = Vec::new();
    let mut i: usize = 0;
    while i < names.len()
        invariant
            i <= names@.len(),
            all == listing(names@),
            entries@ == selected(mode, all.take(i as int)),
        decreases names@.len() - i,
    {
        assert(all.take(i + 1).drop_last() == all.take(i as int));
        if let Some(entry) = find_place(mode, &names[i], i) {
            entries.push(entry);
        }
        i = i + 1;
    }
    assert(all.take(i as int) == all);
    entries
}

proof fn lemma_selected(mode: ParallaxMode, names: Seq<Option<Seq<char>>>)
    requires
        names.len() <= usize::MAX,
    ensures
        forall|k: int|
            0 <= k < selected(mode, names).len() ==> {
                let entry = #[trigger] selected(mode, names)[k];
                &&& entry.index < names.len()
                &&& place(mode, names[entry.index as int], entry.index as int) == Some(entry)
            },
        forall|i: int, j: int|
            0 <= i < j < selected(mode, names).len() ==> (#[trigger] selected(mode, names)[i]).index
                < (#[trigger] selected(mode, names)[j]).index,
        forall|i: int|
            0 <= i < names.len() && (#[trigger] place(mode, names[i], i)) is Some ==> selected(
                mode,
                names,
            ).contains(place(mode, names[i], i)->0),
    decreases names.len(),
{
    if names.len() > 0 {
        let shorter = names.drop_last();
        let n = shorter.len() as int;
        lemma_selected(mode, shorter);
        let earlier = selected(mode, shorter);
        let all = selected(mode, names);
        assert forall|k: int| 0 <= k < all.len() implies {
            let entry = #[trigger] all[k];
            &&& entry.index < names.len()
            &&& place(mode, names[entry.index as int], entry.index as int) == Some(entry)
        } by {
            if k < earlier.len() {
                assert(all[k] == earlier[k]);
                assert(shorter[earlier[k].index as int] == names[earlier[k].index as int]);
            }
        }
        assert forall|i: int, j: int| 0 <= i < j < all.len() implies (#[trigger] all[i]).index < (
        #[trigger] all[j]).index by {
            assert(all[i] == earlier[i]);
            if j < earlier.len() {
                assert(all[j] == earlier[j]);
            }
        }
        assert forall|i: int|
            0 <= i < names.len() && (
            #[trigger] place(mode, names[i], i)) is Some implies all.contains(
            place(mode, names[i], i)->0,
        ) by {
            let entry = place(mode, names[i], i)->0;
            if i < n {
                assert(shorter[i] == names[i]);
                assert(place(mode, shorter[i], i) is Some);
                let k = choose|k: int| 0 <= k < earlier.len() && earlier[k] == entry;
                assert(all[k] == entry);
            } else {
                assert(all[all.len() - 1] == entry);
            }
        }
    }
}

/// Every file that has a place is loaded, once, and no other file is. Files are loaded by row and
/// column, and files of one place in the order of the listing.
pub proof fn law_load_order(mode: ParallaxMode, names: Seq<Option<Seq<char>>>)
    requires
        names.len() <= usize::MAX,
    ensures
        ({
            let ordered = entry::in_order(selected(mode, names));
            &&& forall|k: int|
                0 <= k < ordered.len() ==> {
                    let entry = #[trigger] ordered[k];
                    &&& entry.index < names.len()
                    &&& place(mode, names[entry.index as int], entry.index as int) == Some(entry)
                }
            &&& forall|i: int|
                0 <= i < names.len() && (
                #[trigger] place(mode, names[i], i)) is Some ==> ordered.contains(
                    place(mode, names[i], i)->0,
                )
            &&& forall|i: int, j: int|
                0 <= i < j < ordered.len() ==> {
                    let a = #[trigger] ordered[i];
                    let b = #[trigger] ordered[j];
                    ||| a.row < b.row
                    ||| a.row == b.row && a.col < b.col
                    ||| a.row == b.row && a.col == b.col && a.index < b.index
                }
        }),
{
    let entries = selected(mode, names);
    let ordered = entry::in_order(entries);
    lemma_selected(mode, names);
    entry::lemma_in_order(entries);
    assert forall|k: int| 0 <= k < ordered.len() implies entries.contains(#[trigger] ordered[k]) by {
        assert(ordered.contains(ordered[k]));
    }
    assert(entries.no_duplicates());
    entries.lemma_multiset_has_no_duplicates();
    assert(ordered.no_duplicates()) by {
        ordered.lemma_multiset_has_no_duplicates_conv();
    }
}

/// A listing has the characters of every name, at the position of that name.
pub proof fn law_listing(names: Seq<Option<String>>)
    ensures
        listing(names).len() == names.len(),
        forall|i: int|
            0 <= i < names.len() ==> {
                &&& #[trigger] listing(names)[i] is None <==> names[i] is None
                &&& names[i] matches Some(text) ==> listing(names)[i] == Some(text@)
            },
{
}

/// Whether a file belongs to a half-parallax hologram: a PNG with a number in its stem.
pub open spec fn is_half_image(name: Option<Seq<char>>) -> bool {
    name matches Some(text) && file_name::has_png_extension(text) && file_name::name_groups(
        text,
    ).len() > 0
}

/// Whether a file belongs to a full-parallax hologram: a PNG whose stem has two numbers, the last
/// two of which are odd.
pub open spec fn is_full_image(name: Option<Seq<char>>) -> bool {
    &&& name matches Some(text)
    &&& file_name::has_png_extension(text)
    &&& file_name::name_groups(text).len() >= 2
    &&& number(name, 1) % 2 == 1
    &&& number(name, 0) % 2 == 1
}

/// The number in the stem of a name that has `after` others behind it.
pub open spec fn number(name: Option<Seq<char>>, after: int) -> u32 {
    let groups = file_name::name_groups(name->0);
    groups[groups.len() - 1 - after]
}

/// A file has a place in a half-parallax hologram exactly if it is a PNG with a number in its
/// stem. The column is that number, the last one if there are several, as it is.
pub proof fn law_half_places(name: Option<Seq<char>>, index: usize)
    ensures
        place(ParallaxMode::Half, name, index as int) is Some <==> {
            &&& name matches Some(text)
            &&& file_name::has_png_extension(text)
            &&& file_name::name_groups(text).len() > 0
        },
        place(ParallaxMode::Half, name, index as int) matches Some(entry) ==> {
            &&& entry.row == 0
            &&& entry.col == file_name::name_groups(name->0).last()
            &&& entry.index == index
        },
{
}

/// A file has a place in a full-parallax hologram exactly if it is a PNG whose stem has two
/// numbers, the last two of which are odd. The number before the last is one more than twice the
/// column, and the last is one more than twice the row.
pub proof fn law_full_places(name: Option<Seq<char>>, index: usize)
    ensures
        place(ParallaxMode::Full, name, index as int) is Some <==> {
            &&& name matches Some(text)
            &&& file_name::has_png_extension(text)
            &&& file_name::name_groups(text).len() >= 2
            &&& file_name::name_groups(text).last() % 2 == 1
            &&& file_name::name_groups(text).drop_last().last() % 2 == 1
        },
        place(ParallaxMode::Full, name, index as int) matches Some(entry) ==> {
            &&& 2 * entry.row + 1 == file_name::name_groups(name->0).last()
            &&& 2 * entry.col + 1 == file_name::name_groups(name->0).drop_last().last()
            &&& entry.index == index
        },
{
}

/// The files that are selected are those that belong to the hologram, each once, in the order of
/// the listing.
pub proof fn law_selection(mode: ParallaxMode, names: Seq<Option<Seq<char>>>)
    requires
        names.len() <= usize::MAX,
    ensures
        forall|i: int, j: int|
            0 <= i < j < selected(mode, names).len() ==> (#[trigger] selected(mode, names)[i]).index
                < (#[trigger] selected(mode, names)[j]).index,
        forall|k: int|
            0 <= k < selected(mode, names).len() ==> {
                let index = (#[trigger] selected(mode, names)[k]).index as int;
                &&& index < names.len()
                &&& mode is Half ==> is_half_image(names[index])
                &&& mode is Full ==> is_full_image(names[index])
            },
        forall|i: int|
            0 <= i < names.len() && (mode is Half && is_half_image(#[trigger] names[i]) || mode is Full
                && is_full_image(names[i])) ==> exists|k: int|
                0 <= k < selected(mode, names).len() && (#[trigger] selected(mode, names)[k]).index
                    == i,
{
    lemma_selected(mode, names);
    let all = selected(mode, names);
    assert forall|k: int| 0 <= k < all.len() implies {
        let index = (#[trigger] all[k]).index as int;
        &&& mode is Half ==> is_half_image(names[index])
        &&& mode is Full ==> is_full_image(names[index])
    } by {
        lemma_images_have_places(names[all[k].index as int], all[k].index);
    }
    assert forall|i: int|
        0 <= i < names.len() && (mode is Half && is_half_image(#[trigger] names[i]) || mode is Full
            && is_full_image(names[i])) implies exists|k: int|
        0 <= k < all.len() && (#[trigger] all[k]).index == i by {
        lemma_images_have_places(names[i], i as usize);
        assert(place(mode, names[i], i) is Some);
        let entry = place(mode, names[i], i)->0;
        let k = choose|k: int| 0 <= k < all.len() && all[k] == entry;
        assert(all[k].index == i);
    }
}

proof fn lemma_images_have_places(name: Option<Seq<char>>, index: usize)
    ensures
        place(ParallaxMode::Half, name, index as int) is Some <==> is_half_image(name),
        place(ParallaxMode::Full, name, index as int) is Some <==> is_full_image(name),
        place(ParallaxMode::Full, name, index as int) matches Some(entry) ==> 2 * entry.row + 1
            == number(name, 0) && 2 * entry.col + 1 == number(name, 1),
{
    law_half_places(name, index);
    law_full_places(name, index);
}

/// A half-parallax hologram is loaded by the last numbers in the names: a smaller number comes
/// first, and files of one number come in the order of the listing. Every PNG with a number in
/// its stem is loaded, once, and no other file.
pub proof fn law_half_order(names: Seq<Option<Seq<char>>>)
    requires
        names.len() <= usize::MAX,
    ensures
        ({
            let ordered = entry::in_order(selected(ParallaxMode::Half, names));
            &&& forall|k: int|
                0 <= k < ordered.len() ==> (#[trigger] ordered[k]).index < names.len()
                    && is_half_image(names[ordered[k].index as int])
            &&& forall|i: int|
                0 <= i < names.len() && is_half_image(#[trigger] names[i]) ==> exists|k: int|
                    0 <= k < ordered.len() && (#[trigger] ordered[k]).index == i
            &&& forall|i: int, j: int|
                0 <= i < j < ordered.len() ==> {
                    let a = file_name::name_groups(names[(#[trigger] ordered[i]).index as int]->0);
                    let b = file_name::name_groups(names[(#[trigger] ordered[j]).index as int]->0);
                    &&& a.last() <= b.last()
                    &&& a.last() == b.last() ==> ordered[i].index < ordered[j].index
                }
        }),
{
    let ordered = entry::in_order(selected(ParallaxMode::Half, names));
    law_load_order(ParallaxMode::Half, names);
    assert forall|k: int| 0 <= k < ordered.len() implies is_half_image(
        names[(#[trigger] ordered[k]).index as int],
    ) && ordered[k].row == 0 && ordered[k].col == file_name::name_groups(
        names[ordered[k].index as int]->0,
    ).last() by {
        law_half_places(names[ordered[k].index as int], ordered[k].index);
    }
    assert forall|i: int| 0 <= i < names.len() && is_half_image(#[trigger] names[i]) implies exists|
        k: int,
    | 0 <= k < ordered.len() && (#[trigger] ordered[k]).index == i by {
        law_half_places(names[i], i as usize);
        assert(place(ParallaxMode::Half, names[i], i) is Some);
        let entry = place(ParallaxMode::Half, names[i], i)->0;
        let k = choose|k: int| 0 <= k < ordered.len() && ordered[k] == entry;
        assert(ordered[k].index == i);
    }
}

/// A full-parallax hologram is loaded by the last numbers in the names, then by the numbers before
/// those, and files of the same two numbers come in the order of the listing. Every PNG whose last
/// two numbers are odd is loaded, once, and no other file.
pub proof fn law_full_order(names: Seq<Option<Seq<char>>>)
    requires
        names.len() <= usize::MAX,
    ensures
        ({
            let ordered = entry::in_order(selected(ParallaxMode::Full, names));
            &&& forall|k: int|
                0 <= k < ordered.len() ==> {
                    let name = names[(#[trigger] ordered[k]).index as int];
                    &&& ordered[k].index < names.len()
                    &&& is_full_image(name)
                    &&& 2 * ordered[k].row + 1 == number(name, 0)
                    &&& 2 * ordered[k].col + 1 == number(name, 1)
                }
            &&& forall|i: int|
                0 <= i < names.len() && is_full_image(#[trigger] names[i]) ==> exists|k: int|
                    0 <= k < ordered.len() && (#[trigger] ordered[k]).index == i
            &&& forall|i: int, j: int|
                0 <= i < j < ordered.len() ==> {
                    let a = names[(#[trigger] ordered[i]).index as int];
                    let b = names[(#[trigger] ordered[j]).index as int];
                    ||| number(a, 0) < number(b, 0)
                    ||| number(a, 0) == number(b, 0) && number(a, 1) < number(b, 1)
                    ||| number(a, 0) == number(b, 0) && number(a, 1) == number(b, 1)
                        && ordered[i].index < ordered[j].index
                }
        }),
{
    let ordered = entry::in_order(selected(ParallaxMode::Full, names));
    law_load_order(ParallaxMode::Full, names);
    assert forall|k: int| 0 <= k < ordered.len() implies {
        let name = names[(#[trigger] ordered[k]).index as int];
        &&& is_full_image(name)
        &&& 2 * ordered[k].row + 1 == number(name, 0)
        &&& 2 * ordered[k].col + 1 == number(name, 1)
    } by {
        lemma_images_have_places(names[ordered[k].index as int], ordered[k].index);
    }
    assert forall|i: int| 0 <= i < names.len() && is_full_image(#[trigger] names[i]) implies exists|
        k: int,
    | 0 <= k < ordered.len() && (#[trigger] ordered[k]).index == i by {
        lemma_images_have_places(names[i], i as usize);
        assert(place(ParallaxMode::Full, names[i], i) is Some);
        let entry = place(ParallaxMode::Full, names[i], i)->0;
        let k = choose|k: int| 0 <= k < ordered.len() && ordered[k] == entry;
        assert(ordered[k].index == i);
    }
}

/// Whether no two files of a listing have the same place.
pub open spec fn places_differ(mode: ParallaxMode, names: Seq<Option<Seq<char>>>) -> bool {
    forall|i: int, j: int|
        0 <= i < j < names.len() ==> match (
            #[trigger] place(mode, names[i], i),
            #[trigger] place(mode, names[j], j),
        ) {
            (Some(a), Some(b)) => a.row != b.row || a.col != b.col,
            _ => true,
        }
}

/// A number that orders places by row and column.
spec fn rank(entry: Entry) -> int {
    entry.row * 0x1_0000_0000 + entry.col
}

/// Two rising sequences of the same numbers are the same.
proof fn lemma_rising_unique(s: Seq<int>, t: Seq<int>)
    requires
        forall|i: int, j: int| 0 <= i < j < s.len() ==> #[trigger] s[i] < #[trigger] s[j],
        forall|i: int, j: int| 0 <= i < j < t.len() ==> #[trigger] t[i] < #[trigger] t[j],
        forall|x: int| s.contains(x) <==> t.contains(x),
    ensures
        s == t,
    decreases s.len(),
{
    if s.len() == 0 {
        if t.len() > 0 {
            assert(t.contains(t[0]));
            assert(s.contains(t[0]));
        }
    } else {
        assert(s.contains(s[0]));
        assert(t.contains(s[0]));
        assert(t.contains(t[0]));
        assert(s.contains(t[0]));
        assert(s[0] == t[0]);
        let s1 = s.drop_first();
        let t1 = t.drop_first();
        assert forall|x: int| s1.contains(x) <==> t1.contains(x) by {
            if s1.contains(x) {
                let i = choose|i: int| 0 <= i < s1.len() && s1[i] == x;
                assert(s[i + 1] == x);
                assert(t.contains(x));
                let j = choose|j: int| 0 <= j < t.len() && t[j] == x;
                assert(t1[j - 1] == x);
            }
            if t1.contains(x) {
                let i = choose|i: int| 0 <= i < t1.len() && t1[i] == x;
                assert(t[i + 1] == x);
                assert(s.contains(x));
                let j = choose|j: int| 0 <= j < s.len() && s[j] == x;
                assert(s1[j - 1] == x);
            }
        }
        lemma_rising_unique(s1, t1);
        assert(s == seq![s[0]] + s1);
        assert(t == seq![t[0]] + t1);
    }
}

/// The ranks of the files that are loaded, in the order of loading, rise where no two files share
/// a place.
proof fn lemma_ranks_rise(mode: ParallaxMode, names: Seq<Option<Seq<char>>>)
    requires
        names.len() <= usize::MAX,
        places_differ(mode, names),
    ensures
        ({
            let ranks = entry::in_order(selected(mode, names)).map_values(|e: Entry| rank(e));
            forall|i: int, j: int| 0 <= i < j < ranks.len() ==> #[trigger] ranks[i]
                < #[trigger] ranks[j]
        }),
{
    law_load_order(mode, names);
    let ordered = entry::in_order(selected(mode, names));
    let ranks = ordered.map_values(|e: Entry| rank(e));
    assert forall|i: int, j: int| 0 <= i < j < ranks.len() implies #[trigger] ranks[i]
        < #[trigger] ranks[j] by {
        let a = ordered[i];
        let b = ordered[j];
        assert(place(mode, names[a.index as int], a.index as int) == Some(a));
        assert(place(mode, names[b.index as int], b.index as int) == Some(b));
        assert(a.row != b.row || a.col != b.col) by {
            if a.index < b.index {
            } else if b.index < a.index {
            }
        }
    }
}

/// A file of one listing that is loaded is loaded from the other listing too, at the same place.
proof fn lemma_loaded_in_both(
    mode: ParallaxMode,
    a: Seq<Option<Seq<char>>>,
    b: Seq<Option<Seq<char>>>,
    k: int,
) -> (m: int)
    requires
        a.len() <= usize::MAX,
        b.len() <= usize::MAX,
        forall|name: Option<Seq<char>>|
            place(mode, name, 0) is Some && a.contains(name) ==> b.contains(name),
        0 <= k < entry::in_order(selected(mode, a)).len(),
    ensures
        ({
            let x = entry::in_order(selected(mode, a));
            let y = entry::in_order(selected(mode, b));
            &&& 0 <= m < y.len()
            &&& y[m].row == x[k].row
            &&& y[m].col == x[k].col
            &&& b[y[m].index as int] == a[x[k].index as int]
        }),
{
    law_load_order(mode, a);
    law_load_order(mode, b);
    let x = entry::in_order(selected(mode, a));
    let y = entry::in_order(selected(mode, b));
    let name = a[x[k].index as int];
    assert(a.contains(name));
    let j = choose|j: int| 0 <= j < b.len() && b[j] == name;
    assert(place(mode, a[x[k].index as int], x[k].index as int) == Some(x[k]));
    assert(place(mode, b[j], j) is Some);
    let entry = place(mode, b[j], j)->0;
    assert(y.contains(entry));
    choose|m: int| 0 <= m < y.len() && y[m] == entry
}

/// Neither the order in which a directory lists its files nor a file without a place makes a
/// difference: two listings that hold the same files with a place, no two of which share one, are
/// loaded alike.
pub proof fn law_listing_order_is_irrelevant(
    mode: ParallaxMode,
    a: Seq<Option<Seq<char>>>,
    b: Seq<Option<Seq<char>>>,
)
    requires
        a.len() <= usize::MAX,
        b.len() <= usize::MAX,
        forall|name: Option<Seq<char>>|
            place(mode, name, 0) is Some ==> (a.contains(name) <==> b.contains(name)),
        places_differ(mode, a),
        places_differ(mode, b),
    ensures
        ({
            let x = entry::in_order(selected(mode, a));
            let y = entry::in_order(selected(mode, b));
            &&& x.len() == y.len()
            &&& forall|k: int|
                0 <= k < x.len() ==> {
                    &&& (#[trigger] x[k]).row == y[k].row
                    &&& x[k].col == y[k].col
                    &&& a[x[k].index as int] == b[y[k].index as int]
                }
        }),
{
    let x = entry::in_order(selected(mode, a));
    let y = entry::in_order(selected(mode, b));
    let s = x.map_values(|e: Entry| rank(e));
    let t = y.map_values(|e: Entry| rank(e));
    lemma_ranks_rise(mode, a);
    lemma_ranks_rise(mode, b);
    assert forall|r: int| s.contains(r) <==> t.contains(r) by {
        if s.contains(r) {
            let k = choose|k: int| 0 <= k < s.len() && s[k] == r;
            let m = lemma_loaded_in_both(mode, a, b, k);
            assert(t[m] == r);
        }
        if t.contains(r) {
            let k = choose|k: int| 0 <= k < t.len() && t[k] == r;
            let m = lemma_loaded_in_both(mode, b, a, k);
            assert(s[m] == r);
        }
    }
    lemma_rising_unique(s, t);
    assert forall|k: int| 0 <= k < x.len() implies {
        &&& (#[trigger] x[k]).row == y[k].row
        &&& x[k].col == y[k].col
        &&& a[x[k].index as int] == b[y[k].index as int]
    } by {
        assert(s[k] == rank(x[k]));
        assert(t[k] == rank(y[k]));
        let m = lemma_loaded_in_both(mode, a, b, k);
        assert(t[m] == rank(y[m]));
        assert(m == k);
    }
}

} // verus!
