//! The places of the selected files in the hologram, and the order in which they are loaded.

use vstd::prelude::*;
use vstd::relations::*;
use vstd::seq_lib::*;

verus! {

/// A selected file: the place that its name gives it, and its position in the directory listing.
#[derive(Clone, Copy, Debug, PartialEq, Eq, Structural)]
pub struct Entry {
    pub row: u32,
    pub col: u32,
    pub index: usize,
}

/// Entries are ordered by row, then by column. Entries of one place keep the order of the listing.
pub open spec fn entry_le(a: Entry, b: Entry) -> bool {
    ||| a.row < b.row
    ||| a.row == b.row && a.col < b.col
    ||| a.row == b.row && a.col == b.col && a.index <= b.index
}

/// [`entry_le`] as a relation.
pub open spec fn entry_order() -> spec_fn(Entry, Entry) -> bool {
    |a: Entry, b: Entry| entry_le(a, b)
}

/// The same entries, in order.
pub open spec fn in_order(entries: Seq<Entry>) -> Seq<Entry> {
    entries.sort_by(entry_order())
}

proof fn lemma_entry_order_is_total()
    ensures
        total_ordering(entry_order()),
{
}

/// What [`in_order`] gives: the entries that it was given, each as often as before, and no later
/// one before an earlier one.
pub proof fn lemma_in_order(entries: Seq<Entry>)
    ensures
        in_order(entries).to_multiset() == entries.to_multiset(),
        in_order(entries).len() == entries.len(),
        forall|entry: Entry| in_order(entries).contains(entry) <==> entries.contains(entry),
        forall|i: int, j: int|
            0 <= i < j < in_order(entries).len() ==> entry_le(
                #[trigger] in_order(entries)[i],
                #[trigger] in_order(entries)[j],
            ),
{
    broadcast use group_to_multiset_ensures;

    lemma_entry_order_is_total();
    entries.lemma_sort_by_ensures(entry_order());
    assert(in_order(entries).to_multiset().len() == entries.to_multiset().len());
    assert forall|entry: Entry| in_order(entries).contains(entry) <==> entries.contains(entry) by {
        assert(in_order(entries).to_multiset().count(entry) == entries.to_multiset().count(entry));
    }
    assert forall|i: int, j: int| 0 <= i < j < in_order(entries).len() implies entry_le(
        #[trigger] in_order(entries)[i],
        #[trigger] in_order(entries)[j],
    ) by {
        assert(entry_order()(in_order(entries)[i], in_order(entries)[j]));
    }
}

/// Sorting keeps every entry as often as it is there, and puts rows first, columns next and the
/// listing last.
pub proof fn law_sorted(entries: Seq<Entry>)
    ensures
        in_order(entries).to_multiset() == entries.to_multiset(),
        forall|i: int, j: int|
            0 <= i < j < in_order(entries).len() ==> {
                let a = #[trigger] in_order(entries)[i];
                let b = #[trigger] in_order(entries)[j];
                &&& a.row <= b.row
                &&& a.row == b.row ==> a.col <= b.col
                &&& a.row == b.row && a.col == b.col ==> a.index <= b.index
            },
{
    lemma_in_order(entries);
}

/// The order that [`in_order`] gives is the only one.
pub proof fn lemma_in_order_is(entries: Seq<Entry>, sorted: Seq<Entry>)
    requires
        sorted.to_multiset() == entries.to_multiset(),
        sorted_by(sorted, entry_order()),
    ensures
        sorted == in_order(entries),
{
    lemma_entry_order_is_total();
    entries.lemma_sort_by_ensures(entry_order());
    lemma_sorted_unique(sorted, in_order(entries), entry_order());
}

/// Whether `a` may stand before `b`.
fn precedes(a: &Entry, b: &Entry) -> (r: bool)
    ensures
        r == entry_le(*a, *b),
{
    a.row < b.row || (a.row == b.row && (a.col < b.col || (a.col == b.col && a.index <= b.index)))
}

/// Merges two ordered lists into one.
fn merge(left: &Vec<Entry>, right: &Vec<Entry>) -> (out: Vec<Entry>)
    requires
        sorted_by(left@, entry_order()),
        sorted_by(right@, entry_order()),
    ensures
        sorted_by(out@, entry_order()),
        out@.to_multiset() == left@.to_multiset().add(right@.to_multiset()),
{
    let mut out: Vec<Entry> = Vec::new();
    let mut i: usize = 0;
    let mut j: usize = 0;
    assert(out@.to_multiset() =~= left@.take(0).to_multiset().add(right@.take(0).to_multiset()))
        by {
        broadcast use {vstd::multiset::group_multiset_axioms, group_to_multiset_ensures};

    }
    while i < left.len() || j < right.len()
        invariant
            i <= left@.len(),
            j <= right@.len(),
            sorted_by(left@, entry_order()),
            sorted_by(right@, entry_order()),
            sorted_by(out@, entry_order()),
            forall|k: int, m: int|
                0 <= k < out@.len() && i <= m < left@.len() ==> entry_le(
                    #[trigger] out@[k],
                    #[trigger] left@[m],
                ),
            forall|k: int, m: int|
                0 <= k < out@.len() && j <= m < right@.len() ==> entry_le(
                    #[trigger] out@[k],
                    #[trigger] right@[m],
                ),
            out@.to_multiset() == left@.take(i as int).to_multiset().add(
                right@.take(j as int).to_multiset(),
            ),
        decreases left@.len() - i + right@.len() - j,
    {
        let ghost before = out@;
        let from_left: bool = j == right.len() || (i < left.len() && precedes(&left[i], &right[j]));
        if from_left {
            assert(left@.take(i + 1) == left@.take(i as int).push(left@[i as int]));
            assert forall|m: int| i < m < left@.len() implies entry_le(
                left@[i as int],
                #[trigger] left@[m],
            ) by {
                assert(entry_order()(left@[i as int], left@[m]));
            }
            assert forall|m: int| j <= m < right@.len() implies entry_le(
                left@[i as int],
                #[trigger] right@[m],
            ) by {
                assert(entry_order()(right@[j as int], right@[m]) || m == j);
            }
            out.push(left[i]);
            i = i + 1;
        } else {
            assert(right@.take(j + 1) == right@.take(j as int).push(right@[j as int]));
            assert forall|m: int| j < m < right@.len() implies entry_le(
                right@[j as int],
                #[trigger] right@[m],
            ) by {
                assert(entry_order()(right@[j as int], right@[m]));
            }
            assert forall|m: int| i <= m < left@.len() implies entry_le(
                right@[j as int],
                #[trigger] left@[m],
            ) by {
                assert(entry_order()(left@[i as int], left@[m]) || m == i);
            }
            out.push(right[j]);
            j = j + 1;
        }
        assert(out@.to_multiset() =~= left@.take(i as int).to_multiset().add(
            right@.take(j as int).to_multiset(),
        )) by {
            broadcast use {vstd::multiset::group_multiset_axioms, group_to_multiset_ensures};

            assert(out@ == before.push(out@.last()));
        }
        assert(sorted_by(out@, entry_order())) by {
            assert forall|a: int, b: int| 0 <= a < b < out@.len() implies #[trigger] entry_order()(
                out@[a],
                out@[b],
            ) by {
                if b < before.len() {
                    assert(entry_order()(before[a], before[b]));
                }
            }
        }
    }
    assert(left@.take(i as int) == left@);
    assert(right@.take(j as int) == right@);
    out
}

/// Sorts the entries from `lo` up to `hi`.
fn merge_sort(entries: &Vec<Entry>, lo: usize, hi: usize) -> (sorted: Vec<Entry>)
    requires
        lo <= hi <= entries@.len(),
    ensures
        sorted_by(sorted@, entry_order()),
        sorted@.to_multiset() == entries@.subrange(lo as int, hi as int).to_multiset(),
    decreases hi - lo,
{
    if hi - lo <= 1 {
        let mut sorted: Vec<Entry> = Vec::new();
        if lo < hi {
            sorted.push(entries[lo]);
        }
        assert(sorted@ == entries@.subrange(lo as int, hi as int));
        sorted
    } else {
        let mid: usize = lo + (hi - lo) / 2;
        let left = merge_sort(entries, lo, mid);
        let right = merge_sort(entries, mid, hi);
        proof {
            let a = entries@.subrange(lo as int, mid as int);
            let b = entries@.subrange(mid as int, hi as int);
            assert(a + b == entries@.subrange(lo as int, hi as int));
            lemma_multiset_commutative(a, b);
        }
        merge(&left, &right)
    }
}

/// Puts entries in order.
pub fn sort_entries(entries: &Vec<Entry>) -> (sorted: Vec<Entry>)
    ensures
        sorted@ == in_order(entries@),
{
    let sorted = merge_sort(entries, 0, entries.len());
    proof {
        assert(entries@.subrange(0, entries@.len() as int) == entries@);
        lemma_in_order_is(entries@, sorted@);
    }
    sorted
}

} // verus!
