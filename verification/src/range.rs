//! The byte ranges of tensors, which must not overlap.

use crate::model::TensorView;
use crate::order;
use crate::sort;
use crate::sort::Ranked;
use vstd::prelude::*;

verus! {

/// The bytes of a tensor: those from `start` up to `end`.
pub struct ByteRange {
    pub start: u64,
    pub end: u64,
    pub name: String,
}

/// The mathematical content of a [`ByteRange`].
pub struct RangeView {
    pub start: int,
    pub end: int,
    pub name: Seq<char>,
}

impl View for ByteRange {
    type V = RangeView;

    open spec fn view(&self) -> RangeView {
        RangeView { start: self.start as int, end: self.end as int, name: self.name@ }
    }
}

impl Ranked for ByteRange {
    open spec fn rank(&self) -> (int, Seq<char>) {
        (self.start as int, self.name@)
    }

    fn rank_number(&self) -> (number: u64) {
        self.start
    }

    fn rank_name(&self) -> (name: &str) {
        self.name.as_str()
    }
}

/// The contents of a list of ranges.
pub open spec fn range_views(ranges: Seq<ByteRange>) -> Seq<RangeView> {
    ranges.map_values(|range: ByteRange| range@)
}

/// The range of `tensor` in a file whose tensor data start at `data_start`.
pub open spec fn range_of(tensor: TensorView, data_start: int) -> RangeView {
    let start = data_start + tensor.offset_bytes->0;
    RangeView { start, end: start + tensor.size_bytes->0, name: tensor.name }
}

/// The ranges of `tensors`.
pub open spec fn ranges_of(tensors: Seq<TensorView>, data_start: int) -> Seq<RangeView> {
    tensors.map_values(|tensor: TensorView| range_of(tensor, data_start))
}

/// `a` does not come after `b` in the order of ranges: the one that starts
/// first comes first, then the one whose name comes first, then the one that
/// ends first.
pub open spec fn range_leq(a: RangeView, b: RangeView) -> bool {
    ||| a.start < b.start
    ||| a.start == b.start && order::name_lt(a.name, b.name)
    ||| a.start == b.start && a.name == b.name && a.end <= b.end
}

/// The order of ranges.
pub open spec fn range_order() -> spec_fn(RangeView, RangeView) -> bool {
    |a: RangeView, b: RangeView| range_leq(a, b)
}

/// The order of ranges is a total order.
pub proof fn lemma_range_order_total()
    ensures
        vstd::relations::total_ordering(range_order()),
{
    let leq = range_order();
    assert(vstd::relations::reflexive(leq));
    assert forall|a: RangeView, b: RangeView| #[trigger] leq(a, b) && #[trigger] leq(b, a) implies a
        == b by {
        order::lemma_name_lt_irreflexive(a.name);
        if order::name_lt(a.name, b.name) && order::name_lt(b.name, a.name) {
            order::lemma_name_lt_transitive(a.name, b.name, a.name);
        }
    }
    assert forall|a: RangeView, b: RangeView, c: RangeView| #[trigger]
        leq(a, b) && #[trigger] leq(b, c) implies leq(a, c) by {
        if order::name_lt(a.name, b.name) && order::name_lt(b.name, c.name) {
            order::lemma_name_lt_transitive(a.name, b.name, c.name);
        }
    }
    assert forall|a: RangeView, b: RangeView| #[trigger] leq(a, b) || #[trigger] leq(b, a) by {
        order::lemma_name_lt_total(a.name, b.name);
    }
}

/// The names of the first two neighbours in `sorted`, from place `k` on, of
/// which the second starts before the first ends.
pub open spec fn clash_from(sorted: Seq<RangeView>, k: int) -> Option<(Seq<char>, Seq<char>)>
    decreases sorted.len() - k,
{
    if k + 1 >= sorted.len() {
        None
    } else if sorted[k + 1].start < sorted[k].end {
        Some((sorted[k].name, sorted[k + 1].name))
    } else {
        clash_from(sorted, k + 1)
    }
}

/// The names of the first two of `ranges`, in their order, that overlap.
pub open spec fn overlap(ranges: Seq<RangeView>) -> Option<(Seq<char>, Seq<char>)> {
    clash_from(ranges.sort_by(range_order()), 0)
}

/// No two of `ranges` have the same name.
pub open spec fn distinct(ranges: Seq<RangeView>) -> bool {
    forall|i: int, j: int|
        0 <= i < j < ranges.len() ==> (#[trigger] ranges[i]).name != (#[trigger] ranges[j]).name
}

/// The ranges at `places`.
spec fn at_places(ranges: Seq<ByteRange>, places: Seq<usize>) -> Seq<RangeView> {
    Seq::new(places.len(), |k: int| ranges[places[k] as int]@)
}

/// Ranges at sorted places are the sorted ranges.
proof fn lemma_sorted_places(ranges: Seq<ByteRange>, places: Seq<usize>)
    requires
        ranges.len() <= usize::MAX,
        distinct(range_views(ranges)),
        sort::in_order(ranges, places),
        sort::covers(places, 0, ranges.len() as int),
    ensures
        at_places(ranges, places) == range_views(ranges).sort_by(range_order()),
{
    let leq = range_order();
    let views = range_views(ranges);
    let sorted = at_places(ranges, places);
    lemma_range_order_total();
    views.lemma_sort_by_ensures(leq);
    assert forall|i: int, j: int| 0 <= i < j < sorted.len() implies #[trigger] leq(
        sorted[i],
        sorted[j],
    ) && sorted[i].name != sorted[j].name by {
        let (p, q) = (places[i] as int, places[j] as int);
        assert(sort::ahead(ranges, p, q));
        sort::lemma_ahead_irreflexive(ranges, p);
        assert(views[p].name != views[q].name);
    }
    assert(sorted.no_duplicates()) by {
        assert forall|i: int, j: int|
            0 <= i < sorted.len() && 0 <= j < sorted.len() && i != j implies sorted[i]
            != sorted[j] by {
            if i < j {
                assert(leq(sorted[i], sorted[j]));
            } else {
                assert(leq(sorted[j], sorted[i]));
            }
        }
    }
    assert(views.no_duplicates()) by {
        assert forall|i: int, j: int|
            0 <= i < views.len() && 0 <= j < views.len() && i != j implies views[i] != views[j] by {
            assert(views[i].name != views[j].name);
        }
    }
    assert forall|k: int| 0 <= k < sorted.len() implies views.contains(#[trigger] sorted[k]) by {
        assert(views[places[k] as int] == sorted[k]);
    }
    assert forall|i: int| 0 <= i < views.len() implies sorted.contains(#[trigger] views[i]) by {
        assert(places.contains(i as usize));
        let k = choose|k: int| 0 <= k < places.len() && places[k] == i as usize;
        assert(sorted[k] == views[i]);
    }
    sort::lemma_same_items(sorted, views);
    vstd::seq_lib::lemma_sorted_unique(sorted, views.sort_by(leq), leq);
}

/// Finds the first two of `ranges`, in their order, that overlap.
pub fn find_overlap(ranges: &Vec<ByteRange>) -> (result: Option<(String, String)>)
    requires
        distinct(range_views(ranges@)),
    ensures
        match result {
            Some((first, second)) => overlap(range_views(ranges@)) == Some((first@, second@)),
            None => overlap(range_views(ranges@)) is None,
        },
{
    let count: usize = ranges.len();
    let places = sort::sorted_places(ranges);
    let ghost sorted = at_places(ranges@, places@);
    proof {
        assert(ranges@.len() == count);
        lemma_sorted_places(ranges@, places@);
    }
    let mut k: usize = 0;
    while k < places.len() && k + 1 < places.len()
        invariant
            sorted == at_places(ranges@, places@),
            sort::in_order(ranges@, places@),
            k <= places@.len(),
            overlap(range_views(ranges@)) == clash_from(sorted, k as int),
        decreases places@.len() - k,
    {
        let (p, q): (usize, usize) = (places[k], places[k + 1]);
        let first = &ranges[p];
        let second = &ranges[q];
        assert(sorted[k as int] == first@ && sorted[k + 1] == second@);
        if second.start < first.end {
            return Some((first.name.clone(), second.name.clone()));
        }
        k = k + 1;
    }
    None
}

/// The content of a range is all that it holds, and that of a list of ranges the
/// contents of each, in order.
pub proof fn law_range_content(ranges: Seq<ByteRange>)
    ensures
        range_views(ranges).len() == ranges.len(),
        forall|i: int|
            0 <= i < ranges.len() ==> (#[trigger] range_views(ranges)[i]).start == ranges[i].start
                && range_views(ranges)[i].end == ranges[i].end && range_views(ranges)[i].name
                == ranges[i].name@,
{
}

} // verus!
