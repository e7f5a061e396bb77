//! Which ranges are found to overlap.

use crate::order;
use crate::range;
use crate::range::RangeView;
use vstd::prelude::*;

verus! {

/// One of `a` and `b` ends before the other starts.
pub open spec fn apart(a: RangeView, b: RangeView) -> bool {
    a.end <= b.start || b.end <= a.start
}

/// `a` is empty.
pub open spec fn empty(a: RangeView) -> bool {
    a.start == a.end
}

/// The same ranges in order: no two of them have the same name.
proof fn lemma_sorted(ranges: Seq<RangeView>)
    requires
        range::distinct(ranges),
    ensures
        ({
            let sorted = ranges.sort_by(range::range_order());
            &&& forall|k: int| 0 <= k < sorted.len() ==> ranges.contains(#[trigger] sorted[k])
            &&& forall|i: int| 0 <= i < ranges.len() ==> sorted.contains(#[trigger] ranges[i])
            &&& forall|k: int, l: int|
                0 <= k < l < sorted.len() ==> range::range_leq(
                    #[trigger] sorted[k],
                    #[trigger] sorted[l],
                ) && sorted[k].name != sorted[l].name
        }),
{
    let leq = range::range_order();
    let sorted = ranges.sort_by(leq);
    range::lemma_range_order_total();
    ranges.lemma_sort_by_ensures(leq);
    assert(ranges.no_duplicates()) by {
        assert forall|i: int, j: int|
            0 <= i < ranges.len() && 0 <= j < ranges.len() && i != j implies ranges[i]
            != ranges[j] by {
            assert(ranges[i].name != ranges[j].name);
        }
    }
    ranges.lemma_multiset_has_no_duplicates();
    sorted.lemma_multiset_has_no_duplicates_conv();
    assert forall|k: int| 0 <= k < sorted.len() implies ranges.contains(#[trigger] sorted[k]) by {
        assert(sorted.contains(sorted[k]));
    }
    assert forall|i: int| 0 <= i < ranges.len() implies sorted.contains(#[trigger] ranges[i]) by {
        assert(ranges.contains(ranges[i]));
        vstd::seq_lib::to_multiset_contains(ranges, ranges[i]);
        vstd::seq_lib::to_multiset_contains(sorted, ranges[i]);
    }
    assert forall|k: int, l: int| 0 <= k < l < sorted.len() implies range::range_leq(
        #[trigger] sorted[k],
        #[trigger] sorted[l],
    ) && sorted[k].name != sorted[l].name by {
        assert(leq(sorted[k], sorted[l]));
        let i = choose|i: int| 0 <= i < ranges.len() && ranges[i] == sorted[k];
        let j = choose|j: int| 0 <= j < ranges.len() && ranges[j] == sorted[l];
        assert(sorted[k] != sorted[l]);
        if i < j {
            assert(ranges[i].name != ranges[j].name);
        } else {
            assert(ranges[j].name != ranges[i].name);
        }
    }
}

/// What is found among sorted ranges from place `k` on: two neighbours of
/// which the second starts before the first ends, or else that there are none.
proof fn lemma_clash_from(sorted: Seq<RangeView>, k: int)
    requires
        0 <= k,
    ensures
        match range::clash_from(sorted, k) {
            Some((first, second)) => exists|i: int|
                k <= i < sorted.len() - 1 && (#[trigger] sorted[i]).name == first && sorted[i
                    + 1].name == second && sorted[i + 1].start < sorted[i].end,
            None => forall|i: int|
                k <= i < sorted.len() - 1 ==> (#[trigger] sorted[i]).end <= sorted[i + 1].start,
        },
    decreases sorted.len() - k,
{
    if k + 1 < sorted.len() {
        if sorted[k + 1].start < sorted[k].end {
            assert(k < sorted.len() - 1 && sorted[k].name == sorted[k].name);
        } else {
            lemma_clash_from(sorted, k + 1);
            if let Some((first, second)) = range::clash_from(sorted, k + 1) {
                let i = choose|i: int|
                    k + 1 <= i < sorted.len() - 1 && (#[trigger] sorted[i]).name == first && sorted[i
                        + 1].name == second && sorted[i + 1].start < sorted[i].end;
                assert(k <= i < sorted.len() - 1 && sorted[i].name == first);
            }
        }
    }
}

/// The two names that are reported are those of two ranges of which the second
/// starts in the first, or where the first starts.
pub proof fn law_overlap_reported(ranges: Seq<RangeView>)
    requires
        range::distinct(ranges),
    ensures
        range::overlap(ranges) matches Some((first, second)) ==> exists|i: int, j: int|
            0 <= i < ranges.len() && 0 <= j < ranges.len() && i != j && (
            #[trigger] ranges[i]).name == first && (#[trigger] ranges[j]).name == second
                && ranges[i].start <= ranges[j].start < ranges[i].end,
{
    let sorted = ranges.sort_by(range::range_order());
    lemma_sorted(ranges);
    lemma_clash_from(sorted, 0);
    if let Some((first, second)) = range::overlap(ranges) {
        let k = choose|k: int|
            0 <= k < sorted.len() - 1 && (#[trigger] sorted[k]).name == first && sorted[k + 1].name
                == second && sorted[k + 1].start < sorted[k].end;
        let (a, b) = (sorted[k], sorted[k + 1]);
        assert(range::range_leq(a, b));
        assert(ranges.contains(a) && ranges.contains(b));
        let i = choose|i: int| 0 <= i < ranges.len() && ranges[i] == a;
        let j = choose|j: int| 0 <= j < ranges.len() && ranges[j] == b;
        assert(ranges[i].name == first && ranges[j].name == second);
    }
}

/// Ranges between which no overlap is found are apart from one another, and an
/// empty range that starts where another one starts comes before it by name.
pub proof fn law_no_overlap(ranges: Seq<RangeView>)
    requires
        range::distinct(ranges),
        forall|i: int| 0 <= i < ranges.len() ==> (#[trigger] ranges[i]).start <= ranges[i].end,
        range::overlap(ranges) is None,
    ensures
        forall|i: int, j: int|
            0 <= i < j < ranges.len() ==> apart(#[trigger] ranges[i], #[trigger] ranges[j]),
        forall|i: int, j: int|
            0 <= i < ranges.len() && 0 <= j < ranges.len() && empty(#[trigger] ranges[i]) && !empty(
                #[trigger] ranges[j],
            ) && ranges[i].start == ranges[j].start ==> order::name_lt(
                ranges[i].name,
                ranges[j].name,
            ),
{
    let sorted = ranges.sort_by(range::range_order());
    lemma_sorted(ranges);
    lemma_clash_from(sorted, 0);
    assert forall|k: int| 0 <= k < sorted.len() implies (#[trigger] sorted[k]).start
        <= sorted[k].end by {
        assert(ranges.contains(sorted[k]));
    }
    assert forall|i: int, j: int| 0 <= i < j < ranges.len() implies apart(
        #[trigger] ranges[i],
        #[trigger] ranges[j],
    ) by {
        assert(sorted.contains(ranges[i]) && sorted.contains(ranges[j]));
        let k = choose|k: int| 0 <= k < sorted.len() && sorted[k] == ranges[i];
        let l = choose|l: int| 0 <= l < sorted.len() && sorted[l] == ranges[j];
        assert(ranges[i].name != ranges[j].name);
        if k < l {
            lemma_chain(sorted, k, l);
        } else {
            lemma_chain(sorted, l, k);
        }
    }
    assert forall|i: int, j: int|
        0 <= i < ranges.len() && 0 <= j < ranges.len() && empty(#[trigger] ranges[i]) && !empty(
            #[trigger] ranges[j],
        ) && ranges[i].start == ranges[j].start implies order::name_lt(
        ranges[i].name,
        ranges[j].name,
    ) by {
        assert(sorted.contains(ranges[i]) && sorted.contains(ranges[j]));
        let k = choose|k: int| 0 <= k < sorted.len() && sorted[k] == ranges[i];
        let l = choose|l: int| 0 <= l < sorted.len() && sorted[l] == ranges[j];
        if l < k {
            lemma_chain(sorted, l, k);
        }
        assert(range::range_leq(sorted[k], sorted[l]));
    }
}

proof fn lemma_chain(sorted: Seq<RangeView>, k: int, l: int)
    requires
        0 <= k < l < sorted.len(),
        forall|i: int| 0 <= i < sorted.len() ==> (#[trigger] sorted[i]).start <= sorted[i].end,
        forall|i: int|
            0 <= i < sorted.len() - 1 ==> (#[trigger] sorted[i]).end <= sorted[i + 1].start,
    ensures
        sorted[k].end <= sorted[l].start,
    decreases l - k,
{
    if k + 1 < l {
        lemma_chain(sorted, k + 1, l);
        assert(sorted[k].end <= sorted[k + 1].start);
    }
}

/// Between ranges that are apart from one another no overlap is found. An
/// empty range that starts where another one starts must come before it by
/// name: it is reported where it does not.
pub proof fn law_apart_accepted(ranges: Seq<RangeView>)
    requires
        range::distinct(ranges),
        forall|i: int| 0 <= i < ranges.len() ==> (#[trigger] ranges[i]).start <= ranges[i].end,
        forall|i: int, j: int|
            0 <= i < j < ranges.len() ==> apart(#[trigger] ranges[i], #[trigger] ranges[j]),
        forall|i: int, j: int|
            0 <= i < ranges.len() && 0 <= j < ranges.len() && empty(#[trigger] ranges[i]) && !empty(
                #[trigger] ranges[j],
            ) && ranges[i].start == ranges[j].start ==> order::name_lt(
                ranges[i].name,
                ranges[j].name,
            ),
    ensures
        range::overlap(ranges) is None,
{
    let sorted = ranges.sort_by(range::range_order());
    lemma_sorted(ranges);
    lemma_clash_from(sorted, 0);
    if range::overlap(ranges) is Some {
        let (first, second) = range::overlap(ranges)->0;
        let k = choose|k: int|
            0 <= k < sorted.len() - 1 && (#[trigger] sorted[k]).name == first && sorted[k + 1].name
                == second && sorted[k + 1].start < sorted[k].end;
        let (a, b) = (sorted[k], sorted[k + 1]);
        assert(range::range_leq(a, b) && a.name != b.name);
        assert(ranges.contains(a) && ranges.contains(b));
        let i = choose|i: int| 0 <= i < ranges.len() && ranges[i] == a;
        let j = choose|j: int| 0 <= j < ranges.len() && ranges[j] == b;
        assert(apart(ranges[i], ranges[j]) || apart(ranges[j], ranges[i]));
        assert(empty(b) && !empty(a));
        assert(order::name_lt(b.name, a.name));
        order::lemma_name_lt_transitive(a.name, b.name, a.name);
        order::lemma_name_lt_irreflexive(a.name);
    }
}

/// The ranges that are reported are the first that overlap: each of the two
/// comes in order of start and then of name, no range comes between them, and
/// the first and all ranges ahead of it are apart from one another.
pub proof fn law_first_overlap(ranges: Seq<RangeView>) -> (pair: (int, int))
    requires
        forall|i: int, j: int|
            0 <= i < j < ranges.len() ==> (#[trigger] ranges[i]).name != (#[trigger] ranges[j]).name,
        forall|i: int| 0 <= i < ranges.len() ==> (#[trigger] ranges[i]).start <= ranges[i].end,
        range::overlap(ranges) is Some,
    ensures
        ({
            let (i, j) = pair;
            let ahead = |a: RangeView, b: RangeView|
                a.start < b.start || a.start == b.start && order::name_lt(a.name, b.name);
            &&& 0 <= i < ranges.len() && 0 <= j < ranges.len() && i != j
            &&& range::overlap(ranges) == Some((ranges[i].name, ranges[j].name))
            &&& ahead(ranges[i], ranges[j])
            &&& ranges[j].start < ranges[i].end
            &&& forall|k: int|
                0 <= k < ranges.len() ==> !(ahead(ranges[i], #[trigger] ranges[k]) && ahead(
                    ranges[k],
                    ranges[j],
                ))
            &&& forall|k: int, l: int|
                0 <= k < ranges.len() && 0 <= l < ranges.len() && k != l && (k == i || ahead(
                    #[trigger] ranges[k],
                    ranges[i],
                )) && (l == i || ahead(#[trigger] ranges[l], ranges[i])) ==> ranges[k].end
                    <= ranges[l].start || ranges[l].end <= ranges[k].start
        }),
{
    let sorted = ranges.sort_by(range::range_order());
    lemma_sorted(ranges);
    let m = lemma_first_clash(sorted, 0);
    let (a, b) = (sorted[m], sorted[m + 1]);
    assert(range::range_leq(a, b) && a.name != b.name);
    assert(ranges.contains(a) && ranges.contains(b));
    let i = choose|i: int| 0 <= i < ranges.len() && ranges[i] == a;
    let j = choose|j: int| 0 <= j < ranges.len() && ranges[j] == b;
    let ahead = |a: RangeView, b: RangeView|
        a.start < b.start || a.start == b.start && order::name_lt(a.name, b.name);
    assert forall|k: int| 0 <= k < sorted.len() implies (#[trigger] sorted[k]).start
        <= sorted[k].end by {
        assert(ranges.contains(sorted[k]));
    }
    assert forall|k: int| 0 <= k < ranges.len() implies !(ahead(ranges[i], #[trigger] ranges[k])
        && ahead(ranges[k], ranges[j])) by {
        assert(sorted.contains(ranges[k]));
        let n = choose|n: int| 0 <= n < sorted.len() && sorted[n] == ranges[k];
        lemma_order_of_places(sorted, n, m);
        lemma_order_of_places(sorted, n, m + 1);
    }
    assert forall|k: int, l: int|
        0 <= k < ranges.len() && 0 <= l < ranges.len() && k != l && (k == i || ahead(
            #[trigger] ranges[k],
            ranges[i],
        )) && (l == i || ahead(#[trigger] ranges[l], ranges[i])) implies ranges[k].end
        <= ranges[l].start || ranges[l].end <= ranges[k].start by {
        assert(sorted.contains(ranges[k]) && sorted.contains(ranges[l]));
        let n = choose|n: int| 0 <= n < sorted.len() && sorted[n] == ranges[k];
        let o = choose|o: int| 0 <= o < sorted.len() && sorted[o] == ranges[l];
        lemma_order_of_places(sorted, n, m);
        lemma_order_of_places(sorted, o, m);
        assert(ranges[k].name != ranges[l].name) by {
            if k < l {
                assert(ranges[k].name != ranges[l].name);
            } else {
                assert(ranges[l].name != ranges[k].name);
            }
        }
        let first = sorted.take(m + 1);
        if n < o {
            lemma_chain(first, n, o);
        } else {
            lemma_chain(first, o, n);
        }
    }
    (i, j)
}

/// Of sorted ranges one comes ahead of another by rank just where it does by
/// place.
proof fn lemma_order_of_places(sorted: Seq<RangeView>, k: int, l: int)
    requires
        0 <= k < sorted.len(),
        0 <= l < sorted.len(),
        forall|k: int, l: int|
            0 <= k < l < sorted.len() ==> range::range_leq(
                #[trigger] sorted[k],
                #[trigger] sorted[l],
            ) && sorted[k].name != sorted[l].name,
    ensures
        k < l <==> sorted[k].start < sorted[l].start || sorted[k].start == sorted[l].start
            && order::name_lt(sorted[k].name, sorted[l].name),
        l < k <==> sorted[l].start < sorted[k].start || sorted[l].start == sorted[k].start
            && order::name_lt(sorted[l].name, sorted[k].name),
{
    let (a, b) = (sorted[k].name, sorted[l].name);
    order::lemma_name_lt_irreflexive(a);
    if order::name_lt(a, b) && order::name_lt(b, a) {
        order::lemma_name_lt_transitive(a, b, a);
    }
    if k < l {
        assert(range::range_leq(sorted[k], sorted[l]));
    }
    if l < k {
        assert(range::range_leq(sorted[l], sorted[k]));
    }
}

/// The place of the first two neighbours, from place `k` on, that overlap.
proof fn lemma_first_clash(sorted: Seq<RangeView>, k: int) -> (m: int)
    requires
        0 <= k,
        range::clash_from(sorted, k) is Some,
    ensures
        k <= m < sorted.len() - 1,
        range::clash_from(sorted, k) == Some((sorted[m].name, sorted[m + 1].name)),
        sorted[m + 1].start < sorted[m].end,
        forall|i: int| k <= i < m ==> (#[trigger] sorted[i]).end <= sorted[i + 1].start,
    decreases sorted.len() - k,
{
    if sorted[k + 1].start < sorted[k].end {
        k
    } else {
        lemma_first_clash(sorted, k + 1)
    }
}

} // verus!
