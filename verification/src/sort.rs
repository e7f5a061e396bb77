//! Putting items in order.
//!
//! Items are not moved while they are sorted: what is sorted are their places.

use crate::order;
use crate::order::Relation;
use vstd::prelude::*;

verus! {

/// Something that has a place in an order: by a number, and among those with
/// one number by a name.
pub trait Ranked {
    /// The number and the name.
    spec fn rank(&self) -> (int, Seq<char>);

    /// The number.
    fn rank_number(&self) -> (number: u64)
        ensures
            number == self.rank().0,
    ;

    /// The name.
    fn rank_name(&self) -> (name: &str)
        ensures
            name@ == self.rank().1,
    ;
}

/// The rank `a` comes before the rank `b`.
pub open spec fn rank_lt(a: (int, Seq<char>), b: (int, Seq<char>)) -> bool {
    a.0 < b.0 || a.0 == b.0 && order::name_lt(a.1, b.1)
}

/// The item at place `p` comes before the one at place `q`: by rank, and among
/// those of one rank by place.
pub open spec fn ahead<T: Ranked>(items: Seq<T>, p: int, q: int) -> bool {
    rank_lt(items[p].rank(), items[q].rank()) || items[p].rank() == items[q].rank() && p < q
}

/// No item comes before itself.
pub proof fn lemma_ahead_irreflexive<T: Ranked>(items: Seq<T>, p: int)
    ensures
        !ahead(items, p, p),
{
    order::lemma_name_lt_irreflexive(items[p].rank().1);
}

/// What comes before an item comes before whatever that item comes before.
pub proof fn lemma_ahead_transitive<T: Ranked>(items: Seq<T>, p: int, q: int, r: int)
    requires
        ahead(items, p, q),
        ahead(items, q, r),
    ensures
        ahead(items, p, r),
{
    let (a, b, c) = (items[p].rank().1, items[q].rank().1, items[r].rank().1);
    if order::name_lt(a, b) && order::name_lt(b, c) {
        order::lemma_name_lt_transitive(a, b, c);
    }
}

/// `places` are places of `items`, each before the next.
pub open spec fn in_order<T: Ranked>(items: Seq<T>, places: Seq<usize>) -> bool {
    &&& forall|i: int| 0 <= i < places.len() ==> #[trigger] places[i] < items.len()
    &&& forall|i: int, j: int|
        0 <= i < j < places.len() ==> ahead(
            items,
            #[trigger] places[i] as int,
            #[trigger] places[j] as int,
        )
}

/// Each number from `low` up to `high`, and no other, is among `places`.
pub open spec fn covers(places: Seq<usize>, low: int, high: int) -> bool {
    &&& places.len() == high - low
    &&& forall|i: int| 0 <= i < places.len() ==> low <= #[trigger] places[i] < high
    &&& forall|p: usize| low <= p < high ==> #[trigger] places.contains(p)
}

/// Tells whether the item at place `p` comes before the one at place `q`, which
/// is further on.
fn is_ahead<T: Ranked>(items: &Vec<T>, p: usize, q: usize) -> (result: bool)
    requires
        p < q < items@.len(),
    ensures
        result == ahead(items@, p as int, q as int),
        !result ==> ahead(items@, q as int, p as int),
{
    let (a, b) = (&items[p], &items[q]);
    let (m, n): (u64, u64) = (a.rank_number(), b.rank_number());
    if m != n {
        m < n
    } else {
        let ghost (x, y) = (a.rank().1, b.rank().1);
        proof {
            order::lemma_name_lt_irreflexive(x);
            if order::name_lt(x, y) && order::name_lt(y, x) {
                order::lemma_name_lt_transitive(x, y, x);
            }
        }
        match order::relate(a.rank_name(), b.rank_name()) {
            Relation::Before => true,
            Relation::Same => {
                assert(a.rank() == b.rank());
                true
            },
            Relation::After => false,
        }
    }
}

/// What comes behind the last of some places comes behind all of them.
proof fn lemma_pushed<T: Ranked>(items: Seq<T>, before: Seq<usize>, next: usize, rest: usize)
    requires
        forall|k: int|
            0 <= k < before.len() ==> ahead(items, #[trigger] before[k] as int, next as int),
        ahead(items, next as int, rest as int),
    ensures
        forall|k: int|
            0 <= k < before.len() + 1 ==> ahead(
                items,
                #[trigger] before.push(next)[k] as int,
                rest as int,
            ),
{
    assert forall|k: int| 0 <= k < before.len() + 1 implies ahead(
        items,
        #[trigger] before.push(next)[k] as int,
        rest as int,
    ) by {
        if k < before.len() {
            lemma_ahead_transitive(items, before[k] as int, next as int, rest as int);
        }
    }
}

/// Merges two lists of places, each of which is in order.
fn merge<T: Ranked>(
    items: &Vec<T>,
    first: &Vec<usize>,
    second: &Vec<usize>,
    low: usize,
    middle: usize,
    high: usize,
) -> (merged: Vec<usize>)
    requires
        low <= middle <= high <= items@.len(),
        in_order(items@, first@),
        in_order(items@, second@),
        covers(first@, low as int, middle as int),
        covers(second@, middle as int, high as int),
    ensures
        in_order(items@, merged@),
        covers(merged@, low as int, high as int),
{
    let mut merged: Vec<usize> = Vec::with_capacity(high - low);
    let mut i: usize = 0;
    let mut j: usize = 0;
    while i < first.len() || j < second.len()
        invariant
            low <= middle <= high <= items@.len(),
            in_order(items@, first@),
            in_order(items@, second@),
            covers(first@, low as int, middle as int),
            covers(second@, middle as int, high as int),
            i <= first@.len(),
            j <= second@.len(),
            merged@.len() == i + j,
            in_order(items@, merged@),
            forall|k: int| 0 <= k < merged@.len() ==> low <= #[trigger] merged@[k] < high,
            forall|k: int| 0 <= k < i ==> merged@.contains(#[trigger] first@[k]),
            forall|k: int| 0 <= k < j ==> merged@.contains(#[trigger] second@[k]),
            i < first@.len() ==> forall|k: int|
                0 <= k < merged@.len() ==> ahead(
                    items@,
                    #[trigger] merged@[k] as int,
                    first@[i as int] as int,
                ),
            j < second@.len() ==> forall|k: int|
                0 <= k < merged@.len() ==> ahead(
                    items@,
                    #[trigger] merged@[k] as int,
                    second@[j as int] as int,
                ),
        decreases first@.len() - i + second@.len() - j,
    {
        let take_first: bool = if i == first.len() {
            false
        } else if j == second.len() {
            true
        } else {
            is_ahead(items, first[i], second[j])
        };
        let ghost before = merged@;
        let next: usize = if take_first {
            first[i]
        } else {
            second[j]
        };
        merged.push(next);
        proof {
            assert(merged@ == before.push(next));
            assert forall|p: usize| before.contains(p) implies #[trigger] merged@.contains(p) by {
                let k = choose|k: int| 0 <= k < before.len() && before[k] == p;
                assert(merged@[k] == p);
            }
            assert(merged@[before.len() as int] == next);
            assert(merged@.contains(next));
            // Whatever is left comes behind `next`.
            if take_first && i + 1 < first@.len() {
                lemma_pushed(items@, before, next, first@[i + 1]);
            }
            if !take_first && i < first@.len() {
                lemma_pushed(items@, before, next, first@[i as int]);
            }
            if take_first && j < second@.len() {
                lemma_pushed(items@, before, next, second@[j as int]);
            }
            if !take_first && j + 1 < second@.len() {
                lemma_pushed(items@, before, next, second@[j + 1]);
            }
        }
        if take_first {
            i = i + 1;
        } else {
            j = j + 1;
        }
    }
    proof {
        assert forall|p: usize| low <= p < high implies #[trigger] merged@.contains(p) by {
            if p < middle {
                assert(first@.contains(p));
                let k = choose|k: int| 0 <= k < first@.len() && first@[k] == p;
                assert(merged@.contains(first@[k]));
            } else {
                assert(second@.contains(p));
                let k = choose|k: int| 0 <= k < second@.len() && second@[k] == p;
                assert(merged@.contains(second@[k]));
            }
        }
    }
    merged
}

/// Puts the places from `low` up to `high` in order.
fn sort_run<T: Ranked>(items: &Vec<T>, low: usize, high: usize) -> (places: Vec<usize>)
    requires
        low <= high <= items@.len(),
    ensures
        in_order(items@, places@),
        covers(places@, low as int, high as int),
    decreases high - low,
{
    if high - low <= 1 {
        let mut places: Vec<usize> = Vec::new();
        if low < high {
            places.push(low);
            assert(places@[0] == low);
        }
        places
    } else {
        let middle: usize = low + (high - low) / 2;
        let first = sort_run(items, low, middle);
        let second = sort_run(items, middle, high);
        merge(items, &first, &second, low, middle, high)
    }
}

/// The places of all items, in order.
pub fn sorted_places<T: Ranked>(items: &Vec<T>) -> (places: Vec<usize>)
    ensures
        in_order(items@, places@),
        covers(places@, 0, items@.len() as int),
{
    sort_run(items, 0, items.len())
}

/// Takes the items at `places`, which differ, in that order.
pub fn picked<T>(items: Vec<T>, places: &Vec<usize>) -> (result: Vec<T>)
    requires
        forall|i: int| 0 <= i < places@.len() ==> #[trigger] places@[i] < items@.len(),
        places@.no_duplicates(),
    ensures
        result@.len() == places@.len(),
        forall|i: int|
            0 <= i < places@.len() ==> #[trigger] result@[i] == items@[places@[i] as int],
{
    let ghost all = items@;
    let length: usize = items.len();
    let mut items = items;
    // The items from the last to the first.
    let mut slots: Vec<Option<T>> = Vec::with_capacity(length);
    while items.len() > 0
        invariant
            length == all.len(),
            items@.len() + slots@.len() == length,
            items@ == all.take(items@.len() as int),
            forall|k: int|
                0 <= k < slots@.len() ==> #[trigger] slots@[k] == Some(all[length - 1 - k]),
        decreases items@.len(),
    {
        let item = items.pop();
        slots.push(item);
    }
    let mut result: Vec<T> = Vec::with_capacity(places.len());
    let mut i: usize = 0;
    while i < places.len()
        invariant
            length == all.len(),
            slots@.len() == length,
            i <= places@.len(),
            result@.len() == i,
            places@.no_duplicates(),
            forall|k: int| 0 <= k < places@.len() ==> #[trigger] places@[k] < length,
            forall|k: int| 0 <= k < i ==> #[trigger] result@[k] == all[places@[k] as int],
            forall|k: int|
                i <= k < places@.len() ==> slots@[length - 1 - #[trigger] places@[k]] == Some(
                    all[places@[k] as int],
                ),
        decreases places@.len() - i,
    {
        let place: usize = places[i];
        let slot: usize = length - 1 - place;
        assert(slots@[slot as int] == Some(all[places@[i as int] as int]));
        match slots[slot].take() {
            Some(item) => {
                result.push(item);
            },
            None => {},
        }
        i = i + 1;
    }
    result
}

/// Places in order differ.
pub proof fn lemma_in_order_differ<T: Ranked>(items: Seq<T>, places: Seq<usize>)
    requires
        in_order(items, places),
    ensures
        places.no_duplicates(),
{
    assert forall|i: int, j: int|
        0 <= i < places.len() && 0 <= j < places.len() && i != j implies places[i] != places[j] by {
        lemma_ahead_irreflexive(items, places[i] as int);
        if i < j {
            assert(ahead(items, places[i] as int, places[j] as int));
        } else {
            assert(ahead(items, places[j] as int, places[i] as int));
        }
    }
}

/// Two lists with the same items, in each of which no item occurs twice, hold
/// each item as often.
pub proof fn lemma_same_items<T>(x: Seq<T>, y: Seq<T>)
    requires
        x.no_duplicates(),
        y.no_duplicates(),
        forall|i: int| 0 <= i < x.len() ==> y.contains(#[trigger] x[i]),
        forall|i: int| 0 <= i < y.len() ==> x.contains(#[trigger] y[i]),
    ensures
        x.to_multiset() == y.to_multiset(),
{
    x.lemma_multiset_has_no_duplicates();
    y.lemma_multiset_has_no_duplicates();
    assert forall|item: T| x.to_multiset().count(item) == y.to_multiset().count(item) by {
        vstd::seq_lib::to_multiset_contains(x, item);
        vstd::seq_lib::to_multiset_contains(y, item);
        if x.contains(item) {
            let i = choose|i: int| 0 <= i < x.len() && x[i] == item;
            assert(y.contains(x[i]));
        }
        if y.contains(item) {
            let i = choose|i: int| 0 <= i < y.len() && y[i] == item;
            assert(x.contains(y[i]));
        }
    }
    assert(x.to_multiset() =~= y.to_multiset());
}

/// Places in order that cover all items are each of them once. Numbers do not
/// fall from one to the next; among those with one number names do not fall in
/// the order of names, and those that are the same in both keep their order.
pub proof fn law_sorted_places<T: Ranked>(items: Seq<T>, places: Seq<usize>, i: int, j: int)
    requires
        in_order(items, places),
        covers(places, 0, items.len() as int),
        0 <= i < j < places.len(),
    ensures
        places.len() == items.len(),
        forall|p: usize| p < items.len() ==> #[trigger] places.contains(p),
        places[i] < items.len() && places[j] < items.len() && places[i] != places[j],
        ({
            let (a, b) = (items[places[i] as int].rank(), items[places[j] as int].rank());
            &&& a.0 <= b.0
            &&& a.0 == b.0 ==> a.1 == b.1 || order::name_lt(a.1, b.1)
            &&& a == b ==> places[i] < places[j]
        }),
{
    lemma_in_order_differ(items, places);
    assert(ahead(items, places[i] as int, places[j] as int));
    order::lemma_name_lt_irreflexive(items[places[i] as int].rank().1);
}

} // verus!
