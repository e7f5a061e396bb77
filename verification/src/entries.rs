//! The metadata of a file, looked up by key.

use crate::metadata::{GgufMetadataValue, ValueView};
use crate::order;
use crate::order::Named;
use crate::sort;
use crate::sort::Ranked;
use vstd::prelude::*;

verus! {

/// A key and its value.
#[derive(Debug, PartialEq)]
pub struct MetadataEntry {
    pub key: String,
    pub value: GgufMetadataValue,
}

impl View for MetadataEntry {
    type V = (Seq<char>, ValueView);

    open spec fn view(&self) -> (Seq<char>, ValueView) {
        (self.key@, self.value@)
    }
}

impl Named for MetadataEntry {
    open spec fn name_view(&self) -> Seq<char> {
        self.key@
    }

    fn name(&self) -> (name: &str) {
        self.key.as_str()
    }
}

impl Ranked for MetadataEntry {
    open spec fn rank(&self) -> (int, Seq<char>) {
        (0, self.key@)
    }

    fn rank_number(&self) -> (number: u64) {
        0
    }

    fn rank_name(&self) -> (name: &str) {
        self.key.as_str()
    }
}

impl Clone for MetadataEntry {
    fn clone(&self) -> (copy: Self)
        ensures
            copy@ == self@,
    {
        MetadataEntry { key: self.key.clone(), value: self.value.clone() }
    }
}

/// What a list of entries says of each key, where of several entries with one
/// key the last one counts.
pub open spec fn map_of(entries: Seq<(Seq<char>, ValueView)>) -> Map<Seq<char>, ValueView>
    decreases entries.len(),
{
    if entries.len() == 0 {
        Map::empty()
    } else {
        map_of(entries.drop_last()).insert(entries.last().0, entries.last().1)
    }
}

/// Metadata values by key, in the order of their keys.
#[derive(Debug, PartialEq)]
pub struct MetadataMap {
    entries: Vec<MetadataEntry>,
}

impl View for MetadataMap {
    type V = Map<Seq<char>, ValueView>;

    open spec fn view(&self) -> Map<Seq<char>, ValueView> {
        map_of(entry_views(self.list()))
    }
}

/// The contents of a list of entries.
pub open spec fn entry_views(entries: Seq<MetadataEntry>) -> Seq<(Seq<char>, ValueView)> {
    entries.map_values(|entry: MetadataEntry| entry@)
}

/// A list of entries gives a value to each key that is in it, known or not, and
/// to no other: that of the last entry with the key.
pub proof fn law_last_entry_counts(entries: Seq<(Seq<char>, ValueView)>)
    ensures
        forall|key: Seq<char>| #[trigger]
            map_of(entries).dom().contains(key) <==> exists|i: int|
                0 <= i < entries.len() && (#[trigger] entries[i]).0 == key,
        forall|i: int|
            0 <= i < entries.len() && (forall|j: int|
                i < j < entries.len() ==> (#[trigger] entries[j]).0 != entries[i].0) ==> map_of(
                entries,
            )[(#[trigger] entries[i]).0] == entries[i].1,
    decreases entries.len(),
{
    if entries.len() > 0 {
        let shorter = entries.drop_last();
        let last = entries.last();
        law_last_entry_counts(shorter);
        assert forall|key: Seq<char>| #[trigger] map_of(entries).dom().contains(key) <==> exists|
            i: int,
        | 0 <= i < entries.len() && (#[trigger] entries[i]).0 == key by {
            if map_of(entries).dom().contains(key) {
                if key == last.0 {
                    assert(entries[entries.len() - 1].0 == key);
                } else {
                    assert(map_of(shorter).dom().contains(key));
                    let i = choose|i: int|
                        0 <= i < shorter.len() && (#[trigger] shorter[i]).0 == key;
                    assert(entries[i].0 == key);
                }
            }
            if exists|i: int| 0 <= i < entries.len() && (#[trigger] entries[i]).0 == key {
                let i = choose|i: int| 0 <= i < entries.len() && (#[trigger] entries[i]).0 == key;
                if i < shorter.len() {
                    assert(shorter[i].0 == key);
                    assert(map_of(shorter).dom().contains(key));
                } else {
                    assert(entries[i] == last);
                }
                assert(map_of(entries).dom().contains(key));
            }
        }
        assert forall|i: int|
            0 <= i < entries.len() && (forall|j: int|
                i < j < entries.len() ==> (#[trigger] entries[j]).0 != entries[i].0) implies map_of(
            entries,
        )[(#[trigger] entries[i]).0] == entries[i].1 by {
            if i < shorter.len() {
                assert(entries[entries.len() - 1].0 != entries[i].0);
                assert(shorter[i] == entries[i]);
                assert forall|j: int| i < j < shorter.len() implies (#[trigger] shorter[j]).0
                    != shorter[i].0 by {
                    assert(entries[j].0 != entries[i].0);
                }
            }
        }
    }
}

impl MetadataMap {
    /// The entries, in the order of their keys.
    pub closed spec fn list(self) -> Seq<MetadataEntry> {
        self.entries@
    }

    /// The entries are in the order of their keys, each of which occurs once.
    pub open spec fn wf(self) -> bool {
        order::names_increase(self.list())
    }

    /// In a well-formed map each entry gives the value of its key, and no
    /// other key has one.
    pub proof fn lemma_entries(self)
        requires
            self.wf(),
        ensures
            forall|key: Seq<char>| #[trigger]
                self@.dom().contains(key) <==> exists|i: int|
                    0 <= i < self.list().len() && (#[trigger] self.list()[i]).key@ == key,
            forall|i: int|
                0 <= i < self.list().len() ==> self@[(#[trigger] self.list()[i]).key@]
                    == self.list()[i].value@,
    {
        let entries = self.list();
        let views = entry_views(entries);
        law_last_entry_counts(views);
        assert forall|key: Seq<char>| #[trigger] self@.dom().contains(key) <==> exists|i: int|
            0 <= i < entries.len() && (#[trigger] entries[i]).key@ == key by {
            if exists|i: int| 0 <= i < views.len() && (#[trigger] views[i]).0 == key {
                let i = choose|i: int| 0 <= i < views.len() && (#[trigger] views[i]).0 == key;
                assert(entries[i].key@ == key);
            }
            if exists|i: int| 0 <= i < entries.len() && (#[trigger] entries[i]).key@ == key {
                let i = choose|i: int|
                    0 <= i < entries.len() && (#[trigger] entries[i]).key@ == key;
                assert(views[i].0 == key);
            }
        }
        assert forall|i: int| 0 <= i < entries.len() implies self@[(#[trigger] entries[i]).key@]
            == entries[i].value@ by {
            assert(views[i] == entries[i]@);
            assert forall|j: int| i < j < views.len() implies (#[trigger] views[j]).0
                != views[i].0 by {
                assert(views[j] == entries[j]@);
                order::lemma_name_lt_irreflexive(entries[i].key@);
            }
        }
    }

    /// The map of a list of entries. Of several entries with one key the last
    /// one counts.
    pub fn from_entries(entries: Vec<MetadataEntry>) -> (map: Self)
        ensures
            map.wf(),
            map@ == map_of(entry_views(entries@)),
    {
        let places = sort::sorted_places(&entries);
        // The last place of each key.
        let mut kept: Vec<usize> = Vec::with_capacity(places.len());
        let mut k: usize = 0;
        let ghost mut sources: Seq<int> = Seq::empty();
        while k < places.len()
            invariant
                k <= places@.len(),
                sort::in_order(entries@, places@),
                kept@.len() == sources.len(),
                forall|i: int|
                    0 <= i < kept@.len() ==> 0 <= #[trigger] sources[i] < k && kept@[i]
                        == places@[sources[i]] && last_of_key(entries@, places@, sources[i]),
                forall|i: int, j: int|
                    0 <= i < j < kept@.len() ==> #[trigger] sources[i] < #[trigger] sources[j],
                forall|l: int|
                    0 <= l < k && last_of_key(entries@, places@, l) ==> kept@.contains(
                        #[trigger] places@[l],
                    ),
            decreases places@.len() - k,
        {
            let place: usize = places[k];
            let last: bool = if k + 1 == places.len() {
                true
            } else {
                let next: usize = places[k + 1];
                entries[place].key != entries[next].key
            };
            assert(last == last_of_key(entries@, places@, k as int));
            let ghost before = kept@;
            if last {
                kept.push(place);
                proof {
                    sources = sources.push(k as int);
                    assert(kept@[before.len() as int] == place);
                    assert forall|p: usize| before.contains(p) implies kept@.contains(p) by {
                        let i = choose|i: int| 0 <= i < before.len() && before[i] == p;
                        assert(kept@[i] == p);
                    }
                }
            }
            k = k + 1;
        }
        let ghost all = entries@;
        let count: usize = entries.len();
        proof {
            assert(all.len() == count);
            sort::lemma_in_order_differ(all, places@);
            assert forall|i: int| 0 <= i < kept@.len() implies #[trigger] kept@[i] < all.len() by {
                assert(kept@[i] == places@[sources[i]]);
            }
            assert forall|i: int, j: int|
                0 <= i < kept@.len() && 0 <= j < kept@.len() && i != j implies kept@[i]
                != kept@[j] by {
                assert(sources[i] != sources[j]);
            }
        }
        let map = MetadataMap { entries: sort::picked(entries, &kept) };
        proof {
            lemma_last_kept(all, places@, kept@, sources, map);
        }
        map
    }

    /// The value of `key`, if it has one.
    pub fn get(&self, key: &str) -> (result: Option<&GgufMetadataValue>)
        requires
            self.wf(),
        ensures
            match result {
                Some(value) => self@.dom().contains(key@) && value@ == self@[key@],
                None => !self@.dom().contains(key@),
            },
    {
        proof {
            self.lemma_entries();
        }
        match order::search(&self.entries, key) {
            Some(i) => {
                let entry = &self.entries[i];
                assert(self.list()[i as int].key@ == key@);
                Some(&entry.value)
            },
            None => {
                assert forall|i: int| 0 <= i < self.list().len() implies (
                #[trigger] self.list()[i]).key@ != key@ by {
                    assert(self.list()[i].name_view() != key@);
                }
                None
            },
        }
    }

    /// The entries, in the order of their keys.
    pub fn entries(&self) -> (entries: &Vec<MetadataEntry>)
        requires
            self.wf(),
        ensures
            entries@ == self.list(),
            order::names_increase(entries@),
            map_of(entry_views(entries@)) == self@,
    {
        &self.entries
    }
}

impl Clone for MetadataMap {
    fn clone(&self) -> (copy: Self)
        ensures
            copy@ == self@,
            self.wf() ==> copy.wf(),
            entry_views(copy.list()) == entry_views(self.list()),
    {
        let mut copies: Vec<MetadataEntry> = Vec::with_capacity(self.entries.len());
        let mut i: usize = 0;
        while i < self.entries.len()
            invariant
                i <= self.entries@.len(),
                copies@.len() == i,
                forall|j: int| 0 <= j < i ==> (#[trigger] copies@[j])@ == self.entries@[j]@,
            decreases self.entries@.len() - i,
        {
            copies.push(self.entries[i].clone());
            i = i + 1;
        }
        let copy = MetadataMap { entries: copies };
        proof {
            assert(entry_views(copy.list()) =~= entry_views(self.list()));
            if self.wf() {
                assert forall|a: int, b: int| 0 <= a < b < copy.list().len() implies order::name_lt(
                    (#[trigger] copy.list()[a]).name_view(),
                    (#[trigger] copy.list()[b]).name_view(),
                ) by {
                    assert(copy.list()[a]@ == self.list()[a]@);
                    assert(copy.list()[b]@ == self.list()[b]@);
                    assert(order::name_lt(self.list()[a].name_view(), self.list()[b].name_view()));
                }
            }
        }
        copy
    }
}

/// No entry behind place `places[k]` in the order of `places` has its key.
spec fn last_of_key(entries: Seq<MetadataEntry>, places: Seq<usize>, k: int) -> bool {
    k + 1 == places.len() || entries[places[k] as int].key@ != entries[places[k + 1] as int].key@
}

/// The last entry of each key, in the order of keys, gives the map of all
/// entries.
proof fn lemma_last_kept(
    all: Seq<MetadataEntry>,
    places: Seq<usize>,
    kept: Seq<usize>,
    sources: Seq<int>,
    map: MetadataMap,
)
    requires
        all.len() <= usize::MAX,
        sort::in_order(all, places),
        sort::covers(places, 0, all.len() as int),
        kept.len() == sources.len(),
        forall|i: int|
            0 <= i < kept.len() ==> 0 <= #[trigger] sources[i] < places.len() && kept[i]
                == places[sources[i]] && last_of_key(all, places, sources[i]),
        forall|i: int, j: int|
            0 <= i < j < kept.len() ==> #[trigger] sources[i] < #[trigger] sources[j],
        forall|l: int|
            0 <= l < places.len() && last_of_key(all, places, l) ==> kept.contains(
                #[trigger] places[l],
            ),
        map.list().len() == kept.len(),
        forall|i: int|
            0 <= i < kept.len() ==> #[trigger] map.list()[i] == all[kept[i] as int],
    ensures
        map.wf(),
        map@ == map_of(entry_views(all)),
{
    let list = map.list();
    let views = entry_views(all);
    assert forall|i: int, j: int| 0 <= i < j < list.len() implies order::name_lt(
        (#[trigger] list[i]).name_view(),
        (#[trigger] list[j]).name_view(),
    ) by {
        let (a, b) = (sources[i], sources[j]);
        assert(sort::ahead(all, places[a] as int, places[a + 1] as int));
        if a + 1 < b {
            assert(sort::ahead(all, places[a + 1] as int, places[b] as int));
            let (x, y, z) = (
                all[places[a] as int].key@,
                all[places[a + 1] as int].key@,
                all[places[b] as int].key@,
            );
            if order::name_lt(y, z) {
                order::lemma_name_lt_transitive(x, y, z);
            }
        }
    }
    map.lemma_entries();
    law_last_entry_counts(views);
    assert forall|key: Seq<char>|
        #![trigger map@.dom().contains(key)]
        #![trigger map_of(views).dom().contains(key)]
        map@.dom().contains(key) == map_of(views).dom().contains(key) && (map@.dom().contains(key)
            ==> map@[key] == map_of(views)[key]) by {
        if map@.dom().contains(key) {
            let i = choose|i: int| 0 <= i < list.len() && (#[trigger] list[i]).key@ == key;
            assert(sources[i] < places.len());
            let p = places[sources[i]] as int;
            assert(views[p].0 == key);
            assert(map_of(views).dom().contains(key));
        }
        if map_of(views).dom().contains(key) {
            let p = lemma_last_place(all, places, key);
            assert(kept.contains(p));
            let i = choose|i: int| 0 <= i < kept.len() && kept[i] == p;
            assert(list[i] == all[p as int]);
            assert(list[i].key@ == key);
            assert(map@[list[i].key@] == list[i].value@);
            assert(views[p as int] == all[p as int]@);
        }
    }
    assert(map@.dom() =~= map_of(views).dom());
    assert(map@ =~= map_of(views));
}

/// The last entry with the key of entry `some`.
proof fn lemma_last_index(views: Seq<(Seq<char>, ValueView)>, key: Seq<char>, some: int) -> (q: int)
    requires
        0 <= some < views.len(),
        views[some].0 == key,
    ensures
        some <= q < views.len(),
        views[q].0 == key,
        forall|j: int| q < j < views.len() ==> (#[trigger] views[j]).0 != key,
    decreases views.len() - some,
{
    if exists|j: int| some < j < views.len() && (#[trigger] views[j]).0 == key {
        let j = choose|j: int| some < j < views.len() && (#[trigger] views[j]).0 == key;
        lemma_last_index(views, key, j)
    } else {
        some
    }
}

/// The last of several entries with one key is the last of them in order too.
proof fn lemma_last_place(all: Seq<MetadataEntry>, places: Seq<usize>, key: Seq<char>) -> (p: usize)
    requires
        all.len() <= usize::MAX,
        sort::in_order(all, places),
        sort::covers(places, 0, all.len() as int),
        map_of(entry_views(all)).dom().contains(key),
    ensures
        p < all.len(),
        all[p as int].key@ == key,
        map_of(entry_views(all))[key] == all[p as int].value@,
        exists|k: int| 0 <= k < places.len() && #[trigger] places[k] == p && last_of_key(all, places, k),
{
    let views = entry_views(all);
    law_last_entry_counts(views);
    let some = choose|i: int| 0 <= i < views.len() && (#[trigger] views[i]).0 == key;
    let q = lemma_last_index(views, key, some);
    assert(all[q].key@ == key) by {
        assert(views[q] == all[q]@);
    }
    let p = q as usize;
    assert(places.contains(p));
    let k = choose|k: int| 0 <= k < places.len() && places[k] == p;
    if !last_of_key(all, places, k) {
        let r = places[k + 1] as int;
        assert(sort::ahead(all, p as int, r));
        assert(views[r] == all[r]@);
        order::lemma_name_lt_irreflexive(key);
    }
    p
}

/// The content of a list of entries is the key and the content of the value of
/// each, in order.
pub proof fn law_entry_contents(entries: Seq<MetadataEntry>)
    ensures
        entry_views(entries).len() == entries.len(),
        forall|i: int|
            0 <= i < entries.len() ==> (#[trigger] entry_views(entries)[i]).0 == entries[i].key@
                && entry_views(entries)[i].1 == entries[i].value@,
{
}

} // verus!
