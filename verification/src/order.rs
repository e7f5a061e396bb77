//! The order of names, and lists that are kept in it.

use vstd::prelude::*;

verus! {

/// `a` comes before `b` in the lexicographic order of byte strings.
pub open spec fn bytes_lt(a: Seq<u8>, b: Seq<u8>) -> bool
    decreases a.len(),
{
    if b.len() == 0 {
        false
    } else if a.len() == 0 {
        true
    } else if a[0] != b[0] {
        a[0] < b[0]
    } else {
        bytes_lt(a.drop_first(), b.drop_first())
    }
}

/// `a` comes before `b` in the order of strings, which is that of their UTF-8
/// encodings.
pub open spec fn name_lt(a: Seq<char>, b: Seq<char>) -> bool {
    bytes_lt(vstd::utf8::encode_utf8(a), vstd::utf8::encode_utf8(b))
}

proof fn lemma_bytes_lt_irreflexive(a: Seq<u8>)
    ensures
        !bytes_lt(a, a),
    decreases a.len(),
{
    if a.len() > 0 {
        lemma_bytes_lt_irreflexive(a.drop_first());
    }
}

proof fn lemma_bytes_lt_transitive(a: Seq<u8>, b: Seq<u8>, c: Seq<u8>)
    requires
        bytes_lt(a, b),
        bytes_lt(b, c),
    ensures
        bytes_lt(a, c),
    decreases a.len(),
{
    if a.len() > 0 && a[0] == b[0] && b[0] == c[0] {
        lemma_bytes_lt_transitive(a.drop_first(), b.drop_first(), c.drop_first());
    }
}

proof fn lemma_bytes_lt_total(a: Seq<u8>, b: Seq<u8>)
    ensures
        a == b || bytes_lt(a, b) || bytes_lt(b, a),
    decreases a.len(),
{
    if a.len() == 0 {
        assert(b.len() == 0 ==> a =~= b);
    } else if b.len() > 0 && a[0] == b[0] {
        lemma_bytes_lt_total(a.drop_first(), b.drop_first());
        if a.drop_first() == b.drop_first() {
            assert(a =~= seq![a[0]] + a.drop_first());
            assert(b =~= seq![b[0]] + b.drop_first());
        }
    }
}

/// No name comes before itself.
pub proof fn lemma_name_lt_irreflexive(a: Seq<char>)
    ensures
        !name_lt(a, a),
{
    lemma_bytes_lt_irreflexive(vstd::utf8::encode_utf8(a));
}

/// What comes before a name comes before whatever that name comes before.
pub proof fn lemma_name_lt_transitive(a: Seq<char>, b: Seq<char>, c: Seq<char>)
    requires
        name_lt(a, b),
        name_lt(b, c),
    ensures
        name_lt(a, c),
{
    lemma_bytes_lt_transitive(
        vstd::utf8::encode_utf8(a),
        vstd::utf8::encode_utf8(b),
        vstd::utf8::encode_utf8(c),
    );
}

/// Of two different names one comes before the other.
pub proof fn lemma_name_lt_total(a: Seq<char>, b: Seq<char>)
    ensures
        a == b || name_lt(a, b) || name_lt(b, a),
{
    lemma_bytes_lt_total(vstd::utf8::encode_utf8(a), vstd::utf8::encode_utf8(b));
    vstd::utf8::encode_utf8_decode_utf8(a);
    vstd::utf8::encode_utf8_decode_utf8(b);
}

/// How one name stands to another.
pub enum Relation {
    Before,
    Same,
    After,
}

/// Tells which of the names `a` and `b` comes first.
pub fn relate(a: &str, b: &str) -> (relation: Relation)
    ensures
        match relation {
            Relation::Before => name_lt(a@, b@),
            Relation::Same => a@ == b@,
            Relation::After => name_lt(b@, a@),
        },
{
    let x = a.as_bytes();
    let y = b.as_bytes();
    let mut i: usize = 0;
    proof {
        assert(x@.skip(0) == x@);
        assert(y@.skip(0) == y@);
    }
    while i < x.len() && i < y.len() && x[i] == y[i]
        invariant
            i <= x@.len(),
            i <= y@.len(),
            x@.take(i as int) == y@.take(i as int),
            bytes_lt(x@, y@) == bytes_lt(x@.skip(i as int), y@.skip(i as int)),
            bytes_lt(y@, x@) == bytes_lt(y@.skip(i as int), x@.skip(i as int)),
        decreases x@.len() - i,
    {
        proof {
            assert(x@.skip(i as int).drop_first() == x@.skip(i + 1));
            assert(y@.skip(i as int).drop_first() == y@.skip(i + 1));
            assert(x@.take(i + 1) == x@.take(i as int).push(x@[i as int]));
            assert(y@.take(i + 1) == y@.take(i as int).push(y@[i as int]));
        }
        i = i + 1;
    }
    if i == x.len() {
        if i == y.len() {
            proof {
                assert(x@ == x@.take(i as int));
                assert(y@ == y@.take(i as int));
                vstd::utf8::encode_utf8_decode_utf8(a@);
                vstd::utf8::encode_utf8_decode_utf8(b@);
            }
            Relation::Same
        } else {
            Relation::Before
        }
    } else if i == y.len() {
        Relation::After
    } else if x[i] < y[i] {
        Relation::Before
    } else {
        Relation::After
    }
}

/// Something that has a name.
pub trait Named {
    /// The name.
    spec fn name_view(&self) -> Seq<char>;

    /// The name.
    fn name(&self) -> (name: &str)
        ensures
            name@ == self.name_view(),
    ;
}

/// The names of `items` increase from each item to the next.
pub open spec fn names_increase<T: Named>(items: Seq<T>) -> bool {
    forall|i: int, j: int|
        0 <= i < j < items.len() ==> name_lt(
            (#[trigger] items[i]).name_view(),
            (#[trigger] items[j]).name_view(),
        )
}

/// Finds the item named `name`, if there is one.
pub fn search<T: Named>(items: &Vec<T>, name: &str) -> (result: Option<usize>)
    requires
        names_increase(items@),
    ensures
        match result {
            Some(i) => i < items@.len() && items@[i as int].name_view() == name@,
            None => forall|i: int|
                0 <= i < items@.len() ==> (#[trigger] items@[i]).name_view() != name@,
        },
{
    let mut low: usize = 0;
    let mut high: usize = items.len();
    while low < high
        invariant
            names_increase(items@),
            low <= high <= items@.len(),
            forall|j: int| 0 <= j < low ==> name_lt((#[trigger] items@[j]).name_view(), name@),
            forall|j: int|
                high <= j < items@.len() ==> name_lt(name@, (#[trigger] items@[j]).name_view()),
        decreases high - low,
    {
        let middle: usize = low + (high - low) / 2;
        match relate(items[middle].name(), name) {
            Relation::Same => {
                return Some(middle);
            },
            Relation::Before => {
                proof {
                    assert forall|j: int| 0 <= j < middle + 1 implies name_lt(
                        (#[trigger] items@[j]).name_view(),
                        name@,
                    ) by {
                        if j < middle {
                            lemma_name_lt_transitive(
                                items@[j].name_view(),
                                items@[middle as int].name_view(),
                                name@,
                            );
                        }
                    }
                }
                low = middle + 1;
            },
            Relation::After => {
                proof {
                    assert forall|j: int| middle <= j < items@.len() implies name_lt(
                        name@,
                        (#[trigger] items@[j]).name_view(),
                    ) by {
                        if middle < j {
                            lemma_name_lt_transitive(
                                name@,
                                items@[middle as int].name_view(),
                                items@[j].name_view(),
                            );
                        }
                    }
                }
                high = middle;
            },
        }
    }
    proof {
        lemma_name_lt_irreflexive(name@);
    }
    None
}

/// Names are in the order of their UTF-8 bytes: at the first place where they
/// differ, one ends, or the smaller byte comes first.
pub proof fn law_name_order(a: Seq<char>, b: Seq<char>)
    ensures
        ({
            let (x, y) = (vstd::utf8::encode_utf8(a), vstd::utf8::encode_utf8(b));
            name_lt(a, b) <==> exists|k: int|
                {
                    &&& 0 <= k <= x.len()
                    &&& k < y.len()
                    &&& #[trigger] x.take(k) == y.take(k)
                    &&& k == x.len() || x[k] < y[k]
                }
        }),
{
    let (x, y) = (vstd::utf8::encode_utf8(a), vstd::utf8::encode_utf8(b));
    lemma_bytes_order(x, y);
    if name_lt(a, b) {
        let k = choose|k: int|
            {
                &&& 0 <= k <= x.len()
                &&& k < y.len()
                &&& #[trigger] x.take(k) == y.take(k)
                &&& k == x.len() || x[k] < y[k]
            };
        assert(x.take(k) =~= y.take(k));
    }
}

proof fn lemma_bytes_order(x: Seq<u8>, y: Seq<u8>)
    ensures
        bytes_lt(x, y) <==> exists|k: int|
            {
                &&& 0 <= k <= x.len()
                &&& k < y.len()
                &&& #[trigger] x.take(k) == y.take(k)
                &&& k == x.len() || x[k] < y[k]
            },
    decreases x.len(),
{
    if y.len() > 0 && (x.len() == 0 || x[0] != y[0]) {
        assert(x.take(0) =~= y.take(0));
        if !bytes_lt(x, y) {
            assert forall|k: int| 0 <= k <= x.len() && k < y.len() && #[trigger] x.take(k) == y.take(
                k,
            ) implies !(k == x.len() || x[k] < y[k]) by {
                if k > 0 {
                    assert(x.take(k)[0] == y.take(k)[0]);
                }
            }
        }
    } else if y.len() > 0 {
        let (r, s) = (x.drop_first(), y.drop_first());
        lemma_bytes_order(r, s);
        if bytes_lt(x, y) {
            let k = choose|k: int|
                {
                    &&& 0 <= k <= r.len()
                    &&& k < s.len()
                    &&& #[trigger] r.take(k) == s.take(k)
                    &&& k == r.len() || r[k] < s[k]
                };
            assert(x.take(k + 1) =~= seq![x[0]] + r.take(k));
            assert(y.take(k + 1) =~= seq![y[0]] + s.take(k));
            assert(x.take(k + 1) == y.take(k + 1));
        }
        if exists|k: int|
            {
                &&& 0 <= k <= x.len()
                &&& k < y.len()
                &&& #[trigger] x.take(k) == y.take(k)
                &&& k == x.len() || x[k] < y[k]
            } {
            let k = choose|k: int|
                {
                    &&& 0 <= k <= x.len()
                    &&& k < y.len()
                    &&& #[trigger] x.take(k) == y.take(k)
                    &&& k == x.len() || x[k] < y[k]
                };
            assert(k > 0);
            assert(r.take(k - 1) =~= x.take(k).drop_first());
            assert(s.take(k - 1) =~= y.take(k).drop_first());
            assert(r.take(k - 1) == s.take(k - 1));
        }
    }
}

} // verus!
