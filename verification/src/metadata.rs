//! The key-value section of a file.

use crate::cursor;
use crate::cursor::Cursor;
use crate::error::{ErrorView, GgufError};
use vstd::prelude::*;

verus! {

/// How many arrays may enclose one another in a metadata value.
pub const MAX_ARRAY_NESTING_DEPTH: u32 = 8;

/// A metadata value. Floating-point numbers are held as the bits that encode
/// them; `==` compares them as numbers.
#[derive(Debug)]
pub enum GgufMetadataValue {
    UInt8(u8),
    Int8(i8),
    UInt16(u16),
    Int16(i16),
    UInt32(u32),
    Int32(i32),
    Float32(u32),
    Bool(bool),
    String(String),
    UInt64(u64),
    Int64(i64),
    Float64(u64),
    Array(Vec<GgufMetadataValue>),
}

/// The mathematical content of a [`GgufMetadataValue`].
pub enum ValueView {
    UInt8(int),
    Int8(int),
    UInt16(int),
    Int16(int),
    UInt32(int),
    Int32(int),
    Float32(int),
    Bool(bool),
    String(Seq<char>),
    UInt64(int),
    Int64(int),
    Float64(int),
    Array(Seq<ValueView>),
}

impl View for GgufMetadataValue {
    type V = ValueView;

    open spec fn view(&self) -> ValueView {
        value_view(*self)
    }
}

/// The mathematical content of `value`.
pub open spec fn value_view(value: GgufMetadataValue) -> ValueView
    decreases value,
{
    match value {
        GgufMetadataValue::UInt8(n) => ValueView::UInt8(n as int),
        GgufMetadataValue::Int8(n) => ValueView::Int8(n as int),
        GgufMetadataValue::UInt16(n) => ValueView::UInt16(n as int),
        GgufMetadataValue::Int16(n) => ValueView::Int16(n as int),
        GgufMetadataValue::UInt32(n) => ValueView::UInt32(n as int),
        GgufMetadataValue::Int32(n) => ValueView::Int32(n as int),
        GgufMetadataValue::Float32(bits) => ValueView::Float32(bits as int),
        GgufMetadataValue::Bool(b) => ValueView::Bool(b),
        GgufMetadataValue::String(s) => ValueView::String(s@),
        GgufMetadataValue::UInt64(n) => ValueView::UInt64(n as int),
        GgufMetadataValue::Int64(n) => ValueView::Int64(n as int),
        GgufMetadataValue::Float64(bits) => ValueView::Float64(bits as int),
        GgufMetadataValue::Array(values) => ValueView::Array(
            Seq::new(
                values@.len(),
                |i: int|
                    if 0 <= i < values@.len() {
                        value_view(values@[i])
                    } else {
                        arbitrary()
                    },
            ),
        ),
    }
}

/// The contents of a sequence of values.
pub open spec fn value_views(values: Seq<GgufMetadataValue>) -> Seq<ValueView> {
    values.map_values(|value: GgufMetadataValue| value@)
}

/// The content of an array is that of its elements.
proof fn lemma_array_view(values: Vec<GgufMetadataValue>)
    ensures
        GgufMetadataValue::Array(values)@ == ValueView::Array(value_views(values@)),
{
    reveal_with_fuel(value_view, 2);
    assert(GgufMetadataValue::Array(values)@->Array_0 =~= value_views(values@));
}

impl Clone for GgufMetadataValue {
    fn clone(&self) -> (copy: Self)
        ensures
            copy@ == self@,
        decreases self,
    {
        match self {
            GgufMetadataValue::UInt8(n) => GgufMetadataValue::UInt8(*n),
            GgufMetadataValue::Int8(n) => GgufMetadataValue::Int8(*n),
            GgufMetadataValue::UInt16(n) => GgufMetadataValue::UInt16(*n),
            GgufMetadataValue::Int16(n) => GgufMetadataValue::Int16(*n),
            GgufMetadataValue::UInt32(n) => GgufMetadataValue::UInt32(*n),
            GgufMetadataValue::Int32(n) => GgufMetadataValue::Int32(*n),
            GgufMetadataValue::Float32(bits) => GgufMetadataValue::Float32(*bits),
            GgufMetadataValue::Bool(b) => GgufMetadataValue::Bool(*b),
            GgufMetadataValue::String(s) => GgufMetadataValue::String(s.clone()),
            GgufMetadataValue::UInt64(n) => GgufMetadataValue::UInt64(*n),
            GgufMetadataValue::Int64(n) => GgufMetadataValue::Int64(*n),
            GgufMetadataValue::Float64(bits) => GgufMetadataValue::Float64(*bits),
            GgufMetadataValue::Array(values) => {
                let mut copies: Vec<GgufMetadataValue> = Vec::with_capacity(values.len());
                let mut i: usize = 0;
                while i < values.len()
                    invariant
                        *self == GgufMetadataValue::Array(*values),
                        i <= values@.len(),
                        copies@.len() == i,
                        forall|j: int| 0 <= j < i ==> (#[trigger] copies@[j])@ == values@[j]@,
                    decreases values@.len() - i,
                {
                    assert(decreases_to!(*self => self->Array_0));
                    assert(decreases_to!(*values => values@));
                    assert(decreases_to!(values@ => values@[i as int]));
                    copies.push(values[i].clone());
                    i = i + 1;
                }
                proof {
                    lemma_array_view(copies);
                    lemma_array_view(*values);
                    assert(value_views(copies@) == value_views(values@));
                }
                GgufMetadataValue::Array(copies)
            },
        }
    }
}

/// The floating-point numbers with the bits `a` and `b` are equal: neither is
/// a NaN, and they have the same bits or are both zero. `sign` is the bit of the
/// sign, and `infinity` the bits of infinity.
pub open spec fn floats_equal(a: int, b: int, sign: int, infinity: int) -> bool {
    &&& a % sign <= infinity
    &&& b % sign <= infinity
    &&& a == b || a % sign == 0 && b % sign == 0
}

/// The values `a` and `b` are equal: they have one type, and are equal as
/// numbers, truth values, strings or arrays.
pub open spec fn values_equal(a: ValueView, b: ValueView) -> bool
    decreases a,
{
    match (a, b) {
        (ValueView::Float32(x), ValueView::Float32(y)) => floats_equal(
            x,
            y,
            0x8000_0000,
            0x7f80_0000,
        ),
        (ValueView::Float64(x), ValueView::Float64(y)) => floats_equal(
            x,
            y,
            0x8000_0000_0000_0000,
            0x7ff0_0000_0000_0000,
        ),
        (ValueView::Array(x), ValueView::Array(y)) => {
            &&& x.len() == y.len()
            &&& forall|i: int| 0 <= i < x.len() ==> values_equal(#[trigger] x[i], y[i])
        },
        _ => a == b,
    }
}

/// Equality does not depend on which value comes first.
pub proof fn law_equality_symmetric(a: ValueView, b: ValueView)
    ensures
        values_equal(a, b) == values_equal(b, a),
    decreases a,
{
    if let (ValueView::Array(x), ValueView::Array(y)) = (a, b) {
        if x.len() == y.len() {
            assert forall|i: int| 0 <= i < x.len() implies values_equal(#[trigger] x[i], y[i])
                == values_equal(y[i], x[i]) by {
                law_equality_symmetric(x[i], y[i]);
            }
            if values_equal(a, b) {
                assert forall|i: int| 0 <= i < y.len() implies values_equal(
                    #[trigger] y[i],
                    x[i],
                ) by {
                    assert(values_equal(x[i], y[i]));
                }
            }
            if values_equal(b, a) {
                assert forall|i: int| 0 <= i < x.len() implies values_equal(
                    #[trigger] x[i],
                    y[i],
                ) by {
                    assert(values_equal(y[i], x[i]));
                }
            }
        }
    }
}

/// Tells whether the values `a` and `b` are equal.
fn equal(a: &GgufMetadataValue, b: &GgufMetadataValue) -> (result: bool)
    ensures
        result == values_equal(a@, b@),
    decreases a,
{
    match (a, b) {
        (GgufMetadataValue::UInt8(x), GgufMetadataValue::UInt8(y)) => *x == *y,
        (GgufMetadataValue::Int8(x), GgufMetadataValue::Int8(y)) => *x == *y,
        (GgufMetadataValue::UInt16(x), GgufMetadataValue::UInt16(y)) => *x == *y,
        (GgufMetadataValue::Int16(x), GgufMetadataValue::Int16(y)) => *x == *y,
        (GgufMetadataValue::UInt32(x), GgufMetadataValue::UInt32(y)) => *x == *y,
        (GgufMetadataValue::Int32(x), GgufMetadataValue::Int32(y)) => *x == *y,
        (GgufMetadataValue::Float32(x), GgufMetadataValue::Float32(y)) => {
            let (m, n): (u32, u32) = (*x % 0x8000_0000, *y % 0x8000_0000);
            m <= 0x7f80_0000 && n <= 0x7f80_0000 && (*x == *y || m == 0 && n == 0)
        },
        (GgufMetadataValue::Bool(x), GgufMetadataValue::Bool(y)) => *x == *y,
        (GgufMetadataValue::String(x), GgufMetadataValue::String(y)) => *x == *y,
        (GgufMetadataValue::UInt64(x), GgufMetadataValue::UInt64(y)) => *x == *y,
        (GgufMetadataValue::Int64(x), GgufMetadataValue::Int64(y)) => *x == *y,
        (GgufMetadataValue::Float64(x), GgufMetadataValue::Float64(y)) => {
            let (m, n): (u64, u64) = (*x % 0x8000_0000_0000_0000, *y % 0x8000_0000_0000_0000);
            m <= 0x7ff0_0000_0000_0000 && n <= 0x7ff0_0000_0000_0000 && (*x == *y || m == 0 && n
                == 0)
        },
        (GgufMetadataValue::Array(x), GgufMetadataValue::Array(y)) => {
            proof {
                lemma_array_view(*x);
                lemma_array_view(*y);
            }
            if x.len() != y.len() {
                return false;
            }
            let ghost (xs, ys) = (value_views(x@), value_views(y@));
            let mut i: usize = 0;
            while i < x.len()
                invariant
                    *a == GgufMetadataValue::Array(*x),
                    x@.len() == y@.len(),
                    i <= x@.len(),
                    xs == value_views(x@),
                    ys == value_views(y@),
                    a@ == ValueView::Array(xs),
                    b@ == ValueView::Array(ys),
                    forall|j: int| 0 <= j < i ==> values_equal(#[trigger] xs[j], ys[j]),
                decreases x@.len() - i,
            {
                assert(decreases_to!(*a => a->Array_0));
                assert(decreases_to!(*x => x@));
                assert(decreases_to!(x@ => x@[i as int]));
                assert(xs[i as int] == x@[i as int]@ && ys[i as int] == y@[i as int]@);
                if !equal(&x[i], &y[i]) {
                    assert(!values_equal(xs[i as int], ys[i as int]));
                    return false;
                }
                i = i + 1;
            }
            true
        },
        _ => false,
    }
}

impl PartialEq for GgufMetadataValue {
    fn eq(&self, other: &Self) -> (result: bool)
        ensures
            result == values_equal(self@, other@),
    {
        equal(self, other)
    }
}

impl vstd::std_specs::cmp::PartialEqSpecImpl for GgufMetadataValue {
    open spec fn obeys_eq_spec() -> bool {
        true
    }

    open spec fn eq_spec(&self, other: &Self) -> bool {
        values_equal(self@, other@)
    }
}

/// The number `n`, read from a file, made a value by `wrap`.
pub open spec fn wrapped(n: cursor::Parsed<int>, wrap: spec_fn(int) -> ValueView) -> cursor::Parsed<
    ValueView,
> {
    match n {
        Ok((n, next)) => Ok((wrap(n), next)),
        Err(e) => Err(e),
    }
}

/// The value of type `value_type` at `pos`, inside `depth` arrays.
pub open spec fn value_at(file: Seq<u8>, pos: int, value_type: int, depth: nat) -> cursor::Parsed<
    ValueView,
>
    decreases MAX_ARRAY_NESTING_DEPTH + 1 - depth, 0int,
{
    if value_type == 0 {
        wrapped(cursor::uint_at(file, pos, 1), |n: int| ValueView::UInt8(n))
    } else if value_type == 1 {
        wrapped(cursor::sint_at(file, pos, 1), |n: int| ValueView::Int8(n))
    } else if value_type == 2 {
        wrapped(cursor::uint_at(file, pos, 2), |n: int| ValueView::UInt16(n))
    } else if value_type == 3 {
        wrapped(cursor::sint_at(file, pos, 2), |n: int| ValueView::Int16(n))
    } else if value_type == 4 {
        wrapped(cursor::uint_at(file, pos, 4), |n: int| ValueView::UInt32(n))
    } else if value_type == 5 {
        wrapped(cursor::sint_at(file, pos, 4), |n: int| ValueView::Int32(n))
    } else if value_type == 6 {
        wrapped(cursor::uint_at(file, pos, 4), |n: int| ValueView::Float32(n))
    } else if value_type == 7 {
        wrapped(cursor::uint_at(file, pos, 1), |n: int| ValueView::Bool(n != 0))
    } else if value_type == 8 {
        match cursor::string_at(file, pos) {
            Ok((s, next)) => Ok((ValueView::String(s), next)),
            Err(e) => Err(e),
        }
    } else if value_type == 9 {
        if depth >= MAX_ARRAY_NESTING_DEPTH {
            Err(ErrorView::ArrayNestingTooDeep)
        } else {
            match cursor::uint_at(file, pos, 4) {
                Ok((element_type, next)) => match cursor::uint_at(file, next, 8) {
                    Ok((length, start)) => match cursor::repeat_at(
                        value_reader(file, element_type, depth + 1),
                        start,
                        length as nat,
                    ) {
                        Ok((values, end)) => Ok((ValueView::Array(values), end)),
                        Err(e) => Err(e),
                    },
                    Err(e) => Err(e),
                },
                Err(e) => Err(e),
            }
        }
    } else if value_type == 10 {
        wrapped(cursor::uint_at(file, pos, 8), |n: int| ValueView::UInt64(n))
    } else if value_type == 11 {
        wrapped(cursor::sint_at(file, pos, 8), |n: int| ValueView::Int64(n))
    } else if value_type == 12 {
        wrapped(cursor::uint_at(file, pos, 8), |n: int| ValueView::Float64(n))
    } else {
        Err(ErrorView::UnknownMetadataValueType { found: value_type })
    }
}

/// What a value of type `value_type` inside `depth` arrays is, at each
/// position.
pub open spec fn value_reader(file: Seq<u8>, value_type: int, depth: nat) -> spec_fn(
    int,
) -> cursor::Parsed<ValueView>
    decreases MAX_ARRAY_NESTING_DEPTH + 1 - depth, 1int,
{
    |pos: int| value_at(file, pos, value_type, depth)
}

/// How far a value that cannot be read is read.
pub open spec fn value_stop(file: Seq<u8>, pos: int, value_type: int, depth: nat) -> int
    decreases MAX_ARRAY_NESTING_DEPTH + 1 - depth, 0int,
{
    if value_type == 8 {
        cursor::string_stop(file, pos)
    } else if value_type == 9 && depth < MAX_ARRAY_NESTING_DEPTH {
        match cursor::uint_at(file, pos, 4) {
            Ok((element_type, next)) => match cursor::uint_at(file, next, 8) {
                Ok((length, start)) => cursor::repeat_stop(
                    value_reader(file, element_type, depth + 1),
                    value_stopper(file, element_type, depth + 1),
                    start,
                    length as nat,
                ),
                Err(_) => next,
            },
            Err(_) => pos,
        }
    } else {
        pos
    }
}

/// How far a value of type `value_type` inside `depth` arrays that cannot be
/// read is read, at each position.
pub open spec fn value_stopper(file: Seq<u8>, value_type: int, depth: nat) -> spec_fn(int) -> int
    decreases MAX_ARRAY_NESTING_DEPTH + 1 - depth, 1int,
{
    |pos: int| value_stop(file, pos, value_type, depth)
}

/// Reads the elements of an array: `length` values of type `element_type`,
/// each inside `depth` arrays.
fn read_elements(cursor: &mut Cursor<'_>, element_type: u32, length: u64, depth: u32) -> (result:
    Result<Vec<GgufMetadataValue>, GgufError>)
    requires
        old(cursor).wf(),
        depth <= MAX_ARRAY_NESTING_DEPTH,
    ensures
        final(cursor).continues(*old(cursor)),
        match cursor::repeat_at(
            value_reader(old(cursor).file(), element_type as int, depth as nat),
            old(cursor).pos(),
            length as nat,
        ) {
            Ok((expected, next)) => {
                &&& result matches Ok(values) && value_views(values@) == expected
                &&& final(cursor).pos() == next
            },
            Err(e) => {
                &&& result matches Err(error) && error@ == e
                &&& final(cursor).pos() == cursor::repeat_stop(
                    value_reader(old(cursor).file(), element_type as int, depth as nat),
                    value_stopper(old(cursor).file(), element_type as int, depth as nat),
                    old(cursor).pos(),
                    length as nat,
                )
            },
        },
    decreases MAX_ARRAY_NESTING_DEPTH + 1 - depth, 1int,
{
    let ghost item = value_reader(cursor.file(), element_type as int, depth as nat);
    let ghost stop = value_stopper(cursor.file(), element_type as int, depth as nat);
    let ghost whole = cursor::repeat_at(item, cursor.pos(), length as nat);
    let ghost file = cursor.file();
    // The declared length is not trusted with more than a small allocation.
    let capacity: usize = if length < 64 {
        length as usize
    } else {
        64
    };
    let mut values: Vec<GgufMetadataValue> = Vec::with_capacity(capacity);
    let mut left: u64 = length;
    assert(value_views(values@) == Seq::<ValueView>::empty());
    while left > 0
        invariant
            cursor.wf(),
            cursor.continues(*old(cursor)),
            depth <= MAX_ARRAY_NESTING_DEPTH,
            cursor.file() == file,
            whole == cursor::repeat_at(item, old(cursor).pos(), length as nat),
            item == value_reader(file, element_type as int, depth as nat),
            stop == value_stopper(file, element_type as int, depth as nat),
            cursor::repeat_stop(item, stop, cursor.pos(), left as nat) == cursor::repeat_stop(
                item,
                stop,
                old(cursor).pos(),
                length as nat,
            ),
            match cursor::repeat_at(item, cursor.pos(), left as nat) {
                Ok((others, end)) => whole == Ok::<(Seq<ValueView>, int), ErrorView>(
                    (value_views(values@) + others, end),
                ),
                Err(e) => whole == Err::<(Seq<ValueView>, int), ErrorView>(e),
            },
        decreases left,
    {
        let ghost before = value_views(values@);
        assert(item(cursor.pos()) == value_at(file, cursor.pos(), element_type as int, depth as nat));
        assert(stop(cursor.pos()) == value_stop(
            file,
            cursor.pos(),
            element_type as int,
            depth as nat,
        ));
        let value = read_metadata_value(cursor, element_type, depth)?;
        values.push(value);
        left = left - 1;
        proof {
            assert(value_views(values@) == before.push(value@));
            assert(forall|others: Seq<ValueView>|
                before + (seq![value@] + others) == before.push(value@) + others);
        }
    }
    Ok(values)
}

/// Reads a value of type `value_type` that stands inside `depth` arrays.
pub fn read_metadata_value(cursor: &mut Cursor<'_>, value_type: u32, depth: u32) -> (result: Result<
    GgufMetadataValue,
    GgufError,
>)
    requires
        old(cursor).wf(),
    ensures
        final(cursor).continues(*old(cursor)),
        match value_at(old(cursor).file(), old(cursor).pos(), value_type as int, depth as nat) {
            Ok((expected, next)) => {
                &&& result matches Ok(value) && value@ == expected
                &&& final(cursor).pos() == next
            },
            Err(e) => {
                &&& result matches Err(error) && error@ == e
                &&& final(cursor).pos() == value_stop(
                    old(cursor).file(),
                    old(cursor).pos(),
                    value_type as int,
                    depth as nat,
                )
            },
        },
    decreases MAX_ARRAY_NESTING_DEPTH + 1 - depth, 0int,
{
    match value_type {
        0 => Ok(GgufMetadataValue::UInt8(cursor.read_u8()?)),
        1 => Ok(GgufMetadataValue::Int8(cursor.read_i8()?)),
        2 => Ok(GgufMetadataValue::UInt16(cursor.read_u16_le()?)),
        3 => Ok(GgufMetadataValue::Int16(cursor.read_i16_le()?)),
        4 => Ok(GgufMetadataValue::UInt32(cursor.read_u32_le()?)),
        5 => Ok(GgufMetadataValue::Int32(cursor.read_i32_le()?)),
        6 => Ok(GgufMetadataValue::Float32(cursor.read_f32_le()?)),
        7 => Ok(GgufMetadataValue::Bool(cursor.read_u8()? != 0)),
        8 => Ok(GgufMetadataValue::String(cursor.read_string()?)),
        9 => {
            if depth >= MAX_ARRAY_NESTING_DEPTH {
                return Err(GgufError::ArrayNestingTooDeep);
            }
            let element_type: u32 = cursor.read_u32_le()?;
            let length: u64 = cursor.read_u64_le()?;
            let values = read_elements(cursor, element_type, length, depth + 1)?;
            proof {
                lemma_array_view(values);
            }
            Ok(GgufMetadataValue::Array(values))
        },
        10 => Ok(GgufMetadataValue::UInt64(cursor.read_u64_le()?)),
        11 => Ok(GgufMetadataValue::Int64(cursor.read_i64_le()?)),
        12 => Ok(GgufMetadataValue::Float64(cursor.read_f64_le()?)),
        other => Err(GgufError::UnknownMetadataValueType { found: other }),
    }
}

/// What a value of each type is: a number of so many bytes, with or without a
/// sign, a truth value, of which any byte but zero is true, or a string. There
/// are thirteen types. What cannot be read of a number is not read at all.
pub proof fn law_value_read(file: Seq<u8>, pos: int, value_type: int, depth: nat)
    requires
        0 <= pos <= file.len(),
    ensures
        ({
            let read = value_at(file, pos, value_type, depth);
            let stop = value_stop(file, pos, value_type, depth);
            &&& value_type == 0 ==> stop == pos && match cursor::uint_at(file, pos, 1) {
                Ok((n, next)) => read == Ok::<(ValueView, int), ErrorView>(
                    (ValueView::UInt8(n), next),
                ),
                Err(e) => read == Err::<(ValueView, int), ErrorView>(e),
            }
            &&& value_type == 1 ==> stop == pos && match cursor::sint_at(file, pos, 1) {
                Ok((n, next)) => read == Ok::<(ValueView, int), ErrorView>(
                    (ValueView::Int8(n), next),
                ),
                Err(e) => read == Err::<(ValueView, int), ErrorView>(e),
            }
            &&& value_type == 2 ==> stop == pos && match cursor::uint_at(file, pos, 2) {
                Ok((n, next)) => read == Ok::<(ValueView, int), ErrorView>(
                    (ValueView::UInt16(n), next),
                ),
                Err(e) => read == Err::<(ValueView, int), ErrorView>(e),
            }
            &&& value_type == 3 ==> stop == pos && match cursor::sint_at(file, pos, 2) {
                Ok((n, next)) => read == Ok::<(ValueView, int), ErrorView>(
                    (ValueView::Int16(n), next),
                ),
                Err(e) => read == Err::<(ValueView, int), ErrorView>(e),
            }
            &&& value_type == 4 ==> stop == pos && match cursor::uint_at(file, pos, 4) {
                Ok((n, next)) => read == Ok::<(ValueView, int), ErrorView>(
                    (ValueView::UInt32(n), next),
                ),
                Err(e) => read == Err::<(ValueView, int), ErrorView>(e),
            }
            &&& value_type == 5 ==> stop == pos && match cursor::sint_at(file, pos, 4) {
                Ok((n, next)) => read == Ok::<(ValueView, int), ErrorView>(
                    (ValueView::Int32(n), next),
                ),
                Err(e) => read == Err::<(ValueView, int), ErrorView>(e),
            }
            &&& value_type == 6 ==> stop == pos && match cursor::uint_at(file, pos, 4) {
                Ok((n, next)) => read == Ok::<(ValueView, int), ErrorView>(
                    (ValueView::Float32(n), next),
                ),
                Err(e) => read == Err::<(ValueView, int), ErrorView>(e),
            }
            &&& value_type == 10 ==> stop == pos && match cursor::uint_at(file, pos, 8) {
                Ok((n, next)) => read == Ok::<(ValueView, int), ErrorView>(
                    (ValueView::UInt64(n), next),
                ),
                Err(e) => read == Err::<(ValueView, int), ErrorView>(e),
            }
            &&& value_type == 11 ==> stop == pos && match cursor::sint_at(file, pos, 8) {
                Ok((n, next)) => read == Ok::<(ValueView, int), ErrorView>(
                    (ValueView::Int64(n), next),
                ),
                Err(e) => read == Err::<(ValueView, int), ErrorView>(e),
            }
            &&& value_type == 12 ==> stop == pos && match cursor::uint_at(file, pos, 8) {
                Ok((n, next)) => read == Ok::<(ValueView, int), ErrorView>(
                    (ValueView::Float64(n), next),
                ),
                Err(e) => read == Err::<(ValueView, int), ErrorView>(e),
            }
            &&& value_type == 7 ==> stop == pos && (if pos < file.len() {
                read == Ok::<(ValueView, int), ErrorView>(
                    (ValueView::Bool(file[pos] != 0), pos + 1),
                )
            } else {
                read == Err::<(ValueView, int), ErrorView>(
                    ErrorView::UnexpectedEof { at: pos, needed: 1 },
                )
            })
            &&& value_type == 8 ==> stop == cursor::string_stop(file, pos)
                && match cursor::string_at(file, pos) {
                Ok((s, next)) => read == Ok::<(ValueView, int), ErrorView>(
                    (ValueView::String(s), next),
                ),
                Err(e) => read == Err::<(ValueView, int), ErrorView>(e),
            }
            &&& value_type < 0 || value_type > 12 ==> stop == pos && read == Err::<
                (ValueView, int),
                ErrorView,
            >(ErrorView::UnknownMetadataValueType { found: value_type })
            &&& value_type == 9 && depth >= 8 ==> stop == pos && read == Err::<
                (ValueView, int),
                ErrorView,
            >(ErrorView::ArrayNestingTooDeep)
        }),
{
    if pos < file.len() {
        reveal_with_fuel(cursor::le_value, 2);
    }
}

/// What an array inside fewer than eight arrays is: the type of its elements in
/// four bytes, their number in eight, and then the elements one behind the
/// other, each a value of that type inside one array more.
pub proof fn law_array_read(file: Seq<u8>, pos: int, depth: nat)
    requires
        0 <= pos <= file.len(),
        depth < 8,
    ensures
        match cursor::uint_at(file, pos, 4) {
            Ok((t, _)) => match cursor::uint_at(file, pos + 4, 8) {
                Ok((count, _)) => {
                    let element = |p: int| value_at(file, p, t, depth + 1);
                    let stop = |p: int| value_stop(file, p, t, depth + 1);
                    &&& value_stop(file, pos, 9, depth) == cursor::repeat_stop(
                        element,
                        stop,
                        pos + 12,
                        count as nat,
                    )
                    &&& match cursor::repeat_at(element, pos + 12, count as nat) {
                        Ok((values, next)) => value_at(file, pos, 9, depth) == Ok::<
                            (ValueView, int),
                            ErrorView,
                        >((ValueView::Array(values), next)),
                        Err(e) => value_at(file, pos, 9, depth) == Err::<
                            (ValueView, int),
                            ErrorView,
                        >(e),
                    }
                },
                Err(e) => {
                    &&& value_at(file, pos, 9, depth) == Err::<(ValueView, int), ErrorView>(e)
                    &&& value_stop(file, pos, 9, depth) == pos + 4
                },
            },
            Err(e) => {
                &&& value_at(file, pos, 9, depth) == Err::<(ValueView, int), ErrorView>(e)
                &&& value_stop(file, pos, 9, depth) == pos
            },
        },
{
    if let Ok((t, _)) = cursor::uint_at(file, pos, 4) {
        let element = |p: int| value_at(file, p, t, depth + 1);
        let stop = |p: int| value_stop(file, p, t, depth + 1);
        assert(element =~= value_reader(file, t, depth + 1));
        assert(stop =~= value_stopper(file, t, depth + 1));
    }
}

/// The content of a value is the number, truth value or string that it holds,
/// in its type, and that of an array the contents of its elements.
pub proof fn law_value_content(value: GgufMetadataValue)
    ensures
        match value {
            GgufMetadataValue::Array(values) => {
                &&& value@ matches ValueView::Array(views)
                &&& views.len() == values@.len()
                &&& forall|i: int| 0 <= i < views.len() ==> #[trigger] views[i] == values@[i]@
            },
            GgufMetadataValue::Bool(b) => value@ == ValueView::Bool(b),
            GgufMetadataValue::String(s) => value@ == ValueView::String(s@),
            GgufMetadataValue::UInt8(n) => value@ == ValueView::UInt8(n as int),
            GgufMetadataValue::Int8(n) => value@ == ValueView::Int8(n as int),
            GgufMetadataValue::UInt16(n) => value@ == ValueView::UInt16(n as int),
            GgufMetadataValue::Int16(n) => value@ == ValueView::Int16(n as int),
            GgufMetadataValue::UInt32(n) => value@ == ValueView::UInt32(n as int),
            GgufMetadataValue::Int32(n) => value@ == ValueView::Int32(n as int),
            GgufMetadataValue::Float32(n) => value@ == ValueView::Float32(n as int),
            GgufMetadataValue::UInt64(n) => value@ == ValueView::UInt64(n as int),
            GgufMetadataValue::Int64(n) => value@ == ValueView::Int64(n as int),
            GgufMetadataValue::Float64(n) => value@ == ValueView::Float64(n as int),
        },
{
    if let GgufMetadataValue::Array(values) = value {
        lemma_array_view(values);
    }
}

/// Floating-point numbers are equal as numbers: one whose bits are beyond those
/// of infinity, whatever its sign, is not a number and equal to none, the two
/// zeros are equal, and any others are equal just where their bits are.
pub proof fn law_floats_equal(a: u32, b: u32, c: u64, d: u64)
    ensures
        ({
            let (x, y) = (ValueView::Float32(a as int), ValueView::Float32(b as int));
            let (m, n) = (a as int % 0x8000_0000, b as int % 0x8000_0000);
            &&& m > 0x7f80_0000 || n > 0x7f80_0000 ==> !values_equal(x, y)
            &&& m == 0 && n == 0 ==> values_equal(x, y)
            &&& m <= 0x7f80_0000 && n <= 0x7f80_0000 && !(m == 0 && n == 0) ==> (values_equal(x, y)
                <==> a == b)
        }),
        ({
            let (x, y) = (ValueView::Float64(c as int), ValueView::Float64(d as int));
            let (m, n) = (c as int % 0x8000_0000_0000_0000, d as int % 0x8000_0000_0000_0000);
            &&& m > 0x7ff0_0000_0000_0000 || n > 0x7ff0_0000_0000_0000 ==> !values_equal(x, y)
            &&& m == 0 && n == 0 ==> values_equal(x, y)
            &&& m <= 0x7ff0_0000_0000_0000 && n <= 0x7ff0_0000_0000_0000 && !(m == 0 && n == 0) ==> (
            values_equal(x, y) <==> c == d)
        }),
{
}

/// Arrays are equal just where they have as many elements, and these are equal
/// in turn. Values of different types differ, and others but floating-point
/// numbers and arrays are equal just where they are the same.
pub proof fn law_values_equal(a: ValueView, b: ValueView)
    ensures
        match (a, b) {
            (ValueView::Array(x), ValueView::Array(y)) => values_equal(a, b) <==> {
                &&& x.len() == y.len()
                &&& forall|i: int| 0 <= i < x.len() ==> values_equal(#[trigger] x[i], y[i])
            },
            (ValueView::Float32(_), ValueView::Float32(_)) => true,
            (ValueView::Float64(_), ValueView::Float64(_)) => true,
            _ => values_equal(a, b) <==> a == b,
        },
{
}

/// `==` tells whether the contents of two values are equal.
pub proof fn law_equality_operator(a: GgufMetadataValue, b: GgufMetadataValue)
    ensures
        vstd::std_specs::cmp::PartialEqSpec::eq_spec(&a, &b) == values_equal(a@, b@),
{
}

} // verus!
