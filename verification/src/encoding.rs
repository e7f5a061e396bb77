//! How values are written, and that what is written is read back.

use crate::artifact;
use crate::cursor;
use crate::entries;
use crate::error::ErrorView;
use crate::metadata;
use crate::metadata::ValueView;
use crate::tensor;
use crate::tensor::InfoView;
use vstd::prelude::*;

verus! {

/// `bytes` stand in `file` from `pos` on.
pub open spec fn stands_at(file: Seq<u8>, pos: int, bytes: Seq<u8>) -> bool {
    &&& 0 <= pos
    &&& pos + bytes.len() <= file.len()
    &&& file.subrange(pos, pos + bytes.len()) == bytes
}

/// `n` in `width` bytes, the lowest first.
pub open spec fn le_bytes(n: nat, width: nat) -> Seq<u8>
    decreases width,
{
    if width == 0 {
        Seq::empty()
    } else {
        seq![(n % 256) as u8] + le_bytes(n / 256, (width - 1) as nat)
    }
}

/// The unsigned number with the same `width` bytes as the signed number `n`.
pub open spec fn unsigned(n: int, width: nat) -> nat {
    if n >= 0 {
        n as nat
    } else {
        (n + cursor::capacity(width)) as nat
    }
}

/// A string: the number of its bytes, and the bytes.
pub open spec fn string_bytes(s: Seq<char>) -> Seq<u8> {
    le_bytes(vstd::utf8::encode_utf8(s).len(), 8) + vstd::utf8::encode_utf8(s)
}

/// The number of the type of `value`.
pub open spec fn type_of(value: ValueView) -> int {
    match value {
        ValueView::UInt8(_) => 0,
        ValueView::Int8(_) => 1,
        ValueView::UInt16(_) => 2,
        ValueView::Int16(_) => 3,
        ValueView::UInt32(_) => 4,
        ValueView::Int32(_) => 5,
        ValueView::Float32(_) => 6,
        ValueView::Bool(_) => 7,
        ValueView::String(_) => 8,
        ValueView::Array(_) => 9,
        ValueView::UInt64(_) => 10,
        ValueView::Int64(_) => 11,
        ValueView::Float64(_) => 12,
    }
}

/// The number of the type of the elements of an array.
pub open spec fn element_type(values: Seq<ValueView>) -> int {
    if values.len() == 0 {
        0
    } else {
        type_of(values[0])
    }
}

/// A metadata value.
pub open spec fn value_bytes(value: ValueView) -> Seq<u8>
    decreases value,
{
    match value {
        ValueView::UInt8(n) => le_bytes(n as nat, 1),
        ValueView::Int8(n) => le_bytes(unsigned(n, 1), 1),
        ValueView::UInt16(n) => le_bytes(n as nat, 2),
        ValueView::Int16(n) => le_bytes(unsigned(n, 2), 2),
        ValueView::UInt32(n) => le_bytes(n as nat, 4),
        ValueView::Int32(n) => le_bytes(unsigned(n, 4), 4),
        ValueView::Float32(bits) => le_bytes(bits as nat, 4),
        ValueView::Bool(b) => le_bytes(if b { 1 } else { 0 }, 1),
        ValueView::String(s) => string_bytes(s),
        ValueView::UInt64(n) => le_bytes(n as nat, 8),
        ValueView::Int64(n) => le_bytes(unsigned(n, 8), 8),
        ValueView::Float64(bits) => le_bytes(bits as nat, 8),
        ValueView::Array(values) => le_bytes(element_type(values) as nat, 4) + le_bytes(
            values.len(),
            8,
        ) + all_value_bytes(values),
    }
}

/// Metadata values in a row.
pub open spec fn all_value_bytes(values: Seq<ValueView>) -> Seq<u8>
    decreases values,
{
    if values.len() == 0 {
        Seq::empty()
    } else {
        value_bytes(values[0]) + all_value_bytes(values.drop_first())
    }
}

/// Byte strings one behind the other.
pub open spec fn concat(parts: Seq<Seq<u8>>) -> Seq<u8>
    decreases parts.len(),
{
    if parts.len() == 0 {
        Seq::empty()
    } else {
        parts[0] + concat(parts.drop_first())
    }
}

/// An array whose elements have the type `element_type` and are written as
/// `parts`.
pub open spec fn array_bytes(element_type: int, parts: Seq<Seq<u8>>) -> Seq<u8> {
    le_bytes(element_type as nat, 4) + le_bytes(parts.len(), 8) + concat(parts)
}

/// `bytes` are one of the ways to write `value`. There is more than one for a
/// truth value, as any byte but zero is true, and for an array without
/// elements, whose elements may be declared to have any type, known or not.
pub open spec fn encodes(value: ValueView, bytes: Seq<u8>) -> bool
    decreases value,
{
    match value {
        ValueView::Bool(b) => bytes.len() == 1 && (b <==> bytes[0] != 0),
        ValueView::Array(values) => exists|element_type: int, parts: Seq<Seq<u8>>|
            {
                &&& bytes == #[trigger] array_bytes(element_type, parts)
                &&& fits(element_type, 4)
                &&& parts.len() == values.len()
                &&& forall|i: int|
                    0 <= i < values.len() ==> type_of(#[trigger] values[i]) == element_type
                        && encodes(values[i], parts[i])
            },
        _ => bytes == value_bytes(value),
    }
}

/// `n` fits in `width` bytes without sign.
pub open spec fn fits(n: int, width: nat) -> bool {
    0 <= n < cursor::capacity(width)
}

/// `n` fits in `width` bytes with a sign.
pub open spec fn fits_signed(n: int, width: nat) -> bool {
    -(cursor::capacity(width) as int) <= 2 * n < cursor::capacity(width)
}

/// `value` can be written inside `depth` arrays: its numbers fit in their
/// types, the elements of each array have one type, and no more than eight
/// arrays enclose one another.
pub open spec fn writable(value: ValueView, depth: nat) -> bool
    decreases value,
{
    match value {
        ValueView::UInt8(n) => fits(n, 1),
        ValueView::Int8(n) => fits_signed(n, 1),
        ValueView::UInt16(n) => fits(n, 2),
        ValueView::Int16(n) => fits_signed(n, 2),
        ValueView::UInt32(n) => fits(n, 4),
        ValueView::Int32(n) => fits_signed(n, 4),
        ValueView::Float32(bits) => fits(bits, 4),
        ValueView::Bool(_) => true,
        ValueView::String(s) => fits(vstd::utf8::encode_utf8(s).len() as int, 8),
        ValueView::UInt64(n) => fits(n, 8),
        ValueView::Int64(n) => fits_signed(n, 8),
        ValueView::Float64(bits) => fits(bits, 8),
        ValueView::Array(values) => {
            &&& depth < metadata::MAX_ARRAY_NESTING_DEPTH
            &&& fits(values.len() as int, 8)
            &&& all_writable(values, element_type(values), depth + 1)
        },
    }
}

/// Each of `values` can be written inside `depth` arrays, and has the type
/// `value_type`.
pub open spec fn all_writable(values: Seq<ValueView>, value_type: int, depth: nat) -> bool
    decreases values,
{
    if values.len() == 0 {
        true
    } else {
        &&& type_of(values[0]) == value_type
        &&& writable(values[0], depth)
        &&& all_writable(values.drop_first(), value_type, depth)
    }
}

/// Where two byte strings stand one behind the other, each of them stands.
proof fn lemma_stands_split(file: Seq<u8>, pos: int, a: Seq<u8>, b: Seq<u8>)
    requires
        stands_at(file, pos, a + b),
    ensures
        stands_at(file, pos, a),
        stands_at(file, pos + a.len(), b),
{
    let whole = file.subrange(pos, pos + a.len() + b.len());
    assert(file.subrange(pos, pos + a.len()) =~= whole.subrange(0, a.len() as int));
    assert(whole.subrange(0, a.len() as int) =~= a);
    assert(file.subrange(pos + a.len(), pos + a.len() + b.len()) =~= whole.subrange(
        a.len() as int,
        (a.len() + b.len()) as int,
    ));
    assert(whole.subrange(a.len() as int, (a.len() + b.len()) as int) =~= b);
}

proof fn lemma_le_bytes(n: nat, width: nat)
    requires
        n < cursor::capacity(width),
    ensures
        le_bytes(n, width).len() == width,
        cursor::le_value(le_bytes(n, width)) == n,
    decreases width,
{
    if width > 0 {
        let rest = le_bytes(n / 256, (width - 1) as nat);
        assert(n / 256 < cursor::capacity((width - 1) as nat));
        lemma_le_bytes(n / 256, (width - 1) as nat);
        assert(le_bytes(n, width).drop_first() =~= rest);
    }
}

/// An unsigned number is read back as it was written.
pub proof fn law_uint_read_back(file: Seq<u8>, pos: int, n: int, width: nat)
    requires
        fits(n, width),
        stands_at(file, pos, le_bytes(n as nat, width)),
    ensures
        cursor::uint_at(file, pos, width) == Ok::<(int, int), ErrorView>((n, pos + width)),
{
    lemma_le_bytes(n as nat, width);
}

/// A signed number is read back as it was written.
pub proof fn law_sint_read_back(file: Seq<u8>, pos: int, n: int, width: nat)
    requires
        fits_signed(n, width),
        stands_at(file, pos, le_bytes(unsigned(n, width), width)),
    ensures
        cursor::sint_at(file, pos, width) == Ok::<(int, int), ErrorView>((n, pos + width)),
{
    lemma_le_bytes(unsigned(n, width), width);
}

/// A string is read back as it was written.
pub proof fn law_string_read_back(file: Seq<u8>, pos: int, s: Seq<char>)
    requires
        fits(vstd::utf8::encode_utf8(s).len() as int, 8),
        stands_at(file, pos, string_bytes(s)),
    ensures
        cursor::string_at(file, pos) == Ok::<(Seq<char>, int), ErrorView>(
            (s, pos + string_bytes(s).len()),
        ),
{
    let encoded = vstd::utf8::encode_utf8(s);
    let length = le_bytes(encoded.len(), 8);
    lemma_stands_split(file, pos, length, encoded);
    lemma_le_bytes(encoded.len(), 8);
    law_uint_read_back(file, pos, encoded.len() as int, 8);
    vstd::utf8::encode_utf8_valid_utf8(s);
    vstd::utf8::encode_utf8_decode_utf8(s);
}

/// A metadata value is read back, in whichever way it was written.
pub proof fn law_value_read_back(
    file: Seq<u8>,
    pos: int,
    value: ValueView,
    bytes: Seq<u8>,
    depth: nat,
)
    requires
        writable(value, depth),
        encodes(value, bytes),
        stands_at(file, pos, bytes),
    ensures
        metadata::value_at(file, pos, type_of(value), depth) == Ok::<(ValueView, int), ErrorView>(
            (value, pos + bytes.len()),
        ),
    decreases value,
{
    cursor::lemma_capacities();
    match value {
        ValueView::UInt8(n) => {
            lemma_le_bytes(n as nat, 1);
            law_uint_read_back(file, pos, n, 1);
        },
        ValueView::Int8(n) => {
            lemma_le_bytes(unsigned(n, 1), 1);
            law_sint_read_back(file, pos, n, 1);
        },
        ValueView::UInt16(n) => {
            lemma_le_bytes(n as nat, 2);
            law_uint_read_back(file, pos, n, 2);
        },
        ValueView::Int16(n) => {
            lemma_le_bytes(unsigned(n, 2), 2);
            law_sint_read_back(file, pos, n, 2);
        },
        ValueView::UInt32(n) => {
            lemma_le_bytes(n as nat, 4);
            law_uint_read_back(file, pos, n, 4);
        },
        ValueView::Int32(n) => {
            lemma_le_bytes(unsigned(n, 4), 4);
            law_sint_read_back(file, pos, n, 4);
        },
        ValueView::Float32(n) => {
            lemma_le_bytes(n as nat, 4);
            law_uint_read_back(file, pos, n, 4);
        },
        ValueView::Bool(_) => {
            reveal_with_fuel(cursor::le_value, 2);
            assert(file.subrange(pos, pos + 1)[0] == bytes[0]);
        },
        ValueView::String(s) => {
            law_string_read_back(file, pos, s);
        },
        ValueView::UInt64(n) => {
            lemma_le_bytes(n as nat, 8);
            law_uint_read_back(file, pos, n, 8);
        },
        ValueView::Int64(n) => {
            lemma_le_bytes(unsigned(n, 8), 8);
            law_sint_read_back(file, pos, n, 8);
        },
        ValueView::Float64(n) => {
            lemma_le_bytes(n as nat, 8);
            law_uint_read_back(file, pos, n, 8);
        },
        ValueView::Array(values) => {
            let (t, parts) = choose|t: int, parts: Seq<Seq<u8>>|
                {
                    &&& bytes == #[trigger] array_bytes(t, parts)
                    &&& fits(t, 4)
                    &&& parts.len() == values.len()
                    &&& forall|i: int|
                        0 <= i < values.len() ==> type_of(#[trigger] values[i]) == t && encodes(
                            values[i],
                            parts[i],
                        )
                };
            let kind = le_bytes(t as nat, 4);
            let count = le_bytes(parts.len(), 8);
            lemma_stands_split(file, pos, kind + count, concat(parts));
            lemma_stands_split(file, pos, kind, count);
            lemma_le_bytes(t as nat, 4);
            lemma_le_bytes(parts.len(), 8);
            law_uint_read_back(file, pos, t, 4);
            law_uint_read_back(file, pos + 4, values.len() as int, 8);
            let item = metadata::value_reader(file, t, depth + 1);
            assert forall|i: int, p: int|
                0 <= i < values.len() && #[trigger] stands_at(file, p, parts[i]) implies item(p)
                == Ok::<(ValueView, int), ErrorView>((values[i], p + parts[i].len())) by {
                lemma_element_writable(values, element_type(values), depth + 1, i);
                assert(type_of(values[i]) == t);
                assert(decreases_to!(value => value->Array_0));
                assert(decreases_to!(values => values[i]));
                law_value_read_back(file, p, values[i], parts[i], depth + 1);
            }
            lemma_row_read_back(file, pos + 12, values, parts, item);
        },
    }
}

/// An array without elements is read back, whatever type its elements are
/// declared to have.
pub proof fn law_empty_array_read_back(file: Seq<u8>, pos: int, element_type: int, depth: nat)
    requires
        fits(element_type, 4),
        depth < metadata::MAX_ARRAY_NESTING_DEPTH,
        stands_at(file, pos, le_bytes(element_type as nat, 4) + le_bytes(0, 8)),
    ensures
        metadata::value_at(file, pos, 9, depth) == Ok::<(ValueView, int), ErrorView>(
            (ValueView::Array(Seq::empty()), pos + 12),
        ),
{
    let value = ValueView::Array(Seq::empty());
    let parts = Seq::<Seq<u8>>::empty();
    let bytes = array_bytes(element_type, parts);
    cursor::lemma_capacities();
    lemma_le_bytes(element_type as nat, 4);
    lemma_le_bytes(0, 8);
    assert(bytes =~= le_bytes(element_type as nat, 4) + le_bytes(0, 8));
    law_value_read_back(file, pos, value, bytes, depth);
}

/// Each of `values` can be written where all of them can.
proof fn lemma_element_writable(values: Seq<ValueView>, value_type: int, depth: nat, i: int)
    requires
        all_writable(values, value_type, depth),
        0 <= i < values.len(),
    ensures
        writable(values[i], depth),
        type_of(values[i]) == value_type,
    decreases values.len(),
{
    if i > 0 {
        lemma_element_writable(values.drop_first(), value_type, depth, i - 1);
    }
}

/// Items in a row, of which each is read back from its part, are read back.
proof fn lemma_row_read_back<T>(
    file: Seq<u8>,
    pos: int,
    items: Seq<T>,
    parts: Seq<Seq<u8>>,
    item: spec_fn(int) -> cursor::Parsed<T>,
)
    requires
        stands_at(file, pos, concat(parts)),
        parts.len() == items.len(),
        forall|i: int, p: int|
            0 <= i < items.len() && #[trigger] stands_at(file, p, parts[i]) ==> item(p) == Ok::<
                (T, int),
                ErrorView,
            >((items[i], p + parts[i].len())),
    ensures
        cursor::repeat_at(item, pos, items.len()) == Ok::<(Seq<T>, int), ErrorView>(
            (items, pos + concat(parts).len()),
        ),
    decreases items.len(),
{
    if items.len() == 0 {
        assert(items =~= Seq::<T>::empty());
    } else {
        let first = parts[0];
        let (others, rest) = (items.drop_first(), parts.drop_first());
        lemma_stands_split(file, pos, first, concat(rest));
        assert(stands_at(file, pos, parts[0]));
        assert forall|i: int, p: int|
            0 <= i < others.len() && #[trigger] stands_at(file, p, rest[i]) implies item(p) == Ok::<
            (T, int),
            ErrorView,
        >((others[i], p + rest[i].len())) by {
            assert(stands_at(file, p, parts[i + 1]));
        }
        lemma_row_read_back(file, pos + first.len(), others, rest, item);
        assert(items =~= seq![items[0]] + others);
    }
}

/// The bytes of each of `values`.
pub open spec fn value_parts(values: Seq<ValueView>) -> Seq<Seq<u8>> {
    Seq::new(values.len(), |i: int| value_bytes(values[i]))
}

proof fn lemma_value_parts(values: Seq<ValueView>)
    ensures
        all_value_bytes(values) == concat(value_parts(values)),
    decreases values.len(),
{
    if values.len() > 0 {
        lemma_value_parts(values.drop_first());
        assert(value_parts(values).drop_first() =~= value_parts(values.drop_first()));
    }
}

/// There is a way to write each value that can be written.
pub proof fn law_value_written(value: ValueView, depth: nat)
    requires
        writable(value, depth),
    ensures
        encodes(value, value_bytes(value)),
    decreases value,
{
    match value {
        ValueView::Bool(b) => {
            reveal_with_fuel(le_bytes, 2);
        },
        ValueView::Array(values) => {
            let parts = value_parts(values);
            lemma_value_parts(values);
            cursor::lemma_capacities();
            assert forall|i: int| 0 <= i < values.len() implies type_of(#[trigger] values[i])
                == element_type(values) && encodes(values[i], parts[i]) by {
                lemma_element_writable(values, element_type(values), depth + 1, i);
                assert(decreases_to!(value => value->Array_0));
                assert(decreases_to!(values => values[i]));
                law_value_written(values[i], depth + 1);
            }
            assert(value_bytes(value) == array_bytes(element_type(values), parts));
        },
        _ => {},
    }
}

/// A metadata entry: its key, the type of its value, and the value, written as
/// `value`.
pub open spec fn entry_bytes(entry: (Seq<char>, ValueView), value: Seq<u8>) -> Seq<u8> {
    string_bytes(entry.0) + le_bytes(type_of(entry.1) as nat, 4) + value
}

/// `bytes` are one of the ways to write `entry`.
pub open spec fn entry_encodes(entry: (Seq<char>, ValueView), bytes: Seq<u8>) -> bool {
    exists|value: Seq<u8>|
        bytes == #[trigger] entry_bytes(entry, value) && encodes(entry.1, value)
}

/// `entry` can be written.
pub open spec fn entry_writable(entry: (Seq<char>, ValueView)) -> bool {
    &&& fits(vstd::utf8::encode_utf8(entry.0).len() as int, 8)
    &&& writable(entry.1, 0)
}

/// A metadata entry is read back, in whichever way it was written.
pub proof fn law_entry_read_back(
    file: Seq<u8>,
    pos: int,
    entry: (Seq<char>, ValueView),
    bytes: Seq<u8>,
)
    requires
        entry_writable(entry),
        entry_encodes(entry, bytes),
        stands_at(file, pos, bytes),
    ensures
        artifact::entry_at(file, pos) == Ok::<((Seq<char>, ValueView), int), ErrorView>(
            (entry, pos + bytes.len()),
        ),
{
    let value = choose|value: Seq<u8>|
        bytes == #[trigger] entry_bytes(entry, value) && encodes(entry.1, value);
    let key = string_bytes(entry.0);
    let kind = le_bytes(type_of(entry.1) as nat, 4);
    cursor::lemma_capacities();
    lemma_stands_split(file, pos, key + kind, value);
    lemma_stands_split(file, pos, key, kind);
    lemma_le_bytes(type_of(entry.1) as nat, 4);
    law_string_read_back(file, pos, entry.0);
    law_uint_read_back(file, pos + key.len(), type_of(entry.1), 4);
    law_value_read_back(file, pos + key.len() + 4, entry.1, value, 0);
}

/// The bytes of each of `dimensions`.
pub open spec fn dimension_parts(dimensions: Seq<int>) -> Seq<Seq<u8>> {
    Seq::new(dimensions.len(), |k: int| le_bytes(dimensions[k] as nat, 8))
}

/// The declaration of a tensor: its name, the number of its dimensions, the
/// dimensions, the type of its elements, and its offset.
pub open spec fn info_bytes(info: InfoView) -> Seq<u8> {
    string_bytes(info.name) + le_bytes(info.dimensions.len(), 4) + concat(
        dimension_parts(info.dimensions),
    ) + le_bytes(info.ggml_type as nat, 4) + le_bytes(info.offset as nat, 8)
}

/// `info` can be written and keeps the limits on names and dimensions.
pub open spec fn info_writable(info: InfoView) -> bool {
    &&& tensor::byte_length(info.name) <= tensor::MAX_TENSOR_NAME_BYTES
    &&& info.dimensions.len() <= tensor::MAX_DIMENSIONS
    &&& forall|i: int| 0 <= i < info.dimensions.len() ==> fits(#[trigger] info.dimensions[i], 8)
    &&& fits(info.ggml_type, 4)
    &&& fits(info.offset, 8)
}

/// The declaration of a tensor is read back as it was written.
pub proof fn law_info_read_back(file: Seq<u8>, pos: int, info: InfoView)
    requires
        info_writable(info),
        stands_at(file, pos, info_bytes(info)),
    ensures
        tensor::info_at(file, pos) == Ok::<(InfoView, int), ErrorView>(
            (info, pos + info_bytes(info).len()),
        ),
{
    let name = string_bytes(info.name);
    let count = le_bytes(info.dimensions.len(), 4);
    let parts = dimension_parts(info.dimensions);
    let dimensions = concat(parts);
    let kind = le_bytes(info.ggml_type as nat, 4);
    let offset = le_bytes(info.offset as nat, 8);
    cursor::lemma_capacities();
    lemma_le_bytes(info.dimensions.len(), 4);
    lemma_le_bytes(info.ggml_type as nat, 4);
    lemma_le_bytes(info.offset as nat, 8);
    lemma_stands_split(file, pos, name + count + dimensions + kind, offset);
    lemma_stands_split(file, pos, name + count + dimensions, kind);
    lemma_stands_split(file, pos, name + count, dimensions);
    lemma_stands_split(file, pos, name, count);
    law_string_read_back(file, pos, info.name);
    let p1 = pos + name.len();
    law_uint_read_back(file, p1, info.dimensions.len() as int, 4);
    let p2 = p1 + 4;
    let reader = tensor::dimension_reader(file);
    assert forall|i: int, p: int|
        0 <= i < info.dimensions.len() && #[trigger] stands_at(file, p, parts[i]) implies reader(p)
        == Ok::<(int, int), ErrorView>((info.dimensions[i], p + parts[i].len())) by {
        lemma_le_bytes(info.dimensions[i] as nat, 8);
        law_uint_read_back(file, p, info.dimensions[i], 8);
    }
    lemma_row_read_back(file, p2, info.dimensions, parts, reader);
    let p3 = p2 + dimensions.len();
    law_uint_read_back(file, p3, info.ggml_type, 4);
    law_uint_read_back(file, p3 + 4, info.offset, 8);
}

/// The bytes of each of `infos`.
pub open spec fn info_parts(infos: Seq<InfoView>) -> Seq<Seq<u8>> {
    Seq::new(infos.len(), |i: int| info_bytes(infos[i]))
}

/// `parts` are one of the ways to write `entries`, each in its part.
pub open spec fn entries_encoded(
    entries: Seq<(Seq<char>, ValueView)>,
    parts: Seq<Seq<u8>>,
) -> bool {
    &&& parts.len() == entries.len()
    &&& forall|i: int| 0 <= i < entries.len() ==> entry_encodes(#[trigger] entries[i], parts[i])
}

/// A way to write each of `entries`.
pub open spec fn entry_parts(entries: Seq<(Seq<char>, ValueView)>) -> Seq<Seq<u8>> {
    Seq::new(entries.len(), |i: int| entry_bytes(entries[i], value_bytes(entries[i].1)))
}

/// There is a way to write entries that can be written.
pub proof fn law_entries_written(entries: Seq<(Seq<char>, ValueView)>)
    requires
        forall|i: int| 0 <= i < entries.len() ==> entry_writable(#[trigger] entries[i]),
    ensures
        entries_encoded(entries, entry_parts(entries)),
{
    let parts = entry_parts(entries);
    assert forall|i: int| 0 <= i < entries.len() implies entry_encodes(
        #[trigger] entries[i],
        parts[i],
    ) by {
        law_value_written(entries[i].1, 0);
        assert(parts[i] == entry_bytes(entries[i], value_bytes(entries[i].1)));
    }
}

/// What comes ahead of the tensor data in a file: the header, the metadata
/// entries, written as `entry_parts`, and the declarations of the tensors.
pub open spec fn preamble_bytes(
    version: int,
    entry_parts: Seq<Seq<u8>>,
    infos: Seq<InfoView>,
) -> Seq<u8> {
    le_bytes(artifact::GGUF_MAGIC as nat, 4) + le_bytes(version as nat, 4) + le_bytes(
        infos.len(),
        8,
    ) + le_bytes(entry_parts.len(), 8) + concat(entry_parts) + concat(info_parts(infos))
}

/// The header, the metadata entries and the declarations of the tensors can be
/// written in a version of the format that is read.
pub open spec fn preamble_writable(
    version: int,
    entries: Seq<(Seq<char>, ValueView)>,
    infos: Seq<InfoView>,
) -> bool {
    &&& artifact::MIN_SUPPORTED_VERSION <= version <= artifact::MAX_SUPPORTED_VERSION
    &&& fits(entries.len() as int, 8)
    &&& fits(infos.len() as int, 8)
    &&& forall|i: int| 0 <= i < entries.len() ==> entry_writable(#[trigger] entries[i])
    &&& forall|i: int| 0 <= i < infos.len() ==> info_writable(#[trigger] infos[i])
}

/// What was written ahead of the tensor data is read back, in whichever way the
/// metadata entries were written: each key has the value of the last entry for
/// it, the declarations of the tensors come in the order in which they were
/// written, and an alignment that is not valid is the only thing that can be
/// wrong.
pub proof fn law_declarations_read_back(
    file: Seq<u8>,
    version: int,
    entries: Seq<(Seq<char>, ValueView)>,
    entry_parts: Seq<Seq<u8>>,
    infos: Seq<InfoView>,
)
    requires
        preamble_writable(version, entries, infos),
        entries_encoded(entries, entry_parts),
        stands_at(file, 0, preamble_bytes(version, entry_parts, infos)),
    ensures
        match artifact::alignment_of(entries::map_of(entries)) {
            Ok(alignment) => artifact::declarations_of(file) == Ok::<
                (artifact::Declarations, int),
                ErrorView,
            >(
                (
                    artifact::Declarations {
                        metadata: entries::map_of(entries),
                        alignment,
                        infos,
                    },
                    preamble_bytes(version, entry_parts, infos).len() as int,
                ),
            ),
            Err(e) => artifact::declarations_of(file) == Err::<
                (artifact::Declarations, int),
                ErrorView,
            >(e),
        },
{
    let magic = le_bytes(artifact::GGUF_MAGIC as nat, 4);
    let number = le_bytes(version as nat, 4);
    let info_count = le_bytes(infos.len(), 8);
    let entry_count = le_bytes(entry_parts.len(), 8);
    let all_entries = concat(entry_parts);
    let all_infos = concat(info_parts(infos));
    cursor::lemma_capacities();
    lemma_le_bytes(artifact::GGUF_MAGIC as nat, 4);
    lemma_le_bytes(version as nat, 4);
    lemma_le_bytes(infos.len(), 8);
    lemma_le_bytes(entries.len(), 8);
    let header = magic + number + info_count + entry_count;
    lemma_stands_split(file, 0, header + all_entries, all_infos);
    lemma_stands_split(file, 0, header, all_entries);
    lemma_stands_split(file, 0, magic + number + info_count, entry_count);
    lemma_stands_split(file, 0, magic + number, info_count);
    lemma_stands_split(file, 0, magic, number);
    law_uint_read_back(file, 0, artifact::GGUF_MAGIC as int, 4);
    law_uint_read_back(file, 4, version, 4);
    law_uint_read_back(file, 8, infos.len() as int, 8);
    law_uint_read_back(file, 16, entries.len() as int, 8);
    let entry_reader = artifact::entry_reader(file);
    assert forall|i: int, p: int|
        0 <= i < entries.len() && #[trigger] stands_at(file, p, entry_parts[i]) implies entry_reader(
        p,
    ) == Ok::<((Seq<char>, ValueView), int), ErrorView>((entries[i], p + entry_parts[i].len())) by {
        law_entry_read_back(file, p, entries[i], entry_parts[i]);
    }
    lemma_row_read_back(file, 24, entries, entry_parts, entry_reader);
    let info_reader = tensor::info_reader(file);
    let parts = info_parts(infos);
    assert forall|i: int, p: int|
        0 <= i < infos.len() && #[trigger] stands_at(file, p, parts[i]) implies info_reader(p)
        == Ok::<(InfoView, int), ErrorView>((infos[i], p + parts[i].len())) by {
        law_info_read_back(file, p, infos[i]);
    }
    lemma_row_read_back(file, 24 + all_entries.len() as int, infos, parts, info_reader);
}

} // verus!
