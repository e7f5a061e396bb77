//! What was read can be written again, and stands in the file as it would be
//! written.

use crate::artifact;
use crate::cursor;
use crate::encoding;
use crate::entries;
use crate::error::ErrorView;
use crate::metadata;
use crate::metadata::ValueView;
use crate::progress;
use crate::tensor;
use crate::tensor::InfoView;
use vstd::prelude::*;

verus! {

/// A number that was read fits in the bytes that it was read from.
pub proof fn law_uint_fits(file: Seq<u8>, pos: int, width: nat)
    requires
        0 <= pos,
    ensures
        cursor::uint_at(file, pos, width) matches Ok((n, _)) ==> encoding::fits(n, width),
        cursor::sint_at(file, pos, width) matches Ok((n, _)) ==> encoding::fits_signed(n, width),
{
    if pos + width <= file.len() {
        cursor::lemma_le_value_bound(file.subrange(pos, pos + width));
    }
}

/// The bytes of a string that was read can be counted in its length.
pub proof fn law_string_fits(file: Seq<u8>, pos: int)
    requires
        0 <= pos,
    ensures
        cursor::string_at(file, pos) matches Ok((s, _)) ==> encoding::fits(
            tensor::byte_length(s),
            8,
        ),
{
    law_uint_fits(file, pos, 8);
    if cursor::string_at(file, pos) is Ok {
        let (length, body) = cursor::uint_at(file, pos, 8)->Ok_0;
        let encoded = file.subrange(body, body + length);
        vstd::utf8::decode_utf8_encode_utf8(encoded);
    }
}

/// A metadata value that was read can be written, in the type that it was read
/// with. In particular no more arrays enclose one another than may.
pub proof fn law_value_writable(file: Seq<u8>, pos: int, value_type: int, depth: nat)
    requires
        0 <= pos <= file.len(),
    ensures
        metadata::value_at(file, pos, value_type, depth) matches Ok((value, _))
            ==> encoding::writable(value, depth) && encoding::type_of(value) == value_type,
    decreases metadata::MAX_ARRAY_NESTING_DEPTH + 1 - depth, 0int, 0nat,
{
    law_uint_fits(file, pos, 1);
    law_uint_fits(file, pos, 2);
    law_uint_fits(file, pos, 4);
    law_uint_fits(file, pos, 8);
    law_string_fits(file, pos);
    if value_type == 9 && metadata::value_at(file, pos, value_type, depth) is Ok {
        let (element_type, next) = cursor::uint_at(file, pos, 4)->Ok_0;
        let (length, start) = cursor::uint_at(file, next, 8)->Ok_0;
        law_uint_fits(file, next, 8);
        lemma_values_writable(file, start, element_type, length as nat, depth + 1);
        let item = metadata::value_reader(file, element_type, depth + 1);
        assert forall|p: int| 0 <= p <= file.len() implies progress::within(
            #[trigger] item(p),
            p,
            1,
            file.len() as int,
        ) by {
            progress::law_value_within(file, p, element_type, depth + 1);
        }
        progress::law_repeat_within(item, start, length as nat, 1, file.len() as int);
    }
}

proof fn lemma_values_writable(
    file: Seq<u8>,
    pos: int,
    value_type: int,
    count: nat,
    depth: nat,
)
    requires
        0 <= pos <= file.len(),
        depth <= metadata::MAX_ARRAY_NESTING_DEPTH,
    ensures
        cursor::repeat_at(metadata::value_reader(file, value_type, depth), pos, count) matches Ok(
            (values, _),
        ) ==> encoding::all_writable(values, value_type, depth) && (count > 0 ==> values.len() > 0
            && encoding::element_type(values) == value_type),
    decreases metadata::MAX_ARRAY_NESTING_DEPTH + 1 - depth, 1int, count,
{
    let item = metadata::value_reader(file, value_type, depth);
    if count > 0 {
        law_value_writable(file, pos, value_type, depth);
        progress::law_value_within(file, pos, value_type, depth);
        assert(item(pos) == metadata::value_at(file, pos, value_type, depth));
        if let Ok((value, next)) = item(pos) {
            lemma_values_writable(file, next, value_type, (count - 1) as nat, depth);
            if let Ok((others, _)) = cursor::repeat_at(item, next, (count - 1) as nat) {
                assert((seq![value] + others).drop_first() =~= others);
            }
        }
    }
}

/// A metadata entry that was read can be written.
pub proof fn law_entry_writable(file: Seq<u8>, pos: int)
    requires
        0 <= pos <= file.len(),
    ensures
        artifact::entry_at(file, pos) matches Ok((entry, _)) ==> encoding::entry_writable(entry),
{
    law_string_fits(file, pos);
    progress::law_string_within(file, pos);
    if let Ok((_, next)) = cursor::string_at(file, pos) {
        if let Ok((value_type, start)) = cursor::uint_at(file, next, 4) {
            law_value_writable(file, start, value_type, 0);
        }
    }
}

proof fn lemma_dimensions_fit(file: Seq<u8>, pos: int, count: nat)
    requires
        0 <= pos,
    ensures
        cursor::repeat_at(tensor::dimension_reader(file), pos, count) matches Ok((dimensions, _))
            ==> dimensions.len() == count && forall|k: int|
            0 <= k < dimensions.len() ==> encoding::fits(#[trigger] dimensions[k], 8),
    decreases count,
{
    if count > 0 {
        let item = tensor::dimension_reader(file);
        law_uint_fits(file, pos, 8);
        assert(item(pos) == cursor::uint_at(file, pos, 8));
        lemma_dimensions_fit(file, pos + 8, (count - 1) as nat);
    }
}

/// The declaration of a tensor that was read can be written.
pub proof fn law_info_writable(file: Seq<u8>, pos: int)
    requires
        0 <= pos <= file.len(),
    ensures
        tensor::info_at(file, pos) matches Ok((info, _)) ==> encoding::info_writable(info),
{
    progress::law_string_within(file, pos);
    if let Ok((_, next)) = cursor::string_at(file, pos) {
        if let Ok((n, start)) = cursor::uint_at(file, next, 4) {
            lemma_dimensions_fit(file, start, n as nat);
            let item = tensor::dimension_reader(file);
            assert forall|p: int| 0 <= p <= file.len() implies progress::within(
                #[trigger] item(p),
                p,
                8,
                file.len() as int,
            ) by {
                progress::law_uint_within(file, p, 8);
            }
            progress::law_repeat_within(item, start, n as nat, 8, file.len() as int);
            if let Ok((_, end)) = cursor::repeat_at(item, start, n as nat) {
                law_uint_fits(file, end, 4);
                law_uint_fits(file, end + 4, 8);
            }
        }
    }
}

proof fn lemma_entries_writable(file: Seq<u8>, pos: int, count: nat)
    requires
        0 <= pos <= file.len(),
    ensures
        cursor::repeat_at(artifact::entry_reader(file), pos, count) matches Ok((entries, next))
            ==> entries.len() == count && pos <= next <= file.len() && forall|i: int|
            0 <= i < entries.len() ==> encoding::entry_writable(#[trigger] entries[i]),
    decreases count,
{
    if count > 0 {
        let item = artifact::entry_reader(file);
        law_entry_writable(file, pos);
        progress::law_entry_within(file, pos);
        assert(item(pos) == artifact::entry_at(file, pos));
        if let Ok((_, next)) = item(pos) {
            lemma_entries_writable(file, next, (count - 1) as nat);
        }
    }
}

proof fn lemma_infos_writable(file: Seq<u8>, pos: int, count: nat)
    requires
        0 <= pos <= file.len(),
    ensures
        cursor::repeat_at(tensor::info_reader(file), pos, count) matches Ok((infos, _))
            ==> infos.len() == count && forall|i: int|
            0 <= i < infos.len() ==> encoding::info_writable(#[trigger] infos[i]),
    decreases count,
{
    if count > 0 {
        let item = tensor::info_reader(file);
        law_info_writable(file, pos);
        progress::law_info_within(file, pos);
        assert(item(pos) == tensor::info_at(file, pos));
        if let Ok((_, next)) = item(pos) {
            lemma_infos_writable(file, next, (count - 1) as nat);
        }
    }
}

/// The version that the header of `file` gives.
pub open spec fn version_of(file: Seq<u8>) -> int {
    cursor::le_value(file.subrange(4, 8)) as int
}

/// The metadata entries of `file`, in the order in which it gives them.
pub open spec fn entries_of(file: Seq<u8>) -> Seq<(Seq<char>, ValueView)> {
    cursor::repeat_at(artifact::entry_reader(file), 24, artifact::header_of(file)->Ok_0.0.1 as nat)->Ok_0.0
}

/// What a file declares ahead of the tensor data can be written again, and
/// declares the same where it is read once more.
pub proof fn law_declarations_rewritten(file: Seq<u8>)
    requires
        artifact::declarations_of(file) is Ok,
    ensures
        ({
            let declarations = artifact::declarations_of(file)->Ok_0.0;
            let version = version_of(file);
            let entries = entries_of(file);
            let again = encoding::preamble_bytes(
                version,
                encoding::entry_parts(entries),
                declarations.infos,
            );
            &&& encoding::preamble_writable(version, entries, declarations.infos)
            &&& declarations.metadata == entries::map_of(entries)
            &&& artifact::declarations_of(again) == Ok::<
                (artifact::Declarations, int),
                ErrorView,
            >((declarations, again.len() as int))
        }),
{
    let (tensor_count, entry_count) = artifact::header_of(file)->Ok_0.0;
    let declarations = artifact::declarations_of(file)->Ok_0.0;
    let entries = entries_of(file);
    let version = version_of(file);
    law_uint_fits(file, 8, 8);
    law_uint_fits(file, 16, 8);
    lemma_entries_writable(file, 24, entry_count as nat);
    let start = cursor::repeat_at(artifact::entry_reader(file), 24, entry_count as nat)->Ok_0.1;
    lemma_infos_writable(file, start, tensor_count as nat);
    let parts = encoding::entry_parts(entries);
    let again = encoding::preamble_bytes(version, parts, declarations.infos);
    encoding::law_entries_written(entries);
    assert(again.subrange(0, again.len() as int) =~= again);
    encoding::law_declarations_read_back(again, version, entries, parts, declarations.infos);
}

proof fn lemma_map_writable(entries: Seq<(Seq<char>, ValueView)>)
    requires
        forall|i: int| 0 <= i < entries.len() ==> encoding::entry_writable(#[trigger] entries[i]),
    ensures
        forall|key: Seq<char>|
            entries::map_of(entries).dom().contains(key) ==> encoding::writable(
                #[trigger] entries::map_of(entries)[key],
                0,
            ),
    decreases entries.len(),
{
    if entries.len() > 0 {
        let shorter = entries.drop_last();
        assert forall|i: int| 0 <= i < shorter.len() implies encoding::entry_writable(
            #[trigger] shorter[i],
        ) by {
            assert(shorter[i] == entries[i]);
        }
        lemma_map_writable(shorter);
        assert(encoding::entry_writable(entries[entries.len() - 1]));
        assert forall|key: Seq<char>|
            entries::map_of(entries).dom().contains(key) implies encoding::writable(
            #[trigger] entries::map_of(entries)[key],
            0,
        ) by {
            if key != entries.last().0 {
                assert(entries::map_of(entries)[key] == entries::map_of(shorter)[key]);
            }
        }
    }
}

/// Each metadata value and each declaration of a tensor that a file gives can
/// be written, and what its tensor data are aligned to is a multiple of 8
/// above zero that fits in 32 bits.
pub proof fn law_declarations_writable(file: Seq<u8>)
    requires
        artifact::declarations_of(file) is Ok,
    ensures
        ({
            let declarations = artifact::declarations_of(file)->Ok_0.0;
            &&& forall|key: Seq<char>|
                declarations.metadata.dom().contains(key) ==> encoding::writable(
                    #[trigger] declarations.metadata[key],
                    0,
                )
            &&& forall|i: int|
                0 <= i < declarations.infos.len() ==> encoding::info_writable(
                    #[trigger] declarations.infos[i],
                )
            &&& 0 < declarations.alignment <= u32::MAX
            &&& declarations.alignment % 8 == 0
        }),
{
    law_declarations_rewritten(file);
    lemma_map_writable(entries_of(file));
    cursor::lemma_capacities();
    let metadata = artifact::declarations_of(file)->Ok_0.0.metadata;
    assert(metadata.dom().contains("general.alignment"@) ==> encoding::writable(
        metadata["general.alignment"@],
        0,
    ));
}

proof fn lemma_digits_written(digits: Seq<u8>)
    ensures
        encoding::le_bytes(cursor::le_value(digits), digits.len()) == digits,
    decreases digits.len(),
{
    if digits.len() > 0 {
        let rest = digits.drop_first();
        lemma_digits_written(rest);
        assert(cursor::le_value(digits) % 256 == digits[0]);
        assert(cursor::le_value(digits) / 256 == cursor::le_value(rest));
        assert(digits =~= seq![digits[0]] + rest);
    } else {
        assert(digits =~= encoding::le_bytes(0, 0));
    }
}

/// A number that was read stands in the file as it would be written.
pub proof fn law_uint_stands(file: Seq<u8>, pos: int, width: nat)
    requires
        0 <= pos,
    ensures
        cursor::uint_at(file, pos, width) matches Ok((n, next)) ==> next == pos + width && next
            <= file.len() && file.subrange(pos, next) == encoding::le_bytes(n as nat, width),
        cursor::sint_at(file, pos, width) matches Ok((n, next)) ==> next == pos + width && next
            <= file.len() && file.subrange(pos, next) == encoding::le_bytes(
            encoding::unsigned(n, width),
            width,
        ),
{
    if pos + width <= file.len() {
        lemma_digits_written(file.subrange(pos, pos + width));
        cursor::lemma_le_value_bound(file.subrange(pos, pos + width));
    }
}

/// A string that was read stands in the file as it would be written.
pub proof fn law_string_stands(file: Seq<u8>, pos: int)
    requires
        0 <= pos,
    ensures
        cursor::string_at(file, pos) matches Ok((s, next)) ==> pos <= next <= file.len()
            && file.subrange(pos, next) == encoding::string_bytes(s),
{
    law_uint_stands(file, pos, 8);
    if cursor::string_at(file, pos) is Ok {
        let (length, body) = cursor::uint_at(file, pos, 8)->Ok_0;
        let next = body + length;
        vstd::utf8::decode_utf8_encode_utf8(file.subrange(body, next));
        lemma_subrange_split(file, pos, body, next);
    }
}

proof fn lemma_subrange_split(file: Seq<u8>, a: int, b: int, c: int)
    requires
        0 <= a <= b <= c <= file.len(),
    ensures
        file.subrange(a, c) == file.subrange(a, b) + file.subrange(b, c),
{
    assert(file.subrange(a, c) =~= file.subrange(a, b) + file.subrange(b, c));
}

/// Where each item that is read stands in the file in a way that `written`
/// accepts, items in a row do.
proof fn lemma_row_stands<T>(
    file: Seq<u8>,
    item: spec_fn(int) -> cursor::Parsed<T>,
    written: spec_fn(T, Seq<u8>) -> bool,
    pos: int,
    count: nat,
) -> (parts: Seq<Seq<u8>>)
    requires
        0 <= pos <= file.len(),
        forall|p: int|
            0 <= p <= file.len() ==> (#[trigger] item(p) matches Ok((x, next)) ==> p <= next
                <= file.len() && written(x, file.subrange(p, next))),
    ensures
        cursor::repeat_at(item, pos, count) matches Ok((items, next)) ==> {
            &&& pos <= next <= file.len()
            &&& items.len() == count
            &&& parts.len() == count
            &&& encoding::concat(parts) == file.subrange(pos, next)
            &&& forall|i: int| 0 <= i < count ==> written(#[trigger] items[i], parts[i])
        },
    decreases count,
{
    if count == 0 {
        assert(file.subrange(pos, pos) =~= Seq::<u8>::empty());
        Seq::empty()
    } else if item(pos) is Err {
        Seq::empty()
    } else {
        let (x, next) = item(pos)->Ok_0;
        let rest = lemma_row_stands(file, item, written, next, (count - 1) as nat);
        let parts = seq![file.subrange(pos, next)] + rest;
        if let Ok((others, end)) = cursor::repeat_at(item, next, (count - 1) as nat) {
            assert(parts.drop_first() =~= rest);
            lemma_subrange_split(file, pos, next, end);
            let items = seq![x] + others;
            assert forall|i: int| 0 <= i < count implies written(#[trigger] items[i], parts[i]) by {
                if i > 0 {
                    assert(items[i] == others[i - 1] && parts[i] == rest[i - 1]);
                }
            }
        }
        parts
    }
}

/// A metadata value that was read stands in the file in one of the ways to
/// write it.
pub proof fn law_value_stands(file: Seq<u8>, pos: int, value_type: int, depth: nat)
    requires
        0 <= pos <= file.len(),
    ensures
        metadata::value_at(file, pos, value_type, depth) matches Ok((value, next)) ==> pos <= next
            <= file.len() && encoding::type_of(value) == value_type && encoding::encodes(
            value,
            file.subrange(pos, next),
        ),
    decreases metadata::MAX_ARRAY_NESTING_DEPTH + 1 - depth,
{
    if metadata::value_at(file, pos, value_type, depth) is Ok {
        law_value_writable(file, pos, value_type, depth);
        progress::law_value_within(file, pos, value_type, depth);
        if value_type == 9 {
            let (t, p1) = cursor::uint_at(file, pos, 4)->Ok_0;
            let (length, p2) = cursor::uint_at(file, p1, 8)->Ok_0;
            law_uint_stands(file, pos, 4);
            law_uint_fits(file, pos, 4);
            law_uint_stands(file, p1, 8);
            let item = metadata::value_reader(file, t, depth + 1);
            let written = |value: ValueView, bytes: Seq<u8>|
                encoding::type_of(value) == t && encoding::encodes(value, bytes);
            assert forall|p: int| 0 <= p <= file.len() implies (#[trigger] item(p) matches Ok(
                (x, next),
            ) ==> p <= next <= file.len() && written(x, file.subrange(p, next))) by {
                law_value_stands(file, p, t, depth + 1);
            }
            let parts = lemma_row_stands(file, item, written, p2, length as nat);
            let (values, end) = cursor::repeat_at(item, p2, length as nat)->Ok_0;
            lemma_subrange_split(file, pos, p1, p2);
            lemma_subrange_split(file, pos, p2, end);
            assert(file.subrange(pos, end) == encoding::array_bytes(t, parts));
            assert forall|i: int| 0 <= i < values.len() implies encoding::type_of(
                #[trigger] values[i],
            ) == t && encoding::encodes(values[i], parts[i]) by {
                assert(written(values[i], parts[i]));
            }
        } else if value_type == 7 {
            reveal_with_fuel(cursor::le_value, 2);
        } else {
            law_uint_stands(file, pos, 1);
            law_uint_stands(file, pos, 2);
            law_uint_stands(file, pos, 4);
            law_uint_stands(file, pos, 8);
            law_string_stands(file, pos);
        }
    }
}

/// A metadata entry that was read stands in the file in one of the ways to write
/// it.
pub proof fn law_entry_stands(file: Seq<u8>, pos: int)
    requires
        0 <= pos <= file.len(),
    ensures
        artifact::entry_at(file, pos) matches Ok((entry, next)) ==> pos <= next <= file.len()
            && encoding::entry_encodes(entry, file.subrange(pos, next)),
{
    if artifact::entry_at(file, pos) is Ok {
        let (entry, next) = artifact::entry_at(file, pos)->Ok_0;
        let p1 = cursor::string_at(file, pos)->Ok_0.1;
        law_string_stands(file, pos);
        let (value_type, p2) = cursor::uint_at(file, p1, 4)->Ok_0;
        law_uint_stands(file, p1, 4);
        law_value_stands(file, p2, value_type, 0);
        lemma_subrange_split(file, pos, p1, p2);
        lemma_subrange_split(file, pos, p2, next);
        let value = file.subrange(p2, next);
        assert(file.subrange(pos, next) == encoding::entry_bytes(entry, value));
    }
}

/// The declaration of a tensor that was read stands in the file as it would be
/// written.
pub proof fn law_info_stands(file: Seq<u8>, pos: int)
    requires
        0 <= pos <= file.len(),
    ensures
        tensor::info_at(file, pos) matches Ok((info, next)) ==> pos <= next <= file.len()
            && file.subrange(pos, next) == encoding::info_bytes(info),
{
    if tensor::info_at(file, pos) is Ok {
        let (info, next) = tensor::info_at(file, pos)->Ok_0;
        let p1 = cursor::string_at(file, pos)->Ok_0.1;
        law_string_stands(file, pos);
        let (n, p2) = cursor::uint_at(file, p1, 4)->Ok_0;
        law_uint_stands(file, p1, 4);
        let item = tensor::dimension_reader(file);
        let written = |dimension: int, bytes: Seq<u8>|
            bytes == encoding::le_bytes(dimension as nat, 8);
        assert forall|p: int| 0 <= p <= file.len() implies (#[trigger] item(p) matches Ok(
            (x, next),
        ) ==> p <= next <= file.len() && written(x, file.subrange(p, next))) by {
            law_uint_stands(file, p, 8);
        }
        let parts = lemma_row_stands(file, item, written, p2, n as nat);
        let p3 = cursor::repeat_at(item, p2, n as nat)->Ok_0.1;
        assert forall|k: int| 0 <= k < parts.len() implies parts[k] == encoding::dimension_parts(
            info.dimensions,
        )[k] by {
            assert(written(info.dimensions[k], parts[k]));
        }
        assert(parts =~= encoding::dimension_parts(info.dimensions));
        law_uint_stands(file, p3, 4);
        law_uint_stands(file, p3 + 4, 8);
        lemma_subrange_split(file, pos, p1, p2);
        lemma_subrange_split(file, pos, p2, p3);
        lemma_subrange_split(file, pos, p3, p3 + 4);
        lemma_subrange_split(file, pos, p3 + 4, next);
    }
}

/// Whatever is read ahead of the tensor data stands at the start of the file in
/// one of the ways to write it: no file is read that was not written in one of
/// them.
pub proof fn law_declarations_stand(file: Seq<u8>) -> (parts: Seq<Seq<u8>>)
    requires
        artifact::declarations_of(file) is Ok,
    ensures
        ({
            let (declarations, end) = artifact::declarations_of(file)->Ok_0;
            &&& 0 <= end <= file.len()
            &&& encoding::entries_encoded(entries_of(file), parts)
            &&& file.take(end) == encoding::preamble_bytes(
                version_of(file),
                parts,
                declarations.infos,
            )
        }),
{
    let (declarations, end) = artifact::declarations_of(file)->Ok_0;
    let (tensor_count, entry_count) = artifact::header_of(file)->Ok_0.0;
    let entries = entries_of(file);
    let infos = declarations.infos;
    law_uint_stands(file, 0, 4);
    law_uint_stands(file, 4, 4);
    law_uint_stands(file, 8, 8);
    law_uint_stands(file, 16, 8);
    let entry = artifact::entry_reader(file);
    let written = |entry: (Seq<char>, ValueView), bytes: Seq<u8>|
        encoding::entry_encodes(entry, bytes);
    assert forall|p: int| 0 <= p <= file.len() implies (#[trigger] entry(p) matches Ok((x, next))
        ==> p <= next <= file.len() && written(x, file.subrange(p, next))) by {
        law_entry_stands(file, p);
    }
    let parts = lemma_row_stands(file, entry, written, 24, entry_count as nat);
    let start = cursor::repeat_at(entry, 24, entry_count as nat)->Ok_0.1;
    assert forall|i: int| 0 <= i < entries.len() implies encoding::entry_encodes(
        #[trigger] entries[i],
        parts[i],
    ) by {
        assert(written(entries[i], parts[i]));
    }
    let info = tensor::info_reader(file);
    let as_written = |info: InfoView, bytes: Seq<u8>| bytes == encoding::info_bytes(info);
    assert forall|p: int| 0 <= p <= file.len() implies (#[trigger] info(p) matches Ok((x, next))
        ==> p <= next <= file.len() && as_written(x, file.subrange(p, next))) by {
        law_info_stands(file, p);
    }
    let others = lemma_row_stands(file, info, as_written, start, tensor_count as nat);
    assert forall|i: int| 0 <= i < others.len() implies others[i] == encoding::info_parts(
        infos,
    )[i] by {
        assert(as_written(infos[i], others[i]));
    }
    assert(others =~= encoding::info_parts(infos));
    lemma_subrange_split(file, 0, 4, 8);
    lemma_subrange_split(file, 0, 8, 16);
    lemma_subrange_split(file, 0, 16, 24);
    lemma_subrange_split(file, 0, 24, start);
    lemma_subrange_split(file, 0, start, end);
    assert(file.take(end) =~= file.subrange(0, end));
    parts
}

} // verus!
