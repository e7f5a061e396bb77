//! Reading moves forward, stays inside the file, and holds no more than it has
//! read.

use crate::artifact;
use crate::cursor;
use crate::error::ErrorView;
use crate::metadata;
use crate::metadata::ValueView;
use crate::rewrite;
use crate::tensor;
use crate::tensor::InfoView;
use vstd::prelude::*;

verus! {

/// What reading from `pos` in a file of `length` bytes comes to: where it
/// succeeds, it has come at least `least` bytes further and not past the end;
/// where it fails for want of bytes, more were needed than there are.
pub open spec fn within<T>(parsed: cursor::Parsed<T>, pos: int, least: int, length: int) -> bool {
    match parsed {
        Ok((_, next)) => pos + least <= next <= length,
        Err(ErrorView::UnexpectedEof { at, needed }) => pos <= at <= length < at + needed,
        Err(_) => true,
    }
}

/// Reading a number takes its bytes and stays inside the file.
pub proof fn law_uint_within(file: Seq<u8>, pos: int, width: nat)
    requires
        0 <= pos <= file.len(),
    ensures
        within(cursor::uint_at(file, pos, width), pos, width as int, file.len() as int),
{
}

/// Reading a string takes at least the bytes of its length, and stays inside
/// the file however long the string claims to be.
pub proof fn law_string_within(file: Seq<u8>, pos: int)
    requires
        0 <= pos <= file.len(),
    ensures
        within(cursor::string_at(file, pos), pos, 8, file.len() as int),
{
}

/// Reading items in a row takes at least as many bytes as each of them takes,
/// and gives as many items as were asked for.
pub proof fn law_repeat_within<T>(
    item: spec_fn(int) -> cursor::Parsed<T>,
    pos: int,
    count: nat,
    least: int,
    length: int,
)
    requires
        0 <= least,
        0 <= pos <= length,
        forall|p: int| 0 <= p <= length ==> within(#[trigger] item(p), p, least, length),
    ensures
        within(cursor::repeat_at(item, pos, count), pos, least * count, length),
        cursor::repeat_at(item, pos, count) matches Ok((items, _)) ==> items.len() == count,
    decreases count,
{
    if count > 0 {
        let fewer = (count - 1) as nat;
        assert(least * count == least + least * fewer) by (nonlinear_arith)
            requires
                count == fewer + 1,
        ;
        assert(0 <= least * fewer) by (nonlinear_arith)
            requires
                0 <= least,
        ;
        assert(within(item(pos), pos, least, length));
        if let Ok((_, next)) = item(pos) {
            law_repeat_within(item, next, fewer, least, length);
        }
    }
}

/// Reading a metadata value takes at least a byte and stays inside the file.
pub proof fn law_value_within(file: Seq<u8>, pos: int, value_type: int, depth: nat)
    requires
        0 <= pos <= file.len(),
    ensures
        within(metadata::value_at(file, pos, value_type, depth), pos, 1, file.len() as int),
    decreases metadata::MAX_ARRAY_NESTING_DEPTH + 1 - depth,
{
    let length = file.len() as int;
    if value_type == 9 && depth < metadata::MAX_ARRAY_NESTING_DEPTH {
        if let Ok((element_type, next)) = cursor::uint_at(file, pos, 4) {
            let item = metadata::value_reader(file, element_type, depth + 1);
            assert forall|p: int| 0 <= p <= length implies within(#[trigger] item(p), p, 1, length) by {
                law_value_within(file, p, element_type, depth + 1);
            }
            if let Ok((count, start)) = cursor::uint_at(file, next, 8) {
                law_repeat_within(item, start, count as nat, 1, length);
            }
        }
    }
}

/// Reading a metadata entry takes at least the bytes of its key's length, of
/// its type and of the smallest value.
pub proof fn law_entry_within(file: Seq<u8>, pos: int)
    requires
        0 <= pos <= file.len(),
    ensures
        within(artifact::entry_at(file, pos), pos, 13, file.len() as int),
{
    law_string_within(file, pos);
    if let Ok((_, next)) = cursor::string_at(file, pos) {
        if let Ok((value_type, start)) = cursor::uint_at(file, next, 4) {
            law_value_within(file, start, value_type, 0);
        }
    }
}

/// Reading the declaration of a tensor takes at least the bytes of its name's
/// length, the number of its dimensions, its type and its offset.
pub proof fn law_info_within(file: Seq<u8>, pos: int)
    requires
        0 <= pos <= file.len(),
    ensures
        within(tensor::info_at(file, pos), pos, 24, file.len() as int),
        tensor::info_at(file, pos) matches Ok((info, _)) ==> info.dimensions.len()
            <= tensor::MAX_DIMENSIONS && tensor::byte_length(info.name)
            <= tensor::MAX_TENSOR_NAME_BYTES,
{
    let length = file.len() as int;
    law_string_within(file, pos);
    if let Ok((_, next)) = cursor::string_at(file, pos) {
        if let Ok((n, start)) = cursor::uint_at(file, next, 4) {
            let item = tensor::dimension_reader(file);
            assert forall|p: int| 0 <= p <= length implies within(#[trigger] item(p), p, 8, length) by {
                law_uint_within(file, p, 8);
            }
            law_repeat_within(item, start, n as nat, 8, length);
        }
    }
}

/// Where everything ahead of the tensor data can be read, the file is long
/// enough for the numbers of entries and tensors that its header gives, and
/// just as many tensors were declared. Where it cannot be read for want of
/// bytes, more were needed than there are.
pub proof fn law_declarations_within(file: Seq<u8>)
    ensures
        within(artifact::declarations_of(file), 0, 24, file.len() as int),
        artifact::declarations_of(file) matches Ok((declarations, end)) ==> {
            &&& artifact::header_of(file) matches Ok(((tensor_count, entry_count), _))
            &&& 24 + 13 * entry_count + 24 * tensor_count <= end <= file.len()
            &&& declarations.infos.len() == tensor_count
            &&& forall|i: int|
                0 <= i < declarations.infos.len() ==> (
                #[trigger] declarations.infos[i]).dimensions.len() <= tensor::MAX_DIMENSIONS
                    && tensor::byte_length(declarations.infos[i].name)
                    <= tensor::MAX_TENSOR_NAME_BYTES
        },
{
    let length = file.len() as int;
    law_uint_within(file, 0, 4);
    if let Ok(((tensor_count, entry_count), pos)) = artifact::header_of(file) {
        assert(pos == 24 && pos <= length);
        let entry = artifact::entry_reader(file);
        assert forall|p: int| 0 <= p <= length implies within(#[trigger] entry(p), p, 13, length) by {
            law_entry_within(file, p);
        }
        law_repeat_within(entry, pos, entry_count as nat, 13, length);
        if let Ok((_, start)) = cursor::repeat_at(entry, pos, entry_count as nat) {
            let info = tensor::info_reader(file);
            assert forall|p: int| 0 <= p <= length implies within(
                #[trigger] info(p),
                p,
                24,
                length,
            ) by {
                law_info_within(file, p);
            }
            law_repeat_within(info, start, tensor_count as nat, 24, length);
            lemma_infos_limited(file, start, tensor_count as nat);
        }
    }
}

/// The declarations of tensors that were read keep the limits on names and
/// dimensions.
proof fn lemma_infos_limited(file: Seq<u8>, pos: int, count: nat)
    requires
        0 <= pos <= file.len(),
    ensures
        cursor::repeat_at(tensor::info_reader(file), pos, count) matches Ok((infos, _))
            ==> forall|i: int|
            0 <= i < infos.len() ==> (#[trigger] infos[i]).dimensions.len()
                <= tensor::MAX_DIMENSIONS && tensor::byte_length(infos[i].name)
                <= tensor::MAX_TENSOR_NAME_BYTES,
    decreases count,
{
    if count > 0 {
        let item = tensor::info_reader(file);
        law_info_within(file, pos);
        assert(item(pos) == tensor::info_at(file, pos));
        if let Ok((_, next)) = item(pos) {
            lemma_infos_limited(file, next, (count - 1) as nat);
        }
    }
}

/// How much a metadata value holds: one for each value in it, itself among
/// them, and one for each byte of its strings.
pub open spec fn weight(value: ValueView) -> nat
    decreases value,
{
    match value {
        ValueView::String(s) => 1 + vstd::utf8::encode_utf8(s).len(),
        ValueView::Array(values) => 1 + all_weights(values),
        _ => 1,
    }
}

/// How much metadata values hold together.
pub open spec fn all_weights(values: Seq<ValueView>) -> nat
    decreases values,
{
    if values.len() == 0 {
        0
    } else {
        weight(values[0]) + all_weights(values.drop_first())
    }
}

/// A string that was read has as many bytes as there are behind its length.
pub proof fn law_string_weight(file: Seq<u8>, pos: int)
    requires
        0 <= pos <= file.len(),
    ensures
        cursor::string_at(file, pos) matches Ok((s, next)) ==> tensor::byte_length(s) == next - pos
            - 8,
{
    if cursor::string_at(file, pos) is Ok {
        let (length, body) = cursor::uint_at(file, pos, 8)->Ok_0;
        vstd::utf8::decode_utf8_encode_utf8(file.subrange(body, body + length));
    }
}

/// A metadata value that was read holds no more than the bytes it was read
/// from, whatever length its arrays and strings declare.
pub proof fn law_value_weight(file: Seq<u8>, pos: int, value_type: int, depth: nat)
    requires
        0 <= pos <= file.len(),
    ensures
        metadata::value_at(file, pos, value_type, depth) matches Ok((value, next)) ==> weight(value)
            <= next - pos,
    decreases metadata::MAX_ARRAY_NESTING_DEPTH + 1 - depth, 0int, 0nat,
{
    law_string_weight(file, pos);
    if value_type == 9 && metadata::value_at(file, pos, value_type, depth) is Ok {
        let (element_type, next) = cursor::uint_at(file, pos, 4)->Ok_0;
        let (length, start) = cursor::uint_at(file, next, 8)->Ok_0;
        lemma_values_weight(file, start, element_type, length as nat, depth + 1);
    }
}

proof fn lemma_values_weight(file: Seq<u8>, pos: int, value_type: int, count: nat, depth: nat)
    requires
        0 <= pos <= file.len(),
        depth <= metadata::MAX_ARRAY_NESTING_DEPTH,
    ensures
        cursor::repeat_at(metadata::value_reader(file, value_type, depth), pos, count) matches Ok(
            (values, next),
        ) ==> all_weights(values) <= next - pos,
    decreases metadata::MAX_ARRAY_NESTING_DEPTH + 1 - depth, 1int, count,
{
    let item = metadata::value_reader(file, value_type, depth);
    if count > 0 {
        law_value_weight(file, pos, value_type, depth);
        law_value_within(file, pos, value_type, depth);
        assert(item(pos) == metadata::value_at(file, pos, value_type, depth));
        if let Ok((value, next)) = item(pos) {
            lemma_values_weight(file, next, value_type, (count - 1) as nat, depth);
            if let Ok((others, _)) = cursor::repeat_at(item, next, (count - 1) as nat) {
                assert((seq![value] + others).drop_first() =~= others);
            }
        }
    }
}

/// How much a metadata entry holds: the bytes of its key, and its value.
pub open spec fn entry_weight(entry: (Seq<char>, ValueView)) -> int {
    tensor::byte_length(entry.0) + weight(entry.1)
}

/// How much the declaration of a tensor holds: the bytes of its name, and eight
/// bytes for each dimension.
pub open spec fn info_weight(info: InfoView) -> int {
    tensor::byte_length(info.name) + 8 * info.dimensions.len()
}

/// How much `items` hold together, where `weight` says how much each holds.
pub open spec fn total<T>(items: Seq<T>, weight: spec_fn(T) -> int) -> int
    decreases items.len(),
{
    if items.len() == 0 {
        0
    } else {
        weight(items[0]) + total(items.drop_first(), weight)
    }
}

/// Items in a row hold no more than the bytes they were read from, where each of
/// them does.
proof fn lemma_total<T>(
    item: spec_fn(int) -> cursor::Parsed<T>,
    weight: spec_fn(T) -> int,
    pos: int,
    count: nat,
    length: int,
)
    requires
        0 <= pos <= length,
        forall|p: int| 0 <= p <= length ==> within(#[trigger] item(p), p, 0, length),
        forall|p: int|
            0 <= p <= length ==> (#[trigger] item(p) matches Ok((x, next)) ==> weight(x) <= next
                - p),
    ensures
        cursor::repeat_at(item, pos, count) matches Ok((items, next)) ==> total(items, weight)
            <= next - pos,
    decreases count,
{
    if count > 0 {
        assert(within(item(pos), pos, 0, length));
        if let Ok((x, next)) = item(pos) {
            lemma_total(item, weight, next, (count - 1) as nat, length);
            if let Ok((others, _)) = cursor::repeat_at(item, next, (count - 1) as nat) {
                assert((seq![x] + others).drop_first() =~= others);
            }
        }
    }
}

/// The metadata and the declarations of tensors that were read from a file hold
/// together no more than the bytes they were read from, whatever numbers of
/// them the header declares.
pub proof fn law_declarations_weight(file: Seq<u8>)
    requires
        artifact::declarations_of(file) is Ok,
    ensures
        ({
            let (declarations, end) = artifact::declarations_of(file)->Ok_0;
            let entries = rewrite::entries_of(file);
            total(entries, |entry: (Seq<char>, ValueView)| entry_weight(entry)) + total(
                declarations.infos,
                |info: InfoView| info_weight(info),
            ) <= end <= file.len()
        }),
{
    let length = file.len() as int;
    let (tensor_count, entry_count) = artifact::header_of(file)->Ok_0.0;
    let entry = artifact::entry_reader(file);
    let by_entry = |entry: (Seq<char>, ValueView)| entry_weight(entry);
    law_declarations_within(file);
    assert forall|p: int| 0 <= p <= length implies within(#[trigger] entry(p), p, 0, length) && (
    entry(p) matches Ok((x, next)) ==> by_entry(x) <= next - p) by {
        law_entry_within(file, p);
        law_string_weight(file, p);
        if let Ok((_, next)) = cursor::string_at(file, p) {
            if let Ok((value_type, start)) = cursor::uint_at(file, next, 4) {
                law_value_weight(file, start, value_type, 0);
            }
        }
    }
    lemma_total(entry, by_entry, 24, entry_count as nat, length);
    law_repeat_within(entry, 24, entry_count as nat, 0, length);
    let start = cursor::repeat_at(entry, 24, entry_count as nat)->Ok_0.1;
    let info = tensor::info_reader(file);
    let by_info = |info: InfoView| info_weight(info);
    assert forall|p: int| 0 <= p <= length implies within(#[trigger] info(p), p, 0, length) && (
    info(p) matches Ok((x, next)) ==> by_info(x) <= next - p) by {
        lemma_info_weight(file, p);
    }
    lemma_total(info, by_info, start, tensor_count as nat, length);
}

proof fn lemma_info_weight(file: Seq<u8>, pos: int)
    requires
        0 <= pos <= file.len(),
    ensures
        within(tensor::info_at(file, pos), pos, 24, file.len() as int),
        tensor::info_at(file, pos) matches Ok((info, next)) ==> info_weight(info) <= next - pos,
{
    let length = file.len() as int;
    law_info_within(file, pos);
    law_string_within(file, pos);
    law_string_weight(file, pos);
    if let Ok((_, next)) = cursor::string_at(file, pos) {
        if let Ok((n, start)) = cursor::uint_at(file, next, 4) {
            let item = tensor::dimension_reader(file);
            assert forall|p: int| 0 <= p <= length implies within(#[trigger] item(p), p, 8, length) by {
                law_uint_within(file, p, 8);
            }
            law_repeat_within(item, start, n as nat, 8, length);
        }
    }
}

} // verus!
