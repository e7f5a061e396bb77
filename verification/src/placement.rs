//! Where tensors lie in a file.

use crate::artifact;
use crate::digest;
use crate::encoding;
use crate::entries;
use crate::error::ErrorView;
use crate::inventory;
use crate::layout;
use crate::metadata::ValueView;
use crate::model::TensorView;
use crate::order;
use crate::overlap;
use crate::progress;
use crate::range;
use crate::range::RangeView;
use crate::rewrite;
use crate::tensor;
use crate::tensor::InfoView;
use vstd::prelude::*;

verus! {

/// Rounding up gives a multiple of the alignment that is less than one
/// alignment away.
pub proof fn law_align_up(position: int, alignment: int)
    requires
        0 < alignment,
    ensures
        tensor::aligned_up(position, alignment) % alignment == 0,
        position <= tensor::aligned_up(position, alignment) < position + alignment,
{
    let n = position + alignment - 1;
    vstd::arithmetic::div_mod::lemma_fundamental_div_mod(n, alignment);
    assert(alignment * (n / alignment) == n / alignment * alignment) by (nonlinear_arith);
    vstd::arithmetic::div_mod::lemma_mod_multiples_basic(n / alignment, alignment);
}

/// No multiple of the alignment lies between a position and what it is rounded
/// up to.
pub proof fn law_align_up_least(position: int, alignment: int, other: int)
    requires
        0 < alignment,
        other % alignment == 0,
        position <= other,
    ensures
        tensor::aligned_up(position, alignment) <= other,
{
    let aligned = tensor::aligned_up(position, alignment);
    law_align_up(position, alignment);
    if other < aligned {
        vstd::arithmetic::div_mod::lemma_sub_mod_noop(aligned, other, alignment);
        vstd::arithmetic::div_mod::lemma_small_mod((aligned - other) as nat, alignment as nat);
        vstd::arithmetic::div_mod::lemma_small_mod(0, alignment as nat);
    }
}

/// The types of elements that are supported, and which of them are quantized.
pub proof fn law_supported_types(ggml_type: int)
    ensures
        layout::layout_of(ggml_type) is Some <==> (set![
            0int, 1, 8, 12, 13, 24, 25, 26, 27, 28, 30,
        ]).contains(ggml_type),
        layout::layout_of(ggml_type) matches Some(layout) ==> {
            &&& layout.block_elements > 0
            &&& layout.block_bytes > 0
            &&& layout.quantization is Some <==> ggml_type == 8 || ggml_type == 12 || ggml_type
                == 13
            &&& layout.quantization is None ==> layout.block_elements == 1
        },
{
}

/// The bytes that a tensor takes are not fewer than none.
pub proof fn lemma_size_not_negative(info: InfoView)
    requires
        encoding::info_writable(info),
    ensures
        0 <= tensor::product(info.dimensions),
        layout::layout_of(info.ggml_type) matches Some(layout) ==> 0 <= tensor::product(
            info.dimensions,
        ) / layout.block_elements * layout.block_bytes,
{
    tensor::lemma_product_not_negative(info.dimensions);
    if let Some(layout) = layout::layout_of(info.ggml_type) {
        let blocks = tensor::product(info.dimensions) / layout.block_elements;
        assert(0 <= blocks);
        assert(0 <= blocks * layout.block_bytes) by (nonlinear_arith)
            requires
                0 <= blocks,
                0 <= layout.block_bytes,
        ;
    }
}

/// How many bytes the tensor that `info` declares takes.
pub open spec fn size_of(info: InfoView) -> int {
    let layout = layout::layout_of(info.ggml_type)->0;
    tensor::product(info.dimensions) / layout.block_elements * layout.block_bytes
}

/// `info` declares a tensor that is supported and lies inside a file of
/// `length` bytes: its offset is aligned, its type is known, its elements can
/// be counted and fill whole blocks, and its bytes end with the file or before.
pub open spec fn tensor_fits(info: InfoView, length: int, alignment: int, data_start: int) -> bool {
    &&& info.offset % alignment == 0
    &&& layout::layout_of(info.ggml_type) matches Some(layout) && tensor::product(info.dimensions)
        % layout.block_elements == 0
    &&& !tensor::product_overflows(info.dimensions)
    &&& data_start + info.offset + size_of(info) <= length
}

/// Those tensors are accepted, and no others.
pub proof fn law_tensor_accepted(
    info: InfoView,
    file: Seq<u8>,
    alignment: int,
    data_start: int,
)
    requires
        file.len() <= u64::MAX,
    ensures
        tensor::tensor_of(info, file, alignment, data_start) is Ok <==> tensor_fits(
            info,
            file.len() as int,
            alignment,
            data_start,
        ),
{
}

/// A tensor of a type that is not supported is rejected by that type's number.
pub proof fn law_unsupported_type(info: InfoView, file: Seq<u8>, alignment: int, data_start: int)
    requires
        info.offset % alignment == 0,
        layout::layout_of(info.ggml_type) is None,
    ensures
        tensor::tensor_of(info, file, alignment, data_start) == Err::<TensorView, ErrorView>(
            ErrorView::UnsupportedGgmlType { name: info.name, ggml_type: info.ggml_type },
        ),
{
}

/// No two of `infos` have the same name.
pub open spec fn names_differ(infos: Seq<InfoView>) -> bool {
    forall|i: int, j: int|
        0 <= i < j < infos.len() ==> (#[trigger] infos[i]).name != (#[trigger] infos[j]).name
}

/// The tensors that `infos` declare are worked out just where each of them is
/// accepted by itself and no two have the same name.
pub proof fn law_tensors_accepted(
    infos: Seq<InfoView>,
    file: Seq<u8>,
    alignment: int,
    data_start: int,
)
    requires
        file.len() <= u64::MAX,
    ensures
        inventory::tensors_of(infos, file, alignment, data_start) is Ok <==> {
            &&& forall|i: int|
                0 <= i < infos.len() ==> tensor_fits(
                    #[trigger] infos[i],
                    file.len() as int,
                    alignment,
                    data_start,
                )
            &&& names_differ(infos)
        },
    decreases infos.len(),
{
    if inventory::tensors_of(infos, file, alignment, data_start) is Ok {
        inventory::lemma_tensors_of(infos, file, alignment, data_start);
        assert forall|i: int| 0 <= i < infos.len() implies tensor_fits(
            #[trigger] infos[i],
            file.len() as int,
            alignment,
            data_start,
        ) by {
            law_tensor_accepted(infos[i], file, alignment, data_start);
        }
    } else {
        let earlier = infos.drop_last();
        let last = infos.len() - 1;
        law_tensors_accepted(earlier, file, alignment, data_start);
        law_tensor_accepted(infos[last], file, alignment, data_start);
        if names_differ(infos) && forall|i: int|
            0 <= i < infos.len() ==> tensor_fits(
                #[trigger] infos[i],
                file.len() as int,
                alignment,
                data_start,
            ) {
            assert forall|i: int| 0 <= i < earlier.len() implies tensor_fits(
                #[trigger] earlier[i],
                file.len() as int,
                alignment,
                data_start,
            ) by {
                assert(earlier[i] == infos[i]);
            }
            assert forall|i: int, j: int| 0 <= i < j < earlier.len() implies (
            #[trigger] earlier[i]).name != (#[trigger] earlier[j]).name by {
                assert(earlier[i] == infos[i] && earlier[j] == infos[j]);
            }
            if inventory::declares(earlier, infos[last].name) {
                let i = choose|i: int|
                    0 <= i < earlier.len() && (#[trigger] earlier[i]).name == infos[last].name;
                assert(infos[i].name == infos[last].name);
            }
            assert(false);
        }
    }
}

/// Tensors that cannot be worked out are rejected for the first of them that
/// is wrong: one that has the name of an earlier one, or that is rejected by
/// itself.
pub proof fn law_first_wrong_tensor(
    infos: Seq<InfoView>,
    file: Seq<u8>,
    alignment: int,
    data_start: int,
) -> (k: int)
    requires
        inventory::tensors_of(infos, file, alignment, data_start) is Err,
    ensures
        0 <= k < infos.len(),
        inventory::tensors_of(infos.take(k), file, alignment, data_start) is Ok,
        inventory::tensors_of(infos, file, alignment, data_start)->Err_0 == if inventory::declares(
            infos.take(k),
            infos[k].name,
        ) {
            ErrorView::DuplicateTensorName { name: infos[k].name }
        } else {
            tensor::tensor_of(infos[k], file, alignment, data_start)->Err_0
        },
        inventory::declares(infos.take(k), infos[k].name) || tensor::tensor_of(
            infos[k],
            file,
            alignment,
            data_start,
        ) is Err,
    decreases infos.len(),
{
    let earlier = infos.drop_last();
    if inventory::tensors_of(earlier, file, alignment, data_start) is Err {
        let k = law_first_wrong_tensor(earlier, file, alignment, data_start);
        assert(earlier.take(k) =~= infos.take(k));
        k
    } else {
        assert(infos.take(infos.len() - 1) =~= earlier);
        infos.len() - 1
    }
}

/// The range of the tensor that `info` declares.
pub open spec fn range_of_info(info: InfoView, data_start: int) -> RangeView {
    let start = data_start + info.offset;
    RangeView { start, end: start + size_of(info), name: info.name }
}

/// The ranges of the tensors that `infos` declare.
pub open spec fn ranges_of_infos(infos: Seq<InfoView>, data_start: int) -> Seq<RangeView> {
    infos.map_values(|info: InfoView| range_of_info(info, data_start))
}

/// The ranges of tensors that were worked out are those of their declarations.
proof fn lemma_ranges(infos: Seq<InfoView>, file: Seq<u8>, alignment: int, data_start: int)
    requires
        inventory::tensors_of(infos, file, alignment, data_start) is Ok,
        forall|i: int| 0 <= i < infos.len() ==> encoding::info_writable(#[trigger] infos[i]),
    ensures
        ({
            let tensors = inventory::tensors_of(infos, file, alignment, data_start)->Ok_0;
            let ranges = ranges_of_infos(infos, data_start);
            &&& range::ranges_of(tensors, data_start) == ranges
            &&& range::distinct(ranges)
            &&& forall|i: int|
                0 <= i < ranges.len() ==> data_start <= (#[trigger] ranges[i]).start
                    <= ranges[i].end <= file.len()
        }),
{
    let tensors = inventory::tensors_of(infos, file, alignment, data_start)->Ok_0;
    let ranges = ranges_of_infos(infos, data_start);
    inventory::lemma_tensors_of(infos, file, alignment, data_start);
    assert forall|i: int| 0 <= i < infos.len() implies range::range_of(
        #[trigger] tensors[i],
        data_start,
    ) == ranges[i] && data_start <= ranges[i].start <= ranges[i].end <= file.len() by {
        assert(tensor::tensor_of(infos[i], file, alignment, data_start) == Ok::<
            TensorView,
            ErrorView,
        >(tensors[i]));
        lemma_size_not_negative(infos[i]);
    }
    assert(range::ranges_of(tensors, data_start) =~= ranges);
    assert forall|i: int| 0 <= i < ranges.len() implies data_start <= (#[trigger] ranges[i]).start
        <= ranges[i].end <= file.len() by {
        assert(range::range_of(tensors[i], data_start) == ranges[i]);
    }
}

/// A file whose declarations can be read is accepted just where its tensor data
/// start in the range of 64 bits, each tensor is supported and lies in the
/// file, no two tensors have the same name, and no overlap is found between
/// them.
pub proof fn law_file_accepted(file: Seq<u8>)
    requires
        artifact::declarations_of(file) is Ok,
        file.len() <= u64::MAX,
    ensures
        ({
            let (declarations, end) = artifact::declarations_of(file)->Ok_0;
            let infos = declarations.infos;
            let start = tensor::aligned_up(end, declarations.alignment);
            artifact::file_of(file) is Ok <==> {
                &&& start <= u64::MAX
                &&& forall|i: int|
                    0 <= i < infos.len() ==> tensor_fits(
                        #[trigger] infos[i],
                        file.len() as int,
                        declarations.alignment,
                        start,
                    )
                &&& names_differ(infos)
                &&& range::overlap(ranges_of_infos(infos, start)) is None
            }
        }),
{
    let (declarations, end) = artifact::declarations_of(file)->Ok_0;
    let infos = declarations.infos;
    let start = tensor::aligned_up(end, declarations.alignment);
    law_tensors_accepted(infos, file, declarations.alignment, start);
    rewrite::law_declarations_writable(file);
    if inventory::tensors_of(infos, file, declarations.alignment, start) is Ok {
        lemma_ranges(infos, file, declarations.alignment, start);
    }
}

/// The tensors of an accepted file are those that it declares, in the same
/// order. Their data start at the first multiple of the alignment behind the
/// declarations. The bytes of each of them start at an aligned offset and lie
/// between there and the end of the file, apart from those of the others, and
/// it has their digest unless it is quantized.
pub proof fn law_tensors_of_accepted_file(file: Seq<u8>)
    requires
        artifact::file_of(file) is Ok,
    ensures
        ({
            let (declarations, end) = artifact::declarations_of(file)->Ok_0;
            let infos = declarations.infos;
            let alignment = declarations.alignment;
            let said = artifact::file_of(file)->Ok_0;
            let start = said.tensor_data_start;
            let ranges = range::ranges_of(said.tensors, start);
            &&& end <= file.len()
            &&& end <= start < end + alignment
            &&& start % alignment == 0
            &&& said.metadata == declarations.metadata
            &&& said.tensors.len() == infos.len()
            &&& forall|i: int|
                0 <= i < infos.len() ==> {
                    &&& (#[trigger] said.tensors[i]).name == infos[i].name
                    &&& said.tensors[i].shape == infos[i].dimensions
                    &&& said.tensors[i].offset_bytes == Some(infos[i].offset)
                    &&& said.tensors[i].size_bytes == Some(size_of(infos[i]))
                    &&& infos[i].offset % alignment == 0
                    &&& layout::layout_of(infos[i].ggml_type) matches Some(layout)
                    &&& said.tensors[i].storage_dtype == layout.dtype
                    &&& said.tensors[i].quantization == layout.quantization
                    &&& said.tensors[i].digest == if layout.quantization is None {
                        Some(digest::digest_of(file.subrange(ranges[i].start, ranges[i].end)))
                    } else {
                        None
                    }
                }
            &&& forall|i: int|
                0 <= i < ranges.len() ==> start <= (#[trigger] ranges[i]).start <= ranges[i].end
                    <= file.len()
            &&& forall|i: int, j: int|
                0 <= i < j < ranges.len() ==> ranges[i].name != ranges[j].name && overlap::apart(
                    #[trigger] ranges[i],
                    #[trigger] ranges[j],
                )
        }),
{
    let (declarations, end) = artifact::declarations_of(file)->Ok_0;
    let infos = declarations.infos;
    let alignment = declarations.alignment;
    let said = artifact::file_of(file)->Ok_0;
    let start = said.tensor_data_start;
    let ranges = range::ranges_of(said.tensors, start);
    progress::law_declarations_within(file);
    rewrite::law_declarations_writable(file);
    law_align_up(end, alignment);
    inventory::lemma_tensors_of(infos, file, alignment, start);
    lemma_ranges(infos, file, alignment, start);
    overlap::law_no_overlap(ranges);
    assert forall|i: int| 0 <= i < infos.len() implies {
        &&& (#[trigger] said.tensors[i]).name == infos[i].name
        &&& said.tensors[i].shape == infos[i].dimensions
        &&& said.tensors[i].offset_bytes == Some(infos[i].offset)
        &&& said.tensors[i].size_bytes == Some(size_of(infos[i]))
        &&& infos[i].offset % alignment == 0
        &&& layout::layout_of(infos[i].ggml_type) matches Some(layout)
        &&& said.tensors[i].storage_dtype == layout.dtype
        &&& said.tensors[i].quantization == layout.quantization
        &&& said.tensors[i].digest == if layout.quantization is None {
            Some(digest::digest_of(file.subrange(ranges[i].start, ranges[i].end)))
        } else {
            None
        }
    } by {
        assert(tensor::tensor_of(infos[i], file, alignment, start) == Ok::<TensorView, ErrorView>(
            said.tensors[i],
        ));
    }
}

/// A file that was written is read back. It holds the header, the metadata
/// entries, in whichever way they were written, and the declarations of the
/// tensors, then bytes up to an aligned
/// position, then the tensors, each at its offset from there: each of a
/// supported type, inside the file and apart from the others. An empty tensor
/// that starts where another one does must come before it by name.
pub proof fn law_file_read_back(
    file: Seq<u8>,
    version: int,
    entries: Seq<(Seq<char>, ValueView)>,
    entry_parts: Seq<Seq<u8>>,
    infos: Seq<InfoView>,
    alignment: int,
)
    requires
        file.len() <= u64::MAX,
        encoding::preamble_writable(version, entries, infos),
        encoding::entries_encoded(entries, entry_parts),
        encoding::stands_at(file, 0, encoding::preamble_bytes(version, entry_parts, infos)),
        artifact::alignment_of(entries::map_of(entries)) == Ok::<int, ErrorView>(alignment),
        ({
            let end = encoding::preamble_bytes(version, entry_parts, infos).len() as int;
            let start = tensor::aligned_up(end, alignment);
            let ranges = ranges_of_infos(infos, start);
            &&& start <= u64::MAX
            &&& names_differ(infos)
            &&& forall|i: int|
                0 <= i < infos.len() ==> tensor_fits(
                    #[trigger] infos[i],
                    file.len() as int,
                    alignment,
                    start,
                )
            &&& forall|i: int, j: int|
                0 <= i < j < ranges.len() ==> overlap::apart(
                    #[trigger] ranges[i],
                    #[trigger] ranges[j],
                )
            &&& forall|i: int, j: int|
                0 <= i < ranges.len() && 0 <= j < ranges.len() && overlap::empty(
                    #[trigger] ranges[i],
                ) && !overlap::empty(#[trigger] ranges[j]) && ranges[i].start == ranges[j].start
                    ==> order::name_lt(ranges[i].name, ranges[j].name)
        }),
    ensures
        ({
            let end = encoding::preamble_bytes(version, entry_parts, infos).len() as int;
            let start = tensor::aligned_up(end, alignment);
            artifact::file_of(file) == Ok::<artifact::FileView, ErrorView>(
                artifact::FileView {
                    tensors: infos.map_values(
                        |info: InfoView| tensor::tensor_of(info, file, alignment, start)->Ok_0,
                    ),
                    metadata: entries::map_of(entries),
                    tensor_data_start: start,
                },
            )
        }),
{
    let end = encoding::preamble_bytes(version, entry_parts, infos).len() as int;
    let start = tensor::aligned_up(end, alignment);
    let ranges = ranges_of_infos(infos, start);
    encoding::law_declarations_read_back(file, version, entries, entry_parts, infos);
    law_tensors_accepted(infos, file, alignment, start);
    lemma_ranges(infos, file, alignment, start);
    overlap::law_apart_accepted(ranges);
    inventory::lemma_tensors_of(infos, file, alignment, start);
    assert(inventory::tensors_of(infos, file, alignment, start)->Ok_0 =~= infos.map_values(
        |info: InfoView| tensor::tensor_of(info, file, alignment, start)->Ok_0,
    ));
}

} // verus!
