//! What the result of reading a file depends on.

use crate::artifact;
use crate::artifact::{FileView, GgufArtifact};
use crate::cursor;
use crate::digest;
use crate::entries;
use crate::entries::MetadataMap;
use crate::error::ErrorView;
use crate::inventory;
use crate::layout;
use crate::metadata::ValueView;
use crate::model::{ModelTensorMetadata, TensorView};
use crate::order;
use crate::order::Named;
use crate::overlap;
use crate::placement;
use crate::range;
use crate::range::RangeView;
use crate::rewrite;
use crate::tensor;
use vstd::prelude::*;

verus! {

/// A file without four bytes is rejected for want of them, and any other file
/// that does not start with "GGUF" for what it starts with.
pub proof fn law_magic(file: Seq<u8>)
    ensures
        file.len() < 4 ==> artifact::file_of(file) == Err::<FileView, ErrorView>(
            ErrorView::UnexpectedEof { at: 0, needed: 4 },
        ),
        file.len() >= 4 && file.take(4) != seq![0x47u8, 0x47, 0x55, 0x46] ==> artifact::file_of(
            file,
        ) == Err::<FileView, ErrorView>(
            ErrorView::BadMagic { found: cursor::le_value(file.take(4)) as int },
        ),
{
    if file.len() >= 4 {
        let start = file.take(4);
        assert(start == file.subrange(0, 4));
        reveal_with_fuel(cursor::le_value, 5);
        if cursor::le_value(start) == artifact::GGUF_MAGIC {
            assert(start =~= seq![0x47u8, 0x47, 0x55, 0x46]);
        }
    }
}

/// A file that starts with "GGUF" is rejected for its version just where that
/// is neither 2 nor 3.
pub proof fn law_version(file: Seq<u8>)
    requires
        file.len() >= 8,
        file.take(4) == seq![0x47u8, 0x47, 0x55, 0x46],
    ensures
        ({
            let version = rewrite::version_of(file);
            let rejected = Err::<((int, int), int), ErrorView>(
                ErrorView::UnsupportedVersion { found: version },
            );
            &&& artifact::header_of(file) == rejected <==> version != 2 && version != 3
            &&& version != 2 && version != 3 ==> artifact::file_of(file) == Err::<
                FileView,
                ErrorView,
            >(ErrorView::UnsupportedVersion { found: version })
        }),
{
    let start = file.take(4);
    assert(start == file.subrange(0, 4));
    assert(cursor::le_value(start) == artifact::GGUF_MAGIC) by {
        reveal_with_fuel(cursor::le_value, 5);
    }
}

/// An accepted file starts with "GGUF" and has version 2 or 3.
pub proof fn law_accepted_header(file: Seq<u8>)
    requires
        artifact::file_of(file) is Ok,
    ensures
        file.len() >= 24,
        file.take(4) == seq![0x47u8, 0x47, 0x55, 0x46],
        rewrite::version_of(file) == 2 || rewrite::version_of(file) == 3,
{
    law_magic(file);
    law_version(file);
}

/// Each metadata entry of an accepted file whose key no later entry has is kept
/// as it is, whether its key is known or not, and no other key has a value.
pub proof fn law_metadata_kept(file: Seq<u8>)
    requires
        artifact::file_of(file) is Ok,
    ensures
        ({
            let said = artifact::file_of(file)->Ok_0.metadata;
            let entries = rewrite::entries_of(file);
            &&& forall|i: int|
                0 <= i < entries.len() && (forall|j: int|
                    i < j < entries.len() ==> (#[trigger] entries[j]).0 != entries[i].0)
                    ==> said.dom().contains((#[trigger] entries[i]).0) && said[entries[i].0]
                    == entries[i].1
            &&& forall|key: Seq<char>| #[trigger]
                said.dom().contains(key) ==> exists|i: int|
                    0 <= i < entries.len() && (#[trigger] entries[i]).0 == key
        }),
{
    rewrite::law_declarations_rewritten(file);
    entries::law_last_entry_counts(rewrite::entries_of(file));
}

/// Of the metadata only `general.alignment` has a bearing on what tensor data
/// are aligned to.
pub proof fn law_other_keys(
    metadata: Map<Seq<char>, ValueView>,
    key: Seq<char>,
    value: ValueView,
)
    requires
        key != "general.alignment"@,
    ensures
        artifact::alignment_of(metadata.insert(key, value)) == artifact::alignment_of(metadata),
{
}

/// Two lists with the same items, whose names increase from each item to the
/// next, are the same list.
proof fn lemma_increasing_unique<T>(x: Seq<T>, y: Seq<T>, name: spec_fn(T) -> Seq<char>)
    requires
        forall|i: int, j: int|
            0 <= i < j < x.len() ==> order::name_lt(
                name(#[trigger] x[i]),
                name(#[trigger] x[j]),
            ),
        forall|i: int, j: int|
            0 <= i < j < y.len() ==> order::name_lt(
                name(#[trigger] y[i]),
                name(#[trigger] y[j]),
            ),
        forall|i: int| 0 <= i < x.len() ==> y.contains(#[trigger] x[i]),
        forall|i: int| 0 <= i < y.len() ==> x.contains(#[trigger] y[i]),
    ensures
        x == y,
    decreases x.len(),
{
    if x.len() == 0 {
        if y.len() > 0 {
            assert(x.contains(y[0]));
        }
        assert(x =~= y);
    } else {
        let (a, b) = (x.len() - 1, y.len() - 1);
        assert(y.contains(x[a]));
        let k = choose|k: int| 0 <= k < y.len() && y[k] == x[a];
        assert(x.contains(y[b]));
        let l = choose|l: int| 0 <= l < x.len() && x[l] == y[b];
        if k < b {
            assert(order::name_lt(name(y[k]), name(y[b])));
            order::lemma_name_lt_irreflexive(name(x[a]));
            if l < a {
                assert(order::name_lt(name(x[l]), name(x[a])));
                order::lemma_name_lt_transitive(name(x[a]), name(y[b]), name(x[a]));
            }
        }
        assert(x[a] == y[b]);
        let (shorter_x, shorter_y) = (x.drop_last(), y.drop_last());
        order::lemma_name_lt_irreflexive(name(x[a]));
        assert forall|i: int| 0 <= i < shorter_x.len() implies shorter_y.contains(
            #[trigger] shorter_x[i],
        ) by {
            assert(y.contains(x[i]));
            let j = choose|j: int| 0 <= j < y.len() && y[j] == x[i];
            assert(order::name_lt(name(x[i]), name(x[a])));
            assert(shorter_y[j] == shorter_x[i]);
        }
        assert forall|i: int| 0 <= i < shorter_y.len() implies shorter_x.contains(
            #[trigger] shorter_y[i],
        ) by {
            assert(x.contains(y[i]));
            let j = choose|j: int| 0 <= j < x.len() && x[j] == y[i];
            assert(order::name_lt(name(y[i]), name(y[b])));
            assert(shorter_x[j] == shorter_y[i]);
        }
        lemma_increasing_unique(shorter_x, shorter_y, name);
        assert(x =~= shorter_x.push(x[a]));
        assert(y =~= shorter_y.push(y[b]));
    }
}

proof fn lemma_arranged_unique(
    x: Seq<ModelTensorMetadata>,
    y: Seq<ModelTensorMetadata>,
    declared: Seq<TensorView>,
)
    requires
        inventory::arranged(x, declared),
        inventory::arranged(y, declared),
    ensures
        inventory::tensor_views(x) == inventory::tensor_views(y),
{
    let (a, b) = (inventory::tensor_views(x), inventory::tensor_views(y));
    let name = |tensor: TensorView| tensor.name;
    assert forall|i: int| 0 <= i < a.len() implies b.contains(#[trigger] a[i]) by {
        assert(a.contains(a[i]));
        vstd::seq_lib::to_multiset_contains(a, a[i]);
        vstd::seq_lib::to_multiset_contains(b, a[i]);
    }
    assert forall|i: int| 0 <= i < b.len() implies a.contains(#[trigger] b[i]) by {
        assert(b.contains(b[i]));
        vstd::seq_lib::to_multiset_contains(a, b[i]);
        vstd::seq_lib::to_multiset_contains(b, b[i]);
    }
    assert forall|i: int, j: int| 0 <= i < j < a.len() implies order::name_lt(
        name(#[trigger] a[i]),
        name(#[trigger] a[j]),
    ) by {
        assert(order::name_lt(x[i].name_view(), x[j].name_view()));
    }
    assert forall|i: int, j: int| 0 <= i < j < b.len() implies order::name_lt(
        name(#[trigger] b[i]),
        name(#[trigger] b[j]),
    ) by {
        assert(order::name_lt(y[i].name_view(), y[j].name_view()));
    }
    lemma_increasing_unique(a, b, name);
}

proof fn lemma_entry_in(x: MetadataMap, y: MetadataMap, i: int)
    requires
        x.wf(),
        y.wf(),
        x@ == y@,
        0 <= i < x.list().len(),
    ensures
        entries::entry_views(y.list()).contains(x.list()[i]@),
{
    let views = entries::entry_views(y.list());
    x.lemma_entries();
    y.lemma_entries();
    let key = x.list()[i].key@;
    assert(x@.dom().contains(key));
    assert(y@.dom().contains(key));
    let j = choose|j: int| 0 <= j < y.list().len() && (#[trigger] y.list()[j]).key@ == key;
    assert(views[j] == x.list()[i]@);
}

proof fn lemma_entries_unique(x: MetadataMap, y: MetadataMap)
    requires
        x.wf(),
        y.wf(),
        x@ == y@,
    ensures
        entries::entry_views(x.list()) == entries::entry_views(y.list()),
{
    let (a, b) = (entries::entry_views(x.list()), entries::entry_views(y.list()));
    let name = |entry: (Seq<char>, ValueView)| entry.0;
    assert forall|i: int| 0 <= i < a.len() implies b.contains(#[trigger] a[i]) by {
        lemma_entry_in(x, y, i);
    }
    assert forall|i: int| 0 <= i < b.len() implies a.contains(#[trigger] b[i]) by {
        lemma_entry_in(y, x, i);
    }
    assert forall|i: int, j: int| 0 <= i < j < a.len() implies order::name_lt(
        name(#[trigger] a[i]),
        name(#[trigger] a[j]),
    ) by {
        assert(order::name_lt(x.list()[i].name_view(), x.list()[j].name_view()));
    }
    assert forall|i: int, j: int| 0 <= i < j < b.len() implies order::name_lt(
        name(#[trigger] b[i]),
        name(#[trigger] b[j]),
    ) by {
        assert(order::name_lt(y.list()[i].name_view(), y.list()[j].name_view()));
    }
    lemma_increasing_unique(a, b, name);
}

/// There is one result for what a file says: any two artifacts that hold it
/// have the same tensors in the same order, the same metadata in the same
/// order, and the same start of the tensor data.
pub proof fn law_one_result(x: GgufArtifact, y: GgufArtifact, file: FileView)
    requires
        x.holds(file),
        y.holds(file),
    ensures
        inventory::tensor_views(x.tensors@) == inventory::tensor_views(y.tensors@),
        entries::entry_views(x.metadata.list()) == entries::entry_views(y.metadata.list()),
        x.tensor_data_start == y.tensor_data_start,
{
    lemma_arranged_unique(x.tensors@, y.tensors@, file.tensors);
    lemma_entries_unique(x.metadata, y.metadata);
}

/// Each tensor that a file declares is in the artifact, and no other is.
pub proof fn law_tensors_kept(artifact: GgufArtifact, file: FileView, tensor: TensorView)
    requires
        artifact.holds(file),
    ensures
        inventory::tensor_views(artifact.tensors@).contains(tensor) <==> file.tensors.contains(
            tensor,
        ),
        artifact.tensors@.len() == file.tensors.len(),
{
    let views = inventory::tensor_views(artifact.tensors@);
    vstd::seq_lib::to_multiset_contains(views, tensor);
    vstd::seq_lib::to_multiset_contains(file.tensors, tensor);
    vstd::seq_lib::to_multiset_len(views);
    vstd::seq_lib::to_multiset_len(file.tensors);
}

/// What a file comes to once its declarations are read: where `start` is the
/// first multiple of the alignment behind them, it must be in the range of 64
/// bits, then each tensor must be right, and then no two of them may overlap,
/// each at its offset behind `start`.
pub proof fn law_file_read(file: Seq<u8>, start: int)
    ensures
        artifact::declarations_of(file) matches Err(e) ==> artifact::file_of(file) == Err::<
            FileView,
            ErrorView,
        >(e),
        artifact::declarations_of(file) matches Ok((declarations, end)) ==> {
            let alignment = declarations.alignment;
            let read = artifact::file_of(file);
            start % alignment == 0 && end <= start < end + alignment ==> if start
                > 0xffff_ffff_ffff_ffff {
                read == Err::<FileView, ErrorView>(ErrorView::AlignmentOverflow)
            } else {
                match inventory::tensors_of(declarations.infos, file, alignment, start) {
                    Err(e) => read == Err::<FileView, ErrorView>(e),
                    Ok(tensors) => {
                        let ranges = Seq::new(
                            tensors.len(),
                            |i: int|
                                RangeView {
                                    start: start + tensors[i].offset_bytes->0,
                                    end: start + tensors[i].offset_bytes->0
                                        + tensors[i].size_bytes->0,
                                    name: tensors[i].name,
                                },
                        );
                        match range::overlap(ranges) {
                            Some((first, second)) => read == Err::<FileView, ErrorView>(
                                ErrorView::OverlappingRanges { first, second },
                            ),
                            None => {
                                &&& read matches Ok(said)
                                &&& said.tensors == tensors
                                &&& said.metadata == declarations.metadata
                                &&& said.tensor_data_start == start
                            },
                        }
                    },
                }
            }
        },
{
    if let Ok((declarations, end)) = artifact::declarations_of(file) {
        let alignment = declarations.alignment;
        if start % alignment == 0 && end <= start < end + alignment {
            let aligned = tensor::aligned_up(end, alignment);
            placement::law_align_up(end, alignment);
            placement::law_align_up_least(end, alignment, start);
            lemma_same_multiple(aligned, start, alignment);
            if let Ok(tensors) = inventory::tensors_of(declarations.infos, file, alignment, start) {
                assert(range::ranges_of(tensors, start) =~= Seq::new(
                    tensors.len(),
                    |i: int|
                        RangeView {
                            start: start + tensors[i].offset_bytes->0,
                            end: start + tensors[i].offset_bytes->0 + tensors[i].size_bytes->0,
                            name: tensors[i].name,
                        },
                ));
            }
        }
    }
}

/// Two multiples of a number that are less than it apart are the same.
proof fn lemma_same_multiple(a: int, b: int, step: int)
    requires
        0 < step,
        a % step == 0,
        b % step == 0,
        -step < a - b < step,
    ensures
        a == b,
{
    let (p, q) = (a / step, b / step);
    vstd::arithmetic::div_mod::lemma_fundamental_div_mod(a, step);
    vstd::arithmetic::div_mod::lemma_fundamental_div_mod(b, step);
    assert(p == q) by (nonlinear_arith)
        requires
            0 < step,
            a == step * p,
            b == step * q,
            -step < a - b < step,
    ;
}

/// The tensor data of an accepted file start at the first multiple, not before
/// the end of the declarations, of the number that `general.alignment` gives, or
/// of 32 where there is no such key.
pub proof fn law_data_start(file: Seq<u8>, artifact: GgufArtifact)
    requires
        artifact::file_of(file) is Ok,
        artifact.holds(artifact::file_of(file)->Ok_0),
    ensures
        ({
            let end = artifact::declarations_of(file)->Ok_0.1;
            let start = artifact.tensor_data_start as int;
            let key = "general.alignment"@;
            let first_multiple = |n: int|
                n > 0 && start % n == 0 && end <= start && start - n < end;
            &&& artifact.metadata@.dom().contains(key) ==> (
            artifact.metadata@[key] matches ValueView::UInt32(n) && n % 8 == 0 && first_multiple(n))
            &&& !artifact.metadata@.dom().contains(key) ==> first_multiple(32)
        }),
{
    placement::law_tensors_of_accepted_file(file);
    rewrite::law_declarations_writable(file);
    artifact::law_alignment(artifact::declarations_of(file)->Ok_0.0.metadata);
}

/// Each tensor of an artifact is as one of the declarations says, with all its
/// dimensions, in the type that the number stands for. The number of its bytes is
/// to that of its elements as the bytes of a block are to its elements, and they
/// lie inside the file. Nothing is said of a layout, a shard or a type to compute
/// in. It has the digest of its bytes just where it is not quantized.
pub proof fn law_parsed_tensor(file: Seq<u8>, artifact: GgufArtifact, k: int) -> (i: int)
    requires
        artifact::file_of(file) is Ok,
        artifact.holds(artifact::file_of(file)->Ok_0),
        0 <= k < artifact.tensors@.len(),
    ensures
        ({
            let infos = artifact::declarations_of(file)->Ok_0.0.infos;
            let info = infos[i];
            let tensor = artifact.tensors@[k];
            let layout = layout::layout_of(info.ggml_type)->0;
            &&& 0 <= i < infos.len()
            &&& tensor.name@ == info.name
            &&& tensor.shape@.len() == info.dimensions.len()
            &&& forall|m: int|
                0 <= m < info.dimensions.len() ==> #[trigger] tensor.shape@[m] == info.dimensions[m]
            &&& layout::layout_of(info.ggml_type) is Some
            &&& tensor.storage_dtype == layout.dtype
            &&& tensor.layout is None
            &&& tensor.shard is None
            &&& tensor.expected_compute_dtype is None
            &&& tensor.offset_bytes matches Some(offset) && offset == info.offset
            &&& tensor.size_bytes matches Some(size) && size * layout.block_elements
                == tensor::product(info.dimensions) * layout.block_bytes
            &&& tensor.offset_bytes->0 + tensor.size_bytes->0 + artifact.tensor_data_start
                <= file.len()
            &&& match (layout.quantization, tensor.quantization) {
                (None, None) => true,
                (Some(view), Some(quantization)) => {
                    &&& quantization.format == view.format
                    &&& quantization.group_size == view.group_size
                    &&& quantization.block_size == view.block_size
                    &&& quantization.scale_dtype == view.scale_dtype
                    &&& quantization.zero_point_dtype == view.zero_point_dtype
                    &&& quantization.per_channel == view.per_channel
                    &&& quantization.workspace_bytes == view.workspace_bytes
                    &&& quantization.required_capabilities@.len()
                        == view.required_capabilities.len()
                },
                _ => false,
            }
            &&& layout.quantization is Some ==> tensor.digest is None
            &&& layout.quantization is None ==> {
                let start = artifact.tensor_data_start + tensor.offset_bytes->0;
                let expected = digest::digest_of(
                    file.subrange(start, start + tensor.size_bytes->0),
                );
                &&& tensor.digest matches Some(digest)
                &&& digest.algorithm@ == expected.algorithm
                &&& digest.value@ == expected.value
            }
        }),
{
    let infos = artifact::declarations_of(file)->Ok_0.0.infos;
    let said = artifact::file_of(file)->Ok_0;
    let views = inventory::tensor_views(artifact.tensors@);
    placement::law_tensors_of_accepted_file(file);
    rewrite::law_declarations_writable(file);
    law_tensors_kept(artifact, said, views[k]);
    assert(views.contains(views[k]));
    let i = choose|i: int| 0 <= i < said.tensors.len() && said.tensors[i] == views[k];
    let info = infos[i];
    let tensor = artifact.tensors@[k];
    assert(tensor@ == said.tensors[i]);
    let (declarations, end) = artifact::declarations_of(file)->Ok_0;
    let start = said.tensor_data_start;
    inventory::lemma_tensors_of(infos, file, declarations.alignment, start);
    assert(tensor::tensor_of(infos[i], file, declarations.alignment, start) == Ok::<
        TensorView,
        ErrorView,
    >(said.tensors[i]));
    let layout = layout::layout_of(info.ggml_type)->0;
    let (count, e, b) = (
        tensor::product(info.dimensions),
        layout.block_elements,
        layout.block_bytes,
    );
    let size = tensor.size_bytes->0 as int;
    vstd::arithmetic::div_mod::lemma_fundamental_div_mod(count, e);
    let blocks = count / e;
    assert(size * e == count * b) by (nonlinear_arith)
        requires
            count == e * blocks,
            size == blocks * b,
    ;
    assert forall|m: int| 0 <= m < info.dimensions.len() implies #[trigger] tensor.shape@[m]
        == info.dimensions[m] by {
        assert(tensor@.shape[m] == info.dimensions[m]);
    }
    i
}

/// There is a tensor in the artifact for each declaration, and as many as there
/// are declarations.
pub proof fn law_parsed_declaration(file: Seq<u8>, artifact: GgufArtifact, i: int) -> (k: int)
    requires
        artifact::file_of(file) is Ok,
        artifact.holds(artifact::file_of(file)->Ok_0),
        0 <= i < artifact::declarations_of(file)->Ok_0.0.infos.len(),
    ensures
        0 <= k < artifact.tensors@.len(),
        artifact.tensors@[k].name@ == artifact::declarations_of(file)->Ok_0.0.infos[i].name,
        artifact.tensors@.len() == artifact::declarations_of(file)->Ok_0.0.infos.len(),
{
    let said = artifact::file_of(file)->Ok_0;
    let views = inventory::tensor_views(artifact.tensors@);
    placement::law_tensors_of_accepted_file(file);
    law_tensors_kept(artifact, said, said.tensors[i]);
    assert(said.tensors.contains(said.tensors[i]));
    let k = choose|k: int| 0 <= k < views.len() && views[k] == said.tensors[i];
    assert(views[k] == artifact.tensors@[k]@);
    k
}

/// The tensors of an artifact come in the order of the UTF-8 bytes of their
/// names, of which no two are the same: at the first place where two names
/// differ, the one that comes first ends, or has the smaller byte.
pub proof fn law_tensors_by_name(
    file: Seq<u8>,
    artifact: GgufArtifact,
    i: int,
    j: int,
) -> (k: int)
    requires
        artifact::file_of(file) is Ok,
        artifact.holds(artifact::file_of(file)->Ok_0),
        0 <= i < j < artifact.tensors@.len(),
    ensures
        ({
            let x = vstd::utf8::encode_utf8(artifact.tensors@[i].name@);
            let y = vstd::utf8::encode_utf8(artifact.tensors@[j].name@);
            &&& 0 <= k <= x.len()
            &&& k < y.len()
            &&& x.take(k) == y.take(k)
            &&& k == x.len() || x[k] < y[k]
        }),
{
    let (a, b) = (artifact.tensors@[i].name@, artifact.tensors@[j].name@);
    assert(order::name_lt(artifact.tensors@[i].name_view(), artifact.tensors@[j].name_view()));
    lemma_first_difference(a, b)
}

/// The metadata of an artifact come in the order of the UTF-8 bytes of their
/// keys, of which no two are the same.
pub proof fn law_metadata_by_key(metadata: MetadataMap, i: int, j: int) -> (k: int)
    requires
        metadata.wf(),
        0 <= i < j < metadata.list().len(),
    ensures
        ({
            let x = vstd::utf8::encode_utf8(metadata.list()[i].key@);
            let y = vstd::utf8::encode_utf8(metadata.list()[j].key@);
            &&& 0 <= k <= x.len()
            &&& k < y.len()
            &&& x.take(k) == y.take(k)
            &&& k == x.len() || x[k] < y[k]
        }),
{
    assert(order::name_lt(metadata.list()[i].name_view(), metadata.list()[j].name_view()));
    lemma_first_difference(metadata.list()[i].key@, metadata.list()[j].key@)
}

proof fn lemma_first_difference(a: Seq<char>, b: Seq<char>) -> (k: int)
    requires
        order::name_lt(a, b),
    ensures
        ({
            let (x, y) = (vstd::utf8::encode_utf8(a), vstd::utf8::encode_utf8(b));
            &&& 0 <= k <= x.len()
            &&& k < y.len()
            &&& x.take(k) == y.take(k)
            &&& k == x.len() || x[k] < y[k]
        }),
{
    order::law_name_order(a, b);
    let (x, y) = (vstd::utf8::encode_utf8(a), vstd::utf8::encode_utf8(b));
    choose|k: int|
        {
            &&& 0 <= k <= x.len()
            &&& k < y.len()
            &&& #[trigger] x.take(k) =~= y.take(k)
            &&& k == x.len() || x[k] < y[k]
        }
}

/// Each value that an artifact keeps is the one in the list of its metadata
/// under that key, and there is one for each key.
pub proof fn law_metadata_listed(metadata: MetadataMap, key: Seq<char>)
    requires
        metadata.wf(),
    ensures
        metadata@.dom().contains(key) <==> exists|i: int|
            0 <= i < metadata.list().len() && (#[trigger] metadata.list()[i]).key@ == key,
        forall|i: int|
            0 <= i < metadata.list().len() && (#[trigger] metadata.list()[i]).key@ == key
                ==> metadata@[key] == metadata.list()[i].value@,
{
    metadata.lemma_entries();
}

/// The bytes of any two tensors of an artifact are apart: one of them ends
/// before the other starts.
pub proof fn law_tensors_apart(file: Seq<u8>, artifact: GgufArtifact, i: int, j: int)
    requires
        artifact::file_of(file) is Ok,
        artifact.holds(artifact::file_of(file)->Ok_0),
        0 <= i < j < artifact.tensors@.len(),
    ensures
        ({
            let (a, b) = (artifact.tensors@[i], artifact.tensors@[j]);
            &&& a.offset_bytes is Some && a.size_bytes is Some
            &&& b.offset_bytes is Some && b.size_bytes is Some
            &&& a.offset_bytes->0 + a.size_bytes->0 <= b.offset_bytes->0 || b.offset_bytes->0
                + b.size_bytes->0 <= a.offset_bytes->0
        }),
{
    let said = artifact::file_of(file)->Ok_0;
    let views = inventory::tensor_views(artifact.tensors@);
    placement::law_tensors_of_accepted_file(file);
    law_tensors_kept(artifact, said, views[i]);
    law_tensors_kept(artifact, said, views[j]);
    assert(views.contains(views[i]) && views.contains(views[j]));
    let p = choose|p: int| 0 <= p < said.tensors.len() && said.tensors[p] == views[i];
    let q = choose|q: int| 0 <= q < said.tensors.len() && said.tensors[q] == views[j];
    assert(order::name_lt(artifact.tensors@[i].name_view(), artifact.tensors@[j].name_view()));
    order::lemma_name_lt_irreflexive(artifact.tensors@[i].name@);
    let ranges = range::ranges_of(said.tensors, said.tensor_data_start);
    assert(p != q);
    if p < q {
        assert(overlap::apart(ranges[p], ranges[q]));
    } else {
        assert(overlap::apart(ranges[q], ranges[p]));
    }
}

/// An artifact keeps the metadata that the file declares.
pub proof fn law_parsed_metadata(file: Seq<u8>, artifact: GgufArtifact)
    requires
        artifact::file_of(file) is Ok,
        artifact.holds(artifact::file_of(file)->Ok_0),
    ensures
        artifact.metadata.wf(),
        artifact.metadata@ == artifact::declarations_of(file)->Ok_0.0.metadata,
{
}

} // verus!
