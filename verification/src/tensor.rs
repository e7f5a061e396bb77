//! The tensor section of a file: how tensors are declared, and where they lie.

use crate::cursor;
use crate::cursor::Cursor;
use crate::digest;
use crate::digest::ModelDigest;
use crate::error::{ErrorView, GgufError};
use crate::layout;
use crate::model;
use crate::model::{ModelTensorMetadata, TensorView};
use crate::sort::Ranked;
use vstd::prelude::*;

verus! {

/// How many bytes the name of a tensor may have.
pub const MAX_TENSOR_NAME_BYTES: usize = 64;

/// How many dimensions a tensor may have. Files in use have up to four; more
/// are read, but not without bound.
pub const MAX_DIMENSIONS: u32 = 8;

/// A tensor as the file declares it.
pub struct TensorInfo {
    pub name: String,
    pub dimensions: Vec<u64>,
    pub ggml_type: u32,
    pub offset: u64,
}

/// The mathematical content of a [`TensorInfo`].
pub struct InfoView {
    pub name: Seq<char>,
    pub dimensions: Seq<int>,
    pub ggml_type: int,
    pub offset: int,
}

impl View for TensorInfo {
    type V = InfoView;

    open spec fn view(&self) -> InfoView {
        InfoView {
            name: self.name@,
            dimensions: model::ints(self.dimensions@),
            ggml_type: self.ggml_type as int,
            offset: self.offset as int,
        }
    }
}

impl Ranked for TensorInfo {
    open spec fn rank(&self) -> (int, Seq<char>) {
        (0, self.name@)
    }

    fn rank_number(&self) -> (number: u64) {
        0
    }

    fn rank_name(&self) -> (name: &str) {
        self.name.as_str()
    }
}

/// How many bytes `name` takes in UTF-8.
pub open spec fn byte_length(name: Seq<char>) -> int {
    vstd::utf8::encode_utf8(name).len() as int
}

/// What a dimension is, at each position.
pub open spec fn dimension_reader(file: Seq<u8>) -> spec_fn(int) -> cursor::Parsed<int> {
    |pos: int| cursor::uint_at(file, pos, 8)
}

/// What follows the name of a tensor and the number of its dimensions.
pub open spec fn info_rest_at(file: Seq<u8>, pos: int, name: Seq<char>, n_dimensions: nat) -> cursor::Parsed<
    InfoView,
> {
    match cursor::repeat_at(dimension_reader(file), pos, n_dimensions) {
        Ok((dimensions, pos)) => match cursor::uint_at(file, pos, 4) {
            Ok((ggml_type, pos)) => match cursor::uint_at(file, pos, 8) {
                Ok((offset, pos)) => Ok((InfoView { name, dimensions, ggml_type, offset }, pos)),
                Err(e) => Err(e),
            },
            Err(e) => Err(e),
        },
        Err(e) => Err(e),
    }
}

/// The declaration of a tensor at `pos`.
pub open spec fn info_at(file: Seq<u8>, pos: int) -> cursor::Parsed<InfoView> {
    match cursor::string_at(file, pos) {
        Ok((name, pos)) => if byte_length(name) > MAX_TENSOR_NAME_BYTES {
            Err(ErrorView::TensorNameTooLong { name_length: byte_length(name) })
        } else {
            match cursor::uint_at(file, pos, 4) {
                Ok((n, pos)) => if n > MAX_DIMENSIONS {
                    Err(ErrorView::TooManyDimensions { name, found: n })
                } else {
                    info_rest_at(file, pos, name, n as nat)
                },
                Err(e) => Err(e),
            }
        },
        Err(e) => Err(e),
    }
}

/// What the declaration of a tensor is, at each position.
pub open spec fn info_reader(file: Seq<u8>) -> spec_fn(int) -> cursor::Parsed<InfoView> {
    |pos: int| info_at(file, pos)
}

/// Reads `count` dimensions.
fn read_dimensions(cursor: &mut Cursor<'_>, count: u32) -> (result: Result<Vec<u64>, GgufError>)
    requires
        old(cursor).wf(),
    ensures
        final(cursor).continues(*old(cursor)),
        match cursor::repeat_at(
            dimension_reader(old(cursor).file()),
            old(cursor).pos(),
            count as nat,
        ) {
            Ok((expected, next)) => {
                &&& result matches Ok(dimensions) && model::ints(dimensions@) == expected
                &&& final(cursor).pos() == next
            },
            Err(e) => result matches Err(error) && error@ == e,
        },
{
    let ghost file = cursor.file();
    let ghost item = dimension_reader(file);
    let ghost whole = cursor::repeat_at(item, cursor.pos(), count as nat);
    let mut dimensions: Vec<u64> = Vec::new();
    let mut left: u32 = count;
    assert(model::ints(dimensions@) == Seq::<int>::empty());
    while left > 0
        invariant
            cursor.continues(*old(cursor)),
            cursor.file() == file,
            item == dimension_reader(file),
            whole == cursor::repeat_at(item, old(cursor).pos(), count as nat),
            match cursor::repeat_at(item, cursor.pos(), left as nat) {
                Ok((others, end)) => whole == Ok::<(Seq<int>, int), ErrorView>(
                    (model::ints(dimensions@) + others, end),
                ),
                Err(e) => whole == Err::<(Seq<int>, int), ErrorView>(e),
            },
        decreases left,
    {
        let ghost before = model::ints(dimensions@);
        assert(item(cursor.pos()) == cursor::uint_at(file, cursor.pos(), 8));
        let dimension: u64 = cursor.read_u64_le()?;
        dimensions.push(dimension);
        left = left - 1;
        proof {
            assert(model::ints(dimensions@) == before.push(dimension as int));
            assert(forall|others: Seq<int>|
                before + (seq![dimension as int] + others) == before.push(dimension as int)
                    + others);
        }
    }
    Ok(dimensions)
}

/// Reads the declaration of a tensor.
pub(crate) fn read_tensor_info(cursor: &mut Cursor<'_>) -> (result: Result<TensorInfo, GgufError>)
    requires
        old(cursor).wf(),
    ensures
        final(cursor).continues(*old(cursor)),
        match info_at(old(cursor).file(), old(cursor).pos()) {
            Ok((expected, next)) => {
                &&& result matches Ok(info) && info@ == expected
                &&& final(cursor).pos() == next
            },
            Err(e) => result matches Err(error) && error@ == e,
        },
{
    let name = cursor.read_string()?;
    let name_length: usize = name.as_str().as_bytes().len();
    if name_length > MAX_TENSOR_NAME_BYTES {
        return Err(GgufError::TensorNameTooLong { name_length });
    }
    let n_dimensions: u32 = cursor.read_u32_le()?;
    if n_dimensions > MAX_DIMENSIONS {
        return Err(GgufError::TooManyDimensions { name, found: n_dimensions });
    }
    let dimensions = read_dimensions(cursor, n_dimensions)?;
    let ggml_type: u32 = cursor.read_u32_le()?;
    let offset: u64 = cursor.read_u64_le()?;
    Ok(TensorInfo { name, dimensions, ggml_type, offset })
}

/// The least multiple of `alignment` that is not below `position`.
pub open spec fn aligned_up(position: int, alignment: int) -> int {
    (position + alignment - 1) / alignment * alignment
}

/// Rounds `position` up to a multiple of `alignment`.
pub fn align_up(position: u64, alignment: u64) -> (result: Result<u64, GgufError>)
    requires
        alignment != 0,
    ensures
        if aligned_up(position as int, alignment as int) <= u64::MAX {
            result matches Ok(aligned) && aligned == aligned_up(position as int, alignment as int)
        } else {
            result matches Err(error) && error@ == ErrorView::AlignmentOverflow
        },
{
    let remainder: u64 = position % alignment;
    proof {
        let (p, a) = (position as int, alignment as int);
        let (q, r) = (p / a, p % a);
        vstd::arithmetic::div_mod::lemma_fundamental_div_mod(p, a);
        assert(q * a == a * q) by (nonlinear_arith);
        if r == 0 {
            vstd::arithmetic::div_mod::lemma_fundamental_div_mod_converse(p + a - 1, a, q, a - 1);
        } else {
            assert((q + 1) * a == q * a + a) by (nonlinear_arith);
            vstd::arithmetic::div_mod::lemma_fundamental_div_mod_converse(
                p + a - 1,
                a,
                q + 1,
                r - 1,
            );
        }
    }
    if remainder == 0 {
        return Ok(position);
    }
    match position.checked_add(alignment - remainder) {
        Some(aligned) => Ok(aligned),
        None => Err(GgufError::AlignmentOverflow),
    }
}

/// The product of `factors`.
pub open spec fn product(factors: Seq<int>) -> int
    decreases factors.len(),
{
    if factors.len() == 0 {
        1
    } else {
        product(factors.drop_last()) * factors.last()
    }
}

/// The product of some of the first `factors` is too large for 64 bits.
pub open spec fn product_overflows(factors: Seq<int>) -> bool {
    exists|k: int| 0 <= k <= factors.len() && product(#[trigger] factors.take(k)) > u64::MAX
}

/// A product of numbers that are not negative is not negative.
pub proof fn lemma_product_not_negative(factors: Seq<int>)
    requires
        forall|k: int| 0 <= k < factors.len() ==> 0 <= #[trigger] factors[k],
    ensures
        0 <= product(factors),
    decreases factors.len(),
{
    if factors.len() > 0 {
        let fewer = factors.drop_last();
        assert forall|k: int| 0 <= k < fewer.len() implies 0 <= #[trigger] fewer[k] by {
            assert(fewer[k] == factors[k]);
        }
        lemma_product_not_negative(fewer);
        let (a, b) = (product(fewer), factors.last());
        assert(0 <= a * b) by (nonlinear_arith)
            requires
                0 <= a,
                0 <= b,
        ;
    }
}

/// How many elements a tensor with these dimensions has, unless multiplying
/// them in turn leaves the range of 64 bits.
fn element_count(dimensions: &Vec<u64>) -> (result: Option<u64>)
    ensures
        match result {
            Some(count) => {
                &&& !product_overflows(model::ints(dimensions@))
                &&& count == product(model::ints(dimensions@))
            },
            None => product_overflows(model::ints(dimensions@)),
        },
{
    let ghost factors = model::ints(dimensions@);
    let mut count: u64 = 1;
    let mut i: usize = 0;
    while i < dimensions.len()
        invariant
            factors == model::ints(dimensions@),
            i <= dimensions@.len(),
            count == product(factors.take(i as int)),
            forall|k: int| 0 <= k <= i ==> product(#[trigger] factors.take(k)) <= u64::MAX,
        decreases dimensions@.len() - i,
    {
        proof {
            assert(factors.take(i + 1).drop_last() == factors.take(i as int));
            assert(factors.take(i + 1).last() == dimensions@[i as int]);
        }
        match count.checked_mul(dimensions[i]) {
            Some(larger) => {
                count = larger;
            },
            None => {
                assert(product(factors.take(i + 1)) > u64::MAX);
                return None;
            },
        }
        i = i + 1;
    }
    assert(factors.take(i as int) == factors);
    Some(count)
}

/// The tensor that `info` declares, in a file whose tensor data start at
/// `data_start`.
pub open spec fn tensor_of(
    info: InfoView,
    file: Seq<u8>,
    alignment: int,
    data_start: int,
) -> Result<TensorView, ErrorView> {
    let name = info.name;
    if info.offset % alignment != 0 {
        Err(ErrorView::OffsetNotAligned { name, offset: info.offset, alignment })
    } else {
        match layout::layout_of(info.ggml_type) {
            None => Err(ErrorView::UnsupportedGgmlType { name, ggml_type: info.ggml_type }),
            Some(layout) => {
                let element_count = product(info.dimensions);
                let size = element_count / layout.block_elements * layout.block_bytes;
                let start = data_start + info.offset;
                let end = start + size;
                if product_overflows(info.dimensions) {
                    Err(ErrorView::ElementCountOverflow { name })
                } else if element_count % layout.block_elements != 0 {
                    Err(
                        ErrorView::ElementCountNotBlockAligned {
                            name,
                            element_count,
                            block_elements: layout.block_elements,
                        },
                    )
                } else if end > u64::MAX {
                    Err(ErrorView::ByteSizeOverflow { name })
                } else if end > file.len() {
                    Err(ErrorView::ByteRangeOutOfBounds { name, start, end })
                } else {
                    Ok(
                        TensorView {
                            name,
                            shape: info.dimensions,
                            storage_dtype: layout.dtype,
                            layout: None,
                            shard: None,
                            offset_bytes: Some(info.offset),
                            size_bytes: Some(size),
                            quantization: layout.quantization,
                            expected_compute_dtype: None,
                            digest: if layout.quantization is None {
                                Some(digest::digest_of(file.subrange(start, end)))
                            } else {
                                None
                            },
                        },
                    )
                }
            },
        }
    }
}

/// Works out the tensor that `info` declares.
pub fn resolve_tensor(info: &TensorInfo, bytes: &[u8], alignment: u64, data_start: u64) -> (result:
    Result<ModelTensorMetadata, GgufError>)
    requires
        alignment != 0,
    ensures
        match tensor_of(info@, bytes@, alignment as int, data_start as int) {
            Ok(expected) => result matches Ok(tensor) && tensor@ == expected,
            Err(e) => result matches Err(error) && error@ == e,
        },
{
    let length: usize = bytes.len();
    if info.offset % alignment != 0 {
        return Err(
            GgufError::OffsetNotAligned { name: info.name.clone(), offset: info.offset, alignment },
        );
    }
    let layout = match layout::dtype_layout_for_ggml_type(info.ggml_type) {
        Some(layout) => layout,
        None => {
            return Err(
                GgufError::UnsupportedGgmlType {
                    name: info.name.clone(),
                    ggml_type: info.ggml_type,
                },
            );
        },
    };
    let element_count: u64 = match element_count(&info.dimensions) {
        Some(count) => count,
        None => {
            return Err(GgufError::ElementCountOverflow { name: info.name.clone() });
        },
    };
    if element_count % layout.block_elements != 0 {
        return Err(
            GgufError::ElementCountNotBlockAligned {
                name: info.name.clone(),
                element_count,
                block_elements: layout.block_elements,
            },
        );
    }
    let block_count: u64 = element_count / layout.block_elements;
    proof {
        assert(0 <= block_count * layout.block_bytes) by (nonlinear_arith);
    }
    let byte_size: u64 = match block_count.checked_mul(layout.block_bytes) {
        Some(size) => size,
        None => {
            return Err(GgufError::ByteSizeOverflow { name: info.name.clone() });
        },
    };
    let start: u64 = match data_start.checked_add(info.offset) {
        Some(start) => start,
        None => {
            return Err(GgufError::ByteSizeOverflow { name: info.name.clone() });
        },
    };
    let end: u64 = match start.checked_add(byte_size) {
        Some(end) => end,
        None => {
            return Err(GgufError::ByteSizeOverflow { name: info.name.clone() });
        },
    };
    if end > length as u64 {
        return Err(GgufError::ByteRangeOutOfBounds { name: info.name.clone(), start, end });
    }
    let digest = match &layout.quantization {
        None => Some(
            ModelDigest::sha256(vstd::slice::slice_subrange(bytes, start as usize, end as usize)),
        ),
        Some(_) => None,
    };
    Ok(
        ModelTensorMetadata {
            name: info.name.clone(),
            shape: info.dimensions.clone(),
            storage_dtype: layout.dtype,
            layout: None,
            shard: None,
            offset_bytes: Some(info.offset),
            size_bytes: Some(byte_size),
            quantization: layout.quantization,
            expected_compute_dtype: None,
            digest,
        },
    )
}

/// No dimensions make one element, and one dimension more makes that many times
/// as many. So the count is the product of all dimensions, in whatever way they
/// are split.
pub proof fn law_element_count(dimensions: Seq<int>, more: Seq<int>, n: int)
    ensures
        product(Seq::<int>::empty()) == 1,
        product(dimensions.push(n)) == product(dimensions) * n,
        product(dimensions + more) == product(dimensions) * product(more),
        product(seq![n]) == n,
    decreases more.len(),
{
    assert(dimensions.push(n).drop_last() =~= dimensions);
    let none = Seq::<int>::empty();
    assert(seq![n] =~= none.push(n));
    assert(none.push(n).drop_last() =~= none);
    if more.len() == 0 {
        assert(dimensions + more =~= dimensions);
    } else {
        let (fewer, last) = (more.drop_last(), more.last());
        law_element_count(dimensions, fewer, n);
        assert((dimensions + more).drop_last() =~= dimensions + fewer);
        assert((dimensions + more).last() == last);
        let (a, b) = (product(dimensions), product(fewer));
        assert(a * b * last == a * (b * last)) by (nonlinear_arith);
    }
}

/// Counting overflows just where it has overflowed before the last dimension or
/// does with it, even where a later dimension is zero.
pub proof fn law_element_count_overflow(dimensions: Seq<int>, n: int)
    ensures
        !product_overflows(Seq::<int>::empty()),
        product_overflows(dimensions.push(n)) <==> product_overflows(dimensions) || product(
            dimensions,
        ) * n > 0xffff_ffff_ffff_ffff,
{
    let none = Seq::<int>::empty();
    assert forall|k: int| 0 <= k <= none.len() implies product(#[trigger] none.take(k)) <= u64::MAX by {
        assert(none.take(k) =~= none);
    }
    let longer = dimensions.push(n);
    let count = dimensions.len() as int;
    law_element_count(dimensions, none, n);
    assert(longer.take(count + 1) =~= longer);
    if product_overflows(longer) {
        let k = choose|k: int|
            0 <= k <= longer.len() && product(#[trigger] longer.take(k)) > u64::MAX;
        if k <= count {
            assert(longer.take(k) =~= dimensions.take(k));
            assert(product(dimensions.take(k)) > u64::MAX);
        }
    }
    if product_overflows(dimensions) {
        let k = choose|k: int|
            0 <= k <= dimensions.len() && product(#[trigger] dimensions.take(k)) > u64::MAX;
        assert(longer.take(k) =~= dimensions.take(k));
        assert(product(longer.take(k)) > u64::MAX);
    }
    if product(dimensions) * n > u64::MAX {
        assert(product(longer.take(count + 1)) > u64::MAX);
    }
}

/// Dimensions are numbers of eight bytes, one behind the other.
proof fn lemma_dimensions(file: Seq<u8>, pos: int, count: nat)
    requires
        0 <= pos <= file.len(),
    ensures
        match cursor::repeat_at(dimension_reader(file), pos, count) {
            Ok((dimensions, next)) => {
                &&& pos + 8 * count <= file.len()
                &&& next == pos + 8 * count
                &&& dimensions.len() == count
                &&& forall|k: int|
                    0 <= k < count ==> #[trigger] dimensions[k] == cursor::le_value(
                        file.subrange(pos + 8 * k, pos + 8 * k + 8),
                    )
            },
            Err(e) => pos + 8 * count > file.len() && e == (ErrorView::UnexpectedEof {
                at: pos + 8 * ((file.len() - pos) / 8),
                needed: 8,
            }),
        },
    decreases count,
{
    if count > 0 {
        let item = dimension_reader(file);
        assert(item(pos) == cursor::uint_at(file, pos, 8));
        if pos + 8 <= file.len() {
            lemma_dimensions(file, pos + 8, (count - 1) as nat);
            if let Ok((others, _)) = cursor::repeat_at(item, pos + 8, (count - 1) as nat) {
                let first = cursor::le_value(file.subrange(pos, pos + 8)) as int;
                let dimensions = seq![first] + others;
                assert forall|k: int| 0 <= k < count implies #[trigger] dimensions[k]
                    == cursor::le_value(file.subrange(pos + 8 * k, pos + 8 * k + 8)) by {
                    if k > 0 {
                        assert(dimensions[k] == others[k - 1]);
                    }
                }
            }
        }
    }
}

/// What the declaration of a tensor is: a name of at most 64 bytes, the number
/// of its dimensions in four bytes, which is at most 8, the dimensions in eight
/// bytes each, the type in four and the offset in eight. The first thing that is
/// wrong or missing is what it is rejected for.
pub proof fn law_info_read(file: Seq<u8>, pos: int)
    requires
        0 <= pos <= file.len(),
    ensures
        match cursor::string_at(file, pos) {
            Err(e) => info_at(file, pos) == Err::<(InfoView, int), ErrorView>(e),
            Ok((name, p)) => {
                let read = info_at(file, pos);
                let length = vstd::utf8::encode_utf8(name).len();
                let n = cursor::le_value(file.subrange(p, p + 4));
                let d = p + 4;
                let t = d + 8 * n;
                let end = t + 12;
                let missing = |at: int, needed: int|
                    read == Err::<(InfoView, int), ErrorView>(
                        ErrorView::UnexpectedEof { at, needed },
                    );
                if length > 64 {
                    read == Err::<(InfoView, int), ErrorView>(
                        ErrorView::TensorNameTooLong { name_length: length as int },
                    )
                } else if d > file.len() {
                    missing(p, 4)
                } else if n > 8 {
                    read == Err::<(InfoView, int), ErrorView>(
                        ErrorView::TooManyDimensions { name, found: n as int },
                    )
                } else if t > file.len() {
                    missing(d + 8 * ((file.len() - d) / 8), 8)
                } else if t + 4 > file.len() {
                    missing(t, 4)
                } else if end > file.len() {
                    missing(t + 4, 8)
                } else {
                    &&& read matches Ok((info, next))
                    &&& next == end
                    &&& info.name == name
                    &&& info.dimensions.len() == n
                    &&& forall|k: int|
                        0 <= k < n ==> #[trigger] info.dimensions[k] == cursor::le_value(
                            file.subrange(d + 8 * k, d + 8 * k + 8),
                        )
                    &&& info.ggml_type == cursor::le_value(file.subrange(t, t + 4))
                    &&& info.offset == cursor::le_value(file.subrange(t + 4, t + 12))
                }
            },
        },
{
    if let Ok((name, p)) = cursor::string_at(file, pos) {
        if p + 4 <= file.len() {
            let n = cursor::le_value(file.subrange(p, p + 4));
            lemma_dimensions(file, p + 4, n);
        }
    }
}

/// A tensor is rejected, in this order, where its offset is not a multiple of
/// the alignment, its type is not known, its elements cannot be counted, or they
/// do not fill whole blocks.
pub proof fn law_tensor_rejected(info: InfoView, file: Seq<u8>, alignment: int, data_start: int)
    ensures
        ({
            let read = tensor_of(info, file, alignment, data_start);
            let name = info.name;
            let count = product(info.dimensions);
            if info.offset % alignment != 0 {
                read == Err::<TensorView, ErrorView>(
                    ErrorView::OffsetNotAligned { name, offset: info.offset, alignment },
                )
            } else if layout::layout_of(info.ggml_type) is None {
                read == Err::<TensorView, ErrorView>(
                    ErrorView::UnsupportedGgmlType { name, ggml_type: info.ggml_type },
                )
            } else if product_overflows(info.dimensions) {
                read == Err::<TensorView, ErrorView>(ErrorView::ElementCountOverflow { name })
            } else {
                let block = layout::layout_of(info.ggml_type)->0.block_elements;
                count % block != 0 ==> read == Err::<TensorView, ErrorView>(
                    ErrorView::ElementCountNotBlockAligned {
                        name,
                        element_count: count,
                        block_elements: block,
                    },
                )
            }
        }),
{
}

/// A tensor whose offset is aligned and whose elements fill whole blocks takes
/// as many bytes for its elements as a block takes for those in it, from its
/// offset behind the start of the tensor data on. It is rejected where they end
/// beyond 64 bits or beyond the file. Otherwise it is as declared: nothing is
/// said of a layout, a shard or a type to compute in, and it has the digest of
/// its bytes just where it is not quantized.
pub proof fn law_tensor_resolved(
    info: InfoView,
    file: Seq<u8>,
    alignment: int,
    data_start: int,
    size: int,
)
    requires
        info.offset % alignment == 0,
        layout::layout_of(info.ggml_type) is Some,
        !product_overflows(info.dimensions),
        size * layout::layout_of(info.ggml_type)->0.block_elements == product(info.dimensions)
            * layout::layout_of(info.ggml_type)->0.block_bytes,
        product(info.dimensions) % layout::layout_of(info.ggml_type)->0.block_elements == 0,
    ensures
        ({
            let read = tensor_of(info, file, alignment, data_start);
            let layout = layout::layout_of(info.ggml_type)->0;
            let name = info.name;
            let start = data_start + info.offset;
            let end = start + size;
            if end > 0xffff_ffff_ffff_ffff {
                read == Err::<TensorView, ErrorView>(ErrorView::ByteSizeOverflow { name })
            } else if end > file.len() {
                read == Err::<TensorView, ErrorView>(
                    ErrorView::ByteRangeOutOfBounds { name, start, end },
                )
            } else {
                &&& read matches Ok(tensor)
                &&& tensor.name == name
                &&& tensor.shape == info.dimensions
                &&& tensor.storage_dtype == layout.dtype
                &&& tensor.layout is None
                &&& tensor.shard is None
                &&& tensor.offset_bytes == Some(info.offset)
                &&& tensor.size_bytes == Some(size)
                &&& tensor.quantization == layout.quantization
                &&& tensor.expected_compute_dtype is None
                &&& layout.quantization is Some ==> tensor.digest is None
                &&& layout.quantization is None ==> tensor.digest == Some(
                    digest::digest_of(file.subrange(start, end)),
                )
            }
        }),
{
    let layout = layout::layout_of(info.ggml_type)->0;
    let (count, e, b) = (product(info.dimensions), layout.block_elements, layout.block_bytes);
    assert(e > 0);
    let blocks = count / e;
    vstd::arithmetic::div_mod::lemma_fundamental_div_mod(count, e);
    assert(size == blocks * b) by (nonlinear_arith)
        requires
            count == e * blocks,
            size * e == count * b,
            e > 0,
    ;
}

/// The content of a declaration is all that it holds.
pub proof fn law_info_content(info: TensorInfo)
    ensures
        info@.name == info.name@,
        info@.dimensions.len() == info.dimensions@.len(),
        forall|k: int|
            0 <= k < info.dimensions@.len() ==> #[trigger] info@.dimensions[k]
                == info.dimensions@[k],
        info@.ggml_type == info.ggml_type,
        info@.offset == info.offset,
{
}

} // verus!
