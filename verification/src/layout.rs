//! How the elements of each `ggml_type` are stored.

use crate::model;
use crate::model::{ModelDType, ModelQuantization, ModelQuantizationFormat, QuantizationView};
use vstd::prelude::*;

verus! {

/// How the elements of a tensor are stored: in blocks of `block_elements`
/// elements, each of `block_bytes` bytes. An element that is not quantized is
/// a block by itself.
pub struct DTypeLayout {
    pub dtype: ModelDType,
    pub quantization: Option<ModelQuantization>,
    pub block_elements: u64,
    pub block_bytes: u64,
}

/// The mathematical content of a [`DTypeLayout`].
pub struct LayoutView {
    pub dtype: ModelDType,
    pub quantization: Option<QuantizationView>,
    pub block_elements: int,
    pub block_bytes: int,
}

impl View for DTypeLayout {
    type V = LayoutView;

    open spec fn view(&self) -> LayoutView {
        LayoutView {
            dtype: self.dtype,
            quantization: model::option_view(self.quantization),
            block_elements: self.block_elements as int,
            block_bytes: self.block_bytes as int,
        }
    }
}

/// The layout of elements of `width` bytes each.
pub open spec fn plain_layout(dtype: ModelDType, width: int) -> LayoutView {
    LayoutView { dtype, quantization: None, block_elements: 1, block_bytes: width }
}

/// The layout of elements that are quantized in blocks.
pub open spec fn block_layout(
    dtype: ModelDType,
    format: ModelQuantizationFormat,
    block_elements: u32,
    block_bytes: u32,
) -> LayoutView {
    LayoutView {
        dtype,
        quantization: Some(
            QuantizationView {
                format,
                group_size: Some(block_elements),
                block_size: Some(block_bytes),
                scale_dtype: Some(ModelDType::F16),
                zero_point_dtype: None,
                per_channel: false,
                workspace_bytes: None,
                required_capabilities: Seq::empty(),
            },
        ),
        block_elements: block_elements as int,
        block_bytes: block_bytes as int,
    }
}

/// The layout of each `ggml_type` that is supported.
pub open spec fn layout_of(ggml_type: int) -> Option<LayoutView> {
    if ggml_type == 0 {
        Some(plain_layout(ModelDType::F32, 4))
    } else if ggml_type == 1 {
        Some(plain_layout(ModelDType::F16, 2))
    } else if ggml_type == 8 {
        Some(block_layout(ModelDType::Q8, ModelQuantizationFormat::GgufQ8, 32, 34))
    } else if ggml_type == 12 {
        Some(block_layout(ModelDType::Q4K, ModelQuantizationFormat::GgufQ4K, 256, 144))
    } else if ggml_type == 13 {
        Some(block_layout(ModelDType::Q5K, ModelQuantizationFormat::GgufQ5K, 256, 176))
    } else if ggml_type == 24 {
        Some(plain_layout(ModelDType::I8, 1))
    } else if ggml_type == 25 {
        Some(plain_layout(ModelDType::I16, 2))
    } else if ggml_type == 26 {
        Some(plain_layout(ModelDType::I32, 4))
    } else if ggml_type == 27 {
        Some(plain_layout(ModelDType::I64, 8))
    } else if ggml_type == 28 {
        Some(plain_layout(ModelDType::F64, 8))
    } else if ggml_type == 30 {
        Some(plain_layout(ModelDType::Bf16, 2))
    } else {
        None
    }
}

fn unquantized(dtype: ModelDType, width: u64) -> (layout: DTypeLayout)
    ensures
        layout@ == plain_layout(dtype, width as int),
{
    DTypeLayout { dtype, quantization: None, block_elements: 1, block_bytes: width }
}

fn quantized(
    dtype: ModelDType,
    format: ModelQuantizationFormat,
    block_elements: u32,
    block_bytes: u32,
) -> (layout: DTypeLayout)
    ensures
        layout@ == block_layout(dtype, format, block_elements, block_bytes),
{
    let quantization = ModelQuantization {
        format,
        group_size: Some(block_elements),
        block_size: Some(block_bytes),
        scale_dtype: Some(ModelDType::F16),
        zero_point_dtype: None,
        per_channel: false,
        workspace_bytes: None,
        required_capabilities: Vec::new(),
    };
    assert(quantization@.required_capabilities == Seq::<Seq<char>>::empty());
    DTypeLayout {
        dtype,
        quantization: Some(quantization),
        block_elements: block_elements as u64,
        block_bytes: block_bytes as u64,
    }
}

/// The layout of `ggml_type`, if it is supported.
pub fn dtype_layout_for_ggml_type(ggml_type: u32) -> (layout: Option<DTypeLayout>)
    ensures
        model::option_view(layout) == layout_of(ggml_type as int),
{
    match ggml_type {
        0 => Some(unquantized(ModelDType::F32, 4)),
        1 => Some(unquantized(ModelDType::F16, 2)),
        8 => Some(quantized(ModelDType::Q8, ModelQuantizationFormat::GgufQ8, 32, 34)),
        12 => Some(quantized(ModelDType::Q4K, ModelQuantizationFormat::GgufQ4K, 256, 144)),
        13 => Some(quantized(ModelDType::Q5K, ModelQuantizationFormat::GgufQ5K, 256, 176)),
        24 => Some(unquantized(ModelDType::I8, 1)),
        25 => Some(unquantized(ModelDType::I16, 2)),
        26 => Some(unquantized(ModelDType::I32, 4)),
        27 => Some(unquantized(ModelDType::I64, 8)),
        28 => Some(unquantized(ModelDType::F64, 8)),
        30 => Some(unquantized(ModelDType::Bf16, 2)),
        _ => None,
    }
}

/// A plain element takes as many bytes as its type has, alone in its block, and
/// is not quantized.
pub proof fn law_plain_types(ggml_type: int)
    ensures
        ({
            let plain = |dtype: ModelDType, width: int|
                {
                    &&& layout_of(ggml_type) matches Some(layout)
                    &&& layout.dtype == dtype
                    &&& layout.quantization is None
                    &&& layout.block_elements == 1
                    &&& layout.block_bytes == width
                };
            &&& ggml_type == 0 ==> plain(ModelDType::F32, 4)
            &&& ggml_type == 1 ==> plain(ModelDType::F16, 2)
            &&& ggml_type == 24 ==> plain(ModelDType::I8, 1)
            &&& ggml_type == 25 ==> plain(ModelDType::I16, 2)
            &&& ggml_type == 26 ==> plain(ModelDType::I32, 4)
            &&& ggml_type == 27 ==> plain(ModelDType::I64, 8)
            &&& ggml_type == 28 ==> plain(ModelDType::F64, 8)
            &&& ggml_type == 30 ==> plain(ModelDType::Bf16, 2)
        }),
{
}

/// A quantized element shares a block of bytes with others. Its quantization
/// says how many elements and how many bytes a block has, and that blocks are
/// scaled by half-precision numbers, and nothing else.
pub proof fn law_quantized_types(ggml_type: int)
    ensures
        ({
            let quantized = |
                dtype: ModelDType,
                format: ModelQuantizationFormat,
                elements: int,
                bytes: int,
            |
                {
                    &&& layout_of(ggml_type) matches Some(layout)
                    &&& layout.dtype == dtype
                    &&& layout.block_elements == elements
                    &&& layout.block_bytes == bytes
                    &&& layout.quantization matches Some(quantization)
                    &&& quantization.format == format
                    &&& quantization.group_size matches Some(n) && n == elements
                    &&& quantization.block_size matches Some(n) && n == bytes
                    &&& quantization.scale_dtype == Some(ModelDType::F16)
                    &&& quantization.zero_point_dtype is None
                    &&& !quantization.per_channel
                    &&& quantization.workspace_bytes is None
                    &&& quantization.required_capabilities.len() == 0
                };
            &&& ggml_type == 8 ==> quantized(
                ModelDType::Q8,
                ModelQuantizationFormat::GgufQ8,
                32,
                34,
            )
            &&& ggml_type == 12 ==> quantized(
                ModelDType::Q4K,
                ModelQuantizationFormat::GgufQ4K,
                256,
                144,
            )
            &&& ggml_type == 13 ==> quantized(
                ModelDType::Q5K,
                ModelQuantizationFormat::GgufQ5K,
                256,
                176,
            )
        }),
{
}

/// No other type has a layout.
pub proof fn law_other_types(ggml_type: int)
    requires
        ggml_type != 0 && ggml_type != 1 && ggml_type != 8 && ggml_type != 12 && ggml_type != 13 && ggml_type != 24 && ggml_type != 25 && ggml_type != 26 && ggml_type != 27 && ggml_type != 28 && ggml_type != 30,
    ensures
        layout_of(ggml_type) is None,
{
}

/// A layout in use is the one that is described.
pub proof fn law_layout_content(layout: DTypeLayout)
    ensures
        layout@.dtype == layout.dtype,
        layout@.block_elements == layout.block_elements,
        layout@.block_bytes == layout.block_bytes,
        match (layout@.quantization, layout.quantization) {
            (Some(view), Some(quantization)) => {
                &&& view.format == quantization.format
                &&& view.group_size == quantization.group_size
                &&& view.block_size == quantization.block_size
                &&& view.scale_dtype == quantization.scale_dtype
                &&& view.zero_point_dtype == quantization.zero_point_dtype
                &&& view.per_channel == quantization.per_channel
                &&& view.workspace_bytes == quantization.workspace_bytes
                &&& view.required_capabilities.len() == quantization.required_capabilities@.len()
                &&& forall|i: int|
                    0 <= i < view.required_capabilities.len() ==> (
                    #[trigger] view.required_capabilities[i])
                        == quantization.required_capabilities@[i]@
            },
            (None, None) => true,
            _ => false,
        },
        model::option_view(Some(layout)) == Some(layout@),
        model::option_view(None::<DTypeLayout>) is None,
{
}

} // verus!
