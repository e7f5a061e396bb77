//! What is known of the tensors of a model, whatever format its file has.

use crate::digest::{DigestView, ModelDigest};
use crate::order::Named;
use vstd::prelude::*;

verus! {

/// The type of a tensor's elements.
#[derive(Clone, Copy, Debug, Eq, PartialEq, Structural)]
pub enum ModelDType {
    I8,
    I16,
    I32,
    I64,
    F16,
    Bf16,
    F32,
    F64,
    Q4K,
    Q5K,
    Q8,
}

/// A way to quantize a tensor.
#[derive(Clone, Copy, Debug, Eq, PartialEq, Structural)]
pub enum ModelQuantizationFormat {
    GgufQ4K,
    GgufQ5K,
    GgufQ8,
}

/// How a tensor is quantized.
#[derive(Debug, Eq, PartialEq)]
pub struct ModelQuantization {
    pub format: ModelQuantizationFormat,
    /// How many elements form a block.
    pub group_size: Option<u32>,
    /// How many bytes a block takes.
    pub block_size: Option<u32>,
    pub scale_dtype: Option<ModelDType>,
    pub zero_point_dtype: Option<ModelDType>,
    pub per_channel: bool,
    pub workspace_bytes: Option<u64>,
    pub required_capabilities: Vec<String>,
}

/// The mathematical content of a [`ModelQuantization`].
pub struct QuantizationView {
    pub format: ModelQuantizationFormat,
    pub group_size: Option<u32>,
    pub block_size: Option<u32>,
    pub scale_dtype: Option<ModelDType>,
    pub zero_point_dtype: Option<ModelDType>,
    pub per_channel: bool,
    pub workspace_bytes: Option<u64>,
    pub required_capabilities: Seq<Seq<char>>,
}

impl View for ModelQuantization {
    type V = QuantizationView;

    open spec fn view(&self) -> QuantizationView {
        QuantizationView {
            format: self.format,
            group_size: self.group_size,
            block_size: self.block_size,
            scale_dtype: self.scale_dtype,
            zero_point_dtype: self.zero_point_dtype,
            per_channel: self.per_channel,
            workspace_bytes: self.workspace_bytes,
            required_capabilities: self.required_capabilities@.map_values(|name: String| name@),
        }
    }
}

impl Clone for ModelQuantization {
    fn clone(&self) -> (copy: Self)
        ensures
            copy@ == self@,
    {
        let required_capabilities = self.required_capabilities.clone();
        proof {
            let names = |name: String| name@;
            assert forall|i: int| 0 <= i < required_capabilities@.len() implies (
            #[trigger] required_capabilities@[i])@ == self.required_capabilities@[i]@ by {
                assert(cloned(self.required_capabilities@[i], required_capabilities@[i]));
            }
            assert(required_capabilities@.map_values(names)
                =~= self.required_capabilities@.map_values(names));
        }
        ModelQuantization {
            format: self.format,
            group_size: self.group_size,
            block_size: self.block_size,
            scale_dtype: self.scale_dtype,
            zero_point_dtype: self.zero_point_dtype,
            per_channel: self.per_channel,
            workspace_bytes: self.workspace_bytes,
            required_capabilities,
        }
    }
}

/// What is known of one tensor.
#[derive(Debug, Eq, PartialEq)]
pub struct ModelTensorMetadata {
    pub name: String,
    pub shape: Vec<u64>,
    pub storage_dtype: ModelDType,
    pub layout: Option<String>,
    pub shard: Option<String>,
    /// Where the tensor's bytes start, counted from the start of the data
    /// section.
    pub offset_bytes: Option<u64>,
    pub size_bytes: Option<u64>,
    pub quantization: Option<ModelQuantization>,
    pub expected_compute_dtype: Option<ModelDType>,
    /// The digest of the tensor's bytes, where one was computed.
    pub digest: Option<ModelDigest>,
}

/// The mathematical content of a [`ModelTensorMetadata`].
pub struct TensorView {
    pub name: Seq<char>,
    pub shape: Seq<int>,
    pub storage_dtype: ModelDType,
    pub layout: Option<Seq<char>>,
    pub shard: Option<Seq<char>>,
    pub offset_bytes: Option<int>,
    pub size_bytes: Option<int>,
    pub quantization: Option<QuantizationView>,
    pub expected_compute_dtype: Option<ModelDType>,
    pub digest: Option<DigestView>,
}

/// The content of an optional value.
pub open spec fn option_view<T: View>(value: Option<T>) -> Option<T::V> {
    match value {
        Some(value) => Some(value@),
        None => None,
    }
}

/// Machine numbers as mathematical ones.
pub open spec fn ints(numbers: Seq<u64>) -> Seq<int> {
    numbers.map_values(|n: u64| n as int)
}

/// An optional number as a mathematical one.
pub open spec fn option_int(value: Option<u64>) -> Option<int> {
    match value {
        Some(value) => Some(value as int),
        None => None,
    }
}

impl View for ModelTensorMetadata {
    type V = TensorView;

    open spec fn view(&self) -> TensorView {
        TensorView {
            name: self.name@,
            shape: ints(self.shape@),
            storage_dtype: self.storage_dtype,
            layout: option_view(self.layout),
            shard: option_view(self.shard),
            offset_bytes: option_int(self.offset_bytes),
            size_bytes: option_int(self.size_bytes),
            quantization: option_view(self.quantization),
            expected_compute_dtype: self.expected_compute_dtype,
            digest: option_view(self.digest),
        }
    }
}

impl Named for ModelTensorMetadata {
    open spec fn name_view(&self) -> Seq<char> {
        self.name@
    }

    fn name(&self) -> (name: &str) {
        self.name.as_str()
    }
}

impl Clone for ModelTensorMetadata {
    fn clone(&self) -> (copy: Self)
        ensures
            copy@ == self@,
    {
        let shape = self.shape.clone();
        assert(ints(shape@) =~= ints(self.shape@));
        let layout = match &self.layout {
            Some(layout) => Some(layout.clone()),
            None => None,
        };
        let shard = match &self.shard {
            Some(shard) => Some(shard.clone()),
            None => None,
        };
        let quantization = match &self.quantization {
            Some(quantization) => Some(quantization.clone()),
            None => None,
        };
        let digest = match &self.digest {
            Some(digest) => Some(digest.clone()),
            None => None,
        };
        ModelTensorMetadata {
            name: self.name.clone(),
            shape,
            storage_dtype: self.storage_dtype,
            layout,
            shard,
            offset_bytes: self.offset_bytes,
            size_bytes: self.size_bytes,
            quantization,
            expected_compute_dtype: self.expected_compute_dtype,
            digest,
        }
    }
}

/// The content of what is known of a tensor is all that it holds.
pub proof fn law_tensor_content(tensor: ModelTensorMetadata)
    ensures
        tensor@.name == tensor.name@,
        tensor@.shape.len() == tensor.shape@.len(),
        forall|i: int|
            0 <= i < tensor.shape@.len() ==> #[trigger] tensor@.shape[i] == tensor.shape@[i],
        tensor@.storage_dtype == tensor.storage_dtype,
        match tensor.layout {
            Some(layout) => tensor@.layout == Some(layout@),
            None => tensor@.layout is None,
        },
        match tensor.shard {
            Some(shard) => tensor@.shard == Some(shard@),
            None => tensor@.shard is None,
        },
        match tensor.offset_bytes {
            Some(offset) => tensor@.offset_bytes == Some(offset as int),
            None => tensor@.offset_bytes is None,
        },
        match tensor.size_bytes {
            Some(size) => tensor@.size_bytes == Some(size as int),
            None => tensor@.size_bytes is None,
        },
        match tensor.quantization {
            Some(quantization) => tensor@.quantization == Some(quantization@),
            None => tensor@.quantization is None,
        },
        tensor@.expected_compute_dtype == tensor.expected_compute_dtype,
        match tensor.digest {
            Some(digest) => tensor@.digest matches Some(view) && view.algorithm
                == digest.algorithm@ && view.value == digest.value@,
            None => tensor@.digest is None,
        },
{
}

/// The content of a quantization is all that it holds.
pub proof fn law_quantization_content(quantization: ModelQuantization)
    ensures
        quantization@.format == quantization.format,
        quantization@.group_size == quantization.group_size,
        quantization@.block_size == quantization.block_size,
        quantization@.scale_dtype == quantization.scale_dtype,
        quantization@.zero_point_dtype == quantization.zero_point_dtype,
        quantization@.per_channel == quantization.per_channel,
        quantization@.workspace_bytes == quantization.workspace_bytes,
        quantization@.required_capabilities.len() == quantization.required_capabilities@.len(),
        forall|i: int|
            0 <= i < quantization.required_capabilities@.len() ==> (
            #[trigger] quantization@.required_capabilities[i])
                == quantization.required_capabilities@[i]@,
{
}

} // verus!
