//! Everything that can be wrong with a GGUF file, and how it is put in words.

use crate::text;
use vstd::prelude::*;

verus! {

/// Why a file was rejected.
#[derive(Debug, Eq, PartialEq)]
pub enum GgufError {
    UnexpectedEof { at: u64, needed: u64 },
    BadMagic { found: u32 },
    UnsupportedVersion { found: u32 },
    StringNotUtf8,
    UnknownMetadataValueType { found: u32 },
    ArrayNestingTooDeep,
    InvalidAlignment { found: u32 },
    TensorNameTooLong { name_length: usize },
    TooManyDimensions { name: String, found: u32 },
    UnsupportedGgmlType { name: String, ggml_type: u32 },
    ElementCountOverflow { name: String },
    ElementCountNotBlockAligned { name: String, element_count: u64, block_elements: u64 },
    ByteSizeOverflow { name: String },
    AlignmentOverflow,
    OffsetNotAligned { name: String, offset: u64, alignment: u64 },
    ByteRangeOutOfBounds { name: String, start: u64, end: u64 },
    OverlappingRanges { first: String, second: String },
    DuplicateTensorName { name: String },
}

/// The mathematical content of a [`GgufError`].
pub enum ErrorView {
    UnexpectedEof { at: int, needed: int },
    BadMagic { found: int },
    UnsupportedVersion { found: int },
    StringNotUtf8,
    UnknownMetadataValueType { found: int },
    ArrayNestingTooDeep,
    InvalidAlignment { found: int },
    TensorNameTooLong { name_length: int },
    TooManyDimensions { name: Seq<char>, found: int },
    UnsupportedGgmlType { name: Seq<char>, ggml_type: int },
    ElementCountOverflow { name: Seq<char> },
    ElementCountNotBlockAligned { name: Seq<char>, element_count: int, block_elements: int },
    ByteSizeOverflow { name: Seq<char> },
    AlignmentOverflow,
    OffsetNotAligned { name: Seq<char>, offset: int, alignment: int },
    ByteRangeOutOfBounds { name: Seq<char>, start: int, end: int },
    OverlappingRanges { first: Seq<char>, second: Seq<char> },
    DuplicateTensorName { name: Seq<char> },
}

impl View for GgufError {
    type V = ErrorView;

    open spec fn view(&self) -> ErrorView {
        match self {
            GgufError::UnexpectedEof { at, needed } => ErrorView::UnexpectedEof {
                at: at as int,
                needed: needed as int,
            },
            GgufError::BadMagic { found } => ErrorView::BadMagic { found: found as int },
            GgufError::UnsupportedVersion { found } => ErrorView::UnsupportedVersion {
                found: found as int,
            },
            GgufError::StringNotUtf8 => ErrorView::StringNotUtf8,
            GgufError::UnknownMetadataValueType { found } => ErrorView::UnknownMetadataValueType {
                found: found as int,
            },
            GgufError::ArrayNestingTooDeep => ErrorView::ArrayNestingTooDeep,
            GgufError::InvalidAlignment { found } => ErrorView::InvalidAlignment {
                found: found as int,
            },
            GgufError::TensorNameTooLong { name_length } => ErrorView::TensorNameTooLong {
                name_length: name_length as int,
            },
            GgufError::TooManyDimensions { name, found } => ErrorView::TooManyDimensions {
                name: name@,
                found: found as int,
            },
            GgufError::UnsupportedGgmlType { name, ggml_type } => ErrorView::UnsupportedGgmlType {
                name: name@,
                ggml_type: ggml_type as int,
            },
            GgufError::ElementCountOverflow { name } => ErrorView::ElementCountOverflow {
                name: name@,
            },
            GgufError::ElementCountNotBlockAligned { name, element_count, block_elements } =>
                ErrorView::ElementCountNotBlockAligned {
                name: name@,
                element_count: element_count as int,
                block_elements: block_elements as int,
            },
            GgufError::ByteSizeOverflow { name } => ErrorView::ByteSizeOverflow { name: name@ },
            GgufError::AlignmentOverflow => ErrorView::AlignmentOverflow,
            GgufError::OffsetNotAligned { name, offset, alignment } => ErrorView::OffsetNotAligned {
                name: name@,
                offset: offset as int,
                alignment: alignment as int,
            },
            GgufError::ByteRangeOutOfBounds { name, start, end } =>
                ErrorView::ByteRangeOutOfBounds {
                name: name@,
                start: start as int,
                end: end as int,
            },
            GgufError::OverlappingRanges { first, second } => ErrorView::OverlappingRanges {
                first: first@,
                second: second@,
            },
            GgufError::DuplicateTensorName { name } => ErrorView::DuplicateTensorName {
                name: name@,
            },
        }
    }
}

impl Clone for GgufError {
    fn clone(&self) -> (copy: Self)
        ensures
            copy@ == self@,
    {
        match self {
            GgufError::UnexpectedEof { at, needed } => GgufError::UnexpectedEof {
                at: *at,
                needed: *needed,
            },
            GgufError::BadMagic { found } => GgufError::BadMagic {
                found: *found,
            },
            GgufError::UnsupportedVersion { found } => GgufError::UnsupportedVersion {
                found: *found,
            },
            GgufError::StringNotUtf8 => GgufError::StringNotUtf8,
            GgufError::UnknownMetadataValueType { found } => GgufError::UnknownMetadataValueType {
                found: *found,
            },
            GgufError::ArrayNestingTooDeep => GgufError::ArrayNestingTooDeep,
            GgufError::InvalidAlignment { found } => GgufError::InvalidAlignment {
                found: *found,
            },
            GgufError::TensorNameTooLong { name_length } => GgufError::TensorNameTooLong {
                name_length: *name_length,
            },
            GgufError::TooManyDimensions { name, found } => GgufError::TooManyDimensions {
                name: name.clone(),
                found: *found,
            },
            GgufError::UnsupportedGgmlType { name, ggml_type } => GgufError::UnsupportedGgmlType {
                name: name.clone(),
                ggml_type: *ggml_type,
            },
            GgufError::ElementCountOverflow { name } => GgufError::ElementCountOverflow {
                name: name.clone(),
            },
            GgufError::ElementCountNotBlockAligned { name, element_count, block_elements } => GgufError::ElementCountNotBlockAligned {
                name: name.clone(),
                element_count: *element_count,
                block_elements: *block_elements,
            },
            GgufError::ByteSizeOverflow { name } => GgufError::ByteSizeOverflow {
                name: name.clone(),
            },
            GgufError::AlignmentOverflow => GgufError::AlignmentOverflow,
            GgufError::OffsetNotAligned { name, offset, alignment } => GgufError::OffsetNotAligned {
                name: name.clone(),
                offset: *offset,
                alignment: *alignment,
            },
            GgufError::ByteRangeOutOfBounds { name, start, end } => GgufError::ByteRangeOutOfBounds {
                name: name.clone(),
                start: *start,
                end: *end,
            },
            GgufError::OverlappingRanges { first, second } => GgufError::OverlappingRanges {
                first: first.clone(),
                second: second.clone(),
            },
            GgufError::DuplicateTensorName { name } => GgufError::DuplicateTensorName {
                name: name.clone(),
            },
        }
    }
}

impl ErrorView {
    /// The sentence that describes the error.
    pub open spec fn sentence(self) -> Seq<char> {
        match self {
            ErrorView::UnexpectedEof { at, needed } => "unexpected end of file at byte "@
                + text::decimal(at as nat) + ", needed "@ + text::decimal(needed as nat)
                + " more bytes"@,
            ErrorView::BadMagic { found } => "bad magic bytes: found 0x"@ + text::hex(
                found as nat,
                8,
            ) + ", expected \"GGUF\""@,
            ErrorView::UnsupportedVersion { found } => "unsupported GGUF version "@ + text::decimal(
                found as nat,
            ) + " (supported: 2-3)"@,
            ErrorView::StringNotUtf8 => "string field is not valid UTF-8"@,
            ErrorView::UnknownMetadataValueType { found } => "unknown metadata value type "@
                + text::decimal(found as nat),
            ErrorView::ArrayNestingTooDeep => "metadata array nesting exceeds the depth limit"@,
            ErrorView::InvalidAlignment { found } => "'general.alignment' value "@ + text::decimal(
                found as nat,
            ) + " is invalid (must be a nonzero multiple of 8)"@,
            ErrorView::TensorNameTooLong { name_length } => "tensor name is "@ + text::decimal(
                name_length as nat,
            ) + " bytes, exceeding the 64-byte limit"@,
            ErrorView::TooManyDimensions { name, found } => "tensor '"@ + name + "' declares "@
                + text::decimal(found as nat) + " dimensions, exceeding the limit"@,
            ErrorView::UnsupportedGgmlType { name, ggml_type } => "tensor '"@ + name
                + "' declares unsupported ggml_type "@ + text::decimal(ggml_type as nat),
            ErrorView::ElementCountOverflow { name } => "tensor '"@ + name
                + "' element-count computation overflowed"@,
            ErrorView::ElementCountNotBlockAligned { name, element_count, block_elements } =>
                "tensor '"@ + name + "' has "@ + text::decimal(element_count as nat)
                + " elements, not a multiple of its "@ + text::decimal(block_elements as nat)
                + "-element quantization block"@,
            ErrorView::ByteSizeOverflow { name } => "tensor '"@ + name
                + "' byte-size computation overflowed"@,
            ErrorView::AlignmentOverflow => "tensor-data alignment computation overflowed"@,
            ErrorView::OffsetNotAligned { name, offset, alignment } => "tensor '"@ + name
                + "' offset "@ + text::decimal(offset as nat) + " is not a multiple of the "@
                + text::decimal(alignment as nat) + "-byte alignment"@,
            ErrorView::ByteRangeOutOfBounds { name, start, end } => "tensor '"@ + name
                + "' byte range ["@ + text::decimal(start as nat) + ", "@ + text::decimal(
                end as nat,
            ) + ") is out of bounds"@,
            ErrorView::OverlappingRanges { first, second } => "tensor '"@ + first
                + "' and tensor '"@ + second + "' declare overlapping byte ranges"@,
            ErrorView::DuplicateTensorName { name } => "tensor name '"@ + name
                + "' is declared more than once"@,
        }
    }
}

impl GgufError {
    /// The sentence that describes the error to a person.
    pub fn message(&self) -> (sentence: String)
        ensures
            sentence@ == self@.sentence(),
    {
        match self {
            GgufError::UnexpectedEof { at, needed } => text::start(
                "unexpected end of file at byte ",
            ).number(*at).words(", needed ").number(*needed).words(" more bytes").finish(),
            GgufError::BadMagic { found } => text::start(
                "bad magic bytes: found 0x",
            ).hexadecimal(*found, 8).words(", expected \"GGUF\"").finish(),
            GgufError::UnsupportedVersion { found } => text::start(
                "unsupported GGUF version ",
            ).number(*found as u64).words(" (supported: 2-3)").finish(),
            GgufError::StringNotUtf8 => text::start("string field is not valid UTF-8").finish(),
            GgufError::UnknownMetadataValueType { found } => text::start(
                "unknown metadata value type ",
            ).number(*found as u64).finish(),
            GgufError::ArrayNestingTooDeep => text::start(
                "metadata array nesting exceeds the depth limit",
            ).finish(),
            GgufError::InvalidAlignment { found } => text::start(
                "'general.alignment' value ",
            ).number(*found as u64).words(
                " is invalid (must be a nonzero multiple of 8)",
            ).finish(),
            GgufError::TensorNameTooLong { name_length } => text::start("tensor name is ").number(
                *name_length as u64,
            ).words(" bytes, exceeding the 64-byte limit").finish(),
            GgufError::TooManyDimensions { name, found } => text::start("tensor '").words(
                name.as_str(),
            ).words("' declares ").number(*found as u64).words(
                " dimensions, exceeding the limit",
            ).finish(),
            GgufError::UnsupportedGgmlType { name, ggml_type } => text::start("tensor '").words(
                name.as_str(),
            ).words("' declares unsupported ggml_type ").number(*ggml_type as u64).finish(),
            GgufError::ElementCountOverflow { name } => text::start("tensor '").words(
                name.as_str(),
            ).words("' element-count computation overflowed").finish(),
            GgufError::ElementCountNotBlockAligned { name, element_count, block_elements } =>
                text::start("tensor '").words(name.as_str()).words("' has ").number(
                *element_count,
            ).words(" elements, not a multiple of its ").number(*block_elements).words(
                "-element quantization block",
            ).finish(),
            GgufError::ByteSizeOverflow { name } => text::start("tensor '").words(
                name.as_str(),
            ).words("' byte-size computation overflowed").finish(),
            GgufError::AlignmentOverflow => text::start(
                "tensor-data alignment computation overflowed",
            ).finish(),
            GgufError::OffsetNotAligned { name, offset, alignment } => text::start("tensor '").words(
                name.as_str(),
            ).words("' offset ").number(*offset).words(" is not a multiple of the ").number(
                *alignment,
            ).words("-byte alignment").finish(),
            GgufError::ByteRangeOutOfBounds { name, start, end } => text::start("tensor '").words(
                name.as_str(),
            ).words("' byte range [").number(*start).words(", ").number(*end).words(
                ") is out of bounds",
            ).finish(),
            GgufError::OverlappingRanges { first, second } => text::start("tensor '").words(
                first.as_str(),
            ).words("' and tensor '").words(second.as_str()).words(
                "' declare overlapping byte ranges",
            ).finish(),
            GgufError::DuplicateTensorName { name } => text::start("tensor name '").words(
                name.as_str(),
            ).words("' is declared more than once").finish(),
        }
    }
}

/// What an error says is what it holds, in its kind.
pub proof fn law_error_content(error: GgufError)
    ensures
        match error {
            GgufError::UnexpectedEof { at, needed } => error@ == (ErrorView::UnexpectedEof {
                at: at as int,
                needed: needed as int,
            }),
            GgufError::BadMagic { found } => error@ == (ErrorView::BadMagic {
                found: found as int,
            }),
            GgufError::UnsupportedVersion { found } => error@ == (ErrorView::UnsupportedVersion {
                found: found as int,
            }),
            GgufError::StringNotUtf8 => error@ == ErrorView::StringNotUtf8,
            GgufError::UnknownMetadataValueType { found } => error@ == (ErrorView::UnknownMetadataValueType {
                found: found as int,
            }),
            GgufError::ArrayNestingTooDeep => error@ == ErrorView::ArrayNestingTooDeep,
            GgufError::InvalidAlignment { found } => error@ == (ErrorView::InvalidAlignment {
                found: found as int,
            }),
            GgufError::TensorNameTooLong { name_length } => error@ == (ErrorView::TensorNameTooLong {
                name_length: name_length as int,
            }),
            GgufError::TooManyDimensions { name, found } => error@ == (ErrorView::TooManyDimensions {
                name: name@,
                found: found as int,
            }),
            GgufError::UnsupportedGgmlType { name, ggml_type } => error@ == (ErrorView::UnsupportedGgmlType {
                name: name@,
                ggml_type: ggml_type as int,
            }),
            GgufError::ElementCountOverflow { name } => error@ == (ErrorView::ElementCountOverflow {
                name: name@,
            }),
            GgufError::ElementCountNotBlockAligned { name, element_count, block_elements } => error@ == (ErrorView::ElementCountNotBlockAligned {
                name: name@,
                element_count: element_count as int,
                block_elements: block_elements as int,
            }),
            GgufError::ByteSizeOverflow { name } => error@ == (ErrorView::ByteSizeOverflow {
                name: name@,
            }),
            GgufError::AlignmentOverflow => error@ == ErrorView::AlignmentOverflow,
            GgufError::OffsetNotAligned { name, offset, alignment } => error@ == (ErrorView::OffsetNotAligned {
                name: name@,
                offset: offset as int,
                alignment: alignment as int,
            }),
            GgufError::ByteRangeOutOfBounds { name, start, end } => error@ == (ErrorView::ByteRangeOutOfBounds {
                name: name@,
                start: start as int,
                end: end as int,
            }),
            GgufError::OverlappingRanges { first, second } => error@ == (ErrorView::OverlappingRanges {
                first: first@,
                second: second@,
            }),
            GgufError::DuplicateTensorName { name } => error@ == (ErrorView::DuplicateTensorName {
                name: name@,
            }),
        },
{
}

/// The sentence for each error names what the error holds: its numbers in
/// decimal, a wrong magic in eight hexadecimal digits, and the names of tensors
/// as they are.
pub proof fn law_sentence(error: GgufError)
    ensures
        match error {
            GgufError::UnexpectedEof { at, needed } => error@.sentence() == "unexpected end of file at byte "@
                + text::decimal(at as nat) + ", needed "@ + text::decimal(needed as nat)
                + " more bytes"@,
            GgufError::BadMagic { found } => error@.sentence() == "bad magic bytes: found 0x"@ + text::hex(
                found as nat,
                8,
            ) + ", expected \"GGUF\""@,
            GgufError::UnsupportedVersion { found } => error@.sentence() == "unsupported GGUF version "@ + text::decimal(
                found as nat,
            ) + " (supported: 2-3)"@,
            GgufError::StringNotUtf8 => error@.sentence() == "string field is not valid UTF-8"@,
            GgufError::UnknownMetadataValueType { found } => error@.sentence() == "unknown metadata value type "@
                + text::decimal(found as nat),
            GgufError::ArrayNestingTooDeep => error@.sentence() == "metadata array nesting exceeds the depth limit"@,
            GgufError::InvalidAlignment { found } => error@.sentence() == "'general.alignment' value "@ + text::decimal(
                found as nat,
            ) + " is invalid (must be a nonzero multiple of 8)"@,
            GgufError::TensorNameTooLong { name_length } => error@.sentence() == "tensor name is "@ + text::decimal(
                name_length as nat,
            ) + " bytes, exceeding the 64-byte limit"@,
            GgufError::TooManyDimensions { name, found } => error@.sentence() == "tensor '"@ + name@ + "' declares "@
                + text::decimal(found as nat) + " dimensions, exceeding the limit"@,
            GgufError::UnsupportedGgmlType { name, ggml_type } => error@.sentence() == "tensor '"@ + name@
                + "' declares unsupported ggml_type "@ + text::decimal(ggml_type as nat),
            GgufError::ElementCountOverflow { name } => error@.sentence() == "tensor '"@ + name@
                + "' element-count computation overflowed"@,
            GgufError::ElementCountNotBlockAligned { name, element_count, block_elements } => error@.sentence() == "tensor '"@ + name@ + "' has "@ + text::decimal(element_count as nat)
                + " elements, not a multiple of its "@ + text::decimal(block_elements as nat)
                + "-element quantization block"@,
            GgufError::ByteSizeOverflow { name } => error@.sentence() == "tensor '"@ + name@
                + "' byte-size computation overflowed"@,
            GgufError::AlignmentOverflow => error@.sentence() == "tensor-data alignment computation overflowed"@,
            GgufError::OffsetNotAligned { name, offset, alignment } => error@.sentence() == "tensor '"@ + name@
                + "' offset "@ + text::decimal(offset as nat) + " is not a multiple of the "@
                + text::decimal(alignment as nat) + "-byte alignment"@,
            GgufError::ByteRangeOutOfBounds { name, start, end } => error@.sentence() == "tensor '"@ + name@
                + "' byte range ["@ + text::decimal(start as nat) + ", "@ + text::decimal(
                end as nat,
            ) + ") is out of bounds"@,
            GgufError::OverlappingRanges { first, second } => error@.sentence() == "tensor '"@ + first@
                + "' and tensor '"@ + second@ + "' declare overlapping byte ranges"@,
            GgufError::DuplicateTensorName { name } => error@.sentence() == "tensor name '"@ + name@
                + "' is declared more than once"@,
        },
{
}

} // verus!
