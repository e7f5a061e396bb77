//! A verified reader for GGUF model files.
//!
//! [`parse`] reads a file that is held in memory into a [`GgufArtifact`]: the
//! tensors of the model in terms that do not depend on the format of the file,
//! and its metadata.
//!
//! # Format
//!
//! A file holds, in little-endian order,
//!
//! - the magic bytes "GGUF", the version (`u32`), the number of tensors (`u64`)
//!   and that of metadata entries (`u64`);
//! - the metadata entries: a key, the type of the value (`u32`), and the value,
//!   which may be an array of values of one type, arrays among them;
//! - the declarations of the tensors: a name, the number of dimensions (`u32`),
//!   the dimensions (`u64` each), the type of the elements (`u32`), and an
//!   offset (`u64`);
//! - padding up to a multiple of the metadata value `general.alignment`, or of
//!   32 where there is none;
//! - the data of the tensors, each at its offset from there.
//!
//! # What is proved
//!
//! [`artifact::file_of`] says what a sequence of bytes means: what the file
//! says, or the error that it is rejected with. [`parse`] computes just that
//! for every input, without panics or overflow. What holds of all files is
//! stated in the functions whose names start with `law_`:
//!
//! - [`encoding`]: what was written is read back;
//! - [`rewrite`]: what was read can be written again, and stands in the file as
//!   it would be written;
//! - [`progress`]: reading moves forward, stays inside the file, and holds no
//!   more than it has read;
//! - [`prefix`]: a file that is cut off is rejected for that alone, and bytes
//!   behind a file change nothing;
//! - [`placement`] and [`overlap`]: where tensors lie;
//! - [`outcome`]: what the result depends on;
//! - [`digest`]: what a digest looks like, and when digests differ;
//! - [`cursor`], [`tensor`], [`layout`], [`order`], [`text`], [`error`] and
//!   [`artifact`]: what each part of a file and of a result must satisfy;
//! - [`entries`] and [`metadata`]: which metadata are kept, and when they are
//!   equal.

pub mod artifact;
pub mod cursor;
pub mod digest;
pub mod encoding;
pub mod entries;
pub mod error;
pub mod inventory;
pub mod layout;
pub mod metadata;
pub mod model;
pub mod order;
pub mod outcome;
pub mod overlap;
pub mod placement;
pub mod prefix;
pub mod progress;
pub mod range;
pub mod rewrite;
pub mod sort;
pub mod tensor;
pub mod text;

pub use artifact::{parse, GgufArtifact, GGUF_MAGIC};
pub use cursor::Cursor;
pub use digest::{ModelArtifactError, ModelDigest};
pub use entries::{MetadataEntry, MetadataMap};
pub use error::GgufError;
pub use layout::{dtype_layout_for_ggml_type, DTypeLayout};
pub use metadata::{read_metadata_value, GgufMetadataValue, MAX_ARRAY_NESTING_DEPTH};
pub use model::{ModelDType, ModelQuantization, ModelQuantizationFormat, ModelTensorMetadata};
pub use tensor::align_up;
