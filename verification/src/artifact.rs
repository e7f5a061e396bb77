//! Reading a whole file.

use crate::cursor;
use crate::cursor::Cursor;
use crate::entries;
use crate::entries::{MetadataEntry, MetadataMap};
use crate::error::{ErrorView, GgufError};
use crate::inventory;
use crate::metadata;
use crate::metadata::{GgufMetadataValue, ValueView};
use crate::model::{ModelTensorMetadata, TensorView};
use crate::order;
use crate::order::Named;
use crate::tensor;
use crate::tensor::{InfoView, TensorInfo};
use vstd::prelude::*;

verus! {

/// The first four bytes of a file, "GGUF", as a number.
pub const GGUF_MAGIC: u32 = 0x4655_4747;

/// The first version of the format that is read.
pub const MIN_SUPPORTED_VERSION: u32 = 2;

/// The last version of the format that is read.
pub const MAX_SUPPORTED_VERSION: u32 = 3;

/// What tensor data are aligned to where the metadata do not say.
pub const DEFAULT_ALIGNMENT: u64 = 32;

/// What a file says.
#[derive(Debug, PartialEq)]
pub struct GgufArtifact {
    /// The tensors, in the order of their names.
    pub tensors: Vec<ModelTensorMetadata>,
    pub metadata: MetadataMap,
    /// Where in the file the data section starts, from which the offsets of
    /// tensors are counted.
    pub tensor_data_start: u64,
}

/// What a file says, with the tensors in the order in which it declares them.
pub struct FileView {
    pub tensors: Seq<TensorView>,
    pub metadata: Map<Seq<char>, ValueView>,
    pub tensor_data_start: int,
}

impl GgufArtifact {
    /// The artifact holds what `file` says.
    pub open spec fn holds(self, file: FileView) -> bool {
        &&& self.metadata.wf()
        &&& self.metadata@ == file.metadata
        &&& self.tensor_data_start == file.tensor_data_start
        &&& inventory::arranged(self.tensors@, file.tensors)
    }
}

impl Clone for GgufArtifact {
    fn clone(&self) -> (copy: Self)
        ensures
            inventory::tensor_views(copy.tensors@) == inventory::tensor_views(self.tensors@),
            copy.metadata@ == self.metadata@,
            self.metadata.wf() ==> copy.metadata.wf(),
            entries::entry_views(copy.metadata.list()) == entries::entry_views(
                self.metadata.list(),
            ),
            copy.tensor_data_start == self.tensor_data_start,
            forall|file: FileView| #[trigger] self.holds(file) ==> copy.holds(file),
    {
        let mut tensors: Vec<ModelTensorMetadata> = Vec::with_capacity(self.tensors.len());
        let mut i: usize = 0;
        while i < self.tensors.len()
            invariant
                i <= self.tensors@.len(),
                tensors@.len() == i,
                forall|j: int| 0 <= j < i ==> (#[trigger] tensors@[j])@ == self.tensors@[j]@,
            decreases self.tensors@.len() - i,
        {
            tensors.push(self.tensors[i].clone());
            i = i + 1;
        }
        let copy = GgufArtifact {
            tensors,
            metadata: self.metadata.clone(),
            tensor_data_start: self.tensor_data_start,
        };
        proof {
            assert(inventory::tensor_views(copy.tensors@) =~= inventory::tensor_views(
                self.tensors@,
            ));
            if order::names_increase(self.tensors@) {
                assert forall|a: int, b: int| 0 <= a < b < copy.tensors@.len() implies order::name_lt(
                    (#[trigger] copy.tensors@[a]).name_view(),
                    (#[trigger] copy.tensors@[b]).name_view(),
                ) by {
                    assert(copy.tensors@[a]@ == self.tensors@[a]@);
                    assert(copy.tensors@[b]@ == self.tensors@[b]@);
                    assert(order::name_lt(
                        self.tensors@[a].name_view(),
                        self.tensors@[b].name_view(),
                    ));
                }
            }
        }
        copy
    }
}

/// The header at the start of a file: the number of tensors and that of
/// metadata entries.
pub open spec fn header_of(file: Seq<u8>) -> cursor::Parsed<(int, int)> {
    match cursor::uint_at(file, 0, 4) {
        Ok((magic, pos)) => if magic != GGUF_MAGIC {
            Err(ErrorView::BadMagic { found: magic })
        } else {
            match cursor::uint_at(file, pos, 4) {
                Ok((version, pos)) => if !(MIN_SUPPORTED_VERSION <= version
                    <= MAX_SUPPORTED_VERSION) {
                    Err(ErrorView::UnsupportedVersion { found: version })
                } else {
                    match cursor::uint_at(file, pos, 8) {
                        Ok((tensors, pos)) => match cursor::uint_at(file, pos, 8) {
                            Ok((entries, pos)) => Ok(((tensors, entries), pos)),
                            Err(e) => Err(e),
                        },
                        Err(e) => Err(e),
                    }
                },
                Err(e) => Err(e),
            }
        },
        Err(e) => Err(e),
    }
}

/// The metadata entry at `pos`: a key, the type of its value, and the value.
pub open spec fn entry_at(file: Seq<u8>, pos: int) -> cursor::Parsed<(Seq<char>, ValueView)> {
    match cursor::string_at(file, pos) {
        Ok((key, pos)) => match cursor::uint_at(file, pos, 4) {
            Ok((value_type, pos)) => match metadata::value_at(file, pos, value_type, 0) {
                Ok((value, pos)) => Ok(((key, value), pos)),
                Err(e) => Err(e),
            },
            Err(e) => Err(e),
        },
        Err(e) => Err(e),
    }
}

/// What a metadata entry is, at each position.
pub open spec fn entry_reader(file: Seq<u8>) -> spec_fn(int) -> cursor::Parsed<
    (Seq<char>, ValueView),
> {
    |pos: int| entry_at(file, pos)
}

/// What tensor data are aligned to: the value of `general.alignment`, which
/// must be a nonzero multiple of 8 in 32 bits without sign, or else a default.
pub open spec fn alignment_of(metadata: Map<Seq<char>, ValueView>) -> Result<int, ErrorView> {
    if metadata.dom().contains("general.alignment"@) {
        match metadata["general.alignment"@] {
            ValueView::UInt32(n) => if n != 0 && n % 8 == 0 {
                Ok(n)
            } else {
                Err(ErrorView::InvalidAlignment { found: n })
            },
            _ => Err(ErrorView::InvalidAlignment { found: 0 }),
        }
    } else {
        Ok(DEFAULT_ALIGNMENT as int)
    }
}

/// What a file declares ahead of the tensor data.
pub struct Declarations {
    pub metadata: Map<Seq<char>, ValueView>,
    pub alignment: int,
    pub infos: Seq<InfoView>,
}

/// What `file` declares ahead of the tensor data, and where that ends.
pub open spec fn declarations_of(file: Seq<u8>) -> cursor::Parsed<Declarations> {
    match header_of(file) {
        Ok(((tensor_count, entry_count), pos)) => match cursor::repeat_at(
            entry_reader(file),
            pos,
            entry_count as nat,
        ) {
            Ok((entries, pos)) => {
                let metadata = entries::map_of(entries);
                match alignment_of(metadata) {
                    Ok(alignment) => match cursor::repeat_at(
                        tensor::info_reader(file),
                        pos,
                        tensor_count as nat,
                    ) {
                        Ok((infos, pos)) => Ok((Declarations { metadata, alignment, infos }, pos)),
                        Err(e) => Err(e),
                    },
                    Err(e) => Err(e),
                }
            },
            Err(e) => Err(e),
        },
        Err(e) => Err(e),
    }
}

/// What `file` says.
pub open spec fn file_of(file: Seq<u8>) -> Result<FileView, ErrorView> {
    match declarations_of(file) {
        Ok((declarations, pos)) => {
            let start = tensor::aligned_up(pos, declarations.alignment);
            if start > u64::MAX {
                Err(ErrorView::AlignmentOverflow)
            } else {
                match inventory::inventory_of(
                    declarations.infos,
                    file,
                    declarations.alignment,
                    start,
                ) {
                    Ok(tensors) => Ok(
                        FileView {
                            tensors,
                            metadata: declarations.metadata,
                            tensor_data_start: start,
                        },
                    ),
                    Err(e) => Err(e),
                }
            }
        },
        Err(e) => Err(e),
    }
}

/// Reads the header: the number of tensors and that of metadata entries.
fn read_header(cursor: &mut Cursor<'_>) -> (result: Result<(u64, u64), GgufError>)
    requires
        old(cursor).wf(),
        old(cursor).pos() == 0,
    ensures
        final(cursor).continues(*old(cursor)),
        match header_of(old(cursor).file()) {
            Ok(((tensors, entries), next)) => {
                &&& result matches Ok(counts) && counts.0 == tensors && counts.1 == entries
                &&& final(cursor).pos() == next
            },
            Err(e) => result matches Err(error) && error@ == e,
        },
{
    let magic: u32 = cursor.read_u32_le()?;
    if magic != GGUF_MAGIC {
        return Err(GgufError::BadMagic { found: magic });
    }
    let version: u32 = cursor.read_u32_le()?;
    if version < MIN_SUPPORTED_VERSION || version > MAX_SUPPORTED_VERSION {
        return Err(GgufError::UnsupportedVersion { found: version });
    }
    let tensor_count: u64 = cursor.read_u64_le()?;
    let entry_count: u64 = cursor.read_u64_le()?;
    Ok((tensor_count, entry_count))
}

/// Reads a metadata entry.
fn read_entry(cursor: &mut Cursor<'_>) -> (result: Result<MetadataEntry, GgufError>)
    requires
        old(cursor).wf(),
    ensures
        final(cursor).continues(*old(cursor)),
        match entry_at(old(cursor).file(), old(cursor).pos()) {
            Ok((expected, next)) => {
                &&& result matches Ok(entry) && entry@ == expected
                &&& final(cursor).pos() == next
            },
            Err(e) => result matches Err(error) && error@ == e,
        },
{
    let key = cursor.read_string()?;
    let value_type: u32 = cursor.read_u32_le()?;
    let value = metadata::read_metadata_value(cursor, value_type, 0)?;
    Ok(MetadataEntry { key, value })
}

/// Reads `count` metadata entries.
fn read_metadata(cursor: &mut Cursor<'_>, count: u64) -> (result: Result<MetadataMap, GgufError>)
    requires
        old(cursor).wf(),
    ensures
        final(cursor).continues(*old(cursor)),
        match cursor::repeat_at(entry_reader(old(cursor).file()), old(cursor).pos(), count as nat) {
            Ok((entries, next)) => {
                &&& result matches Ok(metadata) && metadata.wf() && metadata@ == entries::map_of(
                    entries,
                )
                &&& final(cursor).pos() == next
            },
            Err(e) => result matches Err(error) && error@ == e,
        },
{
    let ghost file = cursor.file();
    let ghost item = entry_reader(file);
    let ghost whole = cursor::repeat_at(item, cursor.pos(), count as nat);
    let mut entries: Vec<MetadataEntry> = Vec::new();
    let mut left: u64 = count;
    assert(entries::entry_views(entries@) == Seq::<(Seq<char>, ValueView)>::empty());
    while left > 0
        invariant
            cursor.continues(*old(cursor)),
            cursor.file() == file,
            item == entry_reader(file),
            whole == cursor::repeat_at(item, old(cursor).pos(), count as nat),
            match cursor::repeat_at(item, cursor.pos(), left as nat) {
                Ok((others, end)) => whole == Ok::<(Seq<(Seq<char>, ValueView)>, int), ErrorView>(
                    (entries::entry_views(entries@) + others, end),
                ),
                Err(e) => whole == Err::<(Seq<(Seq<char>, ValueView)>, int), ErrorView>(e),
            },
        decreases left,
    {
        let ghost before = entries::entry_views(entries@);
        assert(item(cursor.pos()) == entry_at(file, cursor.pos()));
        let entry = read_entry(cursor)?;
        entries.push(entry);
        left = left - 1;
        proof {
            assert(entries::entry_views(entries@) == before.push(entry@));
            assert(forall|others: Seq<(Seq<char>, ValueView)>|
                before + (seq![entry@] + others) == before.push(entry@) + others);
        }
    }
    assert(entries::entry_views(entries@) + Seq::<(Seq<char>, ValueView)>::empty()
        == entries::entry_views(entries@));
    Ok(MetadataMap::from_entries(entries))
}

/// Reads the declarations of `count` tensors.
fn read_tensor_infos(cursor: &mut Cursor<'_>, count: u64) -> (result: Result<
    Vec<TensorInfo>,
    GgufError,
>)
    requires
        old(cursor).wf(),
    ensures
        final(cursor).continues(*old(cursor)),
        match cursor::repeat_at(
            tensor::info_reader(old(cursor).file()),
            old(cursor).pos(),
            count as nat,
        ) {
            Ok((expected, next)) => {
                &&& result matches Ok(infos) && inventory::info_views(infos@) == expected
                &&& final(cursor).pos() == next
            },
            Err(e) => result matches Err(error) && error@ == e,
        },
{
    let ghost file = cursor.file();
    let ghost item = tensor::info_reader(file);
    let ghost whole = cursor::repeat_at(item, cursor.pos(), count as nat);
    // The declared count is not trusted with more than a bounded allocation.
    let capacity: usize = if count < 4096 {
        count as usize
    } else {
        4096
    };
    let mut infos: Vec<TensorInfo> = Vec::with_capacity(capacity);
    let mut left: u64 = count;
    assert(inventory::info_views(infos@) == Seq::<InfoView>::empty());
    while left > 0
        invariant
            cursor.continues(*old(cursor)),
            cursor.file() == file,
            item == tensor::info_reader(file),
            whole == cursor::repeat_at(item, old(cursor).pos(), count as nat),
            match cursor::repeat_at(item, cursor.pos(), left as nat) {
                Ok((others, end)) => whole == Ok::<(Seq<InfoView>, int), ErrorView>(
                    (inventory::info_views(infos@) + others, end),
                ),
                Err(e) => whole == Err::<(Seq<InfoView>, int), ErrorView>(e),
            },
        decreases left,
    {
        let ghost before = inventory::info_views(infos@);
        assert(item(cursor.pos()) == tensor::info_at(file, cursor.pos()));
        let info = tensor::read_tensor_info(cursor)?;
        infos.push(info);
        left = left - 1;
        proof {
            assert(inventory::info_views(infos@) == before.push(info@));
            assert(forall|others: Seq<InfoView>|
                before + (seq![info@] + others) == before.push(info@) + others);
        }
    }
    Ok(infos)
}

/// Works out what tensor data are aligned to.
fn alignment_from(metadata: &MetadataMap) -> (result: Result<u64, GgufError>)
    requires
        metadata.wf(),
    ensures
        match alignment_of(metadata@) {
            Ok(expected) => result matches Ok(alignment) && alignment == expected && alignment != 0,
            Err(e) => result matches Err(error) && error@ == e,
        },
{
    match metadata.get("general.alignment") {
        Some(GgufMetadataValue::UInt32(value)) => if *value != 0 && *value % 8 == 0 {
            Ok(*value as u64)
        } else {
            Err(GgufError::InvalidAlignment { found: *value })
        },
        Some(_) => Err(GgufError::InvalidAlignment { found: 0 }),
        None => Ok(DEFAULT_ALIGNMENT),
    }
}

/// Reads a GGUF file that is held in memory.
pub fn parse(bytes: &[u8]) -> (result: Result<GgufArtifact, GgufError>)
    ensures
        match file_of(bytes@) {
            Ok(file) => result matches Ok(artifact) && artifact.holds(file),
            Err(e) => result matches Err(error) && error@ == e,
        },
{
    let mut cursor = Cursor::new(bytes);
    let (tensor_count, entry_count) = read_header(&mut cursor)?;
    let metadata = read_metadata(&mut cursor, entry_count)?;
    let alignment: u64 = alignment_from(&metadata)?;
    let infos = read_tensor_infos(&mut cursor, tensor_count)?;
    let tensor_data_start: u64 = tensor::align_up(cursor.position(), alignment)?;
    let tensors = inventory::build_inventory(&infos, bytes, alignment, tensor_data_start)?;
    Ok(GgufArtifact { tensors, metadata, tensor_data_start })
}

/// The header is read just where its 24 bytes are there: "GGUF", version 2 or 3,
/// the number of tensors and that of metadata entries. The first field that is
/// wrong or missing is what it is rejected for.
pub proof fn law_header_read(file: Seq<u8>)
    ensures
        ({
            let read = header_of(file);
            let magic = cursor::le_value(file.subrange(0, 4));
            let version = cursor::le_value(file.subrange(4, 8));
            let missing = |at: int, needed: int|
                read == Err::<((int, int), int), ErrorView>(
                    ErrorView::UnexpectedEof { at, needed },
                );
            if file.len() < 4 {
                missing(0, 4)
            } else if !(file[0] == 0x47 && file[1] == 0x47 && file[2] == 0x55 && file[3] == 0x46) {
                read == Err::<((int, int), int), ErrorView>(
                    ErrorView::BadMagic { found: magic as int },
                )
            } else if file.len() < 8 {
                missing(4, 4)
            } else if version != 2 && version != 3 {
                read == Err::<((int, int), int), ErrorView>(
                    ErrorView::UnsupportedVersion { found: version as int },
                )
            } else if file.len() < 16 {
                missing(8, 8)
            } else if file.len() < 24 {
                missing(16, 8)
            } else {
                &&& read matches Ok(((tensors, entries), next))
                &&& tensors == cursor::le_value(file.subrange(8, 16))
                &&& entries == cursor::le_value(file.subrange(16, 24))
                &&& next == 24
            }
        }),
{
    if file.len() >= 4 {
        cursor::law_le_value(file.subrange(0, 4));
    }
}

/// What a metadata entry is: a key, the type of its value in four bytes, and a
/// value of that type that is inside no array.
pub proof fn law_entry_read(file: Seq<u8>, pos: int)
    requires
        0 <= pos <= file.len(),
    ensures
        match cursor::string_at(file, pos) {
            Err(e) => entry_at(file, pos) == Err::<((Seq<char>, ValueView), int), ErrorView>(e),
            Ok((key, p)) => if p + 4 > file.len() {
                entry_at(file, pos) == Err::<((Seq<char>, ValueView), int), ErrorView>(
                    ErrorView::UnexpectedEof { at: p, needed: 4 },
                )
            } else {
                let value_type = cursor::le_value(file.subrange(p, p + 4)) as int;
                match metadata::value_at(file, p + 4, value_type, 0) {
                    Err(e) => entry_at(file, pos) == Err::<
                        ((Seq<char>, ValueView), int),
                        ErrorView,
                    >(e),
                    Ok((value, next)) => entry_at(file, pos) == Ok::<
                        ((Seq<char>, ValueView), int),
                        ErrorView,
                    >(((key, value), next)),
                }
            },
        },
{
}

/// What tensor data are aligned to is what `general.alignment` says, where that
/// is a number of 32 bits without sign, not zero and a multiple of 8, and 32
/// where there is no such key. Anything else is rejected.
pub proof fn law_alignment(metadata: Map<Seq<char>, ValueView>)
    ensures
        ({
            let key = "general.alignment"@;
            &&& !metadata.dom().contains(key) ==> alignment_of(metadata) == Ok::<int, ErrorView>(
                32,
            )
            &&& metadata.dom().contains(key) ==> match metadata[key] {
                ValueView::UInt32(n) => {
                    &&& n != 0 && n % 8 == 0 ==> alignment_of(metadata) == Ok::<int, ErrorView>(n)
                    &&& n == 0 || n % 8 != 0 ==> alignment_of(metadata) == Err::<int, ErrorView>(
                        ErrorView::InvalidAlignment { found: n },
                    )
                },
                _ => alignment_of(metadata) == Err::<int, ErrorView>(
                    ErrorView::InvalidAlignment { found: 0 },
                ),
            }
        }),
{
}

/// Behind the header come as many metadata entries as it says, and behind them
/// as many declarations of tensors. The alignment is checked between the two.
pub proof fn law_declarations_read(file: Seq<u8>)
    ensures
        ({
            let read = declarations_of(file);
            let entry = |p: int| entry_at(file, p);
            let info = |p: int| tensor::info_at(file, p);
            match header_of(file) {
                Err(e) => read == Err::<(Declarations, int), ErrorView>(e),
                Ok(((tensor_count, entry_count), _)) => match cursor::repeat_at(
                    entry,
                    24,
                    entry_count as nat,
                ) {
                    Err(e) => read == Err::<(Declarations, int), ErrorView>(e),
                    Ok((entries, p)) => match alignment_of(entries::map_of(entries)) {
                        Err(e) => read == Err::<(Declarations, int), ErrorView>(e),
                        Ok(alignment) => match cursor::repeat_at(info, p, tensor_count as nat) {
                            Err(e) => read == Err::<(Declarations, int), ErrorView>(e),
                            Ok((infos, end)) => {
                                &&& read matches Ok((declarations, next))
                                &&& next == end
                                &&& declarations.infos == infos
                                &&& declarations.alignment == alignment
                                &&& declarations.metadata == entries::map_of(entries)
                            },
                        },
                    },
                },
            }
        }),
{
    let entry = |p: int| entry_at(file, p);
    let info = |p: int| tensor::info_at(file, p);
    assert(entry =~= entry_reader(file));
    assert(info =~= tensor::info_reader(file));
}

} // verus!
