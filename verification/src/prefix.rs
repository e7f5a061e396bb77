//! What is left of a file that is cut off, and what more bytes at its end
//! change.

use crate::artifact;
use crate::cursor;
use crate::encoding;
use crate::inventory;
use crate::metadata;
use crate::placement;
use crate::progress;
use crate::rewrite;
use crate::tensor;
use crate::tensor::InfoView;
use vstd::prelude::*;

verus! {

/// `short`, read from the first bytes of a file, is what the whole file gives,
/// `long`, unless bytes were missing.
pub open spec fn settled<T>(short: cursor::Parsed<T>, long: cursor::Parsed<T>) -> bool {
    short is Err && short->Err_0 is UnexpectedEof || short == long
}

proof fn lemma_bytes_settled(whole: Seq<u8>, n: int, pos: int, count: int)
    requires
        0 <= pos <= n <= whole.len(),
        0 <= count,
    ensures
        settled(cursor::bytes_at(whole.take(n), pos, count), cursor::bytes_at(whole, pos, count)),
{
    if count <= n - pos {
        assert(whole.take(n).subrange(pos, pos + count) =~= whole.subrange(pos, pos + count));
    }
}

proof fn lemma_uint_settled(whole: Seq<u8>, n: int, pos: int, width: nat)
    requires
        0 <= pos <= n <= whole.len(),
    ensures
        settled(cursor::uint_at(whole.take(n), pos, width), cursor::uint_at(whole, pos, width)),
{
    lemma_bytes_settled(whole, n, pos, width as int);
}

proof fn lemma_string_settled(whole: Seq<u8>, n: int, pos: int)
    requires
        0 <= pos <= n <= whole.len(),
    ensures
        settled(cursor::string_at(whole.take(n), pos), cursor::string_at(whole, pos)),
{
    let file = whole.take(n);
    lemma_uint_settled(whole, n, pos, 8);
    if let Ok((length, body)) = cursor::uint_at(file, pos, 8) {
        lemma_bytes_settled(whole, n, body, length);
    }
}

proof fn lemma_repeat_settled<T>(
    short: spec_fn(int) -> cursor::Parsed<T>,
    long: spec_fn(int) -> cursor::Parsed<T>,
    pos: int,
    count: nat,
    n: int,
)
    requires
        0 <= pos <= n,
        forall|p: int| 0 <= p <= n ==> settled(#[trigger] short(p), long(p)),
        forall|p: int| 0 <= p <= n ==> progress::within(#[trigger] short(p), p, 0, n),
    ensures
        settled(cursor::repeat_at(short, pos, count), cursor::repeat_at(long, pos, count)),
    decreases count,
{
    if count > 0 {
        assert(settled(short(pos), long(pos)));
        assert(progress::within(short(pos), pos, 0, n));
        if let Ok((_, next)) = short(pos) {
            lemma_repeat_settled(short, long, next, (count - 1) as nat, n);
        }
    }
}

proof fn lemma_value_settled(whole: Seq<u8>, n: int, pos: int, value_type: int, depth: nat)
    requires
        0 <= pos <= n <= whole.len(),
    ensures
        settled(
            metadata::value_at(whole.take(n), pos, value_type, depth),
            metadata::value_at(whole, pos, value_type, depth),
        ),
    decreases metadata::MAX_ARRAY_NESTING_DEPTH + 1 - depth,
{
    let file = whole.take(n);
    if value_type == 9 {
        lemma_uint_settled(whole, n, pos, 4);
        if depth < metadata::MAX_ARRAY_NESTING_DEPTH && cursor::uint_at(file, pos, 4) is Ok {
            let (element_type, next) = cursor::uint_at(file, pos, 4)->Ok_0;
            lemma_uint_settled(whole, n, next, 8);
            let short = metadata::value_reader(file, element_type, depth + 1);
            let long = metadata::value_reader(whole, element_type, depth + 1);
            assert forall|p: int| 0 <= p <= n implies settled(#[trigger] short(p), long(p)) by {
                lemma_value_settled(whole, n, p, element_type, depth + 1);
            }
            assert forall|p: int| 0 <= p <= n implies progress::within(
                #[trigger] short(p),
                p,
                0,
                n,
            ) by {
                progress::law_value_within(file, p, element_type, depth + 1);
            }
            if let Ok((count, start)) = cursor::uint_at(file, next, 8) {
                lemma_repeat_settled(short, long, start, count as nat, n);
            }
        }
    } else {
        lemma_uint_settled(whole, n, pos, 1);
        lemma_uint_settled(whole, n, pos, 2);
        lemma_uint_settled(whole, n, pos, 4);
        lemma_uint_settled(whole, n, pos, 8);
        lemma_string_settled(whole, n, pos);
    }
}

proof fn lemma_entry_settled(whole: Seq<u8>, n: int, pos: int)
    requires
        0 <= pos <= n <= whole.len(),
    ensures
        settled(artifact::entry_at(whole.take(n), pos), artifact::entry_at(whole, pos)),
{
    let file = whole.take(n);
    lemma_string_settled(whole, n, pos);
    if let Ok((_, next)) = cursor::string_at(file, pos) {
        lemma_uint_settled(whole, n, next, 4);
        if let Ok((value_type, start)) = cursor::uint_at(file, next, 4) {
            lemma_value_settled(whole, n, start, value_type, 0);
        }
    }
}

proof fn lemma_info_settled(whole: Seq<u8>, n: int, pos: int)
    requires
        0 <= pos <= n <= whole.len(),
    ensures
        settled(tensor::info_at(whole.take(n), pos), tensor::info_at(whole, pos)),
{
    let file = whole.take(n);
    lemma_string_settled(whole, n, pos);
    if let Ok((_, next)) = cursor::string_at(file, pos) {
        lemma_uint_settled(whole, n, next, 4);
        if let Ok((dimensions, start)) = cursor::uint_at(file, next, 4) {
            let short = tensor::dimension_reader(file);
            let long = tensor::dimension_reader(whole);
            assert forall|p: int| 0 <= p <= n implies settled(#[trigger] short(p), long(p)) by {
                lemma_uint_settled(whole, n, p, 8);
            }
            assert forall|p: int| 0 <= p <= n implies progress::within(
                #[trigger] short(p),
                p,
                8,
                n,
            ) by {
                progress::law_uint_within(file, p, 8);
            }
            lemma_repeat_settled(short, long, start, dimensions as nat, n);
            progress::law_repeat_within(short, start, dimensions as nat, 8, n);
            if let Ok((_, end)) = cursor::repeat_at(short, start, dimensions as nat) {
                lemma_uint_settled(whole, n, end, 4);
                if let Ok((_, last)) = cursor::uint_at(file, end, 4) {
                    lemma_uint_settled(whole, n, last, 8);
                }
            }
        }
    }
}

proof fn lemma_header_settled(whole: Seq<u8>, n: int)
    requires
        0 <= n <= whole.len(),
    ensures
        settled(artifact::header_of(whole.take(n)), artifact::header_of(whole)),
{
    let file = whole.take(n);
    lemma_uint_settled(whole, n, 0, 4);
    if cursor::uint_at(file, 0, 4) is Ok {
        lemma_uint_settled(whole, n, 4, 4);
        if cursor::uint_at(file, 4, 4) is Ok {
            lemma_uint_settled(whole, n, 8, 8);
            if cursor::uint_at(file, 8, 8) is Ok {
                lemma_uint_settled(whole, n, 16, 8);
            }
        }
    }
}

/// The first bytes of a file declare what the whole file declares, or are
/// rejected with the same error, unless the declarations are cut off.
pub proof fn law_declarations_of_prefix(whole: Seq<u8>, n: int)
    requires
        0 <= n <= whole.len(),
    ensures
        settled(artifact::declarations_of(whole.take(n)), artifact::declarations_of(whole)),
{
    let file = whole.take(n);
    lemma_header_settled(whole, n);
    if let Ok(((tensor_count, entry_count), pos)) = artifact::header_of(file) {
        let short = artifact::entry_reader(file);
        let long = artifact::entry_reader(whole);
        assert forall|p: int| 0 <= p <= n implies settled(#[trigger] short(p), long(p)) by {
            lemma_entry_settled(whole, n, p);
        }
        assert forall|p: int| 0 <= p <= n implies progress::within(#[trigger] short(p), p, 0, n) by {
            progress::law_entry_within(file, p);
        }
        lemma_repeat_settled(short, long, pos, entry_count as nat, n);
        progress::law_repeat_within(short, pos, entry_count as nat, 0, n);
        if let Ok((_, start)) = cursor::repeat_at(short, pos, entry_count as nat) {
            let short = tensor::info_reader(file);
            let long = tensor::info_reader(whole);
            assert forall|p: int| 0 <= p <= n implies settled(#[trigger] short(p), long(p)) by {
                lemma_info_settled(whole, n, p);
            }
            assert forall|p: int| 0 <= p <= n implies progress::within(
                #[trigger] short(p),
                p,
                0,
                n,
            ) by {
                progress::law_info_within(file, p);
            }
            lemma_repeat_settled(short, long, start, tensor_count as nat, n);
        }
    }
}

proof fn lemma_tensors_of_prefix(
    infos: Seq<InfoView>,
    whole: Seq<u8>,
    n: int,
    alignment: int,
    data_start: int,
)
    requires
        0 <= n <= whole.len(),
        0 <= data_start,
        forall|i: int| 0 <= i < infos.len() ==> encoding::info_writable(#[trigger] infos[i]),
    ensures
        ({
            let short = inventory::tensors_of(infos, whole.take(n), alignment, data_start);
            ||| short is Err && short->Err_0 is ByteRangeOutOfBounds
            ||| short == inventory::tensors_of(infos, whole, alignment, data_start)
        }),
    decreases infos.len(),
{
    if infos.len() > 0 {
        let file = whole.take(n);
        let earlier = infos.drop_last();
        let info = infos.last();
        assert(info == infos[infos.len() - 1]);
        assert forall|i: int| 0 <= i < earlier.len() implies encoding::info_writable(
            #[trigger] earlier[i],
        ) by {
            assert(earlier[i] == infos[i]);
        }
        lemma_tensors_of_prefix(earlier, whole, n, alignment, data_start);
        if tensor::tensor_of(info, file, alignment, data_start) is Ok {
            let resolved = tensor::tensor_of(info, file, alignment, data_start)->Ok_0;
            let start = data_start + info.offset;
            let end = start + resolved.size_bytes->0;
            placement::lemma_size_not_negative(info);
            assert(file.subrange(start, end) =~= whole.subrange(start, end));
        }
    }
}

/// The first bytes of a file say what the whole file says, or are rejected
/// with the same error, unless the declarations or the data of a tensor are
/// cut off, which is what they are rejected for.
pub proof fn law_prefix(whole: Seq<u8>, n: int)
    requires
        0 <= n <= whole.len(),
    ensures
        ({
            let short = artifact::file_of(whole.take(n));
            ||| short is Err && short->Err_0 is UnexpectedEof
            ||| short is Err && short->Err_0 is ByteRangeOutOfBounds
            ||| short == artifact::file_of(whole)
        }),
{
    let file = whole.take(n);
    law_declarations_of_prefix(whole, n);
    if artifact::declarations_of(file) is Ok {
        let (declarations, pos) = artifact::declarations_of(file)->Ok_0;
        let start = tensor::aligned_up(pos, declarations.alignment);
        assert(0 <= start) by {
            progress::law_declarations_within(file);
            rewrite::law_declarations_writable(file);
            placement::law_align_up(pos, declarations.alignment);
        }
        assert forall|i: int| 0 <= i < declarations.infos.len() implies encoding::info_writable(
            #[trigger] declarations.infos[i],
        ) by {
            rewrite::law_declarations_writable(file);
        }
        lemma_tensors_of_prefix(declarations.infos, whole, n, declarations.alignment, start);
    }
}

/// Bytes behind an accepted file change nothing in what it says.
pub proof fn law_trailing_bytes(file: Seq<u8>, extra: Seq<u8>)
    requires
        artifact::file_of(file) is Ok,
    ensures
        artifact::file_of(file + extra) == artifact::file_of(file),
{
    assert((file + extra).take(file.len() as int) =~= file);
    law_prefix(file + extra, file.len() as int);
}

} // verus!
