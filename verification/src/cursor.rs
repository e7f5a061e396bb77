//! Reading little-endian numbers and strings from a byte buffer.
//!
//! The functions named `.._at` say what the bytes of a file mean from a given
//! position on: the value that stands there and the position behind it, or
//! the error that the file is rejected with. [`Cursor`] computes just that.

use crate::error::{ErrorView, GgufError};
use vstd::prelude::*;

verus! {

/// What stands at some position of a file: a value and the position behind
/// it, or the reason why there is none.
pub type Parsed<T> = Result<(T, int), ErrorView>;

/// The `count` bytes from `pos` on.
pub open spec fn bytes_at(file: Seq<u8>, pos: int, count: int) -> Parsed<Seq<u8>> {
    if count > file.len() - pos {
        Err(ErrorView::UnexpectedEof { at: pos, needed: count })
    } else {
        Ok((file.subrange(pos, pos + count), pos + count))
    }
}

/// The number whose digits in base 256 are `digits`, the lowest first.
pub open spec fn le_value(digits: Seq<u8>) -> nat
    decreases digits.len(),
{
    if digits.len() == 0 {
        0
    } else {
        digits[0] as nat + 256 * le_value(digits.drop_first())
    }
}

/// How many different values `width` bytes can hold.
pub open spec fn capacity(width: nat) -> nat
    decreases width,
{
    if width == 0 {
        1
    } else {
        256 * capacity((width - 1) as nat)
    }
}

/// The unsigned number in the `width` bytes from `pos` on.
pub open spec fn uint_at(file: Seq<u8>, pos: int, width: nat) -> Parsed<int> {
    match bytes_at(file, pos, width as int) {
        Ok((digits, next)) => Ok((le_value(digits) as int, next)),
        Err(e) => Err(e),
    }
}

/// The value that `width` bytes holding the unsigned number `n` have when
/// they are read as a two's complement number.
pub open spec fn signed(n: int, width: nat) -> int {
    if 2 * n < capacity(width) {
        n
    } else {
        n - capacity(width)
    }
}

/// The signed number in the `width` bytes from `pos` on.
pub open spec fn sint_at(file: Seq<u8>, pos: int, width: nat) -> Parsed<int> {
    match uint_at(file, pos, width) {
        Ok((n, next)) => Ok((signed(n, width), next)),
        Err(e) => Err(e),
    }
}

/// The string at `pos`: its length in bytes, as a number of eight bytes, and
/// then that many bytes of UTF-8.
pub open spec fn string_at(file: Seq<u8>, pos: int) -> Parsed<Seq<char>> {
    match uint_at(file, pos, 8) {
        Ok((length, body)) => match bytes_at(file, body, length) {
            Ok((encoded, next)) => if vstd::utf8::valid_utf8(encoded) {
                Ok((vstd::utf8::decode_utf8(encoded), next))
            } else {
                Err(ErrorView::StringNotUtf8)
            },
            Err(e) => Err(e),
        },
        Err(e) => Err(e),
    }
}

/// How far a string that starts at `pos` can be read: behind its bytes where
/// they are all there, valid or not, else behind its length where that is
/// there.
pub open spec fn string_stop(file: Seq<u8>, pos: int) -> int {
    match uint_at(file, pos, 8) {
        Ok((length, body)) => match bytes_at(file, body, length) {
            Ok((_, next)) => next,
            Err(_) => body,
        },
        Err(_) => pos,
    }
}

/// `count` items in a row from `pos` on, where `item` says what an item is.
pub open spec fn repeat_at<T>(item: spec_fn(int) -> Parsed<T>, pos: int, count: nat) -> Parsed<
    Seq<T>,
>
    decreases count,
{
    if count == 0 {
        Ok((Seq::empty(), pos))
    } else {
        match item(pos) {
            Ok((first, next)) => match repeat_at(item, next, (count - 1) as nat) {
                Ok((others, end)) => Ok((seq![first] + others, end)),
                Err(e) => Err(e),
            },
            Err(e) => Err(e),
        }
    }
}

/// How far `count` items in a row can be read: behind the last of them, or as
/// far as the first that cannot be read, where `stop` says how far that is.
pub open spec fn repeat_stop<T>(
    item: spec_fn(int) -> Parsed<T>,
    stop: spec_fn(int) -> int,
    pos: int,
    count: nat,
) -> int
    decreases count,
{
    if count == 0 {
        pos
    } else {
        match item(pos) {
            Ok((_, next)) => repeat_stop(item, stop, next, (count - 1) as nat),
            Err(_) => stop(pos),
        }
    }
}

/// `le_value` of a given number of bytes stays below what they can hold.
pub proof fn lemma_le_value_bound(digits: Seq<u8>)
    ensures
        le_value(digits) < capacity(digits.len()),
    decreases digits.len(),
{
    if digits.len() > 0 {
        lemma_le_value_bound(digits.drop_first());
    }
}

/// The number of values that the widths in use can hold.
pub proof fn lemma_capacities()
    ensures
        capacity(1) == 0x100,
        capacity(2) == 0x1_0000,
        capacity(4) == 0x1_0000_0000,
        capacity(8) == 0x1_0000_0000_0000_0000,
{
    reveal_with_fuel(capacity, 9);
}

/// A reader of a byte buffer that remembers how far it has come.
pub struct Cursor<'a> {
    bytes: &'a [u8],
    position: u64,
}

impl<'a> Cursor<'a> {
    /// The whole buffer.
    pub closed spec fn file(self) -> Seq<u8> {
        self.bytes@
    }

    /// How many bytes have been read.
    pub closed spec fn pos(self) -> int {
        self.position as int
    }

    /// The cursor is not beyond the end of its buffer.
    pub open spec fn wf(self) -> bool {
        &&& 0 <= self.pos() <= self.file().len()
        &&& self.file().len() <= usize::MAX
    }

    /// `self` reads the same buffer as `earlier`, and is no less far in it.
    pub open spec fn continues(self, earlier: Cursor<'a>) -> bool {
        &&& self.wf()
        &&& self.file() == earlier.file()
        &&& earlier.pos() <= self.pos()
    }

    /// A cursor at the start of `bytes`.
    pub fn new(bytes: &'a [u8]) -> (cursor: Self)
        ensures
            cursor.wf(),
            cursor.file() == bytes@,
            cursor.pos() == 0,
    {
        let length: usize = bytes.len();
        assert(bytes@.len() == length);
        Cursor { bytes, position: 0 }
    }

    /// How many bytes have been read.
    pub fn position(&self) -> (position: u64)
        requires
            self.wf(),
        ensures
            position == self.pos(),
    {
        self.position
    }

    /// How many bytes are left.
    pub fn remaining(&self) -> (count: u64)
        requires
            self.wf(),
        ensures
            count == self.file().len() - self.pos(),
    {
        self.bytes.len() as u64 - self.position
    }

    /// Reads the next `count` bytes.
    pub fn read_bytes(&mut self, count: u64) -> (result: Result<&'a [u8], GgufError>)
        requires
            old(self).wf(),
        ensures
            final(self).continues(*old(self)),
            match bytes_at(old(self).file(), old(self).pos(), count as int) {
                Ok((expected, next)) => {
                    &&& result matches Ok(bytes) && bytes@ == expected
                    &&& final(self).pos() == next
                },
                Err(e) => {
                    &&& result matches Err(error) && error@ == e
                    &&& final(self).pos() == old(self).pos()
                },
            },
    {
        if count > self.remaining() {
            return Err(GgufError::UnexpectedEof { at: self.position, needed: count });
        }
        let start: usize = self.position as usize;
        let end: usize = (self.position + count) as usize;
        self.position = self.position + count;
        Ok(vstd::slice::slice_subrange(self.bytes, start, end))
    }

    /// Reads an unsigned number of one byte.
    pub fn read_u8(&mut self) -> (result: Result<u8, GgufError>)
        requires
            old(self).wf(),
        ensures
            final(self).continues(*old(self)),
            match uint_at(old(self).file(), old(self).pos(), 1) {
                Ok((expected, next)) => {
                    &&& result matches Ok(n) && n == expected
                    &&& final(self).pos() == next
                },
                Err(e) => {
                    &&& result matches Err(error) && error@ == e
                    &&& final(self).pos() == old(self).pos()
                },
            },
    {
        let bytes = self.read_bytes(1)?;
        proof {
            reveal_with_fuel(le_value, 2);
        }
        Ok(bytes[0])
    }

    /// Reads an unsigned number of two bytes.
    pub fn read_u16_le(&mut self) -> (result: Result<u16, GgufError>)
        requires
            old(self).wf(),
        ensures
            final(self).continues(*old(self)),
            match uint_at(old(self).file(), old(self).pos(), 2) {
                Ok((expected, next)) => {
                    &&& result matches Ok(n) && n == expected
                    &&& final(self).pos() == next
                },
                Err(e) => {
                    &&& result matches Err(error) && error@ == e
                    &&& final(self).pos() == old(self).pos()
                },
            },
    {
        let bytes = self.read_bytes(2)?;
        proof {
            reveal_with_fuel(le_value, 3);
        }
        Ok(bytes[0] as u16 + 0x100 * (bytes[1] as u16))
    }

    /// Reads an unsigned number of four bytes.
    pub fn read_u32_le(&mut self) -> (result: Result<u32, GgufError>)
        requires
            old(self).wf(),
        ensures
            final(self).continues(*old(self)),
            match uint_at(old(self).file(), old(self).pos(), 4) {
                Ok((expected, next)) => {
                    &&& result matches Ok(n) && n == expected
                    &&& final(self).pos() == next
                },
                Err(e) => {
                    &&& result matches Err(error) && error@ == e
                    &&& final(self).pos() == old(self).pos()
                },
            },
    {
        let bytes = self.read_bytes(4)?;
        proof {
            reveal_with_fuel(le_value, 5);
        }
        Ok(
            bytes[0] as u32 + 0x100 * (bytes[1] as u32) + 0x1_0000 * (bytes[2] as u32) + 0x100_0000
                * (bytes[3] as u32),
        )
    }

    /// Reads an unsigned number of eight bytes.
    pub fn read_u64_le(&mut self) -> (result: Result<u64, GgufError>)
        requires
            old(self).wf(),
        ensures
            final(self).continues(*old(self)),
            match uint_at(old(self).file(), old(self).pos(), 8) {
                Ok((expected, next)) => {
                    &&& result matches Ok(n) && n == expected
                    &&& final(self).pos() == next
                },
                Err(e) => {
                    &&& result matches Err(error) && error@ == e
                    &&& final(self).pos() == old(self).pos()
                },
            },
    {
        let bytes = self.read_bytes(8)?;
        proof {
            reveal_with_fuel(le_value, 9);
        }
        Ok(
            bytes[0] as u64 + 0x100 * (bytes[1] as u64) + 0x1_0000 * (bytes[2] as u64) + 0x100_0000
                * (bytes[3] as u64) + 0x1_0000_0000 * (bytes[4] as u64) + 0x100_0000_0000 * (
            bytes[5] as u64) + 0x1_0000_0000_0000 * (bytes[6] as u64) + 0x100_0000_0000_0000 * (
            bytes[7] as u64),
        )
    }

    /// Reads a signed number of one byte.
    pub fn read_i8(&mut self) -> (result: Result<i8, GgufError>)
        requires
            old(self).wf(),
        ensures
            final(self).continues(*old(self)),
            match sint_at(old(self).file(), old(self).pos(), 1) {
                Ok((expected, next)) => {
                    &&& result matches Ok(n) && n == expected
                    &&& final(self).pos() == next
                },
                Err(e) => {
                    &&& result matches Err(error) && error@ == e
                    &&& final(self).pos() == old(self).pos()
                },
            },
    {
        let n: u8 = self.read_u8()?;
        proof {
            lemma_capacities();
            assert((n as i8) as int == if n < 128 { n as int } else { n - 256 }) by (bit_vector);
        }
        Ok(n as i8)
    }

    /// Reads a signed number of two bytes.
    pub fn read_i16_le(&mut self) -> (result: Result<i16, GgufError>)
        requires
            old(self).wf(),
        ensures
            final(self).continues(*old(self)),
            match sint_at(old(self).file(), old(self).pos(), 2) {
                Ok((expected, next)) => {
                    &&& result matches Ok(n) && n == expected
                    &&& final(self).pos() == next
                },
                Err(e) => {
                    &&& result matches Err(error) && error@ == e
                    &&& final(self).pos() == old(self).pos()
                },
            },
    {
        let n: u16 = self.read_u16_le()?;
        proof {
            lemma_capacities();
            assert((n as i16) as int == if n < 0x8000 { n as int } else { n - 0x1_0000 })
                by (bit_vector);
        }
        Ok(n as i16)
    }

    /// Reads a signed number of four bytes.
    pub fn read_i32_le(&mut self) -> (result: Result<i32, GgufError>)
        requires
            old(self).wf(),
        ensures
            final(self).continues(*old(self)),
            match sint_at(old(self).file(), old(self).pos(), 4) {
                Ok((expected, next)) => {
                    &&& result matches Ok(n) && n == expected
                    &&& final(self).pos() == next
                },
                Err(e) => {
                    &&& result matches Err(error) && error@ == e
                    &&& final(self).pos() == old(self).pos()
                },
            },
    {
        let n: u32 = self.read_u32_le()?;
        proof {
            lemma_capacities();
            assert((n as i32) as int == if n < 0x8000_0000 { n as int } else { n - 0x1_0000_0000 })
                by (bit_vector);
        }
        Ok(n as i32)
    }

    /// Reads a signed number of eight bytes.
    pub fn read_i64_le(&mut self) -> (result: Result<i64, GgufError>)
        requires
            old(self).wf(),
        ensures
            final(self).continues(*old(self)),
            match sint_at(old(self).file(), old(self).pos(), 8) {
                Ok((expected, next)) => {
                    &&& result matches Ok(n) && n == expected
                    &&& final(self).pos() == next
                },
                Err(e) => {
                    &&& result matches Err(error) && error@ == e
                    &&& final(self).pos() == old(self).pos()
                },
            },
    {
        let n: u64 = self.read_u64_le()?;
        proof {
            lemma_capacities();
            assert((n as i64) as int == if n < 0x8000_0000_0000_0000 {
                n as int
            } else {
                n - 0x1_0000_0000_0000_0000
            }) by (bit_vector);
        }
        Ok(n as i64)
    }

    /// Reads a floating-point number of four bytes, as the bits that encode
    /// it.
    pub fn read_f32_le(&mut self) -> (result: Result<u32, GgufError>)
        requires
            old(self).wf(),
        ensures
            final(self).continues(*old(self)),
            match uint_at(old(self).file(), old(self).pos(), 4) {
                Ok((expected, next)) => {
                    &&& result matches Ok(n) && n == expected
                    &&& final(self).pos() == next
                },
                Err(e) => {
                    &&& result matches Err(error) && error@ == e
                    &&& final(self).pos() == old(self).pos()
                },
            },
    {
        self.read_u32_le()
    }

    /// Reads a floating-point number of eight bytes, as the bits that encode
    /// it.
    pub fn read_f64_le(&mut self) -> (result: Result<u64, GgufError>)
        requires
            old(self).wf(),
        ensures
            final(self).continues(*old(self)),
            match uint_at(old(self).file(), old(self).pos(), 8) {
                Ok((expected, next)) => {
                    &&& result matches Ok(n) && n == expected
                    &&& final(self).pos() == next
                },
                Err(e) => {
                    &&& result matches Err(error) && error@ == e
                    &&& final(self).pos() == old(self).pos()
                },
            },
    {
        self.read_u64_le()
    }

    /// Reads a string. No more bytes are copied than the buffer holds, however
    /// long the string claims to be.
    pub fn read_string(&mut self) -> (result: Result<String, GgufError>)
        requires
            old(self).wf(),
        ensures
            final(self).continues(*old(self)),
            match string_at(old(self).file(), old(self).pos()) {
                Ok((expected, next)) => {
                    &&& result matches Ok(s) && s@ == expected
                    &&& final(self).pos() == next
                },
                Err(e) => {
                    &&& result matches Err(error) && error@ == e
                    &&& final(self).pos() == string_stop(old(self).file(), old(self).pos())
                },
            },
    {
        let length: u64 = self.read_u64_le()?;
        let bytes = self.read_bytes(length)?;
        match String::from_utf8(vstd::slice::slice_to_vec(bytes)) {
            Ok(string) => Ok(string),
            Err(_) => Err(GgufError::StringNotUtf8),
        }
    }
}

/// The lowest byte of a number comes first, and each byte counts 256 times as
/// much as the one ahead of it.
pub proof fn law_le_value(digits: Seq<u8>)
    ensures
        digits.len() == 1 ==> le_value(digits) == digits[0],
        digits.len() == 2 ==> le_value(digits) == digits[0] + 0x100 * digits[1],
        digits.len() == 4 ==> le_value(digits) == digits[0] + 0x100 * digits[1] + 0x10000 * digits[2] + 0x1000000 * digits[3],
        digits.len() == 8 ==> le_value(digits) == digits[0] + 0x100 * digits[1] + 0x10000 * digits[2] + 0x1000000 * digits[3] + 0x100000000 * digits[4] + 0x10000000000 * digits[5] + 0x1000000000000 * digits[6] + 0x100000000000000 * digits[7],
        digits.len() == 0 ==> le_value(digits) == 0,
{
    reveal_with_fuel(le_value, 9);
}

/// The higher bytes of a number count as many times more as there are values of
/// the lower ones.
pub proof fn law_le_value_joined(low: Seq<u8>, high: Seq<u8>)
    ensures
        le_value(low + high) == le_value(low) + capacity(low.len()) * le_value(high),
        le_value(low) < capacity(low.len()),
        capacity(low.len() + 1) == 256 * capacity(low.len()),
        capacity(0) == 1,
    decreases low.len(),
{
    lemma_le_value_bound(low);
    if low.len() == 0 {
        assert(low + high =~= high);
    } else {
        let rest = low.drop_first();
        law_le_value_joined(rest, high);
        assert((low + high).drop_first() =~= rest + high);
        let (c, h) = (capacity(rest.len()), le_value(high));
        assert(256 * (c * h) == (256 * c) * h) by (nonlinear_arith);
    }
}

/// Bytes are read just where there are enough of them: those from the position
/// on, in order.
pub proof fn law_bytes_read(file: Seq<u8>, pos: int, count: int)
    requires
        0 <= pos <= file.len(),
        0 <= count,
    ensures
        match bytes_at(file, pos, count) {
            Ok((bytes, next)) => {
                &&& pos + count <= file.len()
                &&& next == pos + count
                &&& bytes.len() == count
                &&& forall|i: int| 0 <= i < count ==> #[trigger] bytes[i] == file[pos + i]
            },
            Err(e) => pos + count > file.len() && e == (ErrorView::UnexpectedEof {
                at: pos,
                needed: count,
            }),
        },
{
}

/// A number is read just where all of its bytes are there.
pub proof fn law_uint_read(file: Seq<u8>, pos: int, width: nat)
    requires
        0 <= pos <= file.len(),
    ensures
        match uint_at(file, pos, width) {
            Ok((n, next)) => {
                &&& pos + width <= file.len()
                &&& next == pos + width
                &&& width == 1 ==> n == file[pos]
                &&& width == 2 ==> n == file[pos] + 0x100 * file[pos + 1]
                &&& width == 4 ==> n == file[pos] + 0x100 * file[pos + 1] + 0x10000 * file[pos + 2] + 0x1000000 * file[pos + 3]
                &&& width == 8 ==> n == file[pos] + 0x100 * file[pos + 1] + 0x10000 * file[pos + 2] + 0x1000000 * file[pos + 3] + 0x100000000 * file[pos + 4] + 0x10000000000 * file[pos + 5] + 0x1000000000000 * file[pos + 6] + 0x100000000000000 * file[pos + 7]
            },
            Err(e) => pos + width > file.len() && e == (ErrorView::UnexpectedEof {
                at: pos,
                needed: width as int,
            }),
        },
{
    if pos + width <= file.len() {
        law_le_value(file.subrange(pos, pos + width));
    }
}

/// A signed number is the unsigned number in the same bytes where that is in the
/// lower half of its range, and otherwise less by the number of values.
pub proof fn law_sint_read(file: Seq<u8>, pos: int, width: nat)
    requires
        0 <= pos <= file.len(),
    ensures
        match (uint_at(file, pos, width), sint_at(file, pos, width)) {
            (Ok((u, end)), Ok((n, next))) => {
                &&& next == end
                &&& width == 1 ==> n == (if u < 0x80 { u } else { u - 0x100 })
                &&& width == 2 ==> n == (if u < 0x8000 { u } else { u - 0x1_0000 })
                &&& width == 4 ==> n == (if u < 0x8000_0000 { u } else { u - 0x1_0000_0000 })
                &&& width == 8 ==> n == (if u < 0x8000_0000_0000_0000 { u } else {
                    u - 0x1_0000_0000_0000_0000
                })
            },
            (Err(e), Err(f)) => e == f,
            _ => false,
        },
{
    lemma_capacities();
}

/// A string is read just where its length and that many bytes are there and are
/// UTF-8. The string is the one with these bytes. Where it is not read, reading
/// stops behind what is there of its length and its bytes.
pub proof fn law_string_read(file: Seq<u8>, pos: int)
    requires
        0 <= pos <= file.len(),
    ensures
        ({
            let length = le_value(file.subrange(pos, pos + 8));
            let body = file.subrange(pos + 8, pos + 8 + length);
            if pos + 8 > file.len() {
                &&& string_at(file, pos) == Err::<(Seq<char>, int), ErrorView>(
                    ErrorView::UnexpectedEof { at: pos, needed: 8 },
                )
                &&& string_stop(file, pos) == pos
            } else if pos + 8 + length > file.len() {
                &&& string_at(file, pos) == Err::<(Seq<char>, int), ErrorView>(
                    ErrorView::UnexpectedEof { at: pos + 8, needed: length as int },
                )
                &&& string_stop(file, pos) == pos + 8
            } else if vstd::utf8::valid_utf8(body) {
                &&& string_at(file, pos) matches Ok((s, next))
                &&& next == pos + 8 + length
                &&& vstd::utf8::encode_utf8(s) == body
            } else {
                &&& string_at(file, pos) == Err::<(Seq<char>, int), ErrorView>(
                    ErrorView::StringNotUtf8,
                )
                &&& string_stop(file, pos) == pos + 8 + length
            }
        }),
{
    if pos + 8 <= file.len() {
        let length = le_value(file.subrange(pos, pos + 8));
        if pos + 8 + length <= file.len() {
            let body = file.subrange(pos + 8, pos + 8 + length);
            if vstd::utf8::valid_utf8(body) {
                vstd::utf8::decode_utf8_encode_utf8(body);
            }
        }
    }
}

/// One item more is read where the earlier ones end, and comes behind them. The
/// first item that cannot be read is what a row of items is rejected for, and
/// where reading it stops is where reading them stops.
pub proof fn law_repeat<T>(
    item: spec_fn(int) -> Parsed<T>,
    stop: spec_fn(int) -> int,
    pos: int,
    count: nat,
)
    ensures
        repeat_at(item, pos, 0) == Ok::<(Seq<T>, int), ErrorView>((Seq::empty(), pos)),
        repeat_stop(item, stop, pos, 0) == pos,
        match repeat_at(item, pos, count) {
            Ok((items, next)) => match item(next) {
                Ok((x, end)) => {
                    &&& repeat_at(item, pos, count + 1) == Ok::<(Seq<T>, int), ErrorView>(
                        (items.push(x), end),
                    )
                    &&& repeat_stop(item, stop, pos, count + 1) == end
                },
                Err(e) => {
                    &&& repeat_at(item, pos, count + 1) == Err::<(Seq<T>, int), ErrorView>(e)
                    &&& repeat_stop(item, stop, pos, count + 1) == stop(next)
                },
            },
            Err(e) => {
                &&& repeat_at(item, pos, count + 1) == Err::<(Seq<T>, int), ErrorView>(e)
                &&& repeat_stop(item, stop, pos, count + 1) == repeat_stop(item, stop, pos, count)
            },
        },
    decreases count,
{
    reveal_with_fuel(repeat_at, 2);
    reveal_with_fuel(repeat_stop, 2);
    if count == 0 {
        if let Ok((x, _)) = item(pos) {
            assert(seq![x] + Seq::<T>::empty() =~= Seq::<T>::empty().push(x));
        }
    } else if let Ok((first, next)) = item(pos) {
        let fewer = (count - 1) as nat;
        law_repeat(item, stop, next, fewer);
        if let Ok((items, end)) = repeat_at(item, next, fewer) {
            if let Ok((x, _)) = item(end) {
                assert(seq![first] + items.push(x) =~= (seq![first] + items).push(x));
            }
        }
    }
}

} // verus!
