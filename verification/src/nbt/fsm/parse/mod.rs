//! The primitive reader: big-endian decoders over a forward cursor.
//!
//! Each decoder has a specification function that says, for a buffer and an
//! offset, what is decoded there and where the next field begins. The
//! executable readers return exactly that, and leave the cursor where it was
//! when they fail.

use byteorder::{BigEndian, ByteOrder};
use vstd::prelude::*;

use crate::nbt::{
    tag_id_of_code, NbtReadError, NbtTagId, NbtTagType, TagValue, MAX_BYTE_ARRAY_LENGTH,
    MAX_INT_ARRAY_LENGTH, MAX_LIST_LENGTH, MAX_LONG_ARRAY_LENGTH,
};

verus! {

/// Whether `count` bytes lie in `bytes` from offset `at` on.
pub open spec fn has_bytes(bytes: Seq<u8>, at: int, count: int) -> bool {
    0 <= at && 0 <= count && at + count <= bytes.len()
}

/// The unsigned value of the two bytes at `at`, most significant first.
pub open spec fn be_u16(bytes: Seq<u8>, at: int) -> int {
    bytes[at] as int * 0x100 + bytes[at + 1] as int
}

/// The unsigned value of the four bytes at `at`, most significant first.
pub open spec fn be_u32(bytes: Seq<u8>, at: int) -> int {
    be_u16(bytes, at) * 0x1_0000 + be_u16(bytes, at + 2)
}

/// The unsigned value of the eight bytes at `at`, most significant first.
pub open spec fn be_u64(bytes: Seq<u8>, at: int) -> int {
    be_u32(bytes, at) * 0x1_0000_0000 + be_u32(bytes, at + 4)
}

/// The byte at `at` read as a two's complement number.
pub open spec fn be_i8(bytes: Seq<u8>, at: int) -> int {
    if bytes[at] >= 0x80 {
        bytes[at] as int - 0x100
    } else {
        bytes[at] as int
    }
}

/// The two bytes at `at` read as a two's complement number.
pub open spec fn be_i16(bytes: Seq<u8>, at: int) -> int {
    if be_u16(bytes, at) >= 0x8000 {
        be_u16(bytes, at) - 0x1_0000
    } else {
        be_u16(bytes, at)
    }
}

/// The four bytes at `at` read as a two's complement number.
pub open spec fn be_i32(bytes: Seq<u8>, at: int) -> int {
    if be_u32(bytes, at) >= 0x8000_0000 {
        be_u32(bytes, at) - 0x1_0000_0000
    } else {
        be_u32(bytes, at)
    }
}

/// The eight bytes at `at` read as a two's complement number.
pub open spec fn be_i64(bytes: Seq<u8>, at: int) -> int {
    if be_u64(bytes, at) >= 0x8000_0000_0000_0000 {
        be_u64(bytes, at) - 0x1_0000_0000_0000_0000
    } else {
        be_u64(bytes, at)
    }
}

/// `byteorder::BigEndian::read_i16` on the bytes from `at` on: the two's
/// complement value of the first two of them, most significant first.
#[verifier::external_body]
fn read_be_i16(bytes: &[u8], at: usize) -> (value: i16)
    requires
        at + 2 <= bytes@.len(),
    ensures
        value as int == be_i16(bytes@, at as int),
{
    BigEndian::read_i16(&bytes[at..])
}

/// `byteorder::BigEndian::read_i32` on the bytes from `at` on: the two's
/// complement value of the first four of them, most significant first.
#[verifier::external_body]
pub(crate) fn read_be_i32(bytes: &[u8], at: usize) -> (value: i32)
    requires
        at + 4 <= bytes@.len(),
    ensures
        value as int == be_i32(bytes@, at as int),
{
    BigEndian::read_i32(&bytes[at..])
}

/// `byteorder::BigEndian::read_i64` on the bytes from `at` on: the two's
/// complement value of the first eight of them, most significant first.
#[verifier::external_body]
fn read_be_i64(bytes: &[u8], at: usize) -> (value: i64)
    requires
        at + 8 <= bytes@.len(),
    ensures
        value as int == be_i64(bytes@, at as int),
{
    BigEndian::read_i64(&bytes[at..])
}

/// `byteorder::BigEndian::read_u32` on the bytes from `at` on: the unsigned
/// value of the first four of them, most significant first.
#[verifier::external_body]
fn read_be_u32(bytes: &[u8], at: usize) -> (value: u32)
    requires
        at + 4 <= bytes@.len(),
    ensures
        value as int == be_u32(bytes@, at as int),
{
    BigEndian::read_u32(&bytes[at..])
}

/// `byteorder::BigEndian::read_u64` on the bytes from `at` on: the unsigned
/// value of the first eight of them, most significant first.
#[verifier::external_body]
fn read_be_u64(bytes: &[u8], at: usize) -> (value: u64)
    requires
        at + 8 <= bytes@.len(),
    ensures
        value as int == be_u64(bytes@, at as int),
{
    BigEndian::read_u64(&bytes[at..])
}

/// The byte `byte` read as a two's complement number.
fn byte_to_i8(byte: u8) -> (value: i8)
    ensures
        value as int == if byte >= 0x80 {
            byte as int - 0x100
        } else {
            byte as int
        },
{
    if byte >= 0x80 {
        (byte as i16 - 0x100) as i8
    } else {
        byte as i8
    }
}

/// `std::string::String::push`, which vstd does not specify: the character
/// is appended to the end of the text.
pub assume_specification[ std::string::String::push ](text: &mut std::string::String, ch: char)
    ensures
        final(text)@ == old(text)@.push(ch),
;

/// What a cursor stands for: the buffer it reads and the offset of the next
/// byte to be read.
pub struct CursorView {
    /// The buffer that is read.
    pub bytes: Seq<u8>,
    /// The offset of the next byte to be read.
    pub pos: int,
}

/// A forward cursor over an owned buffer. It never peeks and never rewinds.
pub struct ByteCursor {
    bytes: Vec<u8>,
    position: usize,
}

impl View for ByteCursor {
    type V = CursorView;

    closed spec fn view(&self) -> CursorView {
        CursorView { bytes: self.bytes@, pos: self.position as int }
    }
}

impl ByteCursor {
    /// A cursor at the start of `bytes`.
    pub fn new(bytes: Vec<u8>) -> (cursor: ByteCursor)
        ensures
            cursor@.bytes == bytes@,
            cursor@.pos == 0,
    {
        ByteCursor { bytes, position: 0 }
    }

    /// The offset of the next byte to be read.
    pub fn position(&self) -> (offset: usize)
        ensures
            offset as int == self@.pos,
    {
        self.position
    }

    /// The length of the buffer.
    pub fn len(&self) -> (length: usize)
        ensures
            length as int == self@.bytes.len(),
    {
        self.bytes.len()
    }

    /// Whether no byte is left to read.
    pub fn is_at_end(&self) -> (done: bool)
        ensures
            done == (self@.pos >= self@.bytes.len()),
    {
        self.position >= self.bytes.len()
    }

    /// Whether `count` bytes are left to read.
    fn has(&self, count: usize) -> (enough: bool)
        ensures
            enough == has_bytes(self@.bytes, self@.pos, count as int),
            self@.bytes.len() <= usize::MAX,
    {
        self.position <= self.bytes.len() && self.bytes.len() - self.position >= count
    }
}

/// The kind that the tag id at offset `at` names: `Io` where the buffer ends
/// before it, `InvalidContent` where the byte names no kind.
pub open spec fn id_at(bytes: Seq<u8>, at: int) -> Result<NbtTagId, NbtReadError> {
    if !has_bytes(bytes, at, 1) {
        Err(NbtReadError::Io)
    } else {
        match tag_id_of_code(bytes[at] as int) {
            Some(kind) => Ok(kind),
            None => Err(NbtReadError::InvalidContent),
        }
    }
}

/// The `count` bytes from `at` on, each taken as the character of that code.
pub open spec fn text_at(bytes: Seq<u8>, at: int, count: int) -> Seq<char> {
    Seq::new(count as nat, |i: int| bytes[at + i] as char)
}

/// The length-prefixed string at offset `at`, and the offset behind it. A
/// negative length is taken as a string that is cut short.
#[verifier::opaque]
pub open spec fn string_at(bytes: Seq<u8>, at: int) -> Result<(Seq<char>, int), NbtReadError> {
    if !has_bytes(bytes, at, 2) {
        Err(NbtReadError::Io)
    } else if be_i16(bytes, at) < 0 || !has_bytes(bytes, at + 2, be_i16(bytes, at)) {
        Err(NbtReadError::Io)
    } else {
        Ok((text_at(bytes, at + 2, be_i16(bytes, at)), at + 2 + be_i16(bytes, at)))
    }
}

/// Reads one tag id. A byte that names no kind is refused with
/// `InvalidContent`; where a kind is read, the result holds it.
pub fn nbt_tag_id(cursor: &mut ByteCursor) -> (id: Result<Option<NbtTagId>, NbtReadError>)
    ensures
        id == match id_at(old(cursor)@.bytes, old(cursor)@.pos) {
            Ok(kind) => Ok::<Option<NbtTagId>, NbtReadError>(Some(kind)),
            Err(e) => Err::<Option<NbtTagId>, NbtReadError>(e),
        },
        final(cursor)@.bytes == old(cursor)@.bytes,
        final(cursor)@.pos == if id is Ok {
            old(cursor)@.pos + 1
        } else {
            old(cursor)@.pos
        },
{
    if !cursor.has(1) {
        return Err(NbtReadError::Io);
    }
    match NbtTagId::from_u8(cursor.bytes[cursor.position]) {
        Some(kind) => {
            cursor.position = cursor.position + 1;
            Ok(Some(kind))
        },
        None => Err(NbtReadError::InvalidContent),
    }
}

/// Reads a length-prefixed string, byte for byte.
pub fn nbt_tag_string(cursor: &mut ByteCursor) -> (text: Result<std::string::String, NbtReadError>)
    ensures
        final(cursor)@.bytes == old(cursor)@.bytes,
        match string_at(old(cursor)@.bytes, old(cursor)@.pos) {
            Ok((chars, next)) => text is Ok && text->Ok_0@ == chars && final(cursor)@.pos == next,
            Err(e) => text == Err::<std::string::String, NbtReadError>(e) && final(cursor)@.pos
                == old(cursor)@.pos,
        },
{
    reveal(string_at);
    if !cursor.has(2) {
        return Err(NbtReadError::Io);
    }
    let declared = read_be_i16(cursor.bytes.as_slice(), cursor.position);
    if declared < 0 {
        return Err(NbtReadError::Io);
    }
    let count = declared as usize;
    let start = cursor.position + 2;
    if cursor.bytes.len() - start < count {
        return Err(NbtReadError::Io);
    }
    let mut text = std::string::String::new();
    let mut i: usize = 0;
    while i < count
        invariant
            i <= count,
            start + count <= cursor.bytes@.len() <= usize::MAX,
            text@ == text_at(cursor.bytes@, start as int, i as int),
        decreases count - i,
    {
        let byte = cursor.bytes[start + i];
        text.push(byte as char);
        i = i + 1;
        assert(text@ =~= text_at(cursor.bytes@, start as int, i as int));
    }
    cursor.position = start + count;
    Ok(text)
}

/// The `count` bytes from `at` on, each as a two's complement number.
pub open spec fn bytes_at(bytes: Seq<u8>, at: int, count: int) -> Seq<i8> {
    Seq::new(count as nat, |i: int| be_i8(bytes, at + i) as i8)
}

/// The `count` four-byte numbers from `at` on.
pub open spec fn ints_at(bytes: Seq<u8>, at: int, count: int) -> Seq<i32> {
    Seq::new(count as nat, |i: int| be_i32(bytes, at + 4 * i) as i32)
}

/// The `count` eight-byte numbers from `at` on.
pub open spec fn longs_at(bytes: Seq<u8>, at: int, count: int) -> Seq<i64> {
    Seq::new(count as nat, |i: int| be_i64(bytes, at + 8 * i) as i64)
}

/// The element count that the array at `at` declares, where its elements take
/// `width` bytes each: `too_long` above `limit`, `NegativeNbtTagLenght` below
/// zero, `Io` where the count or the elements are cut short.
pub open spec fn array_length_at(
    bytes: Seq<u8>,
    at: int,
    width: int,
    limit: int,
    too_long: NbtReadError,
) -> Result<int, NbtReadError> {
    if !has_bytes(bytes, at, 4) {
        Err(NbtReadError::Io)
    } else if be_i32(bytes, at) > limit {
        Err(too_long)
    } else if be_i32(bytes, at) < 0 {
        Err(NbtReadError::NegativeNbtTagLenght)
    } else if !has_bytes(bytes, at + 4, width * be_i32(bytes, at)) {
        Err(NbtReadError::Io)
    } else {
        Ok(be_i32(bytes, at))
    }
}

/// The list header at `at`: the element kind, then the declared length.
pub open spec fn list_header_at(bytes: Seq<u8>, at: int) -> Result<(NbtTagId, i32), NbtReadError> {
    if !has_bytes(bytes, at, 1) {
        Err(NbtReadError::Io)
    } else if tag_id_of_code(bytes[at] as int) is None {
        Err(NbtReadError::InvalidContent)
    } else if !has_bytes(bytes, at + 1, 4) {
        Err(NbtReadError::Io)
    } else if be_i32(bytes, at + 1) > MAX_LIST_LENGTH || be_i32(bytes, at + 1) < 0 {
        Err(NbtReadError::InvalidNbtListLenght)
    } else {
        Ok((tag_id_of_code(bytes[at] as int)->Some_0, be_i32(bytes, at + 1) as i32))
    }
}

/// The payload of a tag of kind `id` at offset `at`, and the offset behind
/// it. A compound and an end tag have no payload; a list has its header only.
#[verifier::opaque]
pub open spec fn payload_at(bytes: Seq<u8>, at: int, id: NbtTagId) -> Result<
    (TagValue, int),
    NbtReadError,
> {
    match id {
        NbtTagId::End => Ok((TagValue::End(None), at)),
        NbtTagId::Byte => if has_bytes(bytes, at, 1) {
            Ok((TagValue::Byte(be_i8(bytes, at) as i8), at + 1))
        } else {
            Err(NbtReadError::Io)
        },
        NbtTagId::Short => if has_bytes(bytes, at, 2) {
            Ok((TagValue::Short(be_i16(bytes, at) as i16), at + 2))
        } else {
            Err(NbtReadError::Io)
        },
        NbtTagId::Int => if has_bytes(bytes, at, 4) {
            Ok((TagValue::Int(be_i32(bytes, at) as i32), at + 4))
        } else {
            Err(NbtReadError::Io)
        },
        NbtTagId::Long => if has_bytes(bytes, at, 8) {
            Ok((TagValue::Long(be_i64(bytes, at) as i64), at + 8))
        } else {
            Err(NbtReadError::Io)
        },
        NbtTagId::Float => if has_bytes(bytes, at, 4) {
            Ok((TagValue::Float(be_u32(bytes, at) as u32), at + 4))
        } else {
            Err(NbtReadError::Io)
        },
        NbtTagId::Double => if has_bytes(bytes, at, 8) {
            Ok((TagValue::Double(be_u64(bytes, at) as u64), at + 8))
        } else {
            Err(NbtReadError::Io)
        },
        NbtTagId::ByteArray => match array_length_at(
            bytes,
            at,
            1,
            MAX_BYTE_ARRAY_LENGTH as int,
            NbtReadError::InvalidNbtByteArrayLenght,
        ) {
            Ok(count) => Ok((TagValue::ByteArray(bytes_at(bytes, at + 4, count)), at + 4 + count)),
            Err(e) => Err(e),
        },
        NbtTagId::String => match string_at(bytes, at) {
            Ok((chars, next)) => Ok((TagValue::String(chars), next)),
            Err(e) => Err(e),
        },
        NbtTagId::List => match list_header_at(bytes, at) {
            Ok((kind, count)) => Ok((TagValue::List(kind, count), at + 5)),
            Err(e) => Err(e),
        },
        NbtTagId::Compound => Ok((TagValue::Compound(Seq::empty()), at)),
        NbtTagId::IntArray => match array_length_at(
            bytes,
            at,
            4,
            MAX_INT_ARRAY_LENGTH as int,
            NbtReadError::InvalidNbtIntArrayLenght,
        ) {
            Ok(count) => Ok(
                (TagValue::IntArray(ints_at(bytes, at + 4, count)), at + 4 + 4 * count),
            ),
            Err(e) => Err(e),
        },
        NbtTagId::LongArray => match array_length_at(
            bytes,
            at,
            8,
            MAX_LONG_ARRAY_LENGTH as int,
            NbtReadError::InvalidNbtLongArrayLenght,
        ) {
            Ok(count) => Ok(
                (TagValue::LongArray(longs_at(bytes, at + 4, count)), at + 4 + 8 * count),
            ),
            Err(e) => Err(e),
        },
    }
}

impl ByteCursor {
    /// Reads the declared length of an array whose elements take `width`
    /// bytes each, and checks that the elements are all there. The cursor
    /// stays where it is.
    fn array_length(&self, width: usize, limit: i32, too_long: NbtReadError) -> (count: Result<
        usize,
        NbtReadError,
    >)
        requires
            1 <= width <= 8,
            limit <= 32767,
        ensures
            self@.bytes.len() <= usize::MAX,
            match array_length_at(self@.bytes, self@.pos, width as int, limit as int, too_long) {
                Ok(declared) => count == Ok::<usize, NbtReadError>(declared as usize) && 0
                    <= declared <= 32767,
                Err(e) => count == Err::<usize, NbtReadError>(e),
            },
    {
        if !self.has(4) {
            return Err(NbtReadError::Io);
        }
        let declared = read_be_i32(self.bytes.as_slice(), self.position);
        if declared > limit {
            return Err(too_long);
        }
        if declared < 0 {
            return Err(NbtReadError::NegativeNbtTagLenght);
        }
        let count = declared as usize;
        assert(count * width <= 32767 * 8) by (nonlinear_arith)
            requires
                count <= 32767,
                width <= 8,
        ;
        if self.bytes.len() - (self.position + 4) < count * width {
            return Err(NbtReadError::Io);
        }
        Ok(count)
    }
}

/// Reads the payload of a tag of kind `tag_id`.
pub fn nbt_tag(cursor: &mut ByteCursor, tag_id: &NbtTagId) -> (tag: Result<
    NbtTagType,
    NbtReadError,
>)
    ensures
        final(cursor)@.bytes == old(cursor)@.bytes,
        match payload_at(old(cursor)@.bytes, old(cursor)@.pos, *tag_id) {
            Ok((value, next)) => tag is Ok && tag->Ok_0@ == value && final(cursor)@.pos == next,
            Err(e) => tag is Err && tag->Err_0 == e && final(cursor)@.pos == old(cursor)@.pos,
        },
{
    reveal(payload_at);
    match tag_id {
        NbtTagId::End => Ok(NbtTagType::End(None)),
        NbtTagId::Byte => {
            if !cursor.has(1) {
                return Err(NbtReadError::Io);
            }
            let value = byte_to_i8(cursor.bytes[cursor.position]);
            cursor.position = cursor.position + 1;
            Ok(NbtTagType::Byte(value))
        },
        NbtTagId::Short => {
            if !cursor.has(2) {
                return Err(NbtReadError::Io);
            }
            let value = read_be_i16(cursor.bytes.as_slice(), cursor.position);
            cursor.position = cursor.position + 2;
            Ok(NbtTagType::Short(value))
        },
        NbtTagId::Int => {
            if !cursor.has(4) {
                return Err(NbtReadError::Io);
            }
            let value = read_be_i32(cursor.bytes.as_slice(), cursor.position);
            cursor.position = cursor.position + 4;
            Ok(NbtTagType::Int(value))
        },
        NbtTagId::Long => {
            if !cursor.has(8) {
                return Err(NbtReadError::Io);
            }
            let value = read_be_i64(cursor.bytes.as_slice(), cursor.position);
            cursor.position = cursor.position + 8;
            Ok(NbtTagType::Long(value))
        },
        NbtTagId::Float => {
            if !cursor.has(4) {
                return Err(NbtReadError::Io);
            }
            let bits = read_be_u32(cursor.bytes.as_slice(), cursor.position);
            cursor.position = cursor.position + 4;
            Ok(NbtTagType::Float(bits))
        },
        NbtTagId::Double => {
            if !cursor.has(8) {
                return Err(NbtReadError::Io);
            }
            let bits = read_be_u64(cursor.bytes.as_slice(), cursor.position);
            cursor.position = cursor.position + 8;
            Ok(NbtTagType::Double(bits))
        },
        NbtTagId::ByteArray => {
            let count = match cursor.array_length(
                1,
                MAX_BYTE_ARRAY_LENGTH,
                NbtReadError::InvalidNbtByteArrayLenght,
            ) {
                Ok(count) => count,
                Err(e) => return Err(e),
            };
            let start = cursor.position + 4;
            let mut items: Vec<i8> = Vec::with_capacity(count);
            let mut i: usize = 0;
            while i < count
                invariant
                    i <= count,
                    start + count <= cursor.bytes@.len() <= usize::MAX,
                    items@ == bytes_at(cursor.bytes@, start as int, i as int),
                decreases count - i,
            {
                items.push(byte_to_i8(cursor.bytes[start + i]));
                i = i + 1;
                assert(items@ =~= bytes_at(cursor.bytes@, start as int, i as int));
            }
            cursor.position = start + count;
            Ok(NbtTagType::ByteArray(items))
        },
        NbtTagId::String => {
            match nbt_tag_string(cursor) {
                Ok(text) => Ok(NbtTagType::String(text)),
                Err(e) => Err(e),
            }
        },
        NbtTagId::List => {
            if !cursor.has(1) {
                return Err(NbtReadError::Io);
            }
            let kind = match NbtTagId::from_u8(cursor.bytes[cursor.position]) {
                Some(kind) => kind,
                None => return Err(NbtReadError::InvalidContent),
            };
            if !cursor.has(5) {
                return Err(NbtReadError::Io);
            }
            let declared = read_be_i32(cursor.bytes.as_slice(), cursor.position + 1);
            if declared > MAX_LIST_LENGTH || declared < 0 {
                return Err(NbtReadError::InvalidNbtListLenght);
            }
            cursor.position = cursor.position + 5;
            Ok(NbtTagType::List((kind, declared)))
        },
        NbtTagId::Compound => Ok(NbtTagType::Compound(std::string::String::new())),
        NbtTagId::IntArray => {
            let count = match cursor.array_length(
                4,
                MAX_INT_ARRAY_LENGTH,
                NbtReadError::InvalidNbtIntArrayLenght,
            ) {
                Ok(count) => count,
                Err(e) => return Err(e),
            };
            let start = cursor.position + 4;
            let mut items: Vec<i32> = Vec::with_capacity(count);
            let mut i: usize = 0;
            while i < count
                invariant
                    i <= count <= 32767,
                    start + 4 * count <= cursor.bytes@.len() <= usize::MAX,
                    items@ == ints_at(cursor.bytes@, start as int, i as int),
                decreases count - i,
            {
                items.push(read_be_i32(cursor.bytes.as_slice(), start + 4 * i));
                i = i + 1;
                assert(items@ =~= ints_at(cursor.bytes@, start as int, i as int));
            }
            cursor.position = start + 4 * count;
            Ok(NbtTagType::IntArray(items))
        },
        NbtTagId::LongArray => {
            let count = match cursor.array_length(
                8,
                MAX_LONG_ARRAY_LENGTH,
                NbtReadError::InvalidNbtLongArrayLenght,
            ) {
                Ok(count) => count,
                Err(e) => return Err(e),
            };
            let start = cursor.position + 4;
            let mut items: Vec<i64> = Vec::with_capacity(count);
            let mut i: usize = 0;
            while i < count
                invariant
                    i <= count <= 32767,
                    start + 8 * count <= cursor.bytes@.len() <= usize::MAX,
                    items@ == longs_at(cursor.bytes@, start as int, i as int),
                decreases count - i,
            {
                items.push(read_be_i64(cursor.bytes.as_slice(), start + 8 * i));
                i = i + 1;
                assert(items@ =~= longs_at(cursor.bytes@, start as int, i as int));
            }
            cursor.position = start + 8 * count;
            Ok(NbtTagType::LongArray(items))
        },
    }
}

} // verus!
