//! Tags and their positions inside the parsed buffer.

use vstd::prelude::*;

pub mod driver;
pub mod fsm;
pub mod laws;
pub mod machine;
pub mod slices;
pub mod trace;

pub use crate::nbt::driver::{DocumentView, NbtData};

verus! {

/// The greatest element count that a list may declare.
pub const MAX_LIST_LENGTH: i32 = 32767;

/// The greatest element count that a byte array may declare.
pub const MAX_BYTE_ARRAY_LENGTH: i32 = 32767;

/// The greatest element count that an int array may declare.
pub const MAX_INT_ARRAY_LENGTH: i32 = 32767;

/// The greatest element count that a long array may declare.
pub const MAX_LONG_ARRAY_LENGTH: i32 = 32767;

/// Why a buffer is not a document.
#[derive(Debug, Copy, Clone, Eq, PartialEq, Structural)]
pub enum NbtReadError {
    /// The buffer ended before a field that had to be read.
    Io,
    /// A tag id outside the thirteen known kinds.
    InvalidContent,
    /// The buffer goes on behind the root compound, or ends inside a compound
    /// or a list.
    InvalidNbtDepth,
    /// A list declares a negative length or one above `MAX_LIST_LENGTH`.
    InvalidNbtListLenght,
    /// A list element was asked for beyond the declared length.
    NbtListLongerThanDeclared,
    /// A byte array declares a length above `MAX_BYTE_ARRAY_LENGTH`.
    InvalidNbtByteArrayLenght,
    /// An int array declares a length above `MAX_INT_ARRAY_LENGTH`.
    InvalidNbtIntArrayLenght,
    /// A long array declares a length above `MAX_LONG_ARRAY_LENGTH`.
    InvalidNbtLongArrayLenght,
    /// The first tag of the buffer is not a compound.
    InvalidNbtRootTagId,
    /// An array declares a negative length.
    NegativeNbtTagLenght,
    /// The buffer holds no byte at all.
    EmptyFile,
}

/// The kind of a tag: one of thirteen, each with its id on the wire.
#[derive(Debug, Copy, Clone, Eq, PartialEq, Hash, PartialOrd, Ord, Structural)]
pub enum NbtTagId {
    End,
    Byte,
    Short,
    Int,
    Long,
    Float,
    Double,
    ByteArray,
    String,
    List,
    Compound,
    IntArray,
    LongArray,
}

/// The wire id of each kind, as a mathematical integer.
pub open spec fn tag_id_code(id: NbtTagId) -> int {
    match id {
        NbtTagId::End => 0,
        NbtTagId::Byte => 1,
        NbtTagId::Short => 2,
        NbtTagId::Int => 3,
        NbtTagId::Long => 4,
        NbtTagId::Float => 5,
        NbtTagId::Double => 6,
        NbtTagId::ByteArray => 7,
        NbtTagId::String => 8,
        NbtTagId::List => 9,
        NbtTagId::Compound => 10,
        NbtTagId::IntArray => 11,
        NbtTagId::LongArray => 12,
    }
}

/// The kind that a wire id names, if it names one.
pub open spec fn tag_id_of_code(code: int) -> Option<NbtTagId> {
    if code == 0 {
        Some(NbtTagId::End)
    } else if code == 1 {
        Some(NbtTagId::Byte)
    } else if code == 2 {
        Some(NbtTagId::Short)
    } else if code == 3 {
        Some(NbtTagId::Int)
    } else if code == 4 {
        Some(NbtTagId::Long)
    } else if code == 5 {
        Some(NbtTagId::Float)
    } else if code == 6 {
        Some(NbtTagId::Double)
    } else if code == 7 {
        Some(NbtTagId::ByteArray)
    } else if code == 8 {
        Some(NbtTagId::String)
    } else if code == 9 {
        Some(NbtTagId::List)
    } else if code == 10 {
        Some(NbtTagId::Compound)
    } else if code == 11 {
        Some(NbtTagId::IntArray)
    } else if code == 12 {
        Some(NbtTagId::LongArray)
    } else {
        None
    }
}

impl Default for NbtTagId {
    fn default() -> (id: NbtTagId)
        ensures
            id == NbtTagId::End,
    {
        NbtTagId::End
    }
}

impl NbtTagId {
    pub fn new() -> (id: NbtTagId)
        ensures
            id == NbtTagId::End,
    {
        NbtTagId::End
    }

    pub fn from_u8(value: u8) -> (id: Option<NbtTagId>)
        ensures
            id == tag_id_of_code(value as int),
    {
        match value {
            0 => Some(NbtTagId::End),
            1 => Some(NbtTagId::Byte),
            2 => Some(NbtTagId::Short),
            3 => Some(NbtTagId::Int),
            4 => Some(NbtTagId::Long),
            5 => Some(NbtTagId::Float),
            6 => Some(NbtTagId::Double),
            7 => Some(NbtTagId::ByteArray),
            8 => Some(NbtTagId::String),
            9 => Some(NbtTagId::List),
            10 => Some(NbtTagId::Compound),
            11 => Some(NbtTagId::IntArray),
            12 => Some(NbtTagId::LongArray),
            _ => None,
        }
    }

    pub fn into_u8(&self) -> (code: u8)
        ensures
            code as int == tag_id_code(*self),
    {
        match self {
            NbtTagId::End => 0,
            NbtTagId::Byte => 1,
            NbtTagId::Short => 2,
            NbtTagId::Int => 3,
            NbtTagId::Long => 4,
            NbtTagId::Float => 5,
            NbtTagId::Double => 6,
            NbtTagId::ByteArray => 7,
            NbtTagId::String => 8,
            NbtTagId::List => 9,
            NbtTagId::Compound => 10,
            NbtTagId::IntArray => 11,
            NbtTagId::LongArray => 12,
        }
    }
}

/// The decoded value of a tag. The composite openers hold their header only:
/// a list its element kind and declared length, a compound nothing. Floating
/// point payloads are held as their IEEE-754 bit patterns.
#[derive(Debug, PartialEq, PartialOrd)]
pub enum NbtTagType {
    End(Option<u8>),
    Byte(i8),
    Short(i16),
    Int(i32),
    Long(i64),
    Float(u32),
    Double(u64),
    ByteArray(Vec<i8>),
    String(String),
    List((NbtTagId, i32)),
    Compound(String),
    IntArray(Vec<i32>),
    LongArray(Vec<i64>),
}

/// The mathematical value of an `NbtTagType`.
pub enum TagValue {
    End(Option<u8>),
    Byte(i8),
    Short(i16),
    Int(i32),
    Long(i64),
    Float(u32),
    Double(u64),
    ByteArray(Seq<i8>),
    String(Seq<char>),
    List(NbtTagId, i32),
    Compound(Seq<char>),
    IntArray(Seq<i32>),
    LongArray(Seq<i64>),
}

impl TagValue {
    /// The kind of tag that carries this value.
    pub open spec fn kind(self) -> NbtTagId {
        match self {
            TagValue::End(_) => NbtTagId::End,
            TagValue::Byte(_) => NbtTagId::Byte,
            TagValue::Short(_) => NbtTagId::Short,
            TagValue::Int(_) => NbtTagId::Int,
            TagValue::Long(_) => NbtTagId::Long,
            TagValue::Float(_) => NbtTagId::Float,
            TagValue::Double(_) => NbtTagId::Double,
            TagValue::ByteArray(_) => NbtTagId::ByteArray,
            TagValue::String(_) => NbtTagId::String,
            TagValue::List(_, _) => NbtTagId::List,
            TagValue::Compound(_) => NbtTagId::Compound,
            TagValue::IntArray(_) => NbtTagId::IntArray,
            TagValue::LongArray(_) => NbtTagId::LongArray,
        }
    }
}

impl View for NbtTagType {
    type V = TagValue;

    open spec fn view(&self) -> TagValue {
        match self {
            NbtTagType::End(marker) => TagValue::End(*marker),
            NbtTagType::Byte(x) => TagValue::Byte(*x),
            NbtTagType::Short(x) => TagValue::Short(*x),
            NbtTagType::Int(x) => TagValue::Int(*x),
            NbtTagType::Long(x) => TagValue::Long(*x),
            NbtTagType::Float(bits) => TagValue::Float(*bits),
            NbtTagType::Double(bits) => TagValue::Double(*bits),
            NbtTagType::ByteArray(items) => TagValue::ByteArray(items@),
            NbtTagType::String(text) => TagValue::String(text@),
            NbtTagType::List(header) => TagValue::List(header.0, header.1),
            NbtTagType::Compound(text) => TagValue::Compound(text@),
            NbtTagType::IntArray(items) => TagValue::IntArray(items@),
            NbtTagType::LongArray(items) => TagValue::LongArray(items@),
        }
    }
}

impl Clone for NbtTagType {
    fn clone(&self) -> (copy: NbtTagType)
        ensures
            copy@ == self@,
    {
        match self {
            NbtTagType::End(marker) => NbtTagType::End(*marker),
            NbtTagType::Byte(x) => NbtTagType::Byte(*x),
            NbtTagType::Short(x) => NbtTagType::Short(*x),
            NbtTagType::Int(x) => NbtTagType::Int(*x),
            NbtTagType::Long(x) => NbtTagType::Long(*x),
            NbtTagType::Float(bits) => NbtTagType::Float(*bits),
            NbtTagType::Double(bits) => NbtTagType::Double(*bits),
            NbtTagType::ByteArray(items) => {
                let copy = items.clone();
                assert(copy@ =~= items@);
                NbtTagType::ByteArray(copy)
            },
            NbtTagType::String(text) => NbtTagType::String(text.clone()),
            NbtTagType::List(header) => NbtTagType::List((header.0, header.1)),
            NbtTagType::Compound(text) => NbtTagType::Compound(text.clone()),
            NbtTagType::IntArray(items) => {
                let copy = items.clone();
                assert(copy@ =~= items@);
                NbtTagType::IntArray(copy)
            },
            NbtTagType::LongArray(items) => {
                let copy = items.clone();
                assert(copy@ =~= items@);
                NbtTagType::LongArray(copy)
            },
        }
    }
}

impl Default for NbtTagType {
    fn default() -> (value: NbtTagType)
        ensures
            value@ == TagValue::End(None),
    {
        NbtTagType::End(None)
    }
}

impl NbtTagType {
    pub fn into_id(&self) -> (id: NbtTagId)
        ensures
            id == self@.kind(),
    {
        match self {
            NbtTagType::End(_) => NbtTagId::End,
            NbtTagType::Byte(_) => NbtTagId::Byte,
            NbtTagType::Short(_) => NbtTagId::Short,
            NbtTagType::Int(_) => NbtTagId::Int,
            NbtTagType::Long(_) => NbtTagId::Long,
            NbtTagType::Float(_) => NbtTagId::Float,
            NbtTagType::Double(_) => NbtTagId::Double,
            NbtTagType::ByteArray(_) => NbtTagId::ByteArray,
            NbtTagType::String(_) => NbtTagId::String,
            NbtTagType::List(_) => NbtTagId::List,
            NbtTagType::Compound(_) => NbtTagId::Compound,
            NbtTagType::IntArray(_) => NbtTagId::IntArray,
            NbtTagType::LongArray(_) => NbtTagId::LongArray,
        }
    }
}

/// The inclusive byte ranges of a tag inside the parsed buffer. The range of
/// the id is absent for a list element, that of the name for a list element
/// and for an end tag, that of the value for an end tag.
#[derive(Debug, Copy, Clone, Eq, PartialEq, Hash, Structural)]
pub struct NbtTagPositionRawBytes {
    /// The first byte of the tag.
    pub byte_start_all: usize,
    /// The last byte of the tag itself, without its descendants.
    pub byte_end_all: usize,
    /// The last byte of the subtree of the tag.
    pub byte_end_all_with_children: usize,
    /// The byte of the id.
    pub byte_start_id: Option<usize>,
    /// The byte of the id.
    pub byte_end_id: Option<usize>,
    /// The first byte of the name: of its length.
    pub byte_start_name: Option<usize>,
    /// The last byte of the name.
    pub byte_end_name: Option<usize>,
    /// The first byte of the value.
    pub byte_start_value: Option<usize>,
    /// The last byte of the value; one before the first where the value
    /// takes no byte.
    pub byte_end_value: Option<usize>,
}

impl NbtTagPositionRawBytes {
    /// The ranges before anything is recorded: the whole tag at offset 0, the
    /// parts absent.
    pub open spec fn blank() -> NbtTagPositionRawBytes {
        NbtTagPositionRawBytes {
            byte_start_all: 0,
            byte_end_all: 0,
            byte_end_all_with_children: 0,
            byte_start_id: None,
            byte_end_id: None,
            byte_start_name: None,
            byte_end_name: None,
            byte_start_value: None,
            byte_end_value: None,
        }
    }

    pub fn new() -> (ranges: NbtTagPositionRawBytes)
        ensures
            ranges == NbtTagPositionRawBytes::blank(),
    {
        NbtTagPositionRawBytes {
            byte_start_all: 0,
            byte_end_all: 0,
            byte_end_all_with_children: 0,
            byte_start_id: None,
            byte_end_id: None,
            byte_start_name: None,
            byte_end_name: None,
            byte_start_value: None,
            byte_end_value: None,
        }
    }

    pub fn reset(&mut self)
        ensures
            *final(self) == NbtTagPositionRawBytes::blank(),
    {
        self.byte_start_all = 0;
        self.byte_end_all = 0;
        self.byte_end_all_with_children = 0;
        self.byte_start_id = None;
        self.byte_end_id = None;
        self.byte_start_name = None;
        self.byte_end_name = None;
        self.byte_start_value = None;
        self.byte_end_value = None;
    }

    pub fn byte_start_all(&self) -> (value: usize)
        ensures
            value == self.byte_start_all,
    {
        self.byte_start_all
    }

    pub fn byte_end_all(&self) -> (value: usize)
        ensures
            value == self.byte_end_all,
    {
        self.byte_end_all
    }

    pub fn byte_end_all_with_children(&self) -> (value: usize)
        ensures
            value == self.byte_end_all_with_children,
    {
        self.byte_end_all_with_children
    }

    pub fn byte_start_id(&self) -> (value: Option<usize>)
        ensures
            value == self.byte_start_id,
    {
        self.byte_start_id
    }

    pub fn byte_end_id(&self) -> (value: Option<usize>)
        ensures
            value == self.byte_end_id,
    {
        self.byte_end_id
    }

    pub fn byte_start_name(&self) -> (value: Option<usize>)
        ensures
            value == self.byte_start_name,
    {
        self.byte_start_name
    }

    pub fn byte_end_name(&self) -> (value: Option<usize>)
        ensures
            value == self.byte_end_name,
    {
        self.byte_end_name
    }

    pub fn byte_start_value(&self) -> (value: Option<usize>)
        ensures
            value == self.byte_start_value,
    {
        self.byte_start_value
    }

    pub fn byte_end_value(&self) -> (value: Option<usize>)
        ensures
            value == self.byte_end_value,
    {
        self.byte_end_value
    }

    pub fn set_byte_start_all(&mut self, byte_start_all: usize)
        ensures
            *final(self) == (NbtTagPositionRawBytes {
                byte_start_all: byte_start_all,
                ..*old(self)
            }),
    {
        self.byte_start_all = byte_start_all;
    }

    pub fn set_byte_end_all(&mut self, byte_end_all: usize)
        ensures
            *final(self) == (NbtTagPositionRawBytes { byte_end_all: byte_end_all, ..*old(self) }),
    {
        self.byte_end_all = byte_end_all;
    }

    pub fn set_byte_end_all_with_children(&mut self, byte_end_all_with_children: usize)
        ensures
            *final(self) == (NbtTagPositionRawBytes {
                byte_end_all_with_children: byte_end_all_with_children,
                ..*old(self)
            }),
    {
        self.byte_end_all_with_children = byte_end_all_with_children;
    }

    pub fn set_byte_start_id(&mut self, byte_start_id: usize)
        ensures
            *final(self) == (NbtTagPositionRawBytes {
                byte_start_id: Some(byte_start_id),
                ..*old(self)
            }),
    {
        self.byte_start_id = Some(byte_start_id);
    }

    pub fn set_byte_end_id(&mut self, byte_end_id: usize)
        ensures
            *final(self) == (NbtTagPositionRawBytes {
                byte_end_id: Some(byte_end_id),
                ..*old(self)
            }),
    {
        self.byte_end_id = Some(byte_end_id);
    }

    pub fn set_byte_start_name(&mut self, byte_start_name: usize)
        ensures
            *final(self) == (NbtTagPositionRawBytes {
                byte_start_name: Some(byte_start_name),
                ..*old(self)
            }),
    {
        self.byte_start_name = Some(byte_start_name);
    }

    pub fn set_byte_end_name(&mut self, byte_end_name: usize)
        ensures
            *final(self) == (NbtTagPositionRawBytes {
                byte_end_name: Some(byte_end_name),
                ..*old(self)
            }),
    {
        self.byte_end_name = Some(byte_end_name);
    }

    pub fn set_byte_start_value(&mut self, byte_start_value: usize)
        ensures
            *final(self) == (NbtTagPositionRawBytes {
                byte_start_value: Some(byte_start_value),
                ..*old(self)
            }),
    {
        self.byte_start_value = Some(byte_start_value);
    }

    pub fn set_byte_end_value(&mut self, byte_end_value: usize)
        ensures
            *final(self) == (NbtTagPositionRawBytes {
                byte_end_value: Some(byte_end_value),
                ..*old(self)
            }),
    {
        self.byte_end_value = Some(byte_end_value);
    }
}

impl Default for NbtTagPositionRawBytes {
    fn default() -> (ranges: NbtTagPositionRawBytes)
        ensures
            ranges == NbtTagPositionRawBytes::blank(),
    {
        NbtTagPositionRawBytes::new()
    }
}

/// The mathematical value of an `NbtTagPosition`.
pub struct PositionView {
    pub raw_bytes: NbtTagPositionRawBytes,
    pub index: usize,
    pub depth: i64,
    pub parent: usize,
    pub children: Seq<usize>,
}

impl PositionView {
    /// The position before anything is recorded.
    pub open spec fn blank() -> PositionView {
        PositionView {
            raw_bytes: NbtTagPositionRawBytes::blank(),
            index: 0,
            depth: 0,
            parent: 0,
            children: Seq::empty(),
        }
    }
}

/// Where a tag lies: its byte ranges, its index in the order of emission, its
/// depth in the tree, the index of its parent and those of its children. The
/// root is its own parent.
#[derive(Debug, Eq, PartialEq, Hash)]
pub struct NbtTagPosition {
    /// The byte ranges of the tag.
    pub raw_bytes: NbtTagPositionRawBytes,
    /// The index of the tag in the order of emission.
    pub index: usize,
    /// The depth of the tag in the tree; the root lies at depth 0.
    pub depth: i64,
    /// The index of the parent; the root is its own parent.
    pub parent: usize,
    /// The indices of the children, in the order of emission.
    pub children: Vec<usize>,
}

impl View for NbtTagPosition {
    type V = PositionView;

    open spec fn view(&self) -> PositionView {
        PositionView {
            raw_bytes: self.raw_bytes,
            index: self.index,
            depth: self.depth,
            parent: self.parent,
            children: self.children@,
        }
    }
}

impl Clone for NbtTagPosition {
    fn clone(&self) -> (copy: NbtTagPosition)
        ensures
            copy@ == self@,
    {
        let children = self.children.clone();
        assert(children@ =~= self.children@);
        NbtTagPosition {
            raw_bytes: self.raw_bytes,
            index: self.index,
            depth: self.depth,
            parent: self.parent,
            children,
        }
    }
}

impl Default for NbtTagPosition {
    fn default() -> (position: NbtTagPosition)
        ensures
            position@ == PositionView::blank(),
    {
        NbtTagPosition::new()
    }
}

impl NbtTagPosition {
    pub fn new() -> (position: NbtTagPosition)
        ensures
            position@ == PositionView::blank(),
    {
        NbtTagPosition {
            raw_bytes: NbtTagPositionRawBytes::new(),
            index: 0,
            depth: 0,
            parent: 0,
            children: Vec::new(),
        }
    }

    pub fn reset(&mut self)
        ensures
            final(self)@ == PositionView::blank(),
    {
        self.raw_bytes.reset();
        self.index = 0;
        self.depth = 0;
        self.parent = 0;
        self.children = Vec::new();
    }

    pub fn byte_start_all(&self) -> (value: usize)
        ensures
            value == self.raw_bytes.byte_start_all,
    {
        self.raw_bytes.byte_start_all()
    }

    pub fn byte_end_all(&self) -> (value: usize)
        ensures
            value == self.raw_bytes.byte_end_all,
    {
        self.raw_bytes.byte_end_all()
    }

    pub fn byte_end_all_with_children(&self) -> (value: usize)
        ensures
            value == self.raw_bytes.byte_end_all_with_children,
    {
        self.raw_bytes.byte_end_all_with_children()
    }

    pub fn byte_start_id(&self) -> (value: Option<usize>)
        ensures
            value == self.raw_bytes.byte_start_id,
    {
        self.raw_bytes.byte_start_id()
    }

    pub fn byte_end_id(&self) -> (value: Option<usize>)
        ensures
            value == self.raw_bytes.byte_end_id,
    {
        self.raw_bytes.byte_end_id()
    }

    pub fn byte_start_name(&self) -> (value: Option<usize>)
        ensures
            value == self.raw_bytes.byte_start_name,
    {
        self.raw_bytes.byte_start_name()
    }

    pub fn byte_end_name(&self) -> (value: Option<usize>)
        ensures
            value == self.raw_bytes.byte_end_name,
    {
        self.raw_bytes.byte_end_name()
    }

    pub fn byte_start_value(&self) -> (value: Option<usize>)
        ensures
            value == self.raw_bytes.byte_start_value,
    {
        self.raw_bytes.byte_start_value()
    }

    pub fn byte_end_value(&self) -> (value: Option<usize>)
        ensures
            value == self.raw_bytes.byte_end_value,
    {
        self.raw_bytes.byte_end_value()
    }

    pub fn set_byte_start_all(&mut self, byte_start_all: usize)
        ensures
            final(self)@ == (PositionView {
                raw_bytes: NbtTagPositionRawBytes {
                    byte_start_all: byte_start_all,
                    ..old(self).raw_bytes
                },
                ..old(self)@
            }),
    {
        self.raw_bytes.set_byte_start_all(byte_start_all)
    }

    pub fn set_byte_end_all(&mut self, byte_end_all: usize)
        ensures
            final(self)@ == (PositionView {
                raw_bytes: NbtTagPositionRawBytes {
                    byte_end_all: byte_end_all,
                    ..old(self).raw_bytes
                },
                ..old(self)@
            }),
    {
        self.raw_bytes.set_byte_end_all(byte_end_all)
    }

    pub fn set_byte_end_all_with_children(&mut self, byte_end_all_with_children: usize)
        ensures
            final(self)@ == (PositionView {
                raw_bytes: NbtTagPositionRawBytes {
                    byte_end_all_with_children: byte_end_all_with_children,
                    ..old(self).raw_bytes
                },
                ..old(self)@
            }),
    {
        self.raw_bytes.set_byte_end_all_with_children(byte_end_all_with_children)
    }

    pub fn set_byte_start_id(&mut self, byte_start_id: usize)
        ensures
            final(self)@ == (PositionView {
                raw_bytes: NbtTagPositionRawBytes {
                    byte_start_id: Some(byte_start_id),
                    ..old(self).raw_bytes
                },
                ..old(self)@
            }),
    {
        self.raw_bytes.set_byte_start_id(byte_start_id)
    }

    pub fn set_byte_end_id(&mut self, byte_end_id: usize)
        ensures
            final(self)@ == (PositionView {
                raw_bytes: NbtTagPositionRawBytes {
                    byte_end_id: Some(byte_end_id),
                    ..old(self).raw_bytes
                },
                ..old(self)@
            }),
    {
        self.raw_bytes.set_byte_end_id(byte_end_id)
    }

    pub fn set_byte_start_name(&mut self, byte_start_name: usize)
        ensures
            final(self)@ == (PositionView {
                raw_bytes: NbtTagPositionRawBytes {
                    byte_start_name: Some(byte_start_name),
                    ..old(self).raw_bytes
                },
                ..old(self)@
            }),
    {
        self.raw_bytes.set_byte_start_name(byte_start_name)
    }

    pub fn set_byte_end_name(&mut self, byte_end_name: usize)
        ensures
            final(self)@ == (PositionView {
                raw_bytes: NbtTagPositionRawBytes {
                    byte_end_name: Some(byte_end_name),
                    ..old(self).raw_bytes
                },
                ..old(self)@
            }),
    {
        self.raw_bytes.set_byte_end_name(byte_end_name)
    }

    pub fn set_byte_start_value(&mut self, byte_start_value: usize)
        ensures
            final(self)@ == (PositionView {
                raw_bytes: NbtTagPositionRawBytes {
                    byte_start_value: Some(byte_start_value),
                    ..old(self).raw_bytes
                },
                ..old(self)@
            }),
    {
        self.raw_bytes.set_byte_start_value(byte_start_value)
    }

    pub fn set_byte_end_value(&mut self, byte_end_value: usize)
        ensures
            final(self)@ == (PositionView {
                raw_bytes: NbtTagPositionRawBytes {
                    byte_end_value: Some(byte_end_value),
                    ..old(self).raw_bytes
                },
                ..old(self)@
            }),
    {
        self.raw_bytes.set_byte_end_value(byte_end_value)
    }

    /// The indices of the children, open to change.
    pub fn children(&mut self) -> (children: &mut Vec<usize>)
        ensures
            *children == old(self).children,
            *final(self) == (NbtTagPosition { children: *final(children), ..*old(self) }),
    {
        &mut self.children
    }

    pub fn index(&self) -> (index: usize)
        ensures
            index == self.index,
    {
        self.index
    }

    pub fn set_index(&mut self, index: usize)
        ensures
            final(self)@ == (PositionView { index: index, ..old(self)@ }),
    {
        self.index = index;
    }

    pub fn depth(&self) -> (depth: i64)
        ensures
            depth == self.depth,
    {
        self.depth
    }

    pub fn set_depth(&mut self, depth: i64)
        ensures
            final(self)@ == (PositionView { depth: depth, ..old(self)@ }),
    {
        self.depth = depth;
    }

    pub fn parent(&self) -> (parent: usize)
        ensures
            parent == self.parent,
    {
        self.parent
    }

    pub fn set_parent(&mut self, parent: usize)
        ensures
            final(self)@ == (PositionView { parent: parent, ..old(self)@ }),
    {
        self.parent = parent;
    }
}

/// The mathematical value of an `NbtTag`.
pub struct TagView {
    pub name: Seq<char>,
    pub value: TagValue,
    pub position: PositionView,
}

impl TagView {
    /// The tag before anything is recorded: an end tag without a name.
    pub open spec fn blank() -> TagView {
        TagView { name: Seq::empty(), value: TagValue::End(None), position: PositionView::blank() }
    }
}

/// One tag of a document: its name, its decoded value and its position. The
/// name is empty for a list element and for an end tag.
#[derive(Debug, PartialEq)]
pub struct NbtTag {
    pub name: std::string::String,
    pub value: NbtTagType,
    pub position: NbtTagPosition,
}

impl View for NbtTag {
    type V = TagView;

    open spec fn view(&self) -> TagView {
        TagView { name: self.name@, value: self.value@, position: self.position@ }
    }
}

impl Clone for NbtTag {
    fn clone(&self) -> (copy: NbtTag)
        ensures
            copy@ == self@,
    {
        NbtTag {
            name: self.name.clone(),
            value: self.value.clone(),
            position: self.position.clone(),
        }
    }
}

impl Default for NbtTag {
    fn default() -> (tag: NbtTag)
        ensures
            tag@ == TagView::blank(),
    {
        NbtTag::new()
    }
}

impl NbtTag {
    pub fn new() -> (tag: NbtTag)
        ensures
            tag@ == TagView::blank(),
    {
        NbtTag {
            name: std::string::String::new(),
            value: NbtTagType::End(None),
            position: NbtTagPosition::new(),
        }
    }

    pub fn value(&self) -> (value: &NbtTagType)
        ensures
            *value == self.value,
    {
        &self.value
    }

    pub fn set_value(&mut self, value: NbtTagType)
        ensures
            final(self)@ == (TagView { value: value@, ..old(self)@ }),
    {
        self.value = value;
    }

    pub fn name(&self) -> (name: &str)
        ensures
            name@ == self.name@,
    {
        self.name.as_str()
    }

    pub fn set_name(&mut self, name: std::string::String)
        ensures
            final(self)@ == (TagView { name: name@, ..old(self)@ }),
    {
        self.name = name;
    }

    pub fn position(&self) -> (position: &NbtTagPosition)
        ensures
            *position == self.position,
    {
        &self.position
    }

    /// The position, open to change.
    pub fn position_as_mut(&mut self) -> (position: &mut NbtTagPosition)
        ensures
            *position == old(self).position,
            *final(self) == (NbtTag { position: *final(position), ..*old(self) }),
    {
        &mut self.position
    }

    pub fn set_position(&mut self, position: NbtTagPosition)
        ensures
            final(self)@ == (TagView { position: position@, ..old(self)@ }),
    {
        self.position = position;
    }

    /// The indices of the children, open to change.
    pub fn children(&mut self) -> (children: &mut Vec<usize>)
        ensures
            *children == old(self).position.children,
            *final(self) == (NbtTag {
                position: NbtTagPosition { children: *final(children), ..old(self).position },
                ..*old(self)
            }),
    {
        &mut self.position.children
    }
}

/// A wire id and the kind it names determine each other.
pub proof fn tag_id_code_round_trip(id: NbtTagId)
    ensures
        tag_id_of_code(tag_id_code(id)) == Some(id),
{
}

} // verus!
