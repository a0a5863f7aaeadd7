//! Field types of a data page, their one-byte tags, and the directory of types.
use crate::codec::{
    le_u16_at, le_u32_at, BytesEncoderDecoder, U16EncoderDecoder, U32EncoderDecoder,
    U8EncoderDecoder,
};
use vstd::prelude::*;
use vstd::utf8::decode_utf8;

verus! {

/// Bytes taken by one encoded type tag.
pub const RESERVED_SIZE_FOR_TYPE: usize = 1;

/// The kinds of value a data page stores.
#[derive(Debug, PartialEq, Eq, Clone, Copy, Structural)]
pub enum FieldType {
    TypeU8,
    TypeU16,
    TypeU32,
    TypeBytes,
    TypeString,
}

/// A stored value, as the contracts speak of it.
pub enum FieldValue {
    U8(u8),
    U16(u16),
    U32(u32),
    Bytes(Seq<u8>),
    Text(Seq<char>),
}

pub open spec fn tag_of(t: FieldType) -> u8 {
    match t {
        FieldType::TypeU8 => 0,
        FieldType::TypeU16 => 1,
        FieldType::TypeU32 => 2,
        FieldType::TypeBytes => 3,
        FieldType::TypeString => 4,
    }
}

pub open spec fn type_of_tag(tag: u8) -> Option<FieldType> {
    if tag == 0 {
        Some(FieldType::TypeU8)
    } else if tag == 1 {
        Some(FieldType::TypeU16)
    } else if tag == 2 {
        Some(FieldType::TypeU32)
    } else if tag == 3 {
        Some(FieldType::TypeBytes)
    } else if tag == 4 {
        Some(FieldType::TypeString)
    } else {
        None
    }
}

/// Byte strings and text carry a two-byte length prefix.
pub open spec fn is_length_prefixed(t: FieldType) -> bool {
    t is TypeBytes || t is TypeString
}

/// Encoded size of a field of type `t` stored in `b` at `off`.
pub open spec fn field_size(t: FieldType, b: Seq<u8>, off: int) -> int {
    match t {
        FieldType::TypeU8 => 1,
        FieldType::TypeU16 => 2,
        FieldType::TypeU32 => 4,
        _ => 2 + le_u16_at(b, off),
    }
}

/// A field of type `t` at `off` lies wholly inside `b`.
pub open spec fn field_fits(t: FieldType, b: Seq<u8>, off: int) -> bool {
    &&& 0 <= off
    &&& is_length_prefixed(t) ==> off + 2 <= b.len()
    &&& off + field_size(t, b, off) <= b.len()
}

/// The payload of a length-prefixed field at `off`.
pub open spec fn payload_at(b: Seq<u8>, off: int) -> Seq<u8> {
    b.subrange(off + 2, off + 2 + le_u16_at(b, off))
}

/// The value of a field of type `t` stored in `b` at `off`.
pub open spec fn value_at(t: FieldType, b: Seq<u8>, off: int) -> FieldValue {
    match t {
        FieldType::TypeU8 => FieldValue::U8(b[off]),
        FieldType::TypeU16 => FieldValue::U16(le_u16_at(b, off)),
        FieldType::TypeU32 => FieldValue::U32(le_u32_at(b, off)),
        FieldType::TypeBytes => FieldValue::Bytes(payload_at(b, off)),
        FieldType::TypeString => FieldValue::Text(decode_utf8(payload_at(b, off))),
    }
}

/// The type of a value.
pub open spec fn type_of_value(v: FieldValue) -> FieldType {
    match v {
        FieldValue::U8(_) => FieldType::TypeU8,
        FieldValue::U16(_) => FieldType::TypeU16,
        FieldValue::U32(_) => FieldType::TypeU32,
        FieldValue::Bytes(_) => FieldType::TypeBytes,
        FieldValue::Text(_) => FieldType::TypeString,
    }
}

impl FieldType {
    /// The one-byte tag of the type.
    pub fn tag(self) -> (r: u8)
        ensures
            r == tag_of(self),
    {
        match self {
            FieldType::TypeU8 => 0,
            FieldType::TypeU16 => 1,
            FieldType::TypeU32 => 2,
            FieldType::TypeBytes => 3,
            FieldType::TypeString => 4,
        }
    }

    /// The type a tag stands for; none for an unknown tag.
    pub fn from_tag(tag: u8) -> (r: Option<FieldType>)
        ensures
            r == type_of_tag(tag),
    {
        match tag {
            0 => Some(FieldType::TypeU8),
            1 => Some(FieldType::TypeU16),
            2 => Some(FieldType::TypeU32),
            3 => Some(FieldType::TypeBytes),
            4 => Some(FieldType::TypeString),
            _ => None,
        }
    }

    /// The offset just past a field of this type stored in `buffer` at
    /// `from_offset`.
    pub fn end_offset_post_decode(&self, buffer: &[u8], from_offset: usize) -> (r: usize)
        requires
            field_fits(*self, buffer@, from_offset as int),
        ensures
            r == from_offset + field_size(*self, buffer@, from_offset as int),
    {
        match self {
            FieldType::TypeU8 => U8EncoderDecoder.decode(buffer, from_offset).1,
            FieldType::TypeU16 => U16EncoderDecoder.decode(buffer, from_offset).1,
            FieldType::TypeU32 => U32EncoderDecoder.decode(buffer, from_offset).1,
            FieldType::TypeBytes => BytesEncoderDecoder.decode(buffer, from_offset).1,
            FieldType::TypeString => BytesEncoderDecoder.decode(buffer, from_offset).1,
        }
    }
}

/// The types of the stored fields, in insertion order.
pub struct Fields {
    types: Vec<FieldType>,
}

impl View for Fields {
    type V = Seq<FieldType>;

    closed spec fn view(&self) -> Seq<FieldType> {
        self.types@
    }
}

impl Fields {
    pub fn new() -> (r: Fields)
        ensures
            r@ == Seq::<FieldType>::empty(),
    {
        Fields { types: Vec::new() }
    }

    /// One type per byte of `bytes`; none if some byte is not a known tag.
    pub fn decode_from(bytes: &[u8]) -> (r: Option<Fields>)
        ensures
            r is Some <==> forall|i: int| 0 <= i < bytes@.len() ==> (#[trigger] type_of_tag(bytes@[i])) is Some,
            r is Some ==> r->Some_0@ == Seq::new(bytes@.len(), |i: int| type_of_tag(bytes@[i])->Some_0),
    {
        let mut types = Fields::new();
        let mut i: usize = 0;
        while i < bytes.len()
            invariant
                i <= bytes@.len(),
                forall|j: int| 0 <= j < i ==> (#[trigger] type_of_tag(bytes@[j])) is Some,
                types@ == Seq::new(i as nat, |j: int| type_of_tag(bytes@[j])->Some_0),
            decreases bytes@.len() - i,
        {
            match FieldType::from_tag(bytes[i]) {
                Some(field_type) => types.add(field_type),
                None => {
                    return None;
                },
            }
            i = i + 1;
            assert(types@ =~= Seq::new(i as nat, |j: int| type_of_tag(bytes@[j])->Some_0));
        }
        Some(types)
    }

    pub fn add(&mut self, field_type: FieldType)
        ensures
            final(self)@ == old(self)@.push(field_type),
    {
        self.types.push(field_type);
    }

    /// One tag byte per field, in order.
    pub fn encode(&self) -> (r: Vec<u8>)
        ensures
            r@ == self@.map_values(|t: FieldType| tag_of(t)),
    {
        let count = self.types.len();
        let mut buffer: Vec<u8> = vec![0u8; count];
        let mut i: usize = 0;
        while i < count
            invariant
                count == self@.len(),
                i <= count,
                buffer@.len() == count,
                forall|j: int| 0 <= j < i ==> #[trigger] buffer@[j] == tag_of(self@[j]),
            decreases count - i,
        {
            let tag = self.types[i].tag();
            buffer.set(i, tag);
            i = i + 1;
        }
        assert(buffer@ =~= self@.map_values(|t: FieldType| tag_of(t)));
        buffer
    }

    pub fn type_at(&self, index: usize) -> (r: Option<&FieldType>)
        ensures
            index < self@.len() ==> r == Some(&self@[index as int]),
            index >= self@.len() ==> r is None,
    {
        if index < self.types.len() {
            Some(&self.types[index])
        } else {
            None
        }
    }

    pub fn last(&self) -> (r: Option<&FieldType>)
        ensures
            self@.len() > 0 ==> r == Some(&self@.last()),
            self@.len() == 0 ==> r is None,
    {
        if self.types.len() > 0 {
            Some(&self.types[self.types.len() - 1])
        } else {
            None
        }
    }

    pub fn size_in_bytes(&self) -> (r: usize)
        ensures
            r == self@.len(),
    {
        self.length() * RESERVED_SIZE_FOR_TYPE
    }

    pub fn size_in_bytes_for(number_of_types: usize) -> (r: usize)
        ensures
            r == number_of_types,
    {
        RESERVED_SIZE_FOR_TYPE * number_of_types
    }

    pub fn length(&self) -> (r: usize)
        ensures
            r == self@.len(),
    {
        self.types.len()
    }
}

} // verus!
