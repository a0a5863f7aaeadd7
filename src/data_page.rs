//! A typed, self-describing page: payloads grow from the front of a block,
//! and the directory of offsets and types is written at its tail.
use crate::codec::{
    copy_into, framed, le_u16_at, le_u16_bytes, le_u32_bytes, lemma_le_u16_round_trip,
    lemma_le_u32_round_trip, overwrite, read_u16_le, str_from_utf8, write_u16_le,
    BytesEncoderDecoder, StrEncoderDecoder, U16EncoderDecoder, U32EncoderDecoder,
    U8EncoderDecoder, MAX_BYTE_SLICE_LENGTH,
};
use crate::field_types::{
    field_fits, field_size, payload_at, tag_of, type_of_tag, type_of_value, value_at, FieldType,
    FieldValue, Fields,
};
use crate::starting_offsets::{encodes_offsets, offsets_in, StartingOffsets};
use vstd::prelude::*;
use vstd::utf8::{encode_utf8, valid_utf8};

verus! {

/// Bytes of the field count at the very end of an encoded page.
pub const RESERVED_SIZE_FOR_NUMBER_OF_OFFSETS: usize = 2;

/// Largest number of fields a page directory can count.
pub const MAX_FIELDS: usize = 65535;

/// Directory bytes for `n` fields: four per offset, one per type, two for the count.
pub open spec fn directory_size(n: int) -> int {
    5 * n + 2
}

/// End of field `i` of a directory.
pub open spec fn field_end(b: Seq<u8>, offs: Seq<u32>, tys: Seq<FieldType>, i: int) -> int {
    offs[i] + field_size(tys[i], b, offs[i] as int)
}

/// The payloads that the directory describes lie in order, without overlap,
/// before `cwo`, and the last ends at `cwo`.
pub open spec fn payload_layout_ok(b: Seq<u8>, offs: Seq<u32>, tys: Seq<FieldType>, cwo: int) -> bool {
    &&& offs.len() == tys.len()
    &&& offs.len() <= MAX_FIELDS
    &&& b.len() <= u32::MAX
    &&& 0 <= cwo <= b.len()
    &&& forall|i: int| 0 <= i < offs.len() ==> #[trigger] field_fits(tys[i], b, offs[i] as int)
    &&& forall|i: int| 0 <= i < offs.len() ==> #[trigger] field_end(b, offs, tys, i) <= cwo
    &&& forall|i: int, j: int|
        0 <= i < j < offs.len() ==> #[trigger] field_end(b, offs, tys, i) <= #[trigger] offs[j]
    &&& offs.len() == 0 ==> cwo == 0
    &&& offs.len() > 0 ==> field_end(b, offs, tys, offs.len() - 1) == cwo
    &&& forall|i: int|
        0 <= i < offs.len() && #[trigger] tys[i] == FieldType::TypeString ==> valid_utf8(
            payload_at(b, offs[i] as int),
        )
}

/// The payloads are laid out as `payload_layout_ok` says, and the directory
/// of a data page fits behind them.
pub open spec fn layout_ok(b: Seq<u8>, offs: Seq<u32>, tys: Seq<FieldType>, cwo: int) -> bool {
    &&& payload_layout_ok(b, offs, tys, cwo)
    &&& cwo + directory_size(offs.len() as int) <= b.len()
}

/// The values that a directory describes.
pub open spec fn values_of(b: Seq<u8>, offs: Seq<u32>, tys: Seq<FieldType>) -> Seq<FieldValue> {
    Seq::new(offs.len(), |i: int| value_at(tys[i], b, offs[i] as int))
}

/// The field count stored at the end of an encoded page.
pub open spec fn stored_count(b: Seq<u8>) -> int {
    le_u16_at(b, b.len() - 2) as int
}

/// The offsets stored in the directory of an encoded page holding `n` fields.
pub open spec fn stored_offsets(b: Seq<u8>, n: int) -> Seq<u32> {
    offsets_in(b.subrange(b.len() - 2 - 5 * n, b.len() - 2 - n))
}

/// The type tags stored in the directory of an encoded page holding `n` fields.
pub open spec fn stored_tags(b: Seq<u8>, n: int) -> Seq<u8> {
    b.subrange(b.len() - 2 - n, b.len() - 2)
}

pub open spec fn stored_types(b: Seq<u8>, n: int) -> Seq<FieldType> {
    Seq::new(n as nat, |i: int| type_of_tag(stored_tags(b, n)[i])->Some_0)
}

/// Where payloads end in an encoded page: after its last field.
pub open spec fn stored_write_offset(b: Seq<u8>) -> int {
    let n = stored_count(b);
    if n == 0 {
        0
    } else {
        field_end(b, stored_offsets(b, n), stored_types(b, n), n - 1)
    }
}

/// `b` is a block that decodes as a data page.
pub open spec fn decodable(b: Seq<u8>) -> bool {
    let n = stored_count(b);
    &&& b.len() >= 2
    &&& directory_size(n) <= b.len()
    &&& forall|i: int| 0 <= i < n ==> (#[trigger] type_of_tag(stored_tags(b, n)[i])) is Some
    &&& layout_ok(b, stored_offsets(b, n), stored_types(b, n), stored_write_offset(b))
}

/// The field values of a block that decodes as a data page.
pub open spec fn decoded_values(b: Seq<u8>) -> Seq<FieldValue> {
    values_of(b, stored_offsets(b, stored_count(b)), stored_types(b, stored_count(b)))
}

/// Two byte sequences agree on the positions `lo..hi`.
pub open spec fn agree_on(b1: Seq<u8>, b2: Seq<u8>, lo: int, hi: int) -> bool {
    forall|k: int| lo <= k < hi ==> b1[k] == b2[k]
}

/// A field keeps its size and value when the bytes it covers stay the same.
pub(crate) proof fn lemma_field_unchanged(t: FieldType, b1: Seq<u8>, b2: Seq<u8>, off: int)
    requires
        field_fits(t, b1, off),
        off + field_size(t, b1, off) <= b2.len(),
        agree_on(b1, b2, off, off + field_size(t, b1, off)),
    ensures
        field_size(t, b2, off) == field_size(t, b1, off),
        field_fits(t, b2, off),
        value_at(t, b2, off) == value_at(t, b1, off),
        t is TypeBytes || t is TypeString ==> payload_at(b2, off) == payload_at(b1, off),
{
    if t is TypeBytes || t is TypeString {
        assert(b1[off] == b2[off]);
        assert(b1[off + 1] == b2[off + 1]);
        assert(payload_at(b2, off) =~= payload_at(b1, off));
    } else if t is TypeU16 {
        assert(b1[off] == b2[off]);
        assert(b1[off + 1] == b2[off + 1]);
    } else if t is TypeU32 {
        assert(b1[off] == b2[off]);
        assert(b1[off + 1] == b2[off + 1]);
        assert(b1[off + 2] == b2[off + 2]);
        assert(b1[off + 3] == b2[off + 3]);
    } else {
        assert(b1[off] == b2[off]);
    }
}

/// A directory keeps its layout and values when the bytes before `cwo` stay
/// the same.
pub(crate) proof fn lemma_layout_unchanged(b1: Seq<u8>, b2: Seq<u8>, offs: Seq<u32>, tys: Seq<FieldType>, cwo: int)
    requires
        payload_layout_ok(b1, offs, tys, cwo),
        b2.len() == b1.len(),
        agree_on(b1, b2, 0, cwo),
    ensures
        payload_layout_ok(b2, offs, tys, cwo),
        values_of(b2, offs, tys) == values_of(b1, offs, tys),
        forall|i: int| 0 <= i < offs.len() ==> #[trigger] field_end(b2, offs, tys, i) == field_end(b1, offs, tys, i),
{
    assert forall|i: int| 0 <= i < offs.len() implies #[trigger] field_end(b2, offs, tys, i) == field_end(b1, offs, tys, i)
        && field_fits(tys[i], b2, offs[i] as int)
        && value_at(tys[i], b2, offs[i] as int) == value_at(tys[i], b1, offs[i] as int)
        && (tys[i] == FieldType::TypeString ==> payload_at(b2, offs[i] as int) == payload_at(b1, offs[i] as int)) by {
        assert(field_end(b1, offs, tys, i) <= cwo);
        lemma_field_unchanged(tys[i], b1, b2, offs[i] as int);
    }
    assert forall|i: int, j: int| 0 <= i < j < offs.len() implies #[trigger] field_end(b2, offs, tys, i) <= #[trigger] offs[j] by {
        assert(field_end(b1, offs, tys, i) <= offs[j]);
    }
    assert forall|i: int| 0 <= i < offs.len() implies #[trigger] field_end(b2, offs, tys, i) <= cwo by {
        assert(field_end(b1, offs, tys, i) <= cwo);
    }
    assert forall|i: int| 0 <= i < offs.len() && #[trigger] tys[i] == FieldType::TypeString implies valid_utf8(
            payload_at(b2, offs[i] as int)) by {
        assert(field_end(b2, offs, tys, i) == field_end(b1, offs, tys, i));
    }
    assert forall|i: int| 0 <= i < offs.len() implies #[trigger] field_fits(tys[i], b2, offs[i] as int) by {
        assert(field_end(b2, offs, tys, i) == field_end(b1, offs, tys, i));
    }
    if offs.len() > 0 {
        assert(field_end(b2, offs, tys, offs.len() - 1) == field_end(b1, offs, tys, offs.len() - 1));
    }
    assert forall|i: int| 0 <= i < offs.len() implies values_of(b2, offs, tys)[i] == values_of(b1, offs, tys)[i] by {
        assert(field_end(b2, offs, tys, i) == field_end(b1, offs, tys, i));
    }
    assert(values_of(b2, offs, tys) =~= values_of(b1, offs, tys));
}

pub(crate) proof fn lemma_overwrite(b: Seq<u8>, at: int, data: Seq<u8>)
    requires
        0 <= at,
        at + data.len() <= b.len(),
    ensures
        overwrite(b, at, data).len() == b.len(),
        overwrite(b, at, data).subrange(at, at + data.len()) == data,
        agree_on(b, overwrite(b, at, data), 0, at),
        agree_on(b, overwrite(b, at, data), at + data.len(), b.len() as int),
        forall|k: int| 0 <= k < data.len() ==> #[trigger] overwrite(b, at, data)[at + k] == data[k],
{
    assert(overwrite(b, at, data).subrange(at, at + data.len()) =~= data);
}

/// A field written at `cwo` extends the directory by one entry.
pub(crate) proof fn lemma_append_field(
    b1: Seq<u8>,
    b2: Seq<u8>,
    offs: Seq<u32>,
    tys: Seq<FieldType>,
    cwo: int,
    t: FieldType,
    size: int,
)
    requires
        payload_layout_ok(b1, offs, tys, cwo),
        b2.len() == b1.len(),
        agree_on(b1, b2, 0, cwo),
        field_fits(t, b2, cwo),
        field_size(t, b2, cwo) == size,
        offs.len() < MAX_FIELDS,
        cwo + size <= b1.len(),
        t == FieldType::TypeString ==> valid_utf8(payload_at(b2, cwo)),
    ensures
        payload_layout_ok(b2, offs.push(cwo as u32), tys.push(t), cwo + size),
        values_of(b2, offs.push(cwo as u32), tys.push(t)) == values_of(b1, offs, tys).push(value_at(t, b2, cwo)),
{
    lemma_layout_unchanged(b1, b2, offs, tys, cwo);
    let offs2 = offs.push(cwo as u32);
    let tys2 = tys.push(t);
    let n = offs.len() as int;
    assert forall|i: int| 0 <= i < n implies #[trigger] field_end(b2, offs2, tys2, i) == field_end(b2, offs, tys, i) by {
        assert(offs2[i] == offs[i] && tys2[i] == tys[i]);
    }
    assert(field_end(b2, offs2, tys2, n) == cwo + size);
    assert forall|i: int| 0 <= i < offs2.len() implies #[trigger] field_fits(tys2[i], b2, offs2[i] as int) by {
        if i < n {
            assert(offs2[i] == offs[i] && tys2[i] == tys[i]);
        }
    }
    assert forall|i: int| 0 <= i < offs2.len() implies #[trigger] field_end(b2, offs2, tys2, i) <= cwo + size by {
        if i < n {
            assert(field_end(b2, offs, tys, i) <= cwo);
        }
    }
    assert forall|i: int, j: int| 0 <= i < j < offs2.len() implies #[trigger] field_end(b2, offs2, tys2, i) <= #[trigger] offs2[j] by {
        if j < n {
            assert(field_end(b2, offs, tys, i) <= offs[j]);
        } else {
            assert(field_end(b2, offs, tys, i) <= cwo);
        }
    }
    assert forall|i: int| 0 <= i < offs2.len() && #[trigger] tys2[i] == FieldType::TypeString implies valid_utf8(
            payload_at(b2, offs2[i] as int)) by {
        if i < n {
            assert(offs2[i] == offs[i] && tys2[i] == tys[i]);
        }
    }
    assert(values_of(b2, offs2, tys2) =~= values_of(b1, offs, tys).push(value_at(t, b2, cwo)));
}

/// Rewriting one field with a value of the same size leaves the others alone.
pub(crate) proof fn lemma_replace_field(b1: Seq<u8>, b2: Seq<u8>, offs: Seq<u32>, tys: Seq<FieldType>, cwo: int, j: int)
    requires
        payload_layout_ok(b1, offs, tys, cwo),
        b2.len() == b1.len(),
        0 <= j < offs.len(),
        agree_on(b1, b2, 0, offs[j] as int),
        agree_on(b1, b2, field_end(b1, offs, tys, j), b1.len() as int),
        field_fits(tys[j], b2, offs[j] as int),
        field_size(tys[j], b2, offs[j] as int) == field_size(tys[j], b1, offs[j] as int),
        tys[j] == FieldType::TypeString ==> valid_utf8(payload_at(b2, offs[j] as int)),
    ensures
        payload_layout_ok(b2, offs, tys, cwo),
        values_of(b2, offs, tys) == values_of(b1, offs, tys).update(j, value_at(tys[j], b2, offs[j] as int)),
{
    assert forall|i: int| 0 <= i < offs.len() && i != j implies #[trigger] field_end(b2, offs, tys, i) == field_end(b1, offs, tys, i)
        && field_fits(tys[i], b2, offs[i] as int)
        && value_at(tys[i], b2, offs[i] as int) == value_at(tys[i], b1, offs[i] as int)
        && (tys[i] == FieldType::TypeString ==> payload_at(b2, offs[i] as int) == payload_at(b1, offs[i] as int)) by {
        assert(field_end(b1, offs, tys, i) <= cwo);
        if i < j {
            assert(field_end(b1, offs, tys, i) <= offs[j]);
        } else {
            assert(field_end(b1, offs, tys, j) <= offs[i]);
        }
        lemma_field_unchanged(tys[i], b1, b2, offs[i] as int);
    }
    assert(field_end(b2, offs, tys, j) == field_end(b1, offs, tys, j));
    assert forall|i: int| 0 <= i < offs.len() implies #[trigger] field_fits(tys[i], b2, offs[i] as int) by {
        if i != j {
            assert(field_end(b2, offs, tys, i) == field_end(b1, offs, tys, i));
        }
    }
    assert forall|i: int| 0 <= i < offs.len() implies #[trigger] field_end(b2, offs, tys, i) <= cwo by {
        if i != j {
            assert(field_end(b2, offs, tys, i) == field_end(b1, offs, tys, i));
        }
        assert(field_end(b1, offs, tys, i) <= cwo);
    }
    assert forall|i: int, k: int| 0 <= i < k < offs.len() implies #[trigger] field_end(b2, offs, tys, i) <= #[trigger] offs[k] by {
        if i != j {
            assert(field_end(b2, offs, tys, i) == field_end(b1, offs, tys, i));
        }
        assert(field_end(b1, offs, tys, i) <= offs[k]);
    }
    assert forall|i: int| 0 <= i < offs.len() && #[trigger] tys[i] == FieldType::TypeString implies valid_utf8(
            payload_at(b2, offs[i] as int)) by {
        if i != j {
            assert(field_end(b2, offs, tys, i) == field_end(b1, offs, tys, i));
        }
    }
    if offs.len() > 0 && offs.len() - 1 != j {
        assert(field_end(b2, offs, tys, offs.len() - 1) == field_end(b1, offs, tys, offs.len() - 1));
    }
    assert forall|i: int| 0 <= i < offs.len() implies values_of(b2, offs, tys)[i]
        == values_of(b1, offs, tys).update(j, value_at(tys[j], b2, offs[j] as int))[i] by {
        if i != j {
            assert(field_end(b2, offs, tys, i) == field_end(b1, offs, tys, i));
        }
    }
    assert(values_of(b2, offs, tys) =~= values_of(b1, offs, tys).update(j, value_at(tys[j], b2, offs[j] as int)));
}

/// A page buffer with its directory written at the tail: the bytes before the
/// directory are those of `b`, then the offsets, the type tags and the count.
pub open spec fn is_encoding_of(img: Seq<u8>, b: Seq<u8>, offs: Seq<u32>, tys: Seq<FieldType>) -> bool {
    let n = offs.len() as int;
    let len = b.len() as int;
    &&& img.len() == len
    &&& agree_on(img, b, 0, len - directory_size(n))
    &&& encodes_offsets(img.subrange(len - 2 - 5 * n, len - 2 - n), offs)
    &&& img.subrange(len - 2 - n, len - 2) == tys.map_values(|t: FieldType| tag_of(t))
    &&& img.subrange(len - 2, len) == le_u16_bytes(n as u16)
}

/// Whether a field of type `field_type` at `offset` lies wholly inside `buffer`.
fn field_fits_at(field_type: FieldType, buffer: &[u8], offset: usize) -> (r: bool)
    ensures
        r == field_fits(field_type, buffer@, offset as int),
{
    let length = buffer.len();
    match field_type {
        FieldType::TypeU8 => offset < length,
        FieldType::TypeU16 => offset <= length && length - offset >= 2,
        FieldType::TypeU32 => offset <= length && length - offset >= 4,
        _ => {
            if offset > length || length - offset < 2 {
                false
            } else {
                let payload_length = read_u16_le(buffer, offset) as usize;
                length - offset - 2 >= payload_length
            }
        },
    }
}

/// A typed page held in a block-sized buffer.
pub struct BufferPage {
    buffer: Vec<u8>,
    starting_offsets: StartingOffsets,
    types: Fields,
    current_write_offset: usize,
}

impl View for BufferPage {
    type V = Seq<FieldValue>;

    closed spec fn view(&self) -> Seq<FieldValue> {
        values_of(self.buffer@, self.starting_offsets@, self.types@)
    }
}

impl BufferPage {
    /// The directory describes the payloads in the buffer.
    pub closed spec fn wf(&self) -> bool {
        layout_ok(self.buffer@, self.starting_offsets@, self.types@, self.current_write_offset as int)
    }

    pub closed spec fn block_size(&self) -> nat {
        self.buffer@.len()
    }

    /// The bytes of the page buffer.
    pub closed spec fn bytes(&self) -> Seq<u8> {
        self.buffer@
    }

    pub closed spec fn write_offset(&self) -> nat {
        self.current_write_offset as nat
    }

    pub closed spec fn field_types(&self) -> Seq<FieldType> {
        self.types@
    }

    pub closed spec fn field_offsets(&self) -> Seq<u32> {
        self.starting_offsets@
    }

    /// Room for one more field of `size` encoded bytes, with its directory entry.
    pub open spec fn has_room(&self, size: int) -> bool {
        &&& self@.len() < MAX_FIELDS
        &&& self.write_offset() + size + directory_size(self@.len() + 1int) <= self.block_size()
    }

    /// Directory consistency: a well-formed page has one offset and one type
    /// per field, each type that of its value, and room for its directory.
    pub proof fn lemma_directory(&self)
        requires
            self.wf(),
        ensures
            self.field_types().len() == self@.len(),
            self.field_offsets().len() == self@.len(),
            forall|i: int| 0 <= i < self@.len() ==> #[trigger] self.field_types()[i] == type_of_value(self@[i]),
            self.write_offset() + directory_size(self@.len() as int) <= self.block_size(),
            self.block_size() <= u32::MAX,
            self.bytes().len() == self.block_size(),
            forall|i: int| 0 <= i < self@.len() ==> #[trigger] field_end(self.bytes(), self.field_offsets(), self.field_types(), i)
                <= self.write_offset(),
            forall|i: int| 0 <= i < self@.len() ==> field_fits(self.field_types()[i], self.bytes(), #[trigger] self.field_offsets()[i] as int),
    {
    }

    /// An empty page over a zeroed buffer of `block_size` bytes.
    pub fn new(block_size: usize) -> (r: BufferPage)
        requires
            2 <= block_size <= u32::MAX,
        ensures
            r.wf(),
            r@ == Seq::<FieldValue>::empty(),
            r.block_size() == block_size,
            r.write_offset() == 0,
    {
        let page = BufferPage {
            buffer: vec![0u8; block_size],
            starting_offsets: StartingOffsets::new(),
            types: Fields::new(),
            current_write_offset: 0,
        };
        assert(page@ =~= Seq::<FieldValue>::empty());
        page
    }

    /// Bytes of the page buffer: the block size.
    pub fn size(&self) -> (r: usize)
        ensures
            r == self.block_size(),
    {
        self.buffer.len()
    }

    /// Number of fields.
    pub fn length(&self) -> (r: usize)
        requires
            self.wf(),
        ensures
            r == self@.len(),
    {
        self.starting_offsets.length()
    }

    /// Type of field `index`; none past the last field.
    pub fn type_at(&self, index: usize) -> (r: Option<FieldType>)
        requires
            self.wf(),
        ensures
            index >= self@.len() ==> r is None,
            index < self@.len() ==> r == Some(type_of_value(self@[index as int])),
    {
        match self.types.type_at(index) {
            Some(field_type) => Some(*field_type),
            None => None,
        }
    }

    /// Records a field of `field_type` and `size` bytes just encoded at the write offset.
    fn add_field(&mut self, field_type: FieldType, size: usize)
        requires
            layout_ok(
                old(self).buffer@,
                old(self).starting_offsets@.push(old(self).current_write_offset as u32),
                old(self).types@.push(field_type),
                old(self).current_write_offset + size,
            ),
        ensures
            final(self).buffer@ == old(self).buffer@,
            final(self).starting_offsets@ == old(self).starting_offsets@.push(old(self).current_write_offset as u32),
            final(self).types@ == old(self).types@.push(field_type),
            final(self).current_write_offset == old(self).current_write_offset + size,
    {
        self.starting_offsets.add_offset(self.current_write_offset as u32);
        self.types.add(field_type);
        self.current_write_offset = self.current_write_offset + size;
    }

    pub fn add_u8(&mut self, value: u8)
        requires
            old(self).wf(),
            old(self).has_room(1),
        ensures
            final(self).wf(),
            final(self)@ == old(self)@.push(FieldValue::U8(value)),
            final(self).block_size() == old(self).block_size(),
            final(self).write_offset() == old(self).write_offset() + 1,
            final(self).field_types() == old(self).field_types().push(FieldType::TypeU8),
            final(self).field_offsets() == old(self).field_offsets().push(old(self).write_offset() as u32),
            final(self).bytes() == overwrite(old(self).bytes(), old(self).write_offset() as int, seq![value]),
    {
        let ghost b1 = self.buffer@;
        let at = self.current_write_offset;
        let size = U8EncoderDecoder.encode(&value, &mut self.buffer, at);
        proof {
            lemma_overwrite(b1, at as int, seq![value]);
            lemma_append_field(b1, self.buffer@, self.starting_offsets@, self.types@, at as int, FieldType::TypeU8, 1);
        }
        self.add_field(FieldType::TypeU8, size);
    }

    pub fn add_u16(&mut self, value: u16)
        requires
            old(self).wf(),
            old(self).has_room(2),
        ensures
            final(self).wf(),
            final(self)@ == old(self)@.push(FieldValue::U16(value)),
            final(self).block_size() == old(self).block_size(),
            final(self).write_offset() == old(self).write_offset() + 2,
            final(self).field_types() == old(self).field_types().push(FieldType::TypeU16),
            final(self).field_offsets() == old(self).field_offsets().push(old(self).write_offset() as u32),
            final(self).bytes() == overwrite(old(self).bytes(), old(self).write_offset() as int, le_u16_bytes(value)),
    {
        let ghost b1 = self.buffer@;
        let at = self.current_write_offset;
        let size = U16EncoderDecoder.encode(&value, &mut self.buffer, at);
        proof {
            lemma_overwrite(b1, at as int, le_u16_bytes(value));
            lemma_le_u16_round_trip(value, self.buffer@, at as int);
            lemma_append_field(b1, self.buffer@, self.starting_offsets@, self.types@, at as int, FieldType::TypeU16, 2);
        }
        self.add_field(FieldType::TypeU16, size);
    }

    pub fn add_u32(&mut self, value: u32)
        requires
            old(self).wf(),
            old(self).has_room(4),
        ensures
            final(self).wf(),
            final(self)@ == old(self)@.push(FieldValue::U32(value)),
            final(self).block_size() == old(self).block_size(),
            final(self).write_offset() == old(self).write_offset() + 4,
            final(self).field_types() == old(self).field_types().push(FieldType::TypeU32),
            final(self).field_offsets() == old(self).field_offsets().push(old(self).write_offset() as u32),
            final(self).bytes() == overwrite(old(self).bytes(), old(self).write_offset() as int, le_u32_bytes(value)),
    {
        let ghost b1 = self.buffer@;
        let at = self.current_write_offset;
        let size = U32EncoderDecoder.encode(&value, &mut self.buffer, at);
        proof {
            lemma_overwrite(b1, at as int, le_u32_bytes(value));
            lemma_le_u32_round_trip(value, self.buffer@, at as int);
            lemma_append_field(b1, self.buffer@, self.starting_offsets@, self.types@, at as int, FieldType::TypeU32, 4);
        }
        self.add_field(FieldType::TypeU32, size);
    }

    pub fn add_bytes(&mut self, value: Vec<u8>)
        requires
            old(self).wf(),
            value@.len() <= MAX_BYTE_SLICE_LENGTH,
            old(self).has_room(2 + value@.len() as int),
        ensures
            final(self).wf(),
            final(self)@ == old(self)@.push(FieldValue::Bytes(value@)),
            final(self).block_size() == old(self).block_size(),
            final(self).write_offset() == old(self).write_offset() + 2 + value@.len(),
            final(self).field_types() == old(self).field_types().push(FieldType::TypeBytes),
            final(self).field_offsets() == old(self).field_offsets().push(old(self).write_offset() as u32),
            final(self).bytes() == overwrite(old(self).bytes(), old(self).write_offset() as int, framed(value@)),
    {
        let ghost b1 = self.buffer@;
        let at = self.current_write_offset;
        let size = BytesEncoderDecoder.encode(value.as_slice(), &mut self.buffer, at);
        proof {
            let b2 = self.buffer@;
            lemma_overwrite(b1, at as int, framed(value@));
            assert(b2.subrange(at as int, at + 2) =~= le_u16_bytes(value@.len() as u16)) by {
                assert(b2[at + 0] == framed(value@)[0]);
                assert(b2[at + 1] == framed(value@)[1]);
            }
            lemma_le_u16_round_trip(value@.len() as u16, b2, at as int);
            assert(payload_at(b2, at as int) =~= value@) by {
                assert forall|k: int| 0 <= k < value@.len() implies #[trigger] payload_at(b2, at as int)[k] == value@[k] by {
                    assert(b2[at + (2 + k)] == framed(value@)[2 + k]);
                }
            }
            lemma_append_field(b1, b2, self.starting_offsets@, self.types@, at as int, FieldType::TypeBytes, size as int);
        }
        self.add_field(FieldType::TypeBytes, size);
    }

    pub fn add_string(&mut self, value: &str)
        requires
            old(self).wf(),
            encode_utf8(value@).len() <= MAX_BYTE_SLICE_LENGTH,
            old(self).has_room(2 + encode_utf8(value@).len() as int),
        ensures
            final(self).wf(),
            final(self)@ == old(self)@.push(FieldValue::Text(value@)),
            final(self).block_size() == old(self).block_size(),
            final(self).write_offset() == old(self).write_offset() + 2 + encode_utf8(value@).len(),
            final(self).field_types() == old(self).field_types().push(FieldType::TypeString),
            final(self).field_offsets() == old(self).field_offsets().push(old(self).write_offset() as u32),
            final(self).bytes() == overwrite(old(self).bytes(), old(self).write_offset() as int, framed(encode_utf8(value@))),
    {
        let ghost b1 = self.buffer@;
        let ghost utf8 = encode_utf8(value@);
        let at = self.current_write_offset;
        let size = StrEncoderDecoder.encode(value, &mut self.buffer, at);
        proof {
            let b2 = self.buffer@;
            lemma_overwrite(b1, at as int, framed(utf8));
            assert(b2.subrange(at as int, at + 2) =~= le_u16_bytes(utf8.len() as u16)) by {
                assert(b2[at + 0] == framed(utf8)[0]);
                assert(b2[at + 1] == framed(utf8)[1]);
            }
            lemma_le_u16_round_trip(utf8.len() as u16, b2, at as int);
            assert(payload_at(b2, at as int) =~= utf8) by {
                assert forall|k: int| 0 <= k < utf8.len() implies #[trigger] payload_at(b2, at as int)[k] == utf8[k] by {
                    assert(b2[at + (2 + k)] == framed(utf8)[2 + k]);
                }
            }
            vstd::utf8::encode_utf8_valid_utf8(value@);
            vstd::utf8::encode_utf8_decode_utf8(value@);
            lemma_append_field(b1, b2, self.starting_offsets@, self.types@, at as int, FieldType::TypeString, size as int);
        }
        self.add_field(FieldType::TypeString, size);
    }

    pub fn get_u8(&self, index: usize) -> (r: Option<u8>)
        requires
            self.wf(),
            index < self@.len() ==> self@[index as int] is U8,
        ensures
            index >= self@.len() ==> r is None,
            index < self@.len() ==> r == Some(self@[index as int]->U8_0),
    {
        match self.starting_offsets.offset_at(index) {
            Some(offset) => {
                assert(field_fits(self.types@[index as int], self.buffer@, *offset as int));
                Some(*U8EncoderDecoder.decode(self.buffer.as_slice(), *offset as usize).0)
            },
            None => None,
        }
    }

    pub fn get_u16(&self, index: usize) -> (r: Option<u16>)
        requires
            self.wf(),
            index < self@.len() ==> self@[index as int] is U16,
        ensures
            index >= self@.len() ==> r is None,
            index < self@.len() ==> r == Some(self@[index as int]->U16_0),
    {
        match self.starting_offsets.offset_at(index) {
            Some(offset) => {
                assert(field_fits(self.types@[index as int], self.buffer@, *offset as int));
                Some(U16EncoderDecoder.decode(self.buffer.as_slice(), *offset as usize).0)
            },
            None => None,
        }
    }

    pub fn get_u32(&self, index: usize) -> (r: Option<u32>)
        requires
            self.wf(),
            index < self@.len() ==> self@[index as int] is U32,
        ensures
            index >= self@.len() ==> r is None,
            index < self@.len() ==> r == Some(self@[index as int]->U32_0),
    {
        match self.starting_offsets.offset_at(index) {
            Some(offset) => {
                assert(field_fits(self.types@[index as int], self.buffer@, *offset as int));
                Some(U32EncoderDecoder.decode(self.buffer.as_slice(), *offset as usize).0)
            },
            None => None,
        }
    }

    /// The bytes of a byte-string field, as a view into the page.
    pub fn get_bytes(&self, index: usize) -> (r: Option<&[u8]>)
        requires
            self.wf(),
            index < self@.len() ==> self@[index as int] is Bytes,
        ensures
            index >= self@.len() ==> r is None,
            index < self@.len() ==> r is Some && r->Some_0@ == self@[index as int]->Bytes_0,
    {
        match self.starting_offsets.offset_at(index) {
            Some(offset) => {
                assert(field_fits(self.types@[index as int], self.buffer@, *offset as int));
                Some(BytesEncoderDecoder.decode(self.buffer.as_slice(), *offset as usize).0)
            },
            None => None,
        }
    }

    /// The text of a string field, as a view into the page.
    pub fn get_string(&self, index: usize) -> (r: Option<&str>)
        requires
            self.wf(),
            index < self@.len() ==> self@[index as int] is Text,
        ensures
            index >= self@.len() ==> r is None,
            index < self@.len() ==> r is Some && r->Some_0@ == self@[index as int]->Text_0,
    {
        match self.starting_offsets.offset_at(index) {
            Some(offset) => {
                assert(field_fits(self.types@[index as int], self.buffer@, *offset as int));
                assert(self.types@[index as int] == FieldType::TypeString);
                Some(StrEncoderDecoder.decode(self.buffer.as_slice(), *offset as usize).0)
            },
            None => None,
        }
    }

    /// Facts shared by the mutators: field `index` and the bytes around it.
    proof fn lemma_mutation_frame(&self, index: int, b2: Seq<u8>, data: Seq<u8>)
        requires
            self.wf(),
            0 <= index < self@.len(),
            data.len() == field_size(self.types@[index], self.buffer@, self.starting_offsets@[index] as int),
            b2 == overwrite(self.buffer@, self.starting_offsets@[index] as int, data),
        ensures
            b2.len() == self.buffer@.len(),
            agree_on(self.buffer@, b2, 0, self.starting_offsets@[index] as int),
            agree_on(self.buffer@, b2, field_end(self.buffer@, self.starting_offsets@, self.types@, index), self.buffer@.len() as int),
            forall|k: int| 0 <= k < data.len() ==> #[trigger] b2[self.starting_offsets@[index] + k] == data[k],
    {
        assert(field_fits(self.types@[index], self.buffer@, self.starting_offsets@[index] as int));
        lemma_overwrite(self.buffer@, self.starting_offsets@[index] as int, data);
    }

    pub fn mutate_u8(&mut self, value: u8, index: usize)
        requires
            old(self).wf(),
            index < old(self)@.len(),
            old(self)@[index as int] is U8,
        ensures
            final(self).wf(),
            final(self)@ == old(self)@.update(index as int, FieldValue::U8(value)),
            final(self).block_size() == old(self).block_size(),
            final(self).write_offset() == old(self).write_offset(),
            final(self).field_types() == old(self).field_types(),
            final(self).field_offsets() == old(self).field_offsets(),
            final(self).bytes() == overwrite(old(self).bytes(), old(self).field_offsets()[index as int] as int, seq![value]),
    {
        let ghost b1 = self.buffer@;
        let offset = *self.starting_offsets.offset_at(index).unwrap() as usize;
        assert(field_fits(self.types@[index as int], b1, offset as int));
        U8EncoderDecoder.encode(&value, &mut self.buffer, offset);
        proof {
            old(self).lemma_mutation_frame(index as int, self.buffer@, seq![value]);
            assert(self.buffer@[offset + 0] == value);
            lemma_replace_field(b1, self.buffer@, self.starting_offsets@, self.types@, self.current_write_offset as int, index as int);
        }
    }

    pub fn mutate_u16(&mut self, value: u16, index: usize)
        requires
            old(self).wf(),
            index < old(self)@.len(),
            old(self)@[index as int] is U16,
        ensures
            final(self).wf(),
            final(self)@ == old(self)@.update(index as int, FieldValue::U16(value)),
            final(self).block_size() == old(self).block_size(),
            final(self).write_offset() == old(self).write_offset(),
            final(self).field_types() == old(self).field_types(),
            final(self).field_offsets() == old(self).field_offsets(),
            final(self).bytes() == overwrite(old(self).bytes(), old(self).field_offsets()[index as int] as int, le_u16_bytes(value)),
    {
        let ghost b1 = self.buffer@;
        let offset = *self.starting_offsets.offset_at(index).unwrap() as usize;
        assert(field_fits(self.types@[index as int], b1, offset as int));
        U16EncoderDecoder.encode(&value, &mut self.buffer, offset);
        proof {
            old(self).lemma_mutation_frame(index as int, self.buffer@, le_u16_bytes(value));
            lemma_overwrite(b1, offset as int, le_u16_bytes(value));
            lemma_le_u16_round_trip(value, self.buffer@, offset as int);
            lemma_replace_field(b1, self.buffer@, self.starting_offsets@, self.types@, self.current_write_offset as int, index as int);
        }
    }

    pub fn mutate_u32(&mut self, value: u32, index: usize)
        requires
            old(self).wf(),
            index < old(self)@.len(),
            old(self)@[index as int] is U32,
        ensures
            final(self).wf(),
            final(self)@ == old(self)@.update(index as int, FieldValue::U32(value)),
            final(self).block_size() == old(self).block_size(),
            final(self).write_offset() == old(self).write_offset(),
            final(self).field_types() == old(self).field_types(),
            final(self).field_offsets() == old(self).field_offsets(),
            final(self).bytes() == overwrite(old(self).bytes(), old(self).field_offsets()[index as int] as int, le_u32_bytes(value)),
    {
        let ghost b1 = self.buffer@;
        let offset = *self.starting_offsets.offset_at(index).unwrap() as usize;
        assert(field_fits(self.types@[index as int], b1, offset as int));
        U32EncoderDecoder.encode(&value, &mut self.buffer, offset);
        proof {
            old(self).lemma_mutation_frame(index as int, self.buffer@, le_u32_bytes(value));
            lemma_overwrite(b1, offset as int, le_u32_bytes(value));
            lemma_le_u32_round_trip(value, self.buffer@, offset as int);
            lemma_replace_field(b1, self.buffer@, self.starting_offsets@, self.types@, self.current_write_offset as int, index as int);
        }
    }

    /// Rewrites a byte-string field in place; the new bytes must be as many as the old.
    pub fn mutate_bytes(&mut self, value: Vec<u8>, index: usize)
        requires
            old(self).wf(),
            index < old(self)@.len(),
            old(self)@[index as int] is Bytes,
            value@.len() == old(self)@[index as int]->Bytes_0.len(),
        ensures
            final(self).wf(),
            final(self)@ == old(self)@.update(index as int, FieldValue::Bytes(value@)),
            final(self).block_size() == old(self).block_size(),
            final(self).write_offset() == old(self).write_offset(),
            final(self).field_types() == old(self).field_types(),
            final(self).field_offsets() == old(self).field_offsets(),
            final(self).bytes() == overwrite(old(self).bytes(), old(self).field_offsets()[index as int] as int, framed(value@)),
    {
        let ghost b1 = self.buffer@;
        let offset = *self.starting_offsets.offset_at(index).unwrap() as usize;
        assert(field_fits(self.types@[index as int], b1, offset as int));
        assert(le_u16_at(b1, offset as int) == value@.len());
        BytesEncoderDecoder.encode(value.as_slice(), &mut self.buffer, offset);
        proof {
            let b2 = self.buffer@;
            old(self).lemma_mutation_frame(index as int, b2, framed(value@));
            assert(b2[offset + 0] == framed(value@)[0]);
            assert(b2[offset + 1] == framed(value@)[1]);
            assert(b2.subrange(offset as int, offset + 2) =~= le_u16_bytes(value@.len() as u16));
            lemma_le_u16_round_trip(value@.len() as u16, b2, offset as int);
            assert forall|k: int| 0 <= k < value@.len() implies #[trigger] payload_at(b2, offset as int)[k] == value@[k] by {
                assert(b2[offset + (2 + k)] == framed(value@)[2 + k]);
            }
            assert(payload_at(b2, offset as int) =~= value@);
            lemma_replace_field(b1, b2, self.starting_offsets@, self.types@, self.current_write_offset as int, index as int);
        }
    }

    /// Rewrites a string field in place; the new text must take as many UTF-8
    /// bytes as the old.
    pub fn mutate_string(&mut self, value: &str, index: usize)
        requires
            old(self).wf(),
            index < old(self)@.len(),
            old(self)@[index as int] is Text,
            encode_utf8(value@).len() == encode_utf8(old(self)@[index as int]->Text_0).len(),
        ensures
            final(self).wf(),
            final(self)@ == old(self)@.update(index as int, FieldValue::Text(value@)),
            final(self).block_size() == old(self).block_size(),
            final(self).write_offset() == old(self).write_offset(),
            final(self).field_types() == old(self).field_types(),
            final(self).field_offsets() == old(self).field_offsets(),
            final(self).bytes() == overwrite(old(self).bytes(), old(self).field_offsets()[index as int] as int, framed(encode_utf8(value@))),
    {
        let ghost b1 = self.buffer@;
        let ghost utf8 = encode_utf8(value@);
        let offset = *self.starting_offsets.offset_at(index).unwrap() as usize;
        assert(field_fits(self.types@[index as int], b1, offset as int));
        assert(self.types@[index as int] == FieldType::TypeString);
        proof {
            vstd::utf8::decode_utf8_encode_utf8(payload_at(b1, offset as int));
        }
        assert(le_u16_at(b1, offset as int) == utf8.len());
        StrEncoderDecoder.encode(value, &mut self.buffer, offset);
        proof {
            let b2 = self.buffer@;
            old(self).lemma_mutation_frame(index as int, b2, framed(utf8));
            assert(b2[offset + 0] == framed(utf8)[0]);
            assert(b2[offset + 1] == framed(utf8)[1]);
            assert(b2.subrange(offset as int, offset + 2) =~= le_u16_bytes(utf8.len() as u16));
            lemma_le_u16_round_trip(utf8.len() as u16, b2, offset as int);
            assert forall|k: int| 0 <= k < utf8.len() implies #[trigger] payload_at(b2, offset as int)[k] == utf8[k] by {
                assert(b2[offset + (2 + k)] == framed(utf8)[2 + k]);
            }
            assert(payload_at(b2, offset as int) =~= utf8);
            vstd::utf8::encode_utf8_valid_utf8(value@);
            vstd::utf8::encode_utf8_decode_utf8(value@);
            lemma_replace_field(b1, b2, self.starting_offsets@, self.types@, self.current_write_offset as int, index as int);
        }
    }

    /// Writes the directory at the tail of the buffer (offsets, then type
    /// tags, then the field count) and returns the whole buffer.
    pub fn encode(&mut self) -> (r: &[u8])
        requires
            old(self).wf(),
        ensures
            final(self).wf(),
            final(self)@ == old(self)@,
            final(self).block_size() == old(self).block_size(),
            final(self).write_offset() == old(self).write_offset(),
            final(self).field_types() == old(self).field_types(),
            final(self).field_offsets() == old(self).field_offsets(),
            is_encoding_of(final(self).bytes(), old(self).bytes(), old(self).field_offsets(), old(self).field_types()),
            r@ == final(self).bytes(),
    {
        let ghost b1 = self.buffer@;
        let ghost offs = self.starting_offsets@;
        let ghost tys = self.types@;
        let count = self.starting_offsets.length();
        let length = self.buffer.len();
        let encoded_offsets = self.starting_offsets.encode();
        let offsets_at = length - RESERVED_SIZE_FOR_NUMBER_OF_OFFSETS - 5 * count;
        copy_into(&mut self.buffer, offsets_at, encoded_offsets.as_slice());
        let ghost b2 = self.buffer@;
        let encoded_types = self.types.encode();
        let types_at = length - RESERVED_SIZE_FOR_NUMBER_OF_OFFSETS - count;
        copy_into(&mut self.buffer, types_at, encoded_types.as_slice());
        let ghost b3 = self.buffer@;
        write_u16_le(&mut self.buffer, length - RESERVED_SIZE_FOR_NUMBER_OF_OFFSETS, count as u16);
        proof {
            let b4 = self.buffer@;
            lemma_overwrite(b1, offsets_at as int, encoded_offsets@);
            lemma_overwrite(b2, types_at as int, encoded_types@);
            lemma_overwrite(b3, (length - 2) as int, le_u16_bytes(count as u16));
            assert(b4.subrange(length - 2, length as int) =~= le_u16_bytes(count as u16));
            assert(b4.subrange(types_at as int, length - 2) =~= encoded_types@) by {
                assert forall|k: int| 0 <= k < count implies #[trigger] b4.subrange(types_at as int, length - 2)[k] == encoded_types@[k] by {
                    assert(b3[types_at + k] == encoded_types@[k]);
                }
            }
            assert(b4.subrange(offsets_at as int, types_at as int) =~= encoded_offsets@) by {
                assert forall|k: int| 0 <= k < 4 * count implies #[trigger] b4.subrange(offsets_at as int, types_at as int)[k] == encoded_offsets@[k] by {
                    assert(b2[offsets_at + k] == encoded_offsets@[k]);
                }
            }
            assert(agree_on(b4, b1, 0, offsets_at as int));
            lemma_layout_unchanged(b1, b4, offs, tys, self.current_write_offset as int);
        }
        self.buffer.as_slice()
    }

    /// Reads a page back from an encoded block: the directory from the tail,
    /// the write offset from the end of the last field. None when the block
    /// does not hold a consistent page.
    pub fn decode_from(buffer: Vec<u8>) -> (r: Option<BufferPage>)
        requires
            buffer@.len() > 0,
        ensures
            r is Some <==> decodable(buffer@),
            r is Some ==> {
                let page = r->Some_0;
                &&& page.wf()
                &&& page.bytes() == buffer@
                &&& page.block_size() == buffer@.len()
                &&& page@ == decoded_values(buffer@)
                &&& page.field_offsets() == stored_offsets(buffer@, stored_count(buffer@))
                &&& page.field_types() == stored_types(buffer@, stored_count(buffer@))
                &&& page.write_offset() == stored_write_offset(buffer@)
            },
    {
        let ghost b = buffer@;
        let length = buffer.len();
        if length < 2 || length > u32::MAX as usize {
            return None;
        }
        let count = read_u16_le(buffer.as_slice(), length - RESERVED_SIZE_FOR_NUMBER_OF_OFFSETS) as usize;
        let ghost n = count as int;
        assert(n == stored_count(b));
        if 5 * count + RESERVED_SIZE_FOR_NUMBER_OF_OFFSETS > length {
            return None;
        }
        let slice = buffer.as_slice();
        let starting_offsets = StartingOffsets::decode_from(
            &slice[length - RESERVED_SIZE_FOR_NUMBER_OF_OFFSETS - 5 * count..length - RESERVED_SIZE_FOR_NUMBER_OF_OFFSETS - count],
        );
        let types = match Fields::decode_from(&slice[length - RESERVED_SIZE_FOR_NUMBER_OF_OFFSETS - count..length - RESERVED_SIZE_FOR_NUMBER_OF_OFFSETS]) {
            Some(types) => types,
            None => {
                return None;
            },
        };
        let ghost offs = starting_offsets@;
        let ghost tys = types@;
        assert(offs =~= stored_offsets(b, n));
        assert(tys =~= stored_types(b, n));
        let mut end: usize = 0;
        let mut i: usize = 0;
        while i < count
            invariant
                b == slice@,
                b == buffer@,
                length == b.len(),
                2 <= length <= u32::MAX,
                n == count,
                n == stored_count(b),
                5 * count + 2 <= length,
                offs == starting_offsets@,
                tys == types@,
                offs == stored_offsets(b, n),
                tys == stored_types(b, n),
                offs.len() == count,
                tys.len() == count,
                i <= count,
                end <= length,
                i == 0 ==> end == 0,
                i > 0 ==> end == field_end(b, offs, tys, i - 1),
                forall|k: int| 0 <= k < i ==> #[trigger] field_fits(tys[k], b, offs[k] as int),
                forall|k: int| 0 <= k < i ==> #[trigger] field_end(b, offs, tys, k) <= end,
                forall|k: int, l: int| 0 <= k < l < i ==> #[trigger] field_end(b, offs, tys, k) <= #[trigger] offs[l],
                forall|k: int| 0 <= k < i && #[trigger] tys[k] == FieldType::TypeString ==> valid_utf8(payload_at(b, offs[k] as int)),
            decreases count - i,
        {
            let offset = *starting_offsets.offset_at(i).unwrap() as usize;
            let field_type = *types.type_at(i).unwrap();
            if offset < end {
                assert(!decodable(b)) by {
                    if decodable(b) {
                        assert(layout_ok(b, offs, tys, stored_write_offset(b)));
                        assert(field_end(b, offs, tys, i - 1) <= offs[i as int]);
                    }
                }
                return None;
            }
            if !field_fits_at(field_type, slice, offset) {
                assert(!decodable(b)) by {
                    if decodable(b) {
                        assert(layout_ok(b, offs, tys, stored_write_offset(b)));
                        assert(field_fits(tys[i as int], b, offs[i as int] as int));
                    }
                }
                return None;
            }
            let next_end = field_type.end_offset_post_decode(slice, offset);
            match field_type {
                FieldType::TypeString => {
                    let (payload, _) = BytesEncoderDecoder.decode(slice, offset);
                    if str_from_utf8(payload).is_none() {
                        return None;
                    }
                },
                _ => {},
            }
            assert(next_end == field_end(b, offs, tys, i as int));
            end = next_end;
            i = i + 1;
        }
        assert(end == stored_write_offset(b));
        if end > length - 5 * count - RESERVED_SIZE_FOR_NUMBER_OF_OFFSETS {
            return None;
        }
        let page = BufferPage { buffer, starting_offsets, types, current_write_offset: end };
        assert(layout_ok(b, offs, tys, end as int));
        Some(page)
    }
}

} // verus!

verus! {

/// Round trip: a buffer that holds a well-formed page with its directory
/// encoded at the tail decodes, and decodes to the same field values, types
/// and offsets.
pub proof fn lemma_decode_of_encoding(page: &BufferPage, image: Seq<u8>)
    requires
        page.wf(),
        is_encoding_of(image, page.bytes(), page.field_offsets(), page.field_types()),
    ensures
        decodable(image),
        decoded_values(image) == page@,
        stored_offsets(image, stored_count(image)) == page.field_offsets(),
        stored_types(image, stored_count(image)) == page.field_types(),
        stored_write_offset(image) == page.write_offset(),
{
    let b = page.bytes();
    let offs = page.field_offsets();
    let tys = page.field_types();
    let cwo = page.write_offset() as int;
    let n = offs.len() as int;
    let len = b.len() as int;
    lemma_le_u16_round_trip(n as u16, image, len - 2);
    assert(stored_count(image) == n);
    let sub = image.subrange(len - 2 - 5 * n, len - 2 - n);
    assert(sub.len() == 4 * n);
    assert(offsets_in(sub).len() == n);
    assert forall|i: int| 0 <= i < n implies #[trigger] offsets_in(sub)[i] == offs[i] by {
        assert(sub.subrange(4 * i, 4 * i + 4) == le_u32_bytes(offs[i]));
        lemma_le_u32_round_trip(offs[i], sub, 4 * i);
    }
    assert(stored_offsets(image, n) =~= offs);
    assert forall|i: int| 0 <= i < n implies #[trigger] stored_tags(image, n)[i] == tag_of(tys[i]) by {
        assert(stored_tags(image, n) == tys.map_values(|t: FieldType| tag_of(t)));
    }
    assert(stored_types(image, n) =~= tys);
    lemma_layout_unchanged(b, image, offs, tys, cwo);
    if n > 0 {
        assert(field_end(image, offs, tys, n - 1) == field_end(b, offs, tys, n - 1));
    }
}

} // verus!
