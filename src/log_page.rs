//! A log page: records packed from the front of a block, their offsets in a
//! directory at its tail, read back newest first.
use crate::codec::{
    copy_into, framed, le_u16_at, le_u16_bytes, le_u32_bytes, lemma_le_u16_round_trip,
    lemma_le_u32_round_trip, overwrite, read_u16_le, write_u16_le, BytesEncoderDecoder,
    MAX_BYTE_SLICE_LENGTH, RESERVED_SIZE_FOR_BYTE_SLICE,
};
use crate::data_page::{
    agree_on, field_end, lemma_append_field, lemma_layout_unchanged, lemma_overwrite,
    payload_layout_ok, values_of, MAX_FIELDS, RESERVED_SIZE_FOR_NUMBER_OF_OFFSETS,
};
use crate::field_types::{field_fits, payload_at, value_at, FieldType, FieldValue};
use crate::starting_offsets::{encodes_offsets, offsets_in, StartingOffsets, SIZE_OF_OFFSET};
use vstd::prelude::*;

verus! {

/// Every entry of a log directory is a byte string.
pub open spec fn record_types(n: nat) -> Seq<FieldType> {
    Seq::new(n, |i: int| FieldType::TypeBytes)
}

/// Records laid out in order before `cwo`, with the offset directory and the
/// count fitting behind them.
pub open spec fn log_layout_ok(b: Seq<u8>, offs: Seq<u32>, cwo: int) -> bool {
    &&& payload_layout_ok(b, offs, record_types(offs.len()), cwo)
    &&& cwo + 4 * offs.len() + 2 <= b.len()
}

/// The records a directory points at.
pub open spec fn records_of(b: Seq<u8>, offs: Seq<u32>) -> Seq<Seq<u8>> {
    Seq::new(offs.len(), |i: int| payload_at(b, offs[i] as int))
}

/// A log buffer with its directory written at the tail: the bytes before the
/// directory are those of `b`, then the offsets and the record count.
pub open spec fn is_log_encoding_of(img: Seq<u8>, b: Seq<u8>, offs: Seq<u32>) -> bool {
    let n = offs.len() as int;
    let len = b.len() as int;
    &&& img.len() == len
    &&& agree_on(img, b, 0, len - 2 - 4 * n)
    &&& encodes_offsets(img.subrange(len - 2 - 4 * n, len - 2), offs)
    &&& img.subrange(len - 2, len) == le_u16_bytes(n as u16)
}

pub open spec fn stored_record_count(b: Seq<u8>) -> int {
    le_u16_at(b, b.len() - 2) as int
}

pub open spec fn stored_record_offsets(b: Seq<u8>, n: int) -> Seq<u32> {
    offsets_in(b.subrange(b.len() - 2 - 4 * n, b.len() - 2))
}

pub open spec fn stored_log_write_offset(b: Seq<u8>) -> int {
    let n = stored_record_count(b);
    if n == 0 {
        0
    } else {
        field_end(b, stored_record_offsets(b, n), record_types(n as nat), n - 1)
    }
}

/// `b` is a block that decodes as a log page.
pub open spec fn log_decodable(b: Seq<u8>) -> bool {
    let n = stored_record_count(b);
    &&& b.len() >= 2
    &&& 4 * n + 2 <= b.len()
    &&& log_layout_ok(b, stored_record_offsets(b, n), stored_log_write_offset(b))
}

/// The records of a block that decodes as a log page.
pub open spec fn decoded_records(b: Seq<u8>) -> Seq<Seq<u8>> {
    records_of(b, stored_record_offsets(b, stored_record_count(b)))
}

proof fn lemma_values_are_records(b: Seq<u8>, offs: Seq<u32>)
    ensures
        forall|i: int| 0 <= i < offs.len() ==> #[trigger] values_of(b, offs, record_types(offs.len()))[i]
            == FieldValue::Bytes(records_of(b, offs)[i]),
{
}

/// An append-only page of byte-string records.
pub struct LogPage {
    buffer: Vec<u8>,
    starting_offsets: StartingOffsets,
    current_write_offset: usize,
}

impl View for LogPage {
    type V = Seq<Seq<u8>>;

    closed spec fn view(&self) -> Seq<Seq<u8>> {
        records_of(self.buffer@, self.starting_offsets@)
    }
}

impl LogPage {
    pub closed spec fn wf(&self) -> bool {
        log_layout_ok(self.buffer@, self.starting_offsets@, self.current_write_offset as int)
    }

    pub closed spec fn block_size(&self) -> nat {
        self.buffer@.len()
    }

    pub closed spec fn bytes(&self) -> Seq<u8> {
        self.buffer@
    }

    pub closed spec fn write_offset(&self) -> nat {
        self.current_write_offset as nat
    }

    pub closed spec fn record_offsets(&self) -> Seq<u32> {
        self.starting_offsets@
    }

    /// Bytes left between the records and the directory with its count.
    pub open spec fn free_space(&self) -> int {
        self.block_size() - self.write_offset() - 4 * self@.len() - 2
    }

    pub proof fn lemma_wf(&self)
        requires
            self.wf(),
        ensures
            self.record_offsets().len() == self@.len(),
            self.free_space() >= 0,
            self@.len() <= MAX_FIELDS,
            self.block_size() <= u32::MAX,
            self@.len() == 0 ==> self.write_offset() == 0,
            self.bytes().len() == self.block_size(),
    {
    }

    /// An empty page over a zeroed buffer of `block_size` bytes.
    pub fn new(block_size: usize) -> (r: LogPage)
        requires
            2 <= block_size <= u32::MAX,
        ensures
            r.wf(),
            r@ == Seq::<Seq<u8>>::empty(),
            r.block_size() == block_size,
            r.write_offset() == 0,
    {
        let page = LogPage { buffer: vec![0u8; block_size], starting_offsets: StartingOffsets::new(), current_write_offset: 0 };
        assert(page@ =~= Seq::<Seq<u8>>::empty());
        page
    }

    /// Room for `buffer` framed with its length, plus one more directory entry.
    fn has_capacity_for(&self, buffer: &[u8]) -> (r: bool)
        requires
            self.wf(),
            buffer@.len() <= MAX_BYTE_SLICE_LENGTH,
        ensures
            r == (self.free_space() >= 2 + buffer@.len() + 4),
    {
        let bytes_available = self.buffer.len() - self.current_write_offset - self.starting_offsets.size_in_bytes()
            - RESERVED_SIZE_FOR_NUMBER_OF_OFFSETS;
        let bytes_needed = BytesEncoderDecoder.bytes_needed_for_encoding(buffer) + StartingOffsets::size_in_bytes_for_an_offset();
        bytes_available >= bytes_needed
    }

    /// Appends a record when it fits with its directory entry; leaves the page
    /// as it was and returns false when it does not.
    pub fn add(&mut self, data: &[u8]) -> (r: bool)
        requires
            old(self).wf(),
            data@.len() <= MAX_BYTE_SLICE_LENGTH,
        ensures
            final(self).wf(),
            final(self).block_size() == old(self).block_size(),
            old(self)@.len() < MAX_FIELDS ==> r == (old(self).free_space() >= 2 + data@.len() + 4),
            old(self)@.len() >= MAX_FIELDS ==> !r,
            r ==> final(self)@ == old(self)@.push(data@),
            r ==> final(self).write_offset() == old(self).write_offset() + 2 + data@.len(),
            r ==> final(self).record_offsets() == old(self).record_offsets().push(old(self).write_offset() as u32),
            r ==> final(self).bytes() == overwrite(old(self).bytes(), old(self).write_offset() as int, framed(data@)),
            !r ==> *final(self) == *old(self),
    {
        if self.starting_offsets.length() >= MAX_FIELDS || !self.has_capacity_for(data) {
            return false;
        }
        let ghost b1 = self.buffer@;
        let ghost offs = self.starting_offsets@;
        let at = self.current_write_offset;
        let size = BytesEncoderDecoder.encode(data, &mut self.buffer, at);
        proof {
            let b2 = self.buffer@;
            lemma_overwrite(b1, at as int, framed(data@));
            assert(b2[at + 0] == framed(data@)[0]);
            assert(b2[at + 1] == framed(data@)[1]);
            assert(b2.subrange(at as int, at + 2) =~= le_u16_bytes(data@.len() as u16));
            lemma_le_u16_round_trip(data@.len() as u16, b2, at as int);
            assert forall|k: int| 0 <= k < data@.len() implies #[trigger] payload_at(b2, at as int)[k] == data@[k] by {
                assert(b2[at + (2 + k)] == framed(data@)[2 + k]);
            }
            assert(payload_at(b2, at as int) =~= data@);
            assert(record_types(offs.len()).push(FieldType::TypeBytes) =~= record_types(offs.len() + 1));
            lemma_append_field(b1, b2, offs, record_types(offs.len()), at as int, FieldType::TypeBytes, size as int);
            lemma_values_are_records(b1, offs);
            lemma_values_are_records(b2, offs.push(at as u32));
            let v1 = values_of(b1, offs, record_types(offs.len()));
            let v2 = values_of(b2, offs.push(at as u32), record_types(offs.len() + 1));
            assert forall|i: int| 0 <= i <= offs.len() implies #[trigger] records_of(b2, offs.push(at as u32))[i]
                == records_of(b1, offs).push(data@)[i] by {
                if i < offs.len() {
                    assert(v2[i] == v1[i]);
                } else {
                    assert(v2[i] == value_at(FieldType::TypeBytes, b2, at as int));
                }
            }
            assert(records_of(b2, offs.push(at as u32)) =~= records_of(b1, offs).push(data@));
        }
        self.starting_offsets.add_offset(at as u32);
        self.current_write_offset = at + size;
        true
    }

    /// Writes the offset directory and the record count at the tail of the
    /// buffer and returns the whole buffer.
    pub fn finish(&mut self) -> (r: &[u8])
        requires
            old(self).wf(),
            old(self)@.len() > 0,
        ensures
            final(self).wf(),
            final(self)@ == old(self)@,
            final(self).block_size() == old(self).block_size(),
            final(self).write_offset() == old(self).write_offset(),
            final(self).record_offsets() == old(self).record_offsets(),
            is_log_encoding_of(final(self).bytes(), old(self).bytes(), old(self).record_offsets()),
            r@ == final(self).bytes(),
    {
        let ghost b1 = self.buffer@;
        let ghost offs = self.starting_offsets@;
        let count = self.starting_offsets.length();
        let length = self.buffer.len();
        let encoded_offsets = self.starting_offsets.encode();
        let offsets_at = length - RESERVED_SIZE_FOR_NUMBER_OF_OFFSETS - self.starting_offsets.size_in_bytes();
        copy_into(&mut self.buffer, offsets_at, encoded_offsets.as_slice());
        let ghost b2 = self.buffer@;
        write_u16_le(&mut self.buffer, length - RESERVED_SIZE_FOR_NUMBER_OF_OFFSETS, count as u16);
        proof {
            let b3 = self.buffer@;
            lemma_overwrite(b1, offsets_at as int, encoded_offsets@);
            lemma_overwrite(b2, (length - 2) as int, le_u16_bytes(count as u16));
            assert(b3.subrange(length - 2, length as int) =~= le_u16_bytes(count as u16));
            assert(b3.subrange(offsets_at as int, length - 2) =~= encoded_offsets@) by {
                assert forall|k: int| 0 <= k < 4 * count implies #[trigger] b3.subrange(offsets_at as int, length - 2)[k] == encoded_offsets@[k] by {
                    assert(b2[offsets_at + k] == encoded_offsets@[k]);
                }
            }
            lemma_layout_unchanged(b1, b3, offs, record_types(offs.len()), self.current_write_offset as int);
            lemma_values_are_records(b1, offs);
            lemma_values_are_records(b3, offs);
            assert(records_of(b3, offs) =~= records_of(b1, offs)) by {
                assert forall|i: int| 0 <= i < offs.len() implies #[trigger] records_of(b3, offs)[i] == records_of(b1, offs)[i] by {
                    assert(values_of(b3, offs, record_types(offs.len()))[i] == values_of(b1, offs, record_types(offs.len()))[i]);
                }
            }
        }
        self.buffer.as_slice()
    }

    /// Reads a log page back from a block: the offsets from the tail, the
    /// write offset from the end of the last record. A block whose count is
    /// zero is an empty page. None when the block does not hold a consistent
    /// log page.
    pub fn decode_from(buffer: Vec<u8>) -> (r: Option<LogPage>)
        requires
            buffer@.len() > 0,
        ensures
            r is Some <==> log_decodable(buffer@),
            r is Some ==> {
                let page = r->Some_0;
                &&& page.wf()
                &&& page.bytes() == buffer@
                &&& page.block_size() == buffer@.len()
                &&& page@ == decoded_records(buffer@)
                &&& page.write_offset() == stored_log_write_offset(buffer@)
            },
    {
        let ghost b = buffer@;
        let length = buffer.len();
        if length < 2 || length > u32::MAX as usize {
            return None;
        }
        let count = read_u16_le(buffer.as_slice(), length - RESERVED_SIZE_FOR_NUMBER_OF_OFFSETS) as usize;
        let ghost n = count as int;
        if SIZE_OF_OFFSET * count + RESERVED_SIZE_FOR_NUMBER_OF_OFFSETS > length {
            return None;
        }
        let slice = buffer.as_slice();
        let starting_offsets = StartingOffsets::decode_from(
            &slice[length - RESERVED_SIZE_FOR_NUMBER_OF_OFFSETS - SIZE_OF_OFFSET * count..length - RESERVED_SIZE_FOR_NUMBER_OF_OFFSETS],
        );
        let ghost offs = starting_offsets@;
        let ghost tys = record_types(count as nat);
        assert(offs =~= stored_record_offsets(b, n));
        let mut end: usize = 0;
        let mut i: usize = 0;
        while i < count
            invariant
                b == slice@,
                b == buffer@,
                length == b.len(),
                2 <= length <= u32::MAX,
                n == count,
                n == stored_record_count(b),
                4 * count + 2 <= length,
                offs == starting_offsets@,
                tys == record_types(count as nat),
                offs == stored_record_offsets(b, n),
                offs.len() == count,
                i <= count,
                end <= length,
                i == 0 ==> end == 0,
                i > 0 ==> end == field_end(b, offs, tys, i - 1),
                forall|k: int| 0 <= k < i ==> #[trigger] field_fits(tys[k], b, offs[k] as int),
                forall|k: int| 0 <= k < i ==> #[trigger] field_end(b, offs, tys, k) <= end,
                forall|k: int, l: int| 0 <= k < l < i ==> #[trigger] field_end(b, offs, tys, k) <= #[trigger] offs[l],
            decreases count - i,
        {
            let offset = *starting_offsets.offset_at(i).unwrap() as usize;
            if offset < end {
                assert(!log_decodable(b)) by {
                    if log_decodable(b) {
                        assert(field_end(b, offs, tys, i - 1) <= offs[i as int]);
                    }
                }
                return None;
            }
            if offset > length || length - offset < RESERVED_SIZE_FOR_BYTE_SLICE
                || length - offset - RESERVED_SIZE_FOR_BYTE_SLICE < read_u16_le(slice, offset) as usize {
                assert(!log_decodable(b)) by {
                    if log_decodable(b) {
                        assert(field_fits(tys[i as int], b, offs[i as int] as int));
                    }
                }
                return None;
            }
            let next_end = BytesEncoderDecoder.decode(slice, offset).1;
            assert(next_end == field_end(b, offs, tys, i as int));
            end = next_end;
            i = i + 1;
        }
        assert(end == stored_log_write_offset(b));
        if end > length - SIZE_OF_OFFSET * count - RESERVED_SIZE_FOR_NUMBER_OF_OFFSETS {
            return None;
        }
        let page = LogPage { buffer, starting_offsets, current_write_offset: end };
        assert(log_layout_ok(b, offs, end as int));
        Some(page)
    }

    /// The record that starts at `offset`, as a view into the page.
    fn bytes_at(&self, offset: usize) -> (r: &[u8])
        requires
            self.wf(),
            exists|i: int| 0 <= i < self@.len() && self.starting_offsets@[i] == offset,
        ensures
            forall|i: int| 0 <= i < self@.len() && self.starting_offsets@[i] == offset ==> r@ == self@[i],
    {
        let ghost i = choose|i: int| 0 <= i < self@.len() && self.starting_offsets@[i] == offset;
        assert(field_fits(record_types(self@.len())[i], self.buffer@, offset as int));
        BytesEncoderDecoder.decode(self.buffer.as_slice(), offset).0
    }

    pub fn record_count(&self) -> (r: usize)
        ensures
            r == self@.len(),
    {
        self.starting_offsets.length()
    }

    /// A copy of the page.
    pub fn duplicate(&self) -> (r: LogPage)
        requires
            self.wf(),
        ensures
            r.wf(),
            r@ == self@,
            r.bytes() == self.bytes(),
            r.write_offset() == self.write_offset(),
            r.record_offsets() == self.record_offsets(),
    {
        LogPage {
            buffer: vstd::slice::slice_to_vec(self.buffer.as_slice()),
            starting_offsets: self.starting_offsets.duplicate(),
            current_write_offset: self.current_write_offset,
        }
    }

    /// An iterator over the records, newest first.
    pub fn backward_iterator(self) -> (r: BackwardRecordIterator)
        requires
            self.wf(),
        ensures
            r.wf(),
            r.remaining() == self@.reverse(),
    {
        BackwardRecordIterator::new(self)
    }
}

/// Walks the records of a log page from the last added to the first.
pub struct BackwardRecordIterator {
    page: LogPage,
    remaining_count: usize,
}

impl BackwardRecordIterator {
    pub closed spec fn wf(&self) -> bool {
        self.page.wf() && self.remaining_count <= self.page@.len()
    }

    /// The records still to come, in the order they will come.
    pub closed spec fn remaining(&self) -> Seq<Seq<u8>> {
        self.page@.subrange(0, self.remaining_count as int).reverse()
    }

    pub fn new(page: LogPage) -> (r: BackwardRecordIterator)
        requires
            page.wf(),
        ensures
            r.wf(),
            r.remaining() == page@.reverse(),
    {
        let count = page.starting_offsets.length();
        let r = BackwardRecordIterator { page, remaining_count: count };
        assert(r.page@.subrange(0, count as int) =~= r.page@);
        r
    }

    /// The next record, newest first; None once every record has come.
    pub fn record(&mut self) -> (r: Option<Vec<u8>>)
        requires
            old(self).wf(),
        ensures
            final(self).wf(),
            old(self).remaining().len() == 0 ==> r is None && final(self).remaining() == old(self).remaining(),
            old(self).remaining().len() > 0 ==> r is Some && r->Some_0@ == old(self).remaining()[0]
                && final(self).remaining() == old(self).remaining().drop_first(),
    {
        if self.remaining_count == 0 {
            return None;
        }
        let index = self.remaining_count - 1;
        let offset = *self.page.starting_offsets.offset_at(index).unwrap() as usize;
        let record = self.page.bytes_at(offset);
        let copy = vstd::slice::slice_to_vec(record);
        self.remaining_count = index;
        assert(self.remaining() =~= old(self).remaining().drop_first());
        Some(copy)
    }
}

} // verus!

verus! {

/// Round trip: a buffer that holds a well-formed log page with its directory
/// encoded at the tail decodes to the same records.
pub proof fn lemma_log_decode_of_encoding(page: &LogPage, image: Seq<u8>)
    requires
        page.wf(),
        is_log_encoding_of(image, page.bytes(), page.record_offsets()),
    ensures
        log_decodable(image),
        decoded_records(image) == page@,
        stored_log_write_offset(image) == page.write_offset(),
{
    let b = page.bytes();
    let offs = page.record_offsets();
    let cwo = page.write_offset() as int;
    let n = offs.len() as int;
    let len = b.len() as int;
    let tys = record_types(n as nat);
    lemma_le_u16_round_trip(n as u16, image, len - 2);
    assert(stored_record_count(image) == n);
    let sub = image.subrange(len - 2 - 4 * n, len - 2);
    assert(offsets_in(sub).len() == n);
    assert forall|i: int| 0 <= i < n implies #[trigger] offsets_in(sub)[i] == offs[i] by {
        assert(sub.subrange(4 * i, 4 * i + 4) == le_u32_bytes(offs[i]));
        lemma_le_u32_round_trip(offs[i], sub, 4 * i);
    }
    assert(stored_record_offsets(image, n) =~= offs);
    lemma_layout_unchanged(b, image, offs, tys, cwo);
    if n > 0 {
        assert(field_end(image, offs, tys, n - 1) == field_end(b, offs, tys, n - 1));
    }
    lemma_values_are_records(b, offs);
    lemma_values_are_records(image, offs);
    assert forall|i: int| 0 <= i < n implies #[trigger] records_of(image, offs)[i] == records_of(b, offs)[i] by {
        assert(values_of(image, offs, tys)[i] == values_of(b, offs, tys)[i]);
    }
    assert(records_of(image, offs) =~= records_of(b, offs));
}

} // verus!
