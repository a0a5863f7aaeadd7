//! The directory of field or record start offsets kept by a page.
use crate::codec::{le_u32_at, le_u32_bytes, read_u32_le, write_u32_le};
use vstd::prelude::*;

verus! {

/// Bytes taken by one encoded offset.
pub const SIZE_OF_OFFSET: usize = 4;

/// `b` holds each offset of `s` as four little-endian bytes, in order.
pub open spec fn encodes_offsets(b: Seq<u8>, s: Seq<u32>) -> bool {
    &&& b.len() == 4 * s.len()
    &&& forall|i: int| 0 <= i < s.len() ==> #[trigger] b.subrange(4 * i, 4 * i + 4) == le_u32_bytes(s[i])
}

/// The offsets read from consecutive four-byte little-endian chunks of `b`.
pub open spec fn offsets_in(b: Seq<u8>) -> Seq<u32> {
    Seq::new(b.len() / 4, |i: int| le_u32_at(b, 4 * i))
}

/// Ordered start offsets, one per stored field or record.
pub struct StartingOffsets {
    offsets: Vec<u32>,
}

impl View for StartingOffsets {
    type V = Seq<u32>;

    closed spec fn view(&self) -> Seq<u32> {
        self.offsets@
    }
}

impl StartingOffsets {
    pub fn new() -> (r: StartingOffsets)
        ensures
            r@ == Seq::<u32>::empty(),
    {
        StartingOffsets { offsets: Vec::new() }
    }

    /// Reads one offset from each complete four-byte chunk of `buffer`.
    pub fn decode_from(buffer: &[u8]) -> (r: StartingOffsets)
        ensures
            r@ == offsets_in(buffer@),
    {
        let mut starting_offsets = StartingOffsets::new();
        let count = buffer.len() / SIZE_OF_OFFSET;
        let mut i: usize = 0;
        while i < count
            invariant
                count == buffer.len() / 4,
                i <= count,
                starting_offsets@ == offsets_in(buffer@).subrange(0, i as int),
            decreases count - i,
        {
            proof {
                let n = buffer@.len() as int;
                assert(4 * i + 4 <= n) by (nonlinear_arith)
                    requires i < count, count == n / 4, n >= 0;
            }
            let offset = read_u32_le(buffer, i * SIZE_OF_OFFSET);
            starting_offsets.offsets.push(offset);
            i = i + 1;
            assert(starting_offsets@ =~= offsets_in(buffer@).subrange(0, i as int));
        }
        assert(starting_offsets@ =~= offsets_in(buffer@));
        starting_offsets
    }

    pub fn add_offset(&mut self, offset: u32)
        ensures
            final(self)@ == old(self)@.push(offset),
    {
        self.offsets.push(offset);
    }

    pub fn offset_at(&self, index: usize) -> (r: Option<&u32>)
        ensures
            index < self@.len() ==> r == Some(&self@[index as int]),
            index >= self@.len() ==> r is None,
    {
        if index < self.offsets.len() {
            Some(&self.offsets[index])
        } else {
            None
        }
    }

    pub fn last_offset(&self) -> (r: Option<&u32>)
        ensures
            self@.len() > 0 ==> r == Some(&self@.last()),
            self@.len() == 0 ==> r is None,
    {
        if self.offsets.len() > 0 {
            Some(&self.offsets[self.offsets.len() - 1])
        } else {
            None
        }
    }

    /// Four little-endian bytes per offset, in order.
    pub fn encode(&self) -> (r: Vec<u8>)
        requires
            4 * self@.len() <= usize::MAX,
        ensures
            encodes_offsets(r@, self@),
    {
        let count = self.offsets.len();
        let mut encoded_offsets: Vec<u8> = vec![0u8; count * SIZE_OF_OFFSET];
        let mut i: usize = 0;
        while i < count
            invariant
                count == self@.len(),
                4 * count <= usize::MAX,
                i <= count,
                encoded_offsets@.len() == 4 * count,
                forall|j: int| 0 <= j < i ==> #[trigger] encoded_offsets@.subrange(4 * j, 4 * j + 4) == le_u32_bytes(self@[j]),
            decreases count - i,
        {
            let ghost before = encoded_offsets@;
            write_u32_le(&mut encoded_offsets, i * SIZE_OF_OFFSET, self.offsets[i]);
            assert forall|j: int| 0 <= j < i + 1 implies #[trigger] encoded_offsets@.subrange(4 * j, 4 * j + 4) == le_u32_bytes(self@[j]) by {
                if j < i {
                    assert(encoded_offsets@.subrange(4 * j, 4 * j + 4) =~= before.subrange(4 * j, 4 * j + 4));
                } else {
                    assert(encoded_offsets@.subrange(4 * j, 4 * j + 4) =~= le_u32_bytes(self@[j]));
                }
            }
            i = i + 1;
        }
        encoded_offsets
    }

    pub fn size_in_bytes(&self) -> (r: usize)
        requires
            4 * self@.len() <= usize::MAX,
        ensures
            r == 4 * self@.len(),
    {
        self.offsets.len() * SIZE_OF_OFFSET
    }

    pub fn size_in_bytes_for_an_offset() -> (r: usize)
        ensures
            r == 4,
    {
        SIZE_OF_OFFSET
    }

    pub fn size_in_bytes_for(number_of_offsets: usize) -> (r: usize)
        requires
            4 * number_of_offsets <= usize::MAX,
        ensures
            r == 4 * number_of_offsets,
    {
        SIZE_OF_OFFSET * number_of_offsets
    }

    pub fn duplicate(&self) -> (r: StartingOffsets)
        ensures
            r@ == self@,
    {
        StartingOffsets { offsets: vstd::slice::slice_to_vec(self.offsets.as_slice()) }
    }

    pub fn length(&self) -> (r: usize)
        ensures
            r == self@.len(),
    {
        self.offsets.len()
    }
}

} // verus!
