//! A buffer pool frame: a page, the block it holds, its pin count, and the
//! transaction and log position that last dirtied it.
use crate::block_id::BlockId;
use crate::data_page::{decodable, decoded_values, is_encoding_of, lemma_decode_of_encoding, BufferPage};
use vstd::prelude::*;

verus! {

pub struct Buffer {
    page: BufferPage,
    block_id: Option<BlockId>,
    pins: usize,
    modified_by: Option<usize>,
    log_sequence_number: usize,
}

impl Buffer {
    pub closed spec fn wf(&self) -> bool {
        &&& self.page.wf()
        &&& self.modified_by is Some ==> self.block_id is Some
    }

    pub closed spec fn page_view(&self) -> BufferPage {
        self.page
    }

    /// The block the frame holds, if any.
    pub closed spec fn block(&self) -> Option<(Seq<char>, nat)> {
        match self.block_id {
            Some(b) => Some(b@),
            None => None,
        }
    }

    pub closed spec fn pin_count(&self) -> nat {
        self.pins as nat
    }

    /// The transaction that dirtied the page since it was last written.
    pub closed spec fn modifier(&self) -> Option<usize> {
        self.modified_by
    }

    /// The log position that must be durable before the page is written.
    pub closed spec fn lsn(&self) -> nat {
        self.log_sequence_number as nat
    }

    /// A frame holding no block, with an empty page of `block_size` bytes.
    pub fn new(block_size: usize) -> (r: Buffer)
        requires
            2 <= block_size <= u32::MAX,
        ensures
            r.wf(),
            r.block() is None,
            r.pin_count() == 0,
            r.modifier() is None,
            r.lsn() == 0,
            r.page_view().block_size() == block_size,
    {
        Buffer { page: BufferPage::new(block_size), block_id: None, pins: 0, modified_by: None, log_sequence_number: 0 }
    }

    /// Notes that `transaction_number` changed the page, and that the log up
    /// to `log_sequence_number` must be durable before the page is written.
    pub fn set_modified(&mut self, transaction_number: usize, log_sequence_number: usize)
        requires
            old(self).wf(),
            old(self).block() is Some,
        ensures
            final(self).wf(),
            final(self).modifier() == Some(transaction_number),
            final(self).lsn() == log_sequence_number,
            final(self).block() == old(self).block(),
            final(self).pin_count() == old(self).pin_count(),
            final(self).page_view() == old(self).page_view(),
    {
        self.modified_by = Some(transaction_number);
        self.log_sequence_number = log_sequence_number;
    }

    pub fn pin(&mut self)
        requires
            old(self).pin_count() < usize::MAX,
        ensures
            final(self).pin_count() == old(self).pin_count() + 1,
            final(self).wf() == old(self).wf(),
            final(self).block() == old(self).block(),
            final(self).modifier() == old(self).modifier(),
            final(self).lsn() == old(self).lsn(),
            final(self).page_view() == old(self).page_view(),
    {
        self.pins = self.pins + 1;
    }

    /// Drops one pin; a frame with no pin stays at zero.
    pub fn unpin(&mut self)
        ensures
            final(self).pin_count() == if old(self).pin_count() > 0 { old(self).pin_count() - 1 } else { 0 },
            final(self).wf() == old(self).wf(),
            final(self).block() == old(self).block(),
            final(self).modifier() == old(self).modifier(),
            final(self).lsn() == old(self).lsn(),
            final(self).page_view() == old(self).page_view(),
    {
        if self.pins > 0 {
            self.pins = self.pins - 1;
        }
    }

    pub fn is_pinned(&self) -> (r: bool)
        ensures
            r == (self.pin_count() > 0),
    {
        self.pins > 0
    }

    pub fn pins(&self) -> (r: usize)
        ensures
            r == self.pin_count(),
    {
        self.pins
    }

    pub fn is_modified(&self) -> (r: bool)
        ensures
            r == self.modifier() is Some,
    {
        self.modified_by.is_some()
    }

    pub fn log_sequence_number(&self) -> (r: usize)
        ensures
            r == self.lsn(),
    {
        self.log_sequence_number
    }

    pub fn has_block_id(&self, block_id: &BlockId) -> (r: bool)
        ensures
            r == (self.block() == Some(block_id@)),
    {
        match &self.block_id {
            Some(held) => held == block_id,
            None => false,
        }
    }

    /// The block the frame holds, if any.
    pub fn block_id(&self) -> (r: Option<BlockId>)
        ensures
            r is None <==> self.block() is None,
            r is Some ==> self.block() == Some(r->Some_0@),
    {
        match &self.block_id {
            Some(held) => Some(held.duplicate()),
            None => None,
        }
    }

    pub fn page(&self) -> (r: &BufferPage)
        ensures
            *r == self.page_view(),
    {
        &self.page
    }

    /// The page, to read or change in place.
    pub fn page_mut(&mut self) -> (r: &mut BufferPage)
        ensures
            *r == old(self).page_view(),
            final(self).page_view() == *final(r),
            final(self).block() == old(self).block(),
            final(self).pin_count() == old(self).pin_count(),
            final(self).modifier() == old(self).modifier(),
            final(self).lsn() == old(self).lsn(),
            old(self).wf() && final(r).wf() ==> final(self).wf(),
    {
        &mut self.page
    }

    /// The write that makes the page durable when it is dirty: its block and
    /// its encoded bytes. The page keeps its values.
    pub fn page_to_write(&mut self) -> (r: Option<(BlockId, Vec<u8>)>)
        requires
            old(self).wf(),
        ensures
            final(self).wf(),
            old(self).modifier() is None <==> r is None,
            r is Some ==> Some(r->Some_0.0@) == old(self).block()
                && r->Some_0.1@ == final(self).page_view().bytes()
                && is_encoding_of(
                    r->Some_0.1@,
                    old(self).page_view().bytes(),
                    old(self).page_view().field_offsets(),
                    old(self).page_view().field_types(),
                )
                && decodable(r->Some_0.1@)
                && decoded_values(r->Some_0.1@) == old(self).page_view()@,
            final(self).page_view()@ == old(self).page_view()@,
            final(self).page_view().block_size() == old(self).page_view().block_size(),
            final(self).block() == old(self).block(),
            final(self).pin_count() == old(self).pin_count(),
            final(self).modifier() == old(self).modifier(),
            final(self).lsn() == old(self).lsn(),
    {
        if self.modified_by.is_none() {
            return None;
        }
        let block_id = match &self.block_id {
            Some(held) => held.duplicate(),
            None => {
                return None;
            },
        };
        let ghost before = self.page;
        let bytes = vstd::slice::slice_to_vec(self.page.encode());
        proof {
            lemma_decode_of_encoding(&before, bytes@);
        }
        Some((block_id, bytes))
    }

    /// Notes that the dirty page reached its block.
    pub fn written(&mut self)
        requires
            old(self).wf(),
        ensures
            final(self).wf(),
            final(self).modifier() is None,
            final(self).lsn() == old(self).lsn(),
            final(self).block() == old(self).block(),
            final(self).pin_count() == old(self).pin_count(),
            final(self).page_view() == old(self).page_view(),
    {
        self.modified_by = None;
    }

    /// Binds the frame to `block_id`, whose page is `page`, with no pin. The
    /// frame must be clean: a dirty page is written first.
    pub fn assign_to_block(&mut self, block_id: BlockId, page: BufferPage)
        requires
            old(self).wf(),
            old(self).modifier() is None,
            page.wf(),
        ensures
            final(self).wf(),
            final(self).block() == Some(block_id@),
            final(self).page_view() == page,
            final(self).pin_count() == 0,
            final(self).modifier() is None,
            final(self).lsn() == old(self).lsn(),
    {
        self.page = page;
        self.block_id = Some(block_id);
        self.pins = 0;
    }
}

} // verus!
