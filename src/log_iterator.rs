//! Backward iteration over a whole log: the records of the current page,
//! then those of each earlier block, down to block 0.
use crate::block_id::BlockId;
use crate::log_manager::{lemma_reverse_concat, log_contents, LogManager};
use crate::log_page::{decoded_records, log_decodable, BackwardRecordIterator, LogPage};
use vstd::prelude::*;

verus! {

/// What the iterator hands back, or asks of the caller.
pub enum LogRecordStep {
    /// The next record, newest first.
    Record(Vec<u8>),
    /// The records of the block in hand are used up: read this earlier block
    /// and hand its bytes to `load_block`.
    ReadBlock(BlockId),
    /// Every record down to block 0 has come.
    Finished,
}

/// Walks a log backward, one block at a time.
pub struct BackwardLogIterator {
    current_block_id: BlockId,
    record_iterator: BackwardRecordIterator,
}

impl BackwardLogIterator {
    pub closed spec fn wf(&self) -> bool {
        self.record_iterator.wf()
    }

    /// Records of the block in hand still to come, newest first.
    pub closed spec fn pending(&self) -> Seq<Seq<u8>> {
        self.record_iterator.remaining()
    }

    /// The block in hand.
    pub closed spec fn block(&self) -> (Seq<char>, nat) {
        self.current_block_id@
    }

    /// Everything still to come when the blocks of the log file before the
    /// block in hand are `blocks`: the rest of this block, then the earlier
    /// blocks' records, newest first.
    pub open spec fn yet_to_come(&self, blocks: Seq<Seq<u8>>) -> Seq<Seq<u8>> {
        self.pending() + log_contents(blocks.take(self.block().1 as int)).reverse()
    }

    /// Starts at `current_block_id`, whose page is `page`.
    pub fn new(current_block_id: BlockId, page: LogPage) -> (r: BackwardLogIterator)
        requires
            page.wf(),
        ensures
            r.wf(),
            r.pending() == page@.reverse(),
            r.block() == current_block_id@,
    {
        BackwardLogIterator { current_block_id, record_iterator: BackwardRecordIterator::new(page) }
    }

    /// The next record; or the earlier block to read when this one is used
    /// up; or the end after block 0.
    pub fn next(&mut self) -> (r: LogRecordStep)
        requires
            old(self).wf(),
        ensures
            final(self).wf(),
            r is Record ==> old(self).pending().len() > 0
                && r->Record_0@ == old(self).pending()[0]
                && final(self).pending() == old(self).pending().drop_first()
                && final(self).block() == old(self).block(),
            r is ReadBlock ==> old(self).pending().len() == 0 && old(self).block().1 > 0
                && r->ReadBlock_0@ == (old(self).block().0, (old(self).block().1 - 1) as nat)
                && final(self).pending() == old(self).pending()
                && final(self).block() == old(self).block(),
            r is Finished ==> old(self).pending().len() == 0 && old(self).block().1 == 0
                && final(self).pending() == old(self).pending()
                && final(self).block() == old(self).block(),
    {
        match self.record_iterator.record() {
            Some(record) => LogRecordStep::Record(record),
            None => match self.current_block_id.previous() {
                Some(previous) => LogRecordStep::ReadBlock(previous),
                None => LogRecordStep::Finished,
            },
        }
    }

    /// Moves to the block before the one in hand, given its bytes. False, with
    /// nothing changed, when the bytes are not a log page.
    pub fn load_block(&mut self, bytes: Vec<u8>) -> (r: bool)
        requires
            old(self).wf(),
            old(self).pending().len() == 0,
            old(self).block().1 > 0,
        ensures
            final(self).wf(),
            r == (bytes@.len() > 0 && log_decodable(bytes@)),
            r ==> final(self).block() == (old(self).block().0, (old(self).block().1 - 1) as nat)
                && final(self).pending() == decoded_records(bytes@).reverse(),
            !r ==> final(self).block() == old(self).block() && final(self).pending() == old(self).pending(),
    {
        if bytes.len() == 0 {
            return false;
        }
        match LogPage::decode_from(bytes) {
            Some(page) => match self.current_block_id.previous() {
                Some(previous) => {
                    self.current_block_id = previous;
                    self.record_iterator = BackwardRecordIterator::new(page);
                    true
                },
                None => false,
            },
            None => false,
        }
    }
}

impl LogManager {
    /// An iterator from the newest record back to the first. The caller
    /// force-flushes first so that the blocks it will read are on disk.
    pub fn backward_iterator(&self) -> (r: BackwardLogIterator)
        requires
            self.wf(),
        ensures
            r.wf(),
            r.pending() == self.page().reverse(),
            r.block() == self.current_block(),
    {
        BackwardLogIterator::new(self.current_block_id(), self.current_page())
    }
}

/// The records of the first `k + 1` blocks are those of the first `k`, then
/// those of block `k`.
pub proof fn lemma_log_contents_take(blocks: Seq<Seq<u8>>, k: int)
    requires
        0 <= k < blocks.len(),
    ensures
        log_contents(blocks.take(k + 1)) == log_contents(blocks.take(k)) + decoded_records(blocks[k]),
{
    assert(blocks.take(k + 1).drop_last() =~= blocks.take(k));
}

/// Backward order, at the start: an iterator opened on a log whose blocks
/// before the current one are `blocks` has every record ahead of it, newest
/// first.
pub proof fn lemma_iterator_starts_with_whole_log(log: &LogManager, it: &BackwardLogIterator, blocks: Seq<Seq<u8>>)
    requires
        it.pending() == log.page().reverse(),
        it.block() == log.current_block(),
    ensures
        it.yet_to_come(blocks) == (log_contents(blocks.take(log.current_block().1 as int)) + log.page()).reverse(),
{
    lemma_reverse_concat(log_contents(blocks.take(log.current_block().1 as int)), log.page());
}

/// Backward order, at each record: the record handed back is the first of
/// what was still to come, and the rest is still to come.
pub proof fn lemma_record_step(before: &BackwardLogIterator, after: &BackwardLogIterator, record: Seq<u8>, blocks: Seq<Seq<u8>>)
    requires
        before.pending().len() > 0,
        record == before.pending()[0],
        after.pending() == before.pending().drop_first(),
        after.block() == before.block(),
    ensures
        record == before.yet_to_come(blocks)[0],
        after.yet_to_come(blocks) == before.yet_to_come(blocks).drop_first(),
{
    assert(after.yet_to_come(blocks) =~= before.yet_to_come(blocks).drop_first());
}

/// Backward order, across blocks: loading the earlier block, as `blocks`
/// holds it, leaves what is still to come unchanged.
pub proof fn lemma_load_keeps_order(before: &BackwardLogIterator, after: &BackwardLogIterator, blocks: Seq<Seq<u8>>)
    requires
        before.pending().len() == 0,
        before.block().1 > 0,
        before.block().1 <= blocks.len(),
        after.block().1 == before.block().1 - 1,
        after.pending() == decoded_records(blocks[after.block().1 as int]).reverse(),
    ensures
        after.yet_to_come(blocks) == before.yet_to_come(blocks),
{
    let k = after.block().1 as int;
    lemma_log_contents_take(blocks, k);
    lemma_reverse_concat(log_contents(blocks.take(k)), decoded_records(blocks[k]));
    assert(before.yet_to_come(blocks) =~= log_contents(blocks.take(k + 1)).reverse());
}

/// Backward order, at the end: after block 0 nothing is left.
pub proof fn lemma_finished_means_exhausted(it: &BackwardLogIterator, blocks: Seq<Seq<u8>>)
    requires
        it.pending().len() == 0,
        it.block().1 == 0,
    ensures
        it.yet_to_come(blocks) == Seq::<Seq<u8>>::empty(),
{
    assert(blocks.take(0) =~= Seq::<Seq<u8>>::empty());
    assert(it.yet_to_come(blocks) =~= Seq::<Seq<u8>>::empty());
}

/// Restart: reopening on the last block of a log file, whose page decodes to
/// the records of that block, sees the earlier blocks' records followed by
/// those of the page, which together are the whole log.
pub proof fn lemma_restart_sees_whole_log(blocks: Seq<Seq<u8>>)
    requires
        blocks.len() > 0,
    ensures
        log_contents(blocks.take(blocks.len() - 1)) + decoded_records(blocks[blocks.len() - 1]) == log_contents(blocks),
{
    lemma_log_contents_take(blocks, blocks.len() - 1);
    assert(blocks.take(blocks.len() as int) =~= blocks);
}

} // verus!
