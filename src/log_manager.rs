//! The write-ahead log: appends records to the current log page, tells the
//! caller which blocks to write, and walks the log backward block by block.
use crate::block_id::BlockId;
use crate::codec::MAX_BYTE_SLICE_LENGTH;
use crate::data_page::MAX_FIELDS;
use crate::log_page::{
    decoded_records, lemma_log_decode_of_encoding, log_decodable, stored_log_write_offset, LogPage,
};
use vstd::prelude::*;

verus! {

/// The records of a log file's blocks, oldest first.
pub open spec fn log_contents(blocks: Seq<Seq<u8>>) -> Seq<Seq<u8>>
    decreases blocks.len(),
{
    if blocks.len() == 0 {
        Seq::empty()
    } else {
        log_contents(blocks.drop_last()) + decoded_records(blocks.last())
    }
}

/// A record of `length` bytes fits in an empty log block of `block_size`
/// bytes: its length prefix, its bytes, one offset and the count.
pub open spec fn fits_in_empty_block(length: int, block_size: int) -> bool {
    2 + length + 4 + 2 <= block_size
}

pub proof fn lemma_reverse_concat(a: Seq<Seq<u8>>, b: Seq<Seq<u8>>)
    ensures
        (a + b).reverse() == b.reverse() + a.reverse(),
{
    assert((a + b).reverse() =~= b.reverse() + a.reverse());
}

/// A log block ready to be written: where, what, and the last sequence
/// number it makes durable.
pub struct LogWrite {
    pub block_id: BlockId,
    pub bytes: Vec<u8>,
    pub covers: usize,
}

/// What an append asks of the caller.
pub enum AppendStep {
    /// The record is in the current page under this sequence number.
    Appended(usize),
    /// The current page is full: write it, add an empty block to the log
    /// file, and hand that block to `append_in_new_block`.
    WriteAndExtend(LogWrite),
}

/// The in-memory side of the log: the page of the current block and the
/// sequence numbers.
pub struct LogManager {
    log_file_name: String,
    block_size: usize,
    log_page: LogPage,
    current_block_id: BlockId,
    latest_log_sequence_number: usize,
    last_saved_log_sequence_number: usize,
}

impl LogManager {
    pub closed spec fn wf(&self) -> bool {
        &&& self.log_page.wf()
        &&& self.log_page.block_size() == self.block_size
        &&& 2 <= self.block_size <= u32::MAX
        &&& self.last_saved_log_sequence_number <= self.latest_log_sequence_number
        &&& self.current_block_id@.0 == self.log_file_name@
    }

    /// Records of the current page, oldest first.
    pub closed spec fn page(&self) -> Seq<Seq<u8>> {
        self.log_page@
    }

    /// Bytes left in the current page between its records and its directory.
    pub closed spec fn free_space(&self) -> int {
        self.log_page.free_space()
    }

    /// The current page takes a record of `length` bytes.
    pub open spec fn has_room_for(&self, length: int) -> bool {
        self.page().len() < MAX_FIELDS && self.free_space() >= 2 + length + 4
    }

    pub closed spec fn current_block(&self) -> (Seq<char>, nat) {
        self.current_block_id@
    }

    pub closed spec fn file_name(&self) -> Seq<char> {
        self.log_file_name@
    }

    pub closed spec fn block_size(&self) -> nat {
        self.block_size as nat
    }

    pub closed spec fn latest_lsn(&self) -> nat {
        self.latest_log_sequence_number as nat
    }

    pub closed spec fn last_saved_lsn(&self) -> nat {
        self.last_saved_log_sequence_number as nat
    }

    /// The log's invariant: the saved sequence number never passes the latest,
    /// the current block is in the log file, and the current page has room
    /// left for its directory.
    pub proof fn lemma_wf(&self)
        requires
            self.wf(),
        ensures
            self.last_saved_lsn() <= self.latest_lsn(),
            self.current_block().0 == self.file_name(),
            2 <= self.block_size() <= u32::MAX,
            self.free_space() >= 0,
            self.page().len() <= MAX_FIELDS,
    {
        self.log_page.lemma_wf();
    }

    /// The block a log file of `number_of_blocks` blocks opens on: its last
    /// block; None for an empty file, to which the caller first adds a block.
    pub fn block_to_open(log_file_name: &str, number_of_blocks: usize) -> (r: Option<BlockId>)
        ensures
            number_of_blocks == 0 <==> r is None,
            r is Some ==> r->Some_0@ == (log_file_name@, (number_of_blocks - 1) as nat),
    {
        if number_of_blocks == 0 {
            None
        } else {
            Some(BlockId::new(log_file_name, number_of_blocks - 1))
        }
    }

    /// Opens the log on `current_block_id`: a block just added to an empty log
    /// file when `last_block` is None, else the last block of the file with
    /// `last_block` its bytes. None when those bytes are not a log page of
    /// `block_size` bytes. Sequence numbers start at 0.
    pub fn new(log_file_name: &str, block_size: usize, current_block_id: BlockId, last_block: Option<Vec<u8>>) -> (r: Option<LogManager>)
        requires
            2 <= block_size <= u32::MAX,
            current_block_id@.0 == log_file_name@,
        ensures
            last_block is None ==> r is Some && r->Some_0.page() == Seq::<Seq<u8>>::empty()
                && r->Some_0.free_space() == block_size - 2,
            last_block is Some ==> (r is Some <==> last_block->Some_0@.len() == block_size
                && log_decodable(last_block->Some_0@)),
            last_block is Some && r is Some ==> r->Some_0.page() == decoded_records(last_block->Some_0@)
                && r->Some_0.free_space() == block_size - stored_log_write_offset(last_block->Some_0@)
                    - 4 * decoded_records(last_block->Some_0@).len() - 2,
            r is Some ==> {
                let m = r->Some_0;
                &&& m.wf()
                &&& m.current_block() == current_block_id@
                &&& m.file_name() == log_file_name@
                &&& m.block_size() == block_size
                &&& m.latest_lsn() == 0
                &&& m.last_saved_lsn() == 0
            },
    {
        let log_page = match last_block {
            None => LogPage::new(block_size),
            Some(bytes) => {
                if bytes.len() != block_size {
                    return None;
                }
                match LogPage::decode_from(bytes) {
                    Some(page) => page,
                    None => {
                        return None;
                    },
                }
            },
        };
        // Sequence numbers restart at 0 on reopening; a recovery layer that
        // needs them monotonic would count the records already in the file.
        Some(LogManager {
            log_file_name: log_file_name.to_owned(),
            block_size,
            log_page,
            current_block_id,
            latest_log_sequence_number: 0,
            last_saved_log_sequence_number: 0,
        })
    }

    /// Adds a record to the current page. When the page is full, nothing
    /// changes and the caller is asked to write the page and extend the file.
    pub fn append(&mut self, record: &[u8]) -> (r: AppendStep)
        requires
            old(self).wf(),
            record@.len() <= MAX_BYTE_SLICE_LENGTH,
            fits_in_empty_block(record@.len() as int, old(self).block_size() as int),
            old(self).latest_lsn() < usize::MAX,
        ensures
            final(self).wf(),
            final(self).current_block() == old(self).current_block(),
            final(self).file_name() == old(self).file_name(),
            final(self).block_size() == old(self).block_size(),
            final(self).last_saved_lsn() == old(self).last_saved_lsn(),
            r is Appended <==> old(self).has_room_for(record@.len() as int),
            r is Appended ==> final(self).free_space() == old(self).free_space() - (2 + record@.len() + 4),
            r is Appended ==> final(self).page() == old(self).page().push(record@)
                && final(self).latest_lsn() == old(self).latest_lsn() + 1
                && r->Appended_0 == final(self).latest_lsn(),
            r is WriteAndExtend ==> {
                let w = r->WriteAndExtend_0;
                &&& final(self).page() == old(self).page()
                &&& old(self).page().len() > 0
                &&& final(self).latest_lsn() == old(self).latest_lsn()
                &&& w.block_id@ == old(self).current_block()
                &&& w.covers == old(self).latest_lsn()
                &&& w.bytes@.len() == old(self).block_size()
                &&& log_decodable(w.bytes@)
                &&& decoded_records(w.bytes@) == old(self).page()
            },
    {
        proof {
            self.log_page.lemma_wf();
        }
        if self.log_page.add(record) {
            self.latest_log_sequence_number = self.latest_log_sequence_number + 1;
            AppendStep::Appended(self.latest_log_sequence_number)
        } else {
            AppendStep::WriteAndExtend(self.finished_page())
        }
    }

    /// The current page, finished, as a write to the current block.
    fn finished_page(&mut self) -> (w: LogWrite)
        requires
            old(self).wf(),
            old(self).page().len() > 0,
        ensures
            final(self).wf(),
            final(self).page() == old(self).page(),
            final(self).current_block() == old(self).current_block(),
            final(self).file_name() == old(self).file_name(),
            final(self).block_size() == old(self).block_size(),
            final(self).latest_lsn() == old(self).latest_lsn(),
            final(self).last_saved_lsn() == old(self).last_saved_lsn(),
            w.block_id@ == old(self).current_block(),
            w.covers == old(self).latest_lsn(),
            w.bytes@.len() == old(self).block_size(),
            log_decodable(w.bytes@),
            decoded_records(w.bytes@) == old(self).page(),
    {
        let ghost before = self.log_page;
        let bytes = vstd::slice::slice_to_vec(self.log_page.finish());
        proof {
            before.lemma_wf();
            lemma_log_decode_of_encoding(&before, bytes@);
        }
        LogWrite { block_id: self.current_block_id.duplicate(), bytes, covers: self.latest_log_sequence_number }
    }

    /// Continues the log in `block_id`, a block just added to the log file,
    /// once the full page has been written; then appends `record` there.
    pub fn append_in_new_block(&mut self, block_id: BlockId, record: &[u8]) -> (r: usize)
        requires
            old(self).wf(),
            block_id@.0 == old(self).file_name(),
            record@.len() <= MAX_BYTE_SLICE_LENGTH,
            fits_in_empty_block(record@.len() as int, old(self).block_size() as int),
            old(self).latest_lsn() < usize::MAX,
        ensures
            final(self).wf(),
            final(self).current_block() == block_id@,
            final(self).file_name() == old(self).file_name(),
            final(self).block_size() == old(self).block_size(),
            final(self).page() == seq![record@],
            final(self).free_space() == old(self).block_size() - 2 - (2 + record@.len() + 4),
            final(self).last_saved_lsn() == old(self).latest_lsn(),
            final(self).latest_lsn() == old(self).latest_lsn() + 1,
            r == final(self).latest_lsn(),
    {
        self.last_saved_log_sequence_number = self.latest_log_sequence_number;
        self.current_block_id = block_id;
        self.log_page = LogPage::new(self.block_size);
        let added = self.log_page.add(record);
        assert(added);
        assert(self.log_page@ =~= seq![record@]);
        self.latest_log_sequence_number = self.latest_log_sequence_number + 1;
        self.latest_log_sequence_number
    }

    /// Makes the current page durable: the write to perform, or None when the
    /// page holds no record and everything appended is already on disk.
    pub fn force_flush(&mut self) -> (r: Option<LogWrite>)
        requires
            old(self).wf(),
        ensures
            final(self).wf(),
            final(self).page() == old(self).page(),
            final(self).current_block() == old(self).current_block(),
            final(self).file_name() == old(self).file_name(),
            final(self).block_size() == old(self).block_size(),
            final(self).latest_lsn() == old(self).latest_lsn(),
            old(self).page().len() == 0 <==> r is None,
            r is None ==> final(self).last_saved_lsn() == old(self).latest_lsn(),
            r is Some ==> {
                let w = r->Some_0;
                &&& final(self).last_saved_lsn() == old(self).last_saved_lsn()
                &&& w.block_id@ == old(self).current_block()
                &&& w.covers == old(self).latest_lsn()
                &&& w.bytes@.len() == old(self).block_size()
                &&& log_decodable(w.bytes@)
                &&& decoded_records(w.bytes@) == old(self).page()
            },
    {
        if self.log_page.record_count() == 0 {
            self.last_saved_log_sequence_number = self.latest_log_sequence_number;
            None
        } else {
            Some(self.finished_page())
        }
    }

    /// Records that a write handed out by this log went through.
    pub fn saved(&mut self, covers: usize)
        requires
            old(self).wf(),
            covers <= old(self).latest_lsn(),
        ensures
            final(self).wf(),
            final(self).page() == old(self).page(),
            final(self).current_block() == old(self).current_block(),
            final(self).file_name() == old(self).file_name(),
            final(self).block_size() == old(self).block_size(),
            final(self).latest_lsn() == old(self).latest_lsn(),
            final(self).last_saved_lsn() == if covers > old(self).last_saved_lsn() { covers as nat } else { old(self).last_saved_lsn() },
    {
        if covers > self.last_saved_log_sequence_number {
            self.last_saved_log_sequence_number = covers;
        }
    }

    /// Makes every record up to `log_sequence_number` durable: a force flush
    /// when that number is not below the last saved one, else nothing.
    pub fn flush(&mut self, log_sequence_number: usize) -> (r: Option<LogWrite>)
        requires
            old(self).wf(),
        ensures
            final(self).wf(),
            final(self).page() == old(self).page(),
            final(self).current_block() == old(self).current_block(),
            final(self).file_name() == old(self).file_name(),
            final(self).block_size() == old(self).block_size(),
            final(self).latest_lsn() == old(self).latest_lsn(),
            log_sequence_number < old(self).last_saved_lsn() ==> r is None && final(self).last_saved_lsn() == old(self).last_saved_lsn(),
            log_sequence_number >= old(self).last_saved_lsn() ==> (old(self).page().len() == 0 <==> r is None),
            log_sequence_number >= old(self).last_saved_lsn() && r is None ==> final(self).last_saved_lsn() == old(self).latest_lsn(),
            r is Some ==> {
                let w = r->Some_0;
                &&& final(self).last_saved_lsn() == old(self).last_saved_lsn()
                &&& w.block_id@ == old(self).current_block()
                &&& w.covers == old(self).latest_lsn()
                &&& w.bytes@.len() == old(self).block_size()
                &&& log_decodable(w.bytes@)
                &&& decoded_records(w.bytes@) == old(self).page()
            },
    {
        if log_sequence_number >= self.last_saved_log_sequence_number {
            self.force_flush()
        } else {
            None
        }
    }

    pub fn latest_log_sequence_number(&self) -> (r: usize)
        ensures
            r == self.latest_lsn(),
    {
        self.latest_log_sequence_number
    }

    pub fn last_saved_log_sequence_number(&self) -> (r: usize)
        ensures
            r == self.last_saved_lsn(),
    {
        self.last_saved_log_sequence_number
    }

    /// A copy of the current page.
    pub fn current_page(&self) -> (r: LogPage)
        requires
            self.wf(),
        ensures
            r.wf(),
            r@ == self.page(),
    {
        self.log_page.duplicate()
    }

    pub fn current_block_id(&self) -> (r: BlockId)
        ensures
            r@ == self.current_block(),
    {
        self.current_block_id.duplicate()
    }
}

} // verus!
