//! The buffer pool: a fixed set of frames pinned to blocks, reassigned to
//! new blocks only when unpinned, writing a dirty page only after the log
//! that covers it.
use crate::block_id::BlockId;
use crate::buffer::Buffer;
use crate::data_page::{decodable, decoded_values, BufferPage};
use crate::log_manager::{LogManager, LogWrite};
use crate::log_page::{decoded_records, log_decodable};
use vstd::prelude::*;
use vstd::string::StringExecFns;

verus! {

/// `std::io::Error`, carried unopened in `BufferPinError::IO`; nothing is
/// assumed of its contents.
#[verifier::external_type_specification]
#[verifier::external_body]
pub struct ExIoError(std::io::Error);

/// Why a pin failed.
#[derive(Debug)]
pub enum BufferPinError {
    /// Reading or writing a block failed.
    IO(std::io::Error),
    /// Every frame is pinned.
    Unavailable,
}

/// Relies on the `Display` of `std::io::Error` for its message; nothing is
/// assumed of the text.
#[verifier::external_body]
fn io_error_text(error: &std::io::Error) -> String {
    error.to_string()
}

impl BufferPinError {
    pub fn is_unavailable_error(&self) -> (r: bool)
        ensures
            r == self is Unavailable,
    {
        match self {
            BufferPinError::Unavailable => true,
            BufferPinError::IO(_) => false,
        }
    }

    /// The error as a sentence.
    pub fn to_string(&self) -> (r: String)
        ensures
            self is Unavailable ==> r@ == "Buffer is unavailable"@,
            self is IO ==> r@.len() >= "Buffer I/O error: "@.len()
                && r@.subrange(0, "Buffer I/O error: "@.len() as int) == "Buffer I/O error: "@,
    {
        match self {
            BufferPinError::Unavailable => "Buffer is unavailable".to_owned(),
            BufferPinError::IO(error) => {
                let mut text = "Buffer I/O error: ".to_owned();
                let detail = io_error_text(error);
                text.append(detail.as_str());
                assert(text@.subrange(0, "Buffer I/O error: "@.len() as int) =~= "Buffer I/O error: "@);
                text
            },
        }
    }
}

impl From<std::io::Error> for BufferPinError {
    fn from(error: std::io::Error) -> (r: BufferPinError) {
        BufferPinError::IO(error)
    }
}

impl vstd::std_specs::convert::FromSpecImpl<std::io::Error> for BufferPinError {
    open spec fn obeys_from_spec() -> bool {
        true
    }

    open spec fn from_spec(error: std::io::Error) -> BufferPinError {
        BufferPinError::IO(error)
    }
}

/// Frames with at least one pin.
pub open spec fn pinned_count(frames: Seq<Buffer>) -> nat
    decreases frames.len(),
{
    if frames.len() == 0 {
        0
    } else {
        pinned_count(frames.drop_last()) + if frames.last().pin_count() > 0 { 1nat } else { 0nat }
    }
}

pub proof fn lemma_pinned_count_bound(frames: Seq<Buffer>)
    ensures
        pinned_count(frames) <= frames.len(),
    decreases frames.len(),
{
    if frames.len() > 0 {
        lemma_pinned_count_bound(frames.drop_last());
    }
}

/// Replacing one frame changes the count by that frame's change alone.
pub proof fn lemma_pinned_count_update(frames: Seq<Buffer>, i: int, frame: Buffer)
    requires
        0 <= i < frames.len(),
    ensures
        pinned_count(frames.update(i, frame)) + (if frames[i].pin_count() > 0 { 1int } else { 0int })
            == pinned_count(frames) + (if frame.pin_count() > 0 { 1int } else { 0int }),
    decreases frames.len(),
{
    let updated = frames.update(i, frame);
    if i == frames.len() - 1 {
        assert(updated.drop_last() =~= frames.drop_last());
    } else {
        assert(updated.drop_last() =~= frames.drop_last().update(i, frame));
        lemma_pinned_count_update(frames.drop_last(), i, frame);
    }
}

/// Every frame pinned means no frame left to reassign.
pub proof fn lemma_all_pinned(frames: Seq<Buffer>)
    ensures
        pinned_count(frames) == frames.len() <==> forall|i: int| 0 <= i < frames.len() ==> #[trigger] frames[i].pin_count() > 0,
    decreases frames.len(),
{
    if frames.len() > 0 {
        lemma_all_pinned(frames.drop_last());
        lemma_pinned_count_bound(frames.drop_last());
        if pinned_count(frames) == frames.len() {
            assert forall|i: int| 0 <= i < frames.len() implies #[trigger] frames[i].pin_count() > 0 by {
                if i < frames.len() - 1 {
                    assert(frames[i] == frames.drop_last()[i]);
                }
            }
        }
        if forall|i: int| 0 <= i < frames.len() ==> #[trigger] frames[i].pin_count() > 0 {
            assert forall|i: int| 0 <= i < frames.drop_last().len() implies #[trigger] frames.drop_last()[i].pin_count() > 0 by {
                assert(frames[i] == frames.drop_last()[i]);
            }
        }
    }
}

/// Two frame lists that differ at most at `i`.
pub open spec fn same_except(a: Seq<Buffer>, b: Seq<Buffer>, i: int) -> bool {
    &&& a.len() == b.len()
    &&& forall|j: int| 0 <= j < a.len() && j != i ==> #[trigger] a[j] == b[j]
}

/// The frame holds the same block, pins, dirty marker and values; only the
/// page's encoded directory may have been written.
pub open spec fn same_frame_state(a: Buffer, b: Buffer) -> bool {
    &&& a.block() == b.block()
    &&& a.pin_count() == b.pin_count()
    &&& a.modifier() == b.modifier()
    &&& a.lsn() == b.lsn()
    &&& a.page_view()@ == b.page_view()@
    &&& a.page_view().block_size() == b.page_view().block_size()
}

/// Some frame holds the block.
pub open spec fn holds(frames: Seq<Buffer>, block: (Seq<char>, nat)) -> bool {
    exists|i: int| 0 <= i < frames.len() && (#[trigger] frames[i]).block() == Some(block)
}

/// Where a pin that needs I/O stands.
pub enum PinStage {
    /// Waiting for the log write that covers this sequence number.
    AwaitingLogWrite(usize),
    /// Waiting for the dirty page to be written to its block.
    AwaitingPageWrite,
    /// Waiting for the new block's page.
    AwaitingRead,
}

struct PendingPin {
    frame: usize,
    block_id: BlockId,
    stage: PinStage,
}

/// What a pin asks of the caller next.
pub enum PinRequest {
    /// Done: this frame now holds the block, pinned.
    Pinned(usize),
    /// Write this log block, then call `log_written`.
    WriteLog(LogWrite),
    /// Write these page bytes to this block, then call `page_written`.
    WritePage(BlockId, Vec<u8>),
    /// Read this block, decode it as a page, and hand it to `block_read`.
    ReadBlock(BlockId),
}

/// A fixed number of frames; the first unpinned frame is the one reassigned.
pub struct BufferManager {
    buffer_pool: Vec<Buffer>,
    available_buffers: usize,
    block_size: usize,
    pending: Option<PendingPin>,
}

impl BufferManager {
    pub closed spec fn frames(&self) -> Seq<Buffer> {
        self.buffer_pool@
    }

    pub closed spec fn available_count(&self) -> nat {
        self.available_buffers as nat
    }

    pub closed spec fn block_size(&self) -> nat {
        self.block_size as nat
    }

    /// The pin in progress: its frame, the block it is for, and its stage.
    pub closed spec fn pending(&self) -> Option<(usize, (Seq<char>, nat), PinStage)> {
        match self.pending {
            Some(p) => Some((p.frame, p.block_id@, p.stage)),
            None => None,
        }
    }

    pub closed spec fn wf(&self) -> bool {
        &&& 2 <= self.block_size <= u32::MAX
        &&& forall|i: int| 0 <= i < self.buffer_pool@.len() ==> (#[trigger] self.buffer_pool@[i]).wf()
            && self.buffer_pool@[i].page_view().block_size() == self.block_size
        &&& self.available_buffers + pinned_count(self.buffer_pool@) == self.buffer_pool@.len()
        &&& self.pending matches Some(p) ==> {
            &&& p.frame < self.buffer_pool@.len()
            &&& self.buffer_pool@[p.frame as int].pin_count() == 0
            &&& (p.stage is AwaitingRead) == (self.buffer_pool@[p.frame as int].modifier() is None)
        }
    }

    /// A pool of `capacity` frames, all unassigned, pages of `block_size` bytes.
    pub fn new(capacity: usize, block_size: usize) -> (r: BufferManager)
        requires
            2 <= block_size <= u32::MAX,
        ensures
            r.wf(),
            r.frames().len() == capacity,
            r.available_count() == capacity,
            r.pending() is None,
            r.block_size() == block_size,
            forall|i: int| 0 <= i < capacity ==> (#[trigger] r.frames()[i]).block() is None
                && r.frames()[i].pin_count() == 0 && r.frames()[i].modifier() is None,
    {
        let mut buffer_pool: Vec<Buffer> = Vec::new();
        let mut i: usize = 0;
        while i < capacity
            invariant
                i <= capacity,
                2 <= block_size <= u32::MAX,
                buffer_pool@.len() == i,
                pinned_count(buffer_pool@) == 0,
                forall|j: int| 0 <= j < i ==> (#[trigger] buffer_pool@[j]).wf()
                    && buffer_pool@[j].page_view().block_size() == block_size
                    && buffer_pool@[j].block() is None && buffer_pool@[j].pin_count() == 0
                    && buffer_pool@[j].modifier() is None,
            decreases capacity - i,
        {
            let ghost before = buffer_pool@;
            buffer_pool.push(Buffer::new(block_size));
            assert(buffer_pool@.drop_last() =~= before);
            i = i + 1;
        }
        BufferManager { buffer_pool, available_buffers: capacity, block_size, pending: None }
    }

    pub fn available_buffers(&self) -> (r: usize)
        ensures
            r == self.available_count(),
    {
        self.available_buffers
    }

    /// Bytes of each frame's page.
    pub fn page_size(&self) -> (r: usize)
        ensures
            r == self.block_size(),
    {
        self.block_size
    }

    pub fn capacity(&self) -> (r: usize)
        ensures
            r == self.frames().len(),
    {
        self.buffer_pool.len()
    }

    pub fn buffer(&self, index: usize) -> (r: &Buffer)
        requires
            index < self.frames().len(),
        ensures
            *r == self.frames()[index as int],
    {
        &self.buffer_pool[index]
    }

    /// The first frame that holds `block_id`.
    fn find_block(&self, block_id: &BlockId) -> (r: Option<usize>)
        ensures
            r is None ==> !holds(self.frames(), block_id@),
            r is Some ==> r->Some_0 < self.frames().len()
                && self.frames()[r->Some_0 as int].block() == Some(block_id@)
                && forall|j: int| 0 <= j < r->Some_0 ==> (#[trigger] self.frames()[j]).block() != Some(block_id@),
    {
        let mut i: usize = 0;
        while i < self.buffer_pool.len()
            invariant
                i <= self.frames().len(),
                forall|j: int| 0 <= j < i ==> (#[trigger] self.frames()[j]).block() != Some(block_id@),
            decreases self.frames().len() - i,
        {
            if self.buffer_pool[i].has_block_id(block_id) {
                return Some(i);
            }
            i = i + 1;
        }
        None
    }

    /// The first frame with no pin.
    fn find_unpinned(&self) -> (r: Option<usize>)
        ensures
            r is None ==> forall|j: int| 0 <= j < self.frames().len() ==> (#[trigger] self.frames()[j]).pin_count() > 0,
            r is Some ==> r->Some_0 < self.frames().len()
                && self.frames()[r->Some_0 as int].pin_count() == 0
                && forall|j: int| 0 <= j < r->Some_0 ==> (#[trigger] self.frames()[j]).pin_count() > 0,
    {
        let mut i: usize = 0;
        while i < self.buffer_pool.len()
            invariant
                i <= self.frames().len(),
                forall|j: int| 0 <= j < i ==> (#[trigger] self.frames()[j]).pin_count() > 0,
            decreases self.frames().len() - i,
        {
            if !self.buffer_pool[i].is_pinned() {
                return Some(i);
            }
            i = i + 1;
        }
        None
    }

    /// Asks for the dirty page of frame `i` to be written, once the log covers it.
    fn request_page_write(&mut self, i: usize, block_id: BlockId) -> (r: PinRequest)
        requires
            old(self).wf(),
            old(self).pending is None,
            i < old(self).frames().len(),
            old(self).frames()[i as int].pin_count() == 0,
            old(self).frames()[i as int].modifier() is Some,
        ensures
            final(self).wf(),
            final(self).pending() == Some((i, block_id@, PinStage::AwaitingPageWrite)),
            final(self).available_count() == old(self).available_count(),
            final(self).block_size() == old(self).block_size(),
            same_except(old(self).frames(), final(self).frames(), i as int),
            same_frame_state(old(self).frames()[i as int], final(self).frames()[i as int]),
            r matches PinRequest::WritePage(b, bytes) && Some(b@) == old(self).frames()[i as int].block()
                && bytes@ == final(self).frames()[i as int].page_view().bytes()
                && decodable(bytes@) && decoded_values(bytes@) == old(self).frames()[i as int].page_view()@,
    {
        let ghost frames = self.buffer_pool@;
        let request = self.buffer_pool[i].page_to_write();
        proof {
            lemma_pinned_count_update(frames, i as int, self.buffer_pool@[i as int]);
            assert(self.buffer_pool@ =~= frames.update(i as int, self.buffer_pool@[i as int]));
        }
        self.pending = Some(PendingPin { frame: i, block_id, stage: PinStage::AwaitingPageWrite });
        let (old_block, bytes) = request.unwrap();
        PinRequest::WritePage(old_block, bytes)
    }

    /// Pins `block_id`: at once when a frame holds it; else the first unpinned
    /// frame is reassigned, which may first need the log and the frame's dirty
    /// page written and then needs the block read; `Unavailable` when every
    /// frame is pinned. The log is flushed here as far as the dirty page needs.
    pub fn pin(&mut self, log: &mut LogManager, block_id: BlockId) -> (r: Result<PinRequest, BufferPinError>)
        requires
            old(self).wf(),
            old(self).pending() is None,
            old(log).wf(),
            forall|i: int| 0 <= i < old(self).frames().len() ==> (#[trigger] old(self).frames()[i]).pin_count() < usize::MAX,
        ensures
            final(self).wf(),
            final(log).wf(),
            final(self).block_size() == old(self).block_size(),
            final(self).frames().len() == old(self).frames().len(),
            final(log).page() == old(log).page(),
            final(log).latest_lsn() == old(log).latest_lsn(),
            final(log).current_block() == old(log).current_block(),
            final(log).file_name() == old(log).file_name(),
            final(log).block_size() == old(log).block_size(),
            r is Err <==> !holds(old(self).frames(), block_id@)
                && forall|j: int| 0 <= j < old(self).frames().len() ==> (#[trigger] old(self).frames()[j]).pin_count() > 0,
            r is Err ==> r->Err_0 is Unavailable && *final(self) == *old(self) && *final(log) == *old(log),
            holds(old(self).frames(), block_id@) <==> r matches Ok(PinRequest::Pinned(_)),
            r matches Ok(PinRequest::Pinned(i)) ==> {
                &&& i < old(self).frames().len()
                &&& old(self).frames()[i as int].block() == Some(block_id@)
                &&& forall|j: int| 0 <= j < i ==> (#[trigger] old(self).frames()[j]).block() != Some(block_id@)
                &&& final(self).frames()[i as int].pin_count() == old(self).frames()[i as int].pin_count() + 1
                &&& final(self).frames()[i as int].block() == Some(block_id@)
                &&& final(self).frames()[i as int].modifier() == old(self).frames()[i as int].modifier()
                &&& final(self).frames()[i as int].lsn() == old(self).frames()[i as int].lsn()
                &&& final(self).frames()[i as int].page_view() == old(self).frames()[i as int].page_view()
                &&& same_except(old(self).frames(), final(self).frames(), i as int)
                &&& final(self).pending() is None
                &&& *final(log) == *old(log)
            },
            r is Ok && !(r->Ok_0 is Pinned) ==> {
                let (i, b, stage) = final(self).pending()->Some_0;
                &&& final(self).pending() is Some
                &&& b == block_id@
                &&& i < old(self).frames().len()
                &&& old(self).frames()[i as int].pin_count() == 0
                &&& forall|j: int| 0 <= j < i ==> (#[trigger] old(self).frames()[j]).pin_count() > 0
                &&& same_except(old(self).frames(), final(self).frames(), i as int)
                &&& same_frame_state(old(self).frames()[i as int], final(self).frames()[i as int])
                &&& final(self).available_count() == old(self).available_count()
                &&& (r->Ok_0 is ReadBlock <==> old(self).frames()[i as int].modifier() is None)
                &&& old(self).frames()[i as int].modifier() is Some ==> (r->Ok_0 is WriteLog <==> (
                    old(self).frames()[i as int].lsn() >= old(log).last_saved_lsn() && old(log).page().len() > 0))
            },
            r matches Ok(PinRequest::ReadBlock(b)) ==> b@ == block_id@
                && final(self).pending()->Some_0.2 is AwaitingRead
                && old(self).frames()[final(self).pending()->Some_0.0 as int].modifier() is None
                && *final(log) == *old(log),
            r matches Ok(PinRequest::WriteLog(w)) ==> final(self).pending()->Some_0.2 == PinStage::AwaitingLogWrite(w.covers)
                && w.covers == old(log).latest_lsn()
                && w.block_id@ == old(log).current_block()
                && log_decodable(w.bytes@)
                && decoded_records(w.bytes@) == old(log).page()
                && final(log).last_saved_lsn() == old(log).last_saved_lsn(),
            r matches Ok(PinRequest::WritePage(b, bytes)) ==> {
                let i = final(self).pending()->Some_0.0 as int;
                &&& final(self).pending()->Some_0.2 is AwaitingPageWrite
                &&& Some(b@) == old(self).frames()[i].block()
                &&& bytes@ == final(self).frames()[i].page_view().bytes()
                &&& decodable(bytes@)
                &&& decoded_values(bytes@) == old(self).frames()[i].page_view()@
                &&& old(self).frames()[i].lsn() <= old(log).latest_lsn() ==> final(log).last_saved_lsn() >= old(self).frames()[i].lsn()
            },
    {
        let ghost frames = self.buffer_pool@;
        match self.find_block(&block_id) {
            Some(i) => {
                proof {
                    lemma_pinned_count_bound(frames);
                }
                if !self.buffer_pool[i].is_pinned() {
                    proof {
                        lemma_all_pinned(frames);
                    }
                    self.available_buffers = self.available_buffers - 1;
                }
                self.buffer_pool[i].pin();
                proof {
                    lemma_pinned_count_update(frames, i as int, self.buffer_pool@[i as int]);
                    assert(self.buffer_pool@ =~= frames.update(i as int, self.buffer_pool@[i as int]));
                }
                Ok(PinRequest::Pinned(i))
            },
            None => match self.find_unpinned() {
                None => Err(BufferPinError::Unavailable),
                Some(i) => {
                    if self.buffer_pool[i].is_modified() {
                        let lsn = self.buffer_pool[i].log_sequence_number();
                        match log.flush(lsn) {
                            Some(write) => {
                                self.pending = Some(PendingPin { frame: i, block_id, stage: PinStage::AwaitingLogWrite(write.covers) });
                                Ok(PinRequest::WriteLog(write))
                            },
                            None => Ok(self.request_page_write(i, block_id)),
                        }
                    } else {
                        self.pending = Some(PendingPin { frame: i, block_id: block_id.duplicate(), stage: PinStage::AwaitingRead });
                        Ok(PinRequest::ReadBlock(block_id))
                    }
                },
            },
        }
    }

    /// The log write asked for by a pin went through: the log is durable up to
    /// what that write covers, and the frame's dirty page may now be written.
    pub fn log_written(&mut self, log: &mut LogManager) -> (r: PinRequest)
        requires
            old(self).wf(),
            old(self).pending() matches Some((_, _, PinStage::AwaitingLogWrite(covers))) && covers <= old(log).latest_lsn(),
            old(log).wf(),
        ensures
            final(self).wf(),
            final(log).wf(),
            final(self).block_size() == old(self).block_size(),
            final(self).available_count() == old(self).available_count(),
            final(log).page() == old(log).page(),
            final(log).latest_lsn() == old(log).latest_lsn(),
            final(log).current_block() == old(log).current_block(),
            final(log).file_name() == old(log).file_name(),
            final(log).block_size() == old(log).block_size(),
            ({
                let (i, b, stage) = old(self).pending()->Some_0;
                let covers = stage->AwaitingLogWrite_0;
                &&& final(self).pending() == Some((i, b, PinStage::AwaitingPageWrite))
                &&& same_except(old(self).frames(), final(self).frames(), i as int)
                &&& same_frame_state(old(self).frames()[i as int], final(self).frames()[i as int])
                &&& final(log).last_saved_lsn() >= covers
                &&& r matches PinRequest::WritePage(block, bytes) && Some(block@) == old(self).frames()[i as int].block()
                    && bytes@ == final(self).frames()[i as int].page_view().bytes()
                    && decodable(bytes@) && decoded_values(bytes@) == old(self).frames()[i as int].page_view()@
                &&& old(self).frames()[i as int].lsn() <= covers ==> final(log).last_saved_lsn() >= old(self).frames()[i as int].lsn()
            }),
    {
        let pending = self.pending.take().unwrap();
        let covers = match pending.stage {
            PinStage::AwaitingLogWrite(covers) => covers,
            _ => 0,
        };
        log.saved(covers);
        self.request_page_write(pending.frame, pending.block_id)
    }

    /// The dirty page asked for by a pin reached its block: the frame is clean,
    /// and the new block is to be read.
    pub fn page_written(&mut self) -> (r: PinRequest)
        requires
            old(self).wf(),
            old(self).pending() matches Some((_, _, PinStage::AwaitingPageWrite)),
        ensures
            final(self).wf(),
            final(self).block_size() == old(self).block_size(),
            final(self).available_count() == old(self).available_count(),
            ({
                let (i, b, stage) = old(self).pending()->Some_0;
                &&& final(self).pending() == Some((i, b, PinStage::AwaitingRead))
                &&& same_except(old(self).frames(), final(self).frames(), i as int)
                &&& final(self).frames()[i as int].modifier() is None
                &&& final(self).frames()[i as int].block() == old(self).frames()[i as int].block()
                &&& final(self).frames()[i as int].pin_count() == 0
                &&& final(self).frames()[i as int].page_view() == old(self).frames()[i as int].page_view()
                &&& r matches PinRequest::ReadBlock(block) && block@ == b
            }),
    {
        let pending = self.pending.take().unwrap();
        let ghost frames = self.buffer_pool@;
        let i = pending.frame;
        self.buffer_pool[i].written();
        proof {
            lemma_pinned_count_update(frames, i as int, self.buffer_pool@[i as int]);
            assert(self.buffer_pool@ =~= frames.update(i as int, self.buffer_pool@[i as int]));
        }
        let block_id = pending.block_id.duplicate();
        self.pending = Some(PendingPin { frame: i, block_id: pending.block_id, stage: PinStage::AwaitingRead });
        PinRequest::ReadBlock(block_id)
    }

    /// The block asked for by a pin was read and decoded: the frame now holds
    /// it with one pin. Returns the frame.
    pub fn block_read(&mut self, page: BufferPage) -> (r: usize)
        requires
            old(self).wf(),
            old(self).pending() matches Some((_, _, PinStage::AwaitingRead)),
            page.wf(),
            page.block_size() == old(self).block_size(),
        ensures
            final(self).wf(),
            final(self).block_size() == old(self).block_size(),
            final(self).pending() is None,
            r == old(self).pending()->Some_0.0,
            same_except(old(self).frames(), final(self).frames(), r as int),
            final(self).frames()[r as int].block() == Some(old(self).pending()->Some_0.1),
            final(self).frames()[r as int].page_view() == page,
            final(self).frames()[r as int].pin_count() == 1,
            final(self).frames()[r as int].modifier() is None,
            final(self).available_count() + 1 == old(self).available_count(),
    {
        let pending = self.pending.take().unwrap();
        let ghost frames = self.buffer_pool@;
        let i = pending.frame;
        proof {
            lemma_pinned_count_bound(frames);
            lemma_all_pinned(frames);
        }
        self.buffer_pool[i].assign_to_block(pending.block_id, page);
        self.buffer_pool[i].pin();
        self.available_buffers = self.available_buffers - 1;
        proof {
            lemma_pinned_count_update(frames, i as int, self.buffer_pool@[i as int]);
            assert(self.buffer_pool@ =~= frames.update(i as int, self.buffer_pool@[i as int]));
        }
        i
    }

    /// Gives up the pin in progress after an I/O failure: the frame keeps its
    /// old block, and stays dirty if its page was not written.
    pub fn abandon(&mut self)
        requires
            old(self).wf(),
        ensures
            final(self).wf(),
            final(self).pending() is None,
            final(self).frames() == old(self).frames(),
            final(self).available_count() == old(self).available_count(),
            final(self).block_size() == old(self).block_size(),
    {
        self.pending = None;
    }

    /// Drops a pin of the first frame holding `block_id`; that frame becomes
    /// available when its last pin goes. Nothing happens when no frame holds
    /// the block or that frame has no pin.
    pub fn unpin(&mut self, block_id: &BlockId)
        requires
            old(self).wf(),
        ensures
            final(self).wf(),
            final(self).pending() == old(self).pending(),
            final(self).block_size() == old(self).block_size(),
            !holds(old(self).frames(), block_id@) ==> final(self).frames() == old(self).frames()
                && final(self).available_count() == old(self).available_count(),
            holds(old(self).frames(), block_id@) ==> exists|i: int| {
                &&& 0 <= i < old(self).frames().len()
                &&& (#[trigger] old(self).frames()[i]).block() == Some(block_id@)
                &&& forall|j: int| 0 <= j < i ==> (#[trigger] old(self).frames()[j]).block() != Some(block_id@)
                &&& same_except(old(self).frames(), final(self).frames(), i)
                &&& final(self).frames()[i].pin_count() == if old(self).frames()[i].pin_count() > 0 {
                    old(self).frames()[i].pin_count() - 1
                } else {
                    0
                }
                &&& final(self).frames()[i].block() == old(self).frames()[i].block()
                &&& final(self).frames()[i].modifier() == old(self).frames()[i].modifier()
                &&& final(self).frames()[i].lsn() == old(self).frames()[i].lsn()
                &&& final(self).frames()[i].page_view() == old(self).frames()[i].page_view()
                &&& final(self).available_count() == if old(self).frames()[i].pin_count() == 1 {
                    old(self).available_count() + 1
                } else {
                    old(self).available_count()
                }
            },
    {
        let ghost frames = self.buffer_pool@;
        match self.find_block(block_id) {
            Some(i) => {
                let capacity = self.buffer_pool.len();
                let was_pinned = self.buffer_pool[i].is_pinned();
                self.buffer_pool[i].unpin();
                proof {
                    lemma_pinned_count_update(frames, i as int, self.buffer_pool@[i as int]);
                    assert(self.buffer_pool@ =~= frames.update(i as int, self.buffer_pool@[i as int]));
                }
                if was_pinned && !self.buffer_pool[i].is_pinned() {
                    assert(self.available_buffers + 1 <= capacity);
                    self.available_buffers = self.available_buffers + 1;
                }
                assert(frames[i as int].block() == Some(block_id@));
            },
            None => {},
        }
    }

    /// Notes on frame `index` that a transaction changed its page; see
    /// `Buffer::set_modified`.
    pub fn set_modified(&mut self, index: usize, transaction_number: usize, log_sequence_number: usize)
        requires
            old(self).wf(),
            index < old(self).frames().len(),
            old(self).frames()[index as int].block() is Some,
            old(self).pending() is None,
        ensures
            final(self).wf(),
            final(self).pending() is None,
            final(self).block_size() == old(self).block_size(),
            final(self).available_count() == old(self).available_count(),
            same_except(old(self).frames(), final(self).frames(), index as int),
            final(self).frames()[index as int].modifier() == Some(transaction_number),
            final(self).frames()[index as int].lsn() == log_sequence_number,
            final(self).frames()[index as int].block() == old(self).frames()[index as int].block(),
            final(self).frames()[index as int].pin_count() == old(self).frames()[index as int].pin_count(),
            final(self).frames()[index as int].page_view() == old(self).frames()[index as int].page_view(),
    {
        let ghost frames = self.buffer_pool@;
        self.buffer_pool[index].set_modified(transaction_number, log_sequence_number);
        proof {
            lemma_pinned_count_update(frames, index as int, self.buffer_pool@[index as int]);
            assert(self.buffer_pool@ =~= frames.update(index as int, self.buffer_pool@[index as int]));
        }
    }

    /// The page of frame `index`, to read or change in place. The pool stays
    /// well formed when the page does, as every change through `BufferPage`
    /// keeps it.
    pub fn page_mut(&mut self, index: usize) -> (r: &mut BufferPage)
        requires
            index < old(self).frames().len(),
        ensures
            *r == old(self).frames()[index as int].page_view(),
            final(self).frames().len() == old(self).frames().len(),
            forall|j: int| 0 <= j < old(self).frames().len() && j != index ==> #[trigger] final(self).frames()[j] == old(self).frames()[j],
            final(self).frames()[index as int].page_view() == *final(r),
            final(self).frames()[index as int].block() == old(self).frames()[index as int].block(),
            final(self).frames()[index as int].pin_count() == old(self).frames()[index as int].pin_count(),
            final(self).frames()[index as int].modifier() == old(self).frames()[index as int].modifier(),
            final(self).frames()[index as int].lsn() == old(self).frames()[index as int].lsn(),
            final(self).available_count() == old(self).available_count(),
            final(self).pending() == old(self).pending(),
            final(self).block_size() == old(self).block_size(),
            old(self).wf() && final(r).wf() && final(r).block_size() == old(self).block_size() ==> final(self).wf(),
    {
        let ghost frames = self.buffer_pool@;
        proof {
            assert forall|frame: Buffer| #[trigger] frame.pin_count() == frames[index as int].pin_count() implies pinned_count(
                frames.update(index as int, frame),
            ) == pinned_count(frames) by {
                lemma_pinned_count_update(frames, index as int, frame);
            }
        }
        self.buffer_pool[index].page_mut()
    }
}

/// Pin accounting: in every state the pool can reach, the available frames
/// are the capacity less the frames with a pin.
pub proof fn lemma_pin_accounting(pool: &BufferManager)
    requires
        pool.wf(),
    ensures
        pool.available_count() == pool.frames().len() - pinned_count(pool.frames()),
{
}

} // verus!
