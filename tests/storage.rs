use pagestore::block_id::BlockId;
use pagestore::buffer::Buffer;
use pagestore::buffer_manager::{BufferManager, BufferPinError, PinRequest};
use pagestore::data_page::BufferPage;
use pagestore::log_iterator::{BackwardLogIterator, LogRecordStep};
use pagestore::log_manager::{AppendStep, LogManager};
use std::collections::HashMap;
use std::io::{Error, ErrorKind};

const BLOCK_SIZE: usize = 4096;

/// Files of fixed-size blocks kept in memory.
struct Disk {
    block_size: usize,
    files: HashMap<String, Vec<Vec<u8>>>,
    writes: Vec<(BlockId, usize)>,
}

impl Disk {
    fn new(block_size: usize) -> Disk {
        Disk { block_size, files: HashMap::new(), writes: vec![] }
    }

    fn number_of_blocks(&self, file_name: &str) -> usize {
        self.files.get(file_name).map(|blocks| blocks.len()).unwrap_or(0)
    }

    fn read(&self, block_id: &BlockId) -> Vec<u8> {
        self.files
            .get(block_id.file_name())
            .and_then(|blocks| blocks.get(block_id.block_number))
            .cloned()
            .unwrap_or_else(|| vec![0; self.block_size])
    }

    fn write(&mut self, block_id: &BlockId, bytes: &[u8], last_saved: usize) {
        let block_size = self.block_size;
        let blocks = self.files.entry(block_id.file_name().to_string()).or_default();
        while blocks.len() <= block_id.block_number {
            blocks.push(vec![0; block_size]);
        }
        blocks[block_id.block_number] = bytes.to_vec();
        self.writes.push((block_id.clone(), last_saved));
    }

    fn append_empty_block(&mut self, file_name: &str) -> BlockId {
        let block_id = BlockId::new(file_name, self.number_of_blocks(file_name));
        let zeros = vec![0; self.block_size];
        self.write(&block_id, &zeros, 0);
        block_id
    }
}

fn open_log(disk: &mut Disk, file_name: &str) -> LogManager {
    match LogManager::block_to_open(file_name, disk.number_of_blocks(file_name)) {
        None => {
            let block_id = disk.append_empty_block(file_name);
            LogManager::new(file_name, disk.block_size, block_id, None).unwrap()
        }
        Some(block_id) => {
            let bytes = disk.read(&block_id);
            LogManager::new(file_name, disk.block_size, block_id, Some(bytes)).unwrap()
        }
    }
}

fn append(log: &mut LogManager, disk: &mut Disk, record: &[u8]) -> usize {
    match log.append(record) {
        AppendStep::Appended(lsn) => lsn,
        AppendStep::WriteAndExtend(write) => {
            disk.write(&write.block_id, &write.bytes, log.last_saved_log_sequence_number());
            let file_name = write.block_id.file_name().to_string();
            let block_id = disk.append_empty_block(&file_name);
            log.append_in_new_block(block_id, record)
        }
    }
}

fn force_flush(log: &mut LogManager, disk: &mut Disk) {
    if let Some(write) = log.force_flush() {
        disk.write(&write.block_id, &write.bytes, log.last_saved_log_sequence_number());
        log.saved(write.covers);
    }
}

fn backward_iterator(log: &mut LogManager, disk: &mut Disk) -> BackwardLogIterator {
    force_flush(log, disk);
    log.backward_iterator()
}

fn next_record(iterator: &mut BackwardLogIterator, disk: &Disk) -> Option<Vec<u8>> {
    loop {
        match iterator.next() {
            LogRecordStep::Record(record) => return Some(record),
            LogRecordStep::ReadBlock(block_id) => assert!(iterator.load_block(disk.read(&block_id))),
            LogRecordStep::Finished => return None,
        }
    }
}

fn pin(pool: &mut BufferManager, log: &mut LogManager, disk: &mut Disk, block_id: BlockId) -> Result<usize, BufferPinError> {
    let mut request = pool.pin(log, block_id)?;
    loop {
        match request {
            PinRequest::Pinned(frame) => return Ok(frame),
            PinRequest::WriteLog(write) => {
                disk.write(&write.block_id, &write.bytes, log.last_saved_log_sequence_number());
                request = pool.log_written(log);
            }
            PinRequest::WritePage(block_id, bytes) => {
                disk.write(&block_id, &bytes, log.last_saved_log_sequence_number());
                request = pool.page_written();
            }
            PinRequest::ReadBlock(block_id) => {
                let page = BufferPage::decode_from(disk.read(&block_id)).unwrap();
                return Ok(pool.block_read(page));
            }
        }
    }
}

fn flush_buffer(buffer: &mut Buffer, log: &mut LogManager, disk: &mut Disk) {
    if buffer.is_modified() {
        if let Some(write) = log.flush(buffer.log_sequence_number()) {
            disk.write(&write.block_id, &write.bytes, log.last_saved_log_sequence_number());
            log.saved(write.covers);
        }
        if let Some((block_id, bytes)) = buffer.page_to_write() {
            disk.write(&block_id, &bytes, log.last_saved_log_sequence_number());
            buffer.written();
        }
    }
}

fn written_page(disk: &Disk, block_id: &BlockId) -> BufferPage {
    BufferPage::decode_from(disk.read(block_id)).unwrap()
}

#[test]
fn append_a_record_in_log() {
    let mut disk = Disk::new(BLOCK_SIZE);
    let mut log_manager = open_log(&mut disk, "lsm.log");
    assert_eq!(1, append(&mut log_manager, &mut disk, b"RocksDB is an LSM-based storage engine"));
}

#[test]
fn append_a_record_in_log_and_iterate_over_it() {
    let mut disk = Disk::new(BLOCK_SIZE);
    let mut log_manager = open_log(&mut disk, "lsm.log");
    append(&mut log_manager, &mut disk, b"RocksDB is an LSM-based storage engine");
    let mut iterator = backward_iterator(&mut log_manager, &mut disk);
    assert_eq!(b"RocksDB is an LSM-based storage engine".to_vec(), next_record(&mut iterator, &disk).unwrap());
    assert_eq!(None, next_record(&mut iterator, &disk));
}

#[test]
fn append_a_few_records_in_log_and_iterate_over_it() {
    let mut disk = Disk::new(BLOCK_SIZE);
    let mut log_manager = open_log(&mut disk, "lsm.log");
    append(&mut log_manager, &mut disk, b"RocksDB is an LSM-based storage engine");
    append(&mut log_manager, &mut disk, b"PebbleDB is an LSM-based storage engine");
    append(&mut log_manager, &mut disk, b"BoltDB is a B+Tree storage engine");
    let mut iterator = backward_iterator(&mut log_manager, &mut disk);
    assert_eq!(b"BoltDB is a B+Tree storage engine".to_vec(), next_record(&mut iterator, &disk).unwrap());
    assert_eq!(b"PebbleDB is an LSM-based storage engine".to_vec(), next_record(&mut iterator, &disk).unwrap());
    assert_eq!(b"RocksDB is an LSM-based storage engine".to_vec(), next_record(&mut iterator, &disk).unwrap());
    assert_eq!(None, next_record(&mut iterator, &disk));
}

#[test]
fn append_a_few_records_in_log_with_smaller_block_size_and_iterate_over_it() {
    let mut disk = Disk::new(200);
    let mut log_manager = open_log(&mut disk, "lsm.log");
    append(&mut log_manager, &mut disk, b"RocksDB is an LSM-based storage engine");
    append(&mut log_manager, &mut disk, b"PebbleDB is an LSM-based storage engine");
    append(&mut log_manager, &mut disk, b"BoltDB is a B+Tree storage engine");
    let mut iterator = backward_iterator(&mut log_manager, &mut disk);
    assert_eq!(b"BoltDB is a B+Tree storage engine".to_vec(), next_record(&mut iterator, &disk).unwrap());
    assert_eq!(b"PebbleDB is an LSM-based storage engine".to_vec(), next_record(&mut iterator, &disk).unwrap());
    assert_eq!(b"RocksDB is an LSM-based storage engine".to_vec(), next_record(&mut iterator, &disk).unwrap());
    assert_eq!(None, next_record(&mut iterator, &disk));
}

#[test]
fn append_a_few_records_in_log_and_recreate_log_manager_to_simulate_restart() {
    let mut disk = Disk::new(BLOCK_SIZE);
    let mut log_manager = open_log(&mut disk, "lsm.log");
    append(&mut log_manager, &mut disk, b"RocksDB is an LSM-based storage engine");
    append(&mut log_manager, &mut disk, b"PebbleDB is an LSM-based storage engine");
    force_flush(&mut log_manager, &mut disk);
    drop(log_manager);

    let mut reloaded_log_manager = open_log(&mut disk, "lsm.log");
    append(&mut reloaded_log_manager, &mut disk, b"BoltDB is a B+Tree storage engine");
    let mut iterator = backward_iterator(&mut reloaded_log_manager, &mut disk);
    assert_eq!(b"BoltDB is a B+Tree storage engine".to_vec(), next_record(&mut iterator, &disk).unwrap());
    assert_eq!(b"PebbleDB is an LSM-based storage engine".to_vec(), next_record(&mut iterator, &disk).unwrap());
    assert_eq!(b"RocksDB is an LSM-based storage engine".to_vec(), next_record(&mut iterator, &disk).unwrap());
    assert_eq!(None, next_record(&mut iterator, &disk));
}

#[test]
fn log_spanning_many_small_blocks_reads_back_newest_first() {
    let mut disk = Disk::new(64);
    let mut log_manager = open_log(&mut disk, "small.log");
    for record_id in 1..=40 {
        let lsn = append(&mut log_manager, &mut disk, format!("Record {}", record_id).as_bytes());
        assert_eq!(record_id, lsn);
    }
    assert!(disk.number_of_blocks("small.log") > 5);
    let mut iterator = backward_iterator(&mut log_manager, &mut disk);
    for record_id in (1..=40).rev() {
        assert_eq!(format!("Record {}", record_id).into_bytes(), next_record(&mut iterator, &disk).unwrap());
    }
    assert_eq!(None, next_record(&mut iterator, &disk));
}

#[test]
fn restart_across_several_blocks_keeps_every_record() {
    let mut disk = Disk::new(48);
    let mut log_manager = open_log(&mut disk, "restart.log");
    for record_id in 1..=10 {
        append(&mut log_manager, &mut disk, format!("r{}", record_id).as_bytes());
    }
    force_flush(&mut log_manager, &mut disk);
    drop(log_manager);
    let mut reopened = open_log(&mut disk, "restart.log");
    assert_eq!(0, reopened.latest_log_sequence_number());
    for record_id in 11..=15 {
        append(&mut reopened, &mut disk, format!("r{}", record_id).as_bytes());
    }
    let mut iterator = backward_iterator(&mut reopened, &mut disk);
    for record_id in (1..=15).rev() {
        assert_eq!(format!("r{}", record_id).into_bytes(), next_record(&mut iterator, &disk).unwrap());
    }
    assert_eq!(None, next_record(&mut iterator, &disk));
}

#[test]
fn empty_log_iterates_nothing() {
    let mut disk = Disk::new(BLOCK_SIZE);
    let mut log_manager = open_log(&mut disk, "empty.log");
    let mut iterator = backward_iterator(&mut log_manager, &mut disk);
    assert_eq!(None, next_record(&mut iterator, &disk));
}

#[test]
fn flush_below_the_last_saved_number_writes_nothing() {
    let mut disk = Disk::new(BLOCK_SIZE);
    let mut log_manager = open_log(&mut disk, "lsm.log");
    append(&mut log_manager, &mut disk, b"one");
    append(&mut log_manager, &mut disk, b"two");
    force_flush(&mut log_manager, &mut disk);
    assert_eq!(2, log_manager.last_saved_log_sequence_number());
    assert!(log_manager.flush(1).is_none());
    let write = log_manager.flush(2).unwrap();
    assert_eq!(2, write.covers);
    assert_eq!(BlockId::new("lsm.log", 0), write.block_id);
}

#[test]
fn buffer_is_not_pinned() {
    let buffer = Buffer::new(BLOCK_SIZE);
    assert_eq!(false, buffer.is_pinned());
}

#[test]
fn assign_block_to_buffer() {
    let mut disk = Disk::new(BLOCK_SIZE);
    let mut page = BufferPage::new(BLOCK_SIZE);
    page.add_u16(250);
    page.add_string("BoltDB is a B+Tree based storage engine");
    disk.write(&BlockId::new("buffer", 0), page.encode(), 0);

    let mut buffer = Buffer::new(BLOCK_SIZE);
    buffer.assign_to_block(BlockId::new("buffer", 0), written_page(&disk, &BlockId::new("buffer", 0)));
    let buffer_page = buffer.page();
    assert_eq!(250, buffer_page.get_u16(0).unwrap());
    assert_eq!(Some("BoltDB is a B+Tree based storage engine"), buffer_page.get_string(1));
}

#[test]
fn pin_a_buffer() {
    let mut disk = Disk::new(BLOCK_SIZE);
    let mut page = BufferPage::new(BLOCK_SIZE);
    page.add_u16(250);
    page.add_string("BoltDB is a B+Tree based storage engine");
    disk.write(&BlockId::new("buffer", 0), page.encode(), 0);

    let mut buffer = Buffer::new(BLOCK_SIZE);
    buffer.assign_to_block(BlockId::new("buffer", 0), written_page(&disk, &BlockId::new("buffer", 0)));
    buffer.pin();
    assert!(buffer.is_pinned());
    assert_eq!(1, buffer.pins());
}

#[test]
fn unpin_a_buffer() {
    let mut disk = Disk::new(BLOCK_SIZE);
    let mut page = BufferPage::new(BLOCK_SIZE);
    page.add_u16(250);
    page.add_string("BoltDB is a B+Tree based storage engine");
    disk.write(&BlockId::new("buffer", 0), page.encode(), 0);

    let mut buffer = Buffer::new(BLOCK_SIZE);
    buffer.assign_to_block(BlockId::new("buffer", 0), written_page(&disk, &BlockId::new("buffer", 0)));
    buffer.pin();
    buffer.unpin();
    assert_eq!(false, buffer.is_pinned());
    assert_eq!(0, buffer.pins());
}

#[test]
fn flush_a_buffer() {
    let mut disk = Disk::new(BLOCK_SIZE);
    let mut log_manager = open_log(&mut disk, "buffer.log");
    disk.append_empty_block("buffer");

    let mut buffer = Buffer::new(BLOCK_SIZE);
    buffer.assign_to_block(BlockId::new("buffer", 0), written_page(&disk, &BlockId::new("buffer", 0)));
    let page = buffer.page_mut();
    page.add_u16(250);
    page.add_string("BoltDB is a B+Tree based storage engine");

    let any_transaction_number = 10;
    let any_log_sequence_number = 100;
    buffer.set_modified(any_transaction_number, any_log_sequence_number);
    flush_buffer(&mut buffer, &mut log_manager, &mut disk);
    assert!(!buffer.is_modified());

    buffer.assign_to_block(BlockId::new("buffer", 0), written_page(&disk, &BlockId::new("buffer", 0)));
    let reassigned_buffer_page = buffer.page();
    assert_eq!(250, reassigned_buffer_page.get_u16(0).unwrap());
    assert_eq!(Some("BoltDB is a B+Tree based storage engine"), reassigned_buffer_page.get_string(1));
}

#[test]
fn fail_to_pin_a_buffer() {
    let mut disk = Disk::new(BLOCK_SIZE);
    let mut log_manager = open_log(&mut disk, "buffer.log");
    let mut buffer_manager = BufferManager::new(1, BLOCK_SIZE);
    pin(&mut buffer_manager, &mut log_manager, &mut disk, BlockId::new("buffer", 1)).unwrap();

    assert!(pin(&mut buffer_manager, &mut log_manager, &mut disk, BlockId::new("buffer", 0))
        .err()
        .unwrap()
        .is_unavailable_error());
}

#[test]
fn available_buffers() {
    let buffer_manager = BufferManager::new(1, BLOCK_SIZE);
    assert_eq!(1, buffer_manager.available_buffers());
}

#[test]
fn pin_an_unpinned_buffer() {
    let mut disk = Disk::new(BLOCK_SIZE);
    let mut log_manager = open_log(&mut disk, "buffer.log");
    let mut buffer_manager = BufferManager::new(1, BLOCK_SIZE);
    let frame = pin(&mut buffer_manager, &mut log_manager, &mut disk, BlockId::new("buffer", 0)).unwrap();
    assert!(buffer_manager.buffer(frame).is_pinned());
    assert_eq!(0, buffer_manager.available_buffers());
}

#[test]
fn pin_a_buffer_which_already_contains_the_given_block_id() {
    let mut disk = Disk::new(BLOCK_SIZE);
    let mut log_manager = open_log(&mut disk, "buffer.log");
    let mut buffer_manager = BufferManager::new(1, BLOCK_SIZE);
    let _ = pin(&mut buffer_manager, &mut log_manager, &mut disk, BlockId::new("buffer", 0)).unwrap();
    buffer_manager.unpin(&BlockId::new("buffer", 0));
    let _ = pin(&mut buffer_manager, &mut log_manager, &mut disk, BlockId::new("buffer", 0)).unwrap();
    assert_eq!(0, buffer_manager.available_buffers());
}

#[test]
fn pin_a_buffer_and_write_to_the_page() {
    let mut disk = Disk::new(BLOCK_SIZE);
    let mut log_manager = open_log(&mut disk, "buffer.log");
    let mut buffer_manager = BufferManager::new(1, BLOCK_SIZE);
    let frame = pin(&mut buffer_manager, &mut log_manager, &mut disk, BlockId::new("buffer", 0)).unwrap();

    let page = buffer_manager.page_mut(frame);
    page.add_string("RocksDB is an LSM based storage engine");
    page.add_u16(250);
    buffer_manager.set_modified(frame, 10, 100);
    {
        buffer_manager.unpin(&BlockId::new("buffer", 0));
        let _ = pin(&mut buffer_manager, &mut log_manager, &mut disk, BlockId::new("buffer", 1)).unwrap();
        buffer_manager.unpin(&BlockId::new("buffer", 1));
    }

    let pinned = pin(&mut buffer_manager, &mut log_manager, &mut disk, BlockId::new("buffer", 0)).unwrap();
    let reassigned_buffer_page = buffer_manager.buffer(pinned).page();
    assert_eq!(Some("RocksDB is an LSM based storage engine"), reassigned_buffer_page.get_string(0));
    assert_eq!(250, reassigned_buffer_page.get_u16(1).unwrap());
}

#[test]
fn error_is_buffer_unavailable() {
    assert!(BufferPinError::Unavailable.is_unavailable_error());
}

#[test]
fn error_is_an_io_error() {
    assert!(!BufferPinError::IO(Error::new(ErrorKind::NotFound, "test error")).is_unavailable_error());
}

#[test]
fn buffer_pin_error_from_io_error() {
    let io_error = Error::new(ErrorKind::NotFound, "test error");
    let buffer_pin_error = BufferPinError::from(io_error);
    match buffer_pin_error {
        BufferPinError::IO(err) => assert_eq!(ErrorKind::NotFound, err.kind()),
        BufferPinError::Unavailable => panic!("unexpected error"),
    }
}

#[test]
fn log_reaches_disk_before_the_dirty_page_it_covers() {
    let mut disk = Disk::new(BLOCK_SIZE);
    let mut log_manager = open_log(&mut disk, "wal.log");
    let mut buffer_manager = BufferManager::new(1, BLOCK_SIZE);
    let frame = pin(&mut buffer_manager, &mut log_manager, &mut disk, BlockId::new("data", 0)).unwrap();
    let lsn = append(&mut log_manager, &mut disk, b"set field 0 to 42");
    buffer_manager.page_mut(frame).add_u32(42);
    buffer_manager.set_modified(frame, 10, lsn);
    buffer_manager.unpin(&BlockId::new("data", 0));
    disk.writes.clear();

    let _ = pin(&mut buffer_manager, &mut log_manager, &mut disk, BlockId::new("data", 1)).unwrap();
    assert_eq!(2, disk.writes.len());
    assert_eq!(BlockId::new("wal.log", 0), disk.writes[0].0);
    assert_eq!(BlockId::new("data", 0), disk.writes[1].0);
    assert!(disk.writes[1].1 >= lsn);
    assert_eq!(lsn, log_manager.last_saved_log_sequence_number());

    buffer_manager.unpin(&BlockId::new("data", 1));
    let again = pin(&mut buffer_manager, &mut log_manager, &mut disk, BlockId::new("data", 0)).unwrap();
    assert_eq!(Some(42), buffer_manager.buffer(again).page().get_u32(0));
}

#[test]
fn eviction_with_an_unlogged_sequence_number_still_flushes_the_log_first() {
    let mut disk = Disk::new(BLOCK_SIZE);
    let mut log_manager = open_log(&mut disk, "wal.log");
    let mut buffer_manager = BufferManager::new(1, BLOCK_SIZE);
    let frame = pin(&mut buffer_manager, &mut log_manager, &mut disk, BlockId::new("data", 0)).unwrap();
    buffer_manager.page_mut(frame).add_u8(1);
    buffer_manager.set_modified(frame, 10, 100);
    buffer_manager.unpin(&BlockId::new("data", 0));
    let _ = pin(&mut buffer_manager, &mut log_manager, &mut disk, BlockId::new("data", 1)).unwrap();
    // nothing was appended, so the flush had nothing to write
    assert_eq!(0, log_manager.last_saved_log_sequence_number());
    assert_eq!(Some(1), written_page(&disk, &BlockId::new("data", 0)).get_u8(0));
}

#[test]
fn pinning_a_new_block_when_every_frame_is_pinned_changes_nothing() {
    let mut disk = Disk::new(BLOCK_SIZE);
    let mut log_manager = open_log(&mut disk, "buffer.log");
    let mut buffer_manager = BufferManager::new(1, BLOCK_SIZE);
    let frame = pin(&mut buffer_manager, &mut log_manager, &mut disk, BlockId::new("buffer", 0)).unwrap();
    let result = buffer_manager.pin(&mut log_manager, BlockId::new("buffer", 1));
    assert!(matches!(result, Err(BufferPinError::Unavailable)));
    assert_eq!(0, buffer_manager.available_buffers());
    assert!(buffer_manager.buffer(frame).has_block_id(&BlockId::new("buffer", 0)));
    assert_eq!(1, buffer_manager.buffer(frame).pins());
    // the resident block can still be pinned again
    let again = pin(&mut buffer_manager, &mut log_manager, &mut disk, BlockId::new("buffer", 0)).unwrap();
    assert_eq!(frame, again);
    assert_eq!(2, buffer_manager.buffer(frame).pins());
}

#[test]
fn available_counts_frames_without_pins() {
    let mut disk = Disk::new(BLOCK_SIZE);
    let mut log_manager = open_log(&mut disk, "buffer.log");
    let mut buffer_manager = BufferManager::new(3, BLOCK_SIZE);
    let a = pin(&mut buffer_manager, &mut log_manager, &mut disk, BlockId::new("t", 0)).unwrap();
    let b = pin(&mut buffer_manager, &mut log_manager, &mut disk, BlockId::new("t", 1)).unwrap();
    assert_ne!(a, b);
    pin(&mut buffer_manager, &mut log_manager, &mut disk, BlockId::new("t", 0)).unwrap();
    assert_eq!(1, buffer_manager.available_buffers());
    buffer_manager.unpin(&BlockId::new("t", 0));
    assert_eq!(1, buffer_manager.available_buffers());
    buffer_manager.unpin(&BlockId::new("t", 0));
    assert_eq!(2, buffer_manager.available_buffers());
    buffer_manager.unpin(&BlockId::new("t", 0));
    assert_eq!(2, buffer_manager.available_buffers());
    buffer_manager.unpin(&BlockId::new("t", 7));
    assert_eq!(2, buffer_manager.available_buffers());
    assert_eq!(3, buffer_manager.capacity());
}

#[test]
fn log_opens_on_the_last_block_of_its_file() {
    assert!(LogManager::block_to_open("x.log", 0).is_none());
    assert_eq!(Some(BlockId::new("x.log", 2)), LogManager::block_to_open("x.log", 3));
}

#[test]
fn log_block_that_is_not_a_log_page_is_refused() {
    assert!(LogManager::new("x.log", 16, BlockId::new("x.log", 0), Some(vec![255; 16])).is_none());
    assert!(LogManager::new("x.log", 16, BlockId::new("x.log", 0), Some(vec![0; 8])).is_none());
    assert!(LogManager::new("x.log", 16, BlockId::new("x.log", 0), Some(vec![0; 16])).is_some());
}

#[test]
fn test_buffer_pin_error_of_type_io_error() {
    let io_error = std::io::Error::new(ErrorKind::Other, "disk failure");
    let error = BufferPinError::IO(io_error);
    let formatted = error.to_string();
    assert_eq!(formatted, "Buffer I/O error: disk failure");
}

#[test]
fn test_buffer_pin_error_of_type_io_unavailable_error() {
    let error = BufferPinError::Unavailable;
    let formatted = error.to_string();
    assert_eq!(formatted, "Buffer is unavailable");
}
