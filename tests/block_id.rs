use pagestore::block_id::BlockId;

#[test]
fn starting_offset_with_block_zero() {
    let block_id = BlockId::new("lsm.log", 0);
    let block_size = 400;
    let offset = block_id.starting_offset(block_size);
    assert_eq!(0, offset);
}

#[test]
fn starting_offset_with_non_zero_block() {
    let block_id = BlockId::new("lsm.log", 3);
    let block_size = 400;
    let offset = block_id.starting_offset(block_size);
    assert_eq!(1200, offset);
}

#[test]
fn previous_block_id() {
    let block_id = BlockId::new("lsm.log", 1);
    let previous_block_id = block_id.previous();
    assert_eq!(BlockId::new("lsm.log", 0), previous_block_id.unwrap());
}

#[test]
fn previous_block_id_of_block_zero() {
    let block_id = BlockId::new("lsm.log", 0);
    let previous_block_id = block_id.previous();
    assert_eq!(None, previous_block_id);
}

#[test]
fn block_ids_differ_by_file_or_number() {
    assert_ne!(BlockId::new("a", 1), BlockId::new("b", 1));
    assert_ne!(BlockId::new("a", 1), BlockId::new("a", 2));
    assert_eq!("a", BlockId::new("a", 2).file_name());
    assert_eq!(BlockId::new("a", 2), BlockId::new("a", 2).duplicate());
}
