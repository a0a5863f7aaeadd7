use pagestore::data_page::BufferPage;
use pagestore::field_types::FieldType;

const BLOCK_SIZE: usize = 4096;

#[test]
fn add_a_single_field_and_get_the_value() {
    let mut page = BufferPage::new(BLOCK_SIZE);
    page.add_u8(250);
    assert_eq!(Some(250), page.get_u8(0));
}

#[test]
fn add_a_couple_of_fields_and_get_the_values() {
    let mut page = BufferPage::new(BLOCK_SIZE);
    page.add_u8(250);
    page.add_u16(500);
    assert_eq!(Some(250), page.get_u8(0));
    assert_eq!(Some(500), page.get_u16(1));
}

#[test]
fn add_a_few_fields_and_get_the_values() {
    let mut page = BufferPage::new(BLOCK_SIZE);
    page.add_u8(250);
    page.add_string("PebbleDB is an LSM-based storage engine");
    page.add_bytes(b"RocksDB is an LSM-based storage engine".to_vec());
    assert_eq!(Some(250), page.get_u8(0));
    assert_eq!(Some("PebbleDB is an LSM-based storage engine"), page.get_string(1));
    assert_eq!(Some("RocksDB is an LSM-based storage engine".as_bytes()), page.get_bytes(2));
}

#[test]
fn decode_a_page_with_single_field() {
    let mut page = BufferPage::new(BLOCK_SIZE);
    page.add_u8(250);
    let encoded = page.encode();
    let decoded = BufferPage::decode_from(encoded.to_vec()).unwrap();
    assert_eq!(Some(250), decoded.get_u8(0));
}

#[test]
fn decode_a_page_with_few_fields() {
    let mut page = BufferPage::new(BLOCK_SIZE);
    page.add_u8(250);
    page.add_string("PebbleDB is an LSM-based storage engine");
    page.add_bytes(b"RocksDB is an LSM-based storage engine".to_vec());
    page.add_u16(500);
    let encoded = page.encode();
    let decoded = BufferPage::decode_from(encoded.to_vec()).unwrap();
    assert_eq!(Some(250), decoded.get_u8(0));
    assert_eq!(Some("PebbleDB is an LSM-based storage engine"), decoded.get_string(1));
    assert_eq!(Some("RocksDB is an LSM-based storage engine".as_bytes()), decoded.get_bytes(2));
    assert_eq!(Some(500), decoded.get_u16(3));
}

#[test]
fn mutate_an_u8() {
    let mut page = BufferPage::new(BLOCK_SIZE);
    page.add_u8(50);
    page.mutate_u8(252, 0);
    assert_eq!(Some(252), page.get_u8(0));
}

#[test]
fn mutate_an_u16() {
    let mut page = BufferPage::new(BLOCK_SIZE);
    page.add_u16(50);
    page.mutate_u16(252, 0);
    assert_eq!(Some(252), page.get_u16(0));
}

#[test]
fn mutate_bytes() {
    let mut page = BufferPage::new(BLOCK_SIZE);
    page.add_bytes(b"Bolt-DB".to_vec());
    page.mutate_bytes(b"RocksDB".to_vec(), 0);
    assert_eq!(Some("RocksDB".as_bytes()), page.get_bytes(0));
}

#[test]
fn mutate_string() {
    let mut page = BufferPage::new(BLOCK_SIZE);
    page.add_string("Bolt-DB");
    page.mutate_string("RocksDB", 0);
    assert_eq!(Some("RocksDB"), page.get_string(0));
}

#[test]
fn add_fields_and_then_mutate_those_fields_in_the_decoded_page() {
    let mut page = BufferPage::new(BLOCK_SIZE);
    page.add_string("PebbleDB is an LSM-based key/value storage engine");
    page.add_u8(80);
    page.add_u16(160);
    let encoded = page.encode();
    let mut decoded = BufferPage::decode_from(encoded.to_vec()).unwrap();
    decoded.mutate_string("Rocks-DB is an LSM-based key/value storage engine", 0);
    decoded.mutate_u8(160, 1);
    decoded.mutate_u16(320, 2);
    assert_eq!(Some("Rocks-DB is an LSM-based key/value storage engine"), decoded.get_string(0));
    assert_eq!(Some(160), decoded.get_u8(1));
    assert_eq!(Some(320), decoded.get_u16(2));
}

#[test]
fn add_fields_in_the_decoded_page() {
    let mut page = BufferPage::new(BLOCK_SIZE);
    page.add_string("PebbleDB is an LSM-based key/value storage engine");
    page.add_u8(80);
    page.add_u16(160);
    let encoded = page.encode();
    let mut decoded = BufferPage::decode_from(encoded.to_vec()).unwrap();
    decoded.add_string("BoltDB");
    assert_eq!(Some("PebbleDB is an LSM-based key/value storage engine"), decoded.get_string(0));
    assert_eq!(Some(80), decoded.get_u8(1));
    assert_eq!(Some(160), decoded.get_u16(2));
    assert_eq!(Some("BoltDB"), decoded.get_string(3));
}

#[test]
fn encode_and_decode_a_page() {
    let mut page = BufferPage::new(512);
    page.add_u16(200);
    page.add_u16(400);
    let encoded = page.encode().to_vec();
    let decoded = BufferPage::decode_from(encoded).unwrap();
    assert_eq!(2, decoded.length());
    assert_eq!(Some(FieldType::TypeU16), decoded.type_at(0));
    assert_eq!(Some(FieldType::TypeU16), decoded.type_at(1));
}

#[test]
fn directory_is_written_at_the_tail() {
    let mut page = BufferPage::new(32);
    page.add_u8(7);
    page.add_u16(0x0102);
    let encoded = page.encode().to_vec();
    assert_eq!(vec![7, 2, 1], encoded[..3].to_vec());
    // offsets 0 and 1, then tags u8 and u16, then the count 2
    assert_eq!(vec![0, 0, 0, 0, 1, 0, 0, 0, 0, 1, 2, 0], encoded[20..].to_vec());
}

#[test]
fn zeroed_block_decodes_as_an_empty_page() {
    let decoded = BufferPage::decode_from(vec![0; 64]).unwrap();
    assert_eq!(0, decoded.length());
    assert_eq!(None, decoded.get_u8(0));
}

#[test]
fn get_past_the_last_field_is_none() {
    let mut page = BufferPage::new(64);
    page.add_u32(70000);
    assert_eq!(Some(70000), page.get_u32(0));
    assert_eq!(None, page.get_u32(1));
    assert_eq!(None, page.get_string(5));
    assert_eq!(None, page.get_bytes(1));
}

#[test]
fn inconsistent_directory_does_not_decode() {
    // count 1, offset 60, type u32: the field would run past the block
    let mut block = vec![0u8; 64];
    block[57] = 60;
    block[61] = 2;
    block[62] = 1;
    assert!(BufferPage::decode_from(block).is_none());
    // count larger than the block can hold
    assert!(BufferPage::decode_from(vec![255u8; 16]).is_none());
    // too short to hold a count
    assert!(BufferPage::decode_from(vec![0u8; 1]).is_none());
}

#[test]
fn invalid_text_does_not_decode() {
    let mut page = BufferPage::new(32);
    page.add_string("ab");
    let mut encoded = page.encode().to_vec();
    encoded[2] = 0xFF;
    assert!(BufferPage::decode_from(encoded).is_none());
}

#[test]
fn every_field_type_round_trips_through_a_block() {
    let mut page = BufferPage::new(BLOCK_SIZE);
    page.add_u32(4_000_000_000);
    page.add_bytes(vec![]);
    page.add_string("");
    page.add_u8(0);
    page.add_u16(65535);
    let decoded = BufferPage::decode_from(page.encode().to_vec()).unwrap();
    assert_eq!(Some(4_000_000_000), decoded.get_u32(0));
    assert_eq!(Some(&[][..]), decoded.get_bytes(1));
    assert_eq!(Some(""), decoded.get_string(2));
    assert_eq!(Some(0), decoded.get_u8(3));
    assert_eq!(Some(65535), decoded.get_u16(4));
    assert_eq!(5, decoded.length());
}

#[test]
fn mutation_leaves_the_other_fields_alone() {
    let mut page = BufferPage::new(128);
    page.add_bytes(b"abc".to_vec());
    page.add_u32(9);
    page.add_bytes(b"xyz".to_vec());
    page.mutate_u32(10, 1);
    page.mutate_bytes(b"XYZ".to_vec(), 2);
    assert_eq!(Some(&b"abc"[..]), page.get_bytes(0));
    assert_eq!(Some(10), page.get_u32(1));
    assert_eq!(Some(&b"XYZ"[..]), page.get_bytes(2));
    assert_eq!(Some(FieldType::TypeBytes), page.type_at(2));
}

#[test]
fn typed_fields_survive_encoding_and_decoding() {
    let mut page = BufferPage::new(BLOCK_SIZE);
    page.add_u8(250);
    page.add_string("PebbleDB is an LSM-based storage engine");
    page.add_bytes(b"RocksDB is an LSM-based storage engine".to_vec());
    let decoded = BufferPage::decode_from(page.encode().to_vec()).unwrap();
    assert_eq!(Some(250), decoded.get_u8(0));
    assert_eq!(Some("PebbleDB is an LSM-based storage engine"), decoded.get_string(1));
    assert_eq!(Some(&b"RocksDB is an LSM-based storage engine"[..]), decoded.get_bytes(2));
    assert_eq!(3, decoded.length());
}
