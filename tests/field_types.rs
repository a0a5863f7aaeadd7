use byteorder::ByteOrder;
use pagestore::codec::{BytesEncoderDecoder, StrEncoderDecoder};
use pagestore::field_types::{FieldType, Fields};

#[test]
fn encode_and_decode_types_with_a_single_field() {
    let mut types = Fields::new();
    types.add(FieldType::TypeU8);
    let encoded = types.encode();
    let decoded = Fields::decode_from(&encoded).unwrap();
    assert_eq!(&FieldType::TypeU8, decoded.type_at(0).unwrap());
}

#[test]
fn encode_and_decode_types_with_a_couple_of_fields() {
    let mut types = Fields::new();
    types.add(FieldType::TypeU8);
    types.add(FieldType::TypeBytes);
    let encoded = types.encode();
    let decoded = Fields::decode_from(&encoded).unwrap();
    assert_eq!(&FieldType::TypeU8, decoded.type_at(0).unwrap());
    assert_eq!(&FieldType::TypeBytes, decoded.type_at(1).unwrap());
}

#[test]
fn encode_and_decode_types_with_a_few_fields() {
    let mut types = Fields::new();
    types.add(FieldType::TypeU8);
    types.add(FieldType::TypeBytes);
    types.add(FieldType::TypeString);
    types.add(FieldType::TypeU16);
    types.add(FieldType::TypeU32);
    let encoded = types.encode();
    let decoded = Fields::decode_from(&encoded).unwrap();
    assert_eq!(&FieldType::TypeU8, decoded.type_at(0).unwrap());
    assert_eq!(&FieldType::TypeBytes, decoded.type_at(1).unwrap());
    assert_eq!(&FieldType::TypeString, decoded.type_at(2).unwrap());
    assert_eq!(&FieldType::TypeU16, decoded.type_at(3).unwrap());
    assert_eq!(&FieldType::TypeU32, decoded.type_at(4).unwrap());
}

#[test]
fn field_types_get_type_at_an_index() {
    let mut types = Fields::new();
    types.add(FieldType::TypeU8);
    assert_eq!(&FieldType::TypeU8, types.type_at(0).unwrap());
}

#[test]
fn field_types_length_of_types() {
    let mut types = Fields::new();
    types.add(FieldType::TypeU8);
    assert_eq!(1, types.length());
}

#[test]
fn field_types_end_offset_post_decode_for_u8() {
    let mut buffer = vec![0; 100];
    buffer[0] = 250;
    assert_eq!(11, FieldType::TypeU8.end_offset_post_decode(&buffer, 10));
}

#[test]
fn field_types_end_offset_post_decode_for_u16() {
    let mut buffer = vec![0; 100];
    byteorder::LittleEndian::write_u16(&mut buffer[0..2], 250);
    assert_eq!(12, FieldType::TypeU16.end_offset_post_decode(&buffer, 10));
}

#[test]
fn end_offset_post_decode_for_u32() {
    let mut buffer = vec![0; 100];
    byteorder::LittleEndian::write_u32(&mut buffer[0..4], 250);
    assert_eq!(14, FieldType::TypeU32.end_offset_post_decode(&buffer, 10));
}

#[test]
fn field_types_end_offset_post_decode_for_bytes() {
    let mut buffer = vec![0; 100];
    let _ = BytesEncoderDecoder.encode(b"Rocksdb", &mut buffer, 10);
    assert!(FieldType::TypeBytes.end_offset_post_decode(&buffer, 10) > 16);
}

#[test]
fn field_types_end_offset_post_decode_for_string() {
    let mut buffer = vec![0; 100];
    let _ = StrEncoderDecoder.encode(&String::from("Rocksdb"), &mut buffer, 10);
    assert!(FieldType::TypeString.end_offset_post_decode(&buffer, 10) > 16);
}

#[test]
fn end_offset_of_a_byte_string_is_exact() {
    let mut buffer = vec![0; 100];
    let _ = BytesEncoderDecoder.encode(b"Rocksdb", &mut buffer, 10);
    assert_eq!(19, FieldType::TypeBytes.end_offset_post_decode(&buffer, 10));
}

#[test]
fn tags_match_the_field_types() {
    assert_eq!(0, FieldType::TypeU8.tag());
    assert_eq!(1, FieldType::TypeU16.tag());
    assert_eq!(2, FieldType::TypeU32.tag());
    assert_eq!(3, FieldType::TypeBytes.tag());
    assert_eq!(4, FieldType::TypeString.tag());
    assert_eq!(Some(FieldType::TypeBytes), FieldType::from_tag(3));
    assert_eq!(None, FieldType::from_tag(5));
}

#[test]
fn unknown_tag_does_not_decode() {
    assert!(Fields::decode_from(&[0, 1, 7]).is_none());
    let encoded = {
        let mut types = Fields::new();
        types.add(FieldType::TypeString);
        types.add(FieldType::TypeU32);
        types.encode()
    };
    assert_eq!(vec![4, 2], encoded);
}

#[test]
fn encode_and_decode_types_with_a_single_supported_type() {
    let mut types = Fields::new();
    types.add(FieldType::TypeU8);
    let encoded = types.encode();
    let decoded = Fields::decode_from(&encoded).unwrap();
    assert_eq!(&FieldType::TypeU8, decoded.type_at(0).unwrap());
}

#[test]
fn encode_and_decode_types_with_a_couple_of_supported_types() {
    let mut types = Fields::new();
    types.add(FieldType::TypeU8);
    types.add(FieldType::TypeBytes);
    let encoded = types.encode();
    let decoded = Fields::decode_from(&encoded).unwrap();
    assert_eq!(&FieldType::TypeU8, decoded.type_at(0).unwrap());
    assert_eq!(&FieldType::TypeBytes, decoded.type_at(1).unwrap());
}

#[test]
fn encode_and_decode_types_with_a_few_supported_types() {
    let mut types = Fields::new();
    types.add(FieldType::TypeU8);
    types.add(FieldType::TypeBytes);
    types.add(FieldType::TypeString);
    types.add(FieldType::TypeU16);
    let encoded = types.encode();
    let decoded = Fields::decode_from(&encoded).unwrap();
    assert_eq!(&FieldType::TypeU8, decoded.type_at(0).unwrap());
    assert_eq!(&FieldType::TypeBytes, decoded.type_at(1).unwrap());
    assert_eq!(&FieldType::TypeString, decoded.type_at(2).unwrap());
    assert_eq!(&FieldType::TypeU16, decoded.type_at(3).unwrap());
}

#[test]
fn supported_types_get_type_at_an_index() {
    let mut types = Fields::new();
    types.add(FieldType::TypeU8);
    assert_eq!(&FieldType::TypeU8, types.type_at(0).unwrap());
}

#[test]
fn supported_types_length_of_types() {
    let mut types = Fields::new();
    types.add(FieldType::TypeU8);
    assert_eq!(1, types.length());
}

#[test]
fn supported_types_end_offset_post_decode_for_u8() {
    let mut buffer = vec![0; 100];
    buffer[0] = 250;
    assert_eq!(11, FieldType::TypeU8.end_offset_post_decode(&buffer, 10));
}

#[test]
fn supported_types_end_offset_post_decode_for_u16() {
    let mut buffer = vec![0; 100];
    byteorder::LittleEndian::write_u16(&mut buffer[0..2], 250);
    assert_eq!(12, FieldType::TypeU16.end_offset_post_decode(&buffer, 10));
}

#[test]
fn supported_types_end_offset_post_decode_for_bytes() {
    let mut buffer = vec![0; 100];
    let _ = BytesEncoderDecoder.encode(b"Rocksdb", &mut buffer, 10);
    assert!(FieldType::TypeBytes.end_offset_post_decode(&buffer, 10) > 16);
}

#[test]
fn supported_types_end_offset_post_decode_for_string() {
    let mut buffer = vec![0; 100];
    let _ = StrEncoderDecoder.encode(&String::from("Rocksdb"), &mut buffer, 10);
    assert!(FieldType::TypeString.end_offset_post_decode(&buffer, 10) > 16);
}
