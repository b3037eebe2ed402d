use protodec::data::{take_data, Data};
use protodec::error::ErrorKind;
use protodec::key::Key;
use protodec::wire_type::WireType;

fn key(wire_type: WireType) -> Key {
    Key { wire_type, field_number: 7 }
}

#[test]
fn takes_a_varint_field() {
    let buffer = [0xac, 0x02, 0x99];
    let (data, rest) = take_data(key(WireType::Varint), &buffer).unwrap();
    assert!(matches!(data, Data::Varint { field_number: 7, value: 300 }));
    assert_eq!(rest, &[0x99]);
}

#[test]
fn takes_a_varint_field_from_an_empty_buffer() {
    let (data, rest) = take_data(key(WireType::Varint), &[]).unwrap();
    assert!(matches!(data, Data::Varint { field_number: 7, value: 0 }));
    assert!(rest.is_empty());
}

#[test]
fn takes_exactly_eight_bytes_for_a_64_bit_field() {
    let buffer = [1, 2, 3, 4, 5, 6, 7, 8, 9, 10];
    let (data, rest) = take_data(key(WireType::Size64), &buffer).unwrap();
    match data {
        Data::Fixed64 { field_number, buffer } => {
            assert_eq!(field_number, 7);
            assert_eq!(buffer, vec![1, 2, 3, 4, 5, 6, 7, 8]);
        }
        other => panic!("{:?}", other),
    }
    assert_eq!(rest, &[9, 10]);
}

#[test]
fn takes_exactly_four_bytes_for_a_32_bit_field() {
    let buffer = [1, 2, 3, 4];
    let (data, rest) = take_data(key(WireType::Size32), &buffer).unwrap();
    match data {
        Data::Fixed32 { field_number, buffer } => {
            assert_eq!(field_number, 7);
            assert_eq!(buffer, vec![1, 2, 3, 4]);
        }
        other => panic!("{:?}", other),
    }
    assert!(rest.is_empty());
}

#[test]
fn takes_a_chunk_of_the_declared_size() {
    let buffer = [3, b'a', b'b', b'c', b'd'];
    let (data, rest) = take_data(key(WireType::LengthDelimited), &buffer).unwrap();
    match data {
        Data::Chunk { field_number, buffer } => {
            assert_eq!(field_number, 7);
            assert_eq!(buffer, b"abc".to_vec());
        }
        other => panic!("{:?}", other),
    }
    assert_eq!(rest, b"d");
}

#[test]
fn takes_an_empty_chunk() {
    let (data, rest) = take_data(key(WireType::LengthDelimited), &[0]).unwrap();
    assert!(matches!(data, Data::Chunk { field_number: 7, ref buffer } if buffer.is_empty()));
    assert!(rest.is_empty());
    let (data, rest) = take_data(key(WireType::LengthDelimited), &[]).unwrap();
    assert!(matches!(data, Data::Chunk { field_number: 7, ref buffer } if buffer.is_empty()));
    assert!(rest.is_empty());
}

#[test]
fn truncated_64_bit_field_is_rejected() {
    let error = take_data(key(WireType::Size64), &[1, 2, 3, 4, 5, 6, 7]).unwrap_err();
    assert_eq!(error.kind, ErrorKind::TruncatedFixed64);
    assert_eq!(error.message, "Error. Buffer length 7 can't be less then 8 here.");
    let error = take_data(key(WireType::Size64), &[]).unwrap_err();
    assert_eq!(error.kind, ErrorKind::TruncatedFixed64);
    assert_eq!(error.message, "Error. Buffer length 0 can't be less then 8 here.");
}

#[test]
fn truncated_32_bit_field_is_rejected() {
    let error = take_data(key(WireType::Size32), &[1, 2, 3]).unwrap_err();
    assert_eq!(error.kind, ErrorKind::TruncatedFixed32);
    assert_eq!(error.message, "Error. Buffer length 3 can't be less then 4 here.");
}

#[test]
fn truncated_chunk_is_rejected() {
    let error = take_data(key(WireType::LengthDelimited), &[4, b'a', b'b', b'c']).unwrap_err();
    assert_eq!(error.kind, ErrorKind::TruncatedChunk);
    assert_eq!(error.message, "Error. Buffer length 3 can't be less then 4 here.");
}

#[test]
fn chunk_with_a_size_beyond_the_address_space_is_rejected() {
    let mut buffer = vec![0xff_u8; 18];
    buffer.push(0x03);
    buffer.extend_from_slice(b"abc");
    let error = take_data(key(WireType::LengthDelimited), &buffer).unwrap_err();
    assert_eq!(error.kind, ErrorKind::TruncatedChunk);
    assert_eq!(
        error.message,
        format!("Error. Buffer length 3 can't be less then {} here.", u128::MAX)
    );
}

#[test]
fn groups_are_rejected() {
    let error = take_data(key(WireType::StartGroup), &[1, 2, 3]).unwrap_err();
    assert_eq!(error.kind, ErrorKind::UnsupportedGroup);
    assert_eq!(error.message, "Error. Not expected start group occured");
    let error = take_data(key(WireType::EndGroup), &[1, 2, 3]).unwrap_err();
    assert_eq!(error.kind, ErrorKind::UnsupportedGroup);
    assert_eq!(error.message, "Error. Not expected end group occured");
}

#[test]
fn invalid_wire_type_is_rejected() {
    let error = take_data(key(WireType::Invalid), &[1, 2, 3]).unwrap_err();
    assert_eq!(error.kind, ErrorKind::InvalidWireType);
    assert_eq!(error.message, "Error. wire type is invalid.");
}

#[test]
fn clone_keeps_nested_fields() {
    let data = Data::Message {
        field_number: 1,
        items: vec![
            Data::Varint { field_number: 2, value: 3 },
            Data::Chunk { field_number: 4, buffer: vec![5, 6] },
            Data::Message { field_number: 7, items: vec![Data::Fixed32 { field_number: 8, buffer: vec![1, 2, 3, 4] }] },
        ],
    };
    assert_eq!(format!("{:?}", data.clone()), format!("{:?}", data));
}
