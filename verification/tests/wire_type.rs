use protodec::wire_type::WireType;

#[test]
fn has_correct_from_implementation() {
    let wire_type: WireType = From::<u128>::from(0);
    assert_eq!(wire_type, WireType::Varint);

    let wire_type: WireType = From::<u128>::from(1);
    assert_eq!(wire_type, WireType::Size64);

    let wire_type: WireType = From::<u128>::from(2);
    assert_eq!(wire_type, WireType::LengthDelimited);

    let wire_type: WireType = From::<u128>::from(3);
    assert_eq!(wire_type, WireType::StartGroup);

    let wire_type: WireType = From::<u128>::from(4);
    assert_eq!(wire_type, WireType::EndGroup);

    let wire_type: WireType = From::<u128>::from(5);
    assert_eq!(wire_type, WireType::Size32);
}

#[test]
fn codes_without_a_wire_type_are_invalid() {
    let wire_type: WireType = From::<u128>::from(6);
    assert_eq!(wire_type, WireType::Invalid);

    let wire_type: WireType = From::<u128>::from(7);
    assert_eq!(wire_type, WireType::Invalid);

    let wire_type: WireType = From::<u128>::from(u128::MAX);
    assert_eq!(wire_type, WireType::Invalid);
}
