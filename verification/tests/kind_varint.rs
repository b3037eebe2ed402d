use protodec::kind_varint::KindVarint;

#[test]
fn next_works_in_cycle() {
    let kind = KindVarint::ZigZag;

    let actual = kind.toggle().toggle();

    assert_eq!(actual, kind);
}

#[test]
fn decodes_zigzag_correctly_64() {
    assert_eq!("0", KindVarint::ZigZag.get_value_as_string(0));
    assert_eq!("-1", KindVarint::ZigZag.get_value_as_string(1));
    assert_eq!("1", KindVarint::ZigZag.get_value_as_string(2));
    assert_eq!("-2", KindVarint::ZigZag.get_value_as_string(3));
    assert_eq!(
        "2147483647",
        KindVarint::ZigZag.get_value_as_string(4294967294)
    );
    assert_eq!(
        "-2147483648",
        KindVarint::ZigZag.get_value_as_string(4294967295)
    );
}

#[test]
fn varint_kind_toggle_is_not_the_identity() {
    assert_eq!(KindVarint::Unsigned.toggle(), KindVarint::ZigZag);
    assert_eq!(KindVarint::ZigZag.toggle(), KindVarint::Unsigned);
    assert_eq!(KindVarint::Unsigned.toggle().toggle(), KindVarint::Unsigned);
}

#[test]
fn varint_kind_names() {
    assert_eq!(KindVarint::ZigZag.to_string(), "zigzag");
    assert_eq!(KindVarint::Unsigned.to_string(), "unsign");
}

#[test]
fn renders_unsigned_in_decimal() {
    assert_eq!("0", KindVarint::Unsigned.get_value_as_string(0));
    assert_eq!("9", KindVarint::Unsigned.get_value_as_string(9));
    assert_eq!("10", KindVarint::Unsigned.get_value_as_string(10));
    assert_eq!("300", KindVarint::Unsigned.get_value_as_string(300));
    assert_eq!(
        "340282366920938463463374607431768211455",
        KindVarint::Unsigned.get_value_as_string(u128::MAX)
    );
}

#[test]
fn zigzag_agrees_with_shift_and_xor_on_wide_values() {
    let samples: [u128; 8] = [
        0,
        1,
        7,
        u64::MAX as u128,
        (1u128 << 127) - 1,
        1u128 << 127,
        u128::MAX - 1,
        u128::MAX,
    ];
    for varint in samples {
        let signed = varint as i128;
        let expected = ((signed >> 1) ^ -(signed & 0x1)).to_string();
        assert_eq!(expected, KindVarint::ZigZag.get_value_as_string(varint));
    }
}
