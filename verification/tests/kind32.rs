use protodec::kind32::Kind32;

#[test]
fn kind32_toggles_itself_in_cycle() {
    let kind = Kind32::Buffer;

    let actual = kind.toggle().toggle().toggle().toggle();

    assert_eq!(actual, kind);
}

#[test]
fn toggles_itself_in_cycle() {
    let kind = Kind32::Buffer;

    let actual = kind.toggle().toggle().toggle().toggle();

    assert_eq!(actual, kind);
}

#[test]
fn kind32_cycle_has_no_shorter_period() {
    for kind in [Kind32::Buffer, Kind32::Fixed32, Kind32::SFixed32, Kind32::Float] {
        assert_ne!(kind.toggle(), kind);
        assert_ne!(kind.toggle().toggle(), kind);
        assert_ne!(kind.toggle().toggle().toggle(), kind);
        assert_eq!(kind.toggle().toggle().toggle().toggle(), kind);
    }
}

#[test]
fn kind32_toggles_in_the_documented_order() {
    assert_eq!(Kind32::Buffer.toggle(), Kind32::Fixed32);
    assert_eq!(Kind32::Fixed32.toggle(), Kind32::SFixed32);
    assert_eq!(Kind32::SFixed32.toggle(), Kind32::Float);
    assert_eq!(Kind32::Float.toggle(), Kind32::Buffer);
}

#[test]
fn kind32_names() {
    assert_eq!(Kind32::Buffer.to_string(), "raw");
    assert_eq!(Kind32::Fixed32.to_string(), "unsign");
    assert_eq!(Kind32::SFixed32.to_string(), "sign");
    assert_eq!(Kind32::Float.to_string(), "float");
}

#[test]
fn kind32_renders_unsigned_little_endian() {
    assert_eq!(Kind32::Fixed32.get_value_as_string(&[1, 0, 0, 0]), Some("1".to_string()));
    assert_eq!(Kind32::Fixed32.get_value_as_string(&[0x78, 0x56, 0x34, 0x12]), Some("305419896".to_string()));
    assert_eq!(Kind32::Fixed32.get_value_as_string(&[0xff, 0xff, 0xff, 0xff]), Some("4294967295".to_string()));
    assert_eq!(Kind32::Fixed32.get_value_as_string(&[0, 0, 0, 0]), Some("0".to_string()));
}

#[test]
fn kind32_renders_signed_little_endian() {
    assert_eq!(Kind32::SFixed32.get_value_as_string(&[1, 0, 0, 0]), Some("1".to_string()));
    assert_eq!(Kind32::SFixed32.get_value_as_string(&[0xff, 0xff, 0xff, 0xff]), Some("-1".to_string()));
    assert_eq!(Kind32::SFixed32.get_value_as_string(&[0, 0, 0, 0x80]), Some("-2147483648".to_string()));
    assert_eq!(Kind32::SFixed32.get_value_as_string(&[0xff, 0xff, 0xff, 0x7f]), Some("2147483647".to_string()));
}

#[test]
fn kind32_reads_only_the_first_four_bytes() {
    assert_eq!(Kind32::Fixed32.get_value_as_string(&[2, 0, 0, 0, 9, 9]), Some("2".to_string()));
}

#[test]
fn kind32_renders_raw_buffer_as_dump() {
    assert_eq!(
        Kind32::Buffer.get_value_as_string(&[0x41, 0x00, 0x20, 0x09]),
        Some("A0 _               41 00 20 09".to_string())
    );
}

#[test]
fn kind32_leaves_float_to_the_caller() {
    let buffer = [0x00, 0x00, 0x80, 0x3f];
    assert_eq!(Kind32::Float.get_value_as_string(&buffer), None);
    let bits = Kind32::float_bits(&buffer);
    assert_eq!(bits, 0x3f80_0000);
    assert_eq!(f32::from_bits(bits), 1.0_f32);
}
