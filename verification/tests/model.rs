use protobuf::CodedOutputStream;
use protodec::data::Data;
use protodec::kind32::Kind32;
use protodec::kind64::Kind64;
use protodec::kind_varint::KindVarint;
use protodec::model::{DecodingState, ProtoDec, Value};
use uuid::Uuid;

fn new_uuid() -> u128 {
    Uuid::new_v4().as_u128()
}

fn message_with_string(field_number: u32, value: &str) -> Vec<u8> {
    let mut buffer = Vec::new();
    {
        let mut stream = CodedOutputStream::vec(&mut buffer);
        stream.write_string(field_number, value).unwrap();
        stream.flush().unwrap();
    }
    buffer
}

fn message_with_bytes(field_number: u32, value: &[u8]) -> Vec<u8> {
    let mut buffer = Vec::new();
    {
        let mut stream = CodedOutputStream::vec(&mut buffer);
        stream.write_bytes(field_number, value).unwrap();
        stream.flush().unwrap();
    }
    buffer
}

fn string_wrapper(value: &str) -> Vec<u8> {
    message_with_string(1, value)
}

fn string_wrapper_wrapper(value: &str) -> Vec<u8> {
    message_with_bytes(1, &string_wrapper(value))
}

fn ta() -> Vec<u8> {
    let tc = message_with_string(
        1,
        "10020030040050060072003\n00400500600700800100 100200300400500600700800100 100200300400500600700800100",
    );
    let mut tb = Vec::new();
    {
        let mut stream = CodedOutputStream::vec(&mut tb);
        stream.write_string(1, "Ivan").unwrap();
        stream.write_string(3, "ivan@smirnov.com").unwrap();
        stream.write_bytes(4, &tc).unwrap();
        stream.flush().unwrap();
    }
    message_with_bytes(1, &tb)
}

fn uuid_of(node: &DecodingState) -> u128 {
    match node {
        DecodingState::Varint { uuid, .. }
        | DecodingState::Fixed64 { uuid, .. }
        | DecodingState::Fixed32 { uuid, .. }
        | DecodingState::Chunk { uuid, .. }
        | DecodingState::Message { uuid, .. }
        | DecodingState::Utf8String { uuid, .. } => *uuid,
    }
}

#[test]
fn model_converts_itself_into_message() {
    let buffer = string_wrapper("117");

    let uuid = new_uuid();

    let mut state = DecodingState::Chunk {
        buffer,
        uuid,
        field_number: 123,
    };

    state.decode_as_message(uuid);
    assert!(matches!(state, DecodingState::Message { .. }));
}

#[test]
fn model_converts_internal_chunk_to_message() {
    let buffer = string_wrapper_wrapper("117");

    let uuid = new_uuid();

    let mut state = DecodingState::Chunk {
        buffer,
        uuid,
        field_number: 123,
    };

    state.decode_as_message(uuid);
    let mut clone = state.clone();

    let internal_uuid = if let DecodingState::Message { items, .. } = state {
        if let DecodingState::Chunk {
            uuid: internal_uuid,
            ..
        } = items[0]
        {
            internal_uuid
        } else {
            unreachable!();
        }
    } else {
        unreachable!();
    };

    clone.decode_as_message(uuid);
    clone.decode_as_message(internal_uuid.clone());

    if let DecodingState::Message { items, .. } = clone {
        assert!(matches!(items[0], DecodingState::Message { .. }));
    } else {
        unreachable!();
    };
}

#[test]
fn model_formats_kind_for_unsigned_varint() {
    let vm = DecodingState::Varint {
        field_number: 0,
        value: 0,
        uuid: new_uuid(),
        kind: KindVarint::Unsigned,
    };

    assert_eq!("<varint unsign>", vm.get_formatted_kind())
}

#[test]
fn model_formats_kind_for_zigzag_varint() {
    let vm = DecodingState::Varint {
        field_number: 0,
        value: 0,
        uuid: new_uuid(),
        kind: KindVarint::ZigZag,
    };

    assert_eq!("<varint zigzag>", vm.get_formatted_kind())
}

#[test]
fn model_formats_kind_for_fixed_32() {
    let vm = DecodingState::Fixed32 {
        field_number: 0,
        uuid: new_uuid(),
        kind: Kind32::Fixed32,
        buffer: vec![],
    };

    assert_eq!("<fix 32 unsign>", vm.get_formatted_kind())
}

#[test]
fn model_formats_kind_for_sfixed_32() {
    let vm = DecodingState::Fixed32 {
        field_number: 0,
        uuid: new_uuid(),
        kind: Kind32::SFixed32,
        buffer: vec![],
    };

    assert_eq!("<fix 32 sign>", vm.get_formatted_kind())
}

#[test]
fn model_formats_kind_for_float() {
    let vm = DecodingState::Fixed32 {
        field_number: 0,
        uuid: new_uuid(),
        kind: Kind32::Float,
        buffer: vec![],
    };

    assert_eq!("<fix 32 float>", vm.get_formatted_kind())
}

#[test]
fn model_formats_kind_for_buffer_32() {
    let vm = DecodingState::Fixed32 {
        field_number: 0,
        uuid: new_uuid(),
        kind: Kind32::Buffer,
        buffer: vec![],
    };

    assert_eq!("<fix 32 raw>", vm.get_formatted_kind())
}

#[test]
fn model_formats_kind_for_fixed_64() {
    let vm = DecodingState::Fixed64 {
        field_number: 0,
        uuid: new_uuid(),
        kind: Kind64::Fixed64,
        buffer: vec![],
    };

    assert_eq!("<fix 64 unsign>", vm.get_formatted_kind())
}

#[test]
fn model_formats_kind_for_sfixed_64() {
    let vm = DecodingState::Fixed64 {
        field_number: 0,
        uuid: new_uuid(),
        kind: Kind64::SFixed64,
        buffer: vec![],
    };

    assert_eq!("<fix 64 sign>", vm.get_formatted_kind())
}

#[test]
fn model_formats_kind_for_double() {
    let vm = DecodingState::Fixed64 {
        field_number: 0,
        uuid: new_uuid(),
        kind: Kind64::Double,
        buffer: vec![],
    };

    assert_eq!("<fix 64 double>", vm.get_formatted_kind())
}

#[test]
fn model_formats_kind_for_buffer_64() {
    let vm = DecodingState::Fixed64 {
        field_number: 0,
        uuid: new_uuid(),
        kind: Kind64::Buffer,
        buffer: vec![],
    };

    assert_eq!("<fix 64 raw>", vm.get_formatted_kind())
}

#[test]
fn model_does_not_fail_for_just_serialized_type() {
    let buffer = ta();

    let mut vm = DecodingState::Chunk {
        field_number: 0,
        uuid: new_uuid(),
        buffer,
    };

    if let DecodingState::Chunk { uuid, .. } = vm {
        vm.decode_as_message(uuid.clone());
    }

    let uuid = if let DecodingState::Message { items, .. } = &vm {
        if let DecodingState::Chunk { uuid, .. } = items[0] {
            uuid
        } else {
            panic!()
        }
    } else {
        panic!()
    };

    vm.decode_as_message(uuid);

    if let DecodingState::Message { items, .. } = vm {
        assert!(matches!(items[0], DecodingState::Message { .. }));
    }
}

#[test]
fn does_not_fail_for_empty_object() {
    let buffer: Vec<u8> = Vec::new();

    let mut vm = DecodingState::Chunk {
        field_number: 0,
        uuid: new_uuid(),
        buffer,
    };

    if let DecodingState::Chunk { uuid, .. } = vm {
        vm.decode_as_message(uuid.clone());
    }

    assert!(matches!(vm, DecodingState::Message { field_number: 0, ref items, .. } if items.is_empty()));
}

#[test]
fn formats_kind_for_chunk_message_and_text() {
    let chunk = DecodingState::Chunk { field_number: 0, uuid: 1, buffer: vec![] };
    assert_eq!("<chunk>", chunk.get_formatted_kind());
    let message = DecodingState::Message { field_number: 0, uuid: 1, items: vec![] };
    assert_eq!("<msg>", message.get_formatted_kind());
    let text = DecodingState::Utf8String { field_number: 0, uuid: 1, value: String::new() };
    assert_eq!("<utf-8>", text.get_formatted_kind());
}

#[test]
fn formats_field_number_to_two_characters() {
    let node = |field_number| DecodingState::Chunk { field_number, uuid: 1, buffer: vec![] };
    assert_eq!(node(0).get_formatted_field_number(), "0 ");
    assert_eq!(node(9).get_formatted_field_number(), "9 ");
    assert_eq!(node(10).get_formatted_field_number(), "10");
    assert_eq!(node(123).get_formatted_field_number(), "123");
    for field_number in [0_u128, 7, 10, 99, 100, u64::MAX as u128, u128::MAX] {
        assert_eq!(node(field_number).get_formatted_field_number(), format!("{:<2?}", field_number));
    }
}

#[test]
fn lift_gives_default_kinds_and_keeps_the_order() {
    let data = Data::Message {
        field_number: 9,
        items: vec![
            Data::Varint { field_number: 1, value: 300 },
            Data::Fixed64 { field_number: 2, buffer: vec![1, 2, 3, 4, 5, 6, 7, 8] },
            Data::Fixed32 { field_number: 3, buffer: vec![1, 2, 3, 4] },
            Data::Chunk { field_number: 4, buffer: vec![9, 9] },
            Data::Message { field_number: 5, items: vec![Data::Varint { field_number: 6, value: 7 }] },
        ],
    };

    let node: DecodingState = data.into();

    let items = match node {
        DecodingState::Message { field_number: 9, items, .. } => items,
        other => panic!("{:?}", other),
    };
    assert_eq!(items.len(), 5);
    assert!(matches!(items[0], DecodingState::Varint { field_number: 1, value: 300, kind: KindVarint::Unsigned, .. }));
    assert!(matches!(&items[1], DecodingState::Fixed64 { field_number: 2, buffer, kind: Kind64::Fixed64, .. } if buffer == &[1, 2, 3, 4, 5, 6, 7, 8]));
    assert!(matches!(&items[2], DecodingState::Fixed32 { field_number: 3, buffer, kind: Kind32::Fixed32, .. } if buffer == &[1, 2, 3, 4]));
    assert!(matches!(&items[3], DecodingState::Chunk { field_number: 4, buffer, .. } if buffer == &[9, 9]));
    match &items[4] {
        DecodingState::Message { field_number: 5, items, .. } => {
            assert!(matches!(items[0], DecodingState::Varint { field_number: 6, value: 7, kind: KindVarint::Unsigned, .. }));
        }
        other => panic!("{:?}", other),
    }
}

#[test]
fn lift_draws_a_new_identity_for_every_node() {
    let data = Data::Message {
        field_number: 9,
        items: (0..50).map(|value| Data::Varint { field_number: 1, value }).collect(),
    };
    let node = DecodingState::lift(&data);
    let mut seen = vec![uuid_of(&node)];
    if let DecodingState::Message { items, .. } = &node {
        for item in items {
            seen.push(uuid_of(item));
        }
    }
    seen.sort();
    seen.dedup();
    assert_eq!(seen.len(), 51);
    let again = DecodingState::lift(&data);
    assert_ne!(uuid_of(&again), uuid_of(&node));
}

#[test]
fn reinterpretation_is_local_and_goes_one_level_deep() {
    // a message with two fields: a nested message in field 1, a string in field 2
    let mut payload = string_wrapper_wrapper("117");
    payload.extend_from_slice(&message_with_string(2, "side"));
    let outer = new_uuid();
    let mut state = DecodingState::Chunk { field_number: 0, uuid: outer, buffer: payload };

    state.decode_as_message(outer);

    let (first, second) = match &state {
        DecodingState::Message { field_number: 0, uuid, items } => {
            assert_eq!(*uuid, outer);
            assert_eq!(items.len(), 2);
            assert!(matches!(items[0], DecodingState::Chunk { field_number: 1, .. }));
            assert!(matches!(items[1], DecodingState::Chunk { field_number: 2, .. }));
            (uuid_of(&items[0]), uuid_of(&items[1]))
        }
        other => panic!("{:?}", other),
    };
    let before = format!("{:?}", state);

    // the outer identity no longer names a chunk: nothing changes
    state.decode_as_message(outer);
    assert_eq!(format!("{:?}", state), before);

    state.decode_as_message(first);

    match &state {
        DecodingState::Message { uuid, items, .. } => {
            assert_eq!(*uuid, outer);
            match &items[0] {
                DecodingState::Message { field_number: 1, uuid, items } => {
                    assert_eq!(*uuid, first);
                    assert_eq!(items.len(), 1);
                    assert!(matches!(&items[0], DecodingState::Chunk { field_number: 1, buffer, .. } if buffer == b"117"));
                }
                other => panic!("{:?}", other),
            }
            assert!(matches!(&items[1], DecodingState::Chunk { field_number: 2, uuid, buffer } if *uuid == second && buffer == b"side"));
        }
        other => panic!("{:?}", other),
    }
}

#[test]
fn failed_reinterpretation_leaves_the_chunk() {
    let uuid = new_uuid();
    let mut state = DecodingState::Chunk { field_number: 3, uuid, buffer: vec![0x0a, 0x05, 1, 2] };
    let before = format!("{:?}", state);

    state.decode_as_message(uuid);

    assert_eq!(format!("{:?}", state), before);
}

#[test]
fn unknown_identity_changes_nothing() {
    let data = Data::Message {
        field_number: 9,
        items: vec![
            Data::Varint { field_number: 1, value: 300 },
            Data::Chunk { field_number: 4, buffer: b"abc".to_vec() },
        ],
    };
    let mut state = DecodingState::lift(&data);
    let before = format!("{:?}", state);
    let mut stranger = new_uuid();
    while format!("{:?}", state).contains(&stranger.to_string()) {
        stranger = new_uuid();
    }

    state.decode_as_message(stranger);
    state.decode_as_utf8_string(stranger);
    state.toggle(stranger);

    assert_eq!(format!("{:?}", state), before);
}

#[test]
fn reads_a_chunk_as_text() {
    let uuid = new_uuid();
    let mut state = DecodingState::Chunk { field_number: 3, uuid, buffer: "héllo".as_bytes().to_vec() };

    state.decode_as_utf8_string(uuid);

    assert!(matches!(&state, DecodingState::Utf8String { field_number: 3, uuid: kept, value } if *kept == uuid && value == "héllo"));
}

#[test]
fn bytes_that_are_no_utf8_stay_a_chunk() {
    let uuid = new_uuid();
    let mut state = DecodingState::Chunk { field_number: 3, uuid, buffer: vec![0xff, 0xfe, 0x41] };

    state.decode_as_utf8_string(uuid);

    assert!(matches!(&state, DecodingState::Chunk { field_number: 3, uuid: kept, buffer } if *kept == uuid && buffer == &[0xff, 0xfe, 0x41]));
}

#[test]
fn reads_a_nested_chunk_as_text() {
    let outer = new_uuid();
    let mut state = DecodingState::Chunk { field_number: 0, uuid: outer, buffer: string_wrapper_wrapper("117") };
    state.decode_as_message(outer);
    let middle = match &state {
        DecodingState::Message { items, .. } => uuid_of(&items[0]),
        other => panic!("{:?}", other),
    };
    state.decode_as_message(middle);
    let inner = match &state {
        DecodingState::Message { items, .. } => match &items[0] {
            DecodingState::Message { items, .. } => uuid_of(&items[0]),
            other => panic!("{:?}", other),
        },
        other => panic!("{:?}", other),
    };

    state.decode_as_utf8_string(inner);

    match &state {
        DecodingState::Message { items, .. } => match &items[0] {
            DecodingState::Message { items, .. } => {
                assert!(matches!(&items[0], DecodingState::Utf8String { field_number: 1, uuid, value } if *uuid == inner && value == "117"));
            }
            other => panic!("{:?}", other),
        },
        other => panic!("{:?}", other),
    }
}

#[test]
fn toggle_walks_the_cycle_of_each_kind() {
    let mut varint = DecodingState::Varint { field_number: 1, value: 3, uuid: 10, kind: KindVarint::Unsigned };
    varint.toggle(10);
    assert!(matches!(varint, DecodingState::Varint { kind: KindVarint::ZigZag, .. }));
    varint.toggle(10);
    assert!(matches!(varint, DecodingState::Varint { kind: KindVarint::Unsigned, .. }));

    let mut fixed = DecodingState::Fixed32 { field_number: 1, buffer: vec![1, 0, 0, 0], uuid: 11, kind: Kind32::Fixed32 };
    let mut seen = Vec::new();
    for _ in 0..4 {
        fixed.toggle(11);
        if let DecodingState::Fixed32 { kind, .. } = &fixed {
            seen.push(*kind);
        }
    }
    assert_eq!(seen, vec![Kind32::SFixed32, Kind32::Float, Kind32::Buffer, Kind32::Fixed32]);

    let mut wide = DecodingState::Fixed64 { field_number: 1, buffer: vec![0; 8], uuid: 12, kind: Kind64::Fixed64 };
    let mut seen = Vec::new();
    for _ in 0..4 {
        wide.toggle(12);
        if let DecodingState::Fixed64 { kind, .. } = &wide {
            seen.push(*kind);
        }
    }
    assert_eq!(seen, vec![Kind64::SFixed64, Kind64::Double, Kind64::Buffer, Kind64::Fixed64]);
}

#[test]
fn toggle_reaches_into_messages_and_stops_at_the_first_match() {
    let mut state = DecodingState::Message {
        field_number: 0,
        uuid: 1,
        items: vec![
            DecodingState::Chunk { field_number: 1, uuid: 7, buffer: vec![] },
            DecodingState::Message {
                field_number: 2,
                uuid: 7,
                items: vec![DecodingState::Varint { field_number: 3, value: 1, uuid: 7, kind: KindVarint::Unsigned }],
            },
            DecodingState::Varint { field_number: 4, value: 1, uuid: 7, kind: KindVarint::Unsigned },
        ],
    };

    state.toggle(7);

    match &state {
        DecodingState::Message { items, .. } => {
            assert!(matches!(&items[0], DecodingState::Chunk { .. }));
            match &items[1] {
                DecodingState::Message { items, .. } => {
                    assert!(matches!(items[0], DecodingState::Varint { kind: KindVarint::ZigZag, .. }));
                }
                other => panic!("{:?}", other),
            }
            assert!(matches!(items[2], DecodingState::Varint { kind: KindVarint::Unsigned, .. }));
        }
        other => panic!("{:?}", other),
    }
}

#[test]
fn reinterpretation_stops_at_the_first_chunk_with_the_identity() {
    let mut state = DecodingState::Message {
        field_number: 0,
        uuid: 1,
        items: vec![
            DecodingState::Chunk { field_number: 1, uuid: 7, buffer: vec![0x0a, 0x09] },
            DecodingState::Chunk { field_number: 2, uuid: 7, buffer: b"ok".to_vec() },
        ],
    };

    state.decode_as_utf8_string(7);
    match &state {
        DecodingState::Message { items, .. } => {
            assert!(matches!(&items[0], DecodingState::Utf8String { field_number: 1, value, .. } if value == "\n\t"));
            assert!(matches!(&items[1], DecodingState::Chunk { field_number: 2, .. }));
        }
        other => panic!("{:?}", other),
    }

    // the first chunk with the identity is now the second item; its bytes decode to nothing,
    // because `o` is a tag with a group code
    state.decode_as_message(7);
    match &state {
        DecodingState::Message { items, .. } => {
            assert!(matches!(&items[1], DecodingState::Chunk { field_number: 2, .. }));
        }
        other => panic!("{:?}", other),
    }
}

#[test]
fn program_starts_with_an_empty_form() {
    match ProtoDec::new() {
        ProtoDec::InitialState(form) => {
            assert_eq!(form.input, "");
            assert!(!form.drop_zone_active);
            assert!(form.uploaded_file.is_none());
        }
        other => panic!("{:?}", other),
    }
}

#[test]
fn shows_each_node_under_its_kind() {
    let text = |s: &str| Value::Text(s.to_string());
    let varint = |kind| DecodingState::Varint { field_number: 1, value: 3, uuid: 1, kind };
    assert_eq!(varint(KindVarint::Unsigned).get_formatted_value(), text("3"));
    assert_eq!(varint(KindVarint::ZigZag).get_formatted_value(), text("-2"));

    let fixed = |kind| DecodingState::Fixed32 { field_number: 1, buffer: vec![0xfe, 0xff, 0xff, 0xff], uuid: 1, kind };
    assert_eq!(fixed(Kind32::Fixed32).get_formatted_value(), text("4294967294"));
    assert_eq!(fixed(Kind32::SFixed32).get_formatted_value(), text("-2"));
    assert_eq!(fixed(Kind32::Float).get_formatted_value(), Value::Binary32(0xffff_fffe));
    assert_eq!(
        fixed(Kind32::Buffer).get_formatted_value(),
        text("\u{d7}\u{d7}\u{d7}\u{d7}               fe ff ff ff")
    );

    let wide = |kind| DecodingState::Fixed64 { field_number: 1, buffer: vec![0, 0, 0, 0, 0, 0, 0xf0, 0x3f], uuid: 1, kind };
    assert_eq!(wide(Kind64::Fixed64).get_formatted_value(), text("4607182418800017408"));
    assert_eq!(wide(Kind64::SFixed64).get_formatted_value(), text("4607182418800017408"));
    assert_eq!(wide(Kind64::Double).get_formatted_value(), Value::Binary64(0x3ff0_0000_0000_0000));
    assert_eq!(
        wide(Kind64::Buffer).get_formatted_value(),
        text("000000\u{d7}?           00 00 00 00 00 00 f0 3f")
    );

    let chunk = DecodingState::Chunk { field_number: 1, buffer: b"hi".to_vec(), uuid: 1 };
    assert_eq!(chunk.get_formatted_value(), text("hi                 68 69"));
    let string = DecodingState::Utf8String { field_number: 1, value: "héllo".to_string(), uuid: 1 };
    assert_eq!(string.get_formatted_value(), text("héllo"));
    let message = DecodingState::Message { field_number: 1, items: vec![chunk], uuid: 1 };
    assert_eq!(message.get_formatted_value(), Value::Items);
}

#[test]
fn raw_buffer_of_any_length_can_be_shown() {
    let short = DecodingState::Fixed32 { field_number: 1, buffer: vec![], uuid: 1, kind: Kind32::Buffer };
    assert_eq!(short.get_formatted_value(), Value::Text(String::new()));
}

fn identities(node: &DecodingState, into: &mut Vec<u128>) {
    into.push(uuid_of(node));
    if let DecodingState::Message { items, .. } = node {
        for item in items {
            identities(item, into);
        }
    }
}

#[test]
fn lift_with_hands_out_the_identities_in_reading_order() {
    let data = Data::Message {
        field_number: 9,
        items: vec![
            Data::Varint { field_number: 1, value: 300 },
            Data::Message {
                field_number: 5,
                items: vec![
                    Data::Chunk { field_number: 6, buffer: vec![1] },
                    Data::Fixed32 { field_number: 7, buffer: vec![1, 2, 3, 4] },
                ],
            },
            Data::Fixed64 { field_number: 2, buffer: vec![1, 2, 3, 4, 5, 6, 7, 8] },
        ],
    };

    let node = DecodingState::lift_with(&data, &[10, 20, 30, 40, 50, 60]);

    let mut seen = Vec::new();
    identities(&node, &mut seen);
    assert_eq!(seen, vec![10, 20, 30, 40, 50, 60]);
    match &node {
        DecodingState::Message { field_number: 9, uuid: 10, items } => {
            assert!(matches!(items[0], DecodingState::Varint { field_number: 1, value: 300, uuid: 20, kind: KindVarint::Unsigned }));
            match &items[1] {
                DecodingState::Message { field_number: 5, uuid: 30, items } => {
                    assert!(matches!(&items[0], DecodingState::Chunk { field_number: 6, uuid: 40, buffer } if buffer == &[1]));
                    assert!(matches!(&items[1], DecodingState::Fixed32 { field_number: 7, uuid: 50, kind: Kind32::Fixed32, .. }));
                }
                other => panic!("{:?}", other),
            }
            assert!(matches!(&items[2], DecodingState::Fixed64 { field_number: 2, uuid: 60, kind: Kind64::Fixed64, .. }));
        }
        other => panic!("{:?}", other),
    }
}

#[test]
fn lift_with_one_identity_lifts_a_leaf() {
    let node = DecodingState::lift_with(&Data::Chunk { field_number: 0, buffer: vec![8, 1] }, &[77]);
    assert!(matches!(&node, DecodingState::Chunk { field_number: 0, uuid: 77, buffer } if buffer == &[8, 1]));
}

#[test]
fn lift_draws_as_many_identities_as_there_are_nodes() {
    let data = Data::Message {
        field_number: 9,
        items: vec![
            Data::Message { field_number: 5, items: vec![Data::Varint { field_number: 6, value: 7 }] },
            Data::Message { field_number: 5, items: vec![] },
        ],
    };
    let node: DecodingState = data.into();
    let mut seen = Vec::new();
    identities(&node, &mut seen);
    assert_eq!(seen.len(), 4);
    seen.sort();
    seen.dedup();
    assert_eq!(seen.len(), 4);
}

#[test]
fn nested_message_gets_the_given_identity_and_is_not_expanded() {
    let u = Uuid::from_u128(1).as_u128();
    let mut state = DecodingState::Chunk {
        field_number: 123,
        uuid: u,
        buffer: vec![0x0A, 0x05, 0x0A, 0x03, 0x31, 0x31, 0x37],
    };
    assert_eq!(state.identities_needed(u), 1);
    assert_eq!(state.identities_needed(2), 0);

    state.decode_as_message_with(u, &[42]);

    match &state {
        DecodingState::Message { field_number: 123, uuid, items } => {
            assert_eq!(*uuid, u);
            assert_eq!(items.len(), 1);
            assert!(matches!(&items[0], DecodingState::Chunk { field_number: 1, uuid: 42, buffer } if buffer == &[0x0A, 0x03, 0x31, 0x31, 0x37]));
        }
        other => panic!("{:?}", other),
    }
}

#[test]
fn drawn_identity_of_the_child_differs_from_the_parent() {
    let u = Uuid::from_u128(1).as_u128();
    let mut state = DecodingState::Chunk {
        field_number: 123,
        uuid: u,
        buffer: vec![0x0A, 0x05, 0x0A, 0x03, 0x31, 0x31, 0x37],
    };

    state.decode_as_message(u);

    match &state {
        DecodingState::Message { field_number: 123, uuid, items } => {
            assert_eq!(*uuid, u);
            assert_eq!(items.len(), 1);
            assert!(matches!(&items[0], DecodingState::Chunk { field_number: 1, uuid: child, buffer } if *child != u && buffer == &[0x0A, 0x03, 0x31, 0x31, 0x37]));
        }
        other => panic!("{:?}", other),
    }
}

#[test]
fn new_items_deep_in_the_tree_take_the_identities_in_their_order() {
    let mut state = DecodingState::Message {
        field_number: 0,
        uuid: 1,
        items: vec![
            DecodingState::Varint { field_number: 1, value: 1, uuid: 2, kind: KindVarint::Unsigned },
            DecodingState::Message {
                field_number: 2,
                uuid: 3,
                items: vec![DecodingState::Chunk { field_number: 3, uuid: 4, buffer: vec![0x08, 0x01, 0x12, 0x00, 0x1d, 1, 2, 3, 4] }],
            },
            DecodingState::Chunk { field_number: 4, uuid: 4, buffer: vec![0x08, 0x01] },
        ],
    };
    assert_eq!(state.identities_needed(4), 3);
    assert_eq!(state.identities_needed(1), 0);
    assert_eq!(state.identities_needed(2), 0);

    state.decode_as_message_with(4, &[100, 101, 102]);

    let mut seen = Vec::new();
    identities(&state, &mut seen);
    assert_eq!(seen, vec![1, 2, 3, 4, 100, 101, 102, 4]);
    match &state {
        DecodingState::Message { items, .. } => {
            match &items[1] {
                DecodingState::Message { items, .. } => match &items[0] {
                    DecodingState::Message { field_number: 3, uuid: 4, items } => {
                        assert!(matches!(items[0], DecodingState::Varint { field_number: 1, value: 1, uuid: 100, .. }));
                        assert!(matches!(&items[1], DecodingState::Chunk { field_number: 2, uuid: 101, buffer } if buffer.is_empty()));
                        assert!(matches!(&items[2], DecodingState::Fixed32 { field_number: 3, uuid: 102, .. }));
                    }
                    other => panic!("{:?}", other),
                },
                other => panic!("{:?}", other),
            }
            assert!(matches!(&items[2], DecodingState::Chunk { field_number: 4, uuid: 4, .. }));
        }
        other => panic!("{:?}", other),
    }
}

#[test]
fn chunk_that_does_not_decode_needs_no_identity() {
    let mut state = DecodingState::Chunk { field_number: 3, uuid: 9, buffer: vec![0x0a, 0x05, 1, 2] };
    assert_eq!(state.identities_needed(9), 0);
    let before = format!("{:?}", state);
    state.decode_as_message_with(9, &[]);
    assert_eq!(format!("{:?}", state), before);
}
