use protobuf_lite::error::{DecodeError, EncodeError};
use protobuf_lite::protobuf::{
    decode_hex, decode_protobuf, decode_protobuf_from, decode_protobuf_hex, FieldMap, ProtoData,
    WireType,
};
use protobuf_lite::buffer::Reader;

fn read_protobuf(hex_str: &str) -> Result<ProtoData, DecodeError> {
    decode_protobuf_hex(hex_str)
}

fn to_hex(data: &[u8]) -> String {
    let mut s = String::new();
    for b in data {
        s.push_str(&format!("{:02x}", b));
    }
    s
}

#[test]
fn test_encode_protobuf() {
    let mut pb = FieldMap::new();
    pb.insert(1, 2.into());
    pb.insert(2, "hello".into());
    pb.insert(
        3,
        vec![
            ProtoData::String("hello".into()),
            ProtoData::String("proto".into()),
        ]
        .into(),
    );
    pb.insert(4, vec![ProtoData::Varint(1), 2.into()].into());

    let data = pb.encode().unwrap();
    println!("{}", to_hex(data.as_slice()));
}

#[test]
fn test_decode_protobuf() {
    let pb = read_protobuf(
        "08d2fe061d424b1d002952bf0100000000003a0d3131343531343139313938313042047468697342026973420161420872657065617465644206737472696e674a10ec9962d372ce9be816be0b7fdea0127b5210292c88aab6b4386c5259b3db5bb3d83552106c67dcd74452b07dbab383af60213edc5210625b2652e828a520e2d3738fbc7623f952105c4627267501260e1635696f21df442352100e4f254dabe6afe218d47229213fce2e5210d61fea3ad5f6c7de29cb530974daebe85210bd7969536028618e616db54cc5bc17ab5210b82c3166710a0373d0fae7bfa5da6a405210aacb0a4e4eb2400cf3a9674cbd9fac30521056b3e167c737ac1d52770b789ba1e04a5210d99426dc60b67af15121a38816fa33c35210328fce15be2219c6cd950241d9db083652102db0c75a59f5527584b2924a32995f625210258d410b8fcf29b7c8405ae99560d43a5210eeafec9d7d49109a08d5d36f26e5f94852107aa31e3a68c0ea5cf197a9613a68de46",
    )
    .unwrap();

    println!("{:?}", pb);

    let mut expect_pb = FieldMap::new();
    expect_pb.insert(1, 114514.into());
    expect_pb.insert(3, ProtoData::Fix32(1919810));
    expect_pb.insert(5, ProtoData::Fix64(114514));
    expect_pb.insert(7, "1145141919810".to_string().into());
    expect_pb.insert(
        8,
        ProtoData::Repeated(vec![
            "this".to_string().into(),
            "is".to_string().into(),
            "a".to_string().into(),
            "repeated".to_string().into(),
            "string".to_string().into(),
        ]),
    );
    expect_pb.insert(
        9,
        decode_hex("ec 99 62 d3 72 ce 9b e8 16 be 0b 7f de a0 12 7b")
            .unwrap()
            .into(),
    );
    expect_pb.insert(
        10,
        ProtoData::Repeated(vec![
            decode_hex("29 2c 88 aa b6 b4 38 6c 52 59 b3 db 5b b3 d8 35")
                .unwrap()
                .into(),
            decode_hex("6c 67 dc d7 44 52 b0 7d ba b3 83 af 60 21 3e dc")
                .unwrap()
                .into(),
            decode_hex("62 5b 26 52 e8 28 a5 20 e2 d3 73 8f bc 76 23 f9")
                .unwrap()
                .into(),
            decode_hex("5c 46 27 26 75 01 26 0e 16 35 69 6f 21 df 44 23")
                .unwrap()
                .into(),
            decode_hex("0e 4f 25 4d ab e6 af e2 18 d4 72 29 21 3f ce 2e")
                .unwrap()
                .into(),
            decode_hex("d6 1f ea 3a d5 f6 c7 de 29 cb 53 09 74 da eb e8")
                .unwrap()
                .into(),
            decode_hex("bd 79 69 53 60 28 61 8e 61 6d b5 4c c5 bc 17 ab")
                .unwrap()
                .into(),
            decode_hex("b8 2c 31 66 71 0a 03 73 d0 fa e7 bf a5 da 6a 40")
                .unwrap()
                .into(),
            decode_hex("aa cb 0a 4e 4e b2 40 0c f3 a9 67 4c bd 9f ac 30")
                .unwrap()
                .into(),
            decode_hex("56 b3 e1 67 c7 37 ac 1d 52 77 0b 78 9b a1 e0 4a")
                .unwrap()
                .into(),
            decode_hex("d9 94 26 dc 60 b6 7a f1 51 21 a3 88 16 fa 33 c3")
                .unwrap()
                .into(),
            decode_hex("32 8f ce 15 be 22 19 c6 cd 95 02 41 d9 db 08 36")
                .unwrap()
                .into(),
            decode_hex("2d b0 c7 5a 59 f5 52 75 84 b2 92 4a 32 99 5f 62")
                .unwrap()
                .into(),
            decode_hex("25 8d 41 0b 8f cf 29 b7 c8 40 5a e9 95 60 d4 3a")
                .unwrap()
                .into(),
            decode_hex("ee af ec 9d 7d 49 10 9a 08 d5 d3 6f 26 e5 f9 48")
                .unwrap()
                .into(),
            decode_hex("7a a3 1e 3a 68 c0 ea 5c f1 97 a9 61 3a 68 de 46")
                .unwrap()
                .into(),
        ]),
    );

    let expected: ProtoData = expect_pb.into();
    assert_eq!(pb, expected);
}

#[test]
fn tag_arithmetic() {
    // Field 1, wire type VARINT: one tag byte, 0x08.
    let mut buf: Vec<u8> = Vec::new();
    ProtoData::Varint(150).encode_to(1, &mut buf).unwrap();
    assert_eq!(buf, vec![0x08, 0x96, 0x01]);

    // Field 16 needs two tag bytes: the LEN tag encodes as 0x82 0x01.
    let mut buf: Vec<u8> = Vec::new();
    ProtoData::Bytes(vec![0xaa]).encode_to(16, &mut buf).unwrap();
    assert_eq!(buf, vec![0x82, 0x01, 0x01, 0xaa]);
}

#[test]
fn wire_type_codes() {
    assert_eq!(ProtoData::Varint(0).wire_type(), WireType::VARINT);
    assert_eq!(ProtoData::Fix64(0).wire_type(), WireType::I64);
    assert_eq!(ProtoData::Fix32(0).wire_type(), WireType::I32);
    assert_eq!(ProtoData::Bytes(vec![]).wire_type(), WireType::LEN);
    assert_eq!(WireType::LEN.code(), 2);
    assert_eq!(WireType::try_from(5), Ok(WireType::I32));
    assert_eq!(WireType::try_from(6), Err(DecodeError::UnknownWireType(6)));
    assert_eq!(WireType::try_from(7), Err(DecodeError::UnknownWireType(7)));
}

#[test]
fn zero_length_len_payload_is_empty_message() {
    // Field 1, LEN, length 0.
    let pb = decode_protobuf(&[0x0a, 0x00]).unwrap();
    let mut expect = FieldMap::new();
    expect.insert(1, ProtoData::Message(FieldMap::new()));
    let expected: ProtoData = expect.into();
    assert_eq!(pb, expected);
}

#[test]
fn nested_message_wins_over_text() {
    // The payload bytes 08 01 are simultaneously a valid message
    // {1: Varint(1)} and valid UTF-8 text; the message interpretation wins.
    let pb = decode_protobuf(&[0x12, 0x02, 0x08, 0x01]).unwrap();
    let mut inner = FieldMap::new();
    inner.insert(1, ProtoData::Varint(1));
    let mut expect = FieldMap::new();
    expect.insert(2, ProtoData::Message(inner));
    let expected: ProtoData = expect.into();
    assert_eq!(pb, expected);
}

#[test]
fn undecodable_text_payload_falls_to_string_then_bytes() {
    // 0xff starts no valid field, and is no valid UTF-8 either: bytes.
    let pb = decode_protobuf(&[0x12, 0x01, 0xff]).unwrap();
    let mut expect = FieldMap::new();
    expect.insert(2, ProtoData::Bytes(vec![0xff]));
    let expected: ProtoData = expect.into();
    assert_eq!(pb, expected);

    // 0xc3 0xa9 is no message but decodes as UTF-8 text.
    let pb = decode_protobuf(&[0x12, 0x02, 0xc3, 0xa9]).unwrap();
    let mut expect = FieldMap::new();
    expect.insert(2, ProtoData::String("\u{e9}".to_string()));
    let expected: ProtoData = expect.into();
    assert_eq!(pb, expected);
}

#[test]
fn repeated_field_accumulation() {
    // Three occurrences of field 4 with scalar values 1, 2, 3.
    let pb = decode_protobuf(&[0x20, 0x01, 0x20, 0x02, 0x20, 0x03]).unwrap();
    let mut expect = FieldMap::new();
    expect.insert(
        4,
        ProtoData::Repeated(vec![
            ProtoData::Varint(1),
            ProtoData::Varint(2),
            ProtoData::Varint(3),
        ]),
    );
    let expected: ProtoData = expect.into();
    assert_eq!(pb, expected);
}

#[test]
fn encode_rejects_mixed_repeated() {
    let mixed = ProtoData::Repeated(vec![ProtoData::Varint(1), "a".into()]);
    let mut buf: Vec<u8> = Vec::new();
    assert_eq!(mixed.encode_to(1, &mut buf), Err(EncodeError::DataError));
}

#[test]
fn encode_rejects_nested_repeated() {
    let nested = ProtoData::Repeated(vec![ProtoData::Repeated(vec![ProtoData::Varint(1)])]);
    let mut buf: Vec<u8> = Vec::new();
    assert_eq!(nested.encode_to(1, &mut buf), Err(EncodeError::DataError));
}

#[test]
fn encode_empty_repeated_writes_nothing() {
    let mut pb = FieldMap::new();
    pb.insert(9, ProtoData::Repeated(vec![]));
    assert_eq!(pb.encode().unwrap(), Vec::<u8>::new());
}

#[test]
fn field_order_normalization() {
    let mut pb = FieldMap::new();
    pb.insert(9, ProtoData::Varint(1));
    pb.insert(2, ProtoData::Varint(2));
    // Field 2's bytes come first, whatever the insertion order was.
    assert_eq!(pb.encode().unwrap(), vec![0x10, 0x02, 0x48, 0x01]);
}

#[test]
fn end_to_end_varint_field() {
    let pb = read_protobuf("08 96 01").unwrap();
    let mut expect = FieldMap::new();
    expect.insert(1, ProtoData::Varint(150));
    let expected: ProtoData = expect.into();
    assert_eq!(pb, expected);

    // Re-encoding the decoded map reproduces the input bytes exactly.
    match pb {
        ProtoData::Message(fm) => assert_eq!(fm.encode().unwrap(), vec![0x08, 0x96, 0x01]),
        _ => panic!("decode yielded no message"),
    }
}

#[test]
fn end_to_end_string_field() {
    let pb = read_protobuf("12 05 68 65 6c 6c 6f").unwrap();
    let mut expect = FieldMap::new();
    expect.insert(2, ProtoData::String("hello".to_string()));
    let expected: ProtoData = expect.into();
    assert_eq!(pb, expected);
}

#[test]
fn decode_error_kinds() {
    // A tag whose low three bits are 6 names no wire type.
    assert_eq!(
        decode_protobuf(&[0x0e, 0x00]),
        Err(DecodeError::UnknownWireType(6))
    );
    // Group markers are recognized but rejected.
    assert_eq!(
        decode_protobuf(&[0x0b]),
        Err(DecodeError::DeprecatedWireType(WireType::SGROUP))
    );
    assert_eq!(
        decode_protobuf(&[0x0c]),
        Err(DecodeError::DeprecatedWireType(WireType::EGROUP))
    );
    // A payload that needs more bytes than remain is a generic field error.
    assert_eq!(decode_protobuf(&[0x0a, 0x05, 0x01]), Err(DecodeError::Error));
    assert_eq!(decode_protobuf(&[0x15, 0x01, 0x02]), Err(DecodeError::Error));
    // A malformed tag varint aborts the whole message.
    assert_eq!(
        decode_protobuf(&[0x80, 0x80]),
        Err(DecodeError::UnexpectedEof)
    );
    // An empty input is a clean, empty message.
    let pb = decode_protobuf(&[]).unwrap();
    let expected: ProtoData = FieldMap::new().into();
    assert_eq!(pb, expected);
}

#[test]
fn decode_hex_text() {
    assert_eq!(decode_hex("0a0b").unwrap(), vec![0x0a, 0x0b]);
    assert_eq!(decode_hex("0A 0B  ff").unwrap(), vec![0x0a, 0x0b, 0xff]);
    assert_eq!(decode_hex("").unwrap(), Vec::<u8>::new());
    assert_eq!(decode_hex("abc"), Err(DecodeError::Error));
    assert_eq!(decode_hex("zz"), Err(DecodeError::Error));
    assert_eq!(decode_protobuf_hex("xx"), Err(DecodeError::Error));
}

#[test]
fn repeated_messages_carry_their_own_frames() {
    let mut inner1 = FieldMap::new();
    inner1.insert(1, ProtoData::Varint(1));
    let mut inner2 = FieldMap::new();
    inner2.insert(1, ProtoData::Varint(2));
    let mut pb = FieldMap::new();
    pb.insert(
        2,
        ProtoData::Repeated(vec![ProtoData::Message(inner1), ProtoData::Message(inner2)]),
    );
    // Each message element gets its own tag, length varint and payload.
    let data = pb.encode().unwrap();
    assert_eq!(data, vec![0x12, 0x02, 0x08, 0x01, 0x12, 0x02, 0x08, 0x02]);
    // Those bytes decode back to the same repeated message field.
    let decoded = decode_protobuf(data.as_slice()).unwrap();
    let expected: ProtoData = pb.into();
    assert_eq!(decoded, expected);
}

#[test]
fn field_map_lookup_and_order() {
    let mut pb = FieldMap::new();
    pb.insert(9, ProtoData::Varint(9));
    pb.insert(2, ProtoData::Varint(2));
    pb.insert(5, ProtoData::Varint(5));
    assert_eq!(pb.len(), 3);
    assert!(!pb.is_empty());
    // Iteration order follows the field numbers, not the insertion order.
    assert_eq!(pb.key_at(0), 2);
    assert_eq!(pb.key_at(1), 5);
    assert_eq!(pb.key_at(2), 9);
    assert_eq!(pb.value_at(0), &ProtoData::Varint(2));
    assert_eq!(pb.get(5), Some(&ProtoData::Varint(5)));
    assert_eq!(pb.get(4), None);
    // A plain insert replaces the stored value.
    pb.insert(5, ProtoData::Varint(50));
    assert_eq!(pb.len(), 3);
    assert_eq!(pb.get(5), Some(&ProtoData::Varint(50)));
    // Clones carry the same tree.
    let copy = pb.clone();
    assert_eq!(copy, pb);
    let tree = ProtoData::Message(pb);
    assert_eq!(tree.clone(), tree);
}

#[test]
fn decode_from_reader_leaves_nothing() {
    let data = decode_hex("08 96 01").unwrap();
    let mut reader = Reader::new(data.as_slice());
    let pb = decode_protobuf_from(&mut reader).unwrap();
    assert!(reader.is_end());
    let mut expect = FieldMap::new();
    expect.insert(1, ProtoData::Varint(150));
    let expected: ProtoData = expect.into();
    assert_eq!(pb, expected);
}
