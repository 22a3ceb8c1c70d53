use protobuf_lite::buffer::Reader;
use protobuf_lite::error::DecodeError;
use protobuf_lite::{fixint, varint};

#[test]
fn uvarint() {
    let nums: Vec<u64> = vec![0, 10, 1000, 10000, 123456, 128, 256, 512];
    for num in nums {
        let data = varint::encode_uvarint(num);
        assert_eq!(
            num,
            varint::read_uvarint(&mut Reader::new(data.as_slice())).unwrap()
        );
    }

    let data: Vec<u8> = vec![192, 196, 7];
    assert_eq!(
        123456,
        varint::read_uvarint(&mut Reader::new(data.as_slice())).unwrap()
    );

    let data: Vec<u8> = vec![192, 196, 7, 1, 1, 1, 1, 1, 1, 1, 1];
    assert_eq!(
        123456,
        varint::read_uvarint(&mut Reader::new(data.as_slice())).unwrap()
    );
}

#[test]
fn varint() {
    let nums: Vec<i64> = vec![
        0, 10, 1000, 10000, 128, 256, 512, -10, -1000, -10000, -128, -256, -512,
    ];
    for num in nums {
        let data = varint::encode_varint(num);
        assert_eq!(
            num,
            varint::read_varint(&mut Reader::new(data.as_slice())).unwrap()
        );
    }
}

#[test]
fn fixint() {
    let nums: Vec<i64> = vec![-100, -10, 0, 10, 100];
    for &num in &nums {
        let data = fixint::encode_fix64(num);
        assert_eq!(
            num,
            fixint::read_fix64(&mut Reader::new(data.as_slice())).unwrap()
        )
    }

    for &num in &nums {
        let data = fixint::encode_fix32(num as i32);
        assert_eq!(
            num as i32,
            fixint::read_fix32(&mut Reader::new(data.as_slice())).unwrap()
        )
    }
}

#[test]
fn uvarint_trailing_bytes_stay_unread() {
    let data: Vec<u8> = vec![192, 196, 7, 1, 1];
    let mut reader = Reader::new(data.as_slice());
    assert_eq!(123456, varint::read_uvarint(&mut reader).unwrap());
    assert_eq!(2, reader.remaining());
    assert_eq!(1, reader.read_byte().unwrap());
    assert_eq!(1, reader.read_byte().unwrap());
    assert!(reader.is_end());
}

#[test]
fn uvarint_extremes_round_trip() {
    for num in [u64::MAX, u64::MAX - 1, 1u64 << 63, 0x7f, 0x80] {
        let data = varint::encode_uvarint(num);
        assert!(data.len() <= varint::MAX_VARINT_LENGTH);
        assert_eq!(
            num,
            varint::read_uvarint(&mut Reader::new(data.as_slice())).unwrap()
        );
    }
    for num in [i64::MIN, i64::MAX, -1i64, 1i64 << 62, -(1i64 << 62)] {
        let data = varint::encode_varint(num);
        assert!(data.len() <= varint::MAX_VARINT_LENGTH);
        assert_eq!(
            num,
            varint::read_varint(&mut Reader::new(data.as_slice())).unwrap()
        );
    }
}

#[test]
fn uvarint_overflow_detected() {
    let data: Vec<u8> = vec![0x80; 10];
    let r = varint::read_uvarint(&mut Reader::new(data.as_slice()));
    assert_eq!(r, Err(DecodeError::OverFlow64Bit));

    let data: Vec<u8> = vec![0xff; 12];
    let r = varint::read_uvarint(&mut Reader::new(data.as_slice()));
    assert_eq!(r, Err(DecodeError::OverFlow64Bit));
}

#[test]
fn uvarint_tenth_byte_overflow_detected() {
    // A tenth byte may only carry the one payload bit that still fits
    // below bit 64: anything more fails instead of truncating silently.
    let mut data: Vec<u8> = vec![0x80; 9];
    data.push(0x02);
    let r = varint::read_uvarint(&mut Reader::new(data.as_slice()));
    assert_eq!(r, Err(DecodeError::OverFlow64Bit));

    let mut data: Vec<u8> = vec![0x80; 9];
    data.push(0x7f);
    let r = varint::read_uvarint(&mut Reader::new(data.as_slice()));
    assert_eq!(r, Err(DecodeError::OverFlow64Bit));

    // A tenth byte of exactly one sets bit 63 and succeeds.
    let mut data: Vec<u8> = vec![0x80; 9];
    data.push(0x01);
    let r = varint::read_uvarint(&mut Reader::new(data.as_slice()));
    assert_eq!(r, Ok(1u64 << 63));
}

#[test]
fn uvarint_error_kinds() {
    let empty: Vec<u8> = vec![];
    assert_eq!(
        varint::read_uvarint(&mut Reader::new(empty.as_slice())),
        Err(DecodeError::EOF)
    );

    let truncated: Vec<u8> = vec![0x80, 0x80];
    assert_eq!(
        varint::read_uvarint(&mut Reader::new(truncated.as_slice())),
        Err(DecodeError::UnexpectedEof)
    );
}

#[test]
fn zigzag_minus_one_is_one() {
    assert_eq!(varint::encode_varint(-1), varint::encode_uvarint(1));
    assert_eq!(varint::encode_varint(-1), vec![0x01]);
    // The sign lives in the low bit of the zig-zag image.
    for num in [-3i64, -1, 0, 1, 2, 700, -700] {
        let data = varint::encode_varint(num);
        let raw = varint::read_uvarint(&mut Reader::new(data.as_slice())).unwrap();
        assert_eq!(num < 0, raw & 1 == 1);
    }
}

#[test]
fn fix32_little_endian_layout() {
    assert_eq!(fixint::encode_fix32(1), vec![1, 0, 0, 0]);
    assert_eq!(fixint::encode_fix32(-1), vec![0xff, 0xff, 0xff, 0xff]);
    assert_eq!(
        fixint::encode_fix64(0x0807060504030201),
        vec![1, 2, 3, 4, 5, 6, 7, 8]
    );
}

#[test]
fn fixint_eof() {
    let data: Vec<u8> = vec![1, 2];
    let mut reader = Reader::new(data.as_slice());
    assert_eq!(
        fixint::read_fix32(&mut reader),
        Err(DecodeError::UnexpectedEof)
    );
    // A failed fixed-width read leaves the cursor where it stood.
    assert_eq!(2, reader.remaining());
    assert_eq!(
        fixint::read_fix64(&mut reader),
        Err(DecodeError::UnexpectedEof)
    );
}

#[test]
fn reader_operations() {
    let data: Vec<u8> = vec![1, 2, 3, 4, 5, 6, 7, 8];
    let mut reader = Reader::new(data.as_slice());
    assert_eq!(8, reader.remaining());
    assert!(!reader.is_end());
    assert_eq!(1, reader.read_byte().unwrap());
    reader.skip(2).unwrap();
    assert_eq!(vec![4, 5], reader.read_bytes(2).unwrap().to_vec());
    let mut dst: Vec<u8> = vec![0, 0];
    reader.read_bytes_into(&mut dst).unwrap();
    assert_eq!(vec![6, 7], dst);
    assert_eq!(vec![8], reader.read_all_bytes().unwrap().to_vec());
    assert!(reader.is_end());
    assert_eq!(reader.read_byte(), Err(DecodeError::UnexpectedEof));
    assert_eq!(reader.skip(1), Err(DecodeError::UnexpectedEof));
    reader.reset();
    assert_eq!(8, reader.remaining());
    assert_eq!(1, reader.read_byte().unwrap());
}

#[test]
fn error_kinds_describe_themselves() {
    assert_eq!(DecodeError::OverFlow64Bit.describe(), "overflow 64bit");
    assert_eq!(DecodeError::OverFlow32Bit.describe(), "overflow 32bit");
    assert_eq!(DecodeError::UnknownWireType(6).describe(), "unknown wire type");
    assert_eq!(DecodeError::UnexpectedEof.describe(), "unexpected EOF");
    assert_eq!(DecodeError::EOF.describe(), "EOF");
    assert_eq!(DecodeError::Error.describe(), "unknown error");
}

#[test]
fn convert_error_replaces_the_error() {
    let ok: Result<u32, DecodeError> = Ok(7);
    assert_eq!(
        protobuf_lite::error::convert_error(ok, "gone"),
        Ok::<u32, &str>(7)
    );
    let err: Result<u32, DecodeError> = Err(DecodeError::UnexpectedEof);
    assert_eq!(
        protobuf_lite::error::convert_error(err, "gone"),
        Err::<u32, &str>("gone")
    );
}
