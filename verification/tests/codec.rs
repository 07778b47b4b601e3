use tgph::layout::{DecodeError, EncodeError};
use tgph::tgph_format::{ElementArrayType, Float32, TGPHContainer, TGPH};
use tgph::wire::{write_u16_le, write_u32_le};

fn encoded_string(s: &str) -> Vec<u8> {
    let mut out = Vec::new();
    TGPHContainer::serialize_string_into(&mut out, s).unwrap();
    out
}

#[test]
fn u16_is_written_low_byte_first() {
    let mut out = vec![9u8];
    write_u16_le(&mut out, 0x1234);
    write_u16_le(&mut out, 0);
    write_u16_le(&mut out, 0xffff);
    assert_eq!(out, vec![9, 0x34, 0x12, 0, 0, 0xff, 0xff]);
}

#[test]
fn u32_is_written_low_byte_first() {
    let mut out = Vec::new();
    write_u32_le(&mut out, 0x1234_5678);
    write_u32_le(&mut out, 1 << 31);
    write_u32_le(&mut out, u32::MAX);
    assert_eq!(
        out,
        vec![0x78, 0x56, 0x34, 0x12, 0, 0, 0, 0x80, 0xff, 0xff, 0xff, 0xff]
    );
}

#[test]
fn empty_store_is_seven_bytes() {
    let mut out = Vec::new();
    TGPH::new(5).serialize_into(&mut out).unwrap();
    assert_eq!(out.len(), 7);
    assert_eq!(out, vec![b'T', b'G', b'P', b'H', 1, 0, 0]);
}

#[test]
fn serialize_appends_to_what_the_stream_holds() {
    let mut out = vec![0xaa, 0xbb];
    TGPH::default().serialize_into(&mut out).unwrap();
    assert_eq!(out, vec![0xaa, 0xbb, b'T', b'G', b'P', b'H', 1, 0, 0]);
}

#[test]
fn empty_string_is_one_zero_byte() {
    assert_eq!(encoded_string(""), vec![0]);
    assert_eq!(
        TGPHContainer::deserialize_string_from(&[0, 7, 7]),
        Ok((String::new(), 1))
    );
}

#[test]
fn string_of_254_bytes_has_one_length_byte() {
    let s = "k".repeat(254);
    let bytes = encoded_string(&s);
    assert_eq!(bytes.len(), 255);
    assert_eq!(bytes[0], 254);
    assert_eq!(&bytes[1..], s.as_bytes());
    assert_eq!(
        TGPHContainer::deserialize_string_from(&bytes),
        Ok((s, 255))
    );
}

#[test]
fn string_of_255_bytes_is_escaped() {
    let s = "k".repeat(255);
    let bytes = encoded_string(&s);
    assert_eq!(bytes.len(), 258);
    assert_eq!(&bytes[..3], &[0xff, 0xff, 0x00]);
    assert_eq!(&bytes[3..], s.as_bytes());
    assert_eq!(
        TGPHContainer::deserialize_string_from(&bytes),
        Ok((s, 258))
    );
}

#[test]
fn string_of_1024_bytes_is_escaped() {
    let s = "z".repeat(1024);
    let bytes = encoded_string(&s);
    assert_eq!(bytes.len(), 1027);
    assert_eq!(&bytes[..3], &[0xff, 0x00, 0x04]);
    assert_eq!(&bytes[3..], s.as_bytes());
    assert_eq!(
        TGPHContainer::deserialize_string_from(&bytes),
        Ok((s, 1027))
    );
}

#[test]
fn string_length_counts_bytes_not_chars() {
    let s = "é".repeat(127);
    assert_eq!(s.len(), 254);
    assert_eq!(encoded_string(&s)[0], 254);
    let t = "é".repeat(128);
    let bytes = encoded_string(&t);
    assert_eq!(&bytes[..3], &[0xff, 0x00, 0x01]);
    assert_eq!(
        TGPHContainer::deserialize_string_from(&bytes),
        Ok((t, 259))
    );
}

#[test]
fn longest_string_that_fits() {
    let s = "m".repeat(65535);
    let bytes = encoded_string(&s);
    assert_eq!(bytes.len(), 65538);
    assert_eq!(&bytes[..3], &[0xff, 0xff, 0xff]);
    assert_eq!(
        TGPHContainer::deserialize_string_from(&bytes),
        Ok((s, 65538))
    );
}

#[test]
fn string_too_long_is_refused_and_nothing_written() {
    let s = "m".repeat(65536);
    let mut out = vec![1, 2, 3];
    assert_eq!(
        TGPHContainer::serialize_string_into(&mut out, &s),
        Err(EncodeError::StringTooLong)
    );
    assert_eq!(out, vec![1, 2, 3]);
}

#[test]
fn escaped_short_length_is_read_too() {
    let bytes = [0xff, 0x02, 0x00, b'h', b'i', b'!'];
    assert_eq!(
        TGPHContainer::deserialize_string_from(&bytes),
        Ok(("hi".to_string(), 5))
    );
}

#[test]
fn truncated_string_is_an_error() {
    assert_eq!(
        TGPHContainer::deserialize_string_from(&[]),
        Err(DecodeError::UnexpectedEof)
    );
    assert_eq!(
        TGPHContainer::deserialize_string_from(&[3, b'a', b'b']),
        Err(DecodeError::UnexpectedEof)
    );
    assert_eq!(
        TGPHContainer::deserialize_string_from(&[0xff, 0x01]),
        Err(DecodeError::UnexpectedEof)
    );
    assert_eq!(
        TGPHContainer::deserialize_string_from(&[0xff, 0x00, 0x01, b'a']),
        Err(DecodeError::UnexpectedEof)
    );
}

#[test]
fn invalid_utf8_is_an_error() {
    assert_eq!(
        TGPHContainer::deserialize_string_from(&[2, 0xc3, 0x28]),
        Err(DecodeError::InvalidUtf8)
    );
    assert_eq!(
        TGPHContainer::deserialize_string_from(&[1, 0x80]),
        Err(DecodeError::InvalidUtf8)
    );
    assert_eq!(
        TGPHContainer::deserialize_string_from(&[3, 0xed, 0xa0, 0x80]),
        Err(DecodeError::InvalidUtf8)
    );
}

#[test]
fn container_is_written_and_read_back() {
    let container = TGPHContainer {
        name: "temp".into(),
        elements: ElementArrayType::U32(vec![1, 0x0102_0304]),
    };
    let mut out = Vec::new();
    container.serialize_into(&mut out).unwrap();
    assert_eq!(
        out,
        vec![4, b't', b'e', b'm', b'p', 1, 2, 0, 0, 0, 1, 0, 0, 0, 4, 3, 2, 1]
    );
    out.extend_from_slice(&[0xee, 0xee]);
    let (back, taken) = TGPHContainer::deserialize_from(&out).unwrap();
    assert_eq!(taken, 18);
    assert_eq!(back.name, "temp");
    match back.elements {
        ElementArrayType::U32(v) => assert_eq!(v, vec![1, 0x0102_0304]),
        _ => panic!("not numbers"),
    }
}

#[test]
fn float_is_written_as_its_bits() {
    let container = TGPHContainer {
        name: "f".into(),
        elements: ElementArrayType::FLOAT32(vec![Float32::from_bits(1.0f32.to_bits())]),
    };
    let mut out = Vec::new();
    container.serialize_into(&mut out).unwrap();
    assert_eq!(out, vec![1, b'f', 2, 1, 0, 0, 0, 0x00, 0x00, 0x80, 0x3f]);
}

#[test]
fn nan_payload_survives_the_round_trip() {
    let mut tgph = TGPH::new(4);
    tgph.append(Float32::from_bits(0x7fc0_1234), "f");
    tgph.append(Float32::from_bits(0x8000_0000), "f");
    let mut out = Vec::new();
    tgph.serialize_into(&mut out).unwrap();
    let back = TGPH::deserialize_from(&out).unwrap();
    match &back.containers[0].elements {
        ElementArrayType::FLOAT32(v) => {
            assert_eq!(v.len(), 2);
            assert_eq!(v[0].to_bits(), 0x7fc0_1234);
            assert_eq!(v[1].to_bits(), 0x8000_0000);
        }
        _ => panic!("not floats"),
    }
}

#[test]
fn round_trip_keeps_everything_but_the_limit() {
    let mut tgph = TGPH::new(3);
    tgph.magic = 0x0a0b_0c0d;
    tgph.version = 9;
    tgph.append(5u32, "numbers");
    tgph.append(6u32, "numbers");
    tgph.append("grüße".to_string(), "words");
    tgph.append("".to_string(), "words");
    tgph.append("w".repeat(300), "words");
    tgph.append(Float32::from_bits(2.5f32.to_bits()), "floats");
    tgph.replace(Vec::<u32>::new(), "nothing");

    let mut out = Vec::new();
    tgph.serialize_into(&mut out).unwrap();
    let back = TGPH::deserialize_from(&out).unwrap();

    assert_eq!(back.magic, 0x0a0b_0c0d);
    assert_eq!(back.version, 9);
    assert_eq!(back.entry_limit, 1000);
    assert_eq!(back.containers.len(), 4);
    let names: Vec<&str> = back.containers.iter().map(|c| c.name.as_str()).collect();
    assert_eq!(names, vec!["numbers", "words", "floats", "nothing"]);
    match &back.containers[0].elements {
        ElementArrayType::U32(v) => assert_eq!(v, &vec![5, 6]),
        _ => panic!("not numbers"),
    }
    match &back.containers[1].elements {
        ElementArrayType::STRING(v) => {
            assert_eq!(v, &vec!["grüße".to_string(), "".to_string(), "w".repeat(300)])
        }
        _ => panic!("not strings"),
    }
    match &back.containers[2].elements {
        ElementArrayType::FLOAT32(v) => assert_eq!(v, &vec![Float32::from_bits(0x4020_0000)]),
        _ => panic!("not floats"),
    }
    match &back.containers[3].elements {
        ElementArrayType::U32(v) => assert!(v.is_empty()),
        _ => panic!("not numbers"),
    }

    let mut again = Vec::new();
    back.serialize_into(&mut again).unwrap();
    assert_eq!(again, out);
}

#[test]
fn other_version_is_read_the_same() {
    let bytes = vec![
        b'T', b'G', b'P', b'H', 200, 1, 0, 1, b'v', 1, 1, 0, 0, 0, 42, 0, 0, 0,
    ];
    let tgph = TGPH::deserialize_from(&bytes).unwrap();
    assert_eq!(tgph.version, 200);
    assert_eq!(tgph.containers.len(), 1);
    assert_eq!(tgph.containers[0].name, "v");
    match &tgph.containers[0].elements {
        ElementArrayType::U32(v) => assert_eq!(v, &vec![42]),
        _ => panic!("not numbers"),
    }
}

#[test]
fn other_magic_is_read_back() {
    let bytes = vec![1, 2, 3, 4, 1, 0, 0];
    let tgph = TGPH::deserialize_from(&bytes).unwrap();
    assert_eq!(tgph.magic, 0x0403_0201);
}

#[test]
fn bytes_after_the_store_are_not_read() {
    let bytes = vec![b'T', b'G', b'P', b'H', 1, 0, 0, 0xde, 0xad];
    let tgph = TGPH::deserialize_from(&bytes).unwrap();
    assert_eq!(tgph.containers.len(), 0);
}

#[test]
fn truncated_store_is_an_error() {
    let mut tgph = TGPH::new(4);
    tgph.append(1u32, "n");
    tgph.append("text".to_string(), "s");
    let mut out = Vec::new();
    tgph.serialize_into(&mut out).unwrap();
    assert!(TGPH::deserialize_from(&out).is_ok());
    for cut in 0..out.len() {
        assert_eq!(
            TGPH::deserialize_from(&out[..cut]).err(),
            Some(DecodeError::UnexpectedEof),
            "cut at {}",
            cut
        );
    }
}

#[test]
fn unknown_tag_is_an_error() {
    let bytes = vec![b'T', b'G', b'P', b'H', 1, 1, 0, 1, b'v', 7, 0, 0, 0, 0];
    assert_eq!(
        TGPH::deserialize_from(&bytes).err(),
        Some(DecodeError::UnknownTag(7))
    );
    let zero = vec![b'T', b'G', b'P', b'H', 1, 1, 0, 1, b'v', 0, 0, 0, 0, 0];
    assert_eq!(
        TGPH::deserialize_from(&zero).err(),
        Some(DecodeError::UnknownTag(0))
    );
}

#[test]
fn unknown_tag_without_a_count_is_a_truncation() {
    let bytes = vec![b'T', b'G', b'P', b'H', 1, 1, 0, 1, b'v', 7, 0, 0];
    assert_eq!(
        TGPH::deserialize_from(&bytes).err(),
        Some(DecodeError::UnexpectedEof)
    );
}

#[test]
fn invalid_utf8_in_a_name_is_an_error() {
    let bytes = vec![b'T', b'G', b'P', b'H', 1, 1, 0, 1, 0xff, 1, 0, 0, 0, 0];
    assert_eq!(
        TGPH::deserialize_from(&bytes).err(),
        Some(DecodeError::InvalidUtf8)
    );
    let escaped = vec![
        b'T', b'G', b'P', b'H', 1, 1, 0, 0xff, 1, 0, 0xfe, 1, 0, 0, 0, 0,
    ];
    assert_eq!(
        TGPH::deserialize_from(&escaped).err(),
        Some(DecodeError::InvalidUtf8)
    );
}

#[test]
fn invalid_utf8_in_a_sample_is_an_error() {
    let bytes = vec![
        b'T', b'G', b'P', b'H', 1, 1, 0, 1, b's', 3, 2, 0, 0, 0, 1, b'a', 1, 0xc0,
    ];
    assert_eq!(
        TGPH::deserialize_from(&bytes).err(),
        Some(DecodeError::InvalidUtf8)
    );
}

#[test]
fn too_many_containers_is_refused() {
    let mut tgph = TGPH::default();
    for _ in 0..65535 {
        tgph.add_container(TGPHContainer {
            name: String::new(),
            elements: ElementArrayType::U32(Vec::new()),
        });
    }
    assert_eq!(tgph.encode_fault(), None);
    let mut out = Vec::new();
    tgph.serialize_into(&mut out).unwrap();
    assert_eq!(out.len(), 7 + 65535 * 6);
    assert_eq!(&out[5..7], &[0xff, 0xff]);
    assert_eq!(TGPH::deserialize_from(&out).unwrap().containers.len(), 65535);

    tgph.add_container(TGPHContainer {
        name: String::new(),
        elements: ElementArrayType::U32(Vec::new()),
    });
    assert_eq!(tgph.encode_fault(), Some(EncodeError::TooManyContainers));
    let mut kept = vec![5u8];
    assert_eq!(
        tgph.serialize_into(&mut kept),
        Err(EncodeError::TooManyContainers)
    );
    assert_eq!(kept, vec![5u8]);
}

#[test]
fn long_name_is_refused_by_the_store() {
    let mut tgph = TGPH::default();
    tgph.append(1u32, "fine");
    tgph.append(1u32, &"n".repeat(65536));
    assert_eq!(tgph.containers[0].encode_fault(), None);
    assert_eq!(
        tgph.containers[1].encode_fault(),
        Some(EncodeError::StringTooLong)
    );
    assert_eq!(tgph.encode_fault(), Some(EncodeError::StringTooLong));
    let mut out = Vec::new();
    assert_eq!(
        tgph.serialize_into(&mut out),
        Err(EncodeError::StringTooLong)
    );
    assert!(out.is_empty());
}

#[test]
fn long_sample_is_refused_by_the_column() {
    let container = TGPHContainer {
        name: "s".into(),
        elements: ElementArrayType::STRING(vec!["ok".into(), "x".repeat(70000), "ok".into()]),
    };
    assert_eq!(container.encode_fault(), Some(EncodeError::StringTooLong));
    let mut out = vec![1u8];
    assert_eq!(
        container.serialize_into(&mut out),
        Err(EncodeError::StringTooLong)
    );
    assert_eq!(out, vec![1u8]);
}
