use std::f32::consts::PI;
use tgph::tgph_format::{ElementArrayType, TGPH};

#[test]
fn deserialize_without_containers() {
    let bytes: Vec<u8> = vec![0x54, 0x47, 0x50, 0x48, 0x01, 0x00, 0x00];
    let tgph = TGPH::deserialize_from(&bytes).unwrap();

    assert_eq!(
        String::from_utf8(tgph.magic.to_le_bytes().to_vec()).unwrap(),
        "TGPH"
    );

    assert_eq!(tgph.version, 1);
    assert_eq!(tgph.containers.len(), 0);
}

#[test]
fn deserialize_one_empty_container() {
    let mut bytes: Vec<u8> = Vec::new();
    let container_name = "test";

    bytes.extend_from_slice(&[0x54, 0x47, 0x50, 0x48, 0x01, 0x01, 0x00]);
    bytes.extend_from_slice(&(container_name.len() as u8).to_le_bytes());
    bytes.extend_from_slice(container_name.as_bytes());
    bytes.extend_from_slice(&[1]); // Element Type
    bytes.extend_from_slice(&0_u32.to_le_bytes()); // Element Count

    let tgph = TGPH::deserialize_from(&bytes).unwrap();

    assert_eq!(
        String::from_utf8(tgph.magic.to_le_bytes().to_vec()).unwrap(),
        "TGPH"
    );

    assert_eq!(tgph.version, 1);
    assert_eq!(tgph.containers.len(), 1);

    assert_eq!(tgph.containers[0].name, container_name);
    if let ElementArrayType::U32(elements) = &tgph.containers[0].elements {
        assert_eq!(elements.len(), 0);
    } else {
        unreachable!();
    }
}

#[test]
fn deserialize_one_filled_container() {
    let mut bytes: Vec<u8> = Vec::new();
    let container_name = "bigredbarrow";
    bytes.extend_from_slice(&[0x54, 0x47, 0x50, 0x48, 0x01, 0x01, 0x00]);
    bytes.extend_from_slice(&(container_name.len() as u8).to_le_bytes());
    bytes.extend_from_slice(container_name.as_bytes());
    bytes.extend_from_slice(&[1]); // Element Type
    bytes.extend_from_slice(&4_u32.to_le_bytes()); // Element Count
    bytes.extend_from_slice(&12_u32.to_le_bytes());
    bytes.extend_from_slice(&34_u32.to_le_bytes());
    bytes.extend_from_slice(&56_u32.to_le_bytes());
    bytes.extend_from_slice(&((1 << 31) as u32).to_le_bytes());

    let tgph = TGPH::deserialize_from(&bytes).unwrap();

    assert_eq!(
        String::from_utf8(tgph.magic.to_le_bytes().to_vec()).unwrap(),
        "TGPH"
    );

    assert_eq!(tgph.version, 1);
    assert_eq!(tgph.containers.len(), 1);

    assert_eq!(tgph.containers[0].name, container_name);
    if let ElementArrayType::U32(elements) = &tgph.containers[0].elements {
        assert_eq!(elements.len(), 4);
        assert_eq!(elements[0], 12);
        assert_eq!(elements[1], 34);
        assert_eq!(elements[2], 56);
        assert_eq!(elements[3], 1 << 31);
    } else {
        unreachable!();
    }
}

#[test]
fn deserialize_multiple_containers_different_types() {
    let mut bytes: Vec<u8> = Vec::new();
    let container_name1 = "quick";
    let container_name2 = "red fox";
    let container_name3 = "jumped over THE LAZY";
    bytes.extend_from_slice(&[0x54, 0x47, 0x50, 0x48, 0x01, 0x03, 0x00]);
    bytes.extend_from_slice(&(container_name1.len() as u8).to_le_bytes());
    bytes.extend_from_slice(container_name1.as_bytes());
    bytes.extend_from_slice(&[1]); // Element Type
    bytes.extend_from_slice(&4_u32.to_le_bytes()); // Element Count
    bytes.extend_from_slice(&12_u32.to_le_bytes());
    bytes.extend_from_slice(&34_u32.to_le_bytes());
    bytes.extend_from_slice(&56_u32.to_le_bytes());
    bytes.extend_from_slice(&((1 << 31) as u32).to_le_bytes());
    bytes.extend_from_slice(&(container_name2.len() as u8).to_le_bytes());
    bytes.extend_from_slice(container_name2.as_bytes());
    bytes.extend_from_slice(&[2]); // Element Type
    bytes.extend_from_slice(&3_u32.to_le_bytes()); // Element Count
    bytes.extend_from_slice(&PI.to_le_bytes());
    bytes.extend_from_slice(&1.618_f32.to_le_bytes());
    bytes.extend_from_slice(&0.3_f32.to_le_bytes());
    bytes.extend_from_slice(&(container_name3.len() as u8).to_le_bytes());
    bytes.extend_from_slice(container_name3.as_bytes());
    bytes.extend_from_slice(&[3]); // Element Type
    bytes.extend_from_slice(&3_u32.to_le_bytes()); // Element Count
    bytes.extend_from_slice(&5_u8.to_le_bytes());
    bytes.extend_from_slice("lorem".as_bytes());
    bytes.extend_from_slice(&5_u8.to_le_bytes());
    bytes.extend_from_slice("foxem".as_bytes());
    bytes.extend_from_slice(&23_u8.to_le_bytes());
    bytes.extend_from_slice("verylongstringemlatinem".as_bytes());

    let tgph = TGPH::deserialize_from(&bytes).unwrap();

    assert_eq!(
        String::from_utf8(tgph.magic.to_le_bytes().to_vec()).unwrap(),
        "TGPH"
    );

    assert_eq!(tgph.version, 1);
    assert_eq!(tgph.containers.len(), 3);

    assert_eq!(tgph.containers[0].name, container_name1);
    if let ElementArrayType::U32(elements) = &tgph.containers[0].elements {
        assert_eq!(elements.len(), 4);
        assert_eq!(elements[0], 12);
        assert_eq!(elements[1], 34);
        assert_eq!(elements[2], 56);
        assert_eq!(elements[3], 1 << 31);
    } else {
        unreachable!();
    }

    assert_eq!(tgph.containers[1].name, container_name2);
    if let ElementArrayType::FLOAT32(elements) = &tgph.containers[1].elements {
        assert_eq!(elements.len(), 3);
        assert_eq!(f32::from_bits(elements[0].to_bits()), PI);
        assert_eq!(f32::from_bits(elements[1].to_bits()), 1.618);
        assert_eq!(f32::from_bits(elements[2].to_bits()), 0.3);
    } else {
        unreachable!();
    }

    assert_eq!(tgph.containers[2].name, container_name3);
    if let ElementArrayType::STRING(elements) = &tgph.containers[2].elements {
        assert_eq!(elements.len(), 3);
        assert_eq!(elements[0], "lorem");
        assert_eq!(elements[1], "foxem");
        assert_eq!(elements[2], "verylongstringemlatinem");
    } else {
        unreachable!();
    }
}

#[test]
fn deserialize_long_string() {
    let mut bytes: Vec<u8> = Vec::new();
    let container_name = "88g8g8g8g01023-123-13-12-31-23";
    bytes.extend_from_slice(&[0x54, 0x47, 0x50, 0x48, 0x01, 0x01, 0x00]);
    bytes.extend_from_slice(&0xff_u8.to_le_bytes());
    bytes.extend_from_slice(&(container_name.len() as u16).to_le_bytes());
    bytes.extend_from_slice(container_name.as_bytes());
    bytes.extend_from_slice(&[3]); // Element Type
    bytes.extend_from_slice(&2_u32.to_le_bytes()); // Element Count
    bytes.extend_from_slice(&0xff_u8.to_le_bytes());
    bytes.extend_from_slice(&1000_u16.to_le_bytes());
    bytes.extend_from_slice("b".repeat(1000).as_bytes());
    bytes.extend_from_slice(&0xff_u8.to_le_bytes());
    bytes.extend_from_slice(&1024_u16.to_le_bytes());
    bytes.extend_from_slice("+".repeat(1024).as_bytes());

    let tgph = TGPH::deserialize_from(&bytes).unwrap();

    assert_eq!(
        String::from_utf8(tgph.magic.to_le_bytes().to_vec()).unwrap(),
        "TGPH"
    );

    assert_eq!(tgph.version, 1);
    assert_eq!(tgph.containers.len(), 1);

    assert_eq!(tgph.containers[0].name, container_name);
    if let ElementArrayType::STRING(elements) = &tgph.containers[0].elements {
        assert_eq!(elements.len(), 2);
        assert_eq!(elements[0], "b".repeat(1000));
        assert_eq!(elements[1], "+".repeat(1024));
    } else {
        unreachable!();
    }
}
