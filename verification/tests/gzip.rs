use tgph::gzip::{compress, decompress, written_part, GzipError};
use tgph::tgph_format::TGPH;

/// A gzip member that holds `data` in one stored block.
fn stored_gzip(data: &[u8], stated_size: u32) -> Vec<u8> {
    let mut gz = vec![0x1f, 0x8b, 0x08, 0x00, 0, 0, 0, 0, 0x00, 0xff];
    gz.push(0x01);
    gz.extend_from_slice(&(data.len() as u16).to_le_bytes());
    gz.extend_from_slice(&(!(data.len() as u16)).to_le_bytes());
    gz.extend_from_slice(data);
    gz.extend_from_slice(&libdeflater::crc32(data).to_le_bytes());
    gz.extend_from_slice(&stated_size.to_le_bytes());
    gz
}

#[test]
fn decompress_reads_a_stored_block() {
    let gz = stored_gzip(b"hello world", 11);
    assert_eq!(decompress(&gz), Ok(b"hello world".to_vec()));
}

#[test]
fn decompress_reads_an_empty_member() {
    let gz = stored_gzip(b"", 0);
    assert_eq!(decompress(&gz), Ok(Vec::new()));
}

#[test]
fn decompress_refuses_short_data() {
    assert_eq!(decompress(&[]), Err(GzipError::TooShort));
    assert_eq!(
        decompress(&[0x1f, 0x8b, 0x08, 0, 0, 0, 0, 0, 0]),
        Err(GzipError::TooShort)
    );
}

#[test]
fn decompress_refuses_what_is_not_gzip() {
    assert_eq!(
        decompress(&[1, 2, 3, 4, 5, 6, 7, 8, 9, 10, 4, 0, 0, 0]),
        Err(GzipError::BadData)
    );
}

#[test]
fn decompress_refuses_a_bad_checksum() {
    let mut gz = stored_gzip(b"hello world", 11);
    let at = gz.len() - 8;
    gz[at] ^= 0xff;
    assert_eq!(decompress(&gz), Err(GzipError::BadData));
}

#[test]
fn decompress_goes_by_the_stated_size() {
    let gz = stored_gzip(b"hello world", 5);
    assert_eq!(decompress(&gz), Err(GzipError::InsufficientSpace));
}

#[test]
fn compress_then_decompress_gives_the_data_back() {
    let data: Vec<u8> = (0..5000u32).map(|i| (i * 7 % 251) as u8).collect();
    let gz = compress(&data).unwrap();
    assert_eq!(&gz[..3], &[0x1f, 0x8b, 0x08]);
    assert_eq!(&gz[gz.len() - 4..], &5000u32.to_le_bytes());
    assert_ne!(gz, data);
    assert_eq!(decompress(&gz), Ok(data));
}

#[test]
fn compress_of_nothing_is_a_gzip_member() {
    let gz = compress(&[]).unwrap();
    assert!(gz.len() >= 18);
    assert_eq!(&gz[..2], &[0x1f, 0x8b]);
    assert_eq!(decompress(&gz), Ok(Vec::new()));
}

#[test]
fn compress_shrinks_repetitive_data() {
    let data = vec![b'a'; 100_000];
    let gz = compress(&data).unwrap();
    assert!(gz.len() < 1000);
    assert_eq!(decompress(&gz), Ok(data));
}

#[test]
fn written_part_is_what_the_call_counted() {
    assert_eq!(written_part(vec![1, 2, 3, 4], Ok(2)), Ok(vec![1, 2]));
    assert_eq!(written_part(vec![1, 2, 3, 4], Ok(4)), Ok(vec![1, 2, 3, 4]));
    assert_eq!(written_part(vec![1, 2, 3, 4], Ok(0)), Ok(vec![]));
    assert_eq!(written_part(vec![1, 2], Ok(9)), Ok(vec![1, 2]));
    assert_eq!(
        written_part(vec![1, 2], Err(GzipError::BadData)),
        Err(GzipError::BadData)
    );
    assert_eq!(
        written_part(vec![], Err(GzipError::InsufficientSpace)),
        Err(GzipError::InsufficientSpace)
    );
}

#[test]
fn stored_file_survives_the_gzip_wrapping() {
    let mut tgph = TGPH::new(4);
    for v in 0u32..10 {
        tgph.append(v, "Unix timestamp");
        tgph.append(format!("host-{}", v), "Hostname");
    }
    let mut bytes = Vec::new();
    tgph.serialize_into(&mut bytes).unwrap();
    let gz = compress(&bytes).unwrap();
    let plain = decompress(&gz).unwrap();
    assert_eq!(plain, bytes);
    let back = TGPH::deserialize_from(&plain).unwrap();
    assert_eq!(back.recorded_points(), 4);
    assert_eq!(back.containers[1].name, "Hostname");
}
