use clog_core::idx_cache::{check_header, encode_cache_file, split_cache_file, CacheFingerprint, HEADER_LEN};

fn fp() -> CacheFingerprint {
    CacheFingerprint { file_size: 200, mtime_ns: 1_234_567_890_000_000, pattern_hash: [7u8; 32] }
}

fn sample_body() -> Vec<u8> {
    let mut body = Vec::new();
    for off in [0u64, 12, 47, 60] {
        body.extend_from_slice(&off.to_le_bytes());
    }
    body.extend_from_slice(&200u64.to_le_bytes());
    body
}

#[test]
fn roundtrip_preserves_shape() {
    let body = sample_body();
    let file = encode_cache_file(&fp(), &body);
    assert_eq!(file.len(), HEADER_LEN + body.len());
    let back = split_cache_file(&file, &fp()).expect("expected cache hit");
    assert_eq!(back, body.as_slice());
}

#[test]
fn fingerprint_mismatch_is_miss() {
    let file = encode_cache_file(&fp(), &sample_body());
    let mut other = fp();
    other.file_size += 1;
    assert!(split_cache_file(&file, &other).is_none());
    let mut other = fp();
    other.mtime_ns += 1;
    assert!(split_cache_file(&file, &other).is_none());
    let mut other = fp();
    other.pattern_hash[0] ^= 1;
    assert!(split_cache_file(&file, &other).is_none());
}

#[test]
fn absent_file_is_miss() {
    assert!(split_cache_file(&[], &fp()).is_none());
}

#[test]
fn corrupted_magic_is_miss() {
    assert!(split_cache_file(b"NOPENOPENOPE", &fp()).is_none());
}

#[test]
fn header_layout_is_little_endian() {
    let f = CacheFingerprint { file_size: 0x0102, mtime_ns: -1, pattern_hash: [9u8; 32] };
    let file = encode_cache_file(&f, b"");
    assert_eq!(&file[0..6], b"CLOGIX");
    assert_eq!(&file[6..8], &[1, 0]);
    assert_eq!(&file[8..10], &[0, 0]);
    assert_eq!(&file[10..18], &[2, 1, 0, 0, 0, 0, 0, 0]);
    assert_eq!(&file[18..34], &[0xFF; 16]);
    assert_eq!(&file[34..66], &[9u8; 32]);
    assert!(check_header(&file, &f));
    let mut padded = file.clone();
    padded[8] = 0xAA;
    assert!(check_header(&padded, &f), "pad bytes are not looked at");
    let mut old_schema = file;
    old_schema[6] = 2;
    assert!(!check_header(&old_schema, &f));
}

#[test]
fn pattern_hash_is_blake3_of_the_source() {
    let f = CacheFingerprint::new(5, 6, "");
    let expected: [u8; 32] = [
        0xaf, 0x13, 0x49, 0xb9, 0xf5, 0xf9, 0xa1, 0xa6, 0xa0, 0x40, 0x4d, 0xea, 0x36, 0xdc, 0xc9, 0x49,
        0x9b, 0xcb, 0x25, 0xc9, 0xad, 0xc1, 0x12, 0xb7, 0xcc, 0x9a, 0x93, 0xca, 0xe4, 0x1f, 0x32, 0x62,
    ];
    assert_eq!(f.pattern_hash, expected);
    assert_eq!(f.file_size, 5);
    assert_eq!(f.mtime_ns, 6);
    assert_eq!(clog_core::idx_cache::pattern_hash(""), u64::from_le_bytes([0xaf, 0x13, 0x49, 0xb9, 0xf5, 0xf9, 0xa1, 0xa6]));
    assert_eq!(clog_core::idx_cache::path_hash_of(""), "af1349b9f5f9a1a6a0404dea36dcc949");
    assert_ne!(CacheFingerprint::new(5, 6, "a").pattern_hash, expected);
}
