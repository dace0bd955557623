use immortal::nn::error::NnError;
use immortal::nn::format::{
    align_up, crc32, magic, Crc32, TensorEntry, HEADER_SIZE, INDEX_ENTRY_SIZE, MAX_NAME_LEN,
    TENSOR_ALIGNMENT, VERSION,
};

#[test]
fn crc32_empty_input() {
    assert_eq!(crc32(b""), 0);
}

#[test]
fn crc32_known_vector_123456789() {
    assert_eq!(crc32(b"123456789"), 0xCBF4_3926);
}

#[test]
fn crc32_streaming_matches_oneshot() {
    let data = b"the quick brown fox jumps over the lazy dog";
    let oneshot = crc32(data);
    let mut s = Crc32::new();
    s.update(&data[..10]);
    s.update(&data[10..25]);
    s.update(&data[25..]);
    assert_eq!(s.finalize(), oneshot);
}

#[test]
fn crc32_more_known_vectors() {
    assert_eq!(crc32(b"a"), 0xE8B7_BE43);
    assert_eq!(
        crc32(b"The quick brown fox jumps over the lazy dog"),
        0x414F_A339
    );
}

#[test]
fn crc32_default_builder_is_fresh() {
    let mut s = Crc32::default();
    s.update(b"123456789");
    assert_eq!(s.finalize(), 0xCBF4_3926);
    assert_eq!(Crc32::new().finalize(), 0);
}

#[test]
fn crc32_detects_single_byte_change() {
    let a = crc32(b"sovereign");
    let b = crc32(b"sovereigm");
    assert_ne!(a, b);
}

#[test]
fn magic_is_ten_bytes() {
    assert_eq!(magic().len(), 10);
    assert_eq!(magic(), b"SOVEREIGN\0".to_vec());
}

#[test]
fn header_and_index_sizes_are_fixed() {
    assert_eq!(HEADER_SIZE, 64);
    assert_eq!(INDEX_ENTRY_SIZE, 128);
    assert_eq!(MAX_NAME_LEN, 64);
    assert_eq!(TENSOR_ALIGNMENT, 64);
    assert_eq!(VERSION, 1);
}

#[test]
fn align_up_works() {
    assert_eq!(align_up(0, 64), 0);
    assert_eq!(align_up(1, 64), 64);
    assert_eq!(align_up(64, 64), 64);
    assert_eq!(align_up(65, 64), 128);
}

#[test]
fn align_up_other_alignments() {
    assert_eq!(align_up(7, 1), 7);
    assert_eq!(align_up(10, 3), 12);
    assert_eq!(align_up(64 + 128, 64), 192);
}

fn sample_entry(name: &str) -> TensorEntry {
    TensorEntry {
        name: name.to_string(),
        dtype: 0,
        ndim: 3,
        shape: [2, 3, 4, 1],
        data_offset: 0x0102_0304_0506_0708,
        data_length: 96,
        checksum: 0xDEAD_BEEF,
    }
}

#[test]
fn index_entry_roundtrip() {
    let e = sample_entry("layer.weight");
    let bytes = e.to_bytes();
    assert_eq!(bytes.len(), INDEX_ENTRY_SIZE);
    let back = TensorEntry::from_bytes(&bytes).expect("parse");
    assert_eq!(back.name, "layer.weight");
    assert_eq!(back.dtype, 0);
    assert_eq!(back.ndim, 3);
    assert_eq!(back.shape, [2, 3, 4, 1]);
    assert_eq!(back.data_offset, 0x0102_0304_0506_0708);
    assert_eq!(back.data_length, 96);
    assert_eq!(back.checksum, 0xDEAD_BEEF);
}

#[test]
fn index_entry_layout_is_little_endian() {
    let bytes = sample_entry("w").to_bytes();
    assert_eq!(bytes[0], b'w');
    assert!(bytes[1..64].iter().all(|&b| b == 0));
    assert_eq!(bytes[65], 3);
    assert_eq!(&bytes[68..72], &2u32.to_le_bytes());
    assert_eq!(&bytes[84..92], &0x0102_0304_0506_0708u64.to_le_bytes());
    assert_eq!(&bytes[100..104], &0xDEAD_BEEFu32.to_le_bytes());
    assert!(bytes[104..].iter().all(|&b| b == 0));
}

#[test]
fn index_entry_long_name_is_cut() {
    let long = "x".repeat(70);
    let bytes = sample_entry(&long).to_bytes();
    let back = TensorEntry::from_bytes(&bytes).expect("parse");
    assert_eq!(back.name, "x".repeat(64));
}

#[test]
fn index_entry_empty_name_rejected() {
    let bytes = sample_entry("").to_bytes();
    match TensorEntry::from_bytes(&bytes) {
        Err(NnError::Format(m)) => assert_eq!(m, "empty tensor name"),
        other => panic!("unexpected: {other:?}"),
    }
}

#[test]
fn index_entry_invalid_utf8_rejected() {
    let mut bytes = sample_entry("ab").to_bytes();
    bytes[1] = 0xFF;
    match TensorEntry::from_bytes(&bytes) {
        Err(NnError::Format(m)) => {
            assert!(m.starts_with("tensor name not UTF-8: "));
            let e = std::str::from_utf8(&[b'a', 0xFF]).unwrap_err();
            assert_eq!(m, format!("tensor name not UTF-8: {e}"));
        }
        other => panic!("unexpected: {other:?}"),
    }
}
