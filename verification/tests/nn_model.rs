use immortal::nn::blocks::Activation;
use immortal::nn::error::NnError;
use immortal::nn::format::{
    check_entry, check_unique_names, crc32, Header, TensorEntry, DTYPE_INT8, HEADER_SIZE,
    INDEX_ENTRY_SIZE,
};
use immortal::nn::heads::parse_label_map;
use immortal::nn::metadata::{parse_metadata_bytes, Metadata};
use immortal::nn::tensor::Shape;
use immortal::nn::writer::SovereignWriter;
use immortal::nn::xlm_roberta::{
    metadata_activation, metadata_usize, metadata_usize_or, XlmRobertaConfig,
};

fn entry(name: &str, dtype: u8, ndim: u8, shape: [u32; 4], len: u64) -> TensorEntry {
    TensorEntry {
        name: name.to_string(),
        dtype,
        ndim,
        shape,
        data_offset: 0,
        data_length: len,
        checksum: 0,
    }
}

#[test]
fn header_roundtrip_and_errors() {
    let h = Header {
        num_tensors: 3,
        metadata_offset: 1024,
        metadata_length: 77,
    };
    let bytes = h.to_bytes();
    assert_eq!(bytes.len(), HEADER_SIZE);
    assert_eq!(&bytes[..10], b"SOVEREIGN\0");
    assert_eq!(Header::parse(&bytes).unwrap(), h);

    let mut bad = bytes.clone();
    bad[0] = b'X';
    match Header::parse(&bad) {
        Err(NnError::Format(m)) => assert_eq!(m, "bad magic (not a .sovereign file)"),
        other => panic!("unexpected: {other:?}"),
    }
    let mut v2 = bytes.clone();
    v2[10] = 2;
    match Header::parse(&v2) {
        Err(NnError::Format(m)) => assert_eq!(m, "unsupported version 2 (expected 1)"),
        other => panic!("unexpected: {other:?}"),
    }
}

#[test]
fn duplicate_names_are_reported() {
    let es = vec![
        entry("a", 0, 2, [1, 1, 1, 1], 4),
        entry("b", 0, 2, [1, 1, 1, 1], 4),
        entry("a", 0, 2, [1, 1, 1, 1], 4),
    ];
    match check_unique_names(&es) {
        Err(NnError::Format(m)) => assert_eq!(m, "duplicate tensor name: \"a\""),
        other => panic!("unexpected: {other:?}"),
    }
    assert!(check_unique_names(&es[..2]).is_ok());
}

#[test]
fn entry_checks() {
    let (shape, bytes) = check_entry(&entry("w", 0, 2, [2, 3, 1, 1], 24)).unwrap();
    assert_eq!(shape.dims(), &[2, 3]);
    assert_eq!(bytes, 24);
    match check_entry(&entry("w", DTYPE_INT8, 2, [2, 3, 1, 1], 6)) {
        Err(NnError::Format(m)) => {
            assert_eq!(m, "tensor \"w\": unsupported dtype 3 (v1 supports f32 only)")
        }
        other => panic!("unexpected: {other:?}"),
    }
    match check_entry(&entry("w", 0, 2, [2, 3, 1, 1], 20)) {
        Err(NnError::Format(m)) => {
            assert_eq!(m, "tensor \"w\": data_length 20 != expected 24 (shape [2, 3])")
        }
        other => panic!("unexpected: {other:?}"),
    }
    assert!(check_entry(&entry("w", 0, 5, [2, 3, 1, 1], 24)).is_err());
    assert_eq!(
        check_entry(&entry("w", 0, 5, [2, 3, 1, 1], 24)).unwrap_err(),
        NnError::UnsupportedRank { rank: 5 }
    );
    assert_eq!(
        check_entry(&entry("w", 0, 2, [2, 0, 1, 1], 0)).unwrap_err(),
        NnError::Format("shape dim 1 is zero".into())
    );
    assert_eq!(
        check_entry(&entry("w", 0, 2, [2, 3, 4, 1], 24)).unwrap_err(),
        NnError::Format("inactive shape dim 2 must be 1, got 4".into())
    );
}

#[test]
fn writer_layout_reads_back() {
    let mut w = SovereignWriter::new();
    let data: Vec<u8> = (0u8..24).collect();
    w.add_f32_bytes("layer.weight".into(), data.clone(), Shape::d2(2, 3));
    w.add_raw_tensor("q".into(), vec![9, 8, 7], Shape::d2(1, 3), DTYPE_INT8);
    w.set_metadata("architecture".into(), "biaffine_parser".into());
    w.set_metadata("hidden_dim".into(), "128".into());
    let img = w.to_bytes().unwrap();

    let h = Header::parse(&img[..HEADER_SIZE]).unwrap();
    assert_eq!(h.num_tensors, 2);
    let data_start = 64 + 2 * 128; // already aligned
    let e0 = TensorEntry::from_bytes(&img[HEADER_SIZE..HEADER_SIZE + INDEX_ENTRY_SIZE]).unwrap();
    assert_eq!(e0.name, "layer.weight");
    assert_eq!(e0.dtype, 0);
    assert_eq!(e0.ndim, 2);
    assert_eq!(e0.shape, [2, 3, 1, 1]);
    assert_eq!(e0.data_offset, data_start as u64);
    assert_eq!(e0.data_length, 24);
    assert_eq!(e0.checksum, crc32(&data));
    let e1 = TensorEntry::from_bytes(
        &img[HEADER_SIZE + INDEX_ENTRY_SIZE..HEADER_SIZE + 2 * INDEX_ENTRY_SIZE],
    )
    .unwrap();
    assert_eq!(e1.name, "q");
    assert_eq!(e1.dtype, DTYPE_INT8);
    assert_eq!(e1.data_offset, (data_start + 64) as u64);
    let off0 = e0.data_offset as usize;
    assert_eq!(&img[off0..off0 + 24], &data[..]);
    let off1 = e1.data_offset as usize;
    assert_eq!(&img[off1..off1 + 3], &[9, 8, 7]);
    assert_eq!(h.metadata_offset, (data_start + 128) as u64);
    let mo = h.metadata_offset as usize;
    let ml = h.metadata_length as usize;
    assert_eq!(img.len(), mo + ml);
    let meta = parse_metadata_bytes(&img[mo..mo + ml]).unwrap();
    assert_eq!(meta.get("architecture"), Some("biaffine_parser"));
    assert_eq!(meta.get("hidden_dim"), Some("128"));
    assert_eq!(
        std::str::from_utf8(&img[mo..]).unwrap(),
        "{\"architecture\":\"biaffine_parser\",\"hidden_dim\":\"128\"}"
    );
}

#[test]
fn writer_rejects_long_names_and_pads_index() {
    let mut w = SovereignWriter::new();
    w.add_f32_bytes("x".repeat(65), vec![0; 4], Shape::d2(1, 1));
    match w.to_bytes() {
        Err(NnError::Format(m)) => assert_eq!(m, format!("tensor name {:?} exceeds 64 bytes", "x".repeat(65))),
        other => panic!("unexpected: {other:?}"),
    }
    let mut w = SovereignWriter::new();
    w.add_f32_bytes("w".into(), vec![1, 2, 3, 4], Shape::d2(1, 1));
    let img = w.to_bytes().unwrap();
    // header 64 + one entry 128 = 192, already a multiple of 64
    let e = TensorEntry::from_bytes(&img[64..192]).unwrap();
    assert_eq!(e.data_offset, 192);
    assert_eq!(&img[192..196], &[1, 2, 3, 4]);
    assert!(img[196..256].iter().all(|&b| b == 0));
    assert_eq!(&img[256..], b"{}");
}

#[test]
fn metadata_not_utf8() {
    match parse_metadata_bytes(&[b'{', 0xFF, b'}']) {
        Err(NnError::Format(m)) => assert!(m.starts_with("metadata not UTF-8: ")),
        other => panic!("unexpected: {other:?}"),
    }
}

#[test]
fn usize_metadata_values() {
    let mut m = Metadata::new();
    m.insert("a".into(), "42".into());
    m.insert("b".into(), "+7".into());
    m.insert("c".into(), "-1".into());
    assert_eq!(metadata_usize(&m, "a", 5).unwrap(), 42);
    assert_eq!(metadata_usize(&m, "b", 5).unwrap(), 7);
    assert_eq!(metadata_usize(&m, "zzz", 5).unwrap(), 5);
    match metadata_usize(&m, "c", 5) {
        Err(NnError::Format(msg)) => assert_eq!(
            msg,
            "metadata \"c\" must be usize, got \"-1\": invalid digit found in string"
        ),
        other => panic!("unexpected: {other:?}"),
    }
}

#[test]
fn xlm_config_from_metadata() {
    let m = Metadata::new();
    let c = XlmRobertaConfig::from_metadata(&m).unwrap();
    assert_eq!(c.hidden_dim, 768);
    assert_eq!(c.num_heads, 12);
    assert_eq!(c.num_layers, 12);
    assert_eq!(c.intermediate_dim, 3072);
    assert_eq!(c.max_seq_len, 512);
    assert_eq!(c.pad_token_id, 1);
    assert_eq!(c.activation, Activation::GeluTanh);
    assert!(c.validate_input_len(512).is_ok());
    assert!(c.validate_input_len(513).is_err());

    let mut m = Metadata::new();
    m.insert("hidden_dim".into(), "10".into());
    m.insert("num_heads".into(), "4".into());
    match XlmRobertaConfig::from_metadata(&m) {
        Err(NnError::DivisibilityError { what, numerator, denominator }) => {
            assert_eq!(what, "hidden_dim % num_heads");
            assert_eq!(numerator, 10);
            assert_eq!(denominator, 4);
        }
        other => panic!("unexpected: {other:?}"),
    }

    let mut m = Metadata::new();
    m.insert("hidden_dim".into(), "8".into());
    m.insert("num_heads".into(), "2".into());
    m.insert("activation".into(), "relu".into());
    m.insert("pad_token_id".into(), "0".into());
    let c = XlmRobertaConfig::from_metadata(&m).unwrap();
    assert_eq!(c.intermediate_dim, 32);
    assert_eq!(c.activation, Activation::Relu);
    assert_eq!(c.pad_token_id, 0);

    m.insert("activation".into(), "tanh".into());
    match XlmRobertaConfig::from_metadata(&m) {
        Err(NnError::Format(msg)) => assert_eq!(msg, "unknown activation: \"tanh\""),
        other => panic!("unexpected: {other:?}"),
    }
}

#[test]
fn label_map_from_metadata() {
    let mut m = Metadata::new();
    match parse_label_map(&m) {
        Err(NnError::Format(msg)) => assert_eq!(msg, "missing 'labels' metadata"),
        other => panic!("unexpected: {other:?}"),
    }
    m.insert("labels".into(), "[\"O\",\"B-PER\"]".into());
    assert_eq!(parse_label_map(&m).unwrap(), vec!["O", "B-PER"]);
}

fn small_xlm_config() -> XlmRobertaConfig {
    XlmRobertaConfig {
        num_layers: 1,
        num_heads: 2,
        hidden_dim: 8,
        intermediate_dim: 32,
        max_seq_len: 4,
        pad_token_id: 1,
        activation: Activation::GeluTanh,
    }
}

#[test]
fn padded_batch_pads_to_longest_row() {
    let c = small_xlm_config();
    let ids = vec![vec![0, 5, 2], vec![0, 2]];
    let masks = vec![vec![1, 1, 1], vec![1, 1]];
    let (pi, pm) = c.prepare_padded_batch(&ids, &masks).unwrap();
    assert_eq!(pi, vec![vec![0, 5, 2], vec![0, 2, 1]]);
    assert_eq!(pm, vec![vec![1, 1, 1], vec![1, 1, 0]]);
}

#[test]
fn padded_batch_errors() {
    let c = small_xlm_config();
    assert_eq!(
        c.prepare_padded_batch(&[], &[]).unwrap_err(),
        NnError::ShapeMismatch { expected: "non-empty batch".into(), got: "empty batch".into() }
    );
    assert_eq!(
        c.prepare_padded_batch(&[vec![0]], &[]).unwrap_err(),
        NnError::ShapeMismatch {
            expected: "1 attention masks".into(),
            got: "0 attention masks".into()
        }
    );
    assert_eq!(
        c.prepare_padded_batch(&[vec![0, 1, 2, 3, 4]], &[vec![1; 5]]).unwrap_err(),
        NnError::ShapeMismatch {
            expected: "sequence length <= 4".into(),
            got: "sequence length = 5".into()
        }
    );
    assert_eq!(
        c.prepare_padded_batch(&[vec![0, 2], vec![]], &[vec![1, 1], vec![]]).unwrap_err(),
        NnError::ShapeMismatch {
            expected: "non-empty token sequence".into(),
            got: "empty token sequence".into()
        }
    );
    assert_eq!(
        c.prepare_padded_batch(&[vec![0, 2], vec![0, 2]], &[vec![1, 1], vec![1]]).unwrap_err(),
        NnError::ShapeMismatch {
            expected: "attention_mask length 2".into(),
            got: "attention_mask length 1".into()
        }
    );
}

#[test]
fn lenient_metadata_reads_fall_back_to_default() {
    let mut m = Metadata::new();
    assert_eq!(metadata_usize_or(&m, "num_layers", 6), 6);
    m.insert("num_layers".into(), "3".into());
    m.insert("num_heads".into(), "many".into());
    assert_eq!(metadata_usize_or(&m, "num_layers", 6), 3);
    assert_eq!(metadata_usize_or(&m, "num_heads", 8), 8);
    assert_eq!(metadata_activation(&m), Ok(Activation::GeluTanh));
    m.insert("activation".into(), "relu".into());
    assert_eq!(metadata_activation(&m), Ok(Activation::Relu));
    m.insert("activation".into(), "swish".into());
    assert_eq!(
        metadata_activation(&m),
        Err(NnError::Format("unknown activation: \"swish\"".into()))
    );
}
