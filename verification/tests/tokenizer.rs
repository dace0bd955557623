use immortal::tokenizer::error::TokenizerError;
use immortal::tokenizer::format::{
    NormalizerDisk, PaddingDirectionDisk, PaddingDisk, PaddingStrategyDisk, PreTokenizerDisk,
    SovereignTokenizerData, SpecialTokensDisk, TruncationDisk, TruncationStrategyDisk,
    WordPieceDisk,
};
use immortal::tokenizer::tokenizer::SovereignTokenizer;

fn tiny_data(padding: PaddingDisk) -> SovereignTokenizerData {
    SovereignTokenizerData {
        vocab: vec![
            "[PAD]".into(),
            "[UNK]".into(),
            "[CLS]".into(),
            "[SEP]".into(),
            "[MASK]".into(),
            "hello".into(),
            "world".into(),
            "un".into(),
            "##afford".into(),
            "##able".into(),
            ",".into(),
            "!".into(),
        ],
        normalizer: NormalizerDisk {
            lowercase: true,
            strip_accents: true,
            handle_chinese_chars: true,
            clean_text: true,
        },
        pretokenizer: PreTokenizerDisk {
            do_basic_split: true,
            never_split: vec![
                "[CLS]".into(),
                "[SEP]".into(),
                "[PAD]".into(),
                "[UNK]".into(),
                "[MASK]".into(),
            ],
        },
        wordpiece: WordPieceDisk {
            unk_token: "[UNK]".into(),
            continuing_subword_prefix: "##".into(),
            max_input_chars_per_word: 100,
        },
        truncation: TruncationDisk {
            max_length: 16,
            strategy: TruncationStrategyDisk::LongestFirst,
            stride: 0,
        },
        special_tokens: SpecialTokensDisk {
            cls: "[CLS]".into(),
            sep: "[SEP]".into(),
            pad: "[PAD]".into(),
            unk: "[UNK]".into(),
            mask: "[MASK]".into(),
        },
        padding,
    }
}

fn tiny_tokenizer_with_padding(padding: PaddingDisk) -> SovereignTokenizer {
    match SovereignTokenizer::from_data(tiny_data(padding)) {
        Ok(t) => t,
        Err(e) => panic!("construct: {e:?}"),
    }
}

fn tiny_tokenizer() -> SovereignTokenizer {
    tiny_tokenizer_with_padding(PaddingDisk::default())
}

fn construct_err(data: SovereignTokenizerData) -> TokenizerError {
    match SovereignTokenizer::from_data(data) {
        Ok(_) => panic!("construction should fail"),
        Err(e) => e,
    }
}

#[test]
fn encode_with_specials_wraps_in_cls_sep() {
    let tok = tiny_tokenizer();
    let enc = tok.encode("hello world", true).expect("encode");
    assert_eq!(enc.ids.first().copied(), Some(tok.cls_id()));
    assert_eq!(enc.ids.last().copied(), Some(tok.sep_id()));
}

#[test]
fn encode_unaffordable_uses_wordpiece() {
    let tok = tiny_tokenizer();
    let enc = tok.encode("unaffordable", false).expect("encode");
    assert_eq!(
        enc.ids,
        vec![
            tok.token_id("un").unwrap(),
            tok.token_id("##afford").unwrap(),
            tok.token_id("##able").unwrap(),
        ]
    );
}

#[test]
fn vocab_round_trip() {
    let tok = tiny_tokenizer();
    for s in [
        "hello", "world", "un", "##afford", "##able", "[CLS]", "[SEP]", "[UNK]",
    ] {
        let id = tok
            .token_id(s)
            .unwrap_or_else(|| panic!("missing token: {s}"));
        assert_eq!(tok.id_to_token(id).unwrap(), s);
    }
}

#[test]
fn decode_drops_specials_and_strips_prefix() {
    let tok = tiny_tokenizer();
    let enc = tok.encode("unaffordable", true).expect("encode");
    let out = tok.decode(&enc.ids).expect("decode");
    assert_eq!(out, "unaffordable");
}

#[test]
fn decode_whitespace_shape_matches_hf_lossy_collapse() {
    let tok = tiny_tokenizer();

    let enc = tok.encode("Hello   world", false).expect("encode");
    let out = tok.decode(&enc.ids).expect("decode");
    assert_eq!(out, "hello world");

    let enc = tok.encode("\tHello\nworld", false).expect("encode");
    let out = tok.decode(&enc.ids).expect("decode");
    assert_eq!(out, "hello world");

    let enc = tok.encode("  hello  world", false).expect("encode");
    let out = tok.decode(&enc.ids).expect("decode");
    assert_eq!(out, "hello world");
}

#[test]
fn encode_pair_has_two_seps() {
    let tok = tiny_tokenizer();
    let enc = tok
        .encode_pair("hello", "world", true)
        .expect("encode_pair");
    let seps: Vec<usize> = enc
        .ids
        .iter()
        .enumerate()
        .filter(|(_, &id)| id == tok.sep_id())
        .map(|(i, _)| i)
        .collect();
    assert_eq!(seps.len(), 2);
}

#[test]
fn encode_pair_applies_fixed_padding() {
    let tok = tiny_tokenizer_with_padding(PaddingDisk {
        enabled: true,
        strategy: PaddingStrategyDisk::Fixed(8),
        direction: PaddingDirectionDisk::Right,
        pad_id: 0,
        pad_type_id: 0,
    });
    let enc = tok
        .encode_pair("hello", "world", true)
        .expect("encode_pair");
    assert_eq!(enc.ids.len(), 8);
    assert_eq!(enc.type_ids.len(), 8);
    assert_eq!(enc.offsets.len(), 8);
    assert_eq!(enc.attention_mask, vec![1, 1, 1, 1, 1, 0, 0, 0]);
    assert_eq!(&enc.ids[5..], &[tok.pad_id(), tok.pad_id(), tok.pad_id()]);
}

#[test]
fn padding_pad_id_must_match_special_pad() {
    let mut data = tiny_data(PaddingDisk::default());
    data.vocab = vec![
        "[PAD]".into(),
        "[UNK]".into(),
        "[CLS]".into(),
        "[SEP]".into(),
        "[MASK]".into(),
        "hello".into(),
    ];
    data.pretokenizer.never_split = vec![];
    data.padding.enabled = true;
    data.padding.strategy = PaddingStrategyDisk::Fixed(8);
    data.padding.pad_id = 99;

    let err = construct_err(data);
    assert!(matches!(err, TokenizerError::VocabInvalid { .. }));
}

#[test]
fn missing_special_in_vocab_rejected() {
    let mut data = tiny_data(PaddingDisk::default());
    data.vocab = vec!["[PAD]".into(), "[UNK]".into(), "hello".into()];
    data.pretokenizer.never_split = vec![];
    let err = construct_err(data);
    assert!(matches!(err, TokenizerError::SpecialTokenMissing { .. }));
}

#[test]
fn duplicate_vocab_entry_rejected() {
    let mut data = tiny_data(PaddingDisk::default());
    data.vocab.push("hello".into());
    let err = construct_err(data);
    assert!(matches!(err, TokenizerError::VocabInvalid { .. }));
}

#[test]
fn empty_vocab_rejected() {
    let mut data = tiny_data(PaddingDisk::default());
    data.vocab.clear();
    match construct_err(data) {
        TokenizerError::VocabInvalid { reason } => assert_eq!(reason, "vocab is empty"),
        other => panic!("unexpected: {other:?}"),
    }
}

#[test]
fn special_ids_are_vocab_positions() {
    let tok = tiny_tokenizer();
    assert_eq!(tok.pad_id(), 0);
    assert_eq!(tok.unk_id(), 1);
    assert_eq!(tok.cls_id(), 2);
    assert_eq!(tok.sep_id(), 3);
    assert_eq!(tok.mask_id(), 4);
    assert_eq!(tok.vocab_size(), 12);
    assert_eq!(tok.id_to_token(12), None);
    assert_eq!(tok.token_id("nope"), None);
}

#[test]
fn encode_unknown_word_gives_unk() {
    let tok = tiny_tokenizer();
    let enc = tok.encode("hello zzz", false).expect("encode");
    assert_eq!(enc.ids, vec![5, tok.unk_id()]);
    assert_eq!(enc.offsets, vec![(0, 5), (6, 9)]);
    assert_eq!(enc.type_ids, vec![0, 0]);
    assert_eq!(enc.attention_mask, vec![1, 1]);
}

#[test]
fn encode_offsets_point_into_original_text() {
    let tok = tiny_tokenizer();
    let enc = tok.encode("HÉLLO, world", true).expect("encode");
    assert_eq!(enc.ids, vec![2, 5, 10, 6, 3]);
    assert_eq!(enc.offsets, vec![(0, 0), (0, 6), (6, 7), (8, 13), (0, 0)]);
}

#[test]
fn encode_pair_segments_and_truncation() {
    let tok = tiny_tokenizer();
    let enc = tok.encode_pair("hello world", "un", true).expect("encode_pair");
    assert_eq!(enc.ids, vec![2, 5, 6, 3, 7, 3]);
    assert_eq!(enc.type_ids, vec![0, 0, 0, 0, 1, 1]);
}

#[test]
fn truncation_keeps_room_for_specials() {
    let mut tok = tiny_tokenizer();
    tok.set_max_length(4);
    assert_eq!(tok.max_length(), 4);
    let enc = tok.encode("hello world hello world", true).expect("encode");
    assert_eq!(enc.ids, vec![2, 5, 6, 3]);
}

#[test]
fn left_padding_puts_pads_first() {
    let tok = tiny_tokenizer_with_padding(PaddingDisk {
        enabled: true,
        strategy: PaddingStrategyDisk::Fixed(5),
        direction: PaddingDirectionDisk::Left,
        pad_id: 0,
        pad_type_id: 0,
    });
    let enc = tok.encode("hello", true).expect("encode");
    assert_eq!(enc.ids, vec![0, 0, 2, 5, 3]);
    assert_eq!(enc.attention_mask, vec![0, 0, 1, 1, 1]);
    assert_eq!(enc.offsets[0], (0, 0));
}

#[test]
fn decode_rejects_unknown_id() {
    let tok = tiny_tokenizer();
    let err = tok.decode(&[5, 99]).expect_err("unknown id");
    assert!(matches!(err, TokenizerError::VocabInvalid { .. }));
}

#[test]
fn decode_joins_words_and_glues_pieces() {
    let tok = tiny_tokenizer();
    let out = tok.decode(&[2, 5, 7, 8, 9, 10, 6, 3, 0]).expect("decode");
    assert_eq!(out, "hello unaffordable , world");
}

#[test]
fn error_codes_are_unique_and_stable() {
    let samples = [
        TokenizerError::HeaderCorrupt { reason: "x".into() },
        TokenizerError::PayloadCorrupt { reason: "x".into() },
        TokenizerError::UnsupportedFormatVersion {
            found_major: 2,
            supported_major: 1,
        },
        TokenizerError::VocabInvalid { reason: "x".into() },
        TokenizerError::SpecialTokenMissing {
            token: "[CLS]".into(),
        },
        TokenizerError::WordTooLong {
            word_len: 200,
            limit: 100,
        },
    ];
    let codes: Vec<&str> = samples.iter().map(|e| e.error_code()).collect();
    let mut sorted = codes.clone();
    sorted.sort_unstable();
    sorted.dedup();
    assert_eq!(sorted.len(), codes.len(), "error codes must be unique");
}
