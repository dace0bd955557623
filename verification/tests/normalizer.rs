use std::borrow::Cow;

use immortal::tokenizer::normalizer::{Alignment, Normalizer, NormalizerConfig};

#[test]
fn identity_alignment_maps_byte_for_byte() {
    let a = Alignment::Identity { len: 5 };
    for i in 0..=5 {
        assert_eq!(a.to_original(i), i);
    }
    assert_eq!(a.to_original(99), 5);
}

#[test]
fn explicit_alignment_respects_sentinel() {
    let a = Alignment::Explicit(vec![0, 2, 3]);
    assert_eq!(a.to_original(0), 0);
    assert_eq!(a.to_original(1), 2);
    assert_eq!(a.to_original(2), 3);
    assert_eq!(a.len(), 2);
}

#[test]
fn alignment_empty() {
    assert!(Alignment::Identity { len: 0 }.is_empty());
    assert!(Alignment::Explicit(vec![0]).is_empty());
}

#[test]
fn identity_config_is_noop() {
    let n = Normalizer::new(NormalizerConfig::identity());
    let (out, align) = n.normalize("hello");
    assert!(matches!(out, Cow::Borrowed(_)));
    assert_eq!(&*out, "hello");
    assert!(matches!(align, Alignment::Identity { len: 5 }));
}

#[test]
fn lowercase_ascii() {
    let n = Normalizer::new(NormalizerConfig {
        lowercase: true,
        strip_accents: false,
        handle_chinese_chars: false,
        clean_text: false,
    });
    let (out, _) = n.normalize("Hello WORLD");
    assert_eq!(&*out, "hello world");
}

#[test]
fn lowercase_preserves_multi_char_expansion_and_alignment() {
    let n = Normalizer::new(NormalizerConfig {
        lowercase: true,
        strip_accents: false,
        handle_chinese_chars: false,
        clean_text: false,
    });
    let (out, align) = n.normalize("İ");
    assert_eq!(&*out, "i\u{307}");
    assert_eq!(align.len(), out.len());
    assert_eq!(align.to_original(0), 0);
    assert_eq!(align.to_original(1), 0);
    assert_eq!(align.to_original(2), 0);
    assert_eq!(align.to_original(out.len()), "İ".len());
}

#[test]
fn strip_accents_nfd() {
    let n = Normalizer::new(NormalizerConfig {
        lowercase: false,
        strip_accents: true,
        handle_chinese_chars: false,
        clean_text: false,
    });
    let (out, _) = n.normalize("café");
    assert_eq!(&*out, "cafe");
}

#[test]
fn cjk_wrap() {
    let n = Normalizer::new(NormalizerConfig {
        lowercase: false,
        strip_accents: false,
        handle_chinese_chars: true,
        clean_text: false,
    });
    let (out, _) = n.normalize("hello世界");
    assert_eq!(&*out, "hello 世  界 ");
}

#[test]
fn clean_text_maps_whitespace_but_does_not_collapse() {
    let n = Normalizer::new(NormalizerConfig {
        lowercase: false,
        strip_accents: false,
        handle_chinese_chars: false,
        clean_text: true,
    });
    let (out, _) = n.normalize("hello   world\t\t");
    assert_eq!(&*out, "hello   world  ");
}

#[test]
fn alignment_maps_accented_chars_to_original_bytes() {
    let n = Normalizer::new(NormalizerConfig {
        lowercase: false,
        strip_accents: true,
        handle_chinese_chars: false,
        clean_text: false,
    });
    let (out, align) = n.normalize("café");
    assert_eq!(&*out, "cafe");
    assert_eq!(align.to_original(0), 0);
    assert_eq!(align.to_original(3), 3);
}

#[test]
fn bert_full_pipeline_matches_hf_semantics() {
    let n = Normalizer::new(NormalizerConfig {
        lowercase: true,
        strip_accents: true,
        handle_chinese_chars: true,
        clean_text: true,
    });
    let (out, _) = n.normalize("Héllo\u{0}WORLD 世界");
    assert_eq!(&*out, "helloworld  世  界 ");
}

// Every normalized byte, and the end, maps back into the original text.
#[test]
fn alignment_covers_every_normalized_byte() {
    let n = Normalizer::new(NormalizerConfig {
        lowercase: true,
        strip_accents: true,
        handle_chinese_chars: true,
        clean_text: true,
    });
    let input = "Ça\u{1}VA 世";
    let (out, align) = n.normalize(input);
    assert_eq!(align.len(), out.len());
    for i in 0..=out.len() {
        assert!(align.to_original(i) <= input.len());
    }
    assert_eq!(align.to_original(out.len()), input.len());
    for i in 0..out.len() {
        assert!(align.to_original(i) <= align.to_original(i + 1));
        assert!(input.is_char_boundary(align.to_original(i)));
    }
}

#[test]
fn clean_text_drops_controls_and_replacement_char() {
    let n = Normalizer::new(NormalizerConfig {
        lowercase: false,
        strip_accents: false,
        handle_chinese_chars: false,
        clean_text: true,
    });
    let (out, align) = n.normalize("a\u{fffd}b\u{7}c\r");
    assert_eq!(&*out, "abc ");
    assert_eq!(align.to_original(1), 4);
    assert_eq!(align.to_original(2), 6);
}

#[test]
fn lowercase_applies_beyond_ascii() {
    let n = Normalizer::new(NormalizerConfig {
        lowercase: true,
        strip_accents: false,
        handle_chinese_chars: false,
        clean_text: false,
    });
    let (out, _) = n.normalize("ÀÉÎ");
    assert_eq!(&*out, "àéî");
}

#[test]
fn already_lowercase_ascii_borrows() {
    let n = Normalizer::new(NormalizerConfig {
        lowercase: true,
        strip_accents: false,
        handle_chinese_chars: false,
        clean_text: false,
    });
    let (out, align) = n.normalize("hello world");
    assert!(matches!(out, Cow::Borrowed(_)));
    assert!(matches!(align, Alignment::Identity { len: 11 }));
}
