use immortal::tokenizer::normalizer::Alignment;
use immortal::tokenizer::pretokenizer::{PreTokConfig, PreTokenizer};

fn id_align(s: &str) -> Alignment {
    Alignment::Identity { len: s.len() }
}

#[test]
fn whitespace_splits() {
    let pt = PreTokenizer::new(PreTokConfig {
        do_basic_split: true,
        never_split: vec![],
    });
    let norm = "hello world";
    let out = pt.pre_tokenize(norm, &id_align(norm));
    assert_eq!(out.len(), 2);
    assert_eq!(out[0].text, "hello");
    assert_eq!(out[0].offsets, (0, 5));
    assert_eq!(out[1].text, "world");
    assert_eq!(out[1].offsets, (6, 11));
}

#[test]
fn punct_separated() {
    let pt = PreTokenizer::new(PreTokConfig {
        do_basic_split: true,
        never_split: vec![],
    });
    let norm = "hello, world!";
    let out = pt.pre_tokenize(norm, &id_align(norm));
    let texts: Vec<&str> = out.iter().map(|t| t.text).collect();
    assert_eq!(texts, vec!["hello", ",", "world", "!"]);
}

#[test]
fn never_split_preserved() {
    let pt = PreTokenizer::new(PreTokConfig {
        do_basic_split: true,
        never_split: vec!["[CLS]".into(), "[SEP]".into()],
    });
    let norm = "[CLS] hello [SEP]";
    let out = pt.pre_tokenize(norm, &id_align(norm));
    let texts: Vec<&str> = out.iter().map(|t| t.text).collect();
    assert_eq!(texts, vec!["[CLS]", "hello", "[SEP]"]);
}

#[test]
fn empty_never_split_entry_is_ignored() {
    let pt = PreTokenizer::new(PreTokConfig {
        do_basic_split: true,
        never_split: vec!["".into()],
    });
    let norm = "hello";
    let out = pt.pre_tokenize(norm, &id_align(norm));
    assert_eq!(out.len(), 1);
    assert_eq!(out[0].text, "hello");
}

#[test]
fn offsets_respect_alignment() {
    let norm = "cafe";
    let align = Alignment::Explicit(vec![0, 1, 2, 3, 5]);
    let pt = PreTokenizer::new(PreTokConfig {
        do_basic_split: true,
        never_split: vec![],
    });
    let out = pt.pre_tokenize(norm, &align);
    assert_eq!(out.len(), 1);
    assert_eq!(out[0].offsets, (0, 5));
}

#[test]
fn empty_input() {
    let pt = PreTokenizer::new(PreTokConfig {
        do_basic_split: true,
        never_split: vec![],
    });
    let out = pt.pre_tokenize("", &id_align(""));
    assert!(out.is_empty());
}

#[test]
fn do_basic_split_off_returns_whole_input() {
    let pt = PreTokenizer::new(PreTokConfig {
        do_basic_split: false,
        never_split: vec![],
    });
    let norm = "hello world!";
    let out = pt.pre_tokenize(norm, &id_align(norm));
    assert_eq!(out.len(), 1);
    assert_eq!(out[0].text, "hello world!");
}

#[test]
fn never_split_inside_a_word_is_cut_out() {
    let pt = PreTokenizer::new(PreTokConfig {
        do_basic_split: true,
        never_split: vec!["[MASK]".into()],
    });
    let norm = "ab[MASK]cd";
    let out = pt.pre_tokenize(norm, &id_align(norm));
    let texts: Vec<&str> = out.iter().map(|t| t.text).collect();
    assert_eq!(texts, vec!["ab", "[MASK]", "cd"]);
    assert_eq!(out[1].offsets, (2, 8));
}

#[test]
fn unicode_punctuation_splits() {
    let pt = PreTokenizer::new(PreTokConfig {
        do_basic_split: true,
        never_split: vec![],
    });
    let norm = "a¿b";
    let out = pt.pre_tokenize(norm, &id_align(norm));
    let texts: Vec<&str> = out.iter().map(|t| t.text).collect();
    assert_eq!(texts, vec!["a", "¿", "b"]);
    assert_eq!(out[1].offsets, (1, 3));
}

#[test]
fn basic_split_off_on_empty_input_gives_nothing() {
    let pt = PreTokenizer::new(PreTokConfig {
        do_basic_split: false,
        never_split: vec![],
    });
    let out = pt.pre_tokenize("", &id_align(""));
    assert!(out.is_empty());
}

#[test]
fn unicode_white_space_splits() {
    let pt = PreTokenizer::new(PreTokConfig {
        do_basic_split: true,
        never_split: vec![],
    });
    let norm = "a\u{3000}b\u{a0}c\u{200b}d";
    let out = pt.pre_tokenize(norm, &id_align(norm));
    let texts: Vec<&str> = out.iter().map(|p| p.text).collect();
    // U+3000 and U+00A0 are white space; U+200B (zero width space) is not.
    assert_eq!(texts, vec!["a", "b", "c\u{200b}d"]);
}
