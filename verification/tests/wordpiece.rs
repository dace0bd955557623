use immortal::tokenizer::error::TokenizerError;
use immortal::tokenizer::tokenizer::TokenId;
use immortal::tokenizer::wordpiece::{Vocab, WordPiece, WordPieceConfig};

fn make(vocab: &[(&str, TokenId)]) -> WordPiece {
    let cfg = WordPieceConfig {
        unk_token: "[UNK]".into(),
        continuing_subword_prefix: "##".into(),
        max_input_chars_per_word: 100,
    };
    let mut map = Vocab::new();
    for (k, v) in vocab {
        map.insert((*k).to_string(), *v);
    }
    WordPiece::new(cfg, map).expect("unk present")
}

#[test]
fn single_exact_match() {
    let wp = make(&[("[UNK]", 0), ("hello", 1)]);
    assert_eq!(wp.tokenize("hello"), vec![1]);
}

#[test]
fn greedy_longest_with_prefix() {
    let wp = make(&[("[UNK]", 0), ("un", 1), ("##afford", 2), ("##able", 3)]);
    assert_eq!(wp.tokenize("unaffordable"), vec![1, 2, 3]);
}

#[test]
fn whole_word_unk_on_unknown_start() {
    let wp = make(&[("[UNK]", 0), ("ok", 1)]);
    assert_eq!(wp.tokenize("xyz"), vec![0]);
}

#[test]
fn over_long_word_returns_unk() {
    let wp = make(&[("[UNK]", 0), ("a", 1)]);
    let long: String = "a".repeat(101);
    assert_eq!(wp.tokenize(&long), vec![0]);
}

#[test]
fn empty_word_empty_output() {
    let wp = make(&[("[UNK]", 0)]);
    assert!(wp.tokenize("").is_empty());
}

#[test]
fn missing_unk_token_is_error() {
    let cfg = WordPieceConfig {
        unk_token: "[UNK]".into(),
        continuing_subword_prefix: "##".into(),
        max_input_chars_per_word: 100,
    };
    let mut vocab = Vocab::new();
    vocab.insert("hello".to_string(), 1u32);
    let err = match WordPiece::new(cfg, vocab) {
        Ok(_) => panic!("should fail"),
        Err(e) => e,
    };
    assert!(matches!(err, TokenizerError::SpecialTokenMissing { .. }));
}

#[test]
fn middle_subword_failure_falls_back_to_unk() {
    let wp = make(&[("[UNK]", 0), ("ab", 1), ("##cd", 2)]);
    assert_eq!(wp.tokenize("abqz"), vec![0]);
}

#[test]
fn word_at_the_limit_is_still_split() {
    let wp = make(&[("[UNK]", 0), ("a", 1), ("##a", 2)]);
    let word: String = "a".repeat(100);
    let ids = wp.tokenize(&word);
    assert_eq!(ids.len(), 100);
    assert_eq!(ids[0], 1);
    assert!(ids[1..].iter().all(|&id| id == 2));
}

#[test]
fn longest_prefix_wins_over_shorter() {
    let wp = make(&[("[UNK]", 0), ("a", 1), ("ab", 2), ("abc", 3), ("##d", 4)]);
    assert_eq!(wp.tokenize("abcd"), vec![3, 4]);
}

#[test]
fn multibyte_pieces_are_whole_chars() {
    let wp = make(&[("[UNK]", 0), ("é", 1), ("##té", 2)]);
    assert_eq!(wp.tokenize("été"), vec![1, 2]);
    assert_eq!(wp.unk_id(), 0);
    assert_eq!(wp.lookup("##té"), Some(2));
    assert_eq!(wp.lookup("té"), None);
}

// Every id produced is the id of some vocabulary entry.
#[test]
fn ids_come_from_the_vocabulary() {
    let wp = make(&[("[UNK]", 7), ("x", 3), ("##y", 5)]);
    for w in ["xy", "xyy", "yx", "", "xq"] {
        for id in wp.tokenize(w) {
            assert!([7, 3, 5].contains(&id));
        }
    }
}
