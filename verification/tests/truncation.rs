use immortal::tokenizer::error::TokenizerError;
use immortal::tokenizer::tokenizer::Encoding;
use immortal::tokenizer::truncation::{Truncation, TruncationConfig, TruncationStrategy};

fn enc(ids: &[u32]) -> Encoding {
    Encoding {
        ids: ids.to_vec(),
        type_ids: vec![0; ids.len()],
        offsets: (0..ids.len()).map(|i| (i, i + 1)).collect(),
        attention_mask: vec![1; ids.len()],
    }
}

#[test]
fn single_respects_reserved() {
    let mut e = enc(&[10, 20, 30, 40, 50, 60]);
    let cfg = TruncationConfig {
        max_length: 5,
        strategy: TruncationStrategy::LongestFirst,
        stride: 0,
    };
    Truncation::apply_single(&mut e, &cfg, 2).expect("ok");
    assert_eq!(e.ids, vec![10, 20, 30]);
}

#[test]
fn single_impossible_when_budget_negative() {
    let mut e = enc(&[10]);
    let cfg = TruncationConfig {
        max_length: 2,
        strategy: TruncationStrategy::LongestFirst,
        stride: 0,
    };
    let err = Truncation::apply_single(&mut e, &cfg, 2).expect_err("impossible");
    assert!(matches!(err, TokenizerError::TruncationImpossible { .. }));
}

#[test]
fn longest_first_pair_alternates() {
    let mut a = enc(&[1, 2, 3, 4]);
    let mut b = enc(&[10, 20]);
    let cfg = TruncationConfig {
        max_length: 5,
        strategy: TruncationStrategy::LongestFirst,
        stride: 0,
    };
    Truncation::apply_pair(&mut a, &mut b, &cfg, 3).expect("ok");
    assert_eq!(a.ids.len() + b.ids.len(), 2);
}

#[test]
fn only_first_truncates_first() {
    let mut a = enc(&[1, 2, 3, 4]);
    let mut b = enc(&[10]);
    let cfg = TruncationConfig {
        max_length: 3,
        strategy: TruncationStrategy::OnlyFirst,
        stride: 0,
    };
    Truncation::apply_pair(&mut a, &mut b, &cfg, 0).expect("ok");
    assert_eq!(a.ids, vec![1, 2]);
    assert_eq!(b.ids, vec![10]);
}

#[test]
fn only_first_errors_if_second_already_over_budget() {
    let mut a = enc(&[1]);
    let mut b = enc(&[10, 20, 30]);
    let cfg = TruncationConfig {
        max_length: 3,
        strategy: TruncationStrategy::OnlyFirst,
        stride: 0,
    };
    let err = Truncation::apply_pair(&mut a, &mut b, &cfg, 0).expect_err("impossible");
    assert!(matches!(err, TokenizerError::TruncationImpossible { .. }));
}

#[test]
fn longest_first_keeps_prefixes_and_balances() {
    let mut a = enc(&[1, 2, 3, 4, 5, 6]);
    let mut b = enc(&[10, 20, 30]);
    let cfg = TruncationConfig {
        max_length: 6,
        strategy: TruncationStrategy::LongestFirst,
        stride: 0,
    };
    Truncation::apply_pair(&mut a, &mut b, &cfg, 1).expect("ok");
    assert_eq!(a.ids, vec![1, 2]);
    assert_eq!(b.ids, vec![10, 20, 30]);
    assert_eq!(a.offsets, vec![(0, 1), (1, 2)]);
    assert_eq!(b.attention_mask, vec![1, 1, 1]);
}

#[test]
fn only_second_truncates_second() {
    let mut a = enc(&[1, 2]);
    let mut b = enc(&[10, 20, 30, 40]);
    let cfg = TruncationConfig {
        max_length: 4,
        strategy: TruncationStrategy::OnlySecond,
        stride: 0,
    };
    Truncation::apply_pair(&mut a, &mut b, &cfg, 0).expect("ok");
    assert_eq!(a.ids, vec![1, 2]);
    assert_eq!(b.ids, vec![10, 20]);
    assert_eq!(b.type_ids, vec![0, 0]);
}

#[test]
fn only_second_errors_if_first_fills_budget() {
    let mut a = enc(&[1, 2, 3]);
    let mut b = enc(&[10]);
    let cfg = TruncationConfig {
        max_length: 3,
        strategy: TruncationStrategy::OnlySecond,
        stride: 0,
    };
    let err = Truncation::apply_pair(&mut a, &mut b, &cfg, 0).expect_err("impossible");
    match err {
        TokenizerError::TruncationImpossible { strategy, max_length, special_tokens } => {
            assert_eq!(strategy, TruncationStrategy::OnlySecond);
            assert_eq!(max_length, 3);
            assert_eq!(special_tokens, 0);
        }
        other => panic!("unexpected: {other:?}"),
    }
    assert_eq!(a.ids, vec![1, 2, 3]);
    assert_eq!(b.ids, vec![10]);
}

#[test]
fn pair_within_budget_is_untouched() {
    let mut a = enc(&[1, 2]);
    let mut b = enc(&[3]);
    let cfg = TruncationConfig::default_512();
    Truncation::apply_pair(&mut a, &mut b, &cfg, 3).expect("ok");
    assert_eq!(a.ids, vec![1, 2]);
    assert_eq!(b.ids, vec![3]);
}

#[test]
fn pair_impossible_when_reserved_fills_max_length() {
    let mut a = enc(&[1]);
    let mut b = enc(&[2]);
    let cfg = TruncationConfig {
        max_length: 3,
        strategy: TruncationStrategy::LongestFirst,
        stride: 0,
    };
    let err = Truncation::apply_pair(&mut a, &mut b, &cfg, 3).expect_err("impossible");
    assert!(matches!(err, TokenizerError::TruncationImpossible { .. }));
}
