//! Truncation strategies operating on `Encoding`s.

use vstd::prelude::*;

use crate::tokenizer::error::{Result, TokenizerError};
use crate::tokenizer::tokenizer::{same_lengths, Encoding, EncodingView};

verus! {

/// Which side of a pair gives up tokens when the budget is exceeded.
#[derive(Debug, Clone, Copy, PartialEq, Eq)]
#[non_exhaustive]
pub enum TruncationStrategy {
    LongestFirst,
    OnlyFirst,
    OnlySecond,
}

/// Length limit and strategy.
#[derive(Debug, Clone)]
pub struct TruncationConfig {
    pub max_length: usize,
    pub strategy: TruncationStrategy,
    pub stride: usize,
}

impl TruncationConfig {
    /// The BERT default: 512 tokens, longest-first.
    pub fn default_512() -> (c: Self)
        ensures
            c.max_length == 512,
            c.strategy == TruncationStrategy::LongestFirst,
            c.stride == 0,
    {
        TruncationConfig { max_length: 512, strategy: TruncationStrategy::LongestFirst, stride: 0 }
    }
}

/// `v` cut to at most `n` elements.
pub open spec fn cut<T>(v: Seq<T>, n: int) -> Seq<T> {
    if v.len() > n { v.take(n) } else { v }
}

/// `v` after `k` removals from the back (removing from an empty sequence is a no-op).
pub open spec fn drop_back<T>(v: Seq<T>, k: nat) -> Seq<T> {
    if k >= v.len() { Seq::empty() } else { v.take(v.len() - k) }
}

/// Every field cut to `n` elements.
pub open spec fn cut_all(v: EncodingView, n: int) -> EncodingView {
    (cut(v.0, n), cut(v.1, n), cut(v.2, n), cut(v.3, n))
}

/// Every field cut to `n` elements when the ids exceed `n`.
pub open spec fn cut_to_budget(v: EncodingView, n: int) -> EncodingView {
    if v.0.len() > n { cut_all(v, n) } else { v }
}

/// Every field with `k` elements removed from the back.
pub open spec fn pop_all(v: EncodingView, k: nat) -> EncodingView {
    (drop_back(v.0, k), drop_back(v.1, k), drop_back(v.2, k), drop_back(v.3, k))
}

/// Number of tokens longest-first removes from each side, given the two
/// lengths and the budget: repeatedly remove from the longer side, the
/// first side on ties.
pub open spec fn longest_first_pops(la: nat, lb: nat, budget: nat) -> (nat, nat)
    decreases la + lb,
{
    if la + lb <= budget {
        (0, 0)
    } else if la >= lb {
        let r = longest_first_pops((la - 1) as nat, lb, budget);
        (r.0 + 1, r.1)
    } else {
        let r = longest_first_pops(la, (lb - 1) as nat, budget);
        (r.0, r.1 + 1)
    }
}

/// The pair after truncation to `budget` tokens, or `None` when the
/// strategy cannot meet the budget.
pub open spec fn pair_truncated(a: EncodingView, b: EncodingView, strategy: TruncationStrategy, budget: nat) -> Option<(EncodingView, EncodingView)> {
    let la = a.0.len();
    let lb = b.0.len();
    if la + lb <= budget {
        Some((a, b))
    } else {
        match strategy {
            TruncationStrategy::LongestFirst => {
                let pops = longest_first_pops(la, lb, budget);
                Some((pop_all(a, pops.0), pop_all(b, pops.1)))
            },
            TruncationStrategy::OnlyFirst => if lb >= budget {
                None
            } else {
                Some((cut_all(a, budget - lb), b))
            },
            TruncationStrategy::OnlySecond => if la >= budget {
                None
            } else {
                Some((a, cut_all(b, budget - la)))
            },
        }
    }
}

/// Cut every field of `e` to `n` elements.
fn truncate_fields(e: &mut Encoding, n: usize)
    ensures
        final(e)@ == cut_all(old(e)@, n as int),
{
    let ghost before = e@;
    e.ids.truncate(n);
    e.type_ids.truncate(n);
    e.offsets.truncate(n);
    e.attention_mask.truncate(n);
    assert(e.ids@ =~= cut(before.0, n as int));
    assert(e.type_ids@ =~= cut(before.1, n as int));
    assert(e.offsets@ =~= cut(before.2, n as int));
    assert(e.attention_mask@ =~= cut(before.3, n as int));
}

/// Remove the last element of every field of `e`.
fn pop(e: &mut Encoding)
    ensures
        final(e)@ == pop_all(old(e)@, 1),
{
    let ghost before = e@;
    e.ids.pop();
    e.type_ids.pop();
    e.offsets.pop();
    e.attention_mask.pop();
    assert(e.ids@ =~= drop_back(before.0, 1));
    assert(e.type_ids@ =~= drop_back(before.1, 1));
    assert(e.offsets@ =~= drop_back(before.2, 1));
    assert(e.attention_mask@ =~= drop_back(before.3, 1));
}

proof fn lemma_drop_back_twice<T>(v: Seq<T>, k: nat)
    ensures
        drop_back(drop_back(v, k), 1) =~= drop_back(v, k + 1),
{
}

proof fn lemma_pop_step(v: EncodingView, k: nat)
    ensures
        pop_all(pop_all(v, k), 1) == pop_all(v, k + 1),
{
    lemma_drop_back_twice(v.0, k);
    lemma_drop_back_twice(v.1, k);
    lemma_drop_back_twice(v.2, k);
    lemma_drop_back_twice(v.3, k);
}

proof fn lemma_pop_zero(v: EncodingView)
    ensures
        pop_all(v, 0) == v,
{
    assert(drop_back(v.0, 0) =~= v.0);
    assert(drop_back(v.1, 0) =~= v.1);
    assert(drop_back(v.2, 0) =~= v.2);
    assert(drop_back(v.3, 0) =~= v.3);
}

proof fn lemma_longest_first_bounds(la: nat, lb: nat, budget: nat)
    ensures
        longest_first_pops(la, lb, budget).0 <= la,
        longest_first_pops(la, lb, budget).1 <= lb,
        la + lb > budget ==> la + lb - longest_first_pops(la, lb, budget).0
            - longest_first_pops(la, lb, budget).1 == budget,
    decreases la + lb,
{
    if la + lb <= budget {
    } else if la >= lb {
        lemma_longest_first_bounds((la - 1) as nat, lb, budget);
    } else {
        lemma_longest_first_bounds(la, (lb - 1) as nat, budget);
    }
}

/// Truncation keeps fields of equal length at equal length.
pub proof fn lemma_same_lengths_kept(v: EncodingView, n: int, k: nat)
    requires
        same_lengths(v),
        n >= 0,
    ensures
        same_lengths(cut_all(v, n)),
        same_lengths(cut_to_budget(v, n)),
        same_lengths(pop_all(v, k)),
{
}

pub struct Truncation;

impl Truncation {
    /// Cut a single encoding to `max_length - reserved` tokens.
    pub fn apply_single(enc: &mut Encoding, cfg: &TruncationConfig, reserved: usize) -> (r: Result<()>)
        ensures
            cfg.max_length <= reserved ==> r == Err::<(), TokenizerError>(
                TokenizerError::TruncationImpossible {
                    strategy: cfg.strategy,
                    max_length: cfg.max_length,
                    special_tokens: reserved,
                },
            ) && final(enc)@ == old(enc)@,
            cfg.max_length > reserved ==> r is Ok && final(enc)@ == cut_to_budget(
                old(enc)@,
                cfg.max_length - reserved,
            ),
    {
        if cfg.max_length <= reserved {
            return Err(
                TokenizerError::TruncationImpossible {
                    strategy: cfg.strategy,
                    max_length: cfg.max_length,
                    special_tokens: reserved,
                },
            );
        }
        let budget = cfg.max_length - reserved;
        if enc.ids.len() > budget {
            truncate_fields(enc, budget);
        }
        Ok(())
    }

    /// Cut a pair of encodings so that together they fit `max_length - reserved`.
    pub fn apply_pair(a: &mut Encoding, b: &mut Encoding, cfg: &TruncationConfig, reserved: usize) -> (r:
        Result<()>)
        ensures
            ({
                let err = TokenizerError::TruncationImpossible {
                    strategy: cfg.strategy,
                    max_length: cfg.max_length,
                    special_tokens: reserved,
                };
                let out = pair_truncated(
                    old(a)@,
                    old(b)@,
                    cfg.strategy,
                    (cfg.max_length - reserved) as nat,
                );
                if cfg.max_length <= reserved || out is None {
                    r == Err::<(), TokenizerError>(err) && final(a)@ == old(a)@ && final(b)@ == old(b)@
                } else {
                    r is Ok && final(a)@ == (out->0).0 && final(b)@ == (out->0).1
                }
            }),
    {
        if cfg.max_length <= reserved {
            return Err(
                TokenizerError::TruncationImpossible {
                    strategy: cfg.strategy,
                    max_length: cfg.max_length,
                    special_tokens: reserved,
                },
            );
        }
        let budget = cfg.max_length - reserved;
        let la = a.ids.len();
        let lb = b.ids.len();
        if la as u128 + lb as u128 <= budget as u128 {
            return Ok(());
        }
        match cfg.strategy {
            TruncationStrategy::LongestFirst => {
                let ghost a0 = a@;
                let ghost b0 = b@;
                let ghost mut ka: nat = 0;
                let ghost mut kb: nat = 0;
                proof {
                    lemma_pop_zero(a0);
                    lemma_pop_zero(b0);
                    lemma_longest_first_bounds(la as nat, lb as nat, budget as nat);
                }
                while a.ids.len() as u128 + b.ids.len() as u128 > budget as u128
                    invariant
                        budget >= 1,
                        a0.0.len() == la,
                        b0.0.len() == lb,
                        ka <= la,
                        kb <= lb,
                        a.ids@.len() == la - ka,
                        b.ids@.len() == lb - kb,
                        a@ == pop_all(a0, ka),
                        b@ == pop_all(b0, kb),
                        longest_first_pops(la as nat, lb as nat, budget as nat) == ({
                            let rest = longest_first_pops(
                                (la - ka) as nat,
                                (lb - kb) as nat,
                                budget as nat,
                            );
                            (ka + rest.0, kb + rest.1)
                        }),
                    decreases a.ids@.len() + b.ids@.len(),
                {
                    if a.ids.len() >= b.ids.len() {
                        pop(a);
                        proof {
                            lemma_pop_step(a0, ka);
                            ka = ka + 1;
                        }
                    } else {
                        pop(b);
                        proof {
                            lemma_pop_step(b0, kb);
                            kb = kb + 1;
                        }
                    }
                }
                assert(longest_first_pops((la - ka) as nat, (lb - kb) as nat, budget as nat) == (0nat, 0nat));
            },
            TruncationStrategy::OnlyFirst => {
                if lb >= budget {
                    return Err(
                        TokenizerError::TruncationImpossible {
                            strategy: cfg.strategy,
                            max_length: cfg.max_length,
                            special_tokens: reserved,
                        },
                    );
                }
                truncate_fields(a, budget - lb);
            },
            TruncationStrategy::OnlySecond => {
                if la >= budget {
                    return Err(
                        TokenizerError::TruncationImpossible {
                            strategy: cfg.strategy,
                            max_length: cfg.max_length,
                            special_tokens: reserved,
                        },
                    );
                }
                truncate_fields(b, budget - la);
            },
        }
        Ok(())
    }
}

/// Longest-first keeps exactly `budget` tokens between the two sides and
/// never removes more from a side than it had.
pub proof fn law_longest_first_fills_budget(la: nat, lb: nat, budget: nat)
    requires
        la + lb > budget,
    ensures
        longest_first_pops(la, lb, budget).0 <= la,
        longest_first_pops(la, lb, budget).1 <= lb,
        (la - longest_first_pops(la, lb, budget).0) + (lb - longest_first_pops(la, lb, budget).1)
            == budget,
{
    lemma_longest_first_bounds(la, lb, budget);
}

/// Pair truncation keeps a prefix of each side's ids, and together at most
/// `budget` of them; when both fit, it keeps them whole.
pub proof fn lemma_pair_truncated_prefixes(a: EncodingView, b: EncodingView, strategy: TruncationStrategy, budget: nat)
    requires
        pair_truncated(a, b, strategy, budget) is Some,
    ensures
        ({
            let (x, y) = pair_truncated(a, b, strategy, budget)->0;
            &&& x.0.len() <= a.0.len() && x.0 == a.0.take(x.0.len() as int)
            &&& y.0.len() <= b.0.len() && y.0 == b.0.take(y.0.len() as int)
            &&& x.0.len() + y.0.len() <= budget
            &&& a.0.len() + b.0.len() <= budget ==> x.0 == a.0 && y.0 == b.0
        }),
{
    let la = a.0.len();
    let lb = b.0.len();
    assert(a.0.take(la as int) =~= a.0);
    assert(b.0.take(lb as int) =~= b.0);
    if la + lb > budget {
        match strategy {
            TruncationStrategy::LongestFirst => {
                lemma_longest_first_bounds(la, lb, budget);
                let pops = longest_first_pops(la, lb, budget);
                if pops.0 >= la {
                    assert(a.0.take(0).len() == 0 && drop_back(a.0, pops.0) =~= a.0.take(0));
                }
                if pops.1 >= lb {
                    assert(b.0.take(0).len() == 0 && drop_back(b.0, pops.1) =~= b.0.take(0));
                }
            },
            _ => {},
        }
    }
}

/// When every field of each side has the same length as its ids, pair
/// truncation keeps the same prefix of every field.
pub proof fn lemma_pair_truncated_fields(a: EncodingView, b: EncodingView, strategy: TruncationStrategy, budget: nat)
    requires
        pair_truncated(a, b, strategy, budget) is Some,
        same_lengths(a),
        same_lengths(b),
    ensures
        ({
            let (x, y) = pair_truncated(a, b, strategy, budget)->0;
            let (la, lb) = (x.0.len() as int, y.0.len() as int);
            &&& x.0 == a.0.take(la) && x.1 == a.1.take(la) && x.2 == a.2.take(la) && x.3 == a.3.take(la)
            &&& y.0 == b.0.take(lb) && y.1 == b.1.take(lb) && y.2 == b.2.take(lb) && y.3 == b.3.take(lb)
        }),
{
    lemma_pair_truncated_prefixes(a, b, strategy, budget);
    let la = a.0.len();
    let lb = b.0.len();
    assert(a.1.take(la as int) =~= a.1 && a.2.take(la as int) =~= a.2 && a.3.take(la as int) =~= a.3);
    assert(b.1.take(lb as int) =~= b.1 && b.2.take(lb as int) =~= b.2 && b.3.take(lb as int) =~= b.3);
    if la + lb > budget {
        match strategy {
            TruncationStrategy::LongestFirst => {
                lemma_longest_first_bounds(la, lb, budget);
                let pops = longest_first_pops(la, lb, budget);
                if pops.0 >= la {
                    assert(drop_back(a.1, pops.0) =~= a.1.take(0));
                    assert(drop_back(a.2, pops.0) =~= a.2.take(0));
                    assert(drop_back(a.3, pops.0) =~= a.3.take(0));
                }
                if pops.1 >= lb {
                    assert(drop_back(b.1, pops.1) =~= b.1.take(0));
                    assert(drop_back(b.2, pops.1) =~= b.2.take(0));
                    assert(drop_back(b.3, pops.1) =~= b.3.take(0));
                }
            },
            _ => {},
        }
    }
}

} // verus!
