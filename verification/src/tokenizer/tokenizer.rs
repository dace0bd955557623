//! `SovereignTokenizer` facade: the type most consumers touch.

use std::borrow::Cow;

use vstd::prelude::*;

use crate::text::{chars_have_at, chars_of, decimal, push_decimal, push_str};
use crate::tokenizer::error::{Result, TokenizerError};
use crate::tokenizer::format::{
    PaddingDirectionDisk, PaddingStrategyDisk, SovereignTokenizerData, TruncationStrategyDisk,
};
use crate::tokenizer::normalizer::{alignment_of, normalized, Normalizer, NormalizerConfig};
use crate::tokenizer::pretokenizer::{
    pretoken_spans, pretokens_of, span_offsets, PreTokConfig, PreTokenizer,
};
use crate::tokenizer::truncation::{
    cut_to_budget, lemma_pair_truncated_fields, lemma_pair_truncated_prefixes, lemma_same_lengths_kept, pair_truncated, Truncation,
    TruncationConfig,
    TruncationStrategy,
};
use crate::tokenizer::wordpiece::{wordpiece_ids, Vocab, WordPiece, WordPieceConfig};

verus! {

/// Identifier of a vocabulary entry.
pub type TokenId = u32;

/// The output of encoding: ids with their segment ids, byte offsets into
/// the original text, and the attention mask (1 real token, 0 padding).
#[derive(Debug, Clone)]
pub struct Encoding {
    pub ids: Vec<TokenId>,
    pub type_ids: Vec<u32>,
    pub offsets: Vec<(usize, usize)>,
    pub attention_mask: Vec<u32>,
}

/// The four fields of an encoding as sequences: ids, segment ids, offsets,
/// attention mask.
pub type EncodingView = (Seq<TokenId>, Seq<u32>, Seq<(usize, usize)>, Seq<u32>);

impl View for Encoding {
    type V = EncodingView;

    open spec fn view(&self) -> EncodingView {
        (self.ids@, self.type_ids@, self.offsets@, self.attention_mask@)
    }
}

/// All four fields have the same length.
pub open spec fn same_lengths(v: EncodingView) -> bool {
    &&& v.1.len() == v.0.len()
    &&& v.2.len() == v.0.len()
    &&& v.3.len() == v.0.len()
}

impl Encoding {

    pub fn len(&self) -> (n: usize)
        ensures
            n == self.ids@.len(),
    {
        self.ids.len()
    }

    pub fn is_empty(&self) -> (b: bool)
        ensures
            b == (self.ids@.len() == 0),
    {
        self.ids.is_empty()
    }
}


/// Whether encodings are padded, and to which length.
#[derive(Debug, Clone, Copy, PartialEq, Eq)]
pub enum PaddingStrategy {
    Disabled,
    Fixed(usize),
}

/// Which side padding goes on.
#[derive(Debug, Clone, Copy, PartialEq, Eq)]
pub enum PaddingDirection {
    Right,
    Left,
}

#[derive(Debug, Clone, Copy)]
pub struct PaddingConfig {
    pub strategy: PaddingStrategy,
    pub direction: PaddingDirection,
    pub pad_id: TokenId,
    pub pad_type_id: u32,
}

/// `n` copies of `v`.
pub open spec fn copies<T>(v: T, n: nat) -> Seq<T> {
    Seq::new(n, |i: int| v)
}

/// `v` padded according to `p`.
pub open spec fn padded(p: PaddingConfig, v: EncodingView) -> EncodingView {
    match p.strategy {
        PaddingStrategy::Disabled => v,
        PaddingStrategy::Fixed(target) => if v.0.len() >= target {
            v
        } else {
            let k = (target - v.0.len()) as nat;
            match p.direction {
                PaddingDirection::Right => (
                    v.0 + copies(p.pad_id, k),
                    v.1 + copies(p.pad_type_id, k),
                    v.2 + copies((0usize, 0usize), k),
                    v.3 + copies(0u32, k),
                ),
                PaddingDirection::Left => (
                    copies(p.pad_id, k) + v.0,
                    copies(p.pad_type_id, k) + v.1,
                    copies((0usize, 0usize), k) + v.2,
                    copies(0u32, k) + v.3,
                ),
            }
        },
    }
}

/// Whether vocabulary position `j` cannot be given an id: it does not fit
/// a `u32`, or its entry already occurred.
pub open spec fn vocab_problem_at(v: Seq<Seq<char>>, j: int) -> bool {
    j > u32::MAX || v.take(j).contains(v[j])
}

/// The first vocabulary position from `j` on that cannot be given an id.
pub open spec fn first_vocab_problem(v: Seq<Seq<char>>, j: int) -> Option<int>
    decreases v.len() - j,
{
    if j < 0 || j >= v.len() {
        None
    } else if vocab_problem_at(v, j) {
        Some(j)
    } else {
        first_vocab_problem(v, j + 1)
    }
}

/// The vocabulary as character sequences.
pub open spec fn vocab_view(v: Seq<String>) -> Seq<Seq<char>> {
    v.map_values(|t: String| t@)
}

/// `v` contains `t`.
pub open spec fn in_vocab(v: Seq<Seq<char>>, t: Seq<char>) -> bool {
    v.contains(t)
}

/// All special tokens of `data` are in its vocabulary, in the order they
/// are checked.
pub open spec fn first_missing_special(data: SovereignTokenizerData) -> Option<(Seq<char>, Seq<char>)> {
    let v = vocab_view(data.vocab@);
    let sp = data.special_tokens;
    if !in_vocab(v, sp.cls@) {
        Some(("cls"@, sp.cls@))
    } else if !in_vocab(v, sp.sep@) {
        Some(("sep"@, sp.sep@))
    } else if !in_vocab(v, sp.pad@) {
        Some(("pad"@, sp.pad@))
    } else if !in_vocab(v, sp.unk@) {
        Some(("unk"@, sp.unk@))
    } else if !in_vocab(v, sp.mask@) {
        Some(("mask"@, sp.mask@))
    } else {
        None
    }
}

/// Position of `t` in `v`.
pub open spec fn position_of(v: Seq<Seq<char>>, t: Seq<char>) -> int {
    choose|i: int| 0 <= i < v.len() && v[i] == t
}

/// The error `from_data` reports for `data`, when there is one.
pub open spec fn data_error(data: SovereignTokenizerData, e: TokenizerError) -> bool {
    let v = vocab_view(data.vocab@);
    if v.len() == 0 {
        e matches TokenizerError::VocabInvalid { reason } && reason@ == "vocab is empty"@
    } else if first_vocab_problem(v, 0) is Some {
        let j = first_vocab_problem(v, 0)->0;
        if j > u32::MAX {
            e matches TokenizerError::VocabInvalid { reason } && reason@ == "vocab too large: "@
                + decimal(v.len())
        } else {
            e matches TokenizerError::VocabInvalid { reason } && reason@
                == "duplicate vocab entry: "@ + v[j]
        }
    } else if first_missing_special(data) is Some {
        let (name, tok) = first_missing_special(data)->0;
        e matches TokenizerError::SpecialTokenMissing { token } && token@ == name + " ("@ + tok
            + ")"@
    } else if data.padding.enabled && data.padding.pad_id != position_of(v, data.special_tokens.pad@) {
        e matches TokenizerError::VocabInvalid { reason } && reason@ == "padding pad_id "@ + decimal(
            data.padding.pad_id as nat,
        ) + " does not match special pad token id "@ + decimal(
            position_of(v, data.special_tokens.pad@) as nat,
        )
    } else {
        e == (TokenizerError::SpecialTokenMissing { token: data.wordpiece.unk_token })
    }
}

/// `from_data` accepts `data`.
pub open spec fn data_ok(data: SovereignTokenizerData) -> bool {
    let v = vocab_view(data.vocab@);
    &&& v.len() > 0
    &&& first_vocab_problem(v, 0) is None
    &&& first_missing_special(data) is None
    &&& !(data.padding.enabled && data.padding.pad_id != position_of(v, data.special_tokens.pad@))
    &&& in_vocab(v, data.wordpiece.unk_token@)
}

pub open spec fn truncation_strategy_of(s: TruncationStrategyDisk) -> TruncationStrategy {
    match s {
        TruncationStrategyDisk::LongestFirst => TruncationStrategy::LongestFirst,
        TruncationStrategyDisk::OnlyFirst => TruncationStrategy::OnlyFirst,
        TruncationStrategyDisk::OnlySecond => TruncationStrategy::OnlySecond,
    }
}

pub open spec fn padding_of(data: SovereignTokenizerData) -> PaddingConfig {
    PaddingConfig {
        strategy: if data.padding.enabled {
            match data.padding.strategy {
                PaddingStrategyDisk::Disabled => PaddingStrategy::Disabled,
                PaddingStrategyDisk::Fixed(n) => PaddingStrategy::Fixed(n),
            }
        } else {
            PaddingStrategy::Disabled
        },
        direction: match data.padding.direction {
            PaddingDirectionDisk::Right => PaddingDirection::Right,
            PaddingDirectionDisk::Left => PaddingDirection::Left,
        },
        pad_id: data.padding.pad_id,
        pad_type_id: data.padding.pad_type_id,
    }
}

/// The tokenizer. Its vocabulary maps each entry to its position.
pub struct SovereignTokenizer {
    normalizer: Normalizer,
    pretokenizer: PreTokenizer,
    wordpiece: WordPiece,
    truncation: TruncationConfig,
    padding: PaddingConfig,
    reverse_vocab: Vec<String>,
    cls_id: TokenId,
    sep_id: TokenId,
    pad_id: TokenId,
    unk_id: TokenId,
    mask_id: TokenId,
    continuing_prefix: String,
}

impl SovereignTokenizer {
    #[verifier::type_invariant]
    pub closed spec fn well_formed(self) -> bool {
        let v = vocab_view(self.reverse_vocab@);
        let m = self.wordpiece.vocab_map();
        &&& self.wordpiece.well_formed()
        &&& v.len() <= u32::MAX + 1
        &&& forall|i: int| 0 <= i < v.len() ==> #[trigger] m.contains_key(v[i]) && m[v[i]] == i
        &&& forall|t: Seq<char>| #[trigger] m.contains_key(t) ==> v.contains(t)
        &&& self.continuing_prefix@ == self.wordpiece.config().continuing_subword_prefix@
    }

    pub closed spec fn norm_config(&self) -> NormalizerConfig {
        self.normalizer.config()
    }

    pub closed spec fn pretok_config(&self) -> PreTokConfig {
        self.pretokenizer.config()
    }

    pub closed spec fn wordpiece_model(&self) -> WordPiece {
        self.wordpiece
    }

    pub closed spec fn truncation_config(&self) -> TruncationConfig {
        self.truncation
    }

    pub closed spec fn padding_config(&self) -> PaddingConfig {
        self.padding
    }

    /// The vocabulary in id order.
    pub closed spec fn vocab(&self) -> Seq<Seq<char>> {
        vocab_view(self.reverse_vocab@)
    }

    /// The special ids: CLS, SEP, PAD, UNK, MASK.
    pub closed spec fn specials(&self) -> (TokenId, TokenId, TokenId, TokenId, TokenId) {
        (self.cls_id, self.sep_id, self.pad_id, self.unk_id, self.mask_id)
    }

    /// Ids WordPiece gives one pre-token.
    pub open spec fn piece_ids(&self, piece: Seq<char>) -> Seq<TokenId> {
        wordpiece_ids(
            self.wordpiece_model().vocab_map(),
            self.wordpiece_model().config().continuing_subword_prefix@,
            self.wordpiece_model().config().max_input_chars_per_word as nat,
            self.wordpiece_model().unk(),
            piece,
        )
    }

    /// Ids and offsets of the pre-tokens at `spans` of `norm`.
    pub open spec fn ids_of_spans(&self, norm: Seq<char>, align: Seq<usize>, spans: Seq<(int, int)>) -> (
        Seq<TokenId>,
        Seq<(usize, usize)>,
    )
        decreases spans.len(),
    {
        if spans.len() == 0 {
            (Seq::empty(), Seq::empty())
        } else {
            let r = self.ids_of_spans(norm, align, spans.drop_last());
            let sp = spans.last();
            let ids = self.piece_ids(norm.subrange(sp.0, sp.1));
            (
                r.0 + ids,
                r.1 + copies(span_offsets(self.pretok_config(), norm, align, sp.0, sp.1), ids.len()),
            )
        }
    }

    /// The encoding of `text` before special tokens, truncation and padding.
    pub open spec fn raw(&self, text: Seq<char>) -> EncodingView {
        let norm = normalized(self.norm_config(), text);
        let align = alignment_of(self.norm_config(), text);
        let r = self.ids_of_spans(norm, align, pretoken_spans(self.pretok_config(), norm));
        (r.0, copies(0u32, r.0.len()), r.1, copies(1u32, r.0.len()))
    }

    /// `v` cut to leave room for CLS and SEP, then wrapped in them.
    pub open spec fn with_specials(&self, v: EncodingView) -> EncodingView {
        let max = self.truncation_config().max_length;
        let c = cut_to_budget(v, if max >= 2 { max - 2 } else { 0 });
        (
            seq![self.specials().0] + c.0 + seq![self.specials().1],
            seq![0u32] + c.1 + seq![0u32],
            seq![(0usize, 0usize)] + c.2 + seq![(0usize, 0usize)],
            seq![1u32] + c.3 + seq![1u32],
        )
    }

    /// The pair `a`, `b` joined, with CLS and SEPs when `add`.
    pub open spec fn joined(&self, a: EncodingView, b: EncodingView, add: bool) -> EncodingView {
        if add {
            (
                seq![self.specials().0] + a.0 + seq![self.specials().1] + b.0 + seq![self.specials().1],
                seq![0u32] + copies(0u32, a.0.len()) + seq![0u32] + copies(1u32, b.0.len()) + seq![1u32],
                seq![(0usize, 0usize)] + a.2 + seq![(0usize, 0usize)] + b.2 + seq![(0usize, 0usize)],
                copies(1u32, a.0.len() + b.0.len() + 3),
            )
        } else {
            (a.0 + b.0, a.1 + copies(1u32, b.0.len()), a.2 + b.2, a.3 + copies(1u32, b.0.len()))
        }
    }
}

/// The vocabulary map of `v.take(n)`: each entry to its position.
pub open spec fn indexes_prefix(m: Map<Seq<char>, TokenId>, v: Seq<Seq<char>>, n: int) -> bool {
    &&& forall|i: int| 0 <= i < n ==> #[trigger] m.contains_key(v[i]) && m[v[i]] == i
    &&& forall|t: Seq<char>| #[trigger] m.contains_key(t) ==> v.take(n).contains(t)
}

proof fn lemma_index_of(m: Map<Seq<char>, TokenId>, v: Seq<Seq<char>>, t: Seq<char>)
    requires
        indexes_prefix(m, v, v.len() as int),
        m.contains_key(t),
    ensures
        0 <= m[t] < v.len(),
        v[m[t] as int] == t,
        position_of(v, t) == m[t],
        in_vocab(v, t),
{
    assert(v.take(v.len() as int) =~= v);
    let i = choose|i: int| 0 <= i < v.len() && v.take(v.len() as int)[i] == t;
    assert(v[i] == t);
    assert(m[v[i]] == i);
    let p = position_of(v, t);
    assert(0 <= p < v.len() && v[p] == t);
    assert(m[v[p]] == p);
}

proof fn lemma_not_in_vocab(m: Map<Seq<char>, TokenId>, v: Seq<Seq<char>>, t: Seq<char>)
    requires
        indexes_prefix(m, v, v.len() as int),
        !m.contains_key(t),
    ensures
        !in_vocab(v, t),
{
    if in_vocab(v, t) {
        let i = choose|i: int| 0 <= i < v.len() && v[i] == t;
        assert(m.contains_key(v[i]));
    }
}

proof fn lemma_first_problem_none(v: Seq<Seq<char>>, j: int, k: int)
    requires
        0 <= j <= k < v.len(),
        first_vocab_problem(v, j) is None,
    ensures
        !vocab_problem_at(v, k),
    decreases k - j,
{
    if j < k {
        lemma_first_problem_none(v, j + 1, k);
    }
}

proof fn lemma_first_problem_skip(v: Seq<Seq<char>>, j: int)
    requires
        0 <= j < v.len(),
        !vocab_problem_at(v, j),
    ensures
        first_vocab_problem(v, j) == first_vocab_problem(v, j + 1),
{
}

/// Look up a special token by its text.
fn lookup_special(wp_vocab: &Vocab, name: &str, tok: &String) -> (r: Result<TokenId>)
    ensures
        wp_vocab@.contains_key(tok@) ==> r == Ok::<TokenId, TokenizerError>(wp_vocab@[tok@]),
        !wp_vocab@.contains_key(tok@) ==> (r matches Err(TokenizerError::SpecialTokenMissing { token })
            && token@ == name@ + " ("@ + tok@ + ")"@),
{
    match wp_vocab.get(tok.as_str()) {
        Some(id) => Ok(*id),
        None => {
            let mut token = String::new();
            push_str(&mut token, name);
            push_str(&mut token, " (");
            push_str(&mut token, tok.as_str());
            push_str(&mut token, ")");
            Err(TokenizerError::SpecialTokenMissing { token })
        },
    }
}

impl SovereignTokenizer {
    /// Build a tokenizer from its stored configuration, validating the
    /// vocabulary, the special tokens and the padding id.
    pub fn from_data(data: SovereignTokenizerData) -> (r: Result<Self>)
        ensures
            r is Ok <==> data_ok(data),
            r matches Err(e) ==> data_error(data, e),
            r matches Ok(t) ==> {
                let v = vocab_view(data.vocab@);
                &&& t.vocab() == v
                &&& t.norm_config() == (NormalizerConfig {
                    lowercase: data.normalizer.lowercase,
                    strip_accents: data.normalizer.strip_accents,
                    handle_chinese_chars: data.normalizer.handle_chinese_chars,
                    clean_text: data.normalizer.clean_text,
                })
                &&& t.pretok_config().do_basic_split == data.pretokenizer.do_basic_split
                &&& t.pretok_config().never_split == data.pretokenizer.never_split
                &&& t.wordpiece_model().config().unk_token == data.wordpiece.unk_token
                &&& t.wordpiece_model().config().continuing_subword_prefix
                    == data.wordpiece.continuing_subword_prefix
                &&& t.wordpiece_model().config().max_input_chars_per_word
                    == data.wordpiece.max_input_chars_per_word
                &&& t.truncation_config().max_length == data.truncation.max_length
                &&& t.truncation_config().strategy == truncation_strategy_of(data.truncation.strategy)
                &&& t.truncation_config().stride == data.truncation.stride
                &&& t.padding_config() == padding_of(data)
                &&& v[t.specials().0 as int] == data.special_tokens.cls@
                &&& v[t.specials().1 as int] == data.special_tokens.sep@
                &&& v[t.specials().2 as int] == data.special_tokens.pad@
                &&& v[t.specials().3 as int] == data.special_tokens.unk@
                &&& v[t.specials().4 as int] == data.special_tokens.mask@
                &&& t.specials().0 < v.len() && t.specials().1 < v.len() && t.specials().2 < v.len()
                    && t.specials().3 < v.len() && t.specials().4 < v.len()
            },
    {
        let ghost v = vocab_view(data.vocab@);
        if data.vocab.len() == 0 {
            let mut reason = String::new();
            push_str(&mut reason, "vocab is empty");
            return Err(TokenizerError::VocabInvalid { reason });
        }
        let mut vocab: Vocab = Vocab::new();
        let n = data.vocab.len();
        let mut i: usize = 0;
        while i < n
            invariant
                n == data.vocab@.len(),
                v == vocab_view(data.vocab@),
                i <= n,
                indexes_prefix(vocab@, v, i as int),
                first_vocab_problem(v, 0) == first_vocab_problem(v, i as int),
            decreases n - i,
        {
            if i > 0xFFFF_FFFF {
                let mut reason = String::new();
                push_str(&mut reason, "vocab too large: ");
                push_decimal(&mut reason, n as u64);
                return Err(TokenizerError::VocabInvalid { reason });
            }
            let tok = &data.vocab[i];
            if vocab.contains_key(tok.as_str()) {
                proof {
                    assert(v[i as int] == tok@);
                    assert(v.take(i as int).contains(v[i as int]));
                }
                let mut reason = String::new();
                push_str(&mut reason, "duplicate vocab entry: ");
                push_str(&mut reason, tok.as_str());
                return Err(TokenizerError::VocabInvalid { reason });
            }
            proof {
                assert(v[i as int] == tok@);
                if v.take(i as int).contains(v[i as int]) {
                    let k = choose|k: int| 0 <= k < i && v.take(i as int)[k] == v[i as int];
                    assert(vocab@.contains_key(v[k]));
                }
                lemma_first_problem_skip(v, i as int);
            }
            vocab.insert(tok.clone(), i as u32);
            proof {
                assert forall|t: Seq<char>| #[trigger] vocab@.contains_key(t) implies v.take(i + 1).contains(t) by {
                    if t == v[i as int] {
                        assert(v.take(i + 1)[i as int] == t);
                    } else {
                        let k = choose|k: int| 0 <= k < i && v.take(i as int)[k] == t;
                        assert(v.take(i + 1)[k] == t);
                    }
                }
            }
            i += 1;
        }
        proof {
            assert(v.take(n as int) =~= v);
        }
        let specials = &data.special_tokens;
        proof {
            let m = vocab@;
            if m.contains_key(specials.cls@) { lemma_index_of(m, v, specials.cls@); } else { lemma_not_in_vocab(m, v, specials.cls@); }
            if m.contains_key(specials.sep@) { lemma_index_of(m, v, specials.sep@); } else { lemma_not_in_vocab(m, v, specials.sep@); }
            if m.contains_key(specials.pad@) { lemma_index_of(m, v, specials.pad@); } else { lemma_not_in_vocab(m, v, specials.pad@); }
            if m.contains_key(specials.unk@) { lemma_index_of(m, v, specials.unk@); } else { lemma_not_in_vocab(m, v, specials.unk@); }
            if m.contains_key(specials.mask@) { lemma_index_of(m, v, specials.mask@); } else { lemma_not_in_vocab(m, v, specials.mask@); }
            let u = data.wordpiece.unk_token@;
            if m.contains_key(u) { lemma_index_of(m, v, u); } else { lemma_not_in_vocab(m, v, u); }
            if n > 0 {
                lemma_first_problem_none(v, 0, n - 1);
            }
        }
        let cls_id = lookup_special(&vocab, "cls", &specials.cls)?;
        let sep_id = lookup_special(&vocab, "sep", &specials.sep)?;
        let pad_id = lookup_special(&vocab, "pad", &specials.pad)?;
        let unk_id = lookup_special(&vocab, "unk", &specials.unk)?;
        let mask_id = lookup_special(&vocab, "mask", &specials.mask)?;
        if data.padding.enabled && data.padding.pad_id != pad_id {
            let mut reason = String::new();
            push_str(&mut reason, "padding pad_id ");
            push_decimal(&mut reason, data.padding.pad_id as u64);
            push_str(&mut reason, " does not match special pad token id ");
            push_decimal(&mut reason, pad_id as u64);
            return Err(TokenizerError::VocabInvalid { reason });
        }
        let padding = PaddingConfig {
            strategy: if data.padding.enabled {
                match data.padding.strategy {
                    PaddingStrategyDisk::Disabled => PaddingStrategy::Disabled,
                    PaddingStrategyDisk::Fixed(k) => PaddingStrategy::Fixed(k),
                }
            } else {
                PaddingStrategy::Disabled
            },
            direction: match data.padding.direction {
                PaddingDirectionDisk::Right => PaddingDirection::Right,
                PaddingDirectionDisk::Left => PaddingDirection::Left,
            },
            pad_id: data.padding.pad_id,
            pad_type_id: data.padding.pad_type_id,
        };
        let truncation = TruncationConfig {
            max_length: data.truncation.max_length,
            strategy: match data.truncation.strategy {
                TruncationStrategyDisk::LongestFirst => TruncationStrategy::LongestFirst,
                TruncationStrategyDisk::OnlyFirst => TruncationStrategy::OnlyFirst,
                TruncationStrategyDisk::OnlySecond => TruncationStrategy::OnlySecond,
            },
            stride: data.truncation.stride,
        };
        let normalizer = Normalizer::new(
            NormalizerConfig {
                lowercase: data.normalizer.lowercase,
                strip_accents: data.normalizer.strip_accents,
                handle_chinese_chars: data.normalizer.handle_chinese_chars,
                clean_text: data.normalizer.clean_text,
            },
        );
        let ghost d = data;
        let SovereignTokenizerData {
            vocab: words,
            normalizer: _,
            pretokenizer: pre_disk,
            wordpiece: wp_disk,
            truncation: _,
            special_tokens: _,
            padding: _,
        } = data;
        let pretokenizer = PreTokenizer::new(
            PreTokConfig { do_basic_split: pre_disk.do_basic_split, never_split: pre_disk.never_split },
        );
        let continuing_prefix = wp_disk.continuing_subword_prefix.clone();
        let wordpiece = WordPiece::new(
            WordPieceConfig {
                unk_token: wp_disk.unk_token,
                continuing_subword_prefix: wp_disk.continuing_subword_prefix,
                max_input_chars_per_word: wp_disk.max_input_chars_per_word,
            },
            vocab,
        )?;
        proof {
            use_type_invariant(&wordpiece);
            assert(v.take(n as int) =~= v);
        }
        Ok(
            SovereignTokenizer {
                normalizer,
                pretokenizer,
                wordpiece,
                truncation,
                padding,
                reverse_vocab: words,
                cls_id,
                sep_id,
                pad_id,
                unk_id,
                mask_id,
                continuing_prefix,
            },
        )
    }
}

/// The text of a normalized `Cow`.
fn cow_str<'a>(c: &'a Cow<'a, str>) -> (s: &'a str)
    ensures
        s@ == c@,
{
    match c {
        Cow::Borrowed(b) => b,
        Cow::Owned(o) => o.as_str(),
    }
}

/// `n` copies of `v` as a vector.
fn copies_vec(v: u32, n: usize) -> (r: Vec<u32>)
    ensures
        r@ == copies(v, n as nat),
{
    let mut r: Vec<u32> = Vec::new();
    let mut i: usize = 0;
    while i < n
        invariant
            i <= n,
            r@ == copies(v, i as nat),
        decreases n - i,
    {
        r.push(v);
        i += 1;
        assert(r@ =~= copies(v, i as nat));
    }
    r
}

impl SovereignTokenizer {
    fn encode_raw(&self, text: &str) -> (e: Encoding)
        ensures
            e@ == self.raw(text@),
            same_lengths(e@),
    {
        let (normalized_text, alignment) = self.normalizer.normalize(text);
        let norm: &str = cow_str(&normalized_text);
        let pre_tokens = self.pretokenizer.pre_tokenize(norm, &alignment);
        let ghost spans = pretoken_spans(self.pretok_config(), norm@);
        let ghost align = alignment@;
        let mut ids: Vec<TokenId> = Vec::new();
        let mut offsets: Vec<(usize, usize)> = Vec::new();
        let mut k: usize = 0;
        while k < pre_tokens.len()
            invariant
                k <= pre_tokens@.len(),
                pretokens_of(self.pretok_config(), norm@, align, pre_tokens@),
                spans == pretoken_spans(self.pretok_config(), norm@),
                (ids@, offsets@) == self.ids_of_spans(norm@, align, spans.take(k as int)),
            decreases pre_tokens@.len() - k,
        {
            let pt = pre_tokens[k];
            let sub_ids = self.wordpiece.tokenize(pt.text);
            let ghost ids0 = ids@;
            let ghost offs0 = offsets@;
            let mut j: usize = 0;
            while j < sub_ids.len()
                invariant
                    j <= sub_ids@.len(),
                    ids@ == ids0 + sub_ids@.take(j as int),
                    offsets@ == offs0 + copies(pt.offsets, j as nat),
                decreases sub_ids@.len() - j,
            {
                ids.push(sub_ids[j]);
                offsets.push(pt.offsets);
                j += 1;
                assert(ids@ =~= ids0 + sub_ids@.take(j as int));
                assert(offsets@ =~= offs0 + copies(pt.offsets, j as nat));
            }
            proof {
                assert(sub_ids@.take(j as int) =~= sub_ids@);
                assert(spans.take(k + 1).drop_last() =~= spans.take(k as int));
                assert(spans[k as int] == spans.take(k + 1).last());
            }
            k += 1;
        }
        proof {
            assert(spans.take(k as int) =~= spans);
            lemma_ids_of_spans_lengths(self, norm@, align, spans);
        }
        let n = ids.len();
        let type_ids = copies_vec(0, n);
        let attention_mask = copies_vec(1, n);
        Encoding { ids, type_ids, offsets, attention_mask }
    }
}

fn push_copies<T: Copy>(v: &mut Vec<T>, x: T, n: usize)
    ensures
        final(v)@ == old(v)@ + copies(x, n as nat),
{
    let ghost v0 = v@;
    let mut i: usize = 0;
    while i < n
        invariant
            i <= n,
            v@ == v0 + copies(x, i as nat),
        decreases n - i,
    {
        v.push(x);
        i += 1;
        assert(v@ =~= v0 + copies(x, i as nat));
    }
}

fn prepend_copies<T: Copy>(v: &mut Vec<T>, x: T, n: usize)
    ensures
        final(v)@ == copies(x, n as nat) + old(v)@,
{
    let mut out: Vec<T> = Vec::new();
    push_copies(&mut out, x, n);
    let mut i: usize = 0;
    let ghost head = out@;
    while i < v.len()
        invariant
            i <= v@.len(),
            out@ == head + v@.take(i as int),
        decreases v@.len() - i,
    {
        out.push(v[i]);
        i += 1;
        assert(out@ =~= head + v@.take(i as int));
    }
    assert(v@.take(i as int) =~= v@);
    *v = out;
}

impl SovereignTokenizer {
    fn apply_padding(&self, enc: &mut Encoding)
        ensures
            final(enc)@ == padded(self.padding_config(), old(enc)@),
    {
        let target = match self.padding.strategy {
            PaddingStrategy::Disabled => return,
            PaddingStrategy::Fixed(n) => n,
        };
        if enc.ids.len() >= target {
            return;
        }
        let pad_count = target - enc.ids.len();
        match self.padding.direction {
            PaddingDirection::Right => {
                push_copies(&mut enc.ids, self.padding.pad_id, pad_count);
                push_copies(&mut enc.type_ids, self.padding.pad_type_id, pad_count);
                push_copies(&mut enc.offsets, (0usize, 0usize), pad_count);
                push_copies(&mut enc.attention_mask, 0u32, pad_count);
            },
            PaddingDirection::Left => {
                prepend_copies(&mut enc.ids, self.padding.pad_id, pad_count);
                prepend_copies(&mut enc.type_ids, self.padding.pad_type_id, pad_count);
                prepend_copies(&mut enc.offsets, (0usize, 0usize), pad_count);
                prepend_copies(&mut enc.attention_mask, 0u32, pad_count);
            },
        }
    }

    /// Encode one text. With special tokens the text is cut to leave room for
    /// CLS and SEP; without, it is cut to `max_length`, which must then be
    /// positive. Padding comes last.
    pub fn encode(&self, text: &str, add_special_tokens: bool) -> (r: Result<Encoding>)
        ensures
            add_special_tokens ==> (r matches Ok(e) && e@ == padded(
                self.padding_config(),
                self.with_specials(self.raw(text@)),
            )),
            !add_special_tokens && self.truncation_config().max_length > 0 ==> (r matches Ok(e) && e@
                == padded(
                self.padding_config(),
                cut_to_budget(self.raw(text@), self.truncation_config().max_length as int),
            )),
            !add_special_tokens && self.truncation_config().max_length == 0 ==> r == Err::<
                Encoding,
                TokenizerError,
            >(
                TokenizerError::TruncationImpossible {
                    strategy: self.truncation_config().strategy,
                    max_length: 0,
                    special_tokens: 0,
                },
            ),
    {
        let mut enc = self.encode_raw(text);
        if add_special_tokens {
            let budget = if self.truncation.max_length >= 2 {
                self.truncation.max_length - 2
            } else {
                0
            };
            let ghost raw = enc@;
            if enc.ids.len() > budget {
                enc.ids.truncate(budget);
                enc.type_ids.truncate(budget);
                enc.offsets.truncate(budget);
                enc.attention_mask.truncate(budget);
            }
            let ghost c = enc@;
            proof {
                assert(c.0 =~= cut_to_budget(raw, budget as int).0);
                assert(c.1 =~= cut_to_budget(raw, budget as int).1);
                assert(c.2 =~= cut_to_budget(raw, budget as int).2);
                assert(c.3 =~= cut_to_budget(raw, budget as int).3);
            }
            enc.ids.insert(0, self.cls_id);
            enc.type_ids.insert(0, 0);
            enc.offsets.insert(0, (0, 0));
            enc.attention_mask.insert(0, 1);
            enc.ids.push(self.sep_id);
            enc.type_ids.push(0);
            enc.offsets.push((0, 0));
            enc.attention_mask.push(1);
            proof {
                let w = self.with_specials(raw);
                assert(enc.ids@ =~= w.0);
                assert(enc.type_ids@ =~= w.1);
                assert(enc.offsets@ =~= w.2);
                assert(enc.attention_mask@ =~= w.3);
            }
        } else {
            Truncation::apply_single(&mut enc, &self.truncation, 0)?;
        }
        self.apply_padding(&mut enc);
        Ok(enc)
    }
}

/// Append every token of `part` with segment id `type_id` and mask 1.
fn append_part(out: &mut Encoding, part: &Encoding, type_id: u32)
    requires
        same_lengths(part@),
    ensures
        final(out)@ == (
            old(out)@.0 + part@.0,
            old(out)@.1 + copies(type_id, part@.0.len()),
            old(out)@.2 + part@.2,
            old(out)@.3 + copies(1u32, part@.0.len()),
        ),
{
    let ghost o0 = out@;
    let n = part.ids.len();
    let mut i: usize = 0;
    while i < n
        invariant
            n == part@.0.len(),
            same_lengths(part@),
            i <= n,
            out@ == (
                o0.0 + part@.0.take(i as int),
                o0.1 + copies(type_id, i as nat),
                o0.2 + part@.2.take(i as int),
                o0.3 + copies(1u32, i as nat),
            ),
        decreases n - i,
    {
        out.ids.push(part.ids[i]);
        out.type_ids.push(type_id);
        out.offsets.push(part.offsets[i]);
        out.attention_mask.push(1);
        i += 1;
        assert(out.ids@ =~= o0.0 + part@.0.take(i as int));
        assert(out.type_ids@ =~= o0.1 + copies(type_id, i as nat));
        assert(out.offsets@ =~= o0.2 + part@.2.take(i as int));
        assert(out.attention_mask@ =~= o0.3 + copies(1u32, i as nat));
    }
    assert(part@.0.take(n as int) =~= part@.0);
    assert(part@.2.take(n as int) =~= part@.2);
}

/// Append one special token with segment id `type_id`.
fn push_special(out: &mut Encoding, id: TokenId, type_id: u32)
    ensures
        final(out)@ == (
            old(out)@.0.push(id),
            old(out)@.1.push(type_id),
            old(out)@.2.push((0usize, 0usize)),
            old(out)@.3.push(1u32),
        ),
{
    out.ids.push(id);
    out.type_ids.push(type_id);
    out.offsets.push((0, 0));
    out.attention_mask.push(1);
}

proof fn lemma_pair_truncated_lengths(a: EncodingView, b: EncodingView, st: TruncationStrategy, budget: nat)
    requires
        same_lengths(a),
        same_lengths(b),
    ensures
        pair_truncated(a, b, st, budget) matches Some((a1, b1)) ==> same_lengths(a1) && same_lengths(b1),
{
    let la = a.0.len();
    let lb = b.0.len();
    if la + lb > budget {
        match st {
            TruncationStrategy::LongestFirst => {
                let p = crate::tokenizer::truncation::longest_first_pops(la, lb, budget);
                lemma_same_lengths_kept(a, 0, p.0);
                lemma_same_lengths_kept(b, 0, p.1);
            },
            TruncationStrategy::OnlyFirst => {
                if lb < budget {
                    lemma_same_lengths_kept(a, budget - lb, 0);
                }
            },
            TruncationStrategy::OnlySecond => {
                if la < budget {
                    lemma_same_lengths_kept(b, budget - la, 0);
                }
            },
        }
    }
}

impl SovereignTokenizer {
    /// Encode a pair of texts: both are truncated together to fit
    /// `max_length` (less three special tokens when they are added), then
    /// joined as `[CLS] a [SEP] b [SEP]` or `a b`, then padded.
    pub fn encode_pair(&self, text_a: &str, text_b: &str, add_special_tokens: bool) -> (r: Result<Encoding>)
        ensures
            ({
                let max = self.truncation_config().max_length;
                let reserved: usize = if add_special_tokens { 3 } else { 0 };
                let t = pair_truncated(
                    self.raw(text_a@),
                    self.raw(text_b@),
                    self.truncation_config().strategy,
                    (max - reserved) as nat,
                );
                if max <= reserved || t is None {
                    r == Err::<Encoding, TokenizerError>(
                        TokenizerError::TruncationImpossible {
                            strategy: self.truncation_config().strategy,
                            max_length: max,
                            special_tokens: reserved,
                        },
                    )
                } else {
                    r matches Ok(e) && e@ == padded(
                        self.padding_config(),
                        self.joined((t->0).0, (t->0).1, add_special_tokens),
                    )
                }
            }),
    {
        let mut a = self.encode_raw(text_a);
        let mut b = self.encode_raw(text_b);
        let reserved: usize = if add_special_tokens { 3 } else { 0 };
        proof {
            if self.truncation.max_length > reserved {
                lemma_pair_truncated_lengths(a@, b@, self.truncation.strategy, (self.truncation.max_length - reserved) as nat);
            }
        }
        Truncation::apply_pair(&mut a, &mut b, &self.truncation, reserved)?;
        let mut out = if add_special_tokens {
            let mut out = Encoding {
                ids: Vec::new(),
                type_ids: Vec::new(),
                offsets: Vec::new(),
                attention_mask: Vec::new(),
            };
            let ghost e0 = out@;
            push_special(&mut out, self.cls_id, 0);
            append_part(&mut out, &a, 0);
            push_special(&mut out, self.sep_id, 0);
            append_part(&mut out, &b, 1);
            push_special(&mut out, self.sep_id, 1);
            proof {
                let j = self.joined(a@, b@, true);
                assert(out.ids@ =~= j.0);
                assert(out.type_ids@ =~= j.1);
                assert(out.offsets@ =~= j.2);
                assert(out.attention_mask@ =~= j.3);
            }
            out
        } else {
            let mut out = a;
            append_part(&mut out, &b, 1);
            out
        };
        self.apply_padding(&mut out);
        Ok(out)
    }
}

impl SovereignTokenizer {
    /// The continuing-subword prefix.
    pub open spec fn prefix(&self) -> Seq<char> {
        self.wordpiece_model().config().continuing_subword_prefix@
    }

    /// Decoding state after one more id: special tokens are dropped, pieces
    /// that start with the prefix are glued to what precedes them without
    /// it, and every other token is separated by one space.
    pub open spec fn decode_step(&self, acc: (Seq<char>, bool), id: TokenId) -> (Seq<char>, bool) {
        let sp = self.specials();
        if id == sp.0 || id == sp.1 || id == sp.2 {
            acc
        } else {
            let tok = self.vocab()[id as int];
            let p = self.prefix();
            if crate::text::has_at(tok, p, 0) {
                (acc.0 + tok.skip(p.len() as int), false)
            } else {
                (acc.0 + (if !acc.1 { seq![' '] } else { Seq::empty() }) + tok, false)
            }
        }
    }

    /// Decoding state after `ids`; the flag tells that nothing was emitted yet.
    pub open spec fn decode_state(&self, ids: Seq<TokenId>) -> (Seq<char>, bool)
        decreases ids.len(),
    {
        if ids.len() == 0 {
            (Seq::empty(), true)
        } else {
            self.decode_step(self.decode_state(ids.drop_last()), ids.last())
        }
    }

    /// Index of the first id from `j` on outside the vocabulary.
    pub open spec fn first_unknown_id(&self, ids: Seq<TokenId>, j: int) -> Option<int>
        decreases ids.len() - j,
    {
        if j < 0 || j >= ids.len() {
            None
        } else if ids[j] >= self.vocab().len() {
            Some(j)
        } else {
            self.first_unknown_id(ids, j + 1)
        }
    }

    /// Turn ids back into text.
    pub fn decode(&self, ids: &[TokenId]) -> (r: Result<String>)
        ensures
            self.first_unknown_id(ids@, 0) is None ==> (r matches Ok(out) && out@ == self.decode_state(
                ids@,
            ).0),
            self.first_unknown_id(ids@, 0) matches Some(j) ==> (r matches Err(
                TokenizerError::VocabInvalid { reason },
            ) && reason@ == "id "@ + decimal(ids@[j] as nat) + " out of range (vocab size "@
                + decimal(self.vocab().len()) + ")"@),
    {
        proof {
            use_type_invariant(self);
        }
        let pchars = chars_of(self.continuing_prefix.as_str());
        let mut out = String::new();
        let mut first = true;
        let mut k: usize = 0;
        while k < ids.len()
            invariant
                k <= ids@.len(),
                pchars@ == self.prefix(),
                self.first_unknown_id(ids@, 0) == self.first_unknown_id(ids@, k as int),
                (out@, first) == self.decode_state(ids@.take(k as int)),
                self.reverse_vocab@.len() == self.vocab().len(),
            decreases ids@.len() - k,
        {
            let id = ids[k];
            proof {
                assert(ids@.take(k + 1).drop_last() =~= ids@.take(k as int));
            }
            if id as usize >= self.reverse_vocab.len() {
                let mut reason = String::new();
                push_str(&mut reason, "id ");
                push_decimal(&mut reason, id as u64);
                push_str(&mut reason, " out of range (vocab size ");
                push_decimal(&mut reason, self.reverse_vocab.len() as u64);
                push_str(&mut reason, ")");
                return Err(TokenizerError::VocabInvalid { reason });
            }
            let tok: &str = self.reverse_vocab[id as usize].as_str();
            if id == self.cls_id || id == self.sep_id || id == self.pad_id {
                k += 1;
                continue;
            }
            let tchars = chars_of(tok);
            if chars_have_at(&tchars, &pchars, 0) {
                let rest = tok.substring_char(pchars.len(), tchars.len());
                push_str(&mut out, rest);
                proof {
                    assert(tok@.subrange(pchars@.len() as int, tchars@.len() as int) =~= tok@.skip(pchars@.len() as int));
                }
            } else {
                if !first {
                    crate::text::push_char(&mut out, ' ');
                }
                push_str(&mut out, tok);
                proof {
                    assert(out@ =~= self.decode_step(self.decode_state(ids@.take(k as int)), id).0);
                }
            }
            first = false;
            k += 1;
        }
        proof {
            assert(ids@.take(k as int) =~= ids@);
        }
        Ok(out)
    }

    pub fn vocab_size(&self) -> (n: usize)
        ensures
            n == self.vocab().len(),
    {
        self.reverse_vocab.len()
    }

    /// Id of the vocabulary entry `s`.
    pub fn token_id(&self, s: &str) -> (r: Option<TokenId>)
        ensures
            r is Some <==> self.vocab().contains(s@),
            r matches Some(id) ==> id < self.vocab().len() && self.vocab()[id as int] == s@,
    {
        proof {
            use_type_invariant(self);
        }
        let r = self.wordpiece.lookup(s);
        proof {
            if self.vocab().contains(s@) {
                let i = choose|i: int| 0 <= i < self.vocab().len() && self.vocab()[i] == s@;
                assert(self.wordpiece.vocab_map().contains_key(self.vocab()[i]));
            }
        }
        r
    }

    /// The vocabulary entry with id `id`.
    pub fn id_to_token(&self, id: TokenId) -> (r: Option<&str>)
        ensures
            r is Some <==> id < self.vocab().len(),
            r matches Some(t) ==> t@ == self.vocab()[id as int],
    {
        if (id as usize) < self.reverse_vocab.len() {
            Some(self.reverse_vocab[id as usize].as_str())
        } else {
            None
        }
    }

    pub fn cls_id(&self) -> (id: TokenId)
        ensures
            id == self.specials().0,
    {
        self.cls_id
    }

    pub fn sep_id(&self) -> (id: TokenId)
        ensures
            id == self.specials().1,
    {
        self.sep_id
    }

    pub fn pad_id(&self) -> (id: TokenId)
        ensures
            id == self.specials().2,
    {
        self.pad_id
    }

    pub fn unk_id(&self) -> (id: TokenId)
        ensures
            id == self.specials().3,
    {
        self.unk_id
    }

    pub fn mask_id(&self) -> (id: TokenId)
        ensures
            id == self.specials().4,
    {
        self.mask_id
    }

    pub fn max_length(&self) -> (n: usize)
        ensures
            n == self.truncation_config().max_length,
    {
        self.truncation.max_length
    }

    /// Override the configured maximum length.
    pub fn set_max_length(&mut self, max_length: usize)
        ensures
            final(self).truncation_config().max_length == max_length,
            final(self).truncation_config().strategy == old(self).truncation_config().strategy,
            final(self).truncation_config().stride == old(self).truncation_config().stride,
            final(self).norm_config() == old(self).norm_config(),
            final(self).pretok_config() == old(self).pretok_config(),
            final(self).wordpiece_model() == old(self).wordpiece_model(),
            final(self).padding_config() == old(self).padding_config(),
            final(self).vocab() == old(self).vocab(),
            final(self).specials() == old(self).specials(),
    {
        proof {
            use_type_invariant(&*self);
        }
        self.truncation.max_length = max_length;
    }
}

proof fn lemma_ids_of_spans_lengths(t: &SovereignTokenizer, norm: Seq<char>, align: Seq<usize>, spans: Seq<(int, int)>)
    ensures
        t.ids_of_spans(norm, align, spans).0.len() == t.ids_of_spans(norm, align, spans).1.len(),
    decreases spans.len(),
{
    if spans.len() > 0 {
        lemma_ids_of_spans_lengths(t, norm, align, spans.drop_last());
    }
}

/// Pair layout law: when `encode_pair` with special tokens succeeds, the
/// ids are CLS, a prefix of the first text's ids, SEP, a prefix of the
/// second text's ids and SEP; the type ids are 0 up to and including the
/// first SEP and 1 after it; every position is attended; the whole fits
/// `max_length`, and both texts are kept whole when they fit. Without
/// padding, that is the encoding itself.
pub proof fn law_pair_layout(t: &SovereignTokenizer, a: Seq<char>, b: Seq<char>)
    requires
        t.truncation_config().max_length > 3,
        pair_truncated(t.raw(a), t.raw(b), t.truncation_config().strategy, (t.truncation_config().max_length - 3) as nat) is Some,
    ensures
        ({
            let max = t.truncation_config().max_length;
            let ra = t.raw(a).0;
            let rb = t.raw(b).0;
            let p = pair_truncated(t.raw(a), t.raw(b), t.truncation_config().strategy, (max - 3) as nat)->0;
            let e = t.joined(p.0, p.1, true);
            let la = p.0.0.len();
            let lb = p.1.0.len();
            let (cls, sep) = (t.specials().0, t.specials().1);
            &&& la <= ra.len() && lb <= rb.len()
            &&& e.0 == seq![cls] + ra.take(la as int) + seq![sep] + rb.take(lb as int) + seq![sep]
            &&& e.1 == copies(0u32, la + 2) + copies(1u32, lb + 1)
            &&& e.3 == copies(1u32, la + lb + 3)
            &&& la + lb + 3 <= max
            &&& ra.len() + rb.len() + 3 <= max ==> la == ra.len() && lb == rb.len()
            &&& t.padding_config().strategy is Disabled ==> padded(t.padding_config(), e) == e
        }),
{
    let max = t.truncation_config().max_length;
    let p = pair_truncated(t.raw(a), t.raw(b), t.truncation_config().strategy, (max - 3) as nat)->0;
    lemma_pair_truncated_prefixes(t.raw(a), t.raw(b), t.truncation_config().strategy, (max - 3) as nat);
    let e = t.joined(p.0, p.1, true);
    let la = p.0.0.len();
    let lb = p.1.0.len();
    assert(e.1 =~= copies(0u32, la + 2) + copies(1u32, lb + 1));
    assert(e.3 =~= copies(1u32, la + lb + 3));
}

/// Padding law: a padded encoding has exactly the target length when it was
/// shorter (and is untouched otherwise); the original tokens keep their order
/// on the side away from the padding, and every added position has mask 0.
pub proof fn law_padding(p: PaddingConfig, v: EncodingView, target: usize)
    requires
        p.strategy == PaddingStrategy::Fixed(target),
        same_lengths(v),
    ensures
        ({
            let r = padded(p, v);
            let n = v.0.len();
            &&& same_lengths(r)
            &&& n >= target ==> r == v
            &&& n < target ==> r.0.len() == target
            &&& n < target && p.direction == PaddingDirection::Right ==> r.0.take(n as int) == v.0
                && forall|i: int| n <= i < target ==> #[trigger] r.3[i] == 0 && r.0[i] == p.pad_id
            &&& n < target && p.direction == PaddingDirection::Left ==> r.0.skip(target - n) == v.0
                && forall|i: int| 0 <= i < target - n ==> #[trigger] r.3[i] == 0 && r.0[i] == p.pad_id
        }),
{
    let r = padded(p, v);
    let n = v.0.len();
    if n < target {
        let k = (target - n) as nat;
        if p.direction == PaddingDirection::Right {
            assert(r.0.take(n as int) =~= v.0);
        } else {
            assert(r.0.skip(target - n) =~= v.0);
        }
    }
}

/// With special tokens, an encoding starts with CLS, ends with SEP, and
/// holds at most `max(max_length, 2)` tokens before padding.
pub proof fn law_specials_wrap(t: &SovereignTokenizer, v: EncodingView)
    requires
        same_lengths(v),
    ensures
        ({
            let w = t.with_specials(v);
            let max = t.truncation_config().max_length;
            &&& w.0[0] == t.specials().0
            &&& w.0.last() == t.specials().1
            &&& w.0.len() <= if max >= 2 { max as int } else { 2 }
            &&& w.0.len() >= 2
            &&& same_lengths(w)
        }),
{
    let max = t.truncation_config().max_length;
    lemma_same_lengths_kept(v, if max >= 2 { max - 2 } else { 0 }, 0);
}

proof fn lemma_decode_prepend_special(t: &SovereignTokenizer, id: TokenId, ids: Seq<TokenId>)
    requires
        id == t.specials().0 || id == t.specials().1 || id == t.specials().2,
    ensures
        t.decode_state(seq![id] + ids) == t.decode_state(ids),
    decreases ids.len(),
{
    let w = seq![id] + ids;
    if ids.len() == 0 {
        assert(w.drop_last() =~= Seq::<TokenId>::empty());
        assert(w.last() == id);
        assert(t.decode_state(w) == t.decode_step(t.decode_state(w.drop_last()), id));
    } else {
        assert(w.drop_last() =~= seq![id] + ids.drop_last());
        assert(w.last() == ids.last());
        lemma_decode_prepend_special(t, id, ids.drop_last());
        assert(t.decode_state(w) == t.decode_step(t.decode_state(w.drop_last()), w.last()));
    }
}

/// Decoding ignores the CLS and SEP that encoding wraps text in.
pub proof fn law_decode_ignores_wrapping(t: &SovereignTokenizer, ids: Seq<TokenId>)
    ensures
        t.decode_state(seq![t.specials().0] + ids + seq![t.specials().1]) == t.decode_state(ids),
{
    let wrapped = seq![t.specials().0] + ids + seq![t.specials().1];
    assert(wrapped.drop_last() =~= seq![t.specials().0] + ids);
    lemma_decode_prepend_special(t, t.specials().0, ids);
}

/// Whether `id` is one of the ids decoding drops: CLS, SEP or PAD.
pub open spec fn dropped_in_decode(t: &SovereignTokenizer, id: TokenId) -> bool {
    id == t.specials().0 || id == t.specials().1 || id == t.specials().2
}

/// Some id of `ids` is kept by decoding.
pub open spec fn keeps_some(t: &SovereignTokenizer, ids: Seq<TokenId>) -> bool {
    exists|j: int| 0 <= j < ids.len() && !dropped_in_decode(t, #[trigger] ids[j])
}

proof fn lemma_decode_flag(t: &SovereignTokenizer, ids: Seq<TokenId>)
    ensures
        t.decode_state(ids).1 == !keeps_some(t, ids),
    decreases ids.len(),
{
    if ids.len() > 0 {
        let p = ids.drop_last();
        lemma_decode_flag(t, p);
        if keeps_some(t, p) {
            let j = choose|j: int| 0 <= j < p.len() && !dropped_in_decode(t, #[trigger] p[j]);
            assert(ids[j] == p[j]);
        }
        if keeps_some(t, ids) && !dropped_in_decode(t, ids.last()) {
        } else if keeps_some(t, ids) {
            let j = choose|j: int| 0 <= j < ids.len() && !dropped_in_decode(t, #[trigger] ids[j]);
            assert(j < p.len());
            assert(p[j] == ids[j]);
        } else {
            assert(!dropped_in_decode(t, ids[ids.len() - 1]) ==> keeps_some(t, ids));
        }
    }
}

/// Decoding law: appending an id to the ids appends to the decoded text
/// (1) nothing, for CLS, SEP and PAD; (2) the id's vocabulary string
/// without the continuing-subword prefix, for a piece that starts with it;
/// (3) otherwise the id's vocabulary string itself, after one space when
/// an earlier id was kept, so `[UNK]`, `[MASK]` and every word appear.
pub proof fn law_decode_append(t: &SovereignTokenizer, ids: Seq<TokenId>, id: TokenId)
    requires
        (id as int) < t.vocab().len(),
    ensures
        ({
            let before = t.decode_state(ids).0;
            let after = t.decode_state(ids.push(id)).0;
            let tok = t.vocab()[id as int];
            let p = t.prefix();
            &&& (id == t.specials().0 || id == t.specials().1 || id == t.specials().2) ==> after == before
            &&& !(id == t.specials().0 || id == t.specials().1 || id == t.specials().2) && p.len() <= tok.len()
                && tok.take(p.len() as int) == p ==> after == before + tok.skip(p.len() as int)
            &&& !(id == t.specials().0 || id == t.specials().1 || id == t.specials().2) && !(p.len() <= tok.len()
                && tok.take(p.len() as int) == p) ==> after == before + (if exists|j: int|
                0 <= j < ids.len() && !(ids[j] == t.specials().0 || ids[j] == t.specials().1 || ids[j]
                    == t.specials().2) { seq![' '] } else { Seq::<char>::empty() }) + tok
        }),
{
    let q = ids.push(id);
    assert(q.drop_last() =~= ids);
    assert(q.last() == id);
    lemma_decode_flag(t, ids);
    let tok = t.vocab()[id as int];
    let p = t.prefix();
    assert(crate::text::has_at(tok, p, 0) == (p.len() <= tok.len() && tok.take(p.len() as int) == p)) by {
        if p.len() <= tok.len() {
            assert(tok.subrange(0, p.len() as int) =~= tok.take(p.len() as int));
        }
    }
    assert(keeps_some(t, ids) == exists|j: int|
        0 <= j < ids.len() && !(ids[j] == t.specials().0 || ids[j] == t.specials().1 || ids[j] == t.specials().2));
}

/// Plain pair law: without special tokens, a pair encodes as a prefix of
/// the first text's encoding followed by a prefix of the second's: ids and
/// offsets in that order, type id 0 on the first text's positions and 1 on
/// the second's, every position attended, at most `max_length` tokens, and
/// both texts whole when they fit.
pub proof fn law_pair_plain(t: &SovereignTokenizer, a: Seq<char>, b: Seq<char>)
    requires
        t.truncation_config().max_length > 0,
        pair_truncated(t.raw(a), t.raw(b), t.truncation_config().strategy, t.truncation_config().max_length as nat) is Some,
    ensures
        ({
            let max = t.truncation_config().max_length;
            let ra = t.raw(a);
            let rb = t.raw(b);
            let p = pair_truncated(ra, rb, t.truncation_config().strategy, max as nat)->0;
            let e = t.joined(p.0, p.1, false);
            let la = p.0.0.len();
            let lb = p.1.0.len();
            &&& la <= ra.0.len() && lb <= rb.0.len() && la + lb <= max
            &&& e.0 == ra.0.take(la as int) + rb.0.take(lb as int)
            &&& e.1 == copies(0u32, la) + copies(1u32, lb)
            &&& e.2 == ra.2.take(la as int) + rb.2.take(lb as int)
            &&& e.3 == copies(1u32, la + lb)
            &&& ra.0.len() + rb.0.len() <= max ==> la == ra.0.len() && lb == rb.0.len()
        }),
{
    let max = t.truncation_config().max_length;
    let ra = t.raw(a);
    let rb = t.raw(b);
    let na = normalized(t.norm_config(), a);
    let nb = normalized(t.norm_config(), b);
    lemma_ids_of_spans_lengths(t, na, alignment_of(t.norm_config(), a), pretoken_spans(t.pretok_config(), na));
    lemma_ids_of_spans_lengths(t, nb, alignment_of(t.norm_config(), b), pretoken_spans(t.pretok_config(), nb));
    assert(same_lengths(ra));
    assert(same_lengths(rb));
    lemma_pair_truncated_prefixes(ra, rb, t.truncation_config().strategy, max as nat);
    lemma_pair_truncated_fields(ra, rb, t.truncation_config().strategy, max as nat);
    let p = pair_truncated(ra, rb, t.truncation_config().strategy, max as nat)->0;
    let e = t.joined(p.0, p.1, false);
    let la = p.0.0.len();
    let lb = p.1.0.len();
    assert(p.0.1 =~= copies(0u32, la));
    assert(p.0.3 =~= copies(1u32, la));
    assert(e.1 =~= copies(0u32, la) + copies(1u32, lb));
    assert(e.3 =~= copies(1u32, la + lb));
}

} // verus!
