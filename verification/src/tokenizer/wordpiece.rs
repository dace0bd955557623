//! WordPiece: greedy longest-match subword tokenization of one word.

use vstd::prelude::*;

use crate::text::chars_of;
use crate::tokenizer::error::{Result, TokenizerError};
use crate::tokenizer::tokenizer::TokenId;

verus! {

/// Vocabulary from token text to id.
pub type Vocab = vstd::hash_map::StringHashMap<TokenId>;

#[derive(Debug, Clone)]
pub struct WordPieceConfig {
    pub unk_token: String,
    pub continuing_subword_prefix: String,
    pub max_input_chars_per_word: usize,
}

/// The vocabulary key of the piece `w[s..e]`: pieces after the first carry
/// the continuing-subword prefix.
pub open spec fn piece_key(prefix: Seq<char>, w: Seq<char>, s: int, e: int) -> Seq<char> {
    if s > 0 {
        prefix + w.subrange(s, e)
    } else {
        w.subrange(s, e)
    }
}

/// The largest end in `s+1..=e` whose piece from `s` is in the vocabulary.
pub open spec fn longest_match(vocab: Map<Seq<char>, TokenId>, prefix: Seq<char>, w: Seq<char>, s: int, e: int) -> Option<int>
    decreases e - s,
{
    if e <= s {
        None
    } else if vocab.contains_key(piece_key(prefix, w, s, e)) {
        Some(e)
    } else {
        longest_match(vocab, prefix, w, s, e - 1)
    }
}

/// Ids of the greedy longest-match split of `w` from position `s`, or
/// `None` when some position has no matching piece.
pub open spec fn greedy_ids(vocab: Map<Seq<char>, TokenId>, prefix: Seq<char>, w: Seq<char>, s: int) -> Option<Seq<TokenId>>
    decreases w.len() - s,
{
    if s < 0 || s >= w.len() {
        Some(Seq::empty())
    } else {
        match longest_match(vocab, prefix, w, s, w.len() as int) {
            None => None,
            Some(e) => if s < e <= w.len() {
                match greedy_ids(vocab, prefix, w, e) {
                    Some(rest) => Some(seq![vocab[piece_key(prefix, w, s, e)]] + rest),
                    None => None,
                }
            } else {
                None
            },
        }
    }
}

/// The ids WordPiece gives a word: `[unk]` when the word is too long or
/// cannot be split, nothing for the empty word, else the greedy split.
pub open spec fn wordpiece_ids(
    vocab: Map<Seq<char>, TokenId>,
    prefix: Seq<char>,
    max_chars: nat,
    unk: TokenId,
    w: Seq<char>,
) -> Seq<TokenId> {
    if w.len() > max_chars {
        seq![unk]
    } else if w.len() == 0 {
        Seq::empty()
    } else {
        match greedy_ids(vocab, prefix, w, 0) {
            Some(ids) => ids,
            None => seq![unk],
        }
    }
}

pub open spec fn prepend(out: Seq<TokenId>, rest: Option<Seq<TokenId>>) -> Option<Seq<TokenId>> {
    match rest {
        Some(r) => Some(out + r),
        None => None,
    }
}

proof fn lemma_longest_match_range(vocab: Map<Seq<char>, TokenId>, prefix: Seq<char>, w: Seq<char>, s: int, e: int)
    ensures
        longest_match(vocab, prefix, w, s, e) matches Some(m) ==> s < m <= e && vocab.contains_key(
            piece_key(prefix, w, s, m),
        ),
    decreases e - s,
{
    if e > s && !vocab.contains_key(piece_key(prefix, w, s, e)) {
        lemma_longest_match_range(vocab, prefix, w, s, e - 1);
    }
}

proof fn lemma_greedy_ids_in_vocab(vocab: Map<Seq<char>, TokenId>, prefix: Seq<char>, w: Seq<char>, s: int)
    requires
        0 <= s <= w.len(),
    ensures
        greedy_ids(vocab, prefix, w, s) matches Some(ids) ==> ids.len() <= w.len() - s && forall|i: int|
            0 <= i < ids.len() ==> exists|t: Seq<char>| vocab.contains_key(t) && #[trigger] ids[i]
                == vocab[t],
    decreases w.len() - s,
{
    if s < w.len() {
        lemma_longest_match_range(vocab, prefix, w, s, w.len() as int);
        if let Some(e) = longest_match(vocab, prefix, w, s, w.len() as int) {
            lemma_greedy_ids_in_vocab(vocab, prefix, w, e);
            if let Some(ids) = greedy_ids(vocab, prefix, w, s) {
                let rest = greedy_ids(vocab, prefix, w, e)->0;
                let key = piece_key(prefix, w, s, e);
                assert forall|i: int| 0 <= i < ids.len() implies exists|t: Seq<char>|
                    vocab.contains_key(t) && #[trigger] ids[i] == vocab[t] by {
                    if i == 0 {
                        assert(ids[0] == vocab[key]);
                    } else {
                        assert(ids[i] == rest[i - 1]);
                    }
                }
            }
        }
    }
}

/// Every id WordPiece gives a word is the id of some vocabulary entry, and
/// a word of `n > 0` characters gives between one and `n` ids.
pub proof fn law_wordpiece_ids_in_vocab(
    vocab: Map<Seq<char>, TokenId>,
    prefix: Seq<char>,
    max_chars: nat,
    unk_token: Seq<char>,
    w: Seq<char>,
)
    requires
        vocab.contains_key(unk_token),
    ensures
        ({
            let ids = wordpiece_ids(vocab, prefix, max_chars, vocab[unk_token], w);
            &&& forall|i: int|
                0 <= i < ids.len() ==> exists|t: Seq<char>| vocab.contains_key(t) && #[trigger] ids[i]
                    == vocab[t]
            &&& w.len() > 0 ==> 1 <= ids.len() <= w.len()
            &&& w.len() == 0 ==> ids.len() == 0
        }),
{
    lemma_greedy_ids_in_vocab(vocab, prefix, w, 0);
    let ids = wordpiece_ids(vocab, prefix, max_chars, vocab[unk_token], w);
    if w.len() > 0 && w.len() <= max_chars {
        if let Some(g) = greedy_ids(vocab, prefix, w, 0) {
            lemma_longest_match_range(vocab, prefix, w, 0, w.len() as int);
            assert(g.len() >= 1);
        }
    }
    assert forall|i: int| 0 <= i < ids.len() implies exists|t: Seq<char>| vocab.contains_key(t)
        && #[trigger] ids[i] == vocab[t] by {
        if ids == seq![vocab[unk_token]] {
            assert(ids[i] == vocab[unk_token]);
        }
    }
}

pub struct WordPiece {
    cfg: WordPieceConfig,
    vocab: Vocab,
    unk_id: TokenId,
}

impl WordPiece {
    #[verifier::type_invariant]
    pub closed spec fn well_formed(self) -> bool {
        &&& self.vocab@.contains_key(self.cfg.unk_token@)
        &&& self.vocab@[self.cfg.unk_token@] == self.unk_id
    }

    pub closed spec fn vocab_map(&self) -> Map<Seq<char>, TokenId> {
        self.vocab@
    }

    pub closed spec fn config(&self) -> WordPieceConfig {
        self.cfg
    }

    pub closed spec fn unk(&self) -> TokenId {
        self.unk_id
    }

    /// Build a WordPiece model; the unknown token must be in the vocabulary.
    pub fn new(cfg: WordPieceConfig, vocab: Vocab) -> (r: Result<Self>)
        ensures
            vocab@.contains_key(cfg.unk_token@) <==> r is Ok,
            r matches Ok(wp) ==> wp.vocab_map() == vocab@ && wp.config() == cfg && wp.unk()
                == vocab@[cfg.unk_token@],
            r matches Err(e) ==> e == (TokenizerError::SpecialTokenMissing { token: cfg.unk_token }),
    {
        match vocab.get(cfg.unk_token.as_str()) {
            Some(id) => {
                let unk_id = *id;
                Ok(WordPiece { cfg, vocab, unk_id })
            },
            None => Err(TokenizerError::SpecialTokenMissing { token: cfg.unk_token.clone() }),
        }
    }

    /// Id of `token` in the vocabulary.
    pub fn lookup(&self, token: &str) -> (r: Option<TokenId>)
        ensures
            r == (if self.vocab_map().contains_key(token@) {
                Some(self.vocab_map()[token@])
            } else {
                None::<TokenId>
            }),
    {
        match self.vocab.get(token) {
            Some(id) => Some(*id),
            None => None,
        }
    }

    /// The ids of one pre-tokenized word.
    pub fn tokenize(&self, word: &str) -> (r: Vec<TokenId>)
        ensures
            r@ == wordpiece_ids(
                self.vocab_map(),
                self.config().continuing_subword_prefix@,
                self.config().max_input_chars_per_word as nat,
                self.unk(),
                word@,
            ),
    {
        let chars = chars_of(word);
        let n = chars.len();
        if n > self.cfg.max_input_chars_per_word {
            let mut v: Vec<TokenId> = Vec::new();
            v.push(self.unk_id);
            return v;
        }
        if n == 0 {
            return Vec::new();
        }
        let ghost vocab = self.vocab@;
        let ghost prefix = self.cfg.continuing_subword_prefix@;
        let ghost w = word@;
        let mut output: Vec<TokenId> = Vec::new();
        let mut start: usize = 0;
        while start < n
            invariant
                n == w.len(),
                chars@ == w,
                w == word@,
                n > 0,
                vocab == self.vocab@,
                prefix == self.cfg.continuing_subword_prefix@,
                start <= n,
                greedy_ids(vocab, prefix, w, 0) == prepend(output@, greedy_ids(vocab, prefix, w, start as int)),
            decreases n - start,
        {
            let mut found: Option<(usize, TokenId)> = None;
            let mut end = n;
            while end > start
                invariant_except_break
                    found is None,
                invariant
                    start < n,
                    start <= end <= n,
                    n == w.len(),
                    w == word@,
                    vocab == self.vocab@,
                    prefix == self.cfg.continuing_subword_prefix@,
                    longest_match(vocab, prefix, w, start as int, n as int) == longest_match(
                        vocab,
                        prefix,
                        w,
                        start as int,
                        end as int,
                    ),
                ensures
                    found matches Some((e, id)) ==> longest_match(vocab, prefix, w, start as int, n as int)
                        == Some(e as int) && id == vocab[piece_key(prefix, w, start as int, e as int)],
                    found is None ==> longest_match(vocab, prefix, w, start as int, n as int) is None,
                decreases end - start,
            {
                let sub = word.substring_char(start, end);
                let candidate: String = if start > 0 {
                    let mut c = self.cfg.continuing_subword_prefix.clone();
                    c.append(sub);
                    c
                } else {
                    sub.to_owned()
                };
                proof {
                    assert(candidate@ == piece_key(prefix, w, start as int, end as int));
                }
                if let Some(id) = self.vocab.get(candidate.as_str()) {
                    found = Some((end, *id));
                    break;
                }
                end -= 1;
            }
            match found {
                Some((e, id)) => {
                    proof {
                        lemma_longest_match_range(vocab, prefix, w, start as int, n as int);
                        assert(output@.push(id) + greedy_ids(vocab, prefix, w, e as int)->0 =~= output@ + (
                        seq![id] + greedy_ids(vocab, prefix, w, e as int)->0)) ;
                    }
                    output.push(id);
                    start = e;
                },
                None => {
                    let mut v: Vec<TokenId> = Vec::new();
                    v.push(self.unk_id);
                    return v;
                },
            }
        }
        proof {
            assert(output@ + Seq::<TokenId>::empty() =~= output@);
        }
        output
    }

    pub fn unk_id(&self) -> (id: TokenId)
        ensures
            id == self.unk(),
    {
        self.unk_id
    }
}

} // verus!
