//! BERT pre-tokenizer: splits normalized text on whitespace and punctuation,
//! keeping never-split entries whole, and reports each piece's byte offsets
//! in the original input through the alignment.

use vstd::prelude::*;

use crate::text::{
    ascii_punctuation, byte_len, char_width, chars_have_at, chars_of, has_at, is_ascii_punctuation,
    is_punctuation_category, is_white_space, lemma_byte_len_append, lemma_byte_len_push,
    punctuation_category, str_byte_len, white_space,
};
use crate::tokenizer::normalizer::{lookup, Alignment};

verus! {

/// One pre-token: a slice of the normalized text and its byte offsets into
/// the original input.
#[derive(Debug, Clone, Copy, PartialEq, Eq)]
pub struct PreToken<'b> {
    pub text: &'b str,
    pub offsets: (usize, usize),
}

#[derive(Debug, Clone)]
pub struct PreTokConfig {
    pub do_basic_split: bool,
    pub never_split: Vec<String>,
}

/// The never-split entries as character sequences.
pub open spec fn never_split_view(list: Seq<String>) -> Seq<Seq<char>> {
    list.map_values(|t: String| t@)
}

/// Punctuation as the BERT pre-tokenizer sees it.
pub open spec fn punct(c: char) -> bool {
    ascii_punctuation(c) || punctuation_category(c)
}

/// Index of the first non-empty entry of `list`, from `k` on, that occurs in
/// `s` at `at`.
pub open spec fn never_split_index(list: Seq<Seq<char>>, s: Seq<char>, at: int, k: int) -> Option<int>
    decreases list.len() - k,
{
    if k < 0 || k >= list.len() {
        None
    } else if list[k].len() > 0 && has_at(s, list[k], at) {
        Some(k)
    } else {
        never_split_index(list, s, at, k + 1)
    }
}

/// Position `j` ends a word.
pub open spec fn breaks_word(list: Seq<Seq<char>>, s: Seq<char>, j: int) -> bool {
    white_space(s[j]) || punct(s[j]) || never_split_index(list, s, j, 0) is Some
}

/// First position at or after `j` that ends a word.
pub open spec fn word_end(list: Seq<Seq<char>>, s: Seq<char>, j: int) -> int
    decreases s.len() - j,
{
    if j < 0 || j >= s.len() || breaks_word(list, s, j) {
        j
    } else {
        word_end(list, s, j + 1)
    }
}

/// Character spans of the pre-tokens of `s` from position `i` on.
pub open spec fn spans_from(list: Seq<Seq<char>>, s: Seq<char>, i: int) -> Seq<(int, int)>
    decreases s.len() - i,
{
    if i < 0 || i >= s.len() {
        Seq::empty()
    } else {
        match never_split_index(list, s, i, 0) {
            Some(k) => if 0 <= k < list.len() && list[k].len() > 0 && i + list[k].len() <= s.len() {
                seq![(i, i + list[k].len())] + spans_from(list, s, i + list[k].len())
            } else {
                Seq::empty()
            },
            None => if white_space(s[i]) {
                spans_from(list, s, i + 1)
            } else if punct(s[i]) {
                seq![(i, i + 1)] + spans_from(list, s, i + 1)
            } else {
                let e = word_end(list, s, i + 1);
                if i < e <= s.len() {
                    seq![(i, e)] + spans_from(list, s, e)
                } else {
                    Seq::empty()
                }
            },
        }
    }
}

/// Character spans of the pre-tokens of `s`.
pub open spec fn pretoken_spans(cfg: PreTokConfig, s: Seq<char>) -> Seq<(int, int)> {
    if !cfg.do_basic_split {
        if s.len() == 0 {
            Seq::empty()
        } else {
            seq![(0int, s.len() as int)]
        }
    } else {
        spans_from(never_split_view(cfg.never_split@), s, 0)
    }
}

/// Original byte offsets of the pre-token spanning characters `a..b`.
pub open spec fn span_offsets(cfg: PreTokConfig, s: Seq<char>, align: Seq<usize>, a: int, b: int) -> (
    usize,
    usize,
) {
    if !cfg.do_basic_split {
        (0, lookup(align, byte_len(s) as int))
    } else {
        (lookup(align, byte_len(s.take(a)) as int), lookup(align, byte_len(s.take(b)) as int))
    }
}

/// `toks` are the pre-tokens of `s` under `align`.
pub open spec fn pretokens_of(cfg: PreTokConfig, s: Seq<char>, align: Seq<usize>, toks: Seq<PreToken>) -> bool {
    let spans = pretoken_spans(cfg, s);
    &&& toks.len() == spans.len()
    &&& forall|k: int|
        0 <= k < toks.len() ==> {
            let sp = #[trigger] spans[k];
            &&& 0 <= sp.0 < sp.1 <= s.len()
            &&& toks[k].text@ == s.subrange(sp.0, sp.1)
            &&& toks[k].offsets == span_offsets(cfg, s, align, sp.0, sp.1)
        }
}

proof fn lemma_word_end_bounds(list: Seq<Seq<char>>, s: Seq<char>, j: int)
    requires
        0 <= j <= s.len(),
    ensures
        j <= word_end(list, s, j) <= s.len(),
        forall|m: int| j <= m < word_end(list, s, j) ==> !breaks_word(list, s, m),
    decreases s.len() - j,
{
    if j < s.len() && !breaks_word(list, s, j) {
        lemma_word_end_bounds(list, s, j + 1);
    }
}

proof fn lemma_never_split_index_found(list: Seq<Seq<char>>, s: Seq<char>, at: int, k: int)
    ensures
        never_split_index(list, s, at, k) matches Some(m) ==> k <= m < list.len() && list[m].len() > 0
            && has_at(s, list[m], at),
    decreases list.len() - k,
{
    if 0 <= k < list.len() && !(list[k].len() > 0 && has_at(s, list[k], at)) {
        lemma_never_split_index_found(list, s, at, k + 1);
    }
}

#[derive(Debug, Clone)]
pub struct PreTokenizer {
    cfg: PreTokConfig,
}

fn is_punct(c: char) -> (b: bool)
    ensures
        b == punct(c),
{
    is_ascii_punctuation(c) || is_punctuation_category(c)
}

proof fn lemma_take_step(s: Seq<char>, i: int)
    requires
        0 <= i < s.len(),
    ensures
        byte_len(s.take(i + 1)) == byte_len(s.take(i)) + crate::text::utf8_width(s[i]),
        byte_len(s.take(i + 1)) <= byte_len(s),
{
    assert(s.take(i + 1) =~= s.take(i).push(s[i]));
    lemma_byte_len_push(s.take(i), s[i]);
    assert(s =~= s.take(i + 1) + s.skip(i + 1));
    lemma_byte_len_append(s.take(i + 1), s.skip(i + 1));
}

proof fn lemma_take_jump(s: Seq<char>, i: int, p: Seq<char>)
    requires
        has_at(s, p, i),
    ensures
        byte_len(s.take(i + p.len())) == byte_len(s.take(i)) + byte_len(p),
        byte_len(s.take(i + p.len())) <= byte_len(s),
{
    assert(s.take(i + p.len()) =~= s.take(i) + p);
    lemma_byte_len_append(s.take(i), p);
    assert(s =~= s.take(i + p.len()) + s.skip(i + p.len()));
    lemma_byte_len_append(s.take(i + p.len()), s.skip(i + p.len()));
}

impl PreTokenizer {
    pub closed spec fn config(&self) -> PreTokConfig {
        self.cfg
    }

    pub fn new(cfg: PreTokConfig) -> (p: Self)
        ensures
            p.config() == cfg,
    {
        PreTokenizer { cfg }
    }

    /// Index of the first non-empty never-split entry that occurs at `at`.
    fn match_never_split(list: &Vec<Vec<char>>, s: &Vec<char>, at: usize) -> (r: Option<usize>)
        ensures
            r matches Some(k) ==> never_split_index(list@.map_values(|v: Vec<char>| v@), s@, at as int, 0) == Some(k as int),
            r is None ==> never_split_index(list@.map_values(|v: Vec<char>| v@), s@, at as int, 0) is None,
    {
        let ghost lv = list@.map_values(|v: Vec<char>| v@);
        let mut k: usize = 0;
        while k < list.len()
            invariant
                k <= list@.len(),
                lv == list@.map_values(|v: Vec<char>| v@),
                never_split_index(lv, s@, at as int, 0) == never_split_index(lv, s@, at as int, k as int),
            decreases list@.len() - k,
        {
            if list[k].len() > 0 && chars_have_at(s, &list[k], at) {
                return Some(k);
            }
            k += 1;
        }
        None
    }

    /// Split `normalized` into pre-tokens whose offsets go through `alignment`.
    pub fn pre_tokenize<'n>(&self, normalized: &'n str, alignment: &Alignment) -> (r: Vec<PreToken<'n>>)
        ensures
            pretokens_of(self.config(), normalized@, alignment@, r@),
    {
        if !self.cfg.do_basic_split {
            if normalized.unicode_len() == 0 {
                return Vec::new();
            }
            let n = str_byte_len(normalized);
            let mut v: Vec<PreToken<'n>> = Vec::new();
            v.push(PreToken { text: normalized, offsets: (0, alignment.to_original(n)) });
            proof {
                assert(normalized@.subrange(0, normalized@.len() as int) =~= normalized@);
            }
            return v;
        }
        let s = chars_of(normalized);
        let total = str_byte_len(normalized);
        let mut list: Vec<Vec<char>> = Vec::new();
        let mut q: usize = 0;
        while q < self.cfg.never_split.len()
            invariant
                q <= self.cfg.never_split@.len(),
                list@.len() == q,
                forall|m: int| 0 <= m < q ==> #[trigger] list@[m]@ == self.cfg.never_split@[m]@,
            decreases self.cfg.never_split@.len() - q,
        {
            list.push(chars_of(self.cfg.never_split[q].as_str()));
            q += 1;
        }
        let ghost lv = list@.map_values(|v: Vec<char>| v@);
        assert(lv =~= never_split_view(self.cfg.never_split@));
        let ghost spans = spans_from(lv, s@, 0);
        let mut tokens: Vec<PreToken<'n>> = Vec::new();
        let ghost mut done: Seq<(int, int)> = Seq::empty();
        let mut i: usize = 0;
        let mut bi: usize = 0;
        while i < s.len()
            invariant
                s@ == normalized@,
                total == byte_len(s@),
                lv == list@.map_values(|v: Vec<char>| v@),
                lv == never_split_view(self.cfg.never_split@),
                self.cfg.do_basic_split,
                i <= s@.len(),
                bi == byte_len(s@.take(i as int)),
                done + spans_from(lv, s@, i as int) == spans,
                spans == pretoken_spans(self.cfg, s@),
                tokens@.len() == done.len(),
                forall|k: int|
                    0 <= k < tokens@.len() ==> {
                        let sp = #[trigger] done[k];
                        &&& 0 <= sp.0 < sp.1 <= s@.len()
                        &&& tokens@[k].text@ == s@.subrange(sp.0, sp.1)
                        &&& tokens@[k].offsets == span_offsets(self.cfg, s@, alignment@, sp.0, sp.1)
                    },
            decreases s@.len() - i,
        {
            let ghost ii = i as int;
            if let Some(k) = Self::match_never_split(&list, &s, i) {
                proof {
                    lemma_never_split_index_found(lv, s@, ii, 0);
                    lemma_take_jump(s@, ii, lv[k as int]);
                }
                let n = list[k].len();
                let end = i + n;
                let nb = str_byte_len(self.cfg.never_split[k].as_str());
                let bend = bi + nb;
                let tok = PreToken {
                    text: normalized.substring_char(i, end),
                    offsets: (alignment.to_original(bi), alignment.to_original(bend)),
                };
                tokens.push(tok);
                proof {
                    assert(spans_from(lv, s@, ii) =~= seq![(ii, ii + lv[k as int].len())] + spans_from(lv, s@, end as int));
                    done = done.push((ii, end as int));
                    assert(done + spans_from(lv, s@, end as int) =~= spans);
                }
                i = end;
                bi = bend;
                continue;
            }
            let ch = s[i];
            proof {
                lemma_take_step(s@, ii);
            }
            if is_white_space(ch) {
                proof {
                    assert(spans_from(lv, s@, ii) =~= spans_from(lv, s@, ii + 1));
                }
                i += 1;
                bi += char_width(ch);
                continue;
            }
            if is_punct(ch) {
                let end = i + 1;
                let bend = bi + char_width(ch);
                let tok = PreToken {
                    text: normalized.substring_char(i, end),
                    offsets: (alignment.to_original(bi), alignment.to_original(bend)),
                };
                tokens.push(tok);
                proof {
                    assert(spans_from(lv, s@, ii) =~= seq![(ii, ii + 1)] + spans_from(lv, s@, ii + 1));
                    done = done.push((ii, ii + 1));
                    assert(done + spans_from(lv, s@, ii + 1) =~= spans);
                }
                i = end;
                bi = bend;
                continue;
            }
            let start = i;
            let bstart = bi;
            proof {
                lemma_word_end_bounds(lv, s@, ii + 1);
            }
            i += 1;
            bi += char_width(ch);
            while i < s.len()
                invariant
                    s@ == normalized@,
                    total == byte_len(s@),
                    lv == list@.map_values(|v: Vec<char>| v@),
                    start < i <= s@.len(),
                    bi == byte_len(s@.take(i as int)),
                    word_end(lv, s@, start + 1) == word_end(lv, s@, i as int),
                ensures
                    start < i <= s@.len(),
                    bi == byte_len(s@.take(i as int)),
                    word_end(lv, s@, start + 1) == word_end(lv, s@, i as int),
                    i >= s@.len() || breaks_word(lv, s@, i as int),
                decreases s@.len() - i,
            {
                let c = s[i];
                if is_white_space(c) || is_punct(c) || Self::match_never_split(&list, &s, i).is_some() {
                    break;
                }
                proof {
                    lemma_take_step(s@, i as int);
                }
                i += 1;
                bi += char_width(c);
            }
            let tok = PreToken {
                text: normalized.substring_char(start, i),
                offsets: (alignment.to_original(bstart), alignment.to_original(bi)),
            };
            tokens.push(tok);
            proof {
                assert(word_end(lv, s@, i as int) == i);
                assert(spans_from(lv, s@, ii) =~= seq![(ii, i as int)] + spans_from(lv, s@, i as int));
                done = done.push((ii, i as int));
                assert(done + spans_from(lv, s@, i as int) =~= spans);
            }
        }
        proof {
            assert(spans_from(lv, s@, i as int) =~= Seq::<(int, int)>::empty());
            assert(done =~= spans);
        }
        tokens
    }
}

proof fn lemma_contains_after<T>(a: Seq<T>, r: Seq<T>, x: T)
    requires
        r.contains(x),
    ensures
        (a + r).contains(x),
{
    let k = choose|k: int| 0 <= k < r.len() && r[k] == x;
    assert((a + r)[a.len() + k] == x);
}

/// Scanning from any position at or before `i` reaches the one-character
/// span of the punctuation at `i`.
proof fn lemma_spans_reach_punct(list: Seq<Seq<char>>, s: Seq<char>, i: int, j: int)
    requires
        0 <= j <= i < s.len(),
        !white_space(s[i]),
        punct(s[i]),
        forall|m: int| 0 <= m <= i ==> #[trigger] never_split_index(list, s, m, 0) is None,
    ensures
        spans_from(list, s, j).contains((i, i + 1)),
    decreases i - j,
{
    assert(never_split_index(list, s, j, 0) is None);
    if j == i {
        assert(spans_from(list, s, j) == seq![(i, i + 1)] + spans_from(list, s, i + 1));
        assert(spans_from(list, s, j)[0] == (i, i + 1));
    } else if white_space(s[j]) {
        lemma_spans_reach_punct(list, s, i, j + 1);
    } else if punct(s[j]) {
        lemma_spans_reach_punct(list, s, i, j + 1);
        lemma_contains_after(seq![(j, j + 1)], spans_from(list, s, j + 1), (i, i + 1));
    } else {
        lemma_word_end_bounds(list, s, j + 1);
        let e = word_end(list, s, j + 1);
        assert(breaks_word(list, s, i));
        assert(e <= i);
        lemma_spans_reach_punct(list, s, i, e);
        lemma_contains_after(seq![(j, e)], spans_from(list, s, e), (i, i + 1));
    }
}

/// Punctuation law: with the basic split on, every ASCII punctuation
/// character (U+0021..U+002F, U+003A..U+0040, U+005B..U+0060,
/// U+007B..U+007E, symbols such as `$`, `+`, `=` and `~` included) becomes
/// a pre-token of its own, whatever surrounds it, when no never-split entry
/// starts at or before it.
pub proof fn law_ascii_punct_alone(cfg: PreTokConfig, s: Seq<char>, i: int)
    requires
        cfg.do_basic_split,
        0 <= i < s.len(),
        ({
            let u = s[i] as u32;
            ||| 0x21 <= u && u <= 0x2F
            ||| 0x3A <= u && u <= 0x40
            ||| 0x5B <= u && u <= 0x60
            ||| 0x7B <= u && u <= 0x7E
        }),
        forall|m: int| 0 <= m <= i ==> #[trigger] never_split_index(never_split_view(cfg.never_split@), s, m, 0) is None,
    ensures
        pretoken_spans(cfg, s).contains((i, i + 1)),
{
    let list = never_split_view(cfg.never_split@);
    assert(!white_space(s[i]));
    assert(punct(s[i]));
    lemma_spans_reach_punct(list, s, i, 0);
}

} // verus!
