//! BERT normalizer with alignment bookkeeping: every byte of the normalized
//! text maps back to a byte offset of the original input.

use std::borrow::Cow;

use vstd::prelude::*;

use crate::text::{
    byte_len, char_width, chars_of, combining_mark, is_combining_mark, is_other_category,
    is_white_space, lemma_byte_len_append, lemma_byte_len_push, lowercase_chars, nfd_chars, nfd_of,
    other_category, push_char, str_byte_len, to_lowercase_chars, utf8_width, white_space,
};

verus! {

/// The map of the identity alignment over `len` bytes: `0, 1, ..., len`.
pub open spec fn identity_map(len: nat) -> Seq<usize> {
    Seq::new(len + 1, |i: int| i as usize)
}

/// The original byte offset that normalized byte `n` maps to under `map`.
pub open spec fn lookup(map: Seq<usize>, n: int) -> usize {
    if map.len() == 0 {
        0
    } else if n < map.len() - 1 {
        map[n]
    } else {
        map[map.len() - 1]
    }
}

/// Maps byte offsets in the normalized string back to byte offsets in the
/// original input.
///
/// For `Identity { len }`, `to_original(n) == min(n, len)`; for
/// `Explicit(map)`, `map` holds one entry per normalized byte plus a
/// one-past-end sentinel.
#[derive(Debug, Clone)]
#[non_exhaustive]
pub enum Alignment {
    Identity { len: usize },
    Explicit(Vec<usize>),
}

impl View for Alignment {
    type V = Seq<usize>;

    /// Both forms viewed as an explicit map.
    open spec fn view(&self) -> Seq<usize> {
        match self {
            Alignment::Identity { len } => identity_map(*len as nat),
            Alignment::Explicit(map) => map@,
        }
    }
}

impl Alignment {
    pub fn to_original(&self, norm_byte: usize) -> (o: usize)
        ensures
            o == lookup(self@, norm_byte as int),
            *self matches Alignment::Identity { len } ==> o == if norm_byte <= len {
                norm_byte
            } else {
                len
            },
    {
        match self {
            Alignment::Identity { len } => {
                if norm_byte < *len {
                    norm_byte
                } else {
                    *len
                }
            },
            Alignment::Explicit(map) => {
                if map.len() == 0 {
                    0
                } else if norm_byte < map.len() - 1 {
                    map[norm_byte]
                } else {
                    map[map.len() - 1]
                }
            },
        }
    }

    pub fn len(&self) -> (n: usize)
        ensures
            n == if self@.len() == 0 { 0 } else { self@.len() - 1 },
    {
        match self {
            Alignment::Identity { len } => *len,
            Alignment::Explicit(map) => {
                if map.len() == 0 {
                    0
                } else {
                    map.len() - 1
                }
            },
        }
    }

    pub fn is_empty(&self) -> (b: bool)
        ensures
            b == (self@.len() <= 1),
    {
        self.len() == 0
    }
}

/// Which BERT normalization steps run.
#[derive(Debug, Clone)]
pub struct NormalizerConfig {
    pub lowercase: bool,
    pub strip_accents: bool,
    pub handle_chinese_chars: bool,
    pub clean_text: bool,
}

impl NormalizerConfig {
    /// All steps off.
    pub fn identity() -> (c: Self)
        ensures
            !c.lowercase && !c.strip_accents && !c.handle_chinese_chars && !c.clean_text,
    {
        NormalizerConfig {
            lowercase: false,
            strip_accents: false,
            handle_chinese_chars: false,
            clean_text: false,
        }
    }
}

/// Characters clean-text removes: NUL, U+FFFD, and "Other" category
/// characters except tab, newline and carriage return.
pub open spec fn cleaned_away(c: char) -> bool {
    ||| c as u32 == 0
    ||| c == '\u{FFFD}'
    ||| (!(c == '\t' || c == '\n' || c == '\r') && other_category(c))
}

/// Whitespace as the BERT normalizer sees it.
pub open spec fn hf_whitespace(c: char) -> bool {
    c == '\t' || c == '\n' || c == '\r' || white_space(c)
}

/// CJK ideograph blocks that are wrapped in spaces.
pub open spec fn chinese_codepoint(c: char) -> bool {
    let u = c as u32;
    ||| 0x4E00 <= u <= 0x9FFF
    ||| 0x3400 <= u <= 0x4DBF
    ||| 0x20000 <= u <= 0x2A6DF
    ||| 0x2A700 <= u <= 0x2B73F
    ||| 0x2B740 <= u <= 0x2B81F
    ||| 0x2B820 <= u <= 0x2CEAF
    ||| 0xF900 <= u <= 0xFAFF
    ||| 0x2F800 <= u <= 0x2FA1F
}

/// `s` without its combining marks.
pub open spec fn strip_marks(s: Seq<char>) -> Seq<char>
    decreases s.len(),
{
    if s.len() == 0 {
        Seq::empty()
    } else {
        strip_marks(s.drop_last()) + if combining_mark(s.last()) {
            Seq::empty()
        } else {
            seq![s.last()]
        }
    }
}

/// Every character of `s` replaced by its lowercase mapping.
pub open spec fn lower_all(s: Seq<char>) -> Seq<char>
    decreases s.len(),
{
    if s.len() == 0 {
        Seq::empty()
    } else {
        lower_all(s.drop_last()) + lowercase_chars(s.last())
    }
}

/// `c` after the clean-text whitespace mapping.
pub open spec fn spaced(cfg: NormalizerConfig, c: char) -> char {
    if cfg.clean_text && hf_whitespace(c) {
        ' '
    } else {
        c
    }
}

/// Whether `c` is wrapped in spaces.
pub open spec fn wrapped(cfg: NormalizerConfig, c: char) -> bool {
    !(cfg.clean_text && cleaned_away(c)) && cfg.handle_chinese_chars && chinese_codepoint(
        spaced(cfg, c),
    )
}

/// The characters the normalizer emits for one input character.
pub open spec fn emitted(cfg: NormalizerConfig, c: char) -> Seq<char> {
    let c1 = spaced(cfg, c);
    if cfg.clean_text && cleaned_away(c) {
        Seq::empty()
    } else if wrapped(cfg, c) {
        seq![' ', c1, ' ']
    } else {
        let base = if cfg.strip_accents {
            strip_marks(nfd_chars(c1))
        } else {
            seq![c1]
        };
        if cfg.lowercase {
            lower_all(base)
        } else {
            base
        }
    }
}

/// `n` copies of `v`.
pub open spec fn repeat(v: usize, n: nat) -> Seq<usize> {
    Seq::new(n, |i: int| v)
}

/// The alignment entries for one input character that starts at original
/// byte `ob`: every emitted byte maps to `ob`, except that the closing space
/// of a wrapped character maps to the byte after it.
pub open spec fn emitted_map(cfg: NormalizerConfig, c: char, ob: nat) -> Seq<usize> {
    if wrapped(cfg, c) {
        seq![ob as usize] + repeat(ob as usize, utf8_width(spaced(cfg, c))) + seq![
            (ob + utf8_width(c)) as usize,
        ]
    } else {
        repeat(ob as usize, byte_len(emitted(cfg, c)))
    }
}

/// The normalized text of `s` on the general path.
pub open spec fn norm_text(cfg: NormalizerConfig, s: Seq<char>) -> Seq<char>
    decreases s.len(),
{
    if s.len() == 0 {
        Seq::empty()
    } else {
        norm_text(cfg, s.drop_last()) + emitted(cfg, s.last())
    }
}

/// The alignment entries of `s` on the general path, without the sentinel.
pub open spec fn norm_map(cfg: NormalizerConfig, s: Seq<char>) -> Seq<usize>
    decreases s.len(),
{
    if s.len() == 0 {
        Seq::empty()
    } else {
        norm_map(cfg, s.drop_last()) + emitted_map(cfg, s.last(), byte_len(s.drop_last()))
    }
}

pub open spec fn no_ascii_uppercase(s: Seq<char>) -> bool {
    forall|i: int| 0 <= i < s.len() ==> !('A' <= #[trigger] s[i] <= 'Z')
}

/// The input is returned as it is: no step is on, or only lowercasing is on
/// and the input is ASCII without uppercase letters.
pub open spec fn unchanged_input(cfg: NormalizerConfig, s: Seq<char>) -> bool {
    ||| !cfg.lowercase && !cfg.strip_accents && !cfg.handle_chinese_chars && !cfg.clean_text
    ||| (cfg.lowercase && !cfg.strip_accents && !cfg.handle_chinese_chars && !cfg.clean_text
        && vstd::utf8::is_ascii_chars(s) && no_ascii_uppercase(s))
}

/// The normalized text of `s`.
pub open spec fn normalized(cfg: NormalizerConfig, s: Seq<char>) -> Seq<char> {
    if unchanged_input(cfg, s) {
        s
    } else {
        norm_text(cfg, s)
    }
}

/// The alignment of `normalized(cfg, s)` back into `s`.
pub open spec fn alignment_of(cfg: NormalizerConfig, s: Seq<char>) -> Seq<usize> {
    if unchanged_input(cfg, s) {
        identity_map(byte_len(s))
    } else {
        norm_map(cfg, s).push(byte_len(s) as usize)
    }
}

#[derive(Debug, Clone)]
pub struct Normalizer {
    cfg: NormalizerConfig,
}

fn push_mapped_char(out: &mut String, map: &mut Vec<usize>, ch: char, orig_byte: usize)
    ensures
        final(out)@ == old(out)@.push(ch),
        final(map)@ == old(map)@ + repeat(orig_byte, utf8_width(ch)),
{
    let w = char_width(ch);
    let ghost m0 = map@;
    let mut k: usize = 0;
    while k < w
        invariant
            k <= w,
            w == utf8_width(ch),
            map@ == m0 + repeat(orig_byte, k as nat),
        decreases w - k,
    {
        map.push(orig_byte);
        k += 1;
        assert(map@ =~= m0 + repeat(orig_byte, k as nat));
    }
    push_char(out, ch);
}

proof fn lemma_repeat_add(v: usize, a: nat, b: nat)
    ensures
        repeat(v, a) + repeat(v, b) =~= repeat(v, a + b),
{
}

proof fn lemma_byte_len_single(c: char)
    ensures
        byte_len(seq![c]) == utf8_width(c),
{
    lemma_byte_len_push(Seq::empty(), c);
    assert(Seq::<char>::empty().push(c) =~= seq![c]);
}

/// Push every character of `chars`, each mapped to `orig_byte`.
fn push_all_mapped(out: &mut String, map: &mut Vec<usize>, chars: &Vec<char>, orig_byte: usize)
    ensures
        final(out)@ == old(out)@ + chars@,
        final(map)@ == old(map)@ + repeat(orig_byte, byte_len(chars@)),
{
    let ghost o0 = out@;
    let ghost m0 = map@;
    let mut i: usize = 0;
    while i < chars.len()
        invariant
            i <= chars@.len(),
            out@ == o0 + chars@.take(i as int),
            map@ == m0 + repeat(orig_byte, byte_len(chars@.take(i as int))),
        decreases chars@.len() - i,
    {
        push_mapped_char(out, map, chars[i], orig_byte);
        proof {
            assert(chars@.take(i + 1) =~= chars@.take(i as int).push(chars@[i as int]));
            lemma_byte_len_push(chars@.take(i as int), chars@[i as int]);
            lemma_repeat_add(orig_byte, byte_len(chars@.take(i as int)), utf8_width(chars@[i as int]));
        }
        i += 1;
        assert(out@ =~= o0 + chars@.take(i as int));
        assert(map@ =~= m0 + repeat(orig_byte, byte_len(chars@.take(i as int))));
    }
    assert(chars@.take(i as int) =~= chars@);
}

/// The lowercase mapping of every character of `chars`.
fn lower_all_of(chars: &Vec<char>) -> (v: Vec<char>)
    ensures
        v@ == lower_all(chars@),
{
    let mut v: Vec<char> = Vec::new();
    let mut i: usize = 0;
    while i < chars.len()
        invariant
            i <= chars@.len(),
            v@ == lower_all(chars@.take(i as int)),
        decreases chars@.len() - i,
    {
        let mut l = to_lowercase_chars(chars[i]);
        proof {
            assert(chars@.take(i + 1).drop_last() =~= chars@.take(i as int));
        }
        v.append(&mut l);
        i += 1;
    }
    assert(chars@.take(i as int) =~= chars@);
    v
}

/// `chars` without combining marks.
fn strip_marks_of(chars: &Vec<char>) -> (v: Vec<char>)
    ensures
        v@ == strip_marks(chars@),
{
    let mut v: Vec<char> = Vec::new();
    let mut i: usize = 0;
    while i < chars.len()
        invariant
            i <= chars@.len(),
            v@ == strip_marks(chars@.take(i as int)),
        decreases chars@.len() - i,
    {
        proof {
            assert(chars@.take(i + 1).drop_last() =~= chars@.take(i as int));
        }
        if !is_combining_mark(chars[i]) {
            v.push(chars[i]);
        }
        i += 1;
        assert(v@ =~= strip_marks(chars@.take(i as int)));
    }
    assert(chars@.take(i as int) =~= chars@);
    v
}

fn should_clean(ch: char) -> (b: bool)
    ensures
        b == cleaned_away(ch),
{
    if ch as u32 == 0 || ch == '\u{FFFD}' {
        return true;
    }
    if ch == '\t' || ch == '\n' || ch == '\r' {
        return false;
    }
    is_other_category(ch)
}

fn is_hf_whitespace(ch: char) -> (b: bool)
    ensures
        b == hf_whitespace(ch),
{
    ch == '\t' || ch == '\n' || ch == '\r' || is_white_space(ch)
}

fn is_chinese_char(ch: char) -> (b: bool)
    ensures
        b == chinese_codepoint(ch),
{
    let c = ch as u32;
    (0x4E00 <= c && c <= 0x9FFF) || (0x3400 <= c && c <= 0x4DBF) || (0x20000 <= c && c <= 0x2A6DF)
        || (0x2A700 <= c && c <= 0x2B73F) || (0x2B740 <= c && c <= 0x2B81F) || (0x2B820 <= c && c
        <= 0x2CEAF) || (0xF900 <= c && c <= 0xFAFF) || (0x2F800 <= c && c <= 0x2FA1F)
}

impl Normalizer {
    pub closed spec fn config(&self) -> NormalizerConfig {
        self.cfg
    }

    pub fn new(cfg: NormalizerConfig) -> (n: Self)
        ensures
            n.config() == cfg,
    {
        Normalizer { cfg }
    }

    /// Emit the normalized form of one input character that starts at
    /// original byte `orig_byte`.
    fn emit(&self, out: &mut String, map: &mut Vec<usize>, ch: char, orig_byte: usize)
        requires
            orig_byte + utf8_width(ch) <= usize::MAX,
        ensures
            final(out)@ == old(out)@ + emitted(self.cfg, ch),
            final(map)@ == old(map)@ + emitted_map(self.cfg, ch, orig_byte as nat),
    {
        let cfg = &self.cfg;
        let ghost o0 = out@;
        let ghost m0 = map@;
        if cfg.clean_text && should_clean(ch) {
            assert(out@ =~= o0 + emitted(self.cfg, ch));
            assert(map@ =~= m0 + emitted_map(self.cfg, ch, orig_byte as nat));
            return;
        }
        let c1 = if cfg.clean_text && is_hf_whitespace(ch) {
            ' '
        } else {
            ch
        };
        if cfg.handle_chinese_chars && is_chinese_char(c1) {
            map.push(orig_byte);
            push_char(out, ' ');
            let w = char_width(c1);
            let ghost m1 = map@;
            let mut k: usize = 0;
            while k < w
                invariant
                    k <= w,
                    map@ == m1 + repeat(orig_byte, k as nat),
                decreases w - k,
            {
                map.push(orig_byte);
                k += 1;
                assert(map@ =~= m1 + repeat(orig_byte, k as nat));
            }
            push_char(out, c1);
            map.push(orig_byte + char_width(ch));
            push_char(out, ' ');
            assert(out@ =~= o0 + emitted(self.cfg, ch));
            assert(map@ =~= m0 + emitted_map(self.cfg, ch, orig_byte as nat));
            return;
        }
        let base: Vec<char> = if cfg.strip_accents {
            let d = nfd_of(c1);
            strip_marks_of(&d)
        } else {
            let mut one: Vec<char> = Vec::new();
            one.push(c1);
            proof {
                assert(one@ =~= seq![c1]);
            }
            one
        };
        if cfg.lowercase {
            let l = lower_all_of(&base);
            push_all_mapped(out, map, &l, orig_byte);
        } else {
            push_all_mapped(out, map, &base, orig_byte);
        }
    }

    fn slow_normalize(&self, input: &str) -> (r: (String, Vec<usize>))
        ensures
            r.0@ == norm_text(self.cfg, input@),
            r.1@ == norm_map(self.cfg, input@).push(byte_len(input@) as usize),
    {
        let chars = chars_of(input);
        let total = str_byte_len(input);
        let mut out = String::new();
        let mut map: Vec<usize> = Vec::new();
        let mut orig_byte: usize = 0;
        let mut i: usize = 0;
        while i < chars.len()
            invariant
                i <= chars@.len(),
                chars@ == input@,
                total == byte_len(chars@),
                orig_byte == byte_len(chars@.take(i as int)),
                out@ == norm_text(self.cfg, chars@.take(i as int)),
                map@ == norm_map(self.cfg, chars@.take(i as int)),
            decreases chars@.len() - i,
        {
            let ch = chars[i];
            proof {
                let s = chars@;
                assert(s.take(i + 1) =~= s.take(i as int).push(ch));
                assert(s.take(i + 1).drop_last() =~= s.take(i as int));
                assert(s =~= s.take(i + 1) + s.skip(i + 1));
                lemma_byte_len_append(s.take(i + 1), s.skip(i + 1));
                lemma_byte_len_push(s.take(i as int), ch);
            }
            self.emit(&mut out, &mut map, ch, orig_byte);
            orig_byte = orig_byte + char_width(ch);
            i += 1;
        }
        assert(chars@.take(i as int) =~= chars@);
        map.push(orig_byte);
        (out, map)
    }

    /// Normalize `input`, returning the normalized text and its alignment
    /// into `input`. The input itself is returned, with the identity
    /// alignment, when no step would change it.
    pub fn normalize<'a>(&self, input: &'a str) -> (r: (Cow<'a, str>, Alignment))
        ensures
            r.0@ == normalized(self.config(), input@),
            r.1@ == alignment_of(self.config(), input@),
            r.0 is Borrowed <==> unchanged_input(self.config(), input@),
            r.0 is Borrowed ==> r.1 is Identity,
            r.0 is Owned ==> r.1 is Explicit,
    {
        let cfg = &self.cfg;
        if !cfg.lowercase && !cfg.strip_accents && !cfg.handle_chinese_chars && !cfg.clean_text {
            let len = str_byte_len(input);
            return (Cow::Borrowed(input), Alignment::Identity { len });
        }
        if cfg.lowercase && !cfg.strip_accents && !cfg.handle_chinese_chars && !cfg.clean_text
            && input.is_ascii() && !has_ascii_uppercase(input) {
            let len = str_byte_len(input);
            return (Cow::Borrowed(input), Alignment::Identity { len });
        }
        let (out, map) = self.slow_normalize(input);
        (Cow::Owned(out), Alignment::Explicit(map))
    }
}

proof fn lemma_byte_len_three(a: char, b: char, c: char)
    ensures
        byte_len(seq![a, b, c]) == utf8_width(a) + utf8_width(b) + utf8_width(c),
{
    lemma_byte_len_single(a);
    lemma_byte_len_single(b);
    lemma_byte_len_single(c);
    lemma_byte_len_append(seq![a], seq![b]);
    assert(seq![a] + seq![b] =~= seq![a, b]);
    lemma_byte_len_append(seq![a, b], seq![c]);
    assert(seq![a, b] + seq![c] =~= seq![a, b, c]);
}

proof fn lemma_norm_map_shape(cfg: NormalizerConfig, s: Seq<char>)
    requires
        byte_len(s) <= usize::MAX,
    ensures
        norm_map(cfg, s).len() == byte_len(norm_text(cfg, s)),
        forall|i: int| 0 <= i < norm_map(cfg, s).len() ==> norm_map(cfg, s)[i] <= byte_len(s),
    decreases s.len(),
{
    if s.len() > 0 {
        let p = s.drop_last();
        let c = s.last();
        assert(s =~= p.push(c));
        lemma_byte_len_push(p, c);
        lemma_norm_map_shape(cfg, p);
        lemma_byte_len_append(norm_text(cfg, p), emitted(cfg, c));
        if wrapped(cfg, c) {
            lemma_byte_len_three(' ', spaced(cfg, c), ' ');
        }
        let m = norm_map(cfg, s);
        assert forall|i: int| 0 <= i < m.len() implies m[i] <= byte_len(s) by {
            if i >= norm_map(cfg, p).len() {
                let e = emitted_map(cfg, c, byte_len(p));
                assert(m[i] == e[i - norm_map(cfg, p).len()]);
            }
        }
    }
}

/// Byte offset `b` falls between two characters of `s` (or at either end).
pub open spec fn char_boundary(s: Seq<char>, b: int) -> bool {
    exists|k: int| 0 <= k <= s.len() && #[trigger] byte_len(s.take(k)) == b
}

proof fn lemma_boundary_extends(p: Seq<char>, c: char, b: int)
    requires
        char_boundary(p, b),
    ensures
        char_boundary(p.push(c), b),
{
    let k = choose|k: int| 0 <= k <= p.len() && #[trigger] byte_len(p.take(k)) == b;
    assert(p.push(c).take(k) =~= p.take(k));
}

proof fn lemma_boundary_ends(s: Seq<char>)
    ensures
        char_boundary(s, 0),
        char_boundary(s, byte_len(s) as int),
{
    assert(s.take(0) =~= Seq::<char>::empty());
    assert(byte_len(s.take(0)) == 0);
    assert(s.take(s.len() as int) =~= s);
    assert(byte_len(s.take(s.len() as int)) == byte_len(s));
}

/// The alignment entries never decrease, and each lies between two
/// characters of the input.
proof fn lemma_norm_map_order(cfg: NormalizerConfig, s: Seq<char>)
    requires
        byte_len(s) <= usize::MAX,
    ensures
        forall|i: int, j: int|
            0 <= i <= j < norm_map(cfg, s).len() ==> #[trigger] norm_map(cfg, s)[i] <= #[trigger] norm_map(
                cfg,
                s,
            )[j],
        forall|i: int| 0 <= i < norm_map(cfg, s).len() ==> char_boundary(s, #[trigger] norm_map(cfg, s)[i] as int),
    decreases s.len(),
{
    if s.len() > 0 {
        let p = s.drop_last();
        let c = s.last();
        assert(s =~= p.push(c));
        lemma_byte_len_push(p, c);
        lemma_norm_map_order(cfg, p);
        lemma_norm_map_shape(cfg, p);
        let ob = byte_len(p);
        let mp = norm_map(cfg, p);
        let e = emitted_map(cfg, c, ob);
        let m = norm_map(cfg, s);
        assert(m == mp + e);
        lemma_boundary_ends(p);
        lemma_boundary_ends(s);
        lemma_boundary_extends(p, c, ob as int);
        // Each emitted entry is `ob`, save the closing one of a wrapped
        // character, which is the end of `s`.
        assert forall|t: int| 0 <= t < e.len() implies #[trigger] e[t] == ob || (e[t] == byte_len(s) && t
            == e.len() - 1) by {
            if wrapped(cfg, c) {
                let mid = repeat(ob as usize, utf8_width(spaced(cfg, c)));
                assert(e == seq![ob as usize] + mid + seq![(ob + utf8_width(c)) as usize]);
                if t == 0 {
                } else if t < e.len() - 1 {
                    assert(e[t] == mid[t - 1]);
                } else {
                }
            }
        }
        assert forall|i: int, j: int| 0 <= i <= j < m.len() implies #[trigger] m[i] <= #[trigger] m[j] by {
            if j < mp.len() {
                assert(m[i] == mp[i] && m[j] == mp[j]);
            } else if i < mp.len() {
                assert(m[i] == mp[i]);
                assert(m[j] == e[j - mp.len()]);
            } else {
                assert(m[i] == e[i - mp.len()]);
                assert(m[j] == e[j - mp.len()]);
            }
        }
        assert forall|i: int| 0 <= i < m.len() implies char_boundary(s, #[trigger] m[i] as int) by {
            if i < mp.len() {
                assert(m[i] == mp[i]);
                lemma_boundary_extends(p, c, mp[i] as int);
            } else {
                assert(m[i] == e[i - mp.len()]);
            }
        }
    }
}

/// Alignment law: the alignment holds one entry per byte of the normalized
/// text plus the sentinel, which is the input's length; every entry is a
/// byte offset within the input; the entries never decrease; a character
/// boundary of the normalized text maps to a character boundary of the
/// input, and when the text was rewritten every entry is one.
pub proof fn law_alignment_covers_normalized(cfg: NormalizerConfig, s: Seq<char>)
    requires
        byte_len(s) <= usize::MAX,
    ensures
        alignment_of(cfg, s).len() == byte_len(normalized(cfg, s)) + 1,
        forall|i: int|
            0 <= i < alignment_of(cfg, s).len() ==> #[trigger] alignment_of(cfg, s)[i] <= byte_len(s),
        alignment_of(cfg, s).last() == byte_len(s),
        forall|i: int, j: int|
            0 <= i <= j < alignment_of(cfg, s).len() ==> #[trigger] alignment_of(cfg, s)[i]
                <= #[trigger] alignment_of(cfg, s)[j],
        forall|i: int|
            0 <= i < alignment_of(cfg, s).len() && char_boundary(normalized(cfg, s), i) ==> char_boundary(
                s,
                #[trigger] alignment_of(cfg, s)[i] as int,
            ),
        !unchanged_input(cfg, s) ==> forall|i: int|
            0 <= i < alignment_of(cfg, s).len() ==> char_boundary(s, #[trigger] alignment_of(cfg, s)[i] as int),
{
    let a = alignment_of(cfg, s);
    if !unchanged_input(cfg, s) {
        lemma_norm_map_shape(cfg, s);
        lemma_norm_map_order(cfg, s);
        lemma_boundary_ends(s);
        let m = norm_map(cfg, s);
        assert(a == m.push(byte_len(s) as usize));
        assert forall|i: int, j: int| 0 <= i <= j < a.len() implies #[trigger] a[i] <= #[trigger] a[j] by {
            if j < m.len() {
                assert(a[i] == m[i] && a[j] == m[j]);
            } else {
                assert(a[j] == byte_len(s));
                if i < m.len() {
                    assert(a[i] == m[i]);
                }
            }
        }
        assert forall|i: int| 0 <= i < a.len() implies char_boundary(s, #[trigger] a[i] as int) by {
            if i < m.len() {
                assert(a[i] == m[i]);
            }
        }
    } else {
        assert forall|i: int| 0 <= i < a.len() && char_boundary(normalized(cfg, s), i) implies char_boundary(
            s,
            #[trigger] a[i] as int,
        ) by {
            assert(a[i] == i);
        }
    }
}

fn has_ascii_uppercase(s: &str) -> (b: bool)
    ensures
        b == !no_ascii_uppercase(s@),
{
    let chars = chars_of(s);
    let mut i: usize = 0;
    while i < chars.len()
        invariant
            i <= chars@.len(),
            chars@ == s@,
            forall|k: int| 0 <= k < i ==> !('A' <= #[trigger] chars@[k] <= 'Z'),
        decreases chars@.len() - i,
    {
        if 'A' <= chars[i] && chars[i] <= 'Z' {
            return true;
        }
        i += 1;
    }
    false
}

/// CJK law: with CJK handling on, a character of the CJK Unified
/// Ideographs blocks (U+4E00..U+9FFF, Extension A U+3400..U+4DBF,
/// Extensions B to E U+20000..U+2A6DF, U+2A700..U+2CEAF, and the
/// Compatibility Ideographs U+F900..U+FAFF and U+2F800..U+2FA1F) appended
/// to any text appends itself between two spaces to the normalized text.
/// When clean-text is on as well, this holds of the ideographs that are not
/// in an "Other" category.
pub proof fn law_cjk_wrapped(cfg: NormalizerConfig, s: Seq<char>, c: char)
    requires
        cfg.handle_chinese_chars,
        cfg.clean_text ==> !other_category(c),
        ({
            let u = c as u32;
            ||| 0x4E00 <= u && u <= 0x9FFF
            ||| 0x3400 <= u && u <= 0x4DBF
            ||| 0x20000 <= u && u <= 0x2A6DF
            ||| 0x2A700 <= u && u <= 0x2CEAF
            ||| 0xF900 <= u && u <= 0xFAFF
            ||| 0x2F800 <= u && u <= 0x2FA1F
        }),
    ensures
        normalized(cfg, s.push(c)) == normalized(cfg, s) + seq![' ', c, ' '],
{
    let t = s.push(c);
    assert(t.drop_last() =~= s);
    assert(t.last() == c);
    assert(!white_space(c));
    assert(spaced(cfg, c) == c);
    assert(chinese_codepoint(c));
    assert(!(cfg.clean_text && cleaned_away(c)));
    assert(wrapped(cfg, c));
    assert(emitted(cfg, c) == seq![' ', c, ' ']);
    assert(!unchanged_input(cfg, s));
    assert(!unchanged_input(cfg, t));
    assert(norm_text(cfg, t) == norm_text(cfg, s) + emitted(cfg, c));
}

} // verus!
