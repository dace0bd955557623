//! Character-level helpers shared by the tokenizer and the model format:
//! UTF-8 widths, conversions between `str` and `char` sequences, and the
//! Unicode character properties the pipeline depends on.

use vstd::prelude::*;

use unicode_categories::UnicodeCategories;
use unicode_normalization::UnicodeNormalization;

verus! {

/// Number of bytes in the UTF-8 encoding of `c`.
pub open spec fn utf8_width(c: char) -> nat {
    if (c as u32) < 0x80 {
        1
    } else if (c as u32) < 0x800 {
        2
    } else if (c as u32) < 0x10000 {
        3
    } else {
        4
    }
}

/// Number of bytes in the UTF-8 encoding of `s`.
pub open spec fn byte_len(s: Seq<char>) -> nat
    decreases s.len(),
{
    if s.len() == 0 {
        0
    } else {
        utf8_width(s[0]) + byte_len(s.drop_first())
    }
}

pub proof fn lemma_byte_len_append(a: Seq<char>, b: Seq<char>)
    ensures
        byte_len(a + b) == byte_len(a) + byte_len(b),
    decreases a.len(),
{
    if a.len() == 0 {
        assert(a + b =~= b);
    } else {
        assert((a + b).drop_first() =~= a.drop_first() + b);
        lemma_byte_len_append(a.drop_first(), b);
    }
}

pub proof fn lemma_byte_len_push(a: Seq<char>, c: char)
    ensures
        byte_len(a.push(c)) == byte_len(a) + utf8_width(c),
{
    lemma_byte_len_append(a, seq![c]);
    assert(a.push(c) =~= a + seq![c]);
    assert(seq![c].drop_first() =~= Seq::<char>::empty());
    assert(byte_len(seq![c]) == utf8_width(c) + byte_len(Seq::<char>::empty()));
}

/// The byte length that `str::len` reports is the sum of the UTF-8 widths.
pub proof fn lemma_encode_len(s: Seq<char>)
    ensures
        vstd::utf8::encode_utf8(s).len() == byte_len(s),
    decreases s.len(),
{
    if s.len() > 0 {
        vstd::utf8::char_is_scalar(s[0]);
        lemma_encode_len(s.drop_first());
    }
}

/// UTF-8 width of one character.
pub fn char_width(c: char) -> (w: usize)
    ensures
        w == utf8_width(c),
        1 <= w <= 4,
{
    let u = c as u32;
    if u < 0x80 {
        1
    } else if u < 0x800 {
        2
    } else if u < 0x10000 {
        3
    } else {
        4
    }
}

/// The characters of `s`, in order.
pub fn chars_of(s: &str) -> (v: Vec<char>)
    ensures
        v@ == s@,
{
    let mut v: Vec<char> = Vec::new();
    for c in it: s.chars()
        invariant
            v@ == it.seq().take(it.index() as int),
    {
        v.push(c);
    }
    v
}

/// Byte length of `s`.
pub fn str_byte_len(s: &str) -> (n: usize)
    ensures
        n == byte_len(s@),
{
    proof {
        lemma_encode_len(s@);
    }
    s.as_bytes().len()
}

/// Append one character to a string.
#[verifier::external_body]
pub(crate) fn push_char(s: &mut String, c: char)
    ensures
        final(s)@ == old(s)@.push(c),
{
    s.push(c);
}

/// The ASCII digit for `d` in `0..10`.
pub open spec fn digit_char(d: int) -> char {
    ((48 + d) as u8) as char
}

/// Decimal representation of `n`, without leading zeros.
pub open spec fn decimal(n: nat) -> Seq<char>
    decreases n,
{
    if n < 10 {
        seq![digit_char(n as int)]
    } else {
        decimal(n / 10).push(digit_char((n % 10) as int))
    }
}

/// Append the decimal representation of `n`.
pub fn push_decimal(s: &mut String, n: u64)
    ensures
        final(s)@ == old(s)@ + decimal(n as nat),
    decreases n,
{
    if n >= 10 {
        push_decimal(s, n / 10);
    }
    let d = (n % 10) as u8;
    let ghost before = s@;
    push_char(s, (48 + d) as char);
    assert(s@ =~= old(s)@ + decimal(n as nat));
}

/// Append the characters of `t`.
pub fn push_str(s: &mut String, t: &str)
    ensures
        final(s)@ == old(s)@ + t@,
{
    s.append(t);
}

/// The `Debug` rendering of a byte list: `[b0, b1, ...]`.
pub open spec fn byte_list(b: Seq<u8>) -> Seq<char> {
    seq!['['] + byte_items(b) + seq![']']
}

pub open spec fn byte_items(b: Seq<u8>) -> Seq<char>
    decreases b.len(),
{
    if b.len() == 0 {
        Seq::empty()
    } else if b.len() == 1 {
        decimal(b[0] as nat)
    } else {
        byte_items(b.drop_last()) + seq![',', ' '] + decimal(b.last() as nat)
    }
}

/// Append the `Debug` rendering of `b`.
pub fn push_byte_list(s: &mut String, b: &[u8])
    ensures
        final(s)@ == old(s)@ + byte_list(b@),
{
    let ghost s0 = s@;
    push_char(s, '[');
    let mut i: usize = 0;
    while i < b.len()
        invariant
            i <= b@.len(),
            s@ == s0 + seq!['['] + byte_items(b@.take(i as int)),
        decreases b@.len() - i,
    {
        let ghost before = s@;
        proof {
            assert(b@.take(i + 1).drop_last() =~= b@.take(i as int));
        }
        if i > 0 {
            push_char(s, ',');
            push_char(s, ' ');
        }
        push_decimal(s, b[i] as u64);
        i += 1;
        assert(s@ =~= s0 + seq!['['] + byte_items(b@.take(i as int)));
    }
    assert(b@.take(i as int) =~= b@);
    push_char(s, ']');
    assert(s@ =~= s0 + byte_list(b@));
}

/// The `Debug` rendering of a list of sizes: `[a, b, ...]`.
pub open spec fn size_list(v: Seq<usize>) -> Seq<char> {
    seq!['['] + size_items(v) + seq![']']
}

pub open spec fn size_items(v: Seq<usize>) -> Seq<char>
    decreases v.len(),
{
    if v.len() == 0 {
        Seq::empty()
    } else if v.len() == 1 {
        decimal(v[0] as nat)
    } else {
        size_items(v.drop_last()) + seq![',', ' '] + decimal(v.last() as nat)
    }
}

/// Append the `Debug` rendering of `v`.
pub fn push_size_list(s: &mut String, v: &[usize])
    ensures
        final(s)@ == old(s)@ + size_list(v@),
{
    let ghost s0 = s@;
    push_char(s, '[');
    let mut i: usize = 0;
    while i < v.len()
        invariant
            i <= v@.len(),
            s@ == s0 + seq!['['] + size_items(v@.take(i as int)),
        decreases v@.len() - i,
    {
        proof {
            assert(v@.take(i + 1).drop_last() =~= v@.take(i as int));
        }
        if i > 0 {
            push_char(s, ',');
            push_char(s, ' ');
        }
        push_decimal(s, v[i] as u64);
        i += 1;
        assert(s@ =~= s0 + seq!['['] + size_items(v@.take(i as int)));
    }
    assert(v@.take(i as int) =~= v@);
    push_char(s, ']');
    assert(s@ =~= s0 + size_list(v@));
}

/// Number of whitespace characters at the start of `s`.
pub open spec fn leading_ws(s: Seq<char>) -> nat
    decreases s.len(),
{
    if s.len() > 0 && white_space(s[0]) {
        1 + leading_ws(s.drop_first())
    } else {
        0
    }
}

/// Number of whitespace characters at the end of `s`.
pub open spec fn trailing_ws(s: Seq<char>) -> nat
    decreases s.len(),
{
    if s.len() > 0 && white_space(s.last()) {
        1 + trailing_ws(s.drop_last())
    } else {
        0
    }
}

pub proof fn lemma_ws_counts(s: Seq<char>)
    ensures
        leading_ws(s) <= s.len(),
        trailing_ws(s) <= s.len(),
    decreases s.len(),
{
    if s.len() > 0 {
        lemma_ws_counts(s.drop_first());
        lemma_ws_counts(s.drop_last());
    }
}

/// `s` without leading whitespace, as `str::trim_start` gives it.
pub open spec fn trim_start(s: Seq<char>) -> Seq<char> {
    s.skip(leading_ws(s) as int)
}

/// `s` without trailing whitespace, as `str::trim_end` gives it.
pub open spec fn trim_end(s: Seq<char>) -> Seq<char> {
    s.take(s.len() - trailing_ws(s))
}

/// `s` without leading and trailing whitespace, as `str::trim` gives it.
pub open spec fn trim(s: Seq<char>) -> Seq<char> {
    trim_end(trim_start(s))
}

/// First position at or after `pos` (before `end`) that is not whitespace.
pub fn skip_ws(v: &Vec<char>, pos: usize, end: usize) -> (p: usize)
    requires
        pos <= end <= v@.len(),
    ensures
        pos <= p <= end,
        v@.subrange(p as int, end as int) == trim_start(v@.subrange(pos as int, end as int)),
    decreases end - pos,
{
    if pos < end && is_white_space(v[pos]) {
        let r = skip_ws(v, pos + 1, end);
        proof {
            assert(v@.subrange(pos as int, end as int).drop_first() =~= v@.subrange(pos + 1, end as int));
            lemma_ws_counts(v@.subrange(pos + 1, end as int));
            assert(v@.subrange(r as int, end as int) =~= v@.subrange(pos as int, end as int).skip(
                leading_ws(v@.subrange(pos as int, end as int)) as int));
        }
        r
    } else {
        proof {
            assert(v@.subrange(pos as int, end as int).skip(0) =~= v@.subrange(pos as int, end as int));
        }
        pos
    }
}

/// End position after dropping the whitespace before `end` (down to `pos`).
pub fn trim_end_pos(v: &Vec<char>, pos: usize, end: usize) -> (e: usize)
    requires
        pos <= end <= v@.len(),
    ensures
        pos <= e <= end,
        v@.subrange(pos as int, e as int) == trim_end(v@.subrange(pos as int, end as int)),
    decreases end - pos,
{
    if pos < end && is_white_space(v[end - 1]) {
        let r = trim_end_pos(v, pos, end - 1);
        proof {
            assert(v@.subrange(pos as int, end as int).drop_last() =~= v@.subrange(pos as int, end - 1));
            lemma_ws_counts(v@.subrange(pos as int, end - 1));
            assert(v@.subrange(pos as int, r as int) =~= trim_end(v@.subrange(pos as int, end as int)));
        }
        r
    } else {
        proof {
            assert(trim_end(v@.subrange(pos as int, end as int)) =~= v@.subrange(pos as int, end as int));
        }
        end
    }
}

/// How a `std::str::Utf8Error` for `b` displays: where the invalid
/// sequence starts and how long it is.
pub uninterp spec fn utf8_error_text(b: Seq<u8>) -> Seq<char>;

/// Calls `std::str::from_utf8`: it succeeds exactly on valid UTF-8, giving
/// the decoded characters; its error displays as `utf8_error_text`.
#[verifier::external_body]
pub(crate) fn str_from_utf8(b: &[u8]) -> (r: Result<String, String>)
    ensures
        r is Ok <==> vstd::utf8::valid_utf8(b@),
        r matches Ok(t) ==> t@ == vstd::utf8::decode_utf8(b@),
        r matches Err(e) ==> e@ == utf8_error_text(b@),
{
    match std::str::from_utf8(b) {
        Ok(t) => Ok(t.to_string()),
        Err(e) => Err(format!("{e}")),
    }
}

/// Whether `c` is an ASCII digit.
pub open spec fn is_digit(c: char) -> bool {
    '0' <= c && c <= '9'
}

/// The value of a string of ASCII digits.
pub open spec fn digits_value(s: Seq<char>) -> nat
    decreases s.len(),
{
    if s.len() == 0 {
        0
    } else {
        digits_value(s.drop_last()) * 10 + ((s.last() as u32) - ('0' as u32)) as nat
    }
}

/// The number `s` spells as an unsigned integer: an optional `+` and then
/// one or more ASCII digits; `None` for any other text.
pub open spec fn unsigned_text(s: Seq<char>) -> Option<nat> {
    let d = if s.len() > 0 && s[0] == '+' { s.drop_first() } else { s };
    if d.len() > 0 && forall|i: int| 0 <= i < d.len() ==> #[trigger] is_digit(d[i]) {
        Some(digits_value(d))
    } else {
        None
    }
}

/// How the `std::num::ParseIntError` for `s` displays.
pub uninterp spec fn parse_int_error_text(s: Seq<char>) -> Seq<char>;

/// Calls `<usize as FromStr>::from_str`: it accepts an optional `+` and
/// ASCII digits whose value fits a `usize`; its error displays as
/// `parse_int_error_text`.
#[verifier::external_body]
pub(crate) fn parse_usize(s: &str) -> (r: Result<usize, String>)
    ensures
        r matches Ok(v) ==> unsigned_text(s@) == Some(v as nat),
        r is Err <==> (unsigned_text(s@) is None || unsigned_text(s@)->0 > usize::MAX),
        r matches Err(e) ==> e@ == parse_int_error_text(s@),
{
    match s.parse::<usize>() {
        Ok(v) => Ok(v),
        Err(e) => Err(format!("{e}")),
    }
}

/// How `{:?}` renders a string: quoted, with escapes.
pub uninterp spec fn debug_str(s: Seq<char>) -> Seq<char>;

/// Renders `s` with `{:?}`; the result is named by `debug_str`.
#[verifier::external_body]
pub(crate) fn str_debug(s: &str) -> (r: String)
    ensures
        r@ == debug_str(s@),
{
    format!("{:?}", s)
}

/// How `{:?}` renders an `Option<char>`.
pub uninterp spec fn debug_option_char(c: Option<char>) -> Seq<char>;

/// Renders `c` with `{:?}`; the result is named by `debug_option_char`.
#[verifier::external_body]
pub(crate) fn option_char_debug(c: Option<char>) -> (r: String)
    ensures
        r@ == debug_option_char(c),
{
    format!("{:?}", c)
}

/// Whether `c` has the Unicode `White_Space` property (PropList.txt):
/// U+0009..=U+000D, the space, U+0085, U+00A0, U+1680, U+2000..=U+200A,
/// U+2028, U+2029, U+202F, U+205F and U+3000.
pub open spec fn white_space(c: char) -> bool {
    let u = c as u32;
    ||| (0x9 <= u && u <= 0xD)
    ||| u == 0x20 || u == 0x85 || u == 0xA0 || u == 0x1680
    ||| (0x2000 <= u && u <= 0x200A)
    ||| u == 0x2028 || u == 0x2029 || u == 0x202F || u == 0x205F || u == 0x3000
}

/// Calls `char::is_whitespace`, which reports the `White_Space` property.
#[verifier::external_body]
pub(crate) fn is_white_space(c: char) -> (b: bool)
    ensures
        (c as u32) < 0x80 ==> (b <==> (c == ' ' || (0x9 <= (c as u32) && (c as u32) <= 0xD))),
        b == white_space(c),
{
    c.is_whitespace()
}

/// The characters `char::to_lowercase` yields for a non-ASCII `c`.
pub uninterp spec fn lowercase_beyond_ascii(c: char) -> Seq<char>;

/// The lowercase of an ASCII character: `A` to `Z` become `a` to `z`, any
/// other character stays as it is.
pub open spec fn ascii_lowercase(c: char) -> Seq<char> {
    if 'A' <= c && c <= 'Z' {
        seq![((c as u32) + 32) as char]
    } else {
        seq![c]
    }
}

/// The characters `char::to_lowercase` yields for `c`.
pub open spec fn lowercase_chars(c: char) -> Seq<char> {
    if (c as u32) < 0x80 {
        ascii_lowercase(c)
    } else {
        lowercase_beyond_ascii(c)
    }
}

/// Calls `char::to_lowercase` and collects what it yields: for ASCII, the
/// letters `A` to `Z` map to `a` to `z` and every other character to
/// itself; beyond ASCII the result is named by `lowercase_beyond_ascii`.
#[verifier::external_body]
pub(crate) fn to_lowercase_chars(c: char) -> (v: Vec<char>)
    ensures
        (c as u32) < 0x80 ==> v@ == ascii_lowercase(c),
        (c as u32) >= 0x80 ==> v@ == lowercase_beyond_ascii(c),
        v@ == lowercase_chars(c),
{
    c.to_lowercase().collect()
}

/// The canonical decomposition (NFD) of a non-ASCII `c` as
/// `unicode_normalization` computes it.
pub uninterp spec fn nfd_beyond_ascii(c: char) -> Seq<char>;

/// The canonical decomposition (NFD) of `c`: an ASCII character never
/// decomposes.
pub open spec fn nfd_chars(c: char) -> Seq<char> {
    if (c as u32) < 0x80 {
        seq![c]
    } else {
        nfd_beyond_ascii(c)
    }
}

/// Calls `UnicodeNormalization::nfd` on one character and collects the
/// result: an ASCII character comes back alone; beyond ASCII the result is
/// named by `nfd_beyond_ascii`.
#[verifier::external_body]
pub(crate) fn nfd_of(c: char) -> (v: Vec<char>)
    ensures
        (c as u32) < 0x80 ==> v@ == seq![c],
        (c as u32) >= 0x80 ==> v@ == nfd_beyond_ascii(c),
        v@ == nfd_chars(c),
{
    c.nfd().collect()
}

/// Whether `unicode_normalization::char::is_combining_mark` holds of a
/// non-ASCII `c`.
pub uninterp spec fn combining_mark_beyond_ascii(c: char) -> bool;

/// Whether `c` is a combining mark (`General_Category=Mark`); no ASCII
/// character is one.
pub open spec fn combining_mark(c: char) -> bool {
    (c as u32) >= 0x80 && combining_mark_beyond_ascii(c)
}

/// Calls `unicode_normalization::char::is_combining_mark`: false for ASCII;
/// beyond ASCII the result is named by `combining_mark_beyond_ascii`.
#[verifier::external_body]
pub(crate) fn is_combining_mark(c: char) -> (b: bool)
    ensures
        (c as u32) < 0x80 ==> !b,
        (c as u32) >= 0x80 ==> b == combining_mark_beyond_ascii(c),
        b == combining_mark(c),
{
    unicode_normalization::char::is_combining_mark(c)
}

/// Whether a non-ASCII `c` is in an "Other" category (Cc, Cf or Co) per
/// `unicode_categories`.
pub uninterp spec fn other_beyond_ascii(c: char) -> bool;

/// Whether `c` is in an "Other" category (Cc, Cf or Co): among ASCII
/// characters, exactly the controls U+0000..=U+001F and U+007F.
pub open spec fn other_category(c: char) -> bool {
    if (c as u32) < 0x80 {
        (c as u32) < 0x20 || (c as u32) == 0x7F
    } else {
        other_beyond_ascii(c)
    }
}

/// Calls `UnicodeCategories::is_other`: among ASCII characters it holds of
/// the controls; beyond ASCII the result is named by `other_beyond_ascii`.
#[verifier::external_body]
pub(crate) fn is_other_category(c: char) -> (b: bool)
    ensures
        (c as u32) < 0x80 ==> (b <==> ((c as u32) < 0x20 || (c as u32) == 0x7F)),
        (c as u32) >= 0x80 ==> b == other_beyond_ascii(c),
        b == other_category(c),
{
    c.is_other()
}

/// Whether a non-ASCII `c` is in a "Punctuation" category per
/// `unicode_categories`.
pub uninterp spec fn punctuation_beyond_ascii(c: char) -> bool;

/// The ASCII characters of the Punctuation categories (Pc, Pd, Ps, Pe,
/// Po): ``!"#%&'()*,-./:;?@[\]_{}``; `$+<=>^`|~` are symbols.
pub open spec fn ascii_punctuation_category(c: char) -> bool {
    let u = c as u32;
    ||| (0x21 <= u && u <= 0x23)
    ||| (0x25 <= u && u <= 0x2A)
    ||| (0x2C <= u && u <= 0x2F)
    ||| u == 0x3A || u == 0x3B || u == 0x3F || u == 0x40
    ||| (0x5B <= u && u <= 0x5D)
    ||| u == 0x5F || u == 0x7B || u == 0x7D
}

/// Whether `c` is in a "Punctuation" category.
pub open spec fn punctuation_category(c: char) -> bool {
    if (c as u32) < 0x80 {
        ascii_punctuation_category(c)
    } else {
        punctuation_beyond_ascii(c)
    }
}

/// Calls `UnicodeCategories::is_punctuation`: among ASCII characters it
/// holds exactly of `ascii_punctuation_category`; beyond ASCII the result
/// is named by `punctuation_beyond_ascii`.
#[verifier::external_body]
pub(crate) fn is_punctuation_category(c: char) -> (b: bool)
    ensures
        (c as u32) < 0x80 ==> b == ascii_punctuation_category(c),
        (c as u32) >= 0x80 ==> b == punctuation_beyond_ascii(c),
        b == punctuation_category(c),
{
    c.is_punctuation()
}

/// ASCII punctuation: ``!"#$%&'()*+,-./:;<=>?@[\]^_`{|}~``.
pub open spec fn ascii_punctuation(c: char) -> bool {
    let u = c as u32;
    (0x21 <= u <= 0x2F) || (0x3A <= u <= 0x40) || (0x5B <= u <= 0x60) || (0x7B <= u <= 0x7E)
}

pub fn is_ascii_punctuation(c: char) -> (b: bool)
    ensures
        b == ascii_punctuation(c),
{
    let u = c as u32;
    (0x21 <= u && u <= 0x2F) || (0x3A <= u && u <= 0x40) || (0x5B <= u && u <= 0x60) || (0x7B <= u
        && u <= 0x7E)
}

/// Two character sequences are equal.
pub fn chars_eq(a: &Vec<char>, b: &Vec<char>) -> (r: bool)
    ensures
        r == (a@ == b@),
{
    if a.len() != b.len() {
        return false;
    }
    let mut i: usize = 0;
    while i < a.len()
        invariant
            a@.len() == b@.len(),
            i <= a@.len(),
            forall|k: int| 0 <= k < i ==> a@[k] == b@[k],
        decreases a@.len() - i,
    {
        if a[i] != b[i] {
            return false;
        }
        i += 1;
    }
    assert(a@ =~= b@);
    true
}

/// Two strings hold the same characters.
pub fn str_eq(a: &str, b: &str) -> (r: bool)
    ensures
        r == (a@ == b@),
{
    let va = chars_of(a);
    let vb = chars_of(b);
    chars_eq(&va, &vb)
}

/// `s` continues with `p` at position `at`.
pub open spec fn has_at(s: Seq<char>, p: Seq<char>, at: int) -> bool {
    0 <= at && at + p.len() <= s.len() && s.subrange(at, at + p.len()) == p
}

pub fn chars_have_at(s: &Vec<char>, p: &Vec<char>, at: usize) -> (r: bool)
    ensures
        r == has_at(s@, p@, at as int),
{
    if at > s.len() || p.len() > s.len() - at {
        return false;
    }
    let mut k: usize = 0;
    while k < p.len()
        invariant
            at + p@.len() <= s@.len(),
            s@.len() == s.len(),
            k <= p@.len(),
            forall|j: int| 0 <= j < k ==> s@[at + j] == p@[j],
        decreases p@.len() - k,
    {
        if s[at + k] != p[k] {
            assert(s@.subrange(at as int, at + p@.len())[k as int] != p@[k as int]);
            return false;
        }
        k += 1;
    }
    assert(s@.subrange(at as int, at + p@.len()) =~= p@);
    true
}

} // verus!
