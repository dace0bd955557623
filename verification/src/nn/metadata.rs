//! Model metadata: a flat string-to-string map, stored in the model file as
//! a flat JSON object `{"key":"value", ...}` with string keys and values
//! only (no nesting, no arrays).

use vstd::prelude::*;

use crate::nn::error::{NnError, NnResult};
use crate::nn::heads::{after_label, lemma_after_label_len};
use crate::text::{
    chars_of, debug_option_char, lemma_ws_counts, option_char_debug, push_char, push_str,
    skip_ws, str_eq, str_from_utf8, trim, trim_end_pos, trim_start, utf8_error_text,
};

verus! {

/// Key/value pairs as character sequences.
pub type Pairs = Seq<(Seq<char>, Seq<char>)>;

/// The pairs of `v`, viewed.
pub open spec fn pair_views(v: Seq<(String, String)>) -> Pairs {
    v.map_values(|p: (String, String)| (p.0@, p.1@))
}

/// The map that inserting `ps` in order builds: a later pair with the same
/// key replaces an earlier one.
pub open spec fn pairs_map(ps: Pairs) -> Map<Seq<char>, Seq<char>>
    decreases ps.len(),
{
    if ps.len() == 0 {
        Map::empty()
    } else {
        pairs_map(ps.drop_last()).insert(ps.last().0, ps.last().1)
    }
}

/// No key occurs twice.
pub open spec fn unique_keys(ps: Pairs) -> bool {
    forall|i: int, j: int| 0 <= i < j < ps.len() ==> ps[i].0 != ps[j].0
}

/// With unique keys, each pair is in the map, and the map holds nothing else.
pub proof fn lemma_pairs_map_unique(ps: Pairs)
    requires
        unique_keys(ps),
    ensures
        forall|i: int| 0 <= i < ps.len() ==> #[trigger] pairs_map(ps).contains_key(ps[i].0)
            && pairs_map(ps)[ps[i].0] == ps[i].1,
        forall|k: Seq<char>| #[trigger] pairs_map(ps).contains_key(k) ==> exists|i: int|
            0 <= i < ps.len() && ps[i].0 == k,
    decreases ps.len(),
{
    if ps.len() > 0 {
        let d = ps.drop_last();
        assert(unique_keys(d));
        lemma_pairs_map_unique(d);
        assert forall|i: int| 0 <= i < ps.len() implies #[trigger] pairs_map(ps).contains_key(ps[i].0)
            && pairs_map(ps)[ps[i].0] == ps[i].1 by {
            if i < ps.len() - 1 {
                assert(d[i] == ps[i]);
                assert(ps[i].0 != ps[ps.len() - 1].0);
                assert(pairs_map(d).contains_key(d[i].0));
            }
        }
        assert forall|k: Seq<char>| #[trigger] pairs_map(ps).contains_key(k) implies exists|i: int|
            0 <= i < ps.len() && ps[i].0 == k by {
            if k == ps.last().0 {
                assert(ps[ps.len() - 1].0 == k);
            } else {
                assert(pairs_map(d).contains_key(k));
                let i = choose|i: int| 0 <= i < d.len() && d[i].0 == k;
                assert(ps[i] == d[i]);
            }
        }
    }
}

/// Replacing the value of an existing key is inserting it.
pub proof fn lemma_pairs_map_update(ps: Pairs, i: int, v: Seq<char>)
    requires
        unique_keys(ps),
        0 <= i < ps.len(),
    ensures
        pairs_map(ps.update(i, (ps[i].0, v))) == pairs_map(ps).insert(ps[i].0, v),
    decreases ps.len(),
{
    let p = (ps[i].0, v);
    let u = ps.update(i, p);
    if i == ps.len() - 1 {
        assert(u.drop_last() =~= ps.drop_last());
        assert(pairs_map(u) =~= pairs_map(ps).insert(ps[i].0, v));
    } else {
        let d = ps.drop_last();
        assert(u.drop_last() =~= d.update(i, p));
        assert(d[i] == ps[i]);
        lemma_pairs_map_update(d, i, v);
        assert(ps.last().0 != ps[i].0);
        assert(pairs_map(u) =~= pairs_map(ps).insert(ps[i].0, v));
    }
}

/// Flat model metadata. Keys are unique.
#[derive(Debug)]
pub struct Metadata {
    entries: Vec<(String, String)>,
}

impl View for Metadata {
    type V = Map<Seq<char>, Seq<char>>;

    closed spec fn view(&self) -> Map<Seq<char>, Seq<char>> {
        pairs_map(pair_views(self.entries@))
    }
}

impl Metadata {
    #[verifier::type_invariant]
    pub closed spec fn keys_unique(self) -> bool {
        unique_keys(pair_views(self.entries@))
    }

    /// The entries in the order they are stored.
    pub closed spec fn stored(&self) -> Pairs {
        pair_views(self.entries@)
    }

    /// An empty map.
    pub fn new() -> (m: Self)
        ensures
            m@ == Map::<Seq<char>, Seq<char>>::empty(),
            m.stored() == Seq::<(Seq<char>, Seq<char>)>::empty(),
    {
        let m = Metadata { entries: Vec::new() };
        assert(pair_views(m.entries@) =~= Seq::<(Seq<char>, Seq<char>)>::empty());
        m
    }

    /// Position of `key` among the entries.
    fn position(&self, key: &str) -> (r: Option<usize>)
        ensures
            r matches Some(i) ==> i < self.entries@.len() && self.stored()[i as int].0 == key@,
            r is None ==> forall|i: int| 0 <= i < self.entries@.len() ==> self.stored()[i].0 != key@,
    {
        let mut i: usize = 0;
        while i < self.entries.len()
            invariant
                i <= self.entries@.len(),
                forall|k: int| 0 <= k < i ==> self.stored()[k].0 != key@,
            decreases self.entries@.len() - i,
        {
            if str_eq(self.entries[i].0.as_str(), key) {
                return Some(i);
            }
            i += 1;
        }
        None
    }

    /// Set `key` to `value`, replacing any earlier value.
    pub fn insert(&mut self, key: String, value: String)
        ensures
            final(self)@ == old(self)@.insert(key@, value@),
    {
        proof {
            use_type_invariant(&*self);
        }
        let ghost ps = self.stored();
        let found = self.position(key.as_str());
        let mut entries: Vec<(String, String)> = Vec::new();
        std::mem::swap(&mut entries, &mut self.entries);
        match found {
            Some(i) => {
                proof {
                    lemma_pairs_map_update(ps, i as int, value@);
                }
                entries.set(i, (key, value));
                proof {
                    assert(pair_views(entries@) =~= ps.update(i as int, (ps[i as int].0, value@)));
                    assert forall|a: int, b: int| 0 <= a < b < entries@.len() implies pair_views(
                        entries@)[a].0 != pair_views(entries@)[b].0 by {
                        assert(ps[a].0 != ps[b].0);
                    }
                }
            },
            None => {
                entries.push((key, value));
                proof {
                    assert(pair_views(entries@) =~= ps.push((key@, value@)));
                    assert(pair_views(entries@).drop_last() =~= ps);
                }
            },
        }
        self.entries = entries;
    }

    /// The value stored under `key`.
    pub fn get(&self, key: &str) -> (r: Option<&str>)
        ensures
            r is Some <==> self@.contains_key(key@),
            r matches Some(v) ==> v@ == self@[key@],
    {
        proof {
            use_type_invariant(self);
            lemma_pairs_map_unique(self.stored());
        }
        match self.position(key) {
            Some(i) => {
                proof {
                    assert(pairs_map(self.stored()).contains_key(self.stored()[i as int].0));
                }
                Some(self.entries[i].1.as_str())
            },
            None => None,
        }
    }

    /// Number of keys.
    pub fn len(&self) -> (n: usize)
        ensures
            n == self@.len(),
    {
        proof {
            use_type_invariant(self);
            lemma_pairs_map_len(self.stored());
        }
        self.entries.len()
    }

    /// Whether no key is set.
    pub fn is_empty(&self) -> (b: bool)
        ensures
            b == (self@.len() == 0),
    {
        self.len() == 0
    }
}

pub proof fn lemma_pairs_map_finite(ps: Pairs)
    ensures
        pairs_map(ps).dom().finite(),
    decreases ps.len(),
{
    if ps.len() > 0 {
        lemma_pairs_map_finite(ps.drop_last());
    }
}

/// With unique keys, the map has one key per pair.
pub proof fn lemma_pairs_map_len(ps: Pairs)
    requires
        unique_keys(ps),
    ensures
        pairs_map(ps).len() == ps.len(),
    decreases ps.len(),
{
    if ps.len() > 0 {
        let d = ps.drop_last();
        assert(unique_keys(d));
        lemma_pairs_map_len(d);
        lemma_pairs_map_finite(d);
        lemma_pairs_map_unique(d);
        if pairs_map(d).contains_key(ps.last().0) {
            let i = choose|i: int| 0 <= i < d.len() && d[i].0 == ps.last().0;
            assert(ps[i] == d[i]);
        }
    }
}


// ---------------------------------------------------------------------------
// Reading the flat JSON object
// ---------------------------------------------------------------------------

/// The character an escape `\c` stands for: `"`, `\`, `/`, `n`, `t` and `r`
/// are the JSON escapes; any other character stands for itself.
pub open spec fn unescape(c: char) -> char {
    if c == 'n' {
        '\n'
    } else if c == 't' {
        '\t'
    } else if c == 'r' {
        '\r'
    } else {
        c
    }
}

/// `r` with `c` put in front of its value.
pub open spec fn prepend(c: char, r: Result<(Seq<char>, int), Seq<char>>) -> Result<
    (Seq<char>, int),
    Seq<char>,
> {
    match r {
        Ok((v, e)) => Ok((seq![c] + v, e)),
        Err(m) => Err(m),
    }
}

/// `r` with `acc` put in front of its value.
pub open spec fn with_prefix(acc: Seq<char>, r: Result<(Seq<char>, int), Seq<char>>) -> Result<
    (Seq<char>, int),
    Seq<char>,
> {
    match r {
        Ok((v, e)) => Ok((acc + v, e)),
        Err(m) => Err(m),
    }
}

/// The rest of a string literal from position `i` (after its opening quote):
/// its value and the position after the closing quote, or an error.
pub open spec fn scan_string(s: Seq<char>, i: int) -> Result<(Seq<char>, int), Seq<char>>
    decreases s.len() - i,
{
    if i < 0 || i >= s.len() {
        Err("unterminated JSON string"@)
    } else if s[i] == '"' {
        Ok((Seq::empty(), i + 1))
    } else if s[i] == '\\' {
        if i + 1 >= s.len() {
            Err("unterminated escape"@)
        } else {
            prepend(unescape(s[i + 1]), scan_string(s, i + 2))
        }
    } else {
        prepend(s[i], scan_string(s, i + 1))
    }
}

pub proof fn lemma_scan_bounds(s: Seq<char>, i: int)
    ensures
        scan_string(s, i) matches Ok((v, e)) ==> i < e <= s.len(),
    decreases s.len() - i,
{
    if 0 <= i < s.len() && s[i] != '"' {
        if s[i] == '\\' {
            if i + 1 < s.len() {
                lemma_scan_bounds(s, i + 2);
            }
        } else {
            lemma_scan_bounds(s, i + 1);
        }
    }
}

/// A string literal at the start of `s`: its value and the number of
/// characters it takes, or an error.
pub open spec fn json_string(s: Seq<char>) -> Result<(Seq<char>, int), Seq<char>> {
    if s.len() == 0 || s[0] != '"' {
        Err(
            "expected '\"' at start of JSON string, got "@ + debug_option_char(
                if s.len() == 0 {
                    None
                } else {
                    Some(s[0])
                },
            ),
        )
    } else {
        scan_string(s, 1)
    }
}

/// The pairs read from `rest`, the trimmed inside of the object, in order,
/// or the message of the first error.
pub open spec fn json_pairs(rest: Seq<char>) -> Result<Pairs, Seq<char>>
    decreases rest.len(),
{
    if rest.len() == 0 {
        Ok(Seq::empty())
    } else {
        match json_string(rest) {
            Err(m) => Err(m),
            Ok((key, e)) => {
                let r1 = trim_start(rest.skip(e));
                if !(r1.len() > 0 && r1[0] == ':') {
                    Err("expected ':' after key"@)
                } else {
                    let r2 = trim_start(r1.drop_first());
                    match json_string(r2) {
                        Err(m) => Err(m),
                        Ok((val, e2)) => {
                            let r3 = after_label(r2.skip(e2));
                            proof {
                                lemma_scan_bounds(rest, 1);
                                lemma_scan_bounds(r2, 1);
                                lemma_ws_counts(rest.skip(e));
                                lemma_ws_counts(r1.drop_first());
                                lemma_after_label_len(r2.skip(e2));
                            }
                            match json_pairs(r3) {
                                Ok(ps) => Ok(seq![(key, val)] + ps),
                                Err(m) => Err(m),
                            }
                        },
                    }
                }
            },
        }
    }
}

/// What reading `s` as flat JSON metadata gives: the pairs in order, or
/// the message of the error.
pub open spec fn flat_object(s: Seq<char>) -> Result<Pairs, Seq<char>> {
    let t = trim(s);
    if t.len() == 0 || t == seq!['{', '}'] {
        Ok(Seq::empty())
    } else if !(t[0] == '{' && t.last() == '}') {
        Err("metadata JSON must be a flat object"@)
    } else {
        json_pairs(trim(t.subrange(1, t.len() - 1)))
    }
}

/// Read the metadata section of a model file: UTF-8 text holding a flat
/// JSON object.
pub fn parse_metadata_bytes(b: &[u8]) -> (r: NnResult<Metadata>)
    ensures
        !vstd::utf8::valid_utf8(b@) ==> (r matches Err(NnError::Format(m)) && m@ == "metadata not UTF-8: "@
            + utf8_error_text(b@)),
        vstd::utf8::valid_utf8(b@) ==> match flat_object(vstd::utf8::decode_utf8(b@)) {
            Ok(ps) => (r matches Ok(m) && m@ == pairs_map(ps)),
            Err(msg) => (r matches Err(NnError::Format(t)) && t@ == msg),
        },
{
    match str_from_utf8(b) {
        Ok(text) => parse_flat_json(text.as_str()),
        Err(e) => {
            let mut m = String::new();
            push_str(&mut m, "metadata not UTF-8: ");
            push_str(&mut m, e.as_str());
            Err(NnError::Format(m))
        },
    }
}

/// `m` after inserting `ps` in order.
pub open spec fn fold_from(m: Map<Seq<char>, Seq<char>>, ps: Pairs) -> Map<Seq<char>, Seq<char>>
    decreases ps.len(),
{
    if ps.len() == 0 {
        m
    } else {
        fold_from(m.insert(ps[0].0, ps[0].1), ps.drop_first())
    }
}

pub proof fn lemma_fold_from(a: Pairs, b: Pairs)
    ensures
        fold_from(pairs_map(a), b) == pairs_map(a + b),
    decreases b.len(),
{
    if b.len() == 0 {
        assert(a + b =~= a);
    } else {
        let a2 = a.push(b[0]);
        assert(a2.drop_last() =~= a);
        lemma_fold_from(a2, b.drop_first());
        assert(a2 + b.drop_first() =~= a + b);
    }
}

/// Read the string literal at `v[pos..end]`: its value and the position
/// after it.
fn parse_json_string(v: &Vec<char>, pos: usize, end: usize) -> (r: NnResult<(String, usize)>)
    requires
        pos <= end <= v@.len(),
    ensures
        match json_string(v@.subrange(pos as int, end as int)) {
            Ok((val, e)) => (r matches Ok((t, p)) && t@ == val && p == pos + e),
            Err(m) => (r matches Err(NnError::Format(msg)) && msg@ == m),
        },
        r matches Ok((t, p)) ==> pos < p <= end,
{
    let ghost sub = v@.subrange(pos as int, end as int);
    proof {
        lemma_scan_bounds(sub, 1);
    }
    if pos >= end || v[pos] != '"' {
        let mut m = String::new();
        push_str(&mut m, "expected '\"' at start of JSON string, got ");
        let first = if pos < end {
            Some(v[pos])
        } else {
            None
        };
        let d = option_char_debug(first);
        push_str(&mut m, d.as_str());
        proof {
            if pos < end {
                assert(sub[0] == v@[pos as int]);
            }
        }
        return Err(NnError::Format(m));
    }
    let mut result = String::new();
    let mut i = pos + 1;
    while i < end && v[i] != '"'
        invariant_except_break
            pos < i <= end <= v@.len(),
            sub == v@.subrange(pos as int, end as int),
            sub.len() > 0 && sub[0] == '"',
            scan_string(sub, 1) == with_prefix(result@, scan_string(sub, i - pos)),
        invariant
            pos < i,
        ensures
            pos < i <= end,
            scan_string(sub, 1) == with_prefix(result@, scan_string(sub, i - pos)),
            i < end ==> v@[i as int] == '"',
        decreases end - i,
    {
        let c = v[i];
        let ghost k = i - pos;
        proof {
            assert(sub[k] == c);
        }
        if c == '\\' {
            if i + 1 >= end {
                let mut m = String::new();
                push_str(&mut m, "unterminated escape");
                return Err(NnError::Format(m));
            }
            let n = v[i + 1];
            proof {
                assert(sub[k + 1] == n);
            }
            let u = if n == 'n' {
                '\n'
            } else if n == 't' {
                '\t'
            } else if n == 'r' {
                '\r'
            } else {
                n
            };
            let ghost before = result@;
            push_char(&mut result, u);
            proof {
                assert(before + (seq![u] + Seq::<char>::empty()) =~= result@ + Seq::<char>::empty());
                match scan_string(sub, k + 2) {
                    Ok((w, e)) => {
                        assert(before + (seq![u] + w) =~= result@ + w);
                    },
                    Err(_) => {},
                }
            }
            i = i + 2;
        } else {
            let ghost before = result@;
            push_char(&mut result, c);
            proof {
                match scan_string(sub, k + 1) {
                    Ok((w, e)) => {
                        assert(before + (seq![c] + w) =~= result@ + w);
                    },
                    Err(_) => {},
                }
            }
            i = i + 1;
        }
    }
    if i >= end {
        let mut m = String::new();
        push_str(&mut m, "unterminated JSON string");
        return Err(NnError::Format(m));
    }
    proof {
        assert(sub[i - pos] == v@[i as int]);
        assert(result@ + Seq::<char>::empty() =~= result@);
    }
    Ok((result, i + 1))
}

/// Parse a flat `{"key":"value", ...}` JSON object. A key given twice keeps
/// its last value.
pub fn parse_flat_json(s: &str) -> (r: NnResult<Metadata>)
    ensures
        match flat_object(s@) {
            Ok(ps) => (r matches Ok(m) && m@ == pairs_map(ps)),
            Err(msg) => (r matches Err(NnError::Format(t)) && t@ == msg),
        },
{
    let v = chars_of(s);
    let n = v.len();
    let a = skip_ws(&v, 0, n);
    let b = trim_end_pos(&v, a, n);
    proof {
        assert(v@.subrange(0, n as int) =~= s@);
        assert(v@.subrange(a as int, b as int) == trim(s@));
    }
    let ghost t = v@.subrange(a as int, b as int);
    if a == b || (b - a == 2 && v[a] == '{' && v[a + 1] == '}') {
        proof {
            if a < b {
                assert(t =~= seq!['{', '}']);
            }
        }
        return Ok(Metadata::new());
    }
    proof {
        if t == seq!['{', '}'] {
            assert(t[0] == v@[a as int] && t[1] == v@[a + 1]);
        }
    }
    if !(v[a] == '{' && v[b - 1] == '}') {
        let mut m = String::new();
        push_str(&mut m, "metadata JSON must be a flat object");
        return Err(NnError::Format(m));
    }
    let p0 = skip_ws(&v, a + 1, b - 1);
    let end = trim_end_pos(&v, p0, b - 1);
    proof {
        assert(t.subrange(1, t.len() - 1) =~= v@.subrange(a + 1, b - 1));
        assert(v@.subrange(p0 as int, end as int) == trim(t.subrange(1, t.len() - 1)));
        assert(flat_object(s@) == json_pairs(v@.subrange(p0 as int, end as int)));
    }
    let mut map = Metadata::new();
    proof {
        match json_pairs(v@.subrange(p0 as int, end as int)) {
            Ok(all) => {
                lemma_fold_from(Seq::empty(), all);
                assert(Seq::<(Seq<char>, Seq<char>)>::empty() + all =~= all);
            },
            Err(_) => {},
        }
    }
    let mut p = p0;
    while p < end
        invariant
            p0 <= p <= end <= v@.len(),
            v@ == s@,
            flat_object(s@) == json_pairs(v@.subrange(p0 as int, end as int)),
            match json_pairs(v@.subrange(p0 as int, end as int)) {
                Ok(all) => match json_pairs(v@.subrange(p as int, end as int)) {
                    Ok(ps) => pairs_map(all) == fold_from(map@, ps),
                    Err(_) => false,
                },
                Err(m) => json_pairs(v@.subrange(p as int, end as int)) == Err::<Pairs, Seq<char>>(m),
            },
        decreases end - p,
    {
        let ghost rest = v@.subrange(p as int, end as int);
        let (key, q) = match parse_json_string(&v, p, end) {
            Ok(x) => x,
            Err(e) => {
                return Err(e);
            },
        };
        let ghost e1 = q - p;
        let r1 = skip_ws(&v, q, end);
        proof {
            assert(rest.skip(e1) =~= v@.subrange(q as int, end as int));
        }
        if !(r1 < end && v[r1] == ':') {
            proof {
                if r1 < end {
                    assert(trim_start(rest.skip(e1))[0] == v@[r1 as int]);
                }
            }
            let mut m = String::new();
            push_str(&mut m, "expected ':' after key");
            return Err(NnError::Format(m));
        }
        let r2 = skip_ws(&v, r1 + 1, end);
        proof {
            assert(trim_start(rest.skip(e1))[0] == v@[r1 as int]);
            assert(trim_start(rest.skip(e1)).drop_first() =~= v@.subrange(r1 + 1, end as int));
        }
        let (val, q2) = match parse_json_string(&v, r2, end) {
            Ok(x) => x,
            Err(e) => {
                return Err(e);
            },
        };
        let t1 = skip_ws(&v, q2, end);
        let mut next = t1;
        if t1 < end && v[t1] == ',' {
            next = skip_ws(&v, t1 + 1, end);
        }
        proof {
            let r2s = v@.subrange(r2 as int, end as int);
            let e2 = q2 - r2;
            assert(r2s.skip(e2) =~= v@.subrange(q2 as int, end as int));
            if t1 < end && v@[t1 as int] == ',' {
                assert(trim_start(r2s.skip(e2))[0] == v@[t1 as int]);
                assert(trim_start(r2s.skip(e2)).drop_first() =~= v@.subrange(t1 + 1, end as int));
            } else if t1 < end {
                assert(trim_start(r2s.skip(e2))[0] == v@[t1 as int]);
            }
            assert(v@.subrange(next as int, end as int) == after_label(r2s.skip(e2)));
        }
        let ghost before = map@;
        map.insert(key, val);
        proof {
            match json_pairs(v@.subrange(next as int, end as int)) {
                Ok(ps) => {
                    let whole = seq![(key@, val@)] + ps;
                    assert(whole.drop_first() =~= ps);
                    assert(whole[0] == (key@, val@));
                },
                Err(_) => {},
            }
        }
        p = next;
    }
    proof {
        assert(v@.subrange(p as int, end as int) =~= Seq::<char>::empty());
    }
    Ok(map)
}


// ---------------------------------------------------------------------------
// Writing the flat JSON object
// ---------------------------------------------------------------------------

/// How one character is written inside a string literal.
pub open spec fn escape_char(c: char) -> Seq<char> {
    if c == '"' {
        seq!['\\', '"']
    } else if c == '\\' {
        seq!['\\', '\\']
    } else if c == '\n' {
        seq!['\\', 'n']
    } else if c == '\t' {
        seq!['\\', 't']
    } else if c == '\r' {
        seq!['\\', 'r']
    } else {
        seq![c]
    }
}

/// `s` escaped for a string literal.
pub open spec fn escaped(s: Seq<char>) -> Seq<char>
    decreases s.len(),
{
    if s.len() == 0 {
        Seq::empty()
    } else {
        escape_char(s[0]) + escaped(s.drop_first())
    }
}

pub proof fn lemma_escaped_push(s: Seq<char>, c: char)
    ensures
        escaped(s.push(c)) == escaped(s) + escape_char(c),
    decreases s.len(),
{
    if s.len() == 0 {
        assert(s.push(c).drop_first() =~= Seq::<char>::empty());
        assert(escaped(s.push(c).drop_first()) =~= Seq::<char>::empty());
        assert(s.push(c)[0] == c);
        assert(escaped(s.push(c)) =~= escape_char(c));
    } else {
        assert(s.push(c).drop_first() =~= s.drop_first().push(c));
        lemma_escaped_push(s.drop_first(), c);
        assert(escaped(s.push(c)) =~= escaped(s) + escape_char(c));
    }
}

/// One `"key":"value"` entry.
pub open spec fn render_pair(p: (Seq<char>, Seq<char>)) -> Seq<char> {
    seq!['"'] + escaped(p.0) + seq!['"', ':', '"'] + escaped(p.1) + seq!['"']
}

/// The entries of `ps`, joined by commas.
pub open spec fn render_items(ps: Pairs) -> Seq<char>
    decreases ps.len(),
{
    if ps.len() == 0 {
        Seq::empty()
    } else if ps.len() == 1 {
        render_pair(ps[0])
    } else {
        render_pair(ps[0]) + seq![','] + render_items(ps.drop_first())
    }
}

/// The JSON object holding `ps` in this order.
pub open spec fn render(ps: Pairs) -> Seq<char> {
    seq!['{'] + render_items(ps) + seq!['}']
}

pub proof fn lemma_render_items_push(ps: Pairs, p: (Seq<char>, Seq<char>))
    ensures
        ps.len() == 0 ==> render_items(ps.push(p)) == render_pair(p),
        ps.len() > 0 ==> render_items(ps.push(p)) == render_items(ps) + seq![','] + render_pair(p),
    decreases ps.len(),
{
    if ps.len() == 0 {
        assert(ps.push(p)[0] == p);
    } else if ps.len() == 1 {
        assert(ps.push(p).drop_first() =~= seq![p]);
        assert(seq![p][0] == p);
        assert(render_items(seq![p]) == render_pair(p));
        assert(ps.push(p)[0] == ps[0]);
        assert(render_items(ps) == render_pair(ps[0]));
        assert(render_items(ps.push(p)) =~= render_items(ps) + seq![','] + render_pair(p));
    } else {
        assert(ps.push(p).drop_first() =~= ps.drop_first().push(p));
        lemma_render_items_push(ps.drop_first(), p);
        assert(ps.push(p)[0] == ps[0]);
        assert(render_items(ps.push(p)) =~= render_items(ps) + seq![','] + render_pair(p));
    }
}

/// Strict order of keys: by characters' code points, a prefix first. It
/// orders keys as their UTF-8 bytes are ordered.
pub open spec fn key_lt(a: Seq<char>, b: Seq<char>) -> bool
    decreases a.len(),
{
    if b.len() == 0 {
        false
    } else if a.len() == 0 {
        true
    } else if a[0] != b[0] {
        (a[0] as u32) < (b[0] as u32)
    } else {
        key_lt(a.drop_first(), b.drop_first())
    }
}

pub proof fn lemma_key_lt_total(a: Seq<char>, b: Seq<char>)
    ensures
        a != b ==> key_lt(a, b) || key_lt(b, a),
        !(key_lt(a, b) && key_lt(b, a)),
    decreases a.len(),
{
    if a.len() > 0 && b.len() > 0 {
        lemma_key_lt_total(a.drop_first(), b.drop_first());
        if a[0] != b[0] {
            vstd::utf8::char_u32_cast(a[0], a[0] as u32);
            vstd::utf8::char_u32_cast(b[0], b[0] as u32);
        }
        if a[0] == b[0] && a != b {
            assert(a.drop_first() != b.drop_first()) by {
                if a.drop_first() == b.drop_first() {
                    assert(a.len() == b.len());
                    assert forall|i: int| 0 <= i < a.len() implies a[i] == b[i] by {
                        if i > 0 {
                            assert(a[i] == a.drop_first()[i - 1]);
                            assert(b[i] == b.drop_first()[i - 1]);
                        }
                    }
                    assert(a =~= b);
                }
            }
        }
    } else if a.len() == 0 && b.len() == 0 {
        assert(a =~= b);
    }
}

/// Each key is below the next one.
pub open spec fn ascending(ps: Pairs) -> bool {
    forall|i: int| 0 <= i < ps.len() - 1 ==> key_lt(#[trigger] ps[i].0, ps[i + 1].0)
}

/// Whether `a` sorts before `b`.
fn key_less(a: &str, b: &str) -> (r: bool)
    ensures
        r == key_lt(a@, b@),
{
    let va = chars_of(a);
    let vb = chars_of(b);
    let mut i: usize = 0;
    proof {
        assert(a@.skip(0) =~= a@);
        assert(b@.skip(0) =~= b@);
    }
    while i < va.len() && i < vb.len() && va[i] == vb[i]
        invariant
            i <= va@.len(),
            i <= vb@.len(),
            va@ == a@,
            vb@ == b@,
            key_lt(a@, b@) == key_lt(a@.skip(i as int), b@.skip(i as int)),
        decreases va@.len() - i,
    {
        proof {
            assert(a@.skip(i as int).drop_first() =~= a@.skip(i + 1));
            assert(b@.skip(i as int).drop_first() =~= b@.skip(i + 1));
        }
        i += 1;
    }
    proof {
        if i < va@.len() && i < vb@.len() {
            assert(a@.skip(i as int)[0] == va@[i as int]);
            assert(b@.skip(i as int)[0] == vb@[i as int]);
        }
    }
    if i >= vb.len() {
        false
    } else if i >= va.len() {
        true
    } else {
        (va[i] as u32) < (vb[i] as u32)
    }
}

/// Escape `"`, `\`, newline, tab and carriage return for a string literal.
fn escape_json(out: &mut String, s: &str)
    ensures
        final(out)@ == old(out)@ + escaped(s@),
{
    let v = chars_of(s);
    let ghost start = out@;
    let mut i: usize = 0;
    while i < v.len()
        invariant
            i <= v@.len(),
            v@ == s@,
            out@ == start + escaped(s@.take(i as int)),
        decreases v@.len() - i,
    {
        let c = v[i];
        if c == '"' {
            push_char(out, '\\');
            push_char(out, '"');
        } else if c == '\\' {
            push_char(out, '\\');
            push_char(out, '\\');
        } else if c == '\n' {
            push_char(out, '\\');
            push_char(out, 'n');
        } else if c == '\t' {
            push_char(out, '\\');
            push_char(out, 't');
        } else if c == '\r' {
            push_char(out, '\\');
            push_char(out, 'r');
        } else {
            push_char(out, c);
        }
        proof {
            assert(s@.take(i + 1) =~= s@.take(i as int).push(c));
            lemma_escaped_push(s@.take(i as int), c);
        }
        i += 1;
        assert(out@ =~= start + escaped(s@.take(i as int)));
    }
    assert(s@.take(i as int) =~= s@);
}

/// With unique keys and a new key `k`, inserting `(k, v)` anywhere adds it
/// to the map.
pub proof fn lemma_pairs_map_insert_fresh(ps: Pairs, p: int, k: Seq<char>, v: Seq<char>)
    requires
        unique_keys(ps),
        0 <= p <= ps.len(),
        forall|j: int| 0 <= j < ps.len() ==> ps[j].0 != k,
    ensures
        unique_keys(ps.insert(p, (k, v))),
        pairs_map(ps.insert(p, (k, v))) == pairs_map(ps).insert(k, v),
{
    let q = ps.insert(p, (k, v));
    assert forall|a: int, b: int| 0 <= a < b < q.len() implies q[a].0 != q[b].0 by {
        if a < p {
            if b < p {
                assert(q[a] == ps[a] && q[b] == ps[b]);
            } else if b == p {
                assert(q[a] == ps[a]);
            } else {
                assert(q[a] == ps[a] && q[b] == ps[b - 1]);
            }
        } else if a == p {
            assert(q[b] == ps[b - 1]);
        } else {
            assert(q[a] == ps[a - 1] && q[b] == ps[b - 1]);
        }
    }
    lemma_pairs_map_unique(ps);
    lemma_pairs_map_unique(q);
    assert forall|key: Seq<char>| #[trigger] pairs_map(q).contains_key(key) <==> pairs_map(ps).insert(
        k,
        v,
    ).contains_key(key) by {
        if pairs_map(q).contains_key(key) {
            let j = choose|j: int| 0 <= j < q.len() && q[j].0 == key;
            if j < p {
                assert(q[j] == ps[j]);
                assert(pairs_map(ps).contains_key(ps[j].0));
            } else if j > p {
                assert(q[j] == ps[j - 1]);
                assert(pairs_map(ps).contains_key(ps[j - 1].0));
            }
        }
        if pairs_map(ps).contains_key(key) {
            let j = choose|j: int| 0 <= j < ps.len() && ps[j].0 == key;
            if j < p {
                assert(q[j] == ps[j]);
                assert(pairs_map(q).contains_key(q[j].0));
            } else {
                assert(q[j + 1] == ps[j]);
                assert(pairs_map(q).contains_key(q[j + 1].0));
            }
        }
        if key == k {
            assert(q[p] == (k, v));
            assert(pairs_map(q).contains_key(q[p].0));
        }
    }
    assert forall|key: Seq<char>| #[trigger] pairs_map(q).contains_key(key) implies pairs_map(q)[key]
        == pairs_map(ps).insert(k, v)[key] by {
        let j = choose|j: int| 0 <= j < q.len() && q[j].0 == key;
        assert(pairs_map(q).contains_key(q[j].0));
        if j < p {
            assert(q[j] == ps[j]);
            assert(pairs_map(ps).contains_key(ps[j].0));
        } else if j > p {
            assert(q[j] == ps[j - 1]);
            assert(pairs_map(ps).contains_key(ps[j - 1].0));
        }
    }
    assert(pairs_map(q) =~= pairs_map(ps).insert(k, v));
}

/// Inserting entry `i` of `all` into the sorted entries before it, at the
/// first position whose key sorts after it, keeps them sorted and adds it
/// to their map.
proof fn lemma_insert_sorted(cur: Pairs, all: Pairs, i: int, p: int)
    requires
        unique_keys(all),
        unique_keys(cur),
        ascending(cur),
        pairs_map(cur) == pairs_map(all.take(i)),
        0 <= i < all.len(),
        0 <= p <= cur.len(),
        forall|q: int| 0 <= q < p ==> !key_lt(all[i].0, #[trigger] cur[q].0),
        p < cur.len() ==> key_lt(all[i].0, cur[p].0),
    ensures
        unique_keys(cur.insert(p, all[i])),
        ascending(cur.insert(p, all[i])),
        pairs_map(cur.insert(p, all[i])) == pairs_map(all.take(i + 1)),
{
    let key = all[i].0;
    let value = all[i].1;
    lemma_pairs_map_unique(cur);
    lemma_pairs_map_unique(all.take(i));
    assert(all.take(i + 1).drop_last() =~= all.take(i));
    assert forall|j: int| 0 <= j < cur.len() implies cur[j].0 != key by {
        assert(pairs_map(cur).contains_key(cur[j].0));
        let w = choose|w: int| 0 <= w < all.take(i).len() && all.take(i)[w].0 == cur[j].0;
        assert(all[w] == all.take(i)[w]);
    }
    lemma_pairs_map_insert_fresh(cur, p, key, value);
    if p > 0 {
        lemma_key_lt_total(key, cur[p - 1].0);
    }
    let nw = cur.insert(p, (key, value));
    assert forall|q: int| 0 <= q < nw.len() - 1 implies key_lt(#[trigger] nw[q].0, nw[q + 1].0) by {
        if q + 1 < p {
            assert(nw[q] == cur[q] && nw[q + 1] == cur[q + 1]);
        } else if q + 1 == p {
            assert(nw[q] == cur[q]);
        } else if q == p {
            assert(nw[q + 1] == cur[q]);
        } else {
            assert(nw[q] == cur[q - 1] && nw[q + 1] == cur[q]);
        }
    }
}

/// The entries of `m`, sorted by key.
fn sorted_entries(m: &Metadata) -> (out: Vec<(String, String)>)
    ensures
        unique_keys(pair_views(out@)),
        ascending(pair_views(out@)),
        pairs_map(pair_views(out@)) == m@,
{
    proof {
        use_type_invariant(m);
    }
    let entries = &m.entries;
    let ghost all = pair_views(entries@);
    let mut out: Vec<(String, String)> = Vec::new();
    proof {
        assert(pair_views(out@) =~= Seq::<(Seq<char>, Seq<char>)>::empty());
        assert(all.take(0) =~= Seq::<(Seq<char>, Seq<char>)>::empty());
    }
    let mut i: usize = 0;
    while i < entries.len()
        invariant
            i <= entries@.len(),
            all == pair_views(entries@),
            unique_keys(all),
            unique_keys(pair_views(out@)),
            ascending(pair_views(out@)),
            pairs_map(pair_views(out@)) == pairs_map(all.take(i as int)),
        decreases entries@.len() - i,
    {
        let ghost cur = pair_views(out@);
        let key = entries[i].0.clone();
        let value = entries[i].1.clone();
        // First position whose key sorts after `key`.
        let mut p: usize = 0;
        while p < out.len() && !key_less(key.as_str(), out[p].0.as_str())
            invariant
                p <= out@.len(),
                cur == pair_views(out@),
                forall|q: int| 0 <= q < p ==> !key_lt(key@, #[trigger] cur[q].0),
            decreases out@.len() - p,
        {
            p += 1;
        }
        proof {
            lemma_insert_sorted(cur, all, i as int, p as int);
        }
        out.insert(p, (key, value));
        proof {
            assert(pair_views(out@) =~= cur.insert(p as int, all[i as int]));
        }
        i += 1;
    }
    proof {
        assert(all.take(i as int) =~= all);
    }
    out
}

/// Serialize metadata as a flat JSON object, keys in ascending order.
pub fn serialize_flat_json(m: &Metadata) -> (r: String)
    ensures
        exists|ps: Pairs|
            unique_keys(ps) && ascending(ps) && pairs_map(ps) == m@ && r@ == render(ps),
{
    let sorted = sorted_entries(m);
    let ghost ps = pair_views(sorted@);
    let mut out = String::new();
    push_char(&mut out, '{');
    let mut i: usize = 0;
    while i < sorted.len()
        invariant
            i <= sorted@.len(),
            ps == pair_views(sorted@),
            out@ == seq!['{'] + render_items(ps.take(i as int)),
        decreases sorted@.len() - i,
    {
        let ghost before = out@;
        if i > 0 {
            push_char(&mut out, ',');
        }
        push_char(&mut out, '"');
        escape_json(&mut out, sorted[i].0.as_str());
        push_char(&mut out, '"');
        push_char(&mut out, ':');
        push_char(&mut out, '"');
        escape_json(&mut out, sorted[i].1.as_str());
        push_char(&mut out, '"');
        proof {
            assert(ps.take(i + 1) =~= ps.take(i as int).push(ps[i as int]));
            lemma_render_items_push(ps.take(i as int), ps[i as int]);
            if i > 0 {
                assert(out@ =~= before + seq![','] + render_pair(ps[i as int]));
            } else {
                assert(out@ =~= before + render_pair(ps[i as int]));
            }
        }
        i += 1;
        assert(out@ =~= seq!['{'] + render_items(ps.take(i as int)));
    }
    push_char(&mut out, '}');
    proof {
        assert(ps.take(i as int) =~= ps);
        assert(out@ =~= render(ps));
    }
    out
}


// ---------------------------------------------------------------------------
// Reading back what was written
// ---------------------------------------------------------------------------

pub proof fn lemma_trim_start_noop(s: Seq<char>)
    requires
        s.len() > 0,
        !crate::text::white_space(s[0]),
    ensures
        trim_start(s) == s,
{
    assert(s.skip(0) =~= s);
}

pub proof fn lemma_trim_noop(s: Seq<char>)
    requires
        s.len() > 0,
        !crate::text::white_space(s[0]),
        !crate::text::white_space(s.last()),
    ensures
        trim(s) == s,
{
    lemma_trim_start_noop(s);
    assert(s.take(s.len() as int) =~= s);
}

/// A string literal written with `escaped` reads back as the original
/// string, ending right after its closing quote.
pub proof fn lemma_scan_escaped(pre: Seq<char>, k: Seq<char>, x: Seq<char>)
    ensures
        scan_string(pre + escaped(k) + seq!['"'] + x, pre.len() as int) == Ok::<
            (Seq<char>, int),
            Seq<char>,
        >((k, (pre.len() + escaped(k).len() + 1) as int)),
    decreases k.len(),
{
    let s = pre + escaped(k) + seq!['"'] + x;
    let i = pre.len() as int;
    if k.len() == 0 {
        assert(escaped(k) =~= Seq::<char>::empty());
        assert(s[i] == '"');
        assert(k =~= Seq::<char>::empty());
    } else {
        let c = k[0];
        let rest = k.drop_first();
        let ec = escape_char(c);
        assert(escaped(k) == ec + escaped(rest));
        let pre2 = pre + ec;
        assert(s =~= pre2 + escaped(rest) + seq!['"'] + x);
        lemma_scan_escaped(pre2, rest, x);
        assert(s[i] == ec[0]);
        if ec.len() == 2 {
            assert(s[i + 1] == ec[1]);
            assert(unescape(ec[1]) == c);
        }
        assert(seq![c] + rest =~= k);
    }
}

/// The written entries are non-empty, start and end with a quote.
pub proof fn lemma_render_items_shape(ps: Pairs)
    requires
        ps.len() > 0,
    ensures
        render_items(ps).len() > 1,
        render_items(ps)[0] == '"',
        render_items(ps).last() == '"',
    decreases ps.len(),
{
    if ps.len() > 1 {
        lemma_render_items_shape(ps.drop_first());
    }
}

/// A written string literal, followed by anything, reads back as the
/// original string.
pub proof fn lemma_string_literal(k: Seq<char>, x: Seq<char>)
    ensures
        json_string(seq!['"'] + escaped(k) + seq!['"'] + x) == Ok::<(Seq<char>, int), Seq<char>>(
            (k, escaped(k).len() + 2int),
        ),
        (seq!['"'] + escaped(k) + seq!['"'] + x).skip(escaped(k).len() + 2int) == x,
{
    let s = seq!['"'] + escaped(k) + seq!['"'] + x;
    lemma_scan_escaped(seq!['"'], k, x);
    assert(s[0] == '"');
    assert(s.skip(escaped(k).len() + 2int) =~= x);
}

/// Reading one written entry and what follows it.
#[verifier::spinoff_prover]
pub proof fn lemma_pair_step(k: Seq<char>, v: Seq<char>, tail: Seq<char>)
    ensures
        json_pairs(render_pair((k, v)) + tail) == match json_pairs(after_label(tail)) {
            Ok(ps) => Ok(seq![(k, v)] + ps),
            Err(m) => Err(m),
        },
{
    let ek = escaped(k);
    let ev = escaped(v);
    let rest = render_pair((k, v)) + tail;
    let x1 = seq![':', '"'] + ev + seq!['"'] + tail;
    assert(rest =~= seq!['"'] + ek + seq!['"'] + x1);
    lemma_string_literal(k, x1);
    lemma_trim_start_noop(x1);
    let s2 = seq!['"'] + ev + seq!['"'] + tail;
    assert(x1.drop_first() =~= s2);
    lemma_trim_start_noop(s2);
    lemma_string_literal(v, tail);
}

/// Reading the written entries gives them back in order.
pub proof fn lemma_json_pairs_render(ps: Pairs)
    requires
        ps.len() > 0,
    ensures
        json_pairs(render_items(ps)) == Ok::<Pairs, Seq<char>>(ps),
    decreases ps.len(),
{
    let p = ps[0];
    if ps.len() == 1 {
        assert(render_items(ps) =~= render_pair(p) + Seq::<char>::empty());
        lemma_pair_step(p.0, p.1, Seq::<char>::empty());
        assert(trim_start(Seq::<char>::empty()) =~= Seq::<char>::empty());
        assert(after_label(Seq::<char>::empty()) =~= Seq::<char>::empty());
        assert(seq![(p.0, p.1)] + Seq::<(Seq<char>, Seq<char>)>::empty() =~= ps);
    } else {
        let items = render_items(ps.drop_first());
        let tail = seq![','] + items;
        assert(render_items(ps) =~= render_pair(p) + tail);
        lemma_pair_step(p.0, p.1, tail);
        lemma_render_items_shape(ps.drop_first());
        lemma_trim_start_noop(tail);
        assert(tail.drop_first() =~= items);
        lemma_trim_start_noop(items);
        assert(after_label(tail) == items);
        lemma_json_pairs_render(ps.drop_first());
        assert(seq![(p.0, p.1)] + ps.drop_first() =~= ps);
    }
}

/// Reading back serialized metadata gives the same pairs in the same order,
/// whatever the keys and values hold.
pub proof fn law_flat_json_roundtrip(ps: Pairs)
    ensures
        flat_object(render(ps)) == Ok::<Pairs, Seq<char>>(ps),
{
    let r = render(ps);
    lemma_trim_noop(r);
    if ps.len() == 0 {
        assert(r =~= seq!['{', '}']);
        assert(ps =~= Seq::<(Seq<char>, Seq<char>)>::empty());
    } else {
        let items = render_items(ps);
        lemma_render_items_shape(ps);
        assert(r != seq!['{', '}']) by {
            assert(r.len() > 2);
        }
        assert(r.subrange(1, r.len() - 1) =~= items);
        lemma_trim_noop(items);
        lemma_json_pairs_render(ps);
    }
}

/// Serializing metadata and parsing the text back gives the same map.
pub proof fn law_metadata_roundtrip(ps: Pairs)
    requires
        unique_keys(ps),
    ensures
        flat_object(render(ps)) matches Ok(qs) && pairs_map(qs) == pairs_map(ps),
{
    law_flat_json_roundtrip(ps);
}

} // verus!
