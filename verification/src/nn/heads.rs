//! Label lists of the task heads: the `labels` metadata entry is a JSON
//! array of plain strings, `["O","B-PER",...]`, without escapes.

use vstd::prelude::*;

use crate::nn::error::{NnError, NnResult};
use crate::nn::metadata::Metadata;
use crate::text::{
    chars_of, debug_option_char, lemma_ws_counts, option_char_debug, push_str, skip_ws, trim,
    trim_end_pos, trim_start,
};

verus! {

/// Index of the first `"` in `s`, or `s.len()` when there is none.
pub open spec fn quote_index(s: Seq<char>) -> nat
    decreases s.len(),
{
    if s.len() == 0 {
        0
    } else if s[0] == '"' {
        0
    } else {
        1 + quote_index(s.drop_first())
    }
}

pub proof fn lemma_quote_index(s: Seq<char>)
    ensures
        quote_index(s) <= s.len(),
        quote_index(s) < s.len() ==> s[quote_index(s) as int] == '"',
        forall|j: int| 0 <= j < quote_index(s) ==> s[j] != '"',
    decreases s.len(),
{
    if s.len() > 0 && s[0] != '"' {
        lemma_quote_index(s.drop_first());
        assert forall|j: int| 0 <= j < quote_index(s) implies s[j] != '"' by {
            if j > 0 {
                assert(s[j] == s.drop_first()[j - 1]);
            }
        }
    }
}

/// What follows a closing quote: whitespace, at most one comma, whitespace.
pub open spec fn after_label(rest: Seq<char>) -> Seq<char> {
    let t = trim_start(rest);
    if t.len() > 0 && t[0] == ',' {
        trim_start(t.drop_first())
    } else {
        t
    }
}

pub proof fn lemma_after_label_len(rest: Seq<char>)
    ensures
        after_label(rest).len() <= rest.len(),
{
    lemma_ws_counts(rest);
    let t = trim_start(rest);
    if t.len() > 0 && t[0] == ',' {
        lemma_ws_counts(t.drop_first());
    }
}

/// The labels read from `rest`, the trimmed inside of the array, or the
/// message of the first error.
pub open spec fn label_items(rest: Seq<char>) -> Result<Seq<Seq<char>>, Seq<char>>
    decreases rest.len(),
{
    if rest.len() == 0 {
        Ok(Seq::empty())
    } else if rest[0] != '"' {
        Err("expected '\"' in label array, got "@ + debug_option_char(Some(rest[0])))
    } else {
        let k = quote_index(rest.drop_first()) as int;
        if k >= rest.len() - 1 {
            Err("unterminated label string"@)
        } else {
            let next = after_label(rest.skip(k + 2));
            proof {
                lemma_after_label_len(rest.skip(k + 2));
            }
            match label_items(next) {
                Ok(ls) => Ok(seq![rest.subrange(1, k + 1)] + ls),
                Err(e) => Err(e),
            }
        }
    }
}

/// The result of reading `s` as a JSON array of plain strings.
pub open spec fn string_array(s: Seq<char>) -> Result<Seq<Seq<char>>, Seq<char>> {
    let t = trim(s);
    if !(t.len() > 0 && t[0] == '[' && t.last() == ']') {
        Err("labels must be a JSON array"@)
    } else {
        label_items(trim(t.subrange(1, t.len() - 1)))
    }
}

/// The views of a list of strings.
pub open spec fn string_views(v: Seq<String>) -> Seq<Seq<char>> {
    v.map_values(|x: String| x@)
}

/// Parse a JSON array of strings: `["a","b","c"]`. Label names carry no
/// escapes; the first `"` after an opening quote closes the label.
pub fn parse_json_string_array(s: &str) -> (r: NnResult<Vec<String>>)
    ensures
        match string_array(s@) {
            Ok(ls) => r is Ok && string_views(r->Ok_0@) == ls,
            Err(m) => (r matches Err(NnError::Format(msg)) && msg@ == m),
        },
{
    let v = chars_of(s);
    let n = v.len();
    let a = skip_ws(&v, 0, n);
    let b = trim_end_pos(&v, a, n);
    proof {
        assert(v@.subrange(0, n as int) =~= s@);
        assert(v@.subrange(a as int, b as int) == trim(s@));
    }
    if !(a < b && v[a] == '[' && v[b - 1] == ']') {
        let mut m = String::new();
        push_str(&mut m, "labels must be a JSON array");
        return Err(NnError::Format(m));
    }
    let ghost t = v@.subrange(a as int, b as int);
    let p0 = skip_ws(&v, a + 1, b - 1);
    let end = trim_end_pos(&v, p0, b - 1);
    proof {
        assert(t.subrange(1, t.len() - 1) =~= v@.subrange(a + 1, b - 1));
        assert(v@.subrange(p0 as int, end as int) == trim(t.subrange(1, t.len() - 1)));
        assert(string_array(s@) == label_items(v@.subrange(p0 as int, end as int)));
    }
    let mut labels: Vec<String> = Vec::new();
    let mut p = p0;
    while p < end
        invariant
            p0 <= p <= end <= v@.len(),
            v@ == s@,
            string_array(s@) == label_items(v@.subrange(p0 as int, end as int)),
            match label_items(v@.subrange(p0 as int, end as int)) {
                Ok(all) => match label_items(v@.subrange(p as int, end as int)) {
                    Ok(ls) => all == string_views(labels@) + ls,
                    Err(_) => false,
                },
                Err(m) => label_items(v@.subrange(p as int, end as int)) == Err::<
                    Seq<Seq<char>>,
                    Seq<char>,
                >(m),
            },
        decreases end - p,
    {
        let ghost rest = v@.subrange(p as int, end as int);
        if v[p] != '"' {
            let mut m = String::new();
            push_str(&mut m, "expected '\"' in label array, got ");
            let d = option_char_debug(Some(v[p]));
            push_str(&mut m, d.as_str());
            proof {
                assert(rest[0] == v@[p as int]);
            }
            return Err(NnError::Format(m));
        }
        // Look for the closing quote.
        let mut q = p + 1;
        while q < end && v[q] != '"'
            invariant
                p + 1 <= q <= end <= v@.len(),
                forall|j: int| p + 1 <= j < q ==> v@[j] != '"',
            decreases end - q,
        {
            q += 1;
        }
        proof {
            lemma_quote_index(rest.drop_first());
            let k = quote_index(rest.drop_first());
            assert forall|j: int| 0 <= j < q - p - 1 implies rest.drop_first()[j] != '"' by {
                assert(rest.drop_first()[j] == v@[p + 1 + j]);
            }
            if k < q - p - 1 {
                assert(rest.drop_first()[k as int] == v@[p + 1 + k]);
            }
            if q < end {
                assert(rest.drop_first()[q - p - 1] == v@[q as int]);
            }
            assert(k == q - p - 1);
        }
        if q >= end {
            let mut m = String::new();
            push_str(&mut m, "unterminated label string");
            return Err(NnError::Format(m));
        }
        let mut label = String::new();
        push_str(&mut label, s.substring_char(p + 1, q));
        let ghost before = labels@;
        labels.push(label);
        let t1 = skip_ws(&v, q + 1, end);
        let mut next = t1;
        if t1 < end && v[t1] == ',' {
            next = skip_ws(&v, t1 + 1, end);
        }
        proof {
            let k = q - p - 1;
            assert(rest.skip(k + 2) =~= v@.subrange(q + 1, end as int));
            assert(v@.subrange(t1 as int, end as int) == trim_start(rest.skip(k + 2)));
            if t1 < end && v[t1 as int] == ',' {
                assert(trim_start(rest.skip(k + 2)).drop_first() =~= v@.subrange(t1 + 1, end as int));
            }
            assert(v@.subrange(next as int, end as int) == after_label(rest.skip(k + 2)));
            assert(rest.subrange(1, k + 1) =~= v@.subrange(p + 1, q as int));
            assert(string_views(labels@) =~= string_views(before) + seq![rest.subrange(1, k + 1)]);
            match label_items(v@.subrange(next as int, end as int)) {
                Ok(ls) => {
                    assert(seq![rest.subrange(1, k + 1)] + ls =~= seq![rest.subrange(1, k + 1)] + ls);
                    assert(string_views(before) + (seq![rest.subrange(1, k + 1)] + ls)
                        =~= string_views(labels@) + ls);
                },
                Err(_) => {},
            }
        }
        p = next;
    }
    proof {
        assert(v@.subrange(p as int, end as int) =~= Seq::<char>::empty());
    }
    Ok(labels)
}

/// The label list of a task head, from the "labels" metadata entry.
pub fn parse_label_map(meta: &Metadata) -> (r: NnResult<Vec<String>>)
    ensures
        !meta@.contains_key("labels"@) ==> (r matches Err(NnError::Format(m)) && m@
            == "missing 'labels' metadata"@),
        meta@.contains_key("labels"@) ==> match string_array(meta@["labels"@]) {
            Ok(ls) => r is Ok && string_views(r->Ok_0@) == ls,
            Err(m) => (r matches Err(NnError::Format(msg)) && msg@ == m),
        },
{
    match meta.get("labels") {
        None => {
            let mut m = String::new();
            push_str(&mut m, "missing 'labels' metadata");
            Err(NnError::Format(m))
        },
        Some(raw) => parse_json_string_array(raw),
    }
}

} // verus!
