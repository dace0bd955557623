//! The integer side of the XLM-R encoder: its configuration read from model
//! metadata, input validation, the attention keep-mask, special-token
//! detection and position ids.

use vstd::prelude::*;

use crate::nn::blocks::Activation;
use crate::nn::error::{NnError, NnResult};
use crate::nn::metadata::Metadata;
use crate::text::{
    debug_str, decimal, parse_int_error_text, parse_usize, push_decimal, push_str, str_debug,
    unsigned_text,
};

verus! {

/// The value under `key` as a `usize`: `default` when absent, `None` when
/// it is not a `usize`.
pub open spec fn meta_value(m: Map<Seq<char>, Seq<char>>, key: Seq<char>, default: usize) -> Option<
    usize,
> {
    if !m.contains_key(key) {
        Some(default)
    } else {
        match unsigned_text(m[key]) {
            Some(v) => if v <= usize::MAX {
                Some(v as usize)
            } else {
                None
            },
            None => None,
        }
    }
}

/// The message for a metadata value that is not a `usize`.
pub open spec fn usize_message(key: Seq<char>, value: Seq<char>) -> Seq<char> {
    "metadata "@ + debug_str(key) + " must be usize, got "@ + debug_str(value) + ": "@
        + parse_int_error_text(value)
}

/// Read `key` as a `usize`, or `default` when it is absent.
pub fn metadata_usize(meta: &Metadata, key: &str, default: usize) -> (r: NnResult<usize>)
    ensures
        match meta_value(meta@, key@, default) {
            Some(v) => r == Ok::<usize, NnError>(v),
            None => (r matches Err(NnError::Format(msg)) && msg@ == usize_message(key@, meta@[key@])),
        },
{
    match meta.get(key) {
        None => Ok(default),
        Some(value) => match parse_usize(value) {
            Ok(v) => Ok(v),
            Err(e) => {
                let mut m = String::new();
                push_str(&mut m, "metadata ");
                let k = str_debug(key);
                push_str(&mut m, k.as_str());
                push_str(&mut m, " must be usize, got ");
                let v = str_debug(value);
                push_str(&mut m, v.as_str());
                push_str(&mut m, ": ");
                push_str(&mut m, e.as_str());
                Err(NnError::Format(m))
            },
        },
    }
}

/// The value under `key` as a `usize`, `default` when it is absent or is
/// not a `usize`.
pub open spec fn lenient_value(m: Map<Seq<char>, Seq<char>>, key: Seq<char>, default: usize) -> usize {
    match meta_value(m, key, default) {
        Some(v) => v,
        None => default,
    }
}

/// Read `key` as a `usize`, falling back to `default` when it is absent or
/// does not parse.
pub fn metadata_usize_or(meta: &Metadata, key: &str, default: usize) -> (r: usize)
    ensures
        r == lenient_value(meta@, key@, default),
{
    match meta.get(key) {
        None => default,
        Some(value) => match parse_usize(value) {
            Ok(v) => v,
            Err(_) => default,
        },
    }
}

/// Read the activation named under "activation", `GeluTanh` when absent.
pub fn metadata_activation(meta: &Metadata) -> (r: NnResult<Activation>)
    ensures
        match meta_activation(meta@) {
            Ok(a) => r == Ok::<Activation, NnError>(a),
            Err(m) => (r matches Err(NnError::Format(t)) && t@ == m),
        },
{
    match meta.get("activation") {
        None => Ok(Activation::GeluTanh),
        Some(name) => Activation::from_str(name),
    }
}

/// Encoder hyper-parameters read from model metadata.
#[derive(Debug, Clone, Copy, PartialEq, Eq)]
pub struct XlmRobertaConfig {
    pub num_layers: usize,
    pub num_heads: usize,
    pub hidden_dim: usize,
    pub intermediate_dim: usize,
    pub max_seq_len: usize,
    pub pad_token_id: u32,
    pub activation: Activation,
}

/// Why a configuration cannot be read.
pub enum ConfigProblem {
    /// A format error with this message.
    Format(Seq<char>),
    /// `hidden_dim` is not a multiple of `num_heads`.
    Indivisible(usize, usize),
}

/// `n` is a multiple of `d` (0 is the only multiple of 0).
pub open spec fn multiple_of(n: usize, d: usize) -> bool {
    if d == 0 {
        n == 0
    } else {
        n % d == 0
    }
}

/// Whether reading metadata `m` reaches the default intermediate size,
/// four times the hidden size, with a hidden size too large for that.
pub open spec fn default_intermediate_overflows(m: Map<Seq<char>, Seq<char>>) -> bool {
    match (meta_value(m, "hidden_dim"@, 768), meta_value(m, "num_heads"@, 12)) {
        (Some(h), Some(nh)) => multiple_of(h, nh) && meta_value(m, "num_layers"@, 12) is Some && h * 4
            > usize::MAX,
        _ => false,
    }
}

/// The configuration metadata `m` describes, or the first problem, in the
/// order the keys are read.
pub open spec fn config_of(m: Map<Seq<char>, Seq<char>>) -> Result<XlmRobertaConfig, ConfigProblem> {
    let value = |key: Seq<char>, d: usize| meta_value(m, key, d);
    let bad = |key: Seq<char>| ConfigProblem::Format(usize_message(key, m[key]));
    match value("hidden_dim"@, 768) {
        None => Err(bad("hidden_dim"@)),
        Some(hidden_dim) => match value("num_heads"@, 12) {
            None => Err(bad("num_heads"@)),
            Some(num_heads) => if !multiple_of(hidden_dim, num_heads) {
                Err(ConfigProblem::Indivisible(hidden_dim, num_heads))
            } else {
                match value("num_layers"@, 12) {
                    None => Err(bad("num_layers"@)),
                    Some(num_layers) => match value("intermediate_dim"@, (hidden_dim * 4) as usize) {
                        None => Err(bad("intermediate_dim"@)),
                        Some(intermediate_dim) => match value("max_seq_len"@, 512) {
                            None => Err(bad("max_seq_len"@)),
                            Some(max_seq_len) => match value("pad_token_id"@, 1) {
                                None => Err(bad("pad_token_id"@)),
                                Some(pad) => match meta_activation(m) {
                                    Err(e) => Err(ConfigProblem::Format(e)),
                                    Ok(activation) => Ok(
                                        XlmRobertaConfig {
                                            num_layers,
                                            num_heads,
                                            hidden_dim,
                                            intermediate_dim,
                                            max_seq_len,
                                            pad_token_id: pad as u32,
                                            activation,
                                        },
                                    ),
                                },
                            },
                        },
                    },
                }
            },
        },
    }
}

/// The activation named under "activation", `GeluTanh` when absent.
pub open spec fn meta_activation(m: Map<Seq<char>, Seq<char>>) -> Result<Activation, Seq<char>> {
    if !m.contains_key("activation"@) {
        Ok(Activation::GeluTanh)
    } else {
        crate::nn::blocks::activation_named(m["activation"@])
    }
}

impl XlmRobertaConfig {
    /// Read the encoder configuration from model metadata.
    pub fn from_metadata(meta: &Metadata) -> (r: NnResult<Self>)
        requires
            !default_intermediate_overflows(meta@),
        ensures
            match config_of(meta@) {
                Ok(c) => r == Ok::<XlmRobertaConfig, NnError>(c),
                Err(ConfigProblem::Format(m)) => (r matches Err(NnError::Format(t)) && t@ == m),
                Err(ConfigProblem::Indivisible(h, n)) => (r matches Err(
                    NnError::DivisibilityError { what, numerator, denominator },
                ) && what@ == "hidden_dim % num_heads"@ && numerator == h && denominator == n),
            },
    {
        let hidden_dim = match metadata_usize(meta, "hidden_dim", 768) {
            Ok(v) => v,
            Err(e) => {
                return Err(e);
            },
        };
        let num_heads = match metadata_usize(meta, "num_heads", 12) {
            Ok(v) => v,
            Err(e) => {
                return Err(e);
            },
        };
        let divisible = if num_heads == 0 {
            hidden_dim == 0
        } else {
            hidden_dim % num_heads == 0
        };
        if !divisible {
            let mut what = String::new();
            push_str(&mut what, "hidden_dim % num_heads");
            return Err(
                NnError::DivisibilityError { what, numerator: hidden_dim, denominator: num_heads },
            );
        }
        let num_layers = match metadata_usize(meta, "num_layers", 12) {
            Ok(v) => v,
            Err(e) => {
                return Err(e);
            },
        };
        let intermediate_dim = match metadata_usize(meta, "intermediate_dim", hidden_dim * 4) {
            Ok(v) => v,
            Err(e) => {
                return Err(e);
            },
        };
        let max_seq_len = match metadata_usize(meta, "max_seq_len", 512) {
            Ok(v) => v,
            Err(e) => {
                return Err(e);
            },
        };
        let pad = match metadata_usize(meta, "pad_token_id", 1) {
            Ok(v) => v,
            Err(e) => {
                return Err(e);
            },
        };
        let activation = match meta.get("activation") {
            None => Activation::GeluTanh,
            Some(name) => match Activation::from_str(name) {
                Ok(a) => a,
                Err(e) => {
                    return Err(e);
                },
            },
        };
        #[verifier::truncate]
        let pad_token_id = pad as u32;
        Ok(
            XlmRobertaConfig {
                num_layers,
                num_heads,
                hidden_dim,
                intermediate_dim,
                max_seq_len,
                pad_token_id,
                activation,
            },
        )
    }

    /// Accept a token sequence of length `1..=max_seq_len`.
    pub fn validate_input_len(&self, len: usize) -> (r: NnResult<()>)
        ensures
            r is Ok <==> 0 < len <= self.max_seq_len,
            len == 0 ==> (r matches Err(NnError::ShapeMismatch { expected, got })
                && expected@ == "non-empty token sequence"@ && got@ == "empty token sequence"@),
            len > self.max_seq_len ==> (r matches Err(NnError::ShapeMismatch { expected, got })
                && expected@ == "sequence length <= "@ + decimal(self.max_seq_len as nat)
                && got@ == "sequence length = "@ + decimal(len as nat)),
    {
        validate_input_len(self.max_seq_len, len)
    }
}

/// Accept a token sequence of length `1..=max_seq_len`.
pub fn validate_input_len(max_seq_len: usize, len: usize) -> (r: NnResult<()>)
    ensures
        r is Ok <==> 0 < len <= max_seq_len,
        len == 0 ==> (r matches Err(NnError::ShapeMismatch { expected, got })
            && expected@ == "non-empty token sequence"@ && got@ == "empty token sequence"@),
        len > max_seq_len ==> (r matches Err(NnError::ShapeMismatch { expected, got })
            && expected@ == "sequence length <= "@ + decimal(max_seq_len as nat)
            && got@ == "sequence length = "@ + decimal(len as nat)),
{
    if len == 0 {
        let mut expected = String::new();
        push_str(&mut expected, "non-empty token sequence");
        let mut got = String::new();
        push_str(&mut got, "empty token sequence");
        return Err(NnError::ShapeMismatch { expected, got });
    }
    if len > max_seq_len {
        let mut expected = String::new();
        push_str(&mut expected, "sequence length <= ");
        push_decimal(&mut expected, max_seq_len as u64);
        let mut got = String::new();
        push_str(&mut got, "sequence length = ");
        push_decimal(&mut got, len as u64);
        return Err(NnError::ShapeMismatch { expected, got });
    }
    Ok(())
}

/// Which positions attention keeps: the explicit mask's non-zero entries,
/// or, without one, the non-padding tokens.
pub fn build_keep_mask(input_ids: &[u32], explicit: Option<&[u32]>, pad_token_id: u32) -> (r: NnResult<Vec<bool>>)
    ensures
        explicit is None ==> (r matches Ok(m) && m@.len() == input_ids@.len() && forall|i: int|
            0 <= i < input_ids@.len() ==> #[trigger] m@[i] == (input_ids@[i] != pad_token_id)),
        explicit is Some && explicit->0@.len() == input_ids@.len() ==> (r matches Ok(m) && m@.len()
            == input_ids@.len() && forall|i: int| 0 <= i < input_ids@.len() ==> #[trigger] m@[i] == (explicit->0@[i] != 0)),
        explicit is Some && explicit->0@.len() != input_ids@.len() ==> (r matches Err(
            NnError::ShapeMismatch { expected, got },
        ) && expected@ == "attention_mask length "@ + decimal(input_ids@.len())
            && got@ == "attention_mask length "@ + decimal(explicit->0@.len())),
{
    match explicit {
        Some(values) => {
            if values.len() != input_ids.len() {
                let mut expected = String::new();
                push_str(&mut expected, "attention_mask length ");
                push_decimal(&mut expected, input_ids.len() as u64);
                let mut got = String::new();
                push_str(&mut got, "attention_mask length ");
                push_decimal(&mut got, values.len() as u64);
                return Err(NnError::ShapeMismatch { expected, got });
            }
            let mut m: Vec<bool> = Vec::new();
            let mut i: usize = 0;
            while i < values.len()
                invariant
                    i <= values@.len(),
                    m@.len() == i,
                    forall|k: int| 0 <= k < i ==> #[trigger] m@[k] == (values@[k] != 0),
                decreases values@.len() - i,
            {
                m.push(values[i] != 0);
                i += 1;
            }
            Ok(m)
        },
        None => {
            let mut m: Vec<bool> = Vec::new();
            let mut i: usize = 0;
            while i < input_ids.len()
                invariant
                    i <= input_ids@.len(),
                    m@.len() == i,
                    forall|k: int| 0 <= k < i ==> #[trigger] m@[k] == (input_ids@[k] != pad_token_id),
                decreases input_ids@.len() - i,
            {
                m.push(input_ids[i] != pad_token_id);
                i += 1;
            }
            Ok(m)
        },
    }
}

/// Padding, `<s>` (id 0) and `</s>` (id 2) are special.
pub fn is_special_token(token_id: u32, pad_token_id: u32) -> (b: bool)
    ensures
        b == (token_id == pad_token_id || token_id == 0 || token_id == 2),
{
    token_id == pad_token_id || token_id == 0 || token_id == 2
}

/// Number of non-padding tokens in `ids`.
pub open spec fn non_pad_count(ids: Seq<u32>, pad: u32) -> nat
    decreases ids.len(),
{
    if ids.len() == 0 {
        0
    } else {
        non_pad_count(ids.drop_last(), pad) + if ids.last() == pad { 0nat } else { 1nat }
    }
}

/// `x + y`, saturating at `u32::MAX`.
pub open spec fn sat_add(x: nat, y: nat) -> u32 {
    if x + y > u32::MAX { u32::MAX } else { (x + y) as u32 }
}

/// The position id of token `i`: its index when padding is 0 (BERT);
/// otherwise padding tokens sit at `pad` and the others count up from
/// `pad + 1` (RoBERTa), saturating at `u32::MAX`.
pub open spec fn position_id(ids: Seq<u32>, pad: u32, i: int) -> u32 {
    if pad == 0 {
        i as u32
    } else if ids[i] == pad {
        pad
    } else {
        sat_add(if non_pad_count(ids.take(i + 1), pad) > u32::MAX { u32::MAX as nat } else {
            non_pad_count(ids.take(i + 1), pad)
        }, pad as nat)
    }
}

/// Position ids for `input_ids`: `0..n` when padding is 0 (BERT), where `n`
/// is the sequence length taken as a `u32`; otherwise as `position_id` says
/// (RoBERTa).
pub fn position_ids_from_input(input_ids: &[u32], pad_token_id: u32) -> (r: Vec<u32>)
    ensures
        pad_token_id == 0 ==> r@.len() == (input_ids@.len() as u32) as int,
        pad_token_id != 0 ==> r@.len() == input_ids@.len(),
        forall|i: int| 0 <= i < r@.len() ==> #[trigger] r@[i] == position_id(input_ids@, pad_token_id, i),
{
    let mut positions: Vec<u32> = Vec::new();
    if pad_token_id == 0 {
        #[verifier::truncate]
        let n: u32 = input_ids.len() as u32;
        let mut i: u32 = 0;
        while i < n
            invariant
                i <= n,
                positions@.len() == i,
                forall|k: int| 0 <= k < i ==> #[trigger] positions@[k] == k as u32,
            decreases n - i,
        {
            positions.push(i);
            i += 1;
        }
        return positions;
    }
    let mut current: u32 = 0;
    let mut i: usize = 0;
    while i < input_ids.len()
        invariant
            pad_token_id != 0,
            i <= input_ids@.len(),
            positions@.len() == i,
            current == if non_pad_count(input_ids@.take(i as int), pad_token_id) > u32::MAX {
                u32::MAX as nat
            } else {
                non_pad_count(input_ids@.take(i as int), pad_token_id)
            },
            forall|k: int| 0 <= k < i ==> #[trigger] positions@[k] == position_id(input_ids@, pad_token_id, k),
        decreases input_ids@.len() - i,
    {
        let id = input_ids[i];
        proof {
            assert(input_ids@.take(i + 1).drop_last() =~= input_ids@.take(i as int));
        }
        if id == pad_token_id {
            positions.push(pad_token_id);
        } else {
            current = current.saturating_add(1);
            positions.push(current.saturating_add(pad_token_id));
        }
        i += 1;
    }
    positions
}

/// The longest of the first `k` rows.
pub open spec fn longest(rows: Seq<Seq<u32>>, k: int) -> nat
    decreases k,
{
    if k <= 0 {
        0
    } else {
        let m = longest(rows, k - 1);
        if rows[k - 1].len() > m {
            rows[k - 1].len()
        } else {
            m
        }
    }
}

/// What is wrong with a row of a batch.
pub enum RowProblem {
    /// Row `i` has no tokens.
    Empty(int),
    /// Row `i`'s mask differs in length from its ids.
    MaskLength(int),
}

/// The first row at or after `i` that is empty or whose mask does not
/// match its ids.
pub open spec fn first_row_problem(ids: Seq<Seq<u32>>, masks: Seq<Seq<u32>>, i: int) -> Option<RowProblem>
    decreases ids.len() - i,
{
    if i < 0 || i >= ids.len() {
        None
    } else if ids[i].len() == 0 {
        Some(RowProblem::Empty(i))
    } else if ids[i].len() != masks[i].len() {
        Some(RowProblem::MaskLength(i))
    } else {
        first_row_problem(ids, masks, i + 1)
    }
}

/// `row` followed by `fill` up to length `len`.
pub open spec fn padded(row: Seq<u32>, len: int, fill: u32) -> Seq<u32> {
    row + Seq::new((len - row.len()) as nat, |_k: int| fill)
}

fn pad_row(row: &Vec<u32>, len: usize, fill: u32) -> (out: Vec<u32>)
    requires
        row@.len() <= len,
    ensures
        out@ == padded(row@, len as int, fill),
{
    let mut out: Vec<u32> = Vec::new();
    let mut i: usize = 0;
    while i < row.len()
        invariant
            i <= row@.len(),
            out@ == row@.take(i as int),
        decreases row@.len() - i,
    {
        out.push(row[i]);
        i += 1;
        assert(out@ =~= row@.take(i as int));
    }
    let ghost base = out@;
    while out.len() < len
        invariant
            base == row@,
            row@.len() <= len,
            base.len() <= out@.len() <= len,
            out@ == base + Seq::new((out@.len() - base.len()) as nat, |_k: int| fill),
        decreases len - out@.len(),
    {
        out.push(fill);
        assert(out@ =~= base + Seq::new((out@.len() - base.len()) as nat, |_k: int| fill));
    }
    assert(row@.take(row@.len() as int) =~= row@);
    out
}

impl XlmRobertaConfig {
    /// Pad a batch of token rows, and their attention masks, to the
    /// longest row: ids with the padding token, masks with 0.
    pub fn prepare_padded_batch(&self, input_ids: &[Vec<u32>], attention_masks: &[Vec<u32>]) -> (r: NnResult<
        (Vec<Vec<u32>>, Vec<Vec<u32>>),
    >)
        ensures
            ({
                let ids = input_ids@.map_values(|v: Vec<u32>| v@);
                let masks = attention_masks@.map_values(|v: Vec<u32>| v@);
                let n = input_ids@.len();
                let m = attention_masks@.len();
                let max_len = longest(ids, n as int);
                &&& n == 0 ==> (r matches Err(NnError::ShapeMismatch { expected, got }) && expected@
                    == "non-empty batch"@ && got@ == "empty batch"@)
                &&& n > 0 && n != m ==> (r matches Err(NnError::ShapeMismatch { expected, got })
                    && expected@ == decimal(n) + " attention masks"@ && got@ == decimal(m)
                    + " attention masks"@)
                &&& n > 0 && n == m && max_len == 0 ==> (r matches Err(
                    NnError::ShapeMismatch { expected, got },
                ) && expected@ == "non-empty token sequence"@ && got@ == "empty token sequence"@)
                &&& n > 0 && n == m && max_len > self.max_seq_len ==> (r matches Err(
                    NnError::ShapeMismatch { expected, got },
                ) && expected@ == "sequence length <= "@ + decimal(self.max_seq_len as nat) && got@
                    == "sequence length = "@ + decimal(max_len))
                &&& n > 0 && n == m && 0 < max_len <= self.max_seq_len ==> match first_row_problem(
                    ids,
                    masks,
                    0,
                ) {
                    Some(RowProblem::Empty(i)) => (r matches Err(NnError::ShapeMismatch { expected, got })
                        && expected@ == "non-empty token sequence"@ && got@ == "empty token sequence"@),
                    Some(RowProblem::MaskLength(i)) => (r matches Err(
                        NnError::ShapeMismatch { expected, got },
                    ) && expected@ == "attention_mask length "@ + decimal(ids[i].len()) && got@
                        == "attention_mask length "@ + decimal(masks[i].len())),
                    None => (r matches Ok((pi, pm)) && pi@.len() == n && pm@.len() == n && forall|i: int|
                        #![trigger pi@[i]]
                        0 <= i < n ==> pi@[i]@ == padded(ids[i], max_len as int, self.pad_token_id)
                            && pm@[i]@ == padded(masks[i], max_len as int, 0)),
                }
            }),
    {
        let ghost ids = input_ids@.map_values(|v: Vec<u32>| v@);
        let ghost masks = attention_masks@.map_values(|v: Vec<u32>| v@);
        let n = input_ids.len();
        if n == 0 {
            let mut expected = String::new();
            push_str(&mut expected, "non-empty batch");
            let mut got = String::new();
            push_str(&mut got, "empty batch");
            return Err(NnError::ShapeMismatch { expected, got });
        }
        let m = attention_masks.len();
        if n != m {
            let mut expected = String::new();
            push_decimal(&mut expected, n as u64);
            push_str(&mut expected, " attention masks");
            let mut got = String::new();
            push_decimal(&mut got, m as u64);
            push_str(&mut got, " attention masks");
            return Err(NnError::ShapeMismatch { expected, got });
        }
        let mut max_len: usize = 0;
        let mut i: usize = 0;
        while i < n
            invariant
                i <= n,
                n == input_ids@.len(),
                ids == input_ids@.map_values(|v: Vec<u32>| v@),
                max_len == longest(ids, i as int),
            decreases n - i,
        {
            let len = input_ids[i].len();
            proof {
                assert(ids[i as int] == input_ids@[i as int]@);
            }
            if len > max_len {
                max_len = len;
            }
            i += 1;
        }
        match self.validate_input_len(max_len) {
            Ok(()) => {},
            Err(e) => {
                return Err(e);
            },
        }
        let mut padded_ids: Vec<Vec<u32>> = Vec::new();
        let mut padded_masks: Vec<Vec<u32>> = Vec::new();
        let mut i: usize = 0;
        while i < n
            invariant
                i <= n,
                n == input_ids@.len(),
                n == attention_masks@.len(),
                ids == input_ids@.map_values(|v: Vec<u32>| v@),
                masks == attention_masks@.map_values(|v: Vec<u32>| v@),
                max_len == longest(ids, n as int),
                0 < max_len <= self.max_seq_len,
                first_row_problem(ids, masks, 0) == first_row_problem(ids, masks, i as int),
                padded_ids@.len() == i,
                padded_masks@.len() == i,
                forall|k: int|
                    #![trigger padded_ids@[k]]
                    0 <= k < i ==> padded_ids@[k]@ == padded(ids[k], max_len as int, self.pad_token_id)
                        && padded_masks@[k]@ == padded(masks[k], max_len as int, 0),
            decreases n - i,
        {
            let ids_row = &input_ids[i];
            let mask_row = &attention_masks[i];
            proof {
                assert(ids[i as int] == ids_row@);
                assert(masks[i as int] == mask_row@);
                lemma_longest_bounds(ids, n as int, i as int);
            }
            match self.validate_input_len(ids_row.len()) {
                Ok(()) => {},
                Err(e) => {
                    return Err(e);
                },
            }
            if ids_row.len() != mask_row.len() {
                let mut expected = String::new();
                push_str(&mut expected, "attention_mask length ");
                push_decimal(&mut expected, ids_row.len() as u64);
                let mut got = String::new();
                push_str(&mut got, "attention_mask length ");
                push_decimal(&mut got, mask_row.len() as u64);
                return Err(NnError::ShapeMismatch { expected, got });
            }
            padded_ids.push(pad_row(ids_row, max_len, self.pad_token_id));
            padded_masks.push(pad_row(mask_row, max_len, 0));
            i += 1;
        }
        proof {
            assert(ids.len() == n);
            assert(first_row_problem(ids, masks, n as int) is None);
        }
        Ok((padded_ids, padded_masks))
    }
}

proof fn lemma_longest_bounds(rows: Seq<Seq<u32>>, k: int, i: int)
    requires
        0 <= i < k,
    ensures
        rows[i].len() <= longest(rows, k),
    decreases k,
{
    if i < k - 1 {
        lemma_longest_bounds(rows, k - 1, i);
    }
}

} // verus!
