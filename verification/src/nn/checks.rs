//! The shape checks of the layers: what a recurrent cell, an attention
//! block or a convolution accepts, and the sizes it reads off its weights.
//! The layers themselves compute on floating-point values outside this
//! library; these checks decide, from shapes alone, whether they may run.

use vstd::prelude::*;

use crate::nn::error::{NnError, NnResult};
use crate::nn::pooling::{out_size, pooled_len, Hw};
use crate::nn::tensor::Shape;
use crate::nn::xlm_roberta::multiple_of;
use crate::text::{decimal, push_decimal, push_size_list, push_str, size_list};

verus! {

/// The input and hidden sizes of a recurrent cell with `gates` gates, read
/// off its weights `w_ih` (`[gates * hidden, input]`) and `w_hh`
/// (`[gates * hidden, hidden]`) and checked against the lengths of its two
/// bias vectors.
pub fn recurrent_sizes(w_ih: Shape, w_hh: Shape, b_ih_len: usize, b_hh_len: usize, gates: usize) -> (r:
    NnResult<(usize, usize)>)
    requires
        gates > 0,
    ensures
        w_ih.rank() != 2 || w_hh.rank() != 2 ==> (r matches Err(NnError::ShapeMismatch { expected, got })
            && expected@ == "w_ih, w_hh: rank-2"@ && got@ == "ranks "@ + decimal(w_ih.rank() as nat)
            + "/"@ + decimal(w_hh.rank() as nat)),
        w_ih.rank() == 2 && w_hh.rank() == 2 ==> ({
            let rows = w_ih@[0];
            let hidden = (rows / gates) as usize;
            if rows % gates != 0 {
                r matches Err(NnError::DivisibilityError { what, numerator, denominator }) && what@
                    == "w_ih row count / "@ + decimal(gates as nat) && numerator == rows && denominator
                    == gates
            } else if w_hh@ != seq![rows, hidden] {
                r matches Err(NnError::ShapeMismatch { expected, got }) && expected@ == "w_hh ["@
                    + decimal(rows as nat) + ", "@ + decimal(hidden as nat) + "]"@ && got@ == size_list(
                    w_hh@,
                )
            } else if b_ih_len != rows || b_hh_len != rows {
                r matches Err(NnError::ShapeMismatch { expected, got }) && expected@ == "b_ih/b_hh numel "@
                    + decimal(rows as nat) && got@ == decimal(b_ih_len as nat) + " / "@ + decimal(
                    b_hh_len as nat,
                )
            } else {
                r == Ok::<(usize, usize), NnError>((w_ih@[1], hidden))
            }
        }),
{
    proof {
        use_type_invariant(&w_ih);
        use_type_invariant(&w_hh);
        w_ih.lemma_shape();
        w_hh.lemma_shape();
    }
    if w_ih.ndim() != 2 || w_hh.ndim() != 2 {
        let mut expected = String::new();
        push_str(&mut expected, "w_ih, w_hh: rank-2");
        let mut got = String::new();
        push_str(&mut got, "ranks ");
        push_decimal(&mut got, w_ih.ndim() as u64);
        push_str(&mut got, "/");
        push_decimal(&mut got, w_hh.ndim() as u64);
        return Err(NnError::ShapeMismatch { expected, got });
    }
    let wi = w_ih.dims();
    let wh = w_hh.dims();
    let rows = wi[0];
    if rows % gates != 0 {
        let mut what = String::new();
        push_str(&mut what, "w_ih row count / ");
        push_decimal(&mut what, gates as u64);
        return Err(NnError::DivisibilityError { what, numerator: rows, denominator: gates });
    }
    let hidden = rows / gates;
    if wh[0] != rows || wh[1] != hidden {
        proof {
            assert(w_hh@ != seq![rows, hidden]);
        }
        let mut expected = String::new();
        push_str(&mut expected, "w_hh [");
        push_decimal(&mut expected, rows as u64);
        push_str(&mut expected, ", ");
        push_decimal(&mut expected, hidden as u64);
        push_str(&mut expected, "]");
        let mut got = String::new();
        push_size_list(&mut got, wh);
        return Err(NnError::ShapeMismatch { expected, got });
    }
    proof {
        assert(w_hh@ =~= seq![rows, hidden]);
    }
    if b_ih_len != rows || b_hh_len != rows {
        let mut expected = String::new();
        push_str(&mut expected, "b_ih/b_hh numel ");
        push_decimal(&mut expected, rows as u64);
        let mut got = String::new();
        push_decimal(&mut got, b_ih_len as u64);
        push_str(&mut got, " / ");
        push_decimal(&mut got, b_hh_len as u64);
        return Err(NnError::ShapeMismatch { expected, got });
    }
    Ok((wi[1], hidden))
}

/// The size of one attention head: `dim` split over `num_heads`, which
/// must divide it; `what` names the division in the error.
pub fn head_dim_of(dim: usize, num_heads: usize, what: &str) -> (r: NnResult<usize>)
    requires
        num_heads > 0 || dim > 0,
    ensures
        multiple_of(dim, num_heads) ==> r == Ok::<usize, NnError>((dim / num_heads) as usize),
        !multiple_of(dim, num_heads) ==> (r matches Err(
            NnError::DivisibilityError { what: w, numerator, denominator },
        ) && w@ == what@ && numerator == dim && denominator == num_heads),
{
    let divisible = if num_heads == 0 {
        dim == 0
    } else {
        dim % num_heads == 0
    };
    if !divisible {
        let mut w = String::new();
        push_str(&mut w, what);
        return Err(NnError::DivisibilityError { what: w, numerator: dim, denominator: num_heads });
    }
    Ok(dim / num_heads)
}

/// A rank-4 shape, or the error that names what was expected.
pub fn require_rank4(s: Shape, expected_text: &str) -> (r: NnResult<()>)
    ensures
        s.rank() == 4 ==> r is Ok,
        s.rank() != 4 ==> (r matches Err(NnError::ShapeMismatch { expected, got }) && expected@
            == expected_text@ && got@ == "rank-"@ + decimal(s.rank() as nat)),
{
    if s.ndim() != 4 {
        let mut expected = String::new();
        push_str(&mut expected, expected_text);
        let mut got = String::new();
        push_str(&mut got, "rank-");
        push_decimal(&mut got, s.ndim() as u64);
        return Err(NnError::ShapeMismatch { expected, got });
    }
    Ok(())
}

/// Whether two shapes have the same dimensions, rank included.
fn same_dims(a: Shape, b: Shape) -> (r: bool)
    ensures
        r == (a@ == b@),
{
    let x = a.dims();
    let y = b.dims();
    if x.len() != y.len() {
        return false;
    }
    let mut i: usize = 0;
    while i < x.len()
        invariant
            i <= x@.len(),
            x@.len() == y@.len(),
            x@ == a@,
            y@ == b@,
            forall|k: int| 0 <= k < i ==> x@[k] == y@[k],
        decreases x@.len() - i,
    {
        if x[i] != y[i] {
            return false;
        }
        i += 1;
    }
    assert(x@ =~= y@);
    true
}

/// The inputs of scaled dot-product attention: `q`, `k` and `v` all of
/// rank 4 (`[B, H, S, D]`) and all of one shape.
pub fn attention_shapes(q: Shape, k: Shape, v: Shape) -> (r: NnResult<()>)
    ensures
        q.rank() != 4 ==> (r matches Err(NnError::ShapeMismatch { expected, got }) && expected@
            == "q: rank-4 [B,H,S,D]"@ && got@ == "rank-"@ + decimal(q.rank() as nat)),
        q.rank() == 4 && k.rank() != 4 ==> (r matches Err(NnError::ShapeMismatch { expected, got })
            && expected@ == "k: rank-4 [B,H,S,D]"@ && got@ == "rank-"@ + decimal(k.rank() as nat)),
        q.rank() == 4 && k.rank() == 4 && v.rank() != 4 ==> (r matches Err(
            NnError::ShapeMismatch { expected, got },
        ) && expected@ == "v: rank-4 [B,H,S,D]"@ && got@ == "rank-"@ + decimal(v.rank() as nat)),
        q.rank() == 4 && k.rank() == 4 && v.rank() == 4 && (q@ != k@ || k@ != v@) ==> (r matches Err(
            NnError::ShapeMismatch { expected, got },
        ) && expected@ == "Q.shape == K.shape == V.shape"@ && got@ == "Q="@ + size_list(q@) + ", K="@
            + size_list(k@) + ", V="@ + size_list(v@)),
        q.rank() == 4 && k.rank() == 4 && v.rank() == 4 && q@ == k@ && k@ == v@ ==> r is Ok,
{
    match require_rank4(q, "q: rank-4 [B,H,S,D]") {
        Ok(()) => {},
        Err(e) => {
            return Err(e);
        },
    }
    match require_rank4(k, "k: rank-4 [B,H,S,D]") {
        Ok(()) => {},
        Err(e) => {
            return Err(e);
        },
    }
    match require_rank4(v, "v: rank-4 [B,H,S,D]") {
        Ok(()) => {},
        Err(e) => {
            return Err(e);
        },
    }
    if !same_dims(q, k) || !same_dims(k, v) {
        let mut got = String::new();
        push_str(&mut got, "Q=");
        push_size_list(&mut got, q.dims());
        push_str(&mut got, ", K=");
        push_size_list(&mut got, k.dims());
        push_str(&mut got, ", V=");
        push_size_list(&mut got, v.dims());
        let mut expected = String::new();
        push_str(&mut expected, "Q.shape == K.shape == V.shape");
        return Err(NnError::ShapeMismatch { expected, got });
    }
    Ok(())
}

/// The inputs of cross-attention: `q` (`[B, H, Sq, D]`), `k` and `v`
/// (`[B, H, Skv, D]`), all of rank 4, agreeing on `B`, `H` and `D`, with
/// `k` and `v` agreeing on `Skv`.
pub fn cross_attention_shapes(q: Shape, k: Shape, v: Shape) -> (r: NnResult<()>)
    ensures
        q.rank() != 4 ==> (r matches Err(NnError::ShapeMismatch { expected, got }) && expected@
            == "q: rank-4 [B, H, S, D]"@ && got@ == "rank-"@ + decimal(q.rank() as nat)),
        q.rank() == 4 && k.rank() != 4 ==> (r matches Err(NnError::ShapeMismatch { expected, got })
            && expected@ == "k: rank-4 [B, H, S, D]"@ && got@ == "rank-"@ + decimal(k.rank() as nat)),
        q.rank() == 4 && k.rank() == 4 && v.rank() != 4 ==> (r matches Err(
            NnError::ShapeMismatch { expected, got },
        ) && expected@ == "v: rank-4 [B, H, S, D]"@ && got@ == "rank-"@ + decimal(v.rank() as nat)),
        q.rank() == 4 && k.rank() == 4 && v.rank() == 4 ==> ({
            let (b, h, d) = (q@[0], q@[1], q@[3]);
            if k@[0] != b || k@[1] != h || k@[3] != d {
                r matches Err(NnError::ShapeMismatch { expected, got }) && expected@ == "K: ["@ + decimal(
                    b as nat,
                ) + ", "@ + decimal(h as nat) + ", *, "@ + decimal(d as nat) + "]"@ && got@ == size_list(
                    k@,
                )
            } else if v@[0] != b || v@[1] != h || v@[2] != k@[2] || v@[3] != d {
                r matches Err(NnError::ShapeMismatch { expected, got }) && expected@ == "V: ["@ + decimal(
                    b as nat,
                ) + ", "@ + decimal(h as nat) + ", "@ + decimal(k@[2] as nat) + ", "@ + decimal(d as nat)
                    + "]"@ && got@ == size_list(v@)
            } else {
                r is Ok
            }
        }),
{
    match require_rank4(q, "q: rank-4 [B, H, S, D]") {
        Ok(()) => {},
        Err(e) => {
            return Err(e);
        },
    }
    match require_rank4(k, "k: rank-4 [B, H, S, D]") {
        Ok(()) => {},
        Err(e) => {
            return Err(e);
        },
    }
    match require_rank4(v, "v: rank-4 [B, H, S, D]") {
        Ok(()) => {},
        Err(e) => {
            return Err(e);
        },
    }
    proof {
        use_type_invariant(&q);
        use_type_invariant(&k);
        use_type_invariant(&v);
        q.lemma_shape();
        k.lemma_shape();
        v.lemma_shape();
    }
    let qd = q.dims();
    let kd = k.dims();
    let vd = v.dims();
    let (b, h, d) = (qd[0], qd[1], qd[3]);
    if kd[0] != b || kd[1] != h || kd[3] != d {
        let mut expected = String::new();
        push_str(&mut expected, "K: [");
        push_decimal(&mut expected, b as u64);
        push_str(&mut expected, ", ");
        push_decimal(&mut expected, h as u64);
        push_str(&mut expected, ", *, ");
        push_decimal(&mut expected, d as u64);
        push_str(&mut expected, "]");
        let mut got = String::new();
        push_size_list(&mut got, kd);
        return Err(NnError::ShapeMismatch { expected, got });
    }
    if vd[0] != b || vd[1] != h || vd[2] != kd[2] || vd[3] != d {
        let mut expected = String::new();
        push_str(&mut expected, "V: [");
        push_decimal(&mut expected, b as u64);
        push_str(&mut expected, ", ");
        push_decimal(&mut expected, h as u64);
        push_str(&mut expected, ", ");
        push_decimal(&mut expected, kd[2] as u64);
        push_str(&mut expected, ", ");
        push_decimal(&mut expected, d as u64);
        push_str(&mut expected, "]");
        let mut got = String::new();
        push_size_list(&mut got, vd);
        return Err(NnError::ShapeMismatch { expected, got });
    }
    Ok(())
}

/// The weight of a 2-D convolution: `[out_channels, in_channels, kh, kw]`,
/// with a bias, if any, of `out_channels` values and a non-zero stride.
pub fn conv_weight_check(
    weight: Shape,
    bias_len: Option<usize>,
    in_channels: usize,
    out_channels: usize,
    kernel: Hw,
    stride: Hw,
) -> (r: NnResult<()>)
    ensures
        weight.rank() != 4 ==> (r matches Err(NnError::ShapeMismatch { expected, got }) && expected@
            == "rank-4 [OutC, InC, Kh, Kw]"@ && got@ == "rank-"@ + decimal(weight.rank() as nat)),
        weight.rank() == 4 && weight@ != seq![out_channels, in_channels, kernel.0, kernel.1] ==> (r matches Err(
            NnError::ShapeMismatch { expected, got },
        ) && expected@ == "["@ + decimal(out_channels as nat) + ","@ + decimal(in_channels as nat) + ","@
            + decimal(kernel.0 as nat) + ","@ + decimal(kernel.1 as nat) + "]"@ && got@ == size_list(
            weight@,
        )),
        weight.rank() == 4 && weight@ == seq![out_channels, in_channels, kernel.0, kernel.1] ==> match bias_len {
            Some(bn) if bn != out_channels => (r matches Err(NnError::ShapeMismatch { expected, got })
                && expected@ == "bias numel "@ + decimal(out_channels as nat) && got@ == "bias numel "@
                + decimal(bn as nat)),
            _ => if stride.0 == 0 || stride.1 == 0 {
                r matches Err(NnError::Format(m)) && m@ == "Conv2d stride must be >= 1"@
            } else {
                r is Ok
            },
        },
{
    match require_rank4(weight, "rank-4 [OutC, InC, Kh, Kw]") {
        Ok(()) => {},
        Err(e) => {
            return Err(e);
        },
    }
    proof {
        use_type_invariant(&weight);
        weight.lemma_shape();
    }
    let d = weight.dims();
    if d[0] != out_channels || d[1] != in_channels || d[2] != kernel.0 || d[3] != kernel.1 {
        let mut expected = String::new();
        push_str(&mut expected, "[");
        push_decimal(&mut expected, out_channels as u64);
        push_str(&mut expected, ",");
        push_decimal(&mut expected, in_channels as u64);
        push_str(&mut expected, ",");
        push_decimal(&mut expected, kernel.0 as u64);
        push_str(&mut expected, ",");
        push_decimal(&mut expected, kernel.1 as u64);
        push_str(&mut expected, "]");
        let mut got = String::new();
        push_size_list(&mut got, d);
        return Err(NnError::ShapeMismatch { expected, got });
    }
    proof {
        assert(weight@ =~= seq![out_channels, in_channels, kernel.0, kernel.1]);
    }
    if let Some(bn) = bias_len {
        if bn != out_channels {
            let mut expected = String::new();
            push_str(&mut expected, "bias numel ");
            push_decimal(&mut expected, out_channels as u64);
            let mut got = String::new();
            push_str(&mut got, "bias numel ");
            push_decimal(&mut got, bn as u64);
            return Err(NnError::ShapeMismatch { expected, got });
        }
    }
    if stride.0 == 0 || stride.1 == 0 {
        let mut m = String::new();
        push_str(&mut m, "Conv2d stride must be >= 1");
        return Err(NnError::Format(m));
    }
    Ok(())
}

/// A window of `k` with stride `stride` over `input` positions padded by
/// `pad` on each side can be counted without overflow.
pub open spec fn window_fits(input: usize, pad: usize, k: usize, stride: usize) -> bool {
    &&& stride > 0
    &&& stride > 1 || input + 2 * pad > usize::MAX || input + 2 * pad - k < usize::MAX
}

/// The error of a window too large for its input along one axis.
pub open spec fn window_message(layer: Seq<char>, axis: Seq<char>, input: usize, k: usize, pad: usize) -> Seq<char> {
    layer + ": "@ + axis + "_in="@ + decimal(input as nat) + " too small for kernel="@ + decimal(k as nat)
        + " padding="@ + decimal(pad as nat)
}

fn window_error(layer: &str, axis: &str, input: usize, k: usize, pad: usize) -> (e: NnError)
    ensures
        e matches NnError::Format(m) && m@ == window_message(layer@, axis@, input, k, pad),
{
    let mut m = String::new();
    push_str(&mut m, layer);
    push_str(&mut m, ": ");
    push_str(&mut m, axis);
    push_str(&mut m, "_in=");
    push_decimal(&mut m, input as u64);
    push_str(&mut m, " too small for kernel=");
    push_decimal(&mut m, k as u64);
    push_str(&mut m, " padding=");
    push_decimal(&mut m, pad as u64);
    NnError::Format(m)
}

/// The output height and width of a sliding-window layer named `layer`
/// over an `h_in` by `w_in` input.
pub fn window_sizes(h_in: usize, w_in: usize, kernel: Hw, stride: Hw, padding: Hw, layer: &str) -> (r: NnResult<
    (usize, usize),
>)
    requires
        window_fits(h_in, padding.0, kernel.0, stride.0),
        window_fits(w_in, padding.1, kernel.1, stride.1),
    ensures
        ({
            let h = pooled_len(h_in as nat, padding.0 as nat, kernel.0 as nat, stride.0 as nat);
            let w = pooled_len(w_in as nat, padding.1 as nat, kernel.1 as nat, stride.1 as nat);
            &&& h is None ==> (r matches Err(NnError::Format(m)) && m@ == window_message(
                layer@,
                "H"@,
                h_in,
                kernel.0,
                padding.0,
            ))
            &&& h is Some && w is None ==> (r matches Err(NnError::Format(m)) && m@ == window_message(
                layer@,
                "W"@,
                w_in,
                kernel.1,
                padding.1,
            ))
            &&& h is Some && w is Some ==> (r matches Ok((ho, wo)) && h == Some(ho as nat) && w == Some(
                wo as nat,
            ))
        }),
{
    let h_out = match out_size(h_in, padding.0, kernel.0, stride.0) {
        Some(v) => v,
        None => {
            return Err(window_error(layer, "H", h_in, kernel.0, padding.0));
        },
    };
    let w_out = match out_size(w_in, padding.1, kernel.1, stride.1) {
        Some(v) => v,
        None => {
            return Err(window_error(layer, "W", w_in, kernel.1, padding.1));
        },
    };
    Ok((h_out, w_out))
}

/// The input of a 2-D convolution: `[N, in_channels, H, W]`.
pub fn conv_input_check(x: Shape, in_channels: usize) -> (r: NnResult<()>)
    ensures
        x.rank() != 4 ==> (r matches Err(NnError::ShapeMismatch { expected, got }) && expected@
            == "rank-4 [N, InC, H, W]"@ && got@ == "rank-"@ + decimal(x.rank() as nat)),
        x.rank() == 4 && x@[1] != in_channels ==> (r matches Err(NnError::ShapeMismatch { expected, got })
            && expected@ == "InC="@ + decimal(in_channels as nat) && got@ == "InC="@ + decimal(x@[1] as nat)),
        x.rank() == 4 && x@[1] == in_channels ==> r is Ok,
{
    match require_rank4(x, "rank-4 [N, InC, H, W]") {
        Ok(()) => {},
        Err(e) => {
            return Err(e);
        },
    }
    proof {
        use_type_invariant(&x);
        x.lemma_shape();
    }
    let in_c = x.dims()[1];
    if in_c != in_channels {
        let mut expected = String::new();
        push_str(&mut expected, "InC=");
        push_decimal(&mut expected, in_channels as u64);
        let mut got = String::new();
        push_str(&mut got, "InC=");
        push_decimal(&mut got, in_c as u64);
        return Err(NnError::ShapeMismatch { expected, got });
    }
    Ok(())
}

/// A mask of shape `[rows, cols]`, or the error that names the expected
/// shape with `sep` between its two sizes.
fn mask_shape(mask: Shape, rows: usize, cols: usize, sep: &str) -> (r: NnResult<()>)
    ensures
        mask@ == seq![rows, cols] ==> r is Ok,
        mask@ != seq![rows, cols] ==> (r matches Err(NnError::ShapeMismatch { expected, got }) && expected@
            == "mask ["@ + decimal(rows as nat) + sep@ + decimal(cols as nat) + "]"@ && got@ == size_list(
            mask@,
        )),
{
    proof {
        use_type_invariant(&mask);
        mask.lemma_shape();
    }
    let d = mask.dims();
    if mask.ndim() != 2 || d[0] != rows || d[1] != cols {
        proof {
            assert(mask@ != seq![rows, cols]);
        }
        let mut expected = String::new();
        push_str(&mut expected, "mask [");
        push_decimal(&mut expected, rows as u64);
        push_str(&mut expected, sep);
        push_decimal(&mut expected, cols as u64);
        push_str(&mut expected, "]");
        let mut got = String::new();
        push_size_list(&mut got, d);
        return Err(NnError::ShapeMismatch { expected, got });
    }
    proof {
        assert(mask@ =~= seq![rows, cols]);
    }
    Ok(())
}

/// The mask of scaled dot-product attention: `[batch, seq]`.
pub fn attention_mask_shape(mask: Shape, batch: usize, seq: usize) -> (r: NnResult<()>)
    ensures
        mask@ == seq![batch, seq] ==> r is Ok,
        mask@ != seq![batch, seq] ==> (r matches Err(NnError::ShapeMismatch { expected, got }) && expected@
            == "mask ["@ + decimal(batch as nat) + ","@ + decimal(seq as nat) + "]"@ && got@ == size_list(
            mask@,
        )),
{
    mask_shape(mask, batch, seq, ",")
}

/// The mask of cross-attention: `[s_q, s_kv]`.
pub fn cross_attention_mask_shape(mask: Shape, s_q: usize, s_kv: usize) -> (r: NnResult<()>)
    ensures
        mask@ == seq![s_q, s_kv] ==> r is Ok,
        mask@ != seq![s_q, s_kv] ==> (r matches Err(NnError::ShapeMismatch { expected, got }) && expected@
            == "mask ["@ + decimal(s_q as nat) + ", "@ + decimal(s_kv as nat) + "]"@ && got@ == size_list(
            mask@,
        )),
{
    mask_shape(mask, s_q, s_kv, ", ")
}

/// The inputs of CRF decoding: emissions `[B, S, T]`, transitions
/// `[T, T]`, and start and end transition vectors of `T` values each.
/// Gives `(B, S, T)`.
pub fn crf_shapes(emissions: Shape, transitions: Shape, start_len: usize, end_len: usize) -> (r: NnResult<
    (usize, usize, usize),
>)
    ensures
        emissions.rank() != 3 ==> (r matches Err(NnError::ShapeMismatch { expected, got }) && expected@
            == "emissions rank-3 [B,S,T]"@ && got@ == "rank-"@ + decimal(emissions.rank() as nat)),
        emissions.rank() == 3 ==> ({
            let tags = emissions@[2];
            if transitions@ != seq![tags, tags] {
                r matches Err(NnError::ShapeMismatch { expected, got }) && expected@ == "transitions ["@
                    + decimal(tags as nat) + ","@ + decimal(tags as nat) + "]"@ && got@ == size_list(
                    transitions@,
                )
            } else if start_len != tags || end_len != tags {
                r matches Err(NnError::ShapeMismatch { expected, got }) && expected@
                    == "start/end transitions length "@ + decimal(tags as nat) && got@ == "start="@
                    + decimal(start_len as nat) + ", end="@ + decimal(end_len as nat)
            } else {
                r == Ok::<(usize, usize, usize), NnError>((emissions@[0], emissions@[1], tags))
            }
        }),
{
    proof {
        use_type_invariant(&emissions);
        emissions.lemma_shape();
        use_type_invariant(&transitions);
        transitions.lemma_shape();
    }
    if emissions.ndim() != 3 {
        let mut expected = String::new();
        push_str(&mut expected, "emissions rank-3 [B,S,T]");
        let mut got = String::new();
        push_str(&mut got, "rank-");
        push_decimal(&mut got, emissions.ndim() as u64);
        return Err(NnError::ShapeMismatch { expected, got });
    }
    let d = emissions.dims();
    let tags = d[2];
    let td = transitions.dims();
    if transitions.ndim() != 2 || td[0] != tags || td[1] != tags {
        proof {
            assert(transitions@ != seq![tags, tags]);
        }
        let mut expected = String::new();
        push_str(&mut expected, "transitions [");
        push_decimal(&mut expected, tags as u64);
        push_str(&mut expected, ",");
        push_decimal(&mut expected, tags as u64);
        push_str(&mut expected, "]");
        let mut got = String::new();
        push_size_list(&mut got, td);
        return Err(NnError::ShapeMismatch { expected, got });
    }
    proof {
        assert(transitions@ =~= seq![tags, tags]);
    }
    if start_len != tags || end_len != tags {
        let mut expected = String::new();
        push_str(&mut expected, "start/end transitions length ");
        push_decimal(&mut expected, tags as u64);
        let mut got = String::new();
        push_str(&mut got, "start=");
        push_decimal(&mut got, start_len as u64);
        push_str(&mut got, ", end=");
        push_decimal(&mut got, end_len as u64);
        return Err(NnError::ShapeMismatch { expected, got });
    }
    Ok((d[0], d[1], tags))
}

} // verus!
