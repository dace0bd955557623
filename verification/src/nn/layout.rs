//! Moving tensor elements without computing on them, for elements of any
//! type: concatenation and splitting along an axis of row-major data,
//! swapping two axes (transposes, attention heads), the first position of
//! each sequence, and gathering embedding rows.
//!
//! Along axis `k` of a row-major shape, the data is `outer` rows, where
//! `outer` is the product of the dimensions before `k`; each row holds the
//! axis dimension times `inner` elements, `inner` being the product of the
//! dimensions after `k`.

use vstd::prelude::*;

use crate::nn::error::{NnError, NnResult};
use crate::nn::tensor::{product, valid_shape, Shape};
use crate::nn::xlm_roberta::multiple_of;
use crate::text::{decimal, push_decimal, push_str};

verus! {

/// Row `o` of `part`, rows being `w` elements long.
pub open spec fn block<T>(part: Seq<T>, w: int, o: int) -> Seq<T> {
    part.subrange(o * w, (o + 1) * w)
}

/// Row `o` of each of the first `k` parts, one after the other.
pub open spec fn row_of<T>(parts: Seq<Seq<T>>, widths: Seq<usize>, o: int, k: int) -> Seq<T>
    decreases k,
{
    if k <= 0 {
        Seq::empty()
    } else {
        row_of(parts, widths, o, k - 1) + block(parts[k - 1], widths[k - 1] as int, o)
    }
}

/// The first `outer` rows of the concatenation: for each row index, that
/// row of every part in turn.
pub open spec fn interleave<T>(parts: Seq<Seq<T>>, widths: Seq<usize>, outer: int) -> Seq<T>
    decreases outer,
{
    if outer <= 0 {
        Seq::empty()
    } else {
        interleave(parts, widths, outer - 1) + row_of(parts, widths, outer - 1, parts.len() as int)
    }
}

/// The elements `[off, off + w)` of each of the first `outer` rows of
/// `src`, rows being `row` elements long.
pub open spec fn columns<T>(src: Seq<T>, row: int, off: int, w: int, outer: int) -> Seq<T>
    decreases outer,
{
    if outer <= 0 {
        Seq::empty()
    } else {
        columns(src, row, off, w, outer - 1) + src.subrange(
            (outer - 1) * row + off,
            (outer - 1) * row + off + w,
        )
    }
}

/// Sum of `s`.
pub open spec fn total(s: Seq<usize>) -> nat
    decreases s.len(),
{
    if s.len() == 0 {
        0
    } else {
        total(s.drop_last()) + s.last() as nat
    }
}

proof fn lemma_row_bounds(o: int, outer: int, w: int)
    requires
        0 <= o < outer,
        0 <= w,
    ensures
        0 <= o * w,
        o * w + w == (o + 1) * w,
        (o + 1) * w <= outer * w,
{
    assert(0 <= o * w) by (nonlinear_arith)
        requires
            0 <= o,
            0 <= w,
    ;
    assert(o * w + w == (o + 1) * w) by (nonlinear_arith);
    assert((o + 1) * w <= outer * w) by (nonlinear_arith)
        requires
            o + 1 <= outer,
            0 <= w,
    ;
}

/// For each of `outer` row indices, that row of every part in turn.
pub fn interleave_blocks<T: Copy>(parts: &[&[T]], widths: &[usize], outer: usize) -> (out: Vec<T>)
    requires
        parts@.len() == widths@.len(),
        forall|t: int| 0 <= t < parts@.len() ==> #[trigger] parts@[t]@.len() == outer * widths@[t],
        outer * total(widths@) <= usize::MAX,
    ensures
        out@ == interleave(parts@.map_values(|p: &[T]| p@), widths@, outer as int),
{
    let ghost pv = parts@.map_values(|p: &[T]| p@);
    let n = parts.len();
    let mut out: Vec<T> = Vec::new();
    let mut o: usize = 0;
    while o < outer
        invariant
            o <= outer,
            n == parts@.len(),
            pv == parts@.map_values(|p: &[T]| p@),
            parts@.len() == widths@.len(),
            forall|t: int| 0 <= t < parts@.len() ==> #[trigger] parts@[t]@.len() == outer * widths@[t],
            out@ == interleave(pv, widths@, o as int),
        decreases outer - o,
    {
        let mut t: usize = 0;
        while t < n
            invariant
                o < outer,
                t <= n,
                n == parts@.len(),
                pv == parts@.map_values(|p: &[T]| p@),
                parts@.len() == widths@.len(),
                forall|q: int| 0 <= q < parts@.len() ==> #[trigger] parts@[q]@.len() == outer * widths@[q],
                out@ == interleave(pv, widths@, o as int) + row_of(pv, widths@, o as int, t as int),
            decreases n - t,
        {
            let part = parts[t];
            let w = widths[t];
            let plen = part.len();
            proof {
                lemma_row_bounds(o as int, outer as int, w as int);
                assert(pv[t as int] == part@);
            }
            let start = o * w;
            let ghost base = out@;
            let mut k: usize = 0;
            while k < w
                invariant
                    k <= w,
                    start + w <= part@.len(),
                    part@.len() <= usize::MAX,
                    out@ == base + part@.subrange(start as int, start + k),
                decreases w - k,
            {
                out.push(part[start + k]);
                k += 1;
                assert(out@ =~= base + part@.subrange(start as int, start + k));
            }
            t += 1;
            assert(out@ =~= interleave(pv, widths@, o as int) + row_of(pv, widths@, o as int, t as int));
        }
        o += 1;
    }
    out
}

/// The elements `[off, off + w)` of each of `outer` rows of `row` elements.
pub fn take_columns<T: Copy>(src: &[T], row: usize, off: usize, w: usize, outer: usize) -> (out: Vec<T>)
    requires
        off + w <= row,
        src@.len() == outer * row,
    ensures
        out@ == columns(src@, row as int, off as int, w as int, outer as int),
{
    let mut out: Vec<T> = Vec::new();
    let mut o: usize = 0;
    while o < outer
        invariant
            o <= outer,
            off + w <= row,
            src@.len() == outer * row,
            out@ == columns(src@, row as int, off as int, w as int, o as int),
        decreases outer - o,
    {
        proof {
            lemma_row_bounds(o as int, outer as int, row as int);
        }
        let slen = src.len();
        let start = o * row + off;
        let ghost base = out@;
        let mut k: usize = 0;
        while k < w
            invariant
                k <= w,
                start + w <= src@.len(),
                src@.len() <= usize::MAX,
                out@ == base + src@.subrange(start as int, start + k),
            decreases w - k,
        {
            out.push(src[start + k]);
            k += 1;
            assert(out@ =~= base + src@.subrange(start as int, start + k));
        }
        o += 1;
        assert(out@ =~= columns(src@, row as int, off as int, w as int, o as int));
    }
    out
}


// ---------------------------------------------------------------------------
// Shapes of concatenation and splitting
// ---------------------------------------------------------------------------

pub proof fn lemma_product_append(a: Seq<usize>, b: Seq<usize>)
    ensures
        product(a + b) == product(a) * product(b),
    decreases b.len(),
{
    if b.len() == 0 {
        assert(a + b =~= a);
        assert(product(a) * 1 == product(a)) by (nonlinear_arith);
    } else {
        assert((a + b).drop_last() =~= a + b.drop_last());
        lemma_product_append(a, b.drop_last());
        let x = product(a);
        let y = product(b.drop_last());
        let z = b.last() as nat;
        assert((x * y) * z == x * (y * z)) by (nonlinear_arith);
    }
}

/// The product of a shape splits around axis `k`: before, at, after.
pub proof fn lemma_product_around(s: Seq<usize>, k: int)
    requires
        0 <= k < s.len(),
    ensures
        product(s) == product(s.take(k)) * (s[k] as nat) * product(s.skip(k + 1)),
{
    let a = s.take(k);
    let one = seq![s[k]];
    let b = s.skip(k + 1);
    assert(s =~= (a + one) + b);
    lemma_product_append(a + one, b);
    lemma_product_append(a, one);
    assert(one.drop_last() =~= Seq::<usize>::empty());
    assert(product(Seq::<usize>::empty()) == 1);
    assert(one.len() == 1 && one.last() == s[k]);
    assert(product(one) == product(one.drop_last()) * (one.last() as nat));
    assert(product(one) == s[k] as nat);
    assert(product(s) == product(a) * product(one) * product(b));
}

/// Rows before axis `k`.
pub open spec fn outer_of(s: Seq<usize>, k: int) -> nat {
    product(s.take(k))
}

/// Elements per unit of axis `k`.
pub open spec fn inner_of(s: Seq<usize>, k: int) -> nat {
    product(s.skip(k + 1))
}

/// The first dimension at or after `i`, off the axis, where `s` differs from `f`.
pub open spec fn first_dim_diff(s: Seq<usize>, f: Seq<usize>, axis: int, i: int) -> Option<int>
    decreases f.len() - i,
{
    if i < 0 || i >= f.len() {
        None
    } else if i != axis && s[i] != f[i] {
        Some(i)
    } else {
        first_dim_diff(s, f, axis, i + 1)
    }
}

/// How a part fails to fit the first one.
pub enum PartMismatch {
    /// Part `t` has another rank.
    Rank(int),
    /// Part `t` differs in dimension `i`.
    Dim(int, int),
}

/// The first part at or after `t` that does not fit the first part.
pub open spec fn first_mismatch(shapes: Seq<Shape>, axis: int, t: int) -> Option<PartMismatch>
    decreases shapes.len() - t,
{
    if t < 1 || t >= shapes.len() {
        None
    } else if shapes[t].rank() != shapes[0].rank() {
        Some(PartMismatch::Rank(t))
    } else {
        match first_dim_diff(shapes[t]@, shapes[0]@, axis, 0) {
            Some(i) => Some(PartMismatch::Dim(t, i)),
            None => first_mismatch(shapes, axis, t + 1),
        }
    }
}

/// Sum of the axis dimensions of the first `k` shapes.
pub open spec fn axis_sum(shapes: Seq<Shape>, axis: int, k: int) -> nat
    decreases k,
{
    if k <= 0 {
        0
    } else {
        axis_sum(shapes, axis, k - 1) + shapes[k - 1]@[axis] as nat
    }
}

/// The row widths of the parts: axis dimension times the inner size.
pub open spec fn part_widths(shapes: Seq<Shape>, axis: int) -> Seq<usize> {
    Seq::new(shapes.len(), |t: int| (shapes[t]@[axis] * inner_of(shapes[0]@, axis)) as usize)
}

proof fn lemma_first_dim_diff_none(s: Seq<usize>, f: Seq<usize>, axis: int, i: int)
    requires
        0 <= i,
        s.len() == f.len(),
        first_dim_diff(s, f, axis, i) is None,
    ensures
        forall|j: int| i <= j < f.len() && j != axis ==> s[j] == f[j],
    decreases f.len() - i,
{
    if i < f.len() {
        lemma_first_dim_diff_none(s, f, axis, i + 1);
    }
}

proof fn lemma_no_mismatch(shapes: Seq<Shape>, axis: int, t: int)
    requires
        1 <= t,
        first_mismatch(shapes, axis, t) is None,
        forall|q: int| 0 <= q < shapes.len() ==> #[trigger] shapes[q]@.len() == shapes[q].rank(),
    ensures
        forall|q: int| t <= q < shapes.len() ==> #[trigger] shapes[q].rank() == shapes[0].rank(),
        forall|q: int, j: int| t <= q < shapes.len() && 0 <= j < shapes[0]@.len() && j != axis
            ==> #[trigger] shapes[q]@[j] == shapes[0]@[j],
    decreases shapes.len() - t,
{
    if t < shapes.len() {
        lemma_no_mismatch(shapes, axis, t + 1);
        assert(shapes[t]@.len() == shapes[t].rank());
        assert(shapes[0]@.len() == shapes[0].rank());
        lemma_first_dim_diff_none(shapes[t]@, shapes[0]@, axis, 0);
    }
}


pub proof fn lemma_product_pos(s: Seq<usize>)
    requires
        forall|k: int| 0 <= k < s.len() ==> #[trigger] s[k] > 0,
    ensures
        product(s) >= 1,
    decreases s.len(),
{
    if s.len() > 0 {
        lemma_product_pos(s.drop_last());
        let p = product(s.drop_last());
        let x = s.last() as nat;
        assert(p * x >= 1) by (nonlinear_arith)
            requires
                p >= 1,
                x >= 1,
        ;
    }
}

/// The product of a run of dimensions is at most the whole product.
pub proof fn lemma_run_product_le(s: Seq<usize>, lo: int, hi: int)
    requires
        0 <= lo <= hi <= s.len(),
        forall|k: int| 0 <= k < s.len() ==> #[trigger] s[k] > 0,
    ensures
        product(s.subrange(lo, hi)) <= product(s),
{
    assert(s =~= s.take(lo) + s.subrange(lo, hi) + s.skip(hi));
    lemma_product_append(s.take(lo) + s.subrange(lo, hi), s.skip(hi));
    lemma_product_append(s.take(lo), s.subrange(lo, hi));
    lemma_product_pos(s.take(lo));
    lemma_product_pos(s.skip(hi));
    lemma_product_pos(s.subrange(lo, hi));
    let a = product(s.take(lo));
    let b = product(s.subrange(lo, hi));
    let c = product(s.skip(hi));
    assert(a * b * c >= b) by (nonlinear_arith)
        requires
            a >= 1,
            c >= 1,
            b >= 1,
    ;
}

/// Product of `d[lo..hi]`.
fn run_product(d: &[usize], lo: usize, hi: usize) -> (r: usize)
    requires
        lo <= hi <= d@.len(),
        product(d@.subrange(lo as int, hi as int)) <= usize::MAX,
        forall|k: int| 0 <= k < d@.len() ==> #[trigger] d@[k] > 0,
    ensures
        r == product(d@.subrange(lo as int, hi as int)),
{
    let mut p: usize = 1;
    let mut i = lo;
    proof {
        assert(d@.subrange(lo as int, lo as int) =~= Seq::<usize>::empty());
    }
    while i < hi
        invariant
            lo <= i <= hi <= d@.len(),
            product(d@.subrange(lo as int, hi as int)) <= usize::MAX,
            forall|k: int| 0 <= k < d@.len() ==> #[trigger] d@[k] > 0,
            p == product(d@.subrange(lo as int, i as int)),
        decreases hi - i,
    {
        proof {
            let run = d@.subrange(lo as int, hi as int);
            assert(d@.subrange(lo as int, i + 1) =~= run.take(i + 1 - lo));
            assert forall|k: int| 0 <= k < run.len() implies #[trigger] run[k] > 0 by {
                assert(run[k] == d@[lo + k]);
            }
            crate::nn::tensor::lemma_product_prefix_le(run, i + 1 - lo);
            assert(d@.subrange(lo as int, i + 1).drop_last() =~= d@.subrange(lo as int, i as int));
        }
        p = p * d[i];
        i += 1;
    }
    p
}

proof fn lemma_axis_sum_mono(shapes: Seq<Shape>, axis: int, a: int, b: int)
    requires
        0 <= a <= b,
    ensures
        axis_sum(shapes, axis, a) <= axis_sum(shapes, axis, b),
    decreases b - a,
{
    if a < b {
        lemma_axis_sum_mono(shapes, axis, a, b - 1);
    }
}

proof fn lemma_total_widths(shapes: Seq<Shape>, axis: int, inner: nat, widths: Seq<usize>, k: int)
    requires
        0 <= k <= widths.len(),
        widths.len() <= shapes.len(),
        forall|t: int| 0 <= t < widths.len() ==> #[trigger] widths[t] == shapes[t]@[axis] * inner,
    ensures
        total(widths.take(k)) == axis_sum(shapes, axis, k) * inner,
    decreases k,
{
    if k == 0 {
        assert(widths.take(0) =~= Seq::<usize>::empty());
        assert(0 * inner == 0) by (nonlinear_arith);
    } else {
        lemma_total_widths(shapes, axis, inner, widths, k - 1);
        assert(widths.take(k).drop_last() =~= widths.take(k - 1));
        assert(widths.take(k).last() == widths[k - 1]);
        let a = axis_sum(shapes, axis, k - 1);
        let x = shapes[k - 1]@[axis] as nat;
        assert(widths[k - 1] == x * inner);
        assert(axis_sum(shapes, axis, k) == a + x);
        assert((a + x) * inner == a * inner + x * inner) by (nonlinear_arith);
        assert(total(widths.take(k)) == total(widths.take(k - 1)) + widths[k - 1] as nat);
    }
}

/// A shape value that keeps the shape rules, with its view of `rank`
/// dimensions.
pub open spec fn well_shaped(s: Shape) -> bool {
    &&& valid_shape(s.all_dims(), s.rank())
    &&& s@ == s.all_dims().take(s.rank() as int)
    &&& s@.len() == s.rank()
}

/// Concatenation of parts whose shapes agree off the axis.
fn concat_checked<T: Copy>(datas: &[&[T]], shapes: &[Shape], axis: usize) -> (r: NnResult<(Vec<T>, Shape)>)
    requires
        datas@.len() == shapes@.len(),
        shapes@.len() > 0,
        forall|t: int| 0 <= t < datas@.len() ==> #[trigger] datas@[t]@.len() == product(shapes@[t]@),
        axis < shapes@[0].rank(),
        forall|q: int| #![trigger shapes@[q]] 0 <= q < shapes@.len() ==> well_shaped(shapes@[q]),
        forall|q: int| 0 <= q < shapes@.len() ==> #[trigger] shapes@[q].rank() == shapes@[0].rank(),
        forall|q: int, j: int| 0 <= q < shapes@.len() && 0 <= j < shapes@[0]@.len() && j != axis
            ==> #[trigger] shapes@[q]@[j] == shapes@[0]@[j],
        axis_sum(shapes@, axis as int, shapes@.len() as int) <= usize::MAX,
        product(shapes@[0]@.update(axis as int, axis_sum(shapes@, axis as int, shapes@.len() as int) as usize))
            <= usize::MAX,
    ensures
        r matches Ok((data, s)) && s.rank() == shapes@[0].rank() && s@ == shapes@[0]@.update(
            axis as int,
            axis_sum(shapes@, axis as int, shapes@.len() as int) as usize,
        ) && data@ == interleave(
            datas@.map_values(|p: &[T]| p@),
            part_widths(shapes@, axis as int),
            outer_of(shapes@[0]@, axis as int) as int,
        ),
{
    let n = shapes.len();
    let first = shapes[0];
    let nd = first.ndim() as usize;
    let fd = first.dims();
    let ghost f = first@;
    let ghost sum_all = axis_sum(shapes@, axis as int, n as int);
    proof {
        assert(valid_shape(shapes@[0].all_dims(), shapes@[0].rank()));
        assert forall|k: int| 0 <= k < f.len() implies #[trigger] f[k] > 0 by {
            assert(f[k] == first.all_dims()[k]);
        }
    }
    // Sum of the axis dimensions.
    let mut axis_total: usize = 0;
    let mut t: usize = 0;
    while t < n
        invariant
            t <= n,
            n == shapes@.len(),
            axis_total == axis_sum(shapes@, axis as int, t as int),
            axis_sum(shapes@, axis as int, n as int) <= usize::MAX,
            forall|q: int| 0 <= q < shapes@.len() ==> #[trigger] shapes@[q]@.len() == shapes@[q].rank(),
            forall|q: int| 0 <= q < shapes@.len() ==> #[trigger] shapes@[q].rank() == shapes@[0].rank(),
            axis < shapes@[0].rank(),
        decreases n - t,
    {
        let d = shapes[t].dims();
        proof {
            lemma_axis_sum_mono(shapes@, axis as int, t + 1, n as int);
        }
        axis_total = axis_total + d[axis];
        t += 1;
    }
    proof {
        lemma_axis_sum_mono(shapes@, axis as int, 1, n as int);
        assert(axis_sum(shapes@, axis as int, 0) == 0);
        assert(axis_sum(shapes@, axis as int, 1) == shapes@[0]@[axis as int]);
        assert(f[axis as int] > 0);
    }
    // The result's shape.
    let d0 = if axis == 0 { axis_total } else { fd[0] };
    let d1 = if axis == 1 { axis_total } else { fd[1] };
    let d2 = if axis == 2 { axis_total } else if 2 < nd { fd[2] } else { 1 };
    let d3 = if axis == 3 { axis_total } else if 3 < nd { fd[3] } else { 1 };
    let out_dims: [usize; 4] = [d0, d1, d2, d3];
    let ghost g = f.update(axis as int, axis_total);
    proof {
        assert(out_dims@.take(nd as int) =~= g);
        assert(valid_shape(out_dims@, first.rank())) by {
            assert forall|i: int| 0 <= i < first.rank() implies #[trigger] out_dims@[i] > 0 by {
                if i != axis {
                    assert(out_dims@[i] == f[i]);
                }
            }
            assert forall|i: int| first.rank() <= i < 4 implies #[trigger] out_dims@[i] == 1 by {
            }
        }
    }
    let out_shape = match Shape::new(out_dims, first.ndim()) {
        Ok(s) => s,
        Err(e) => {
            return Err(e);
        },
    };
    proof {
        use_type_invariant(&out_shape);
        out_shape.lemma_shape();
        assert(out_shape@ =~= g);
    }
    // Rows before the axis and elements per unit of the axis.
    proof {
        lemma_run_product_le(f, 0, axis as int);
        lemma_run_product_le(f, axis + 1, nd as int);
        assert(f.subrange(0, axis as int) =~= f.take(axis as int));
        assert(f.subrange(axis + 1, nd as int) =~= f.skip(axis + 1));
        assert(datas@[0]@.len() == product(f));
    }
    let dlen0 = datas[0].len();
    let outer = run_product(fd, 0, axis);
    let inner = run_product(fd, axis + 1, nd);
    proof {
        lemma_product_around(f, axis as int);
        lemma_product_pos(f.take(axis as int));
        lemma_product_pos(f.skip(axis + 1));
    }
    // Row widths of the parts.
    let mut widths: Vec<usize> = Vec::new();
    let mut t: usize = 0;
    while t < n
        invariant
            t <= n,
            n == shapes@.len(),
            n == datas@.len(),
            widths@.len() == t,
            outer == outer_of(f, axis as int),
            inner == inner_of(f, axis as int),
            outer >= 1,
            f == shapes@[0]@,
            axis < f.len(),
            forall|q: int| 0 <= q < t ==> #[trigger] widths@[q] == shapes@[q]@[axis as int] * inner,
            forall|q: int| 0 <= q < t ==> #[trigger] datas@[q]@.len() == outer * widths@[q],
            forall|q: int| 0 <= q < datas@.len() ==> #[trigger] datas@[q]@.len() == product(shapes@[q]@),
            forall|q: int| 0 <= q < shapes@.len() ==> #[trigger] shapes@[q]@.len() == shapes@[q].rank(),
            forall|q: int| 0 <= q < shapes@.len() ==> #[trigger] shapes@[q].rank() == shapes@[0].rank(),
            forall|q: int, j: int| 0 <= q < shapes@.len() && 0 <= j < shapes@[0]@.len() && j != axis
                ==> #[trigger] shapes@[q]@[j] == shapes@[0]@[j],
        decreases n - t,
    {
        let d = shapes[t].dims();
        let ghost st = shapes@[t as int]@;
        let plen = datas[t].len();
        proof {
            assert(st.take(axis as int) =~= f.take(axis as int));
            assert(st.skip(axis + 1) =~= f.skip(axis + 1));
            lemma_product_around(st, axis as int);
            let x = st[axis as int] as nat;
            assert(outer * x * inner == outer * (x * inner)) by (nonlinear_arith);
            assert(x * inner <= outer * (x * inner)) by (nonlinear_arith)
                requires
                    outer >= 1,
            ;
        }
        widths.push(d[axis] * inner);
        t += 1;
    }
    proof {
        lemma_total_widths(shapes@, axis as int, inner as nat, widths@, n as int);
        assert(widths@.take(n as int) =~= widths@);
        assert(g.take(axis as int) =~= f.take(axis as int));
        assert(g.skip(axis + 1) =~= f.skip(axis + 1));
        lemma_product_around(g, axis as int);
        let s = axis_sum(shapes@, axis as int, n as int);
        assert(outer * (s * inner) == outer * s * inner) by (nonlinear_arith);
        assert(widths@ =~= part_widths(shapes@, axis as int));
    }
    let data = interleave_blocks(datas, widths.as_slice(), outer);
    Ok((data, out_shape))
}

/// Concatenate the parts along `axis`: their shapes must agree off the axis,
/// and the result's axis dimension is the sum of theirs.
pub fn concat_parts<T: Copy>(datas: &[&[T]], shapes: &[Shape], axis: usize) -> (r: NnResult<(Vec<T>, Shape)>)
    requires
        datas@.len() == shapes@.len(),
        forall|t: int| 0 <= t < datas@.len() ==> #[trigger] datas@[t]@.len() == product(shapes@[t]@),
        shapes@.len() > 0 && axis < shapes@[0].rank() && first_mismatch(shapes@, axis as int, 1) is None
            ==> axis_sum(shapes@, axis as int, shapes@.len() as int) <= usize::MAX && product(
            shapes@[0]@.update(axis as int, axis_sum(shapes@, axis as int, shapes@.len() as int) as usize),
        ) <= usize::MAX,
    ensures
        shapes@.len() == 0 ==> (r matches Err(NnError::ShapeMismatch { expected, got }) && expected@
            == "non-empty tensor list"@ && got@ == "empty"@),
        shapes@.len() > 0 && axis >= shapes@[0].rank() ==> r == Err::<(Vec<T>, Shape), NnError>(
            NnError::InvalidAxis { axis, ndim: shapes@[0].rank() },
        ),
        shapes@.len() > 0 && axis < shapes@[0].rank() ==> match first_mismatch(shapes@, axis as int, 1) {
            Some(PartMismatch::Rank(t)) => (r matches Err(NnError::ShapeMismatch { expected, got })
                && expected@ == "rank "@ + decimal(shapes@[0].rank() as nat) && got@ == "rank "@
                + decimal(shapes@[t].rank() as nat)),
            Some(PartMismatch::Dim(t, i)) => (r matches Err(NnError::ShapeMismatch { expected, got })
                && expected@ == "dim "@ + decimal(i as nat) + " = "@ + decimal(shapes@[0]@[i] as nat)
                && got@ == "dim "@ + decimal(i as nat) + " = "@ + decimal(shapes@[t]@[i] as nat)),
            None => (r matches Ok((data, s)) && s.rank() == shapes@[0].rank() && s@ == shapes@[0]@.update(
                axis as int,
                axis_sum(shapes@, axis as int, shapes@.len() as int) as usize,
            ) && data@ == interleave(
                datas@.map_values(|p: &[T]| p@),
                part_widths(shapes@, axis as int),
                outer_of(shapes@[0]@, axis as int) as int,
            )),
        },
{
    let n = shapes.len();
    if n == 0 {
        let mut expected = String::new();
        push_str(&mut expected, "non-empty tensor list");
        let mut got = String::new();
        push_str(&mut got, "empty");
        return Err(NnError::ShapeMismatch { expected, got });
    }
    let first = shapes[0];
    let nd = first.ndim() as usize;
    if axis >= nd {
        return Err(NnError::InvalidAxis { axis, ndim: first.ndim() });
    }
    let fd = first.dims();
    proof {
        use_type_invariant(&first);
        first.lemma_shape();
        assert(well_shaped(shapes@[0]));
    }
    let mut t: usize = 1;
    while t < n
        invariant
            1 <= t <= n,
            n == shapes@.len(),
            first == shapes@[0],
            nd == first.rank(),
            fd@ == first@,
            fd@.len() == nd,
            axis < nd,
            first_mismatch(shapes@, axis as int, 1) == first_mismatch(shapes@, axis as int, t as int),
            forall|q: int| #![trigger shapes@[q]] 0 <= q < t ==> well_shaped(shapes@[q]),
        decreases n - t,
    {
        let st = shapes[t];
        proof {
            use_type_invariant(&st);
            st.lemma_shape();
        }
        if st.ndim() != first.ndim() {
            let mut expected = String::new();
            push_str(&mut expected, "rank ");
            push_decimal(&mut expected, nd as u64);
            let mut got = String::new();
            push_str(&mut got, "rank ");
            push_decimal(&mut got, st.ndim() as u64);
            return Err(NnError::ShapeMismatch { expected, got });
        }
        let sd = st.dims();
        proof {
            assert(well_shaped(shapes@[t as int]));
        }
        let mut i: usize = 0;
        while i < nd
            invariant
                i <= nd,
                1 <= t < n,
                n == shapes@.len(),
                st == shapes@[t as int],
                first == shapes@[0],
                st.rank() == first.rank(),
                nd == first.rank(),
                axis < nd,
                first_mismatch(shapes@, axis as int, 1) == first_mismatch(shapes@, axis as int, t as int),
                nd == fd@.len(),
                sd@.len() == nd,
                sd@ == st@,
                fd@ == first@,
                first_dim_diff(st@, first@, axis as int, 0) == first_dim_diff(st@, first@, axis as int, i as int),
                forall|q: int| #![trigger shapes@[q]] 0 <= q <= t ==> well_shaped(shapes@[q]),
            decreases nd - i,
        {
            if i != axis && sd[i] != fd[i] {
                let mut expected = String::new();
                push_str(&mut expected, "dim ");
                push_decimal(&mut expected, i as u64);
                push_str(&mut expected, " = ");
                push_decimal(&mut expected, fd[i] as u64);
                let mut got = String::new();
                push_str(&mut got, "dim ");
                push_decimal(&mut got, i as u64);
                push_str(&mut got, " = ");
                push_decimal(&mut got, sd[i] as u64);
                return Err(NnError::ShapeMismatch { expected, got });
            }
            i += 1;
        }
        t += 1;
    }
    proof {
        assert forall|q: int| 0 <= q < shapes@.len() implies #[trigger] shapes@[q]@.len() == shapes@[q].rank() by {
            assert(well_shaped(shapes@[q]));
        }
        lemma_no_mismatch(shapes@, axis as int, 1);
    }
    concat_checked(datas, shapes, axis)
}

/// Piece `c` of splitting `data` of shape `s` along `axis` into `chunks`:
/// from each row, the `c`-th run of `chunk * inner` elements.
pub open spec fn split_piece<T>(data: Seq<T>, s: Seq<usize>, axis: int, chunks: int, c: int) -> Seq<T> {
    let inner = inner_of(s, axis) as int;
    let chunk = (s[axis] as int) / chunks;
    columns(data, s[axis] * inner, c * chunk * inner, chunk * inner, outer_of(s, axis) as int)
}

proof fn lemma_chunk_fits(c: int, chunks: int, chunk: int, inner: int)
    requires
        0 <= c < chunks,
        0 <= chunk,
        0 <= inner,
    ensures
        0 <= c * (chunk * inner),
        c * (chunk * inner) + chunk * inner <= chunks * chunk * inner,
        c * (chunk * inner) == c * chunk * inner,
{
    assert(0 <= c * (chunk * inner)) by (nonlinear_arith)
        requires
            0 <= c,
            0 <= chunk * inner,
    ;
    assert(c * (chunk * inner) + chunk * inner == (c + 1) * (chunk * inner)) by (nonlinear_arith);
    assert((c + 1) * (chunk * inner) <= chunks * (chunk * inner)) by (nonlinear_arith)
        requires
            c + 1 <= chunks,
            0 <= chunk * inner,
    ;
    assert(chunks * (chunk * inner) == chunks * chunk * inner) by (nonlinear_arith);
    assert(c * (chunk * inner) == c * chunk * inner) by (nonlinear_arith);
}

/// Split `data`, of shape `shape`, along `axis` into `chunks` equal pieces.
pub fn split_parts<T: Copy>(data: &[T], shape: Shape, axis: usize, chunks: usize) -> (r: NnResult<
    Vec<(Vec<T>, Shape)>,
>)
    requires
        data@.len() == product(shape@),
    ensures
        axis >= shape.rank() ==> r == Err::<Vec<(Vec<T>, Shape)>, NnError>(
            NnError::InvalidAxis { axis, ndim: shape.rank() },
        ),
        axis < shape.rank() && !multiple_of(shape@[axis as int], chunks) ==> (r matches Err(
            NnError::DivisibilityError { what, numerator, denominator },
        ) && what@ == "split axis "@ + decimal(axis as nat) && numerator == shape@[axis as int]
            && denominator == chunks),
        axis < shape.rank() && multiple_of(shape@[axis as int], chunks) ==> (r matches Ok(pieces)
            && pieces@.len() == chunks && forall|c: int|
            #![trigger pieces@[c]]
            0 <= c < chunks ==> pieces@[c].1.rank() == shape.rank() && pieces@[c].1@ == shape@.update(
                axis as int,
                (shape@[axis as int] / chunks) as usize,
            ) && pieces@[c].0@ == split_piece(data@, shape@, axis as int, chunks as int, c)),
{
    proof {
        use_type_invariant(&shape);
        shape.lemma_shape();
    }
    let nd = shape.ndim() as usize;
    if axis >= nd {
        return Err(NnError::InvalidAxis { axis, ndim: shape.ndim() });
    }
    let fd = shape.dims();
    let ghost f = shape@;
    let axis_size = fd[axis];
    let divisible = if chunks == 0 {
        axis_size == 0
    } else {
        axis_size % chunks == 0
    };
    if !divisible {
        let mut what = String::new();
        push_str(&mut what, "split axis ");
        push_decimal(&mut what, axis as u64);
        return Err(NnError::DivisibilityError { what, numerator: axis_size, denominator: chunks });
    }
    proof {
        assert forall|k: int| 0 <= k < f.len() implies #[trigger] f[k] > 0 by {
            assert(f[k] == shape.all_dims()[k]);
        }
    }
    let chunk = axis_size / chunks;
    proof {
        assert(chunk * chunks == axis_size) by (nonlinear_arith)
            requires
                chunks > 0,
                axis_size % chunks == 0,
                chunk == axis_size / chunks,
        ;
        assert(chunk > 0) by (nonlinear_arith)
            requires
                chunk * chunks == axis_size,
                axis_size > 0,
                chunks > 0,
        ;
    }
    // Rows before the axis and elements per unit of the axis.
    let dlen = data.len();
    proof {
        lemma_run_product_le(f, 0, axis as int);
        lemma_run_product_le(f, axis + 1, nd as int);
        assert(f.subrange(0, axis as int) =~= f.take(axis as int));
        assert(f.subrange(axis + 1, nd as int) =~= f.skip(axis + 1));
    }
    let outer = run_product(fd, 0, axis);
    let inner = run_product(fd, axis + 1, nd);
    proof {
        lemma_product_around(f, axis as int);
        lemma_product_pos(f.take(axis as int));
        lemma_product_pos(f.skip(axis + 1));
        let x = axis_size as int;
        assert(outer * x * inner == outer * (x * inner)) by (nonlinear_arith);
        assert(x * inner <= outer * (x * inner)) by (nonlinear_arith)
            requires
                outer >= 1,
                x >= 0,
                inner >= 0,
        ;
        assert(chunk * inner <= x * inner) by (nonlinear_arith)
            requires
                chunk <= x,
                inner >= 0,
        ;
        assert(chunk <= x) by (nonlinear_arith)
            requires
                chunk * chunks == x,
                chunks >= 1,
                chunk >= 0,
        ;
    }
    let row = axis_size * inner;
    let width = chunk * inner;
    // The pieces' shape: the axis dimension becomes the chunk size.
    let d0 = if axis == 0 { chunk } else { fd[0] };
    let d1 = if axis == 1 { chunk } else { fd[1] };
    let d2 = if axis == 2 { chunk } else if 2 < nd { fd[2] } else { 1 };
    let d3 = if axis == 3 { chunk } else if 3 < nd { fd[3] } else { 1 };
    let piece_dims: [usize; 4] = [d0, d1, d2, d3];
    let ghost g = f.update(axis as int, chunk);
    proof {
        assert(piece_dims@.take(nd as int) =~= g);
        assert(valid_shape(piece_dims@, shape.rank())) by {
            assert forall|i: int| 0 <= i < shape.rank() implies #[trigger] piece_dims@[i] > 0 by {
                if i != axis {
                    assert(piece_dims@[i] == f[i]);
                }
            }
            assert forall|i: int| shape.rank() <= i < 4 implies #[trigger] piece_dims@[i] == 1 by {
            }
        }
    }
    let piece_shape = match Shape::new(piece_dims, shape.ndim()) {
        Ok(s) => s,
        Err(e) => {
            return Err(e);
        },
    };
    proof {
        use_type_invariant(&piece_shape);
        piece_shape.lemma_shape();
        assert(piece_shape@ =~= g);
    }
    let mut pieces: Vec<(Vec<T>, Shape)> = Vec::new();
    let mut c: usize = 0;
    while c < chunks
        invariant
            c <= chunks,
            pieces@.len() == c,
            chunk * chunks == axis_size,
            axis_size == f[axis as int],
            f == shape@,
            axis < nd,
            row == axis_size * inner,
            width == chunk * inner,
            outer == outer_of(f, axis as int),
            inner == inner_of(f, axis as int),
            chunk == (f[axis as int] as int) / (chunks as int),
            data@.len() == outer * row,
            piece_shape.rank() == shape.rank(),
            piece_shape@ == f.update(axis as int, chunk),
            forall|q: int|
                #![trigger pieces@[q]]
                0 <= q < c ==> pieces@[q].1 == piece_shape && pieces@[q].0@ == split_piece(
                    data@,
                    f,
                    axis as int,
                    chunks as int,
                    q,
                ),
        decreases chunks - c,
    {
        proof {
            lemma_chunk_fits(c as int, chunks as int, chunk as int, inner as int);
            assert(chunks * chunk * inner == row) by (nonlinear_arith)
                requires
                    chunk * chunks == axis_size,
                    row == axis_size * inner,
            ;
        }
        let off = c * width;
        let piece = take_columns(data, row, off, width, outer);
        pieces.push((piece, piece_shape));
        c += 1;
    }
    Ok(pieces)
}

// ---------------------------------------------------------------------------
// Concatenation undoes splitting
// ---------------------------------------------------------------------------

proof fn lemma_columns_len<T>(src: Seq<T>, row: int, off: int, w: int, n: int)
    requires
        0 <= off,
        0 <= w,
        off + w <= row,
        0 <= n,
        n * row <= src.len(),
    ensures
        columns(src, row, off, w, n).len() == n * w,
    decreases n,
{
    if n == 0 {
        assert(0 * w == 0) by (nonlinear_arith);
    } else {
        assert((n - 1) * row + row == n * row) by (nonlinear_arith);
        assert(0 <= (n - 1) * row) by (nonlinear_arith)
            requires
                n >= 1,
                row >= 0,
        ;
        assert((n - 1) * w + w == n * w) by (nonlinear_arith);
        lemma_columns_len(src, row, off, w, n - 1);
    }
}

proof fn lemma_columns_block<T>(src: Seq<T>, row: int, off: int, w: int, n: int, o: int)
    requires
        0 <= off,
        0 <= w,
        off + w <= row,
        0 <= o < n,
        n * row <= src.len(),
    ensures
        block(columns(src, row, off, w, n), w, o) == src.subrange(o * row + off, o * row + off + w),
    decreases n,
{
    let prev = columns(src, row, off, w, n - 1);
    let last = src.subrange((n - 1) * row + off, (n - 1) * row + off + w);
    assert((n - 1) * row + row == n * row) by (nonlinear_arith);
    assert(0 <= (n - 1) * row) by (nonlinear_arith)
        requires
            n >= 1,
            row >= 0,
    ;
    lemma_columns_len(src, row, off, w, n - 1);
    assert(columns(src, row, off, w, n) == prev + last);
    assert((n - 1) * w + w == n * w) by (nonlinear_arith);
    assert(o * w + w == (o + 1) * w) by (nonlinear_arith);
    if o == n - 1 {
        assert((prev + last).subrange(o * w, (o + 1) * w) =~= last);
    } else {
        assert((o + 1) * w <= (n - 1) * w) by (nonlinear_arith)
            requires
                o + 1 <= n - 1,
                w >= 0,
        ;
        assert(0 <= o * w) by (nonlinear_arith)
            requires
                o >= 0,
                w >= 0,
        ;
        assert((prev + last).subrange(o * w, (o + 1) * w) =~= prev.subrange(o * w, (o + 1) * w));
        assert((n - 1) * row <= src.len());
        lemma_columns_block(src, row, off, w, n - 1, o);
    }
}

proof fn lemma_row_of_split<T>(parts: Seq<Seq<T>>, widths: Seq<usize>, data: Seq<T>, row: int, w: int, outer: int, o: int, k: int)
    requires
        0 <= w,
        0 <= o < outer,
        outer * row <= data.len(),
        0 <= k <= parts.len(),
        parts.len() == widths.len(),
        parts.len() * w == row,
        forall|c: int| 0 <= c < parts.len() ==> #[trigger] widths[c] == w,
        forall|c: int| 0 <= c < parts.len() ==> #[trigger] parts[c] == columns(data, row, c * w, w, outer),
    ensures
        row_of(parts, widths, o, k) == data.subrange(o * row, o * row + k * w),
    decreases k,
{
    let n = parts.len() as int;
    assert(o * row + row == (o + 1) * row) by (nonlinear_arith);
    assert((o + 1) * row <= outer * row) by (nonlinear_arith)
        requires
            o + 1 <= outer,
            row >= 0,
    ;
    assert(0 <= o * row) by (nonlinear_arith)
        requires
            o >= 0,
            row >= 0,
    ;
    assert(k * w <= n * w) by (nonlinear_arith)
        requires
            k <= n,
            w >= 0,
    ;
    if k == 0 {
        assert(0 * w == 0) by (nonlinear_arith);
        assert(data.subrange(o * row, o * row) =~= Seq::<T>::empty());
    } else {
        lemma_row_of_split(parts, widths, data, row, w, outer, o, k - 1);
        let c = k - 1;
        assert(c * w + w == k * w) by (nonlinear_arith)
            requires
                c == k - 1,
        ;
        assert(0 <= c * w) by (nonlinear_arith)
            requires
                c >= 0,
                w >= 0,
        ;
        lemma_columns_block(data, row, c * w, w, outer, o);
        assert(row_of(parts, widths, o, k) == row_of(parts, widths, o, c) + block(parts[c], w, o));
        assert(data.subrange(o * row, o * row + c * w) + data.subrange(o * row + c * w, o * row + c * w + w)
            =~= data.subrange(o * row, o * row + k * w));
    }
}

proof fn lemma_interleave_split<T>(parts: Seq<Seq<T>>, widths: Seq<usize>, data: Seq<T>, row: int, w: int, outer: int, o: int)
    requires
        0 <= w,
        0 <= o <= outer,
        outer * row <= data.len(),
        parts.len() == widths.len(),
        parts.len() * w == row,
        forall|c: int| 0 <= c < parts.len() ==> #[trigger] widths[c] == w,
        forall|c: int| 0 <= c < parts.len() ==> #[trigger] parts[c] == columns(data, row, c * w, w, outer),
    ensures
        interleave(parts, widths, o) == data.subrange(0, o * row),
    decreases o,
{
    assert(0 <= row) by (nonlinear_arith)
        requires
            parts.len() * w == row,
            w >= 0,
    ;
    if o == 0 {
        assert(0 * row == 0) by (nonlinear_arith);
        assert(data.subrange(0, 0) =~= Seq::<T>::empty());
    } else {
        lemma_interleave_split(parts, widths, data, row, w, outer, o - 1);
        lemma_row_of_split(parts, widths, data, row, w, outer, o - 1, parts.len() as int);
        assert((o - 1) * row + row == o * row) by (nonlinear_arith);
        assert(o * row <= outer * row) by (nonlinear_arith)
            requires
                o <= outer,
                row >= 0,
        ;
        assert(0 <= (o - 1) * row) by (nonlinear_arith)
            requires
                o >= 1,
                row >= 0,
        ;
        assert(data.subrange(0, (o - 1) * row) + data.subrange((o - 1) * row, (o - 1) * row + row)
            =~= data.subrange(0, o * row));
    }
}

proof fn lemma_same_dims_no_diff(s: Seq<usize>, axis: int, i: int)
    requires
        0 <= i,
    ensures
        first_dim_diff(s, s, axis, i) is None,
    decreases s.len() - i,
{
    if i < s.len() {
        lemma_same_dims_no_diff(s, axis, i + 1);
    }
}

proof fn lemma_equal_shapes_fit(ps: Seq<Shape>, axis: int, t: int)
    requires
        1 <= t,
        forall|c: int| #![trigger ps[c]] 0 <= c < ps.len() ==> ps[c].rank() == ps[0].rank() && ps[c]@ == ps[0]@,
    ensures
        first_mismatch(ps, axis, t) is None,
    decreases ps.len() - t,
{
    if t < ps.len() {
        assert(ps[t].rank() == ps[0].rank() && ps[t]@ == ps[0]@);
        lemma_same_dims_no_diff(ps[0]@, axis, 0);
        lemma_equal_shapes_fit(ps, axis, t + 1);
    }
}

proof fn lemma_axis_sum_equal(ps: Seq<Shape>, axis: int, d: int, k: int)
    requires
        0 <= k <= ps.len(),
        forall|c: int| 0 <= c < ps.len() ==> #[trigger] ps[c]@[axis] == d,
    ensures
        axis_sum(ps, axis, k) == k * d,
    decreases k,
{
    if k == 0 {
        assert(0 * d == 0) by (nonlinear_arith);
    } else {
        lemma_axis_sum_equal(ps, axis, d, k - 1);
        assert((k - 1) * d + d == k * d) by (nonlinear_arith);
    }
}

/// Concatenation undoes splitting: the pieces that `split_parts` gives for
/// `data` of shape `s` fit one another off the axis, their axis dimensions
/// add up to that of `s`, so concatenating them along the same axis gives
/// back the shape `s` and the very elements of `data`.
pub proof fn law_concat_undoes_split<T>(data: Seq<T>, s: Shape, axis: usize, chunks: usize, ps: Seq<Shape>)
    requires
        well_shaped(s),
        data.len() == product(s@),
        product(s@) <= usize::MAX,
        0 <= axis < s.rank(),
        chunks > 0,
        multiple_of(s@[axis as int], chunks),
        ps.len() == chunks,
        forall|c: int| #![trigger ps[c]] 0 <= c < chunks ==> ps[c].rank() == s.rank() && ps[c]@ == s@.update(
            axis as int,
            ((s@[axis as int] as int) / (chunks as int)) as usize,
        ),
    ensures
        first_mismatch(ps, axis as int, 1) is None,
        axis_sum(ps, axis as int, chunks as int) == s@[axis as int],
        ps[0]@.update(axis as int, axis_sum(ps, axis as int, chunks as int) as usize) == s@,
        interleave(
            Seq::new(chunks as nat, |c: int| split_piece(data, s@, axis as int, chunks as int, c)),
            part_widths(ps, axis as int),
            outer_of(ps[0]@, axis as int) as int,
        ) == data,
{
    let axis = axis as int;
    let chunks = chunks as int;
    let f = s@;
    let x = f[axis] as int;
    let chunk = x / chunks;
    assert(chunk * chunks == x) by (nonlinear_arith)
        requires
            chunks > 0,
            x % chunks == 0,
            chunk == x / chunks,
    ;
    assert(0 <= chunk) by (nonlinear_arith)
        requires
            chunks > 0,
            x >= 0,
            chunk == x / chunks,
    ;
    let g = f.update(axis, chunk as usize);
    assert(ps[0]@ == g);
    assert forall|c: int| #![trigger ps[c]] 0 <= c < ps.len() implies ps[c].rank() == ps[0].rank() && ps[c]@ == ps[0]@ by {
        assert(ps[c]@ == g);
    }
    lemma_equal_shapes_fit(ps, axis, 1);
    assert forall|c: int| 0 <= c < ps.len() implies #[trigger] ps[c]@[axis] == chunk by {
        assert(ps[c]@ == g);
    }
    lemma_axis_sum_equal(ps, axis, chunk, chunks);
    assert(chunks * chunk == x) by (nonlinear_arith)
        requires
            chunk * chunks == x,
    ;
    assert(ps[0]@ == g);
    assert(g.update(axis, x as usize) =~= f);
    // Rows and widths.
    assert(g.take(axis) =~= f.take(axis));
    assert(g.skip(axis + 1) =~= f.skip(axis + 1));
    let outer = outer_of(f, axis) as int;
    let inner = inner_of(f, axis) as int;
    lemma_product_around(f, axis);
    let row = x * inner;
    let w = chunk * inner;
    assert(outer * x * inner == outer * row) by (nonlinear_arith)
        requires
            row == x * inner,
    ;
    assert(chunks * w == row) by (nonlinear_arith)
        requires
            chunk * chunks == x,
            w == chunk * inner,
            row == x * inner,
    ;
    assert(w <= row) by (nonlinear_arith)
        requires
            chunks * w == row,
            chunks >= 1,
            w >= 0,
    ;
    // Every dimension is positive, so a row is no longer than the data.
    assert forall|k: int| 0 <= k < f.len() implies #[trigger] f[k] > 0 by {
        assert(f[k] == s.all_dims()[k]);
    }
    lemma_product_pos(f.take(axis));
    assert(row <= outer * row) by (nonlinear_arith)
        requires
            outer >= 1,
            row >= 0,
    ;
    let widths = part_widths(ps, axis);
    assert forall|c: int| 0 <= c < widths.len() implies #[trigger] widths[c] == w by {
        assert(ps[c]@ == g);
    }
    let parts = Seq::new(chunks as nat, |c: int| split_piece(data, f, axis, chunks, c));
    assert forall|c: int| 0 <= c < parts.len() implies #[trigger] parts[c] == columns(data, row, c * w, w, outer) by {
        assert(c * chunk * inner == c * w) by (nonlinear_arith)
            requires
                w == chunk * inner,
        ;
    }
    lemma_interleave_split(parts, widths, data, row, w, outer, outer);
    assert(data.subrange(0, outer * row) =~= data);
}

// ---------------------------------------------------------------------------
// Swapping the two middle axes of `[outer, p, q, inner]`
// ---------------------------------------------------------------------------

/// Offset of element `(o, i, j, 0)` of a row-major `[_, p, q, inner]` array.
pub open spec fn run_start(p: int, q: int, inner: int, o: int, i: int, j: int) -> int {
    ((o * p + i) * q + j) * inner
}

/// For fixed `o` and `j`, the runs `(o, i, j, ..)` for `i` in `0..n`.
pub open spec fn runs_of<T>(src: Seq<T>, p: int, q: int, inner: int, o: int, j: int, n: int) -> Seq<T>
    decreases n,
{
    if n <= 0 {
        Seq::empty()
    } else {
        let st = run_start(p, q, inner, o, n - 1, j);
        runs_of(src, p, q, inner, o, j, n - 1) + src.subrange(st, st + inner)
    }
}

/// For fixed `o`, the runs of each `j` in `0..m` in turn.
pub open spec fn lanes_of<T>(src: Seq<T>, p: int, q: int, inner: int, o: int, m: int) -> Seq<T>
    decreases m,
{
    if m <= 0 {
        Seq::empty()
    } else {
        lanes_of(src, p, q, inner, o, m - 1) + runs_of(src, p, q, inner, o, m - 1, p)
    }
}

/// The first `n` outer blocks of `src` with its axes `p` and `q` swapped:
/// the result is row-major `[n, q, p, inner]`.
pub open spec fn swapped<T>(src: Seq<T>, p: int, q: int, inner: int, n: int) -> Seq<T>
    decreases n,
{
    if n <= 0 {
        Seq::empty()
    } else {
        swapped(src, p, q, inner, n - 1) + lanes_of(src, p, q, inner, n - 1, q)
    }
}

proof fn lemma_run_in_bounds(outer: int, p: int, q: int, inner: int, o: int, i: int, j: int)
    requires
        0 <= o < outer,
        0 <= i < p,
        0 <= j < q,
        0 < inner,
    ensures
        0 <= o * p,
        o * p + i <= outer * p,
        0 <= (o * p + i) * q,
        (o * p + i) * q + j <= outer * p * q,
        0 <= run_start(p, q, inner, o, i, j),
        run_start(p, q, inner, o, i, j) + inner <= outer * p * q * inner,
        outer * p <= outer * p * q,
        outer * p * q <= outer * p * q * inner,
{
    assert(outer * p <= outer * p * q) by (nonlinear_arith)
        requires
            0 <= outer,
            0 <= p,
            1 <= q,
    ;
    assert(outer * p * q <= outer * p * q * inner) by (nonlinear_arith)
        requires
            0 <= outer * p * q,
            1 <= inner,
    ;
    assert(0 <= o * p) by (nonlinear_arith)
        requires
            0 <= o,
            0 <= p,
    ;
    assert(o * p + p <= outer * p) by (nonlinear_arith)
        requires
            o + 1 <= outer,
            0 <= p,
    ;
    let a = o * p + i;
    assert(0 <= a * q) by (nonlinear_arith)
        requires
            0 <= a,
            0 <= q,
    ;
    assert(a * q + q <= outer * p * q) by (nonlinear_arith)
        requires
            a + 1 <= outer * p,
            0 <= q,
    ;
    let b = a * q + j;
    assert(0 <= b * inner) by (nonlinear_arith)
        requires
            0 <= b,
            0 <= inner,
    ;
    assert(b * inner + inner <= outer * p * q * inner) by (nonlinear_arith)
        requires
            b + 1 <= outer * p * q,
            0 <= inner,
    ;
}

/// `src`, row-major `[outer, p, q, inner]`, rearranged as
/// `[outer, q, p, inner]`.
pub fn swap_middle<T: Copy>(src: &[T], outer: usize, p: usize, q: usize, inner: usize) -> (out: Vec<T>)
    requires
        outer > 0,
        p > 0,
        q > 0,
        inner > 0,
        src@.len() == outer * p * q * inner,
    ensures
        out@ == swapped(src@, p as int, q as int, inner as int, outer as int),
{
    let mut out: Vec<T> = Vec::new();
    let mut o: usize = 0;
    while o < outer
        invariant
            o <= outer,
            p > 0,
            q > 0,
            inner > 0,
            src@.len() == outer * p * q * inner,
            out@ == swapped(src@, p as int, q as int, inner as int, o as int),
        decreases outer - o,
    {
        let mut j: usize = 0;
        while j < q
            invariant
                o < outer,
                j <= q,
                p > 0,
                q > 0,
                inner > 0,
                src@.len() == outer * p * q * inner,
                out@ == swapped(src@, p as int, q as int, inner as int, o as int) + lanes_of(
                    src@,
                    p as int,
                    q as int,
                    inner as int,
                    o as int,
                    j as int,
                ),
            decreases q - j,
        {
            let ghost lanes = swapped(src@, p as int, q as int, inner as int, o as int) + lanes_of(
                src@,
                p as int,
                q as int,
                inner as int,
                o as int,
                j as int,
            );
            let mut i: usize = 0;
            while i < p
                invariant
                    o < outer,
                    j < q,
                    i <= p,
                    p > 0,
                    q > 0,
                    inner > 0,
                    src@.len() == outer * p * q * inner,
                    out@ == lanes + runs_of(src@, p as int, q as int, inner as int, o as int, j as int, i as int),
                decreases p - i,
            {
                proof {
                    lemma_run_in_bounds(outer as int, p as int, q as int, inner as int, o as int, i as int, j as int);
                }
                let slen = src.len();
                let start = ((o * p + i) * q + j) * inner;
                let ghost base = out@;
                let mut k: usize = 0;
                while k < inner
                    invariant
                        k <= inner,
                        start + inner <= src@.len(),
                        src@.len() <= usize::MAX,
                        out@ == base + src@.subrange(start as int, start + k),
                    decreases inner - k,
                {
                    out.push(src[start + k]);
                    k += 1;
                    assert(out@ =~= base + src@.subrange(start as int, start + k));
                }
                i += 1;
                assert(out@ =~= lanes + runs_of(src@, p as int, q as int, inner as int, o as int, j as int, i as int));
            }
            j += 1;
            assert(out@ =~= swapped(src@, p as int, q as int, inner as int, o as int) + lanes_of(
                src@,
                p as int,
                q as int,
                inner as int,
                o as int,
                j as int,
            ));
        }
        o += 1;
        assert(out@ =~= swapped(src@, p as int, q as int, inner as int, o as int));
    }
    out
}

proof fn lemma_product_three(s: Seq<usize>)
    requires
        s.len() == 3,
    ensures
        product(s) == s[0] * s[1] * s[2],
{
    let s2 = s.drop_last();
    let s1 = s2.drop_last();
    let s0 = s1.drop_last();
    assert(s0.len() == 0);
    assert(product(s0) == 1);
    assert(s1.last() == s[0] && s2.last() == s[1]);
    assert(product(s1) == product(s0) * (s1.last() as nat));
    assert(product(s2) == product(s1) * (s2.last() as nat));
    assert(product(s) == product(s2) * (s.last() as nat));
}

proof fn lemma_product_four(s: Seq<usize>)
    requires
        s.len() == 4,
    ensures
        product(s) == s[0] * s[1] * s[2] * s[3],
{
    let s3 = s.drop_last();
    lemma_product_three(s3);
    assert(s3[0] == s[0] && s3[1] == s[1] && s3[2] == s[2]);
    assert(product(s) == product(s3) * (s.last() as nat));
}

/// Swap the last two axes of a rank-3 or rank-4 tensor.
pub fn transpose_last_two<T: Copy>(data: &[T], shape: Shape) -> (r: NnResult<(Vec<T>, Shape)>)
    requires
        data@.len() == product(shape@),
    ensures
        shape.rank() == 3 ==> (r matches Ok((out, s)) && s.rank() == 3 && s@ == seq![
            shape@[0],
            shape@[2],
            shape@[1],
        ] && out@ == swapped(data@, shape@[1] as int, shape@[2] as int, 1, shape@[0] as int)),
        shape.rank() == 4 ==> (r matches Ok((out, s)) && s.rank() == 4 && s@ == seq![
            shape@[0],
            shape@[1],
            shape@[3],
            shape@[2],
        ] && out@ == swapped(data@, shape@[2] as int, shape@[3] as int, 1, shape@[0] * shape@[1])),
        shape.rank() != 3 && shape.rank() != 4 ==> r == Err::<(Vec<T>, Shape), NnError>(
            NnError::UnsupportedRank { rank: shape.rank() },
        ),
{
    proof {
        use_type_invariant(&shape);
        shape.lemma_shape();
        assert forall|k: int| 0 <= k < shape@.len() implies #[trigger] shape@[k] > 0 by {
            assert(shape@[k] == shape.all_dims()[k]);
        }
    }
    let nd = shape.ndim();
    let d = shape.dims();
    let dlen = data.len();
    if nd == 3 {
        let (a, b, c) = (d[0], d[1], d[2]);
        proof {
            lemma_product_three(shape@);
            assert(a * b * c * 1 == a * b * c);
        }
        let out = swap_middle(data, a, b, c, 1);
        Ok((out, Shape::d3(a, c, b)))
    } else if nd == 4 {
        let (a, b, c, e) = (d[0], d[1], d[2], d[3]);
        proof {
            lemma_product_four(shape@);
            assert(a * b <= a * b * c * e) by (nonlinear_arith)
                requires
                    a >= 1,
                    b >= 1,
                    c >= 1,
                    e >= 1,
            ;
            assert((a * b) * c * e * 1 == a * b * c * e);
            assert(a * b >= 1) by (nonlinear_arith)
                requires
                    a >= 1,
                    b >= 1,
            ;
        }
        let ab = a * b;
        let out = swap_middle(data, ab, c, e, 1);
        Ok((out, Shape::d4(a, b, e, c)))
    } else {
        Err(NnError::UnsupportedRank { rank: nd })
    }
}

/// The first position of each sequence of a `[batch, seq, features]`
/// tensor, as `[batch, features]`.
pub fn cls_rows<T: Copy>(data: &[T], shape: Shape) -> (r: NnResult<(Vec<T>, Shape)>)
    requires
        data@.len() == product(shape@),
    ensures
        shape.rank() != 3 ==> r == Err::<(Vec<T>, Shape), NnError>(
            NnError::UnsupportedRank { rank: shape.rank() },
        ),
        shape.rank() == 3 ==> (r matches Ok((out, s)) && s.rank() == 2 && s@ == seq![shape@[0], shape@[2]]
            && out@ == columns(data@, shape@[1] * shape@[2], 0, shape@[2] as int, shape@[0] as int)),
{
    proof {
        use_type_invariant(&shape);
        shape.lemma_shape();
        assert forall|k: int| 0 <= k < shape@.len() implies #[trigger] shape@[k] > 0 by {
            assert(shape@[k] == shape.all_dims()[k]);
        }
    }
    let nd = shape.ndim();
    if nd != 3 {
        return Err(NnError::UnsupportedRank { rank: nd });
    }
    let d = shape.dims();
    let (b, s, f) = (d[0], d[1], d[2]);
    let dlen = data.len();
    proof {
        lemma_product_three(shape@);
        assert(s * f <= b * (s * f)) by (nonlinear_arith)
            requires
                b >= 1,
                s >= 1,
                f >= 1,
        ;
        assert(b * s * f == b * (s * f)) by (nonlinear_arith);
        assert(f <= s * f) by (nonlinear_arith)
            requires
                s >= 1,
                f >= 0,
        ;
    }
    let row = s * f;
    let out = take_columns(data, row, 0, f, b);
    Ok((out, Shape::d2(b, f)))
}

/// The first index at or after `i` that is not below `vocab`.
pub open spec fn first_bad_id(ids: Seq<u32>, vocab: int, i: int) -> Option<int>
    decreases ids.len() - i,
{
    if i < 0 || i >= ids.len() {
        None
    } else if ids[i] >= vocab {
        Some(i)
    } else {
        first_bad_id(ids, vocab, i + 1)
    }
}

/// Rows `ids[0..n]` of a table whose rows are `dim` elements long.
pub open spec fn gathered<T>(table: Seq<T>, dim: int, ids: Seq<u32>, n: int) -> Seq<T>
    decreases n,
{
    if n <= 0 {
        Seq::empty()
    } else {
        gathered(table, dim, ids, n - 1) + table.subrange(ids[n - 1] * dim, ids[n - 1] * dim + dim)
    }
}

/// The rows of a `[vocab, dim]` embedding table picked by `indices`, as
/// `[indices.len(), dim]`.
pub fn embedding_rows<T: Copy>(table: &[T], shape: Shape, indices: &[u32]) -> (r: NnResult<
    (Vec<T>, Shape),
>)
    requires
        table@.len() == product(shape@),
        shape.rank() == 2 ==> indices@.len() > 0 && indices@.len() * shape@[1] <= usize::MAX,
    ensures
        shape.rank() != 2 ==> (r matches Err(NnError::ShapeMismatch { expected, got }) && expected@
            == "rank-2 embedding table"@ && got@ == "rank-"@ + decimal(shape.rank() as nat)),
        shape.rank() == 2 ==> match first_bad_id(indices@, shape@[0] as int, 0) {
            Some(i) => (r matches Err(NnError::ShapeMismatch { expected, got }) && expected@
                == "token id < "@ + decimal(shape@[0] as nat) && got@ == "token id = "@ + decimal(
                indices@[i] as nat,
            )),
            None => (r matches Ok((out, s)) && s.rank() == 2 && s@ == seq![indices@.len() as usize, shape@[1]]
                && out@ == gathered(table@, shape@[1] as int, indices@, indices@.len() as int)),
        },
{
    proof {
        use_type_invariant(&shape);
        shape.lemma_shape();
        assert forall|k: int| 0 <= k < shape@.len() implies #[trigger] shape@[k] > 0 by {
            assert(shape@[k] == shape.all_dims()[k]);
        }
    }
    let nd = shape.ndim();
    if nd != 2 {
        let mut expected = String::new();
        push_str(&mut expected, "rank-2 embedding table");
        let mut got = String::new();
        push_str(&mut got, "rank-");
        push_decimal(&mut got, nd as u64);
        return Err(NnError::ShapeMismatch { expected, got });
    }
    let d = shape.dims();
    let vocab = d[0];
    let dim = d[1];
    let tlen = table.len();
    proof {
        let s1 = shape@.drop_last();
        let s0 = s1.drop_last();
        assert(s0.len() == 0);
        assert(product(s0) == 1);
        assert(s1.last() == vocab);
        assert(shape@.last() == dim);
        assert(product(s1) == product(s0) * (s1.last() as nat));
        assert(product(shape@) == product(s1) * (shape@.last() as nat));
        assert(table@.len() == vocab * dim);
    }
    let n = indices.len();
    let mut out: Vec<T> = Vec::new();
    let mut i: usize = 0;
    while i < n
        invariant
            i <= n,
            n == indices@.len(),
            table@.len() == vocab * dim,
            table@.len() <= usize::MAX,
            vocab > 0,
            shape.rank() == 2,
            vocab == shape@[0],
            dim == shape@[1],
            first_bad_id(indices@, vocab as int, 0) == first_bad_id(indices@, vocab as int, i as int),
            out@ == gathered(table@, dim as int, indices@, i as int),
        decreases n - i,
    {
        let id = indices[i] as usize;
        if id >= vocab {
            let mut expected = String::new();
            push_str(&mut expected, "token id < ");
            push_decimal(&mut expected, vocab as u64);
            let mut got = String::new();
            push_str(&mut got, "token id = ");
            push_decimal(&mut got, id as u64);
            return Err(NnError::ShapeMismatch { expected, got });
        }
        proof {
            assert(id * dim + dim <= vocab * dim) by (nonlinear_arith)
                requires
                    id + 1 <= vocab,
                    dim >= 0,
            ;
            assert(0 <= id * dim) by (nonlinear_arith)
                requires
                    id >= 0,
                    dim >= 0,
            ;
        }
        let start = id * dim;
        let ghost base = out@;
        let mut k: usize = 0;
        while k < dim
            invariant
                k <= dim,
                start + dim <= table@.len(),
                table@.len() <= usize::MAX,
                out@ == base + table@.subrange(start as int, start + k),
            decreases dim - k,
        {
            out.push(table[start + k]);
            k += 1;
            assert(out@ =~= base + table@.subrange(start as int, start + k));
        }
        i += 1;
        assert(out@ =~= gathered(table@, dim as int, indices@, i as int));
    }
    Ok((out, Shape::d2(n, dim)))
}

// ---------------------------------------------------------------------------
// Swapping twice restores the data
// ---------------------------------------------------------------------------

proof fn lemma_runs_at<T>(src: Seq<T>, outer: int, p: int, q: int, inner: int, o: int, j: int, n: int)
    requires
        0 <= o < outer,
        0 <= j < q,
        0 <= n <= p,
        0 < inner,
        src.len() == outer * p * q * inner,
    ensures
        runs_of(src, p, q, inner, o, j, n).len() == n * inner,
        forall|i: int, k: int|
            #![trigger runs_of(src, p, q, inner, o, j, n)[i * inner + k]]
            0 <= i < n && 0 <= k < inner ==> runs_of(src, p, q, inner, o, j, n)[i * inner + k] == src[run_start(
                p,
                q,
                inner,
                o,
                i,
                j,
            ) + k],
    decreases n,
{
    if n == 0 {
        assert(0 * inner == 0) by (nonlinear_arith);
    } else {
        lemma_runs_at(src, outer, p, q, inner, o, j, n - 1);
        lemma_run_in_bounds(outer, p, q, inner, o, n - 1, j);
        let prev = runs_of(src, p, q, inner, o, j, n - 1);
        let st = run_start(p, q, inner, o, n - 1, j);
        let last = src.subrange(st, st + inner);
        assert(runs_of(src, p, q, inner, o, j, n) == prev + last);
        assert((n - 1) * inner + inner == n * inner) by (nonlinear_arith);
        assert forall|i: int, k: int| 0 <= i < n && 0 <= k < inner implies #[trigger] runs_of(
            src,
            p,
            q,
            inner,
            o,
            j,
            n,
        )[i * inner + k] == src[run_start(p, q, inner, o, i, j) + k] by {
            if i < n - 1 {
                assert(i * inner + k < (n - 1) * inner) by (nonlinear_arith)
                    requires
                        i + 1 <= n - 1,
                        0 <= k < inner,
                        0 <= i,
                ;
                assert(0 <= i * inner) by (nonlinear_arith)
                    requires
                        0 <= i,
                        0 < inner,
                ;
            } else {
                assert(i * inner == (n - 1) * inner);
            }
        }
    }
}

proof fn lemma_lanes_at<T>(src: Seq<T>, outer: int, p: int, q: int, inner: int, o: int, m: int)
    requires
        0 <= o < outer,
        0 <= m <= q,
        0 < p,
        0 < inner,
        src.len() == outer * p * q * inner,
    ensures
        lanes_of(src, p, q, inner, o, m).len() == m * (p * inner),
        forall|j: int, i: int, k: int|
            #![trigger lanes_of(src, p, q, inner, o, m)[j * (p * inner) + i * inner + k]]
            0 <= j < m && 0 <= i < p && 0 <= k < inner ==> lanes_of(src, p, q, inner, o, m)[j * (p * inner) + i
                * inner + k] == src[run_start(p, q, inner, o, i, j) + k],
    decreases m,
{
    if m == 0 {
        assert(0 * (p * inner) == 0) by (nonlinear_arith);
    } else {
        lemma_lanes_at(src, outer, p, q, inner, o, m - 1);
        lemma_runs_at(src, outer, p, q, inner, o, m - 1, p);
        let prev = lanes_of(src, p, q, inner, o, m - 1);
        let last = runs_of(src, p, q, inner, o, m - 1, p);
        assert(lanes_of(src, p, q, inner, o, m) == prev + last);
        assert((m - 1) * (p * inner) + p * inner == m * (p * inner)) by (nonlinear_arith);
        assert forall|j: int, i: int, k: int| 0 <= j < m && 0 <= i < p && 0 <= k < inner implies #[trigger] lanes_of(
            src,
            p,
            q,
            inner,
            o,
            m,
        )[j * (p * inner) + i * inner + k] == src[run_start(p, q, inner, o, i, j) + k] by {
            assert(0 <= i * inner + k < p * inner) by (nonlinear_arith)
                requires
                    0 <= i < p,
                    0 <= k < inner,
            ;
            assert(0 <= j * (p * inner)) by (nonlinear_arith)
                requires
                    0 <= j,
                    0 < p * inner,
            ;
            if j < m - 1 {
                assert(j * (p * inner) + p * inner <= (m - 1) * (p * inner)) by (nonlinear_arith)
                    requires
                        j + 1 <= m - 1,
                        0 < p * inner,
                ;
            } else {
                assert(j * (p * inner) == (m - 1) * (p * inner));
                assert(last[i * inner + k] == src[run_start(p, q, inner, o, i, m - 1) + k]);
            }
        }
    }
}

/// Where element `(o, j, i, k)` of a `[n, q, p, inner]` array lies.
pub open spec fn swapped_index(p: int, q: int, inner: int, o: int, j: int, i: int, k: int) -> int {
    ((o * q + j) * p + i) * inner + k
}

/// Pointwise, `swapped` moves element `(o, i, j, k)` of `src`, seen as
/// `[outer, p, q, inner]`, to position `(o, j, i, k)` of `[outer, q, p, inner]`.
pub proof fn lemma_swapped_at<T>(src: Seq<T>, outer: int, p: int, q: int, inner: int, n: int)
    requires
        0 <= n <= outer,
        0 < p,
        0 < q,
        0 < inner,
        src.len() == outer * p * q * inner,
    ensures
        swapped(src, p, q, inner, n).len() == n * q * p * inner,
        forall|o: int, j: int, i: int, k: int|
            #![trigger swapped(src, p, q, inner, n)[swapped_index(p, q, inner, o, j, i, k)]]
            0 <= o < n && 0 <= j < q && 0 <= i < p && 0 <= k < inner ==> swapped(src, p, q, inner, n)[swapped_index(
                p,
                q,
                inner,
                o,
                j,
                i,
                k,
            )] == src[run_start(p, q, inner, o, i, j) + k],
    decreases n,
{
    let blk = q * (p * inner);
    assert(blk > 0) by (nonlinear_arith)
        requires
            0 < p,
            0 < q,
            0 < inner,
            blk == q * (p * inner),
    ;
    if n == 0 {
        assert(0 * q * p * inner == 0) by (nonlinear_arith);
    } else {
        lemma_swapped_at(src, outer, p, q, inner, n - 1);
        lemma_lanes_at(src, outer, p, q, inner, n - 1, q);
        let prev = swapped(src, p, q, inner, n - 1);
        let last = lanes_of(src, p, q, inner, n - 1, q);
        assert(swapped(src, p, q, inner, n) == prev + last);
        assert((n - 1) * q * p * inner == (n - 1) * blk) by (nonlinear_arith)
            requires
                blk == q * (p * inner),
        ;
        assert(n * q * p * inner == n * blk) by (nonlinear_arith)
            requires
                blk == q * (p * inner),
        ;
        assert((n - 1) * blk + blk == n * blk) by (nonlinear_arith);
        assert forall|o: int, j: int, i: int, k: int|
            0 <= o < n && 0 <= j < q && 0 <= i < p && 0 <= k < inner implies #[trigger] swapped(
            src,
            p,
            q,
            inner,
            n,
        )[swapped_index(p, q, inner, o, j, i, k)] == src[run_start(p, q, inner, o, i, j) + k] by {
            let w = j * (p * inner) + i * inner + k;
            assert(((o * q + j) * p + i) * inner + k == o * blk + w) by (nonlinear_arith)
                requires
                    blk == q * (p * inner),
                    w == j * (p * inner) + i * inner + k,
            ;
            assert(0 <= w < blk) by (nonlinear_arith)
                requires
                    0 <= j < q,
                    0 <= i < p,
                    0 <= k < inner,
                    w == j * (p * inner) + i * inner + k,
                    blk == q * (p * inner),
            ;
            if o < n - 1 {
                assert(o * blk + blk <= (n - 1) * blk) by (nonlinear_arith)
                    requires
                        o + 1 <= n - 1,
                        0 < blk,
                ;
                assert(0 <= o * blk) by (nonlinear_arith)
                    requires
                        0 <= o,
                        0 < blk,
                ;
            } else {
                assert(o * blk == (n - 1) * blk);
                assert(last[w] == src[run_start(p, q, inner, o, i, j) + k]);
            }
        }
    }
}

proof fn lemma_div_decompose(n: int, d: int, bound: int)
    requires
        0 < d,
        0 <= n < bound * d,
    ensures
        n == (n / d) * d + n % d,
        0 <= n % d < d,
        0 <= n / d < bound,
{
    vstd::arithmetic::div_mod::lemma_fundamental_div_mod(n, d);
    vstd::arithmetic::div_mod::lemma_mod_bound(n, d);
    let qt = n / d;
    let r = n % d;
    assert(qt * d == d * qt) by (nonlinear_arith);
    assert(0 <= qt < bound) by (nonlinear_arith)
        requires
            n == qt * d + r,
            0 <= r < d,
            0 <= n < bound * d,
            0 < d,
    ;
}

/// Swapping the middle axes back restores the data: rearranging a
/// row-major `[outer, p, q, inner]` array as `[outer, q, p, inner]` and
/// then rearranging that back gives the original elements, as merging
/// attention heads undoes their split.
pub proof fn law_swap_twice_restores<T>(src: Seq<T>, outer: int, p: int, q: int, inner: int)
    requires
        0 < outer,
        0 < p,
        0 < q,
        0 < inner,
        src.len() == outer * p * q * inner,
    ensures
        swapped(swapped(src, p, q, inner, outer), q, p, inner, outer) == src,
{
    let s1 = swapped(src, p, q, inner, outer);
    lemma_swapped_at(src, outer, p, q, inner, outer);
    assert(outer * q * p * inner == outer * p * q * inner) by (nonlinear_arith);
    lemma_swapped_at(s1, outer, q, p, inner, outer);
    let s2 = swapped(s1, q, p, inner, outer);
    assert forall|x: int| 0 <= x < src.len() implies #[trigger] s2[x] == src[x] by {
        let k = x % inner;
        let r1 = x / inner;
        assert(x < (outer * p * q) * inner) by (nonlinear_arith)
            requires
                x < outer * p * q * inner,
        ;
        lemma_div_decompose(x, inner, outer * p * q);
        assert(r1 < (outer * p) * q) by (nonlinear_arith)
            requires
                r1 < outer * p * q,
        ;
        lemma_div_decompose(r1, q, outer * p);
        let j = r1 % q;
        let r2 = r1 / q;
        lemma_div_decompose(r2, p, outer);
        let i = r2 % p;
        let o = r2 / p;
        assert(x == ((o * p + i) * q + j) * inner + k) by (nonlinear_arith)
            requires
                x == r1 * inner + k,
                r1 == r2 * q + j,
                r2 == o * p + i,
        ;
        assert(swapped_index(q, p, inner, o, i, j, k) == x);
        assert(s2[swapped_index(q, p, inner, o, i, j, k)] == s1[run_start(q, p, inner, o, j, i) + k]);
        assert(run_start(q, p, inner, o, j, i) + k == swapped_index(p, q, inner, o, j, i, k));
        assert(s1[swapped_index(p, q, inner, o, j, i, k)] == src[run_start(p, q, inner, o, i, j) + k]);
        assert(run_start(p, q, inner, o, i, j) + k == x);
    }
    assert(s2 =~= src);
}

} // verus!
