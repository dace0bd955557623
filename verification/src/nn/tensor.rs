//! Tensor shapes: rank 2, 3 or 4, row-major.

use vstd::prelude::*;

use crate::nn::error::{NnError, NnResult};
use crate::text::{decimal, push_decimal, push_size_list, push_str, size_list};

verus! {

/// Product of `s`.
pub open spec fn product(s: Seq<usize>) -> nat
    decreases s.len(),
{
    if s.len() == 0 {
        1
    } else {
        product(s.drop_last()) * (s.last() as nat)
    }
}

/// A valid shape: rank 2..=4, active dimensions non-zero, inactive ones 1.
pub open spec fn valid_shape(dims: Seq<usize>, ndim: u8) -> bool {
    &&& dims.len() == 4
    &&& 2 <= ndim <= 4
    &&& forall|i: int| 0 <= i < ndim ==> #[trigger] dims[i] > 0
    &&& forall|i: int| ndim <= i < 4 ==> #[trigger] dims[i] == 1
}

/// Tensor shape with a fixed maximum rank of 4. Unused dimensions are 1.
#[derive(Debug, Clone, Copy, PartialEq, Eq, Hash)]
pub struct Shape {
    dims: [usize; 4],
    ndim: u8,
}

impl View for Shape {
    /// The active dimensions.
    type V = Seq<usize>;

    closed spec fn view(&self) -> Seq<usize> {
        self.dims@.take(self.ndim as int)
    }
}

impl Shape {
    #[verifier::type_invariant]
    pub closed spec fn well_formed(self) -> bool {
        valid_shape(self.dims@, self.ndim)
    }

    /// Number of active dimensions.
    pub closed spec fn rank(&self) -> u8 {
        self.ndim
    }

    /// All four dimensions, unused ones included.
    pub closed spec fn all_dims(&self) -> Seq<usize> {
        self.dims@
    }

    /// A shape always stores four dimensions.
    pub proof fn lemma_four_dims(&self)
        ensures
            self.all_dims().len() == 4,
    {
    }

    pub proof fn lemma_shape(&self)
        requires
            self.well_formed(),
        ensures
            valid_shape(self.all_dims(), self.rank()),
            self@ == self.all_dims().take(self.rank() as int),
            self@.len() == self.rank(),
    {
    }

    /// The 2-D shape `[d0, d1]`.
    pub fn d2(d0: usize, d1: usize) -> (s: Self)
        requires
            d0 > 0,
            d1 > 0,
        ensures
            s@ == seq![d0, d1],
            s.rank() == 2,
    {
        let s = Shape { dims: [d0, d1, 1, 1], ndim: 2 };
        assert(s.dims@.take(2) =~= seq![d0, d1]);
        s
    }

    /// The 3-D shape `[d0, d1, d2]`.
    pub fn d3(d0: usize, d1: usize, d2: usize) -> (s: Self)
        requires
            d0 > 0,
            d1 > 0,
            d2 > 0,
        ensures
            s@ == seq![d0, d1, d2],
            s.rank() == 3,
    {
        let s = Shape { dims: [d0, d1, d2, 1], ndim: 3 };
        assert(s.dims@.take(3) =~= seq![d0, d1, d2]);
        s
    }

    /// The 4-D shape `[d0, d1, d2, d3]`.
    pub fn d4(d0: usize, d1: usize, d2: usize, d3: usize) -> (s: Self)
        requires
            d0 > 0,
            d1 > 0,
            d2 > 0,
            d3 > 0,
        ensures
            s@ == seq![d0, d1, d2, d3],
            s.rank() == 4,
    {
        let s = Shape { dims: [d0, d1, d2, d3], ndim: 4 };
        assert(s.dims@.take(4) =~= seq![d0, d1, d2, d3]);
        s
    }

    /// A shape from raw dimensions, validating the rank and the dimensions.
    pub fn new(dims: [usize; 4], ndim: u8) -> (r: NnResult<Self>)
        ensures
            !(2 <= ndim <= 4) ==> r == Err::<Shape, NnError>(NnError::UnsupportedRank { rank: ndim }),
            2 <= ndim <= 4 ==> (r is Ok <==> valid_shape(dims@, ndim)),
            r matches Ok(s) ==> s.all_dims() == dims@ && s.rank() == ndim,
            2 <= ndim <= 4 && !valid_shape(dims@, ndim) ==> (r matches Err(NnError::Format(m)) && m@
                == bad_shape_message(dims@, ndim)),
    {
        if !(2 <= ndim && ndim <= 4) {
            return Err(NnError::UnsupportedRank { rank: ndim });
        }
        let mut i: usize = 0;
        while i < 4
            invariant
                i <= 4,
                2 <= ndim <= 4,
                dims@.len() == 4,
                forall|k: int| 0 <= k < i ==> !bad_dim(dims@, ndim, k),
            decreases 4 - i,
        {
            let d = dims[i];
            if i < ndim as usize {
                if d == 0 {
                    proof {
                        lemma_first_bad_dim(dims@, ndim, i as int);
                    }
                    let mut m = String::new();
                    push_str(&mut m, "shape dim ");
                    push_decimal(&mut m, i as u64);
                    push_str(&mut m, " is zero");
                    return Err(NnError::Format(m));
                }
            } else if d != 1 {
                proof {
                    lemma_first_bad_dim(dims@, ndim, i as int);
                }
                let mut m = String::new();
                push_str(&mut m, "inactive shape dim ");
                push_decimal(&mut m, i as u64);
                push_str(&mut m, " must be 1, got ");
                push_decimal(&mut m, d as u64);
                return Err(NnError::Format(m));
            }
            i += 1;
        }
        assert forall|k: int| 0 <= k < ndim implies #[trigger] dims@[k] > 0 by {
            assert(!bad_dim(dims@, ndim, k));
        }
        assert forall|k: int| ndim <= k < 4 implies #[trigger] dims@[k] == 1 by {
            assert(!bad_dim(dims@, ndim, k));
        }
        Ok(Shape { dims, ndim })
    }

    /// Number of active dimensions (2, 3, or 4).
    pub fn ndim(&self) -> (n: u8)
        ensures
            n == self.rank(),
            2 <= n <= 4,
    {
        proof {
            use_type_invariant(self);
        }
        self.ndim
    }

    /// Active dimension sizes.
    pub fn dims(&self) -> (d: &[usize])
        ensures
            d@ == self@,
    {
        proof {
            use_type_invariant(self);
        }
        let n = self.ndim as usize;
        let d = self.dims.as_slice();
        let r = slice_prefix(d, n);
        r
    }

    /// The shape as text: its dimensions as a list, `[2, 3]`.
    pub fn to_string(&self) -> (t: String)
        ensures
            t@ == size_list(self@),
    {
        let mut t = String::new();
        push_size_list(&mut t, self.dims());
        t
    }

    /// Total number of elements.
    pub fn numel(&self) -> (n: usize)
        requires
            product(self@) <= usize::MAX,
        ensures
            n == product(self@),
    {
        proof {
            use_type_invariant(self);
        }
        let n = self.ndim as usize;
        let mut p: usize = 1;
        let mut i: usize = 0;
        while i < n
            invariant
                i <= n,
                n == self.ndim,
                2 <= n <= 4,
                self.dims@.len() == 4,
                self@ == self.dims@.take(n as int),
                product(self@) <= usize::MAX,
                p == product(self@.take(i as int)),
                forall|k: int| 0 <= k < n ==> #[trigger] self.dims@[k] > 0,
            decreases n - i,
        {
            proof {
                assert(self@.take(i + 1).drop_last() =~= self@.take(i as int));
                lemma_product_prefix_le(self@, i + 1);
            }
            p = p * self.dims[i];
            i += 1;
        }
        assert(self@.take(n as int) =~= self@);
        p
    }

    /// Row-major strides: `strides()[i]` is the product of the active
    /// dimensions after `i`; unused positions hold 1.
    pub fn strides(&self) -> (s: [usize; 4])
        requires
            product(self@.skip(1)) <= usize::MAX,
        ensures
            forall|i: int| 0 <= i < self.rank() ==> #[trigger] s@[i] == product(self@.skip(i + 1)),
            forall|i: int| self.rank() <= i < 4 ==> #[trigger] s@[i] == 1,
            s@[self.rank() - 1] == 1,
            forall|i: int| 0 <= i < self.rank() - 1 ==> #[trigger] s@[i] == self@[i + 1] * s@[i + 1],
            self@[0] * s@[0] == product(self@),
    {
        proof {
            use_type_invariant(self);
        }
        let n = self.ndim as usize;
        let mut s: [usize; 4] = [1, 1, 1, 1];
        let mut i = n - 1;
        proof {
            assert(self@.skip(n as int) =~= Seq::<usize>::empty());
        }
        while i > 0
            invariant
                1 <= n <= 4,
                n == self.ndim,
                0 <= i < n,
                self@ == self.dims@.take(n as int),
                self.dims@.len() == 4,
                product(self@.skip(1)) <= usize::MAX,
                forall|k: int| i <= k < n ==> #[trigger] s@[k] == product(self@.skip(k + 1)),
                forall|k: int| n <= k < 4 ==> #[trigger] s@[k] == 1,
                forall|k: int| 0 <= k < n ==> #[trigger] self.dims@[k] > 0,
                s@.len() == 4,
            decreases i,
        {
            proof {
                assert forall|k: int| 0 <= k < self@.len() implies #[trigger] self@[k] > 0 by {
                    assert(self@[k] == self.dims@[k]);
                }
                lemma_product_skip_step(self@, i as int);
                let tail = self@.skip(1);
                assert forall|k: int| 0 <= k < tail.len() implies #[trigger] tail[k] > 0 by {
                    assert(tail[k] == self@[k + 1]);
                }
                lemma_product_suffix_le(tail, i - 1);
                assert(tail.skip(i - 1) =~= self@.skip(i as int));
                assert(self@[i as int] == self.dims@[i as int]);
            }
            let v = self.dims[i] * s[i];
            s[i - 1] = v;
            i -= 1;
        }
        proof {
            let d = self@;
            assert(d.len() == n);
            assert(d.skip(n as int) =~= Seq::<usize>::empty());
            assert forall|k: int| 0 <= k < n - 1 implies #[trigger] s@[k] == d[k + 1] * s@[k + 1] by {
                lemma_product_skip_step(d, k + 1);
            }
            lemma_product_skip_step(d, 0);
            assert(d.skip(0) =~= d);
        }
        s
    }
}

/// A dimension that breaks the shape rules.
pub open spec fn bad_dim(dims: Seq<usize>, ndim: u8, i: int) -> bool {
    if i < ndim { dims[i] == 0 } else { dims[i] != 1 }
}

/// The first dimension that breaks the shape rules.
/// Why `dims` is not a shape of rank `ndim`: its first active dimension
/// that is zero, or its first inactive one that is not 1.
pub open spec fn bad_shape_message(dims: Seq<usize>, ndim: u8) -> Seq<char> {
    let i = first_bad_dim(dims, ndim);
    if i < ndim {
        "shape dim "@ + decimal(i as nat) + " is zero"@
    } else {
        "inactive shape dim "@ + decimal(i as nat) + " must be 1, got "@ + decimal(dims[i] as nat)
    }
}

pub open spec fn first_bad_dim(dims: Seq<usize>, ndim: u8) -> int {
    choose|i: int| 0 <= i < 4 && bad_dim(dims, ndim, i) && forall|k: int| 0 <= k < i ==> !bad_dim(dims, ndim, k)
}

proof fn lemma_first_bad_dim(dims: Seq<usize>, ndim: u8, i: int)
    requires
        dims.len() == 4,
        0 <= i < 4,
        bad_dim(dims, ndim, i),
        forall|k: int| 0 <= k < i ==> !bad_dim(dims, ndim, k),
    ensures
        first_bad_dim(dims, ndim) == i,
{
    let j = first_bad_dim(dims, ndim);
    assert(0 <= j < 4 && bad_dim(dims, ndim, j) && forall|k: int| 0 <= k < j ==> !bad_dim(dims, ndim, k));
    if j < i {
        assert(!bad_dim(dims, ndim, j));
    }
    if i < j {
        assert(!bad_dim(dims, ndim, i));
    }
}

fn slice_prefix(d: &[usize], n: usize) -> (r: &[usize])
    requires
        n <= d@.len(),
    ensures
        r@ == d@.take(n as int),
{
    let (a, _) = d.split_at(n);
    assert(a@ =~= d@.take(n as int));
    a
}

pub proof fn lemma_product_prefix_le(s: Seq<usize>, i: int)
    requires
        0 <= i <= s.len(),
        forall|k: int| 0 <= k < s.len() ==> #[trigger] s[k] > 0,
    ensures
        product(s.take(i)) <= product(s),
    decreases s.len() - i,
{
    if i < s.len() {
        lemma_product_prefix_le(s, i + 1);
        assert(s.take(i + 1).drop_last() =~= s.take(i));
        let p = product(s.take(i));
        let x = s[i] as nat;
        assert(p * x >= p) by (nonlinear_arith)
            requires
                x >= 1,
        ;
    } else {
        assert(s.take(i) =~= s);
    }
}

proof fn lemma_product_cons(x: usize, s: Seq<usize>)
    ensures
        product(seq![x] + s) == (x as nat) * product(s),
    decreases s.len(),
{
    let w = seq![x] + s;
    if s.len() == 0 {
        assert(w.drop_last() =~= Seq::<usize>::empty());
        assert(w.last() == x);
        assert(product(w) == product(w.drop_last()) * (w.last() as nat));
        assert(product(w.drop_last()) == 1);
        assert(product(s) == 1);
        let a = x as nat;
        assert(1 * a == a * 1) by (nonlinear_arith);
    } else {
        assert(w.drop_last() =~= seq![x] + s.drop_last());
        assert(w.last() == s.last());
        assert(product(w) == product(w.drop_last()) * (w.last() as nat));
        lemma_product_cons(x, s.drop_last());
        let a = x as nat;
        let b = product(s.drop_last());
        let c = s.last() as nat;
        assert((a * b) * c == a * (b * c)) by (nonlinear_arith);
        assert(product(s) == b * c);
        assert(product(w) == (a * b) * c);
        assert(product(w) == a * product(s));
    }
}

proof fn lemma_product_skip_step(s: Seq<usize>, i: int)
    requires
        0 <= i < s.len(),
    ensures
        product(s.skip(i)) == (s[i] as nat) * product(s.skip(i + 1)),
{
    assert(s.skip(i) =~= seq![s[i]] + s.skip(i + 1));
    lemma_product_cons(s[i], s.skip(i + 1));
}

pub proof fn lemma_product_suffix_le(s: Seq<usize>, i: int)
    requires
        0 <= i <= s.len(),
        forall|k: int| 0 <= k < s.len() ==> #[trigger] s[k] > 0,
    ensures
        product(s.skip(i)) <= product(s),
    decreases i,
{
    if i == 0 {
        assert(s.skip(0) =~= s);
    } else {
        lemma_product_suffix_le(s, i - 1);
        lemma_product_skip_step(s, i - 1);
        let p = product(s.skip(i));
        let x = s[i - 1] as nat;
        assert(x * p >= p) by (nonlinear_arith)
            requires
                x >= 1,
        ;
    }
}

} // verus!
