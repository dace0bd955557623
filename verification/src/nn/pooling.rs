//! 2-D pooling layers (max and average): their construction and output size.

use vstd::prelude::*;

use crate::nn::error::{NnError, NnResult};
use crate::text::push_str;

verus! {

/// A pair of sizes for the two spatial dimensions.
pub type Hw = (usize, usize);

/// 2-D max-pooling.
#[derive(Debug, Clone, Copy)]
pub struct MaxPool2d {
    kernel: Hw,
    stride: Hw,
    padding: Hw,
}

/// 2-D average-pooling (padded positions count toward the divisor).
#[derive(Debug, Clone, Copy)]
pub struct AvgPool2d {
    kernel: Hw,
    stride: Hw,
    padding: Hw,
}

/// Kernel and stride are non-zero in both dimensions.
pub open spec fn valid_hw(kernel: Hw, stride: Hw) -> bool {
    kernel.0 > 0 && kernel.1 > 0 && stride.0 > 0 && stride.1 > 0
}

/// The message `check_hw` reports.
pub open spec fn hw_message(what: Seq<char>, kernel: Hw) -> Seq<char> {
    if kernel.0 == 0 || kernel.1 == 0 {
        what + ": kernel must be >= 1"@
    } else {
        what + ": stride must be >= 1"@
    }
}

/// Reject a zero kernel or stride.
pub fn check_hw(what: &str, kernel: Hw, stride: Hw) -> (r: NnResult<()>)
    ensures
        r is Ok <==> valid_hw(kernel, stride),
        r matches Err(e) ==> (e matches NnError::Format(m) && m@ == hw_message(what@, kernel)),
{
    if kernel.0 == 0 || kernel.1 == 0 {
        let mut m = String::new();
        push_str(&mut m, what);
        push_str(&mut m, ": kernel must be >= 1");
        return Err(NnError::Format(m));
    }
    if stride.0 == 0 || stride.1 == 0 {
        let mut m = String::new();
        push_str(&mut m, what);
        push_str(&mut m, ": stride must be >= 1");
        return Err(NnError::Format(m));
    }
    Ok(())
}

/// Output length of a pooled dimension, or `None` when the padded input
/// is shorter than the kernel (or its size overflows).
pub open spec fn pooled_len(input: nat, pad: nat, k: nat, stride: nat) -> Option<nat> {
    let padded = input + 2 * pad;
    if padded > usize::MAX || padded < k {
        None
    } else {
        Some(((padded - k) as nat) / stride + 1)
    }
}

pub fn out_size(input: usize, pad: usize, k: usize, stride: usize) -> (r: Option<usize>)
    requires
        stride > 0,
        stride > 1 || input + 2 * pad > usize::MAX || input + 2 * pad - k < usize::MAX,
    ensures
        r matches Some(n) ==> pooled_len(input as nat, pad as nat, k as nat, stride as nat) == Some(
            n as nat,
        ),
        r is None ==> pooled_len(input as nat, pad as nat, k as nat, stride as nat) is None,
{
    let twice = pad.checked_mul(2)?;
    let padded = input.checked_add(twice)?;
    let after_kernel = padded.checked_sub(k)?;
    proof {
        assert(after_kernel / stride <= after_kernel) by (nonlinear_arith)
            requires
                stride > 0,
        ;
        if stride > 1 {
            assert(after_kernel / stride < usize::MAX) by (nonlinear_arith)
                requires
                    stride > 1,
                    after_kernel <= usize::MAX,
            ;
        }
    }
    Some(after_kernel / stride + 1)
}

impl MaxPool2d {
    pub closed spec fn params(&self) -> (Hw, Hw, Hw) {
        (self.kernel, self.stride, self.padding)
    }

    /// Construct with kernel, stride and padding.
    pub fn new(kernel: Hw, stride: Hw, padding: Hw) -> (r: NnResult<Self>)
        ensures
            r is Ok <==> valid_hw(kernel, stride),
            r matches Ok(p) ==> p.params() == (kernel, stride, padding),
            r matches Err(e) ==> (e matches NnError::Format(m) && m@ == hw_message("MaxPool2d"@, kernel)),
    {
        check_hw("MaxPool2d", kernel, stride)?;
        Ok(MaxPool2d { kernel, stride, padding })
    }

    pub fn kernel(&self) -> (k: Hw)
        ensures
            k == self.params().0,
    {
        self.kernel
    }

    pub fn stride(&self) -> (s: Hw)
        ensures
            s == self.params().1,
    {
        self.stride
    }

    pub fn padding(&self) -> (p: Hw)
        ensures
            p == self.params().2,
    {
        self.padding
    }
}

impl AvgPool2d {
    pub closed spec fn params(&self) -> (Hw, Hw, Hw) {
        (self.kernel, self.stride, self.padding)
    }

    /// Construct with kernel, stride and padding.
    pub fn new(kernel: Hw, stride: Hw, padding: Hw) -> (r: NnResult<Self>)
        ensures
            r is Ok <==> valid_hw(kernel, stride),
            r matches Ok(p) ==> p.params() == (kernel, stride, padding),
            r matches Err(e) ==> (e matches NnError::Format(m) && m@ == hw_message("AvgPool2d"@, kernel)),
    {
        check_hw("AvgPool2d", kernel, stride)?;
        Ok(AvgPool2d { kernel, stride, padding })
    }

    pub fn kernel(&self) -> (k: Hw)
        ensures
            k == self.params().0,
    {
        self.kernel
    }

    pub fn stride(&self) -> (s: Hw)
        ensures
            s == self.params().1,
    {
        self.stride
    }

    pub fn padding(&self) -> (p: Hw)
        ensures
            p == self.params().2,
    {
        self.padding
    }
}

} // verus!
