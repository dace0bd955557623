//! Activation selection for architecture blocks.

use vstd::prelude::*;

use crate::nn::error::{NnError, NnResult};
use crate::text::{debug_str, push_str, str_debug, str_eq};

verus! {

/// Activation function selector, named in model metadata.
#[derive(Debug, Clone, Copy, PartialEq, Eq)]
pub enum Activation {
    /// GELU (tanh approximation).
    GeluTanh,
    /// ReLU.
    Relu,
}

/// The activation a metadata name selects, or the error message.
pub open spec fn activation_named(s: Seq<char>) -> Result<Activation, Seq<char>> {
    if s == "gelu"@ || s == "gelu_tanh"@ || s == "gelu_new"@ {
        Ok(Activation::GeluTanh)
    } else if s == "relu"@ {
        Ok(Activation::Relu)
    } else {
        Err("unknown activation: "@ + debug_str(s))
    }
}

impl Activation {
    /// Parse the name stored in model metadata.
    pub fn from_str(s: &str) -> (r: NnResult<Self>)
        ensures
            match activation_named(s@) {
                Ok(a) => r == Ok::<Activation, NnError>(a),
                Err(m) => (r matches Err(NnError::Format(t)) && t@ == m),
            },
            (s@ == "gelu"@ || s@ == "gelu_tanh"@ || s@ == "gelu_new"@) ==> r == Ok::<Activation, NnError>(
                Activation::GeluTanh,
            ),
            s@ == "relu"@ ==> r == Ok::<Activation, NnError>(Activation::Relu),
            !(s@ == "gelu"@ || s@ == "gelu_tanh"@ || s@ == "gelu_new"@ || s@ == "relu"@) ==> (r matches Err(
                NnError::Format(m),
            ) && m@ == "unknown activation: "@ + debug_str(s@)),
    {
        proof {
            reveal_strlit("gelu");
            reveal_strlit("gelu_tanh");
            reveal_strlit("gelu_new");
            reveal_strlit("relu");
            assert("relu"@[0] != "gelu"@[0]);
            assert("relu"@.len() != "gelu_tanh"@.len());
            assert("relu"@.len() != "gelu_new"@.len());
        }
        if str_eq(s, "gelu") || str_eq(s, "gelu_tanh") || str_eq(s, "gelu_new") {
            Ok(Activation::GeluTanh)
        } else if str_eq(s, "relu") {
            Ok(Activation::Relu)
        } else {
            let mut m = String::new();
            push_str(&mut m, "unknown activation: ");
            let d = str_debug(s);
            push_str(&mut m, d.as_str());
            Err(NnError::Format(m))
        }
    }
}

} // verus!
