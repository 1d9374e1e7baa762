//! Activation functions: identity, rectifier, logistic sigmoid and
//! softmax, each with a paired local derivative.
//!
//! One consistent convention holds throughout: the derivative is always
//! evaluated on the activation's own cached output, never on the raw
//! pre-activation input. The rectifier's derivative is one where the
//! output is positive; the sigmoid's is `y (1 - y)`; the softmax uses the
//! diagonal of its Jacobian, also `y (1 - y)`, as a simplification; the
//! identity's is one everywhere.

use vstd::prelude::*;
use crate::fixed::{
    add_fx, div_fx, exp_fx, mul_fx, sub_fx, fx_add, fx_div, fx_exp, fx_mul, fx_sub, SCALE,
};
use crate::linalg::{copy_vec, ints};
use crate::loss::LossFunction;

verus! {

/// Which transform a layer applies after its affine map.
#[derive(Clone, Copy, PartialEq, Eq, Structural, Debug)]
pub enum Activation {
    Identity,
    Relu,
    Sigmoid,
    Softmax,
}

/// The rectifier of a raw value.
pub open spec fn relu_fx(x: int) -> int {
    if x > 0 {
        x
    } else {
        0
    }
}

/// The logistic sigmoid of a raw value: `e^x / (1 + e^x)`.
pub open spec fn sigmoid_fx(x: int) -> int {
    div_fx(exp_fx(x), add_fx(SCALE as int, exp_fx(x)))
}

/// Saturating sum of the exponentials of the first `n` entries.
pub open spec fn softmax_sum_fx(x: Seq<int>, n: nat) -> int
    decreases n,
{
    if n == 0 {
        0
    } else {
        add_fx(softmax_sum_fx(x, (n - 1) as nat), exp_fx(x[n - 1]))
    }
}

/// The softmax of a vector: each exponential divided by their sum, with
/// no stabilizing shift of the inputs (arguments are clamped inside the
/// exponential instead).
pub open spec fn softmax_fx(x: Seq<int>) -> Seq<int> {
    Seq::new(x.len(), |i: int| div_fx(exp_fx(x[i]), softmax_sum_fx(x, x.len())))
}

/// The value an activation produces from a pre-activation vector.
pub open spec fn act_forward_fx(a: Activation, x: Seq<int>) -> Seq<int> {
    match a {
        Activation::Identity => x,
        Activation::Relu => Seq::new(x.len(), |i: int| relu_fx(x[i])),
        Activation::Sigmoid => Seq::new(x.len(), |i: int| sigmoid_fx(x[i])),
        Activation::Softmax => softmax_fx(x),
    }
}

/// The local derivative of an activation, evaluated at its own output `y`.
pub open spec fn act_backward_fx(a: Activation, y: Seq<int>) -> Seq<int> {
    match a {
        Activation::Identity => Seq::new(y.len(), |i: int| SCALE as int),
        Activation::Relu => Seq::new(
            y.len(),
            |i: int|
                if y[i] > 0 {
                    SCALE as int
                } else {
                    0
                },
        ),
        Activation::Sigmoid => Seq::new(y.len(), |i: int| mul_fx(y[i], sub_fx(SCALE as int, y[i]))),
        Activation::Softmax => Seq::new(y.len(), |i: int| mul_fx(y[i], sub_fx(SCALE as int, y[i]))),
    }
}

impl Activation {
    /// Applies the activation to a pre-activation vector.
    pub fn forward(&self, v: &Vec<i64>) -> (r: Vec<i64>)
        ensures
            ints(r@) == act_forward_fx(*self, ints(v@)),
            r.len() == v.len(),
    {
        match self {
            Activation::Identity => {
                let r = copy_vec(v);
                proof {
                    assert(ints(r@) =~= act_forward_fx(*self, ints(v@)));
                }
                r
            },
            Activation::Relu => {
                let mut out: Vec<i64> = Vec::new();
                let mut i: usize = 0;
                while i < v.len()
                    invariant
                        0 <= i <= v.len(),
                        out.len() == i,
                        forall|p: int|
                            0 <= p < i ==> (#[trigger] out@[p]) as int == relu_fx(ints(v@)[p]),
                    decreases v.len() - i,
                {
                    let x: i64 = v[i];
                    let y: i64 = if x > 0 {
                        x
                    } else {
                        0
                    };
                    out.push(y);
                    i = i + 1;
                }
                proof {
                    assert(ints(out@) =~= act_forward_fx(*self, ints(v@)));
                }
                out
            },
            Activation::Sigmoid => {
                let mut out: Vec<i64> = Vec::new();
                let mut i: usize = 0;
                while i < v.len()
                    invariant
                        0 <= i <= v.len(),
                        out.len() == i,
                        forall|p: int|
                            0 <= p < i ==> (#[trigger] out@[p]) as int == sigmoid_fx(ints(v@)[p]),
                    decreases v.len() - i,
                {
                    let e: i64 = fx_exp(v[i]);
                    let den: i64 = fx_add(SCALE, e);
                    let y: i64 = fx_div(e, den);
                    out.push(y);
                    i = i + 1;
                }
                proof {
                    assert(ints(out@) =~= act_forward_fx(*self, ints(v@)));
                }
                out
            },
            Activation::Softmax => {
                let mut exps: Vec<i64> = Vec::new();
                let mut i: usize = 0;
                while i < v.len()
                    invariant
                        0 <= i <= v.len(),
                        exps.len() == i,
                        forall|p: int|
                            0 <= p < i ==> (#[trigger] exps@[p]) as int == exp_fx(ints(v@)[p]),
                    decreases v.len() - i,
                {
                    exps.push(fx_exp(v[i]));
                    i = i + 1;
                }
                let mut sum: i64 = 0;
                let mut k: usize = 0;
                while k < exps.len()
                    invariant
                        exps.len() == v.len(),
                        0 <= k <= exps.len(),
                        forall|p: int|
                            0 <= p < exps.len() ==> (#[trigger] exps@[p]) as int == exp_fx(
                                ints(v@)[p],
                            ),
                        sum as int == softmax_sum_fx(ints(v@), k as nat),
                    decreases exps.len() - k,
                {
                    sum = fx_add(sum, exps[k]);
                    k = k + 1;
                }
                let mut out: Vec<i64> = Vec::new();
                let mut j: usize = 0;
                while j < exps.len()
                    invariant
                        exps.len() == v.len(),
                        0 <= j <= exps.len(),
                        out.len() == j,
                        forall|p: int|
                            0 <= p < exps.len() ==> (#[trigger] exps@[p]) as int == exp_fx(
                                ints(v@)[p],
                            ),
                        sum as int == softmax_sum_fx(ints(v@), v.len() as nat),
                        forall|p: int|
                            0 <= p < j ==> (#[trigger] out@[p]) as int == div_fx(
                                exp_fx(ints(v@)[p]),
                                softmax_sum_fx(ints(v@), v.len() as nat),
                            ),
                    decreases exps.len() - j,
                {
                    out.push(fx_div(exps[j], sum));
                    j = j + 1;
                }
                proof {
                    assert(ints(out@) =~= act_forward_fx(*self, ints(v@)));
                }
                out
            },
        }
    }

    /// The local derivative of the activation, evaluated at its own
    /// output `y`. The loss is accepted for interface parity with the
    /// forward pass but plays no part in the value.
    pub fn backward(&self, y: &Vec<i64>, _loss: &LossFunction) -> (r: Vec<i64>)
        ensures
            ints(r@) == act_backward_fx(*self, ints(y@)),
            r.len() == y.len(),
    {
        let mut out: Vec<i64> = Vec::new();
        let mut i: usize = 0;
        while i < y.len()
            invariant
                0 <= i <= y.len(),
                out.len() == i,
                forall|p: int|
                    0 <= p < i ==> (#[trigger] out@[p]) as int == act_backward_fx(*self, ints(y@))[p],
            decreases y.len() - i,
        {
            let d: i64 = match self {
                Activation::Identity => SCALE,
                Activation::Relu => {
                    if y[i] > 0 {
                        SCALE
                    } else {
                        0
                    }
                },
                Activation::Sigmoid => fx_mul(y[i], fx_sub(SCALE, y[i])),
                Activation::Softmax => fx_mul(y[i], fx_sub(SCALE, y[i])),
            };
            out.push(d);
            i = i + 1;
        }
        proof {
            assert(ints(out@) =~= act_backward_fx(*self, ints(y@)));
        }
        out
    }
}

} // verus!
