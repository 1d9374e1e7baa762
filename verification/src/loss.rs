//! Loss functions: mean squared error and categorical cross-entropy,
//! each with its scalar value and its gradient with respect to the
//! network's output. Cross-entropy clamps its argument into
//! `[1, SCALE]` raw units (that is, into `[0.000001, 1]`) before taking
//! the logarithm, so a zero output never reaches `ln`.

use vstd::prelude::*;
use crate::fixed::{
    add_fx, mul_fx, sub_fx, sdiv, clip, ln_fx, fx_add, fx_mul, fx_sub, fx_ln, sdiv_sat, SCALE,
};
use crate::linalg::ints;

verus! {

/// Which loss the network minimizes.
#[derive(Clone, Copy, PartialEq, Eq, Structural, Debug)]
pub enum LossFunction {
    MSE,
    CrossEntropy,
}

/// Accumulated squared error over the first `n` entries.
pub open spec fn sq_err_fx(o: Seq<int>, t: Seq<int>, n: nat) -> int
    decreases n,
{
    if n == 0 {
        0
    } else {
        add_fx(
            sq_err_fx(o, t, (n - 1) as nat),
            mul_fx(sub_fx(o[n - 1], t[n - 1]), sub_fx(o[n - 1], t[n - 1])),
        )
    }
}

/// A raw output clamped into `[1, SCALE]` before the logarithm.
pub open spec fn clamp_prob_fx(x: int) -> int {
    if x < 1 {
        1
    } else if x > SCALE as int {
        SCALE as int
    } else {
        x
    }
}

/// Accumulated cross-entropy over the first `n` entries:
/// the sum of `t[i] * (-ln o[i])`.
pub open spec fn ce_sum_fx(o: Seq<int>, t: Seq<int>, n: nat) -> int
    decreases n,
{
    if n == 0 {
        0
    } else {
        add_fx(ce_sum_fx(o, t, (n - 1) as nat), mul_fx(t[n - 1], -ln_fx(clamp_prob_fx(o[n - 1]))))
    }
}

/// The scalar loss: mean squared error, or categorical cross-entropy.
pub open spec fn loss_fx(l: LossFunction, o: Seq<int>, t: Seq<int>) -> int {
    match l {
        LossFunction::MSE => sdiv(sq_err_fx(o, t, o.len()), o.len() as int),
        LossFunction::CrossEntropy => ce_sum_fx(o, t, o.len()),
    }
}

/// The gradient of the loss with respect to the output: `2 (o - t) / n`
/// for mean squared error, `o - t` for cross-entropy (the combined
/// softmax-and-cross-entropy gradient).
pub open spec fn loss_grad_fx(l: LossFunction, o: Seq<int>, t: Seq<int>) -> Seq<int> {
    match l {
        LossFunction::MSE => Seq::new(
            o.len(),
            |i: int| clip(sdiv(2 * sub_fx(o[i], t[i]), o.len() as int)),
        ),
        LossFunction::CrossEntropy => Seq::new(o.len(), |i: int| sub_fx(o[i], t[i])),
    }
}

impl LossFunction {
    /// The scalar loss of an output against a target of the same length.
    pub fn getloss(&self, output: &Vec<i64>, target: &Vec<i64>) -> (r: i64)
        requires
            output.len() == target.len(),
        ensures
            r as int == loss_fx(*self, ints(output@), ints(target@)),
    {
        match self {
            LossFunction::MSE => {
                let mut acc: i64 = 0;
                let mut i: usize = 0;
                while i < output.len()
                    invariant
                        output.len() == target.len(),
                        0 <= i <= output.len(),
                        acc as int == sq_err_fx(ints(output@), ints(target@), i as nat),
                    decreases output.len() - i,
                {
                    let d: i64 = fx_sub(output[i], target[i]);
                    let sq: i64 = fx_mul(d, d);
                    acc = fx_add(acc, sq);
                    i = i + 1;
                }
                if output.len() == 0 {
                    return 0;
                }
                proof {
                    let a = acc as int;
                    let n = output.len() as int;
                    vstd::arithmetic::div_mod::lemma_div_is_ordered_by_denominator(
                        crate::fixed::iabs(a),
                        1,
                        n,
                    );
                    vstd::arithmetic::div_mod::lemma_div_basics(crate::fixed::iabs(a));
                    assert(clip(sdiv(a, n)) == sdiv(a, n));
                }
                sdiv_sat(acc as i128, output.len() as i128)
            },
            LossFunction::CrossEntropy => {
                let mut acc: i64 = 0;
                let mut i: usize = 0;
                while i < output.len()
                    invariant
                        output.len() == target.len(),
                        0 <= i <= output.len(),
                        acc as int == ce_sum_fx(ints(output@), ints(target@), i as nat),
                    decreases output.len() - i,
                {
                    let ov: i64 = output[i];
                    let p: i64 = if ov < 1 {
                        1
                    } else if ov > SCALE {
                        SCALE
                    } else {
                        ov
                    };
                    let lnv: i64 = fx_ln(p);
                    let term: i64 = fx_mul(target[i], -lnv);
                    acc = fx_add(acc, term);
                    i = i + 1;
                }
                acc
            },
        }
    }

    /// The gradient of the loss with respect to the output vector.
    pub fn backward(&self, output: &Vec<i64>, target: &Vec<i64>) -> (r: Vec<i64>)
        requires
            output.len() == target.len(),
        ensures
            ints(r@) == loss_grad_fx(*self, ints(output@), ints(target@)),
            r.len() == output.len(),
    {
        let mut out: Vec<i64> = Vec::new();
        match self {
            LossFunction::MSE => {
                let mut i: usize = 0;
                while i < output.len()
                    invariant
                        output.len() == target.len(),
                        0 <= i <= output.len(),
                        out.len() == i,
                        forall|p: int|
                            0 <= p < i ==> (#[trigger] out@[p]) as int == loss_grad_fx(
                                LossFunction::MSE,
                                ints(output@),
                                ints(target@),
                            )[p],
                    decreases output.len() - i,
                {
                    let d: i64 = fx_sub(output[i], target[i]);
                    let g: i64 = sdiv_sat(2 * (d as i128), output.len() as i128);
                    out.push(g);
                    i = i + 1;
                }
            },
            LossFunction::CrossEntropy => {
                let mut i: usize = 0;
                while i < output.len()
                    invariant
                        output.len() == target.len(),
                        0 <= i <= output.len(),
                        out.len() == i,
                        forall|p: int|
                            0 <= p < i ==> (#[trigger] out@[p]) as int == loss_grad_fx(
                                LossFunction::CrossEntropy,
                                ints(output@),
                                ints(target@),
                            )[p],
                    decreases output.len() - i,
                {
                    out.push(fx_sub(output[i], target[i]));
                    i = i + 1;
                }
            },
        }
        proof {
            assert(ints(out@) =~= loss_grad_fx(*self, ints(output@), ints(target@)));
        }
        out
    }
}

} // verus!
