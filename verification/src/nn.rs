//! Layers and the network: forward inference, manual backpropagation and
//! the gradient-descent training loop.
//!
//! A layer owns its weight matrix (shape `output_size x input_size`), its
//! bias vector, an activation tag, and two caches: `activationdata`, the
//! last activated output, and `activationgrad`, the last gradient the
//! backward pass computed for it. During the backward walk the upstream
//! gradient is threaded explicitly from layer to layer, from the loss at
//! the output back to the first layer; each layer's weights and biases
//! take one gradient-descent step.

use vstd::prelude::*;
use vstd::pervasive::VecAdditionalExecFns;
use crate::activation::{act_backward_fx, act_forward_fx, Activation};
use crate::fixed::{add_fx, mul_fx, fx_mul, fx_add, SCALE};
use crate::linalg::{
    copy_matrix, copy_vec, ints, matvec_fx, mscale_fx, msub_fx, multiply, scale_vec, subtract,
    vadd_fx, vscale_fx, vsub_fx, zeros, Matrix,
};
use crate::linalg::rand_entry_fx;
use crate::loss::{loss_fx, loss_grad_fx, LossFunction};
use crate::dataloader::DataLoader;

verus! {

/// A fully-connected layer with its activation and its two caches.
#[derive(Clone, PartialEq, Debug)]
pub struct Layer {
    pub input_size: usize,
    pub output_size: usize,
    pub weights: Matrix,
    pub biases: Vec<i64>,
    pub activation: Activation,
    pub activationdata: Vec<i64>,
    pub activationgrad: Vec<i64>,
}

impl Layer {
    /// Shape invariant: the weight matrix is `output_size x input_size`,
    /// and biases and the output cache have one entry per output. The
    /// gradient cache's length is not pinned: the backward pass stores
    /// the propagated gradient there, which has one entry per input.
    pub open spec fn wf(&self) -> bool {
        &&& self.weights.wf()
        &&& self.weights.nrows == self.output_size
        &&& self.weights.ncols == self.input_size
        &&& self.biases.len() == self.output_size
        &&& self.activationdata.len() == self.output_size
    }
}

/// What a layer returns from an input: the activation applied to
/// `weights * x + biases`.
#[verifier::opaque]
pub open spec fn layer_out(l: Layer, x: Seq<int>) -> Seq<int> {
    act_forward_fx(l.activation, vadd_fx(matvec_fx(l.weights@, x), ints(l.biases@)))
}

/// The per-weight gradient: entry `(j, k)` is the local derivative at
/// output `j`, times the upstream gradient at `j`, times input `k`.
#[verifier::opaque]
pub open spec fn wgrad_fx(l: Layer, x: Seq<int>, g: Seq<int>) -> Seq<Seq<int>> {
    let d = act_backward_fx(l.activation, ints(l.activationdata@));
    Seq::new(
        l.output_size as nat,
        |j: int| Seq::new(l.input_size as nat, |k: int| mul_fx(mul_fx(d[j], g[j]), x[k])),
    )
}

/// The per-bias gradient: the local derivative times the upstream gradient.
#[verifier::opaque]
pub open spec fn bgrad_fx(l: Layer, g: Seq<int>) -> Seq<int> {
    let d = act_backward_fx(l.activation, ints(l.activationdata@));
    Seq::new(l.output_size as nat, |j: int| mul_fx(d[j], g[j]))
}

/// Partial sum, over the first `n` outputs, of column `k` of the
/// propagated gradient: `w[j][k] * d[j] * g[j]`.
pub open spec fn agrad_entry_fx(w: Seq<Seq<int>>, d: Seq<int>, g: Seq<int>, k: int, n: nat) -> int
    decreases n,
{
    if n == 0 {
        0
    } else {
        add_fx(agrad_entry_fx(w, d, g, k, (n - 1) as nat), mul_fx(w[n - 1][k], mul_fx(d[n - 1], g[n - 1])))
    }
}

/// The gradient a layer hands to the layer before it: the transposed
/// weights applied to the local derivative times the upstream gradient.
#[verifier::opaque]
pub open spec fn agrad_fx(l: Layer, w: Seq<Seq<int>>, g: Seq<int>) -> Seq<int> {
    let d = act_backward_fx(l.activation, ints(l.activationdata@));
    Seq::new(
        l.input_size as nat,
        |k: int| agrad_entry_fx(w, d, g, k, l.output_size as nat),
    )
}

impl Layer {
    /// A layer with deterministically initialized weights in `(-1, 1)`,
    /// zero biases and zero-filled caches.
    pub fn new(input_size: usize, output_size: usize, activation: Activation) -> (r: Layer)
        ensures
            r.wf(),
            r.input_size == input_size,
            r.output_size == output_size,
            r.activation == activation,
            forall|i: int, j: int|
                0 <= i < output_size && 0 <= j < input_size ==> r.weights@[i][j] == rand_entry_fx(
                    output_size as nat,
                    input_size as nat,
                    i,
                    j,
                ),
            forall|i: int| 0 <= i < output_size ==> (#[trigger] r.biases@[i]) == 0,
            forall|i: int| 0 <= i < output_size ==> (#[trigger] r.activationdata@[i]) == 0,
            r.activationgrad.len() == output_size,
            forall|i: int| 0 <= i < output_size ==> (#[trigger] r.activationgrad@[i]) == 0,
    {
        Layer {
            input_size,
            output_size,
            weights: Matrix::rand(output_size, input_size),
            biases: zeros(output_size),
            activation,
            activationdata: zeros(output_size),
            activationgrad: zeros(output_size),
        }
    }

    /// Applies the weights and the activation to an input, caches the
    /// activated output in `activationdata`, and returns it. Only that
    /// cache changes.
    #[verifier::rlimit(100)]
    #[verifier::spinoff_prover]
    pub fn forward(&mut self, inputs: &Vec<i64>) -> (r: Vec<i64>)
        requires
            old(self).wf(),
            inputs.len() == old(self).input_size,
        ensures
            final(self).wf(),
            final(self).input_size == old(self).input_size,
            final(self).output_size == old(self).output_size,
            final(self).weights == old(self).weights,
            final(self).biases == old(self).biases,
            final(self).activation == old(self).activation,
            final(self).activationgrad == old(self).activationgrad,
            ints(final(self).activationdata@) == layer_out(*old(self), ints(inputs@)),
            ints(r@) == layer_out(*old(self), ints(inputs@)),
            r.len() == old(self).output_size,
    {
        proof {
            reveal(layer_out);
        }
        let z: Vec<i64> = match multiply(&self.weights, inputs) {
            Ok(v) => v,
            Err(_) => {
                proof {
                    assert(false);
                }
                Vec::new()
            },
        };
        let zb: Vec<i64> = match crate::linalg::add(&z, &self.biases) {
            Ok(v) => v,
            Err(_) => {
                proof {
                    assert(false);
                }
                Vec::new()
            },
        };
        let a: Vec<i64> = self.activation.forward(&zb);
        self.activationdata = a;
        copy_vec(&self.activationdata)
    }

    /// The gradient of the loss with respect to this layer's weights,
    /// from the layer's input, the upstream gradient, and the local
    /// derivative at the cached output.
    pub fn weight_grad_backwards(
        &self,
        inputs: &Vec<i64>,
        agradnext: &Vec<i64>,
        loss: &LossFunction,
    ) -> (r: Matrix)
        requires
            self.wf(),
            inputs.len() == self.input_size,
            agradnext.len() == self.output_size,
        ensures
            r.wf(),
            r.nrows == self.output_size,
            r.ncols == self.input_size,
            r@ == wgrad_fx(*self, ints(inputs@), ints(agradnext@)),
    {
        let d: Vec<i64> = self.activation.backward(&self.activationdata, loss);
        let ghost dv: Seq<int> = act_backward_fx(self.activation, ints(self.activationdata@));
        let mut data: Vec<Vec<i64>> = Vec::new();
        let mut j: usize = 0;
        while j < self.output_size
            invariant
                self.wf(),
                inputs.len() == self.input_size,
                agradnext.len() == self.output_size,
                d.len() == self.output_size,
                dv == act_backward_fx(self.activation, ints(self.activationdata@)),
                forall|p: int| 0 <= p < d.len() ==> (#[trigger] d@[p]) as int == dv[p],
                0 <= j <= self.output_size,
                data.len() == j,
                forall|p: int| 0 <= p < j ==> (#[trigger] data[p]).len() == self.input_size,
                forall|p: int, q: int|
                    0 <= p < j && 0 <= q < self.input_size ==> (#[trigger] data@[p]@[q]) as int
                        == mul_fx(mul_fx(dv[p], ints(agradnext@)[p]), ints(inputs@)[q]),
            decreases self.output_size - j,
        {
            let dg: i64 = fx_mul(d[j], agradnext[j]);
            let mut row: Vec<i64> = Vec::new();
            let mut k: usize = 0;
            while k < self.input_size
                invariant
                    self.wf(),
                    inputs.len() == self.input_size,
                    agradnext.len() == self.output_size,
                    0 <= j < self.output_size,
                    0 <= k <= self.input_size,
                    row.len() == k,
                    dg as int == mul_fx(dv[j as int], ints(agradnext@)[j as int]),
                    forall|q: int|
                        0 <= q < k ==> (#[trigger] row@[q]) as int == mul_fx(
                            mul_fx(dv[j as int], ints(agradnext@)[j as int]),
                            ints(inputs@)[q],
                        ),
                decreases self.input_size - k,
            {
                row.push(fx_mul(dg, inputs[k]));
                k = k + 1;
            }
            data.push(row);
            j = j + 1;
        }
        let r = Matrix { nrows: self.output_size, ncols: self.input_size, data };
        proof {
            reveal(wgrad_fx);
            assert forall|p: int|
                0 <= p < self.output_size implies r@[p] =~= wgrad_fx(
                *self,
                ints(inputs@),
                ints(agradnext@),
            )[p] by {
                assert(r@[p] == ints(r.data@[p]@));
            }
            assert(r@ =~~= wgrad_fx(*self, ints(inputs@), ints(agradnext@)));
        }
        r
    }

    /// The gradient of the loss with respect to this layer's biases: the
    /// local derivative at the cached output times the upstream gradient.
    /// The input is accepted for interface parity with the weight
    /// gradient but plays no part in the value.
    pub fn bias_grad_backwards(
        &self,
        _inputs: &Vec<i64>,
        agradnext: &Vec<i64>,
        loss: &LossFunction,
    ) -> (r: Vec<i64>)
        requires
            self.wf(),
            agradnext.len() == self.output_size,
        ensures
            ints(r@) == bgrad_fx(*self, ints(agradnext@)),
            r.len() == self.output_size,
    {
        let d: Vec<i64> = self.activation.backward(&self.activationdata, loss);
        let mut out: Vec<i64> = Vec::new();
        let mut j: usize = 0;
        while j < self.output_size
            invariant
                self.wf(),
                agradnext.len() == self.output_size,
                d.len() == self.output_size,
                forall|p: int|
                    0 <= p < d.len() ==> (#[trigger] d@[p]) as int == act_backward_fx(
                        self.activation,
                        ints(self.activationdata@),
                    )[p],
                0 <= j <= self.output_size,
                out.len() == j,
                forall|p: int|
                    0 <= p < j ==> (#[trigger] out@[p]) as int == mul_fx(
                        act_backward_fx(self.activation, ints(self.activationdata@))[p],
                        ints(agradnext@)[p],
                    ),
            decreases self.output_size - j,
        {
            out.push(fx_mul(d[j], agradnext[j]));
            j = j + 1;
        }
        proof {
            reveal(bgrad_fx);
            assert(ints(out@) =~= bgrad_fx(*self, ints(agradnext@)));
        }
        out
    }

    /// The gradient handed to the previous layer: for each input
    /// coordinate, the sum over outputs of `w[j][k]` times the local
    /// derivative times the upstream gradient.
    pub fn activation_grad(
        &self,
        weights: Matrix,
        agradnext: &Vec<i64>,
        loss: &LossFunction,
    ) -> (r: Vec<i64>)
        requires
            self.wf(),
            weights.wf(),
            weights.nrows == self.output_size,
            weights.ncols == self.input_size,
            agradnext.len() == self.output_size,
        ensures
            ints(r@) == agrad_fx(*self, weights@, ints(agradnext@)),
            r.len() == self.input_size,
    {
        let d: Vec<i64> = self.activation.backward(&self.activationdata, loss);
        let ghost dv: Seq<int> = act_backward_fx(self.activation, ints(self.activationdata@));
        let mut out: Vec<i64> = Vec::new();
        let mut k: usize = 0;
        while k < self.input_size
            invariant
                self.wf(),
                weights.wf(),
                weights.nrows == self.output_size,
                weights.ncols == self.input_size,
                agradnext.len() == self.output_size,
                d.len() == self.output_size,
                dv == act_backward_fx(self.activation, ints(self.activationdata@)),
                forall|p: int| 0 <= p < d.len() ==> (#[trigger] d@[p]) as int == dv[p],
                0 <= k <= self.input_size,
                out.len() == k,
                forall|q: int|
                    0 <= q < k ==> (#[trigger] out@[q]) as int == agrad_entry_fx(
                        weights@,
                        dv,
                        ints(agradnext@),
                        q,
                        self.output_size as nat,
                    ),
            decreases self.input_size - k,
        {
            let mut acc: i64 = 0;
            let mut j: usize = 0;
            while j < self.output_size
                invariant
                    self.wf(),
                    weights.wf(),
                    weights.nrows == self.output_size,
                    weights.ncols == self.input_size,
                    agradnext.len() == self.output_size,
                    d.len() == self.output_size,
                    dv == act_backward_fx(self.activation, ints(self.activationdata@)),
                    forall|p: int| 0 <= p < d.len() ==> (#[trigger] d@[p]) as int == dv[p],
                    0 <= k < self.input_size,
                    0 <= j <= self.output_size,
                    acc as int == agrad_entry_fx(
                        weights@,
                        dv,
                        ints(agradnext@),
                        k as int,
                        j as nat,
                    ),
                decreases self.output_size - j,
            {
                let t: i64 = fx_mul(d[j], agradnext[j]);
                let wt: i64 = fx_mul(weights.data[j][k], t);
                acc = fx_add(acc, wt);
                j = j + 1;
            }
            out.push(acc);
            k = k + 1;
        }
        proof {
            reveal(agrad_fx);
            assert(ints(out@) =~= agrad_fx(*self, weights@, ints(agradnext@)));
        }
        out
    }
}

/// The whole network: an ordered stack of layers and a loss function.
#[derive(Clone, PartialEq, Debug)]
pub struct Network {
    pub layers: Vec<Layer>,
    pub loss: LossFunction,
}

impl Network {
    /// Every layer is well formed and adjacent layers agree on their
    /// shared dimension.
    pub open spec fn wf(&self) -> bool {
        &&& forall|i: int| 0 <= i < self.layers.len() ==> (#[trigger] self.layers[i]).wf()
        &&& forall|i: int|
            0 <= i < self.layers.len() - 1 ==> (#[trigger] self.layers[i]).output_size
                == self.layers[i + 1].input_size
    }
}

/// The output of a stack of layers on an input, rightmost layer last.
#[verifier::opaque]
pub open spec fn net_out(ls: Seq<Layer>, x: Seq<int>) -> Seq<int>
    decreases ls.len(),
{
    if ls.len() == 0 {
        x
    } else {
        layer_out(ls.last(), net_out(ls.drop_last(), x))
    }
}

/// What layer `i` caches after a forward pass of the whole stack on `x`.
#[verifier::opaque]
pub open spec fn cache_at(ls: Seq<Layer>, x: Seq<int>, i: int) -> Seq<int> {
    net_out(ls.subrange(0, i + 1), x)
}

/// The input layer `i` consumed in the last forward pass: the network
/// input for the first layer, the previous layer's cache otherwise.
pub open spec fn in_of(ls: Seq<Layer>, x: Seq<int>, i: int) -> Seq<int> {
    if i == 0 {
        x
    } else {
        ints(ls[i - 1].activationdata@)
    }
}

/// The upstream gradient that reaches layer `i` in the backward walk:
/// the loss gradient at the last layer, and otherwise the gradient the
/// next layer propagated down.
#[verifier::opaque]
pub open spec fn upstream(ls: Seq<Layer>, lossf: LossFunction, t: Seq<int>, i: int) -> Seq<int>
    decreases ls.len() - i,
{
    if i >= ls.len() - 1 {
        loss_grad_fx(lossf, ints(ls[ls.len() - 1].activationdata@), t)
    } else {
        agrad_fx(ls[i + 1], ls[i + 1].weights@, upstream(ls, lossf, t, i + 1))
    }
}

/// A layer with the identity activation computes exactly the affine map
/// `weights * x + biases`.
pub proof fn lemma_identity_layer_forward(l: Layer, x: Seq<int>)
    requires
        l.activation == Activation::Identity,
    ensures
        layer_out(l, x) == vadd_fx(matvec_fx(l.weights@, x), ints(l.biases@)),
{
    reveal(layer_out);
}

/// Layer `b` is layer `a` after a forward pass of stack `ls` on input
/// `x`: only the output cache changed, and it holds `cache_at(ls, x, p)`.
pub open spec fn forwarded_layer_ok(a: Layer, b: Layer, ls: Seq<Layer>, x: Seq<int>, p: int) -> bool {
    &&& b.input_size == a.input_size
    &&& b.output_size == a.output_size
    &&& b.weights == a.weights
    &&& b.biases == a.biases
    &&& b.activation == a.activation
    &&& b.activationgrad == a.activationgrad
    &&& ints(b.activationdata@) == cache_at(ls, x, p)
    &&& b.wf()
}

/// Layer `b` is layer `a` after one backward step of stack `ls` on input
/// `x`, target `t` and learning rate `alpha`: weights and biases took one
/// gradient-descent step and the gradient cache holds what the layer
/// propagated; the output cache and the shape are untouched.
pub open spec fn stepped_layer_ok(
    a: Layer,
    b: Layer,
    ls: Seq<Layer>,
    lossf: LossFunction,
    x: Seq<int>,
    t: Seq<int>,
    alpha: int,
    p: int,
) -> bool {
    let g = upstream(ls, lossf, t, p);
    &&& b.input_size == a.input_size
    &&& b.output_size == a.output_size
    &&& b.activation == a.activation
    &&& b.activationdata@ == a.activationdata@
    &&& b.weights.wf()
    &&& b.weights.nrows == a.output_size
    &&& b.weights.ncols == a.input_size
    &&& b.weights@ == msub_fx(a.weights@, mscale_fx(alpha, wgrad_fx(a, in_of(ls, x, p), g)))
    &&& b.biases.len() == a.output_size
    &&& ints(b.biases@) == vsub_fx(ints(a.biases@), vscale_fx(alpha, bgrad_fx(a, g)))
    &&& b.activationgrad.len() == a.input_size
    &&& ints(b.activationgrad@) == agrad_fx(a, a.weights@, g)
    &&& b.wf()
}

/// Layer `b` has the shape and activation of layer `a`.
pub open spec fn same_shape(a: Layer, b: Layer) -> bool {
    &&& b.input_size == a.input_size
    &&& b.output_size == a.output_size
    &&& b.activation == a.activation
}

/// The vectors of a loader column as sequences of mathematical integers.
pub open spec fn loader_ints(d: Seq<Vec<i64>>) -> Seq<Seq<int>> {
    d.map_values(|v: Vec<i64>| ints(v@))
}

/// Stack `b` is stack `a` after one forward pass on input `x`.
pub open spec fn forward_related(a: Seq<Layer>, b: Seq<Layer>, x: Seq<int>) -> bool {
    &&& b.len() == a.len()
    &&& forall|p: int| 0 <= p < a.len() ==> #[trigger] forwarded_layer_ok(a[p], b[p], a, x, p)
}

/// Stack `b` is stack `a` after one backward step on input `x`, target
/// `t` and learning rate `alpha`.
pub open spec fn backward_related(
    a: Seq<Layer>,
    b: Seq<Layer>,
    lossf: LossFunction,
    x: Seq<int>,
    t: Seq<int>,
    alpha: int,
) -> bool {
    &&& b.len() == a.len()
    &&& forall|p: int|
        0 <= p < a.len() ==> #[trigger] stepped_layer_ok(a[p], b[p], a, lossf, x, t, alpha, p)
}

/// Marks a stack of layers considered as the intermediate state of a
/// training step; used as a matching aid in the quantifiers below.
pub open spec fn stack_marker(mid: Seq<Layer>) -> bool {
    true
}

/// One training step on one example: a forward pass, then a backward
/// step on its result. The intermediate stack is determined uniquely by
/// `forward_related`, which pins every field of every layer.
pub open spec fn step_related(
    a: Seq<Layer>,
    b: Seq<Layer>,
    lossf: LossFunction,
    x: Seq<int>,
    t: Seq<int>,
    alpha: int,
) -> bool {
    exists|mid: Seq<Layer>|
        #[trigger] stack_marker(mid) && forward_related(a, mid, x) && backward_related(
            mid,
            b,
            lossf,
            x,
            t,
            alpha,
        )
}

/// Stack `b` is stack `a` after training steps on the first `k` examples
/// of one epoch, in stored order.
pub open spec fn epoch_related(
    a: Seq<Layer>,
    b: Seq<Layer>,
    lossf: LossFunction,
    xs: Seq<Seq<int>>,
    ts: Seq<Seq<int>>,
    alpha: int,
    k: nat,
) -> bool
    decreases k,
{
    if k == 0 {
        b == a
    } else {
        exists|mid: Seq<Layer>|
            #[trigger] stack_marker(mid) && epoch_related(a, mid, lossf, xs, ts, alpha, (k - 1) as nat)
                && step_related(mid, b, lossf, xs[k - 1], ts[k - 1], alpha)
    }
}

proof fn lemma_epoch_step(
    a: Seq<Layer>,
    midw: Seq<Layer>,
    b: Seq<Layer>,
    lossf: LossFunction,
    xs: Seq<Seq<int>>,
    ts: Seq<Seq<int>>,
    alpha: int,
    k: nat,
)
    requires
        k >= 1,
        epoch_related(a, midw, lossf, xs, ts, alpha, (k - 1) as nat),
        step_related(midw, b, lossf, xs[k - 1], ts[k - 1], alpha),
    ensures
        epoch_related(a, b, lossf, xs, ts, alpha, k),
{
    assert(stack_marker(midw));
}

/// Stack `b`, with the recorded per-epoch `losses`, is what `e` full
/// epochs of training over all of `xs`/`ts` make of stack `a`: each
/// epoch folds one training step per example over the whole dataset,
/// and records the loss of the last example's cached output against its
/// label.
pub open spec fn trained(
    a: Seq<Layer>,
    b: Seq<Layer>,
    lossf: LossFunction,
    xs: Seq<Seq<int>>,
    ts: Seq<Seq<int>>,
    alpha: int,
    e: nat,
    losses: Seq<int>,
) -> bool
    decreases e,
{
    if e == 0 {
        b == a && losses.len() == 0
    } else {
        &&& losses.len() == e
        &&& losses.last() == loss_fx(lossf, ints(b[b.len() - 1].activationdata@), ts[ts.len() - 1])
        &&& exists|mid: Seq<Layer>|
            #[trigger] stack_marker(mid) && trained(
                a,
                mid,
                lossf,
                xs,
                ts,
                alpha,
                (e - 1) as nat,
                losses.drop_last(),
            ) && epoch_related(mid, b, lossf, xs, ts, alpha, xs.len())
    }
}

proof fn lemma_net_out_empty(ls: Seq<Layer>, x: Seq<int>)
    ensures
        net_out(ls.subrange(0, 0), x) == x,
{
    reveal(net_out);
    assert(ls.subrange(0, 0) =~= Seq::<Layer>::empty());
}

proof fn lemma_net_out_snoc(ls: Seq<Layer>, x: Seq<int>, i: int)
    requires
        0 <= i < ls.len(),
    ensures
        net_out(ls.subrange(0, i + 1), x) == layer_out(ls[i], net_out(ls.subrange(0, i), x)),
        cache_at(ls, x, i) == net_out(ls.subrange(0, i + 1), x),
{
    reveal(net_out);
    reveal(cache_at);
    assert(ls.subrange(0, i + 1).drop_last() =~= ls.subrange(0, i));
    assert(ls.subrange(0, i + 1).last() == ls[i]);
}

proof fn lemma_net_out_full(ls: Seq<Layer>, x: Seq<int>)
    ensures
        net_out(ls.subrange(0, ls.len() as int), x) == net_out(ls, x),
{
    assert(ls.subrange(0, ls.len() as int) =~= ls);
}

proof fn lemma_upstream_last(ls: Seq<Layer>, lossf: LossFunction, t: Seq<int>)
    requires
        ls.len() >= 1,
    ensures
        upstream(ls, lossf, t, ls.len() - 1) == loss_grad_fx(
            lossf,
            ints(ls[ls.len() - 1].activationdata@),
            t,
        ),
{
    reveal(upstream);
}

proof fn lemma_upstream_step(ls: Seq<Layer>, lossf: LossFunction, t: Seq<int>, i: int)
    requires
        0 <= i < ls.len() - 1,
    ensures
        upstream(ls, lossf, t, i) == agrad_fx(
            ls[i + 1],
            ls[i + 1].weights@,
            upstream(ls, lossf, t, i + 1),
        ),
{
    reveal(upstream);
}

proof fn lemma_forwarded_wf(ls0: Seq<Layer>, cur: Seq<Layer>, x: Seq<int>)
    requires
        ls0.len() == cur.len(),
        forall|p: int| 0 <= p < ls0.len() ==> (#[trigger] ls0[p]).wf(),
        forall|p: int|
            0 <= p < ls0.len() - 1 ==> (#[trigger] ls0[p]).output_size == ls0[p + 1].input_size,
        forall|p: int|
            0 <= p < ls0.len() ==> #[trigger] forwarded_layer_ok(ls0[p], cur[p], ls0, x, p),
    ensures
        forall|p: int| 0 <= p < cur.len() ==> (#[trigger] cur[p]).wf(),
        forall|p: int|
            0 <= p < cur.len() - 1 ==> (#[trigger] cur[p]).output_size == cur[p + 1].input_size,
{
    assert forall|p: int| 0 <= p < cur.len() implies (#[trigger] cur[p]).wf() by {
        assert(forwarded_layer_ok(ls0[p], cur[p], ls0, x, p));
    }
    assert forall|p: int|
        0 <= p < cur.len() - 1 implies (#[trigger] cur[p]).output_size == cur[p + 1].input_size by {
        assert(forwarded_layer_ok(ls0[p], cur[p], ls0, x, p));
        assert(forwarded_layer_ok(ls0[p + 1], cur[p + 1], ls0, x, p + 1));
    }
}

proof fn lemma_stepped_wf(
    ls0: Seq<Layer>,
    cur: Seq<Layer>,
    lossf: LossFunction,
    x: Seq<int>,
    t: Seq<int>,
    alpha: int,
)
    requires
        ls0.len() == cur.len(),
        forall|p: int| 0 <= p < ls0.len() ==> (#[trigger] ls0[p]).wf(),
        forall|p: int|
            0 <= p < ls0.len() - 1 ==> (#[trigger] ls0[p]).output_size == ls0[p + 1].input_size,
        forall|p: int|
            0 <= p < ls0.len() ==> #[trigger] stepped_layer_ok(
                ls0[p],
                cur[p],
                ls0,
                lossf,
                x,
                t,
                alpha,
                p,
            ),
    ensures
        forall|p: int| 0 <= p < cur.len() ==> (#[trigger] cur[p]).wf(),
        forall|p: int|
            0 <= p < cur.len() - 1 ==> (#[trigger] cur[p]).output_size == cur[p + 1].input_size,
{
    assert forall|p: int| 0 <= p < cur.len() implies (#[trigger] cur[p]).wf() by {
        assert(stepped_layer_ok(ls0[p], cur[p], ls0, lossf, x, t, alpha, p));
    }
    assert forall|p: int|
        0 <= p < cur.len() - 1 implies (#[trigger] cur[p]).output_size == cur[p + 1].input_size by {
        assert(stepped_layer_ok(ls0[p], cur[p], ls0, lossf, x, t, alpha, p));
        assert(stepped_layer_ok(ls0[p + 1], cur[p + 1], ls0, lossf, x, t, alpha, p + 1));
    }
}

proof fn lemma_trained_step(
    a: Seq<Layer>,
    midw: Seq<Layer>,
    b: Seq<Layer>,
    lossf: LossFunction,
    xs: Seq<Seq<int>>,
    ts: Seq<Seq<int>>,
    alpha: int,
    e: nat,
    losses: Seq<int>,
)
    requires
        e >= 1,
        losses.len() == e,
        losses.last() == loss_fx(lossf, ints(b[b.len() - 1].activationdata@), ts[ts.len() - 1]),
        trained(a, midw, lossf, xs, ts, alpha, (e - 1) as nat, losses.drop_last()),
        epoch_related(midw, b, lossf, xs, ts, alpha, xs.len()),
    ensures
        trained(a, b, lossf, xs, ts, alpha, e, losses),
{
    assert(stack_marker(midw));
}

impl Network {
    /// An empty network minimizing mean squared error.
    pub fn new() -> (r: Network)
        ensures
            r.wf(),
            r.layers.len() == 0,
            r.loss == LossFunction::MSE,
    {
        Network { layers: Vec::new(), loss: LossFunction::MSE }
    }

    /// Appends one layer to the stack.
    pub fn add_layer(&mut self, layer: Layer)
        ensures
            final(self).layers@ == old(self).layers@.push(layer),
            final(self).loss == old(self).loss,
    {
        self.layers.push(layer);
    }

    /// Appends a list of layers to the stack in order.
    pub fn add_layers(&mut self, layers: Vec<Layer>)
        ensures
            final(self).layers@ == old(self).layers@ + layers@,
            final(self).loss == old(self).loss,
    {
        let ghost orig: Seq<Layer> = layers@;
        let mut rest: Vec<Layer> = layers;
        while rest.len() > 0
            invariant
                rest.len() <= orig.len(),
                rest@ == orig.subrange(orig.len() - rest.len(), orig.len() as int),
                self.layers@ == old(self).layers@ + orig.subrange(
                    0,
                    orig.len() - rest.len(),
                ),
                self.loss == old(self).loss,
            decreases rest.len(),
        {
            let ghost done: int = orig.len() - rest@.len();
            let l: Layer = rest.remove(0);
            proof {
                assert(l == orig[done]);
                assert(rest@ =~= orig.subrange(done + 1, orig.len() as int));
                assert(old(self).layers@ + orig.subrange(0, done + 1) =~= (old(self).layers@
                    + orig.subrange(0, done)).push(orig[done]));
            }
            self.layers.push(l);
        }
        proof {
            assert(orig.subrange(0, orig.len() as int) =~= orig);
            assert(self.layers@ =~= old(self).layers@ + orig);
        }
    }

    /// Folds the input through every layer in order; each layer's cache
    /// is rewritten as a side effect, and the last layer's output is
    /// returned.
    #[verifier::rlimit(100)]
    #[verifier::spinoff_prover]
    pub fn forward(&mut self, inputs: &Vec<i64>) -> (r: Vec<i64>)
        requires
            old(self).wf(),
            old(self).layers.len() > 0 ==> inputs.len() == old(self).layers[0].input_size,
        ensures
            final(self).wf(),
            final(self).layers.len() == old(self).layers.len(),
            final(self).loss == old(self).loss,
            forall|i: int|
                0 <= i < old(self).layers.len() ==> #[trigger] forwarded_layer_ok(
                    old(self).layers@[i],
                    final(self).layers@[i],
                    old(self).layers@,
                    ints(inputs@),
                    i,
                ),
            ints(r@) == net_out(old(self).layers@, ints(inputs@)),
    {
        let r: Vec<i64> = forward_pass(&mut self.layers, inputs);
        proof {
            lemma_forwarded_wf(old(self).layers@, self.layers@, ints(inputs@));
        }
        r
    }
}

/// The forward pass over a stack of layers, used by `Network::forward`.
#[verifier::rlimit(100)]
#[verifier::spinoff_prover]
fn forward_pass(layers: &mut Vec<Layer>, inputs: &Vec<i64>) -> (r: Vec<i64>)
    requires
        forall|p: int| 0 <= p < old(layers).len() ==> (#[trigger] old(layers)@[p]).wf(),
        forall|p: int|
            0 <= p < old(layers).len() - 1 ==> (#[trigger] old(layers)@[p]).output_size == old(
                layers,
            )@[p + 1].input_size,
        old(layers).len() > 0 ==> inputs.len() == old(layers)@[0].input_size,
    ensures
        final(layers).len() == old(layers).len(),
        forall|i: int|
            0 <= i < old(layers).len() ==> #[trigger] forwarded_layer_ok(
                old(layers)@[i],
                final(layers)@[i],
                old(layers)@,
                ints(inputs@),
                i,
            ),
        ints(r@) == net_out(old(layers)@, ints(inputs@)),
{
    let ghost ls0: Seq<Layer> = layers@;
    let ghost x: Seq<int> = ints(inputs@);
    let mut outputs: Vec<i64> = copy_vec(inputs);
    let n: usize = layers.len();
    proof {
        lemma_net_out_empty(ls0, x);
    }
    let mut i: usize = 0;
    while i < n
        invariant
            n == layers.len(),
            n == ls0.len(),
            0 <= i <= n,
            forall|p: int| i <= p < n ==> layers@[p] == ls0[p],
            forall|p: int| 0 <= p < n ==> (#[trigger] ls0[p]).wf(),
            forall|p: int|
                0 <= p < n - 1 ==> (#[trigger] ls0[p]).output_size == ls0[p + 1].input_size,
            n > 0 ==> x.len() == ls0[0].input_size,
            x == ints(inputs@),
            ints(outputs@) == net_out(ls0.subrange(0, i as int), x),
            outputs.len() == (if i == 0 {
                inputs.len() as int
            } else {
                ls0[i - 1].output_size as int
            }),
            forall|p: int|
                0 <= p < i ==> #[trigger] forwarded_layer_ok(ls0[p], layers@[p], ls0, x, p),
        decreases n - i,
    {
        let ghost pre: Seq<int> = net_out(ls0.subrange(0, i as int), x);
        let next: Vec<i64> = layers[i].forward(&outputs);
        proof {
            lemma_net_out_snoc(ls0, x, i as int);
            assert(ints(next@) == layer_out(ls0[i as int], pre));
        }
        outputs = next;
        i = i + 1;
    }
    proof {
        lemma_net_out_full(ls0, x);
    }
    outputs
}

impl Network {
    /// Thresholds an output vector: one where the entry is at least one
    /// half, zero below it.
    pub fn classify(&self, outputs: &Vec<i64>) -> (r: Vec<i64>)
        ensures
            r.len() == outputs.len(),
            forall|i: int|
                0 <= i < outputs.len() ==> (#[trigger] r@[i]) == (if outputs@[i] >= SCALE / 2 {
                    SCALE
                } else {
                    0
                }),
    {
        let mut out: Vec<i64> = Vec::new();
        let mut i: usize = 0;
        while i < outputs.len()
            invariant
                0 <= i <= outputs.len(),
                out.len() == i,
                forall|p: int|
                    0 <= p < i ==> (#[trigger] out@[p]) == (if outputs@[p] >= SCALE / 2 {
                        SCALE
                    } else {
                        0
                    }),
            decreases outputs.len() - i,
        {
            let v: i64 = if outputs[i] >= SCALE / 2 {
                SCALE
            } else {
                0
            };
            out.push(v);
            i = i + 1;
        }
        out
    }

    /// One backpropagation step on a single example: walks the layers
    /// from the last to the first, threading the upstream gradient down
    /// explicitly, and takes one gradient-descent step on every layer's
    /// weights and biases with learning rate `alpha`. Each layer's
    /// `activationgrad` cache records the gradient it propagated.
    #[verifier::rlimit(100)]
    #[verifier::spinoff_prover]
    pub fn backward(&mut self, inputs: &Vec<i64>, y_true: &Vec<i64>, alpha: i64)
        requires
            old(self).wf(),
            old(self).layers.len() >= 1,
            inputs.len() == old(self).layers[0].input_size,
            y_true.len() == old(self).layers[old(self).layers.len() - 1].output_size,
        ensures
            final(self).wf(),
            final(self).layers.len() == old(self).layers.len(),
            final(self).loss == old(self).loss,
            forall|p: int|
                0 <= p < old(self).layers.len() ==> #[trigger] stepped_layer_ok(
                    old(self).layers@[p],
                    final(self).layers@[p],
                    old(self).layers@,
                    old(self).loss,
                    ints(inputs@),
                    ints(y_true@),
                    alpha as int,
                    p,
                ),
    {
        let lossf: LossFunction = self.loss;
        backward_pass(&mut self.layers, lossf, inputs, y_true, alpha);
        proof {
            lemma_stepped_wf(
                old(self).layers@,
                self.layers@,
                old(self).loss,
                ints(inputs@),
                ints(y_true@),
                alpha as int,
            );
        }
    }
}

/// The backward walk over a stack of layers, used by `Network::backward`.
#[verifier::rlimit(100)]
#[verifier::spinoff_prover]
fn backward_pass(
    layers: &mut Vec<Layer>,
    lossf: LossFunction,
    inputs: &Vec<i64>,
    y_true: &Vec<i64>,
    alpha: i64,
)
    requires
        forall|p: int| 0 <= p < old(layers).len() ==> (#[trigger] old(layers)@[p]).wf(),
        forall|p: int|
            0 <= p < old(layers).len() - 1 ==> (#[trigger] old(layers)@[p]).output_size == old(
                layers,
            )@[p + 1].input_size,
        old(layers).len() >= 1,
        inputs.len() == old(layers)@[0].input_size,
        y_true.len() == old(layers)@[old(layers).len() - 1].output_size,
    ensures
        final(layers).len() == old(layers).len(),
        forall|p: int|
            0 <= p < old(layers).len() ==> #[trigger] stepped_layer_ok(
                old(layers)@[p],
                final(layers)@[p],
                old(layers)@,
                lossf,
                ints(inputs@),
                ints(y_true@),
                alpha as int,
                p,
            ),
{
    let ghost ls0: Seq<Layer> = layers@;
    let ghost x: Seq<int> = ints(inputs@);
    let ghost t: Seq<int> = ints(y_true@);
    let n: usize = layers.len();
    let mut g: Vec<i64> = lossf.backward(&layers[n - 1].activationdata, y_true);
    proof {
        lemma_upstream_last(ls0, lossf, t);
        assert(ints(g@) == upstream(ls0, lossf, t, n - 1));
    }
    let mut i: usize = n;
    while i > 0
        invariant
            n == layers.len(),
            n == ls0.len(),
            n >= 1,
            x == ints(inputs@),
            t == ints(y_true@),
            inputs.len() == ls0[0].input_size,
            y_true.len() == ls0[n - 1].output_size,
            forall|p: int| 0 <= p < n ==> (#[trigger] ls0[p]).wf(),
            forall|p: int|
                0 <= p < n - 1 ==> (#[trigger] ls0[p]).output_size == ls0[p + 1].input_size,
            0 <= i <= n,
            forall|p: int| 0 <= p < i ==> layers@[p] == ls0[p],
            i >= 1 ==> ints(g@) == upstream(ls0, lossf, t, i - 1),
            i >= 1 ==> g.len() == ls0[i - 1].output_size,
            forall|p: int|
                i <= p < n ==> #[trigger] stepped_layer_ok(
                    ls0[p],
                    layers@[p],
                    ls0,
                    lossf,
                    x,
                    t,
                    alpha as int,
                    p,
                ),
        decreases i,
    {
        i = i - 1;
        let ghost gr: Seq<int> = upstream(ls0, lossf, t, i as int);
        let input_i: Vec<i64> = if i == 0 {
            copy_vec(inputs)
        } else {
            copy_vec(&layers[i - 1].activationdata)
        };
        let wg: Matrix = layers[i].weight_grad_backwards(&input_i, &g, &lossf);
        let ag: Vec<i64> = layers[i].activation_grad(copy_matrix(&layers[i].weights), &g, &lossf);
        let bg: Vec<i64> = layers[i].bias_grad_backwards(&input_i, &g, &lossf);
        let scaled: Matrix = Matrix::scale(alpha, &wg);
        let neww: Matrix = match Matrix::sub(&layers[i].weights, &scaled) {
            Ok(m) => m,
            Err(_) => {
                proof {
                    assert(false);
                }
                Matrix::new(1, 1)
            },
        };
        let scaledb: Vec<i64> = scale_vec(alpha, &bg);
        let newb: Vec<i64> = match subtract(&layers[i].biases, &scaledb) {
            Ok(v) => v,
            Err(_) => {
                proof {
                    assert(false);
                }
                Vec::new()
            },
        };
        let updated: Layer = Layer {
            input_size: layers[i].input_size,
            output_size: layers[i].output_size,
            weights: neww,
            biases: newb,
            activation: layers[i].activation,
            activationdata: copy_vec(&layers[i].activationdata),
            activationgrad: copy_vec(&ag),
        };
        layers.set(i, updated);
        g = ag;
        proof {
            let ii = i as int;
            assert(stepped_layer_ok(ls0[ii], layers@[ii], ls0, lossf, x, t, alpha as int, ii));
            if i >= 1 {
                lemma_upstream_step(ls0, lossf, t, ii - 1);
            }
        }
    }
}

impl Network {
    /// Runs forward and backward over every example of the loader, in
    /// stored order, once per epoch, applying the update after each
    /// example; returns the loss of the last example's cached output
    /// against its label after each epoch. The whole run is pinned by
    /// `trained`: the final stack is the fold of one forward-and-backward
    /// step per example over `epochs` full epochs, and zero epochs leave
    /// the network untouched.
    #[verifier::rlimit(100)]
    #[verifier::spinoff_prover]
    pub fn train(&mut self, dataloader: &DataLoader, alpha: i64, epochs: usize) -> (losses: Vec<
        i64,
    >)
        requires
            old(self).wf(),
            old(self).layers.len() >= 1,
            dataloader.data.len() >= 1,
            dataloader.dims_ok(
                old(self).layers[0].input_size as nat,
                old(self).layers[old(self).layers.len() - 1].output_size as nat,
            ),
        ensures
            final(self).wf(),
            final(self).layers.len() == old(self).layers.len(),
            final(self).loss == old(self).loss,
            forall|p: int|
                0 <= p < old(self).layers.len() ==> #[trigger] same_shape(
                    old(self).layers@[p],
                    final(self).layers@[p],
                ),
            losses.len() == epochs,
            trained(
                old(self).layers@,
                final(self).layers@,
                old(self).loss,
                loader_ints(dataloader.data@),
                loader_ints(dataloader.labels@),
                alpha as int,
                epochs as nat,
                ints(losses@),
            ),
            epochs == 0 ==> *final(self) == *old(self),
    {
        let ghost ls0: Seq<Layer> = self.layers@;
        let ghost lossf: LossFunction = self.loss;
        let ghost xs: Seq<Seq<int>> = loader_ints(dataloader.data@);
        let ghost ts: Seq<Seq<int>> = loader_ints(dataloader.labels@);
        let n: usize = self.layers.len();
        let m: usize = dataloader.data.len();
        let mut losses: Vec<i64> = Vec::new();
        let mut e: usize = 0;
        while e < epochs
            invariant
                n == old(self).layers.len(),
                m == dataloader.data.len(),
                m >= 1,
                n >= 1,
                self.wf(),
                self.layers.len() == n,
                self.loss == old(self).loss,
                ls0 == old(self).layers@,
                lossf == old(self).loss,
                xs == loader_ints(dataloader.data@),
                ts == loader_ints(dataloader.labels@),
                dataloader.dims_ok(
                    old(self).layers[0].input_size as nat,
                    old(self).layers[n - 1].output_size as nat,
                ),
                forall|p: int|
                    0 <= p < n ==> #[trigger] same_shape(old(self).layers@[p], self.layers@[p]),
                0 <= e <= epochs,
                losses.len() == e,
                trained(ls0, self.layers@, lossf, xs, ts, alpha as int, e as nat, ints(losses@)),
                e == 0 ==> *self == *old(self),
            decreases epochs - e,
        {
            let ghost estart: Seq<Layer> = self.layers@;
            let ghost prelosses: Seq<int> = ints(losses@);
            let mut idx: usize = 0;
            proof {
                assert(epoch_related(estart, self.layers@, lossf, xs, ts, alpha as int, 0));
                assert(trained(ls0, estart, lossf, xs, ts, alpha as int, e as nat, prelosses));
            }
            while idx < m
                invariant
                    n == old(self).layers.len(),
                    m == dataloader.data.len(),
                    m >= 1,
                    n >= 1,
                    self.wf(),
                    self.layers.len() == n,
                    self.loss == old(self).loss,
                    ls0 == old(self).layers@,
                    lossf == old(self).loss,
                    xs == loader_ints(dataloader.data@),
                    ts == loader_ints(dataloader.labels@),
                    dataloader.dims_ok(
                        old(self).layers[0].input_size as nat,
                        old(self).layers[n - 1].output_size as nat,
                    ),
                    forall|p: int|
                        0 <= p < n ==> #[trigger] same_shape(
                            old(self).layers@[p],
                            self.layers@[p],
                        ),
                    0 <= idx <= m,
                    epoch_related(estart, self.layers@, lossf, xs, ts, alpha as int, idx as nat),
                decreases m - idx,
            {
                let ghost snap: Seq<Layer> = self.layers@;
                let ghost xi: Seq<int> = ints(dataloader.data@[idx as int]@);
                let ghost ti: Seq<int> = ints(dataloader.labels@[idx as int]@);
                proof {
                    assert(same_shape(old(self).layers@[0], self.layers@[0]));
                    assert(xs[idx as int] == xi);
                    assert(ts[idx as int] == ti);
                }
                let _out: Vec<i64> = self.forward(&dataloader.data[idx]);
                let ghost mid: Seq<Layer> = self.layers@;
                proof {
                    assert(forwarded_layer_ok(snap[n - 1], mid[n - 1], snap, xi, n - 1));
                    assert(forwarded_layer_ok(snap[0], mid[0], snap, xi, 0));
                    assert(same_shape(old(self).layers@[n - 1], snap[n - 1]));
                }
                self.backward(&dataloader.data[idx], &dataloader.labels[idx], alpha);
                proof {
                    assert forall|p: int| 0 <= p < n implies #[trigger] same_shape(
                        old(self).layers@[p],
                        self.layers@[p],
                    ) by {
                        assert(same_shape(old(self).layers@[p], snap[p]));
                        assert(forwarded_layer_ok(snap[p], mid[p], snap, xi, p));
                        assert(stepped_layer_ok(
                            mid[p],
                            self.layers@[p],
                            mid,
                            old(self).loss,
                            xi,
                            ti,
                            alpha as int,
                            p,
                        ));
                    }
                    assert(stack_marker(mid));
                    assert(forward_related(snap, mid, xi));
                    assert(backward_related(mid, self.layers@, lossf, xi, ti, alpha as int));
                    assert(step_related(snap, self.layers@, lossf, xi, ti, alpha as int));
                    assert((((idx + 1) as nat) - 1) as nat == idx as nat);
                    lemma_epoch_step(
                        estart,
                        snap,
                        self.layers@,
                        lossf,
                        xs,
                        ts,
                        alpha as int,
                        (idx + 1) as nat,
                    );
                }
                idx = idx + 1;
            }
            let last: usize = m - 1;
            proof {
                assert(same_shape(old(self).layers@[n - 1], self.layers@[n - 1]));
                assert(ts[last as int] == ints(dataloader.labels@[last as int]@));
            }
            let l: i64 = self.loss.getloss(
                &self.layers[n - 1].activationdata,
                &dataloader.labels[last],
            );
            losses.push(l);
            proof {
                assert(ints(losses@) =~= prelosses.push(l as int));
                assert(ints(losses@).drop_last() =~= prelosses);
                assert(xs.len() == m);
                assert(ts.len() == m);
                assert(trained(ls0, estart, lossf, xs, ts, alpha as int, e as nat, prelosses));
                assert((((e + 1) as nat) - 1) as nat == e as nat);
                assert(ints(losses@).drop_last() == prelosses);
                assert(epoch_related(estart, self.layers@, lossf, xs, ts, alpha as int, xs.len()));
                lemma_trained_step(
                    ls0,
                    estart,
                    self.layers@,
                    lossf,
                    xs,
                    ts,
                    alpha as int,
                    (e + 1) as nat,
                    ints(losses@),
                );
            }
            e = e + 1;
        }
        losses
    }
}

} // verus!
