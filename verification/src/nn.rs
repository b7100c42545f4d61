//! The feed-forward network built on the graph: neurons, layers, and the
//! multi-layer perceptron. Each `forward` call composes fresh graph nodes;
//! `parameters` exposes the persistent weight and bias leaves for a trainer.

use vstd::prelude::*;

verus! {

use crate::graph::{Op, Value, ValueTree};

/// An injected source of initial scalar words for fresh parameters. The
/// caller scripts it, usually with random draws in a symmetric range, which
/// keeps weight initialization outside the engine and tests deterministic.
pub struct InitSource {
    pub words: Vec<u64>,
    pub next: usize,
}

impl InitSource {
    /// Words not yet handed out.
    pub open spec fn remaining(self) -> int {
        self.words@.len() - self.next
    }

    pub fn new(words: Vec<u64>) -> (source: InitSource)
        ensures
            source.words@ == words@,
            source.next == 0,
    {
        InitSource { words, next: 0 }
    }

    /// Hands out the next scripted word.
    fn draw(&mut self) -> (w: u64)
        requires
            old(self).remaining() >= 1,
        ensures
            final(self).words@ == old(self).words@,
            final(self).next == old(self).next + 1,
            w == old(self).words@[old(self).next as int],
    {
        let total = self.words.len();
        let w = self.words[self.next];
        proof {
            assert(self.next < total);
        }
        self.next = self.next + 1;
        w
    }
}

/// A fresh parameter leaf holding the scalar word `d`.
pub open spec fn leaf_with(v: Value, d: u64) -> bool {
    &&& v.op is None
    &&& v.prev@.len() == 0
    &&& v.data == d
    &&& v.grad == 0
}

/// One neuron: the ids of its weight leaves, one per input, plus its bias
/// leaf. The nodes themselves live in the arena.
pub struct Neuron {
    pub weights: Vec<usize>,
    pub bias: usize,
}

/// All ids of the neuron point into the arena.
pub open spec fn neuron_wf(n: Neuron, s: Seq<Value>) -> bool {
    &&& forall|k: int| 0 <= k < n.weights@.len() ==> ((#[trigger] n.weights@[k]) as int) < s.len()
    &&& (n.bias as int) < s.len()
}

/// The parameter ids of a neuron: weights in input order, then the bias.
pub open spec fn neuron_params(n: Neuron) -> Seq<usize> {
    n.weights@.push(n.bias)
}

/// The first `upto` product nodes of a neuron forward pass stand built in
/// `cur`: node `l0 + j` is `weights[j] * xs[j]` under the caller's
/// multiplication closure, where `l0` is the arena length before the pass.
pub open spec fn products_built<FM: Fn(u64, u64) -> u64>(
    pre: Seq<Value>,
    cur: Seq<Value>,
    weights: Seq<usize>,
    xs: Seq<usize>,
    upto: int,
    fm: FM,
) -> bool {
    forall|j: int|
        0 <= j < upto ==> {
            let v = #[trigger] cur[pre.len() + j];
            &&& v.op == Some(Op::Mul)
            &&& v.prev@.len() == 2
            &&& v.prev@[0] == weights[j]
            &&& v.prev@[1] == xs[j]
            &&& v.grad == 0
            &&& call_ensures(fm, (pre[weights[j] as int].data, pre[xs[j] as int].data), v.data)
        }
}

/// The first `upto` sum nodes of a neuron forward pass stand built in
/// `cur`: node `l0 + m + j` folds the bias and the products left to right
/// under the caller's addition closure.
pub open spec fn sums_built<FA: Fn(u64, u64) -> u64>(
    bias: usize,
    l0: int,
    m: int,
    cur: Seq<Value>,
    upto: int,
    fa: FA,
) -> bool {
    forall|j: int|
        0 <= j < upto ==> {
            let v = #[trigger] cur[l0 + m + j];
            let left = if j == 0 {
                bias as int
            } else {
                l0 + m + j - 1
            };
            &&& v.op == Some(Op::Add)
            &&& v.prev@.len() == 2
            &&& v.prev@[0] as int == left
            &&& v.prev@[1] as int == l0 + j
            &&& v.grad == 0
            &&& call_ensures(fa, (cur[left].data, cur[l0 + j].data), v.data)
        }
}

/// What one `Neuron::forward` call appends to the arena, given the caller's
/// addition, multiplication and activation closures. With `m` inputs and a
/// prior arena of length `l0` it appends, in order: `m` product nodes
/// `weight_j * x_j`, then `m` sum nodes folding bias and products left to
/// right, then one tanh node over the final sum, which is the output.
pub open spec fn neuron_forward_spec<
    FA: Fn(u64, u64) -> u64,
    FM: Fn(u64, u64) -> u64,
    FT: Fn(u64) -> u64,
>(
    weights: Seq<usize>,
    bias: usize,
    pre: Seq<Value>,
    post: Seq<Value>,
    xs: Seq<usize>,
    out: usize,
    fa: FA,
    fm: FM,
    ft: FT,
) -> bool {
    let m = xs.len() as int;
    let l0 = pre.len() as int;
    &&& weights.len() == m
    &&& post.len() == l0 + 2 * m + 1
    &&& forall|i: int| 0 <= i < l0 ==> post[i] == pre[i]
    &&& products_built(pre, post, weights, xs, m, fm)
    &&& sums_built(bias, l0, m, post, m, fa)
    &&& ({
        let v = post[l0 + 2 * m];
        let last_sum = if m == 0 {
            bias as int
        } else {
            l0 + 2 * m - 1
        };
        &&& v.op == Some(Op::Tanh)
        &&& v.prev@.len() == 1
        &&& v.prev@[0] as int == last_sum
        &&& v.grad == 0
        &&& call_ensures(ft, (post[last_sum].data,), v.data)
    })
    &&& out as int == l0 + 2 * m
}

impl Neuron {
    /// Allocates `input_count` weight leaves and one bias leaf, initialized
    /// from the injected source, in draw order.
    pub fn new(vt: &mut ValueTree, input_count: usize, source: &mut InitSource) -> (n: Neuron)
        requires
            old(vt).wf(),
            old(source).remaining() >= input_count + 1,
        ensures
            final(vt).wf(),
            final(vt)@.len() == old(vt)@.len() + input_count + 1,
            forall|i: int| 0 <= i < old(vt)@.len() ==> final(vt)@[i] == old(vt)@[i],
            n.weights@.len() == input_count,
            forall|k: int|
                0 <= k < input_count ==> (#[trigger] n.weights@[k]) as int == old(vt)@.len() + k,
            n.bias as int == old(vt)@.len() + input_count,
            neuron_wf(n, final(vt)@),
            forall|k: int|
                0 <= k <= input_count ==> leaf_with(
                    #[trigger] final(vt)@[old(vt)@.len() + k],
                    old(source).words@[old(source).next + k],
                ),
            final(source).words@ == old(source).words@,
            final(source).next == old(source).next + input_count + 1,
    {
        let ghost pre0 = vt@;
        let ghost words0 = source.words@;
        let ghost l0 = vt@.len() as int;
        let ghost next0 = source.next as int;
        let mut weights: Vec<usize> = Vec::new();
        let mut k: usize = 0;
        while k < input_count
            invariant
                vt.wf(),
                k <= input_count,
                vt@.len() == l0 + k,
                source.remaining() >= input_count + 1 - k,
                source.words@ == words0,
                source.next == next0 + k,
                forall|i: int| 0 <= i < l0 ==> vt@[i] == pre0[i],
                pre0.len() == l0,
                weights@.len() == k,
                forall|j: int| 0 <= j < k ==> (#[trigger] weights@[j]) as int == l0 + j,
                forall|j: int|
                    0 <= j < k ==> leaf_with(#[trigger] vt@[l0 + j], words0[next0 + j]),
            decreases input_count - k,
        {
            let w = source.draw();
            let id = vt.create_value(w, "");
            weights.push(id);
            k = k + 1;
        }
        let bw = source.draw();
        let bias = vt.create_value(bw, "b");
        Neuron { weights, bias }
    }

    /// Builds the neuron's forward sub-graph over the given input ids and
    /// returns the id of its tanh output node. Requires one input per
    /// weight; every call appends fresh nodes, none are reused.
    pub fn forward<
        FA: Fn(u64, u64) -> u64,
        FM: Fn(u64, u64) -> u64,
        FT: Fn(u64) -> u64,
    >(&self, vt: &mut ValueTree, xs: &Vec<usize>, add_op: &FA, mul_op: &FM, tanh_op: &FT) -> (out:
        usize)
        requires
            old(vt).wf(),
            neuron_wf(*self, old(vt)@),
            xs@.len() == self.weights@.len(),
            forall|k: int| 0 <= k < xs@.len() ==> ((#[trigger] xs@[k]) as int) < old(vt)@.len(),
            forall|x: u64, y: u64| call_requires(*add_op, (x, y)),
            forall|x: u64, y: u64| call_requires(*mul_op, (x, y)),
            forall|x: u64| call_requires(*tanh_op, (x,)),
        ensures
            final(vt).wf(),
            neuron_forward_spec(
                self.weights@,
                self.bias,
                old(vt)@,
                final(vt)@,
                xs@,
                out,
                *add_op,
                *mul_op,
                *tanh_op,
            ),
    {
        let ghost pre0 = vt@;
        let ghost l0 = vt@.len() as int;
        let ghost m = xs@.len() as int;
        let mut products: Vec<usize> = Vec::new();
        let mut j: usize = 0;
        while j < xs.len()
            invariant
                vt.wf(),
                j <= xs@.len(),
                m == xs@.len(),
                xs@.len() == self.weights@.len(),
                neuron_wf(*self, pre0),
                forall|k: int| 0 <= k < xs@.len() ==> ((#[trigger] xs@[k]) as int) < l0,
                forall|x: u64, y: u64| call_requires(*mul_op, (x, y)),
                l0 == pre0.len(),
                vt@.len() == l0 + j,
                forall|i: int| 0 <= i < l0 ==> vt@[i] == pre0[i],
                products@.len() == j,
                forall|j2: int| 0 <= j2 < j ==> (#[trigger] products@[j2]) as int == l0 + j2,
                products_built(pre0, vt@, self.weights@, xs@, j as int, *mul_op),
            decreases xs@.len() - j,
        {
            let id = vt.mul_values(self.weights[j], xs[j], "", mul_op);
            products.push(id);
            j = j + 1;
        }
        let mut sum = self.bias;
        let mut j: usize = 0;
        while j < products.len()
            invariant
                vt.wf(),
                j <= m,
                m == xs@.len(),
                xs@.len() == self.weights@.len(),
                forall|x: u64, y: u64| call_requires(*add_op, (x, y)),
                l0 == pre0.len(),
                (self.bias as int) < l0,
                products@.len() == m,
                forall|j2: int| 0 <= j2 < m ==> (#[trigger] products@[j2]) as int == l0 + j2,
                vt@.len() == l0 + m + j,
                forall|i: int| 0 <= i < l0 ==> vt@[i] == pre0[i],
                products_built(pre0, vt@, self.weights@, xs@, m, *mul_op),
                sum as int == (if j == 0 {
                    self.bias as int
                } else {
                    l0 + m + j - 1
                }),
                (sum as int) < vt@.len(),
                sums_built(self.bias, l0, m, vt@, j as int, *add_op),
            decreases products@.len() - j,
        {
            let next = vt.add_values(sum, products[j], "", add_op);
            sum = next;
            j = j + 1;
        }
        let ghost before_tanh = vt@;
        let out = vt.tanh_value(sum, "", tanh_op);
        proof {
            assert(pre0 == old(vt)@);
            assert(products_built(pre0, vt@, self.weights@, xs@, m, *mul_op));
            assert(sums_built(self.bias, l0, m, vt@, m, *add_op));
        }
        out
    }

    /// The neuron's parameter ids: weights in input order, then the bias.
    pub fn parameters(&self) -> (params: Vec<usize>)
        ensures
            params@ == neuron_params(*self),
    {
        let mut params: Vec<usize> = Vec::new();
        let mut k: usize = 0;
        while k < self.weights.len()
            invariant
                k <= self.weights@.len(),
                params@ == self.weights@.take(k as int),
            decreases self.weights@.len() - k,
        {
            let w = self.weights[k];
            params.push(w);
            proof {
                assert(params@ =~= self.weights@.take(k + 1));
            }
            k = k + 1;
        }
        params.push(self.bias);
        proof {
            assert(self.weights@.take(self.weights@.len() as int) =~= self.weights@);
        }
        params
    }
}

/// One layer: an ordered sequence of neurons, all reading the same inputs.
/// The layer's output count is its neuron count.
pub struct Layer {
    pub neurons: Vec<Neuron>,
}

/// All ids of every neuron point into the arena.
pub open spec fn layer_wf(l: Layer, s: Seq<Value>) -> bool {
    forall|i: int| 0 <= i < l.neurons@.len() ==> neuron_wf(#[trigger] l.neurons@[i], s)
}

/// Every neuron of the layer takes `in_width` inputs.
pub open spec fn layer_uniform(l: Layer, in_width: int) -> bool {
    forall|i: int| 0 <= i < l.neurons@.len() ==> (#[trigger] l.neurons@[i]).weights@.len() == in_width
}

/// The layer's parameter ids: each neuron's parameters, in neuron order.
pub open spec fn layer_params(ns: Seq<Neuron>) -> Seq<usize>
    decreases ns.len(),
{
    if ns.len() == 0 {
        Seq::<usize>::empty()
    } else {
        layer_params(ns.drop_last()) + neuron_params(ns.last())
    }
}

proof fn lemma_layer_params_push(ns: Seq<Neuron>, n: Neuron)
    ensures
        layer_params(ns.push(n)) == layer_params(ns) + neuron_params(n),
{
    assert(ns.push(n).drop_last() =~= ns);
    assert(ns.push(n).last() == n);
}

/// What one `Layer::forward` call appends: each neuron's forward sub-graph
/// in neuron order, over the same inputs; one output id per neuron.
pub open spec fn layer_forward_spec<
    FA: Fn(u64, u64) -> u64,
    FM: Fn(u64, u64) -> u64,
    FT: Fn(u64) -> u64,
>(
    neurons: Seq<Neuron>,
    pre: Seq<Value>,
    post: Seq<Value>,
    xs: Seq<usize>,
    outs: Seq<usize>,
    fa: FA,
    fm: FM,
    ft: FT,
) -> bool
    decreases neurons.len(),
{
    if neurons.len() == 0 {
        post == pre && outs == Seq::<usize>::empty()
    } else {
        let m = xs.len() as int;
        let mid = post.take(post.len() as int - (2 * m + 1));
        &&& outs.len() == neurons.len()
        &&& layer_forward_spec(neurons.drop_last(), pre, mid, xs, outs.drop_last(), fa, fm, ft)
        &&& neuron_forward_spec(
            neurons.last().weights@,
            neurons.last().bias,
            mid,
            post,
            xs,
            outs.last(),
            fa,
            fm,
            ft,
        )
    }
}

impl Layer {
    /// Allocates `output_count` neurons of `input_count` inputs each, with
    /// every parameter leaf initialized from the injected source in draw
    /// order: the layer's parameter ids are exactly the next consecutive
    /// arena ids.
    pub fn new(vt: &mut ValueTree, input_count: usize, output_count: usize, source: &mut InitSource) -> (l: Layer)
        requires
            old(vt).wf(),
            old(source).remaining() >= output_count * (input_count + 1),
        ensures
            final(vt).wf(),
            forall|i: int| 0 <= i < old(vt)@.len() ==> final(vt)@[i] == old(vt)@[i],
            l.neurons@.len() == output_count,
            layer_uniform(l, input_count as int),
            layer_wf(l, final(vt)@),
            ({
                let ps = layer_params(l.neurons@);
                let l0 = old(vt)@.len() as int;
                &&& ps.len() == output_count * (input_count + 1)
                &&& final(vt)@.len() == l0 + ps.len()
                &&& forall|p: int| 0 <= p < ps.len() ==> (#[trigger] ps[p]) as int == l0 + p
                &&& forall|p: int|
                    0 <= p < ps.len() ==> leaf_with(
                        #[trigger] final(vt)@[l0 + p],
                        old(source).words@[old(source).next + p],
                    )
                &&& final(source).next == old(source).next + ps.len()
            }),
            final(source).words@ == old(source).words@,
    {
        let ghost pre0 = vt@;
        let ghost words0 = source.words@;
        let ghost l0 = vt@.len() as int;
        let ghost next0 = source.next as int;
        let mut neurons: Vec<Neuron> = Vec::new();
        let mut i: usize = 0;
        while i < output_count
            invariant
                vt.wf(),
                i <= output_count,
                pre0.len() == l0,
                source.words@ == words0,
                forall|q: int| 0 <= q < l0 ==> vt@[q] == pre0[q],
                neurons@.len() == i,
                forall|q: int|
                    0 <= q < i ==> (#[trigger] neurons@[q]).weights@.len() == input_count,
                forall|q: int| 0 <= q < i ==> neuron_wf(#[trigger] neurons@[q], vt@),
                ({
                    let ps = layer_params(neurons@);
                    &&& ps.len() == i * (input_count + 1)
                    &&& vt@.len() == l0 + ps.len()
                    &&& source.next == next0 + ps.len()
                    &&& source.remaining() >= (output_count - i) * (input_count + 1)
                    &&& forall|p: int| 0 <= p < ps.len() ==> (#[trigger] ps[p]) as int == l0 + p
                    &&& forall|p: int|
                        0 <= p < ps.len() ==> leaf_with(
                            #[trigger] vt@[l0 + p],
                            words0[next0 + p],
                        )
                }),
            decreases output_count - i,
        {
            proof {
                assert(source.remaining() >= (output_count - i) * (input_count + 1));
                assert((output_count - i) * (input_count + 1) >= 1 * (input_count + 1))
                    by (nonlinear_arith)
                    requires
                        i < output_count,
                        input_count >= 0,
                ;
            }
            let ghost before = vt@;
            let ghost ps_before = layer_params(neurons@);
            let n = Neuron::new(vt, input_count, source);
            proof {
                lemma_layer_params_push(neurons@, n);
            }
            neurons.push(n);
            i = i + 1;
            proof {
                let ps = layer_params(neurons@);
                assert(ps =~= ps_before + neuron_params(n));
                assert(neuron_params(n).len() == input_count + 1);
                assert forall|p: int| 0 <= p < ps.len() implies (#[trigger] ps[p]) as int == l0
                    + p by {
                    if p < ps_before.len() {
                        assert(ps[p] == ps_before[p]);
                    } else if p < ps.len() - 1 {
                        assert(ps[p] == n.weights@[p - ps_before.len()]);
                    } else {
                        assert(ps[p] == n.bias);
                    }
                }
                assert forall|p: int| 0 <= p < ps.len() implies leaf_with(
                    #[trigger] vt@[l0 + p],
                    words0[next0 + p],
                ) by {
                    if p < ps_before.len() {
                        assert(vt@[l0 + p] == before[l0 + p]);
                    } else {
                        let k = p - ps_before.len();
                        assert(0 <= k <= input_count);
                        assert(leaf_with(vt@[before.len() + k], words0[next0 + ps_before.len() + k]));
                    }
                }
                assert((output_count - (i - 1)) * (input_count + 1) == (output_count - i)
                    * (input_count + 1) + (input_count + 1)) by (nonlinear_arith);
                assert(i * (input_count + 1) == (i - 1) * (input_count + 1) + (input_count + 1))
                    by (nonlinear_arith);
            }
        }
        Layer { neurons }
    }

    /// Applies every neuron's `forward` to the same inputs, producing one
    /// output id per neuron, in neuron-declaration order.
    pub fn forward<
        FA: Fn(u64, u64) -> u64,
        FM: Fn(u64, u64) -> u64,
        FT: Fn(u64) -> u64,
    >(&self, vt: &mut ValueTree, xs: &Vec<usize>, add_op: &FA, mul_op: &FM, tanh_op: &FT) -> (outs:
        Vec<usize>)
        requires
            old(vt).wf(),
            layer_wf(*self, old(vt)@),
            layer_uniform(*self, xs@.len() as int),
            forall|k: int| 0 <= k < xs@.len() ==> ((#[trigger] xs@[k]) as int) < old(vt)@.len(),
            forall|x: u64, y: u64| call_requires(*add_op, (x, y)),
            forall|x: u64, y: u64| call_requires(*mul_op, (x, y)),
            forall|x: u64| call_requires(*tanh_op, (x,)),
        ensures
            final(vt).wf(),
            final(vt)@.len() >= old(vt)@.len(),
            forall|i: int| 0 <= i < old(vt)@.len() ==> final(vt)@[i] == old(vt)@[i],
            outs@.len() == self.neurons@.len(),
            forall|p: int| 0 <= p < outs@.len() ==> ((#[trigger] outs@[p]) as int) < final(vt)@.len(),
            layer_forward_spec(
                self.neurons@,
                old(vt)@,
                final(vt)@,
                xs@,
                outs@,
                *add_op,
                *mul_op,
                *tanh_op,
            ),
    {
        let ghost pre0 = vt@;
        let ghost l0 = vt@.len() as int;
        let ghost m = xs@.len() as int;
        let mut outs: Vec<usize> = Vec::new();
        let mut i: usize = 0;
        while i < self.neurons.len()
            invariant
                vt.wf(),
                i <= self.neurons@.len(),
                pre0.len() == l0,
                m == xs@.len(),
                layer_wf(*self, pre0),
                layer_uniform(*self, m),
                forall|k: int| 0 <= k < xs@.len() ==> ((#[trigger] xs@[k]) as int) < l0,
                forall|x: u64, y: u64| call_requires(*add_op, (x, y)),
                forall|x: u64, y: u64| call_requires(*mul_op, (x, y)),
                forall|x: u64| call_requires(*tanh_op, (x,)),
                vt@.len() >= l0,
                forall|q: int| 0 <= q < l0 ==> vt@[q] == pre0[q],
                outs@.len() == i,
                forall|p: int| 0 <= p < outs@.len() ==> ((#[trigger] outs@[p]) as int) < vt@.len(),
                layer_forward_spec(
                    self.neurons@.take(i as int),
                    pre0,
                    vt@,
                    xs@,
                    outs@,
                    *add_op,
                    *mul_op,
                    *tanh_op,
                ),
            decreases self.neurons@.len() - i,
        {
            let ghost before = vt@;
            let ghost outs_before = outs@;
            let out = self.neurons[i].forward(vt, xs, add_op, mul_op, tanh_op);
            outs.push(out);
            i = i + 1;
            proof {
                let taken = self.neurons@.take(i as int);
                assert(taken.drop_last() =~= self.neurons@.take(i as int - 1));
                assert(taken.last() == self.neurons@[i as int - 1]);
                assert(outs@.drop_last() =~= outs_before);
                assert(outs@.last() == out);
                assert(vt@.len() == before.len() + 2 * m + 1);
                assert(vt@.take(vt@.len() as int - (2 * m + 1)) =~= before);
                assert(layer_forward_spec(
                    taken,
                    pre0,
                    vt@,
                    xs@,
                    outs@,
                    *add_op,
                    *mul_op,
                    *tanh_op,
                ));
            }
        }
        proof {
            assert(self.neurons@.take(self.neurons@.len() as int) =~= self.neurons@);
        }
        outs
    }

    /// The layer's parameter ids: each neuron's, concatenated in order.
    pub fn parameters(&self) -> (params: Vec<usize>)
        ensures
            params@ == layer_params(self.neurons@),
    {
        let mut params: Vec<usize> = Vec::new();
        let mut i: usize = 0;
        while i < self.neurons.len()
            invariant
                i <= self.neurons@.len(),
                params@ == layer_params(self.neurons@.take(i as int)),
            decreases self.neurons@.len() - i,
        {
            let mut ps = self.neurons[i].parameters();
            params.append(&mut ps);
            i = i + 1;
            proof {
                let taken = self.neurons@.take(i as int);
                assert(taken.drop_last() =~= self.neurons@.take(i as int - 1));
                assert(taken.last() == self.neurons@[i as int - 1]);
            }
        }
        proof {
            assert(self.neurons@.take(self.neurons@.len() as int) =~= self.neurons@);
        }
        params
    }
}

/// The multi-layer perceptron: an ordered sequence of layers, each feeding
/// the next.
pub struct MLP {
    pub layers: Vec<Layer>,
}

/// All ids of every layer point into the arena.
pub open spec fn mlp_wf(ls: Seq<Layer>, s: Seq<Value>) -> bool {
    forall|i: int| 0 <= i < ls.len() ==> layer_wf(#[trigger] ls[i], s)
}

/// Each layer's input count equals the previous layer's output count, or
/// the network input count for the first layer.
pub open spec fn mlp_chained(ls: Seq<Layer>, in_width: int) -> bool {
    forall|i: int|
        0 <= i < ls.len() ==> layer_uniform(
            #[trigger] ls[i],
            if i == 0 {
                in_width
            } else {
                ls[i - 1].neurons@.len() as int
            },
        )
}

/// How many parameter leaves a network of the given shape allocates: per
/// layer, one weight per input of each neuron plus one bias per neuron.
pub open spec fn params_needed(in_width: int, sizes: Seq<usize>) -> int
    decreases sizes.len(),
{
    if sizes.len() == 0 {
        0
    } else {
        sizes[0] * (in_width + 1) + params_needed(sizes[0] as int, sizes.skip(1))
    }
}

proof fn lemma_params_needed_nonneg(in_width: int, sizes: Seq<usize>)
    requires
        in_width >= 0,
    ensures
        params_needed(in_width, sizes) >= 0,
    decreases sizes.len(),
{
    if sizes.len() > 0 {
        assert(sizes[0] * (in_width + 1) >= 0) by (nonlinear_arith)
            requires
                sizes[0] >= 0,
                in_width >= 0,
        ;
        lemma_params_needed_nonneg(sizes[0] as int, sizes.skip(1));
    }
}

/// The network's parameter ids: each layer's, concatenated in order.
pub open spec fn mlp_params(ls: Seq<Layer>) -> Seq<usize>
    decreases ls.len(),
{
    if ls.len() == 0 {
        Seq::<usize>::empty()
    } else {
        mlp_params(ls.drop_last()) + layer_params(ls.last().neurons@)
    }
}

proof fn lemma_mlp_params_push(ls: Seq<Layer>, l: Layer)
    ensures
        mlp_params(ls.push(l)) == mlp_params(ls) + layer_params(l.neurons@),
{
    assert(ls.push(l).drop_last() =~= ls);
    assert(ls.push(l).last() == l);
}

/// What one `MLP::forward` call does: the outputs of each layer feed the
/// next; with no layers the inputs pass through unchanged.
pub open spec fn mlp_forward_spec<
    FA: Fn(u64, u64) -> u64,
    FM: Fn(u64, u64) -> u64,
    FT: Fn(u64) -> u64,
>(
    layers: Seq<Layer>,
    pre: Seq<Value>,
    post: Seq<Value>,
    xs: Seq<usize>,
    outs: Seq<usize>,
    fa: FA,
    fm: FM,
    ft: FT,
) -> bool
    decreases layers.len(),
{
    if layers.len() == 0 {
        post == pre && outs == xs
    } else {
        exists|mid: Seq<Value>, mid_outs: Seq<usize>|
            mlp_forward_spec(layers.drop_last(), pre, mid, xs, mid_outs, fa, fm, ft)
                && #[trigger] layer_forward_spec(
                layers.last().neurons@,
                mid,
                post,
                mid_outs,
                outs,
                fa,
                fm,
                ft,
            )
    }
}

proof fn lemma_mlp_forward_snoc<
    FA: Fn(u64, u64) -> u64,
    FM: Fn(u64, u64) -> u64,
    FT: Fn(u64) -> u64,
>(
    layers: Seq<Layer>,
    l: Layer,
    pre: Seq<Value>,
    mid: Seq<Value>,
    post: Seq<Value>,
    xs: Seq<usize>,
    mid_outs: Seq<usize>,
    outs: Seq<usize>,
    fa: FA,
    fm: FM,
    ft: FT,
)
    requires
        mlp_forward_spec(layers, pre, mid, xs, mid_outs, fa, fm, ft),
        layer_forward_spec(l.neurons@, mid, post, mid_outs, outs, fa, fm, ft),
    ensures
        mlp_forward_spec(layers.push(l), pre, post, xs, outs, fa, fm, ft),
{
    assert(layers.push(l).drop_last() =~= layers);
    assert(layers.push(l).last() == l);
}

impl MLP {
    /// Builds layers with sizes `[input_count] + output_counts`, allocating
    /// every parameter leaf from the injected source in draw order: the
    /// network's parameter ids are exactly the next consecutive arena ids.
    pub fn new(
        vt: &mut ValueTree,
        input_count: usize,
        output_counts: &Vec<usize>,
        source: &mut InitSource,
    ) -> (mlp: MLP)
        requires
            old(vt).wf(),
            old(source).remaining() >= params_needed(input_count as int, output_counts@),
        ensures
            final(vt).wf(),
            forall|i: int| 0 <= i < old(vt)@.len() ==> final(vt)@[i] == old(vt)@[i],
            mlp.layers@.len() == output_counts@.len(),
            forall|i: int|
                0 <= i < output_counts@.len() ==> (#[trigger] mlp.layers@[i]).neurons@.len()
                    == output_counts@[i],
            mlp_chained(mlp.layers@, input_count as int),
            mlp_wf(mlp.layers@, final(vt)@),
            ({
                let ps = mlp_params(mlp.layers@);
                let l0 = old(vt)@.len() as int;
                &&& final(vt)@.len() == l0 + ps.len()
                &&& forall|p: int| 0 <= p < ps.len() ==> (#[trigger] ps[p]) as int == l0 + p
                &&& forall|p: int|
                    0 <= p < ps.len() ==> leaf_with(
                        #[trigger] final(vt)@[l0 + p],
                        old(source).words@[old(source).next + p],
                    )
                &&& final(source).next == old(source).next + ps.len()
            }),
            final(source).words@ == old(source).words@,
    {
        let ghost pre0 = vt@;
        let ghost words0 = source.words@;
        let ghost l0 = vt@.len() as int;
        let ghost next0 = source.next as int;
        let mut layers: Vec<Layer> = Vec::new();
        let mut width: usize = input_count;
        let mut i: usize = 0;
        proof {
            assert(output_counts@.skip(0) =~= output_counts@);
            assert(mlp_params(layers@).len() == 0);
        }
        while i < output_counts.len()
            invariant
                vt.wf(),
                i <= output_counts@.len(),
                pre0.len() == l0,
                source.words@ == words0,
                forall|q: int| 0 <= q < l0 ==> vt@[q] == pre0[q],
                layers@.len() == i,
                width as int == (if i == 0 {
                    input_count as int
                } else {
                    output_counts@[i as int - 1] as int
                }),
                forall|q: int|
                    0 <= q < i ==> (#[trigger] layers@[q]).neurons@.len() == output_counts@[q],
                mlp_chained(layers@, input_count as int),
                mlp_wf(layers@, vt@),
                ({
                    let ps = mlp_params(layers@);
                    &&& vt@.len() == l0 + ps.len()
                    &&& source.next == next0 + ps.len()
                    &&& source.remaining() >= params_needed(
                        width as int,
                        output_counts@.skip(i as int),
                    )
                    &&& forall|p: int| 0 <= p < ps.len() ==> (#[trigger] ps[p]) as int == l0 + p
                    &&& forall|p: int|
                        0 <= p < ps.len() ==> leaf_with(
                            #[trigger] vt@[l0 + p],
                            words0[next0 + p],
                        )
                }),
            decreases output_counts@.len() - i,
        {
            let out_count = output_counts[i];
            proof {
                let rest = output_counts@.skip(i as int);
                assert(rest[0] == output_counts@[i as int]);
                assert(rest.skip(1) =~= output_counts@.skip(i as int + 1));
                lemma_params_needed_nonneg(out_count as int, output_counts@.skip(i as int + 1));
            }
            let ghost before = vt@;
            let ghost ps_before = mlp_params(layers@);
            let l = Layer::new(vt, width, out_count, source);
            proof {
                lemma_mlp_params_push(layers@, l);
            }
            layers.push(l);
            i = i + 1;
            width = out_count;
            proof {
                let ps = mlp_params(layers@);
                let lps = layer_params(l.neurons@);
                assert(ps =~= ps_before + lps);
                assert forall|p: int| 0 <= p < ps.len() implies (#[trigger] ps[p]) as int == l0
                    + p by {
                    if p < ps_before.len() {
                        assert(ps[p] == ps_before[p]);
                    } else {
                        assert(ps[p] == lps[p - ps_before.len()]);
                    }
                }
                assert forall|p: int| 0 <= p < ps.len() implies leaf_with(
                    #[trigger] vt@[l0 + p],
                    words0[next0 + p],
                ) by {
                    if p < ps_before.len() {
                        assert(vt@[l0 + p] == before[l0 + p]);
                    } else {
                        let k = p - ps_before.len();
                        assert(leaf_with(vt@[before.len() + k], words0[next0 + ps_before.len() + k]));
                    }
                }
                assert forall|q: int| 0 <= q < layers@.len() implies layer_uniform(
                    #[trigger] layers@[q],
                    if q == 0 {
                        input_count as int
                    } else {
                        layers@[q - 1].neurons@.len() as int
                    },
                ) by {
                    if q < layers@.len() - 1 {
                        assert(layers@[q] == layers@.drop_last()[q]);
                    }
                }
                assert forall|q: int| 0 <= q < layers@.len() implies layer_wf(
                    #[trigger] layers@[q],
                    vt@,
                ) by {
                    if q < layers@.len() - 1 {
                        assert(layer_wf(layers@[q], before));
                        assert forall|j: int|
                            0 <= j < layers@[q].neurons@.len() implies neuron_wf(
                            #[trigger] layers@[q].neurons@[j],
                            vt@,
                        ) by {
                            assert(neuron_wf(layers@[q].neurons@[j], before));
                        }
                    }
                }
            }
        }
        proof {
            assert(output_counts@.skip(output_counts@.len() as int) =~= Seq::<usize>::empty());
        }
        MLP { layers }
    }

    /// Threads the inputs through every layer in order and returns the last
    /// layer's output ids.
    #[verifier::rlimit(60)]
    pub fn forward<
        FA: Fn(u64, u64) -> u64,
        FM: Fn(u64, u64) -> u64,
        FT: Fn(u64) -> u64,
    >(&self, vt: &mut ValueTree, xs: Vec<usize>, add_op: &FA, mul_op: &FM, tanh_op: &FT) -> (outs:
        Vec<usize>)
        requires
            old(vt).wf(),
            mlp_wf(self.layers@, old(vt)@),
            mlp_chained(self.layers@, xs@.len() as int),
            forall|k: int| 0 <= k < xs@.len() ==> ((#[trigger] xs@[k]) as int) < old(vt)@.len(),
            forall|x: u64, y: u64| call_requires(*add_op, (x, y)),
            forall|x: u64, y: u64| call_requires(*mul_op, (x, y)),
            forall|x: u64| call_requires(*tanh_op, (x,)),
        ensures
            final(vt).wf(),
            final(vt)@.len() >= old(vt)@.len(),
            forall|i: int| 0 <= i < old(vt)@.len() ==> final(vt)@[i] == old(vt)@[i],
            outs@.len() == (if self.layers@.len() == 0 {
                xs@.len() as int
            } else {
                self.layers@.last().neurons@.len() as int
            }),
            forall|p: int| 0 <= p < outs@.len() ==> ((#[trigger] outs@[p]) as int) < final(vt)@.len(),
            mlp_forward_spec(
                self.layers@,
                old(vt)@,
                final(vt)@,
                xs@,
                outs@,
                *add_op,
                *mul_op,
                *tanh_op,
            ),
    {
        let ghost pre0 = vt@;
        let ghost xs0 = xs@;
        let mut cur = xs;
        let mut i: usize = 0;
        while i < self.layers.len()
            invariant
                vt.wf(),
                i <= self.layers@.len(),
                pre0.len() == old(vt)@.len(),
                mlp_wf(self.layers@, pre0),
                mlp_chained(self.layers@, xs0.len() as int),
                forall|x: u64, y: u64| call_requires(*add_op, (x, y)),
                forall|x: u64, y: u64| call_requires(*mul_op, (x, y)),
                forall|x: u64| call_requires(*tanh_op, (x,)),
                vt@.len() >= pre0.len(),
                forall|q: int| 0 <= q < pre0.len() ==> vt@[q] == pre0[q],
                cur@.len() == (if i == 0 {
                    xs0.len() as int
                } else {
                    self.layers@[i as int - 1].neurons@.len() as int
                }),
                forall|p: int| 0 <= p < cur@.len() ==> ((#[trigger] cur@[p]) as int) < vt@.len(),
                mlp_forward_spec(
                    self.layers@.take(i as int),
                    pre0,
                    vt@,
                    xs0,
                    cur@,
                    *add_op,
                    *mul_op,
                    *tanh_op,
                ),
            decreases self.layers@.len() - i,
        {
            proof {
                assert(layer_wf(self.layers@[i as int], pre0));
                assert forall|j: int|
                    0 <= j < self.layers@[i as int].neurons@.len() implies neuron_wf(
                    #[trigger] self.layers@[i as int].neurons@[j],
                    vt@,
                ) by {
                    assert(neuron_wf(self.layers@[i as int].neurons@[j], pre0));
                }
            }
            let ghost before = vt@;
            let ghost cur_before = cur@;
            let next = self.layers[i].forward(vt, &cur, add_op, mul_op, tanh_op);
            cur = next;
            i = i + 1;
            proof {
                lemma_mlp_forward_snoc(
                    self.layers@.take(i as int - 1),
                    self.layers@[i as int - 1],
                    pre0,
                    before,
                    vt@,
                    xs0,
                    cur_before,
                    cur@,
                    *add_op,
                    *mul_op,
                    *tanh_op,
                );
                assert(self.layers@.take(i as int - 1).push(self.layers@[i as int - 1])
                    =~= self.layers@.take(i as int));
            }
        }
        proof {
            assert(self.layers@.take(self.layers@.len() as int) =~= self.layers@);
        }
        cur
    }

    /// The network's parameter ids: each layer's, concatenated in order.
    /// This flat list is what a trainer walks to zero gradients and apply
    /// updates; its order is fixed for a given network.
    pub fn parameters(&self) -> (params: Vec<usize>)
        ensures
            params@ == mlp_params(self.layers@),
    {
        let mut params: Vec<usize> = Vec::new();
        let mut i: usize = 0;
        while i < self.layers.len()
            invariant
                i <= self.layers@.len(),
                params@ == mlp_params(self.layers@.take(i as int)),
            decreases self.layers@.len() - i,
        {
            let mut ps = self.layers[i].parameters();
            params.append(&mut ps);
            i = i + 1;
            proof {
                let taken = self.layers@.take(i as int);
                assert(taken.drop_last() =~= self.layers@.take(i as int - 1));
                assert(taken.last() == self.layers@[i as int - 1]);
            }
        }
        proof {
            assert(self.layers@.take(self.layers@.len() as int) =~= self.layers@);
        }
        params
    }
}

/// Same neuron: same weight ids, same bias id.
pub open spec fn neuron_like(a: Neuron, b: Neuron) -> bool {
    b.weights@ == a.weights@ && b.bias == a.bias
}

/// Same layer, neuron for neuron.
pub open spec fn layer_like(a: Layer, b: Layer) -> bool {
    b.neurons@.len() == a.neurons@.len() && forall|i: int|
        0 <= i < a.neurons@.len() ==> neuron_like(a.neurons@[i], #[trigger] b.neurons@[i])
}

/// Same network, layer for layer.
pub open spec fn mlp_like(a: MLP, b: MLP) -> bool {
    b.layers@.len() == a.layers@.len() && forall|i: int|
        0 <= i < a.layers@.len() ==> layer_like(a.layers@[i], #[trigger] b.layers@[i])
}

impl Neuron {
    /// A copy referencing the same parameter nodes.
    pub fn duplicate(&self) -> (r: Neuron)
        ensures
            neuron_like(*self, r),
    {
        let mut weights: Vec<usize> = Vec::new();
        let mut k: usize = 0;
        while k < self.weights.len()
            invariant
                k <= self.weights@.len(),
                weights@ == self.weights@.take(k as int),
            decreases self.weights@.len() - k,
        {
            let w = self.weights[k];
            weights.push(w);
            proof {
                assert(weights@ =~= self.weights@.take(k + 1));
            }
            k = k + 1;
        }
        proof {
            assert(self.weights@.take(self.weights@.len() as int) =~= self.weights@);
        }
        Neuron { weights, bias: self.bias }
    }
}

impl Layer {
    /// A copy referencing the same parameter nodes.
    pub fn duplicate(&self) -> (r: Layer)
        ensures
            layer_like(*self, r),
    {
        let mut neurons: Vec<Neuron> = Vec::new();
        let mut i: usize = 0;
        while i < self.neurons.len()
            invariant
                i <= self.neurons@.len(),
                neurons@.len() == i,
                forall|q: int|
                    0 <= q < i ==> neuron_like(self.neurons@[q], #[trigger] neurons@[q]),
            decreases self.neurons@.len() - i,
        {
            let n = self.neurons[i].duplicate();
            neurons.push(n);
            i = i + 1;
        }
        Layer { neurons }
    }
}

impl MLP {
    /// A copy referencing the same parameter nodes.
    pub fn duplicate(&self) -> (r: MLP)
        ensures
            mlp_like(*self, r),
    {
        let mut layers: Vec<Layer> = Vec::new();
        let mut i: usize = 0;
        while i < self.layers.len()
            invariant
                i <= self.layers@.len(),
                layers@.len() == i,
                forall|q: int| 0 <= q < i ==> layer_like(self.layers@[q], #[trigger] layers@[q]),
            decreases self.layers@.len() - i,
        {
            let l = self.layers[i].duplicate();
            layers.push(l);
            i = i + 1;
        }
        MLP { layers }
    }
}

/// Every parameter id of well-formed neurons points into the arena.
pub proof fn lemma_layer_params_in_tree(ns: Seq<Neuron>, s: Seq<Value>)
    requires
        forall|i: int| 0 <= i < ns.len() ==> neuron_wf(#[trigger] ns[i], s),
    ensures
        forall|p: int|
            0 <= p < layer_params(ns).len() ==> ((#[trigger] layer_params(ns)[p]) as int)
                < s.len(),
    decreases ns.len(),
{
    if ns.len() > 0 {
        lemma_layer_params_in_tree(ns.drop_last(), s);
        let ps = layer_params(ns);
        let prefix = layer_params(ns.drop_last());
        let last = ns.last();
        assert(neuron_wf(ns[ns.len() - 1], s));
        assert forall|p: int| 0 <= p < ps.len() implies ((#[trigger] ps[p]) as int) < s.len() by {
            if p < prefix.len() {
                assert(ps[p] == prefix[p]);
            } else if p < ps.len() - 1 {
                assert(ps[p] == last.weights@[p - prefix.len()]);
            } else {
                assert(ps[p] == last.bias);
            }
        }
    }
}

/// Every parameter id of a well-formed network points into the arena.
pub proof fn lemma_mlp_params_in_tree(ls: Seq<Layer>, s: Seq<Value>)
    requires
        mlp_wf(ls, s),
    ensures
        forall|p: int|
            0 <= p < mlp_params(ls).len() ==> ((#[trigger] mlp_params(ls)[p]) as int) < s.len(),
    decreases ls.len(),
{
    if ls.len() > 0 {
        assert forall|i: int| 0 <= i < ls.drop_last().len() implies layer_wf(
            #[trigger] ls.drop_last()[i],
            s,
        ) by {
            assert(ls.drop_last()[i] == ls[i]);
            assert(layer_wf(ls[i], s));
        }
        lemma_mlp_params_in_tree(ls.drop_last(), s);
        assert(layer_wf(ls[ls.len() - 1], s));
        lemma_layer_params_in_tree(ls.last().neurons@, s);
        let ps = mlp_params(ls);
        let prefix = mlp_params(ls.drop_last());
        let lps = layer_params(ls.last().neurons@);
        assert forall|p: int| 0 <= p < ps.len() implies ((#[trigger] ps[p]) as int) < s.len() by {
            if p < prefix.len() {
                assert(ps[p] == prefix[p]);
            } else {
                assert(ps[p] == lps[p - prefix.len()]);
            }
        }
    }
}

} // verus!
