//! Global properties of the engine, stated and proved once: freshness of
//! ids, validity of the backward traversal order, and determinism of the
//! forward pass under deterministic scalar semantics.

use vstd::prelude::*;

verus! {

use crate::graph::{
    backward_order, bumped, no_dup, propagates, reaches, recorded_before, rule_applies, visit,
    visit_children, wf_node, wf_nodes, with_grad, Op, Value, ValueTree,
};
use crate::graph::{good_record, lemma_visit};
use crate::nn::{
    layer_forward_spec, layer_params, layer_uniform, mlp_chained, mlp_forward_spec, mlp_params,
    neuron_forward_spec, params_needed, sums_built, Layer, Neuron,
};

/// Ids grow strictly with each node created and are never reused: within
/// one arena, the node stored later always carries the larger id, so an id
/// identifies one node for the arena's whole lifetime.
pub proof fn lemma_ids_strictly_increasing(t: ValueTree)
    requires
        t.wf(),
    ensures
        forall|i: int, j: int| 0 <= i < j < t@.len() ==> t@[i].id < t@[j].id,
{
    assert forall|i: int, j: int| 0 <= i < j < t@.len() implies t@[i].id < t@[j].id by {
        assert(wf_node(t@[i], i));
        assert(wf_node(t@[j], j));
    }
}

/// Is `c` recorded at some position strictly after `p`?
pub open spec fn recorded_after(acc: Seq<usize>, p: int, c: usize) -> bool {
    exists|q: int| p < q < acc.len() && acc[q] == c
}

/// The order the backward pass processes is a valid topological order of
/// the operand cone of `output`: it holds exactly the cone, each node once,
/// starting at `output` itself, and every node comes before all of its
/// operands — so when a node's rule fires, every consumer of that node has
/// already fired, and its own gradient is final.
pub proof fn lemma_backward_order_valid(s: Seq<Value>, output: usize)
    requires
        wf_nodes(s),
        (output as int) < s.len(),
    ensures
        ({
            let ord = backward_order(s, output);
            &&& no_dup(ord)
            &&& forall|j: usize| #![trigger ord.contains(j)]
                ord.contains(j) <==> reaches(s, output, j)
            &&& ord.len() >= 1
            &&& ord[0] == output
            &&& forall|p: int, k: int|
                #![trigger s[ord[p] as int].prev@[k]]
                0 <= p < ord.len() && 0 <= k < s[ord[p] as int].prev@.len() ==> recorded_after(
                    ord,
                    p,
                    s[ord[p] as int].prev@[k],
                )
        }),
{
    let acc = Seq::<usize>::empty();
    assert(good_record(s, acc));
    lemma_visit(s, acc, output);
    let po = visit(s, acc, output);
    let ord = backward_order(s, output);
    assert(ord == po.reverse());
    assert(ord.len() == po.len());
    assert(!acc.contains(output));
    assert(po == visit_children(s, acc, output, 0).push(output));
    assert(po.len() >= 1);
    assert(ord[0] == po[po.len() - 1]);
    assert(po[po.len() - 1] == output);
    assert(no_dup(ord)) by {
        assert forall|p: int, q: int| 0 <= p < q < ord.len() implies ord[p] != ord[q] by {
            assert(ord[p] == po[po.len() - 1 - p]);
            assert(ord[q] == po[po.len() - 1 - q]);
        }
    }
    assert forall|j: usize| #![trigger ord.contains(j)]
        ord.contains(j) <==> reaches(s, output, j) by {
        if ord.contains(j) {
            let p = choose|p: int| 0 <= p < ord.len() && ord[p] == j;
            assert(po[po.len() - 1 - p] == j);
            assert(po.contains(j));
        }
        if reaches(s, output, j) {
            assert(po.contains(j));
            let p = choose|p: int| 0 <= p < po.len() && po[p] == j;
            assert(ord[po.len() - 1 - p] == po[p]);
            assert(ord.contains(j));
        }
    }
    assert forall|p: int, k: int|
        #![trigger s[ord[p] as int].prev@[k]]
        0 <= p < ord.len() && 0 <= k < s[ord[p] as int].prev@.len() implies recorded_after(
        ord,
        p,
        s[ord[p] as int].prev@[k],
    ) by {
        let pp = po.len() - 1 - p;
        assert(po[pp] == ord[p]);
        assert(0 <= k < s[po[pp] as int].prev@.len());
        assert(recorded_before(po, pp, s[po[pp] as int].prev@[k]));
        let qq = choose|qq: int| 0 <= qq < pp && po[qq] == s[po[pp] as int].prev@[k];
        let q = po.len() - 1 - qq;
        assert(ord[q] == po[qq]);
        assert(p < q < ord.len() && ord[q] == s[ord[p] as int].prev@[k]);
    }
}

/// The closure relation admits one output per input pair: a pure binary
/// operation.
pub open spec fn binop_deterministic<F: Fn(u64, u64) -> u64>(f: F) -> bool {
    forall|x: u64, y: u64, r1: u64, r2: u64|
        call_ensures(f, (x, y), r1) && call_ensures(f, (x, y), r2) ==> r1 == r2
}

/// The closure relation admits one output per input: a pure unary
/// operation.
pub open spec fn unop_deterministic<F: Fn(u64) -> u64>(f: F) -> bool {
    forall|x: u64, r1: u64, r2: u64|
        call_ensures(f, (x,), r1) && call_ensures(f, (x,), r2) ==> r1 == r2
}

/// The sum chain of a neuron forward pass is determined, link by link, by
/// the bias word and the product words.
proof fn lemma_sum_chain_deterministic<FA: Fn(u64, u64) -> u64>(
    fa: FA,
    bias: usize,
    l01: int,
    l02: int,
    m: int,
    post1: Seq<Value>,
    post2: Seq<Value>,
    j0: int,
)
    requires
        binop_deterministic(fa),
        sums_built(bias, l01, m, post1, m, fa),
        sums_built(bias, l02, m, post2, m, fa),
        (bias as int) < l01 && (bias as int) < l02,
        post1[bias as int].data == post2[bias as int].data,
        forall|j: int|
            0 <= j < m ==> (#[trigger] post1[l01 + j]).data == post2[l02 + j].data,
        0 <= j0 < m,
    ensures
        forall|j2: int|
            0 <= j2 <= j0 ==> (#[trigger] post1[l01 + m + j2]).data == post2[l02 + m
                + j2].data,
    decreases j0,
{
    if j0 > 0 {
        lemma_sum_chain_deterministic(fa, bias, l01, l02, m, post1, post2, j0 - 1);
        assert(post1[l01 + m + (j0 - 1)].data == post2[l02 + m + (j0 - 1)].data);
    }
    let v1 = post1[l01 + m + j0];
    let v2 = post2[l02 + m + j0];
    let left1: int = if j0 == 0 {
        bias as int
    } else {
        l01 + m + j0 - 1
    };
    let left2: int = if j0 == 0 {
        bias as int
    } else {
        l02 + m + j0 - 1
    };
    assert(call_ensures(fa, (post1[left1].data, post1[l01 + j0].data), v1.data));
    assert(call_ensures(fa, (post2[left2].data, post2[l02 + j0].data), v2.data));
    assert(post1[left1].data == post2[left2].data);
    assert(v1.data == v2.data);
}

/// One neuron's forward pass is deterministic: two passes of the same
/// neuron, over input nodes holding pairwise equal scalar words and with
/// its parameter words unchanged, produce pairwise equal scalar words in
/// every appended node — in particular in the output.
pub proof fn lemma_neuron_forward_deterministic<
    FA: Fn(u64, u64) -> u64,
    FM: Fn(u64, u64) -> u64,
    FT: Fn(u64) -> u64,
>(
    weights: Seq<usize>,
    bias: usize,
    pre1: Seq<Value>,
    post1: Seq<Value>,
    xs1: Seq<usize>,
    out1: usize,
    pre2: Seq<Value>,
    post2: Seq<Value>,
    xs2: Seq<usize>,
    out2: usize,
    fa: FA,
    fm: FM,
    ft: FT,
)
    requires
        neuron_forward_spec(weights, bias, pre1, post1, xs1, out1, fa, fm, ft),
        neuron_forward_spec(weights, bias, pre2, post2, xs2, out2, fa, fm, ft),
        binop_deterministic(fa),
        binop_deterministic(fm),
        unop_deterministic(ft),
        xs1.len() == xs2.len(),
        forall|j: int|
            0 <= j < weights.len() ==> (((#[trigger] weights[j]) as int) < pre1.len()
                && ((weights[j]) as int) < pre2.len() && pre1[weights[j] as int].data
                == pre2[weights[j] as int].data),
        (bias as int) < pre1.len() && (bias as int) < pre2.len(),
        pre1[bias as int].data == pre2[bias as int].data,
        forall|j: int|
            0 <= j < xs1.len() ==> (((#[trigger] xs1[j]) as int) < pre1.len() && ((
            #[trigger] xs2[j]) as int) < pre2.len() && pre1[xs1[j] as int].data
                == pre2[xs2[j] as int].data),
    ensures
        forall|t: int|
            0 <= t < 2 * xs1.len() + 1 ==> (#[trigger] post1[pre1.len() + t]).data
                == post2[pre2.len() + t].data,
        (out1 as int) < post1.len() && (out2 as int) < post2.len(),
        post1[out1 as int].data == post2[out2 as int].data,
{
    let m = xs1.len() as int;
    let l01 = pre1.len() as int;
    let l02 = pre2.len() as int;
    assert forall|j: int| 0 <= j < m implies (#[trigger] post1[l01 + j]).data == post2[l02
        + j].data by {
        let v1 = post1[l01 + j];
        let v2 = post2[l02 + j];
        assert(call_ensures(fm, (pre1[weights[j] as int].data, pre1[xs1[j] as int].data), v1.data));
        assert(call_ensures(fm, (pre2[weights[j] as int].data, pre2[xs2[j] as int].data), v2.data));
    }
    assert(post1[bias as int] == pre1[bias as int]);
    assert(post2[bias as int] == pre2[bias as int]);
    if m > 0 {
        lemma_sum_chain_deterministic(fa, bias, l01, l02, m, post1, post2, m - 1);
        assert(post1[l01 + m + (m - 1)].data == post2[l02 + m + (m - 1)].data);
    }
    let last1: int = if m == 0 {
        bias as int
    } else {
        l01 + 2 * m - 1
    };
    let last2: int = if m == 0 {
        bias as int
    } else {
        l02 + 2 * m - 1
    };
    assert(post1[last1].data == post2[last2].data);
    assert(call_ensures(ft, (post1[last1].data,), post1[l01 + 2 * m].data));
    assert(call_ensures(ft, (post2[last2].data,), post2[l02 + 2 * m].data));
    assert(post1[l01 + 2 * m].data == post2[l02 + 2 * m].data);
    assert forall|t: int|
        0 <= t < 2 * m + 1 implies (#[trigger] post1[l01 + t]).data == post2[l02 + t].data by {
        if t < m {
            assert(post1[l01 + t].data == post2[l02 + t].data);
        } else if t < 2 * m {
            let j2 = t - m;
            assert(post1[l01 + m + j2].data == post2[l02 + m + j2].data);
        } else {
            assert(post1[l01 + 2 * m].data == post2[l02 + 2 * m].data);
        }
    }
}

/// One layer's forward pass is deterministic, neuron for neuron.
pub proof fn lemma_layer_forward_deterministic<
    FA: Fn(u64, u64) -> u64,
    FM: Fn(u64, u64) -> u64,
    FT: Fn(u64) -> u64,
>(
    neurons: Seq<Neuron>,
    pre1: Seq<Value>,
    post1: Seq<Value>,
    xs1: Seq<usize>,
    outs1: Seq<usize>,
    pre2: Seq<Value>,
    post2: Seq<Value>,
    xs2: Seq<usize>,
    outs2: Seq<usize>,
    fa: FA,
    fm: FM,
    ft: FT,
)
    requires
        layer_forward_spec(neurons, pre1, post1, xs1, outs1, fa, fm, ft),
        layer_forward_spec(neurons, pre2, post2, xs2, outs2, fa, fm, ft),
        binop_deterministic(fa),
        binop_deterministic(fm),
        unop_deterministic(ft),
        xs1.len() == xs2.len(),
        forall|i: int, k: int|
            0 <= i < neurons.len() && 0 <= k < neurons[i].weights@.len() ==> (((
            #[trigger] neurons[i].weights@[k]) as int) < pre1.len()
                && ((neurons[i].weights@[k]) as int) < pre2.len()
                && pre1[neurons[i].weights@[k] as int].data
                == pre2[neurons[i].weights@[k] as int].data),
        forall|i: int|
            0 <= i < neurons.len() ==> (((#[trigger] neurons[i]).bias as int) < pre1.len() && ((
            neurons[i]).bias as int) < pre2.len() && pre1[neurons[i].bias as int].data
                == pre2[neurons[i].bias as int].data),
        forall|j: int|
            0 <= j < xs1.len() ==> (((#[trigger] xs1[j]) as int) < pre1.len() && ((
            #[trigger] xs2[j]) as int) < pre2.len() && pre1[xs1[j] as int].data
                == pre2[xs2[j] as int].data),
    ensures
        post1.len() >= pre1.len() && post2.len() >= pre2.len(),
        forall|i: int| 0 <= i < pre1.len() ==> (#[trigger] post1[i]) == pre1[i],
        forall|i: int| 0 <= i < pre2.len() ==> (#[trigger] post2[i]) == pre2[i],
        outs1.len() == neurons.len() && outs2.len() == neurons.len(),
        forall|p: int|
            0 <= p < neurons.len() ==> (((#[trigger] outs1[p]) as int) < post1.len() && ((
            #[trigger] outs2[p]) as int) < post2.len() && post1[outs1[p] as int].data
                == post2[outs2[p] as int].data),
    decreases neurons.len(),
{
    if neurons.len() == 0 {
    } else {
        let m = xs1.len() as int;
        let mid1 = post1.take(post1.len() as int - (2 * m + 1));
        let mid2 = post2.take(post2.len() as int - (2 * m + 1));
        let last = neurons.last();
        assert(neuron_forward_spec(
            last.weights@,
            last.bias,
            mid1,
            post1,
            xs1,
            outs1.last(),
            fa,
            fm,
            ft,
        ));
        assert(neuron_forward_spec(
            last.weights@,
            last.bias,
            mid2,
            post2,
            xs2,
            outs2.last(),
            fa,
            fm,
            ft,
        ));
        assert forall|i: int, k: int|
            0 <= i < neurons.drop_last().len() && 0 <= k
                < neurons.drop_last()[i].weights@.len() implies (((
        #[trigger] neurons.drop_last()[i].weights@[k]) as int) < pre1.len()
            && ((neurons.drop_last()[i].weights@[k]) as int) < pre2.len()
            && pre1[neurons.drop_last()[i].weights@[k] as int].data
            == pre2[neurons.drop_last()[i].weights@[k] as int].data) by {
            assert(neurons.drop_last()[i] == neurons[i]);
            assert(0 <= k < neurons[i].weights@.len());
            assert(neurons[i].weights@[k] == neurons.drop_last()[i].weights@[k]);
        }
        assert forall|i: int|
            0 <= i < neurons.drop_last().len() implies (((
        #[trigger] neurons.drop_last()[i]).bias as int) < pre1.len() && ((
        neurons.drop_last()[i]).bias as int) < pre2.len()
            && pre1[neurons.drop_last()[i].bias as int].data
            == pre2[neurons.drop_last()[i].bias as int].data) by {
            assert(neurons.drop_last()[i] == neurons[i]);
        }
        lemma_layer_forward_deterministic(
            neurons.drop_last(),
            pre1,
            mid1,
            xs1,
            outs1.drop_last(),
            pre2,
            mid2,
            xs2,
            outs2.drop_last(),
            fa,
            fm,
            ft,
        );
        // lift the premises from the original state to the state the last
        // neuron read
        lemma_neuron_forward_deterministic(
            last.weights@,
            last.bias,
            mid1,
            post1,
            xs1,
            outs1.last(),
            mid2,
            post2,
            xs2,
            outs2.last(),
            fa,
            fm,
            ft,
        );
        assert forall|p: int|
            0 <= p < neurons.len() implies (((#[trigger] outs1[p]) as int) < post1.len() && ((
        #[trigger] outs2[p]) as int) < post2.len() && post1[outs1[p] as int].data
            == post2[outs2[p] as int].data) by {
            if p < neurons.len() - 1 {
                assert(outs1[p] == outs1.drop_last()[p]);
                assert(outs2[p] == outs2.drop_last()[p]);
                assert(((outs1.drop_last()[p]) as int) < mid1.len());
                assert(post1[outs1[p] as int] == mid1[outs1[p] as int]);
                assert(post2[outs2[p] as int] == mid2[outs2[p] as int]);
            } else {
                assert(outs1[p] == outs1.last());
                assert(outs2[p] == outs2.last());
            }
        }
    }
}

/// The network forward pass is deterministic: two passes of the same
/// network, with its parameter words unchanged and over input nodes holding
/// pairwise equal scalar words, yield output nodes holding pairwise equal
/// scalar words — re-running `forward` reproduces identical output data.
pub proof fn lemma_mlp_forward_deterministic<
    FA: Fn(u64, u64) -> u64,
    FM: Fn(u64, u64) -> u64,
    FT: Fn(u64) -> u64,
>(
    layers: Seq<Layer>,
    pre1: Seq<Value>,
    post1: Seq<Value>,
    xs1: Seq<usize>,
    outs1: Seq<usize>,
    pre2: Seq<Value>,
    post2: Seq<Value>,
    xs2: Seq<usize>,
    outs2: Seq<usize>,
    fa: FA,
    fm: FM,
    ft: FT,
)
    requires
        mlp_forward_spec(layers, pre1, post1, xs1, outs1, fa, fm, ft),
        mlp_forward_spec(layers, pre2, post2, xs2, outs2, fa, fm, ft),
        binop_deterministic(fa),
        binop_deterministic(fm),
        unop_deterministic(ft),
        xs1.len() == xs2.len(),
        forall|i: int, j: int, k: int|
            0 <= i < layers.len() && 0 <= j < layers[i].neurons@.len() && 0 <= k
                < layers[i].neurons@[j].weights@.len() ==> (((
            #[trigger] layers[i].neurons@[j].weights@[k]) as int) < pre1.len()
                && ((layers[i].neurons@[j].weights@[k]) as int) < pre2.len()
                && pre1[layers[i].neurons@[j].weights@[k] as int].data
                == pre2[layers[i].neurons@[j].weights@[k] as int].data),
        forall|i: int, j: int|
            0 <= i < layers.len() && 0 <= j < layers[i].neurons@.len() ==> (((
            #[trigger] layers[i].neurons@[j]).bias as int) < pre1.len()
                && ((layers[i].neurons@[j]).bias as int) < pre2.len()
                && pre1[layers[i].neurons@[j].bias as int].data
                == pre2[layers[i].neurons@[j].bias as int].data),
        forall|j: int|
            0 <= j < xs1.len() ==> (((#[trigger] xs1[j]) as int) < pre1.len() && ((
            #[trigger] xs2[j]) as int) < pre2.len() && pre1[xs1[j] as int].data
                == pre2[xs2[j] as int].data),
    ensures
        post1.len() >= pre1.len() && post2.len() >= pre2.len(),
        forall|i: int| 0 <= i < pre1.len() ==> (#[trigger] post1[i]) == pre1[i],
        forall|i: int| 0 <= i < pre2.len() ==> (#[trigger] post2[i]) == pre2[i],
        outs1.len() == outs2.len(),
        forall|p: int|
            0 <= p < outs1.len() ==> (((#[trigger] outs1[p]) as int) < post1.len() && ((
            #[trigger] outs2[p]) as int) < post2.len() && post1[outs1[p] as int].data
                == post2[outs2[p] as int].data),
    decreases layers.len(),
{
    if layers.len() == 0 {
        assert(post1 == pre1 && outs1 == xs1);
        assert(post2 == pre2 && outs2 == xs2);
    } else {
        let (mid1, mid_outs1): (Seq<Value>, Seq<usize>) = choose|
            mid: Seq<Value>,
            mid_outs: Seq<usize>,
        |
            mlp_forward_spec(layers.drop_last(), pre1, mid, xs1, mid_outs, fa, fm, ft)
                && #[trigger] layer_forward_spec(
                layers.last().neurons@,
                mid,
                post1,
                mid_outs,
                outs1,
                fa,
                fm,
                ft,
            );
        let (mid2, mid_outs2): (Seq<Value>, Seq<usize>) = choose|
            mid: Seq<Value>,
            mid_outs: Seq<usize>,
        |
            mlp_forward_spec(layers.drop_last(), pre2, mid, xs2, mid_outs, fa, fm, ft)
                && #[trigger] layer_forward_spec(
                layers.last().neurons@,
                mid,
                post2,
                mid_outs,
                outs2,
                fa,
                fm,
                ft,
            );
        assert forall|i: int, j: int, k: int|
            0 <= i < layers.drop_last().len() && 0 <= j
                < layers.drop_last()[i].neurons@.len() && 0 <= k
                < layers.drop_last()[i].neurons@[j].weights@.len() implies (((
        #[trigger] layers.drop_last()[i].neurons@[j].weights@[k]) as int) < pre1.len()
            && ((layers.drop_last()[i].neurons@[j].weights@[k]) as int) < pre2.len()
            && pre1[layers.drop_last()[i].neurons@[j].weights@[k] as int].data
            == pre2[layers.drop_last()[i].neurons@[j].weights@[k] as int].data) by {
            assert(layers.drop_last()[i] == layers[i]);
            assert(0 <= j < layers[i].neurons@.len());
            assert(0 <= k < layers[i].neurons@[j].weights@.len());
            assert(layers[i].neurons@[j].weights@[k]
                == layers.drop_last()[i].neurons@[j].weights@[k]);
        }
        assert forall|i: int, j: int|
            0 <= i < layers.drop_last().len() && 0 <= j
                < layers.drop_last()[i].neurons@.len() implies (((
        #[trigger] layers.drop_last()[i].neurons@[j]).bias as int) < pre1.len() && ((
        layers.drop_last()[i].neurons@[j]).bias as int) < pre2.len()
            && pre1[layers.drop_last()[i].neurons@[j].bias as int].data
            == pre2[layers.drop_last()[i].neurons@[j].bias as int].data) by {
            assert(layers.drop_last()[i] == layers[i]);
            assert(0 <= j < layers[i].neurons@.len());
        }
        lemma_mlp_forward_deterministic(
            layers.drop_last(),
            pre1,
            mid1,
            xs1,
            mid_outs1,
            pre2,
            mid2,
            xs2,
            mid_outs2,
            fa,
            fm,
            ft,
        );
        let last = layers.last();
        assert(0 <= layers.len() - 1 < layers.len());
        assert(layers[layers.len() - 1] == last);
        lemma_layer_forward_deterministic(
            last.neurons@,
            mid1,
            post1,
            mid_outs1,
            outs1,
            mid2,
            post2,
            mid_outs2,
            outs2,
            fa,
            fm,
            ft,
        );
    }
}

/// The traversal order over a three-node graph whose derived node `2`
/// reads nodes `0` and `1`: the output first, then the leaves in reverse
/// creation order.
proof fn lemma_order_three_nodes(s: Seq<Value>)
    requires
        s.len() == 3,
        wf_nodes(s),
        s[0].prev@.len() == 0,
        s[2].prev@.len() == 2,
        s[1].prev@.len() == 0 || (s[1].prev@.len() == 1 && s[1].prev@[0] == 0usize) || (
        s[1].prev@.len() == 2 && s[1].prev@[0] == 0usize && s[1].prev@[1] == 0usize),
        (s[2].prev@[0] == 0usize && s[2].prev@[1] == 1usize) || (s[2].prev@[0] == 1usize
            && s[2].prev@[1] == 0usize && s[1].prev@.len() >= 1),
    ensures
        backward_order(s, 2) == seq![2usize, 1usize, 0usize],
{
    let e = Seq::<usize>::empty();
    assert(!e.contains(0usize));
    assert(!e.contains(1usize));
    assert(!e.contains(2usize));
    assert(visit_children(s, e, 0, 0) == e);
    assert(visit(s, e, 0) == e.push(0));
    let z = e.push(0);
    assert(z.contains(0usize)) by {
        assert(z[0] == 0usize);
    }
    assert(!z.contains(1usize)) by {
        if z.contains(1usize) {
            let p = choose|p: int| 0 <= p < z.len() && z[p] == 1usize;
        }
    }
    // after node 0 is recorded, visiting node 1 records it next, whatever
    // of the admitted shapes it has
    assert(visit(s, z, 1) == z.push(1)) by {
        if s[1].prev@.len() == 0 {
            assert(visit_children(s, z, 1, 0) == z);
        } else {
            assert(visit(s, z, 0) == z);
            assert(visit_children(s, z, 1, 0) == visit_children(s, visit(s, z, 0), 1, 1));
            if s[1].prev@.len() == 1 {
                assert(visit_children(s, z, 1, 1) == z);
            } else {
                assert(visit_children(s, z, 1, 1) == visit_children(s, visit(s, z, 0), 1, 2));
                assert(visit_children(s, z, 1, 2) == z);
            }
        }
    }
    let zo = z.push(1);
    assert(zo.contains(0usize)) by {
        assert(zo[0] == 0usize);
    }
    assert(zo.contains(1usize)) by {
        assert(zo[1] == 1usize);
    }
    if s[2].prev@[0] == 0usize {
        assert(visit_children(s, e, 2, 0) == visit_children(s, visit(s, e, 0), 2, 1));
        assert(visit_children(s, z, 2, 1) == visit_children(s, visit(s, z, 1), 2, 2));
        assert(visit_children(s, zo, 2, 2) == zo);
        assert(visit(s, e, 2) == zo.push(2));
    } else {
        // node 1 is visited first and pulls node 0 in below itself
        assert(visit(s, e, 1) == zo) by {
            assert(visit_children(s, e, 1, 0) == visit_children(s, visit(s, e, 0), 1, 1));
            if s[1].prev@.len() == 1 {
                assert(visit_children(s, z, 1, 1) == z);
            } else {
                assert(visit(s, z, 0) == z);
                assert(visit_children(s, z, 1, 1) == visit_children(s, visit(s, z, 0), 1, 2));
                assert(visit_children(s, z, 1, 2) == z);
            }
        }
        assert(visit_children(s, e, 2, 0) == visit_children(s, visit(s, e, 1), 2, 1));
        assert(visit(s, zo, 0) == zo);
        assert(visit_children(s, zo, 2, 1) == visit_children(s, visit(s, zo, 0), 2, 2));
        assert(visit_children(s, zo, 2, 2) == zo);
        assert(visit(s, e, 2) == zo.push(2));
    }
    assert(visit(s, e, 2).reverse() =~= seq![2usize, 1usize, 0usize]);
}

/// The addition law: after a backward pass seeded at `z = a + b`, each
/// operand's gradient is its old gradient with the seed added once through
/// the caller's scalar addition — under IEEE addition with seed one, both
/// gradients become one.
pub proof fn lemma_backward_add_law<
    FA: Fn(u64, u64) -> u64,
    FM: Fn(u64, u64) -> u64,
    FD: Fn(u64, u64) -> u64,
>(s: Seq<Value>, s1: Seq<Value>, seed: u64, fa: FA, fm: FM, fd: FD)
    requires
        s.len() == 3,
        wf_nodes(s),
        s[0].op is None,
        s[1].op is None,
        s[2].op == Some(Op::Add),
        s[2].prev@ == seq![0usize, 1usize],
        propagates(
            s.update(2, with_grad(s[2], seed)),
            backward_order(s, 2),
            s1,
            fa,
            fm,
            fd,
        ),
    ensures
        call_ensures(fa, (s[0].grad, seed), s1[0].grad),
        call_ensures(fa, (s[1].grad, seed), s1[1].grad),
        s1[2].grad == seed,
{
    assert(wf_node(s[0], 0));
    assert(wf_node(s[1], 1));
    assert(wf_node(s[2], 2));
    lemma_order_three_nodes(s);
    let ord = backward_order(s, 2);
    assert(ord == seq![2usize, 1usize, 0usize]);
    let seeded = s.update(2, with_grad(s[2], seed));
    let mid1 = choose|mid: Seq<Value>|
        #[trigger] rule_applies(seeded, mid, ord[0], fa, fm, fd) && propagates(
            mid,
            ord.subrange(1, 3),
            s1,
            fa,
            fm,
            fd,
        );
    assert(ord[0] == 2usize);
    assert(seeded[2].op == Some(Op::Add));
    assert(seeded[2].grad == seed);
    assert(seeded[2].prev@ == seq![0usize, 1usize]);
    let (midq, r1, r2): (Seq<Value>, u64, u64) = choose|midq: Seq<Value>, r1: u64, r2: u64|
        #![trigger bumped(fa, seeded, 0, seed, midq, r1), bumped(fa, midq, 1, seed, mid1, r2)]
        bumped(fa, seeded, 0, seed, midq, r1) && bumped(fa, midq, 1, seed, mid1, r2);
    assert(seeded[0] == s[0] && seeded[1] == s[1]);
    assert(midq == seeded.update(0, with_grad(s[0], r1)));
    assert(midq[1] == s[1]);
    assert(mid1 == midq.update(1, with_grad(s[1], r2)));
    assert(mid1[0].grad == r1 && mid1[1].grad == r2 && mid1[2].grad == seed);
    // the two leaf steps change nothing
    let tail1 = ord.subrange(1, 3);
    assert(tail1 =~= seq![1usize, 0usize]);
    assert(tail1[0] == 1usize);
    let mid2 = choose|mid: Seq<Value>|
        #[trigger] rule_applies(mid1, mid, 1usize, fa, fm, fd) && propagates(
            mid,
            tail1.subrange(1, 2),
            s1,
            fa,
            fm,
            fd,
        );
    assert(mid1[1].op is None);
    assert(mid2 == mid1);
    let tail2 = tail1.subrange(1, 2);
    assert(tail2 =~= seq![0usize]);
    assert(tail2[0] == 0usize);
    let mid3 = choose|mid: Seq<Value>|
        #[trigger] rule_applies(mid2, mid, 0usize, fa, fm, fd) && propagates(
            mid,
            tail2.subrange(1, 1),
            s1,
            fa,
            fm,
            fd,
        );
    assert(mid2[0].op is None);
    assert(mid3 == mid2);
    assert(tail2.subrange(1, 1) =~= Seq::<usize>::empty());
    assert(s1 == mid3);
}

/// The multiplication law: after a backward pass seeded at `z = a * b`,
/// `a`'s gradient grows by `b.data * seed` and `b`'s by `a.data * seed`,
/// each through one scalar multiplication and one scalar addition of the
/// caller's semantics.
pub proof fn lemma_backward_mul_law<
    FA: Fn(u64, u64) -> u64,
    FM: Fn(u64, u64) -> u64,
    FD: Fn(u64, u64) -> u64,
>(s: Seq<Value>, s1: Seq<Value>, seed: u64, fa: FA, fm: FM, fd: FD)
    requires
        s.len() == 3,
        wf_nodes(s),
        s[0].op is None,
        s[1].op is None,
        s[2].op == Some(Op::Mul),
        s[2].prev@ == seq![0usize, 1usize],
        propagates(
            s.update(2, with_grad(s[2], seed)),
            backward_order(s, 2),
            s1,
            fa,
            fm,
            fd,
        ),
    ensures
        exists|c1: u64|
            #[trigger] call_ensures(fm, (s[1].data, seed), c1) && call_ensures(
                fa,
                (s[0].grad, c1),
                s1[0].grad,
            ),
        exists|c2: u64|
            #[trigger] call_ensures(fm, (s[0].data, seed), c2) && call_ensures(
                fa,
                (s[1].grad, c2),
                s1[1].grad,
            ),
        s1[2].grad == seed,
{
    assert(wf_node(s[0], 0));
    assert(wf_node(s[1], 1));
    assert(wf_node(s[2], 2));
    lemma_order_three_nodes(s);
    let ord = backward_order(s, 2);
    assert(ord == seq![2usize, 1usize, 0usize]);
    let seeded = s.update(2, with_grad(s[2], seed));
    let mid1 = choose|mid: Seq<Value>|
        #[trigger] rule_applies(seeded, mid, ord[0], fa, fm, fd) && propagates(
            mid,
            ord.subrange(1, 3),
            s1,
            fa,
            fm,
            fd,
        );
    assert(ord[0] == 2usize);
    assert(seeded[2].op == Some(Op::Mul));
    assert(seeded[2].grad == seed);
    assert(seeded[2].prev@ == seq![0usize, 1usize]);
    let (midq, c1, r1, c2, r2): (Seq<Value>, u64, u64, u64, u64) = choose|
        midq: Seq<Value>,
        c1: u64,
        r1: u64,
        c2: u64,
        r2: u64,
    |
        #![trigger call_ensures(fm, (seeded[1].data, seed), c1), bumped(fa, seeded, 0, c1, midq, r1),
            call_ensures(fm, (seeded[0].data, seed), c2), bumped(fa, midq, 1, c2, mid1, r2)]
        {
            &&& call_ensures(fm, (seeded[1].data, seed), c1)
            &&& bumped(fa, seeded, 0, c1, midq, r1)
            &&& call_ensures(fm, (seeded[0].data, seed), c2)
            &&& bumped(fa, midq, 1, c2, mid1, r2)
        };
    assert(seeded[0] == s[0] && seeded[1] == s[1]);
    assert(midq == seeded.update(0, with_grad(s[0], r1)));
    assert(midq[1] == s[1]);
    assert(mid1 == midq.update(1, with_grad(s[1], r2)));
    assert(mid1[0].grad == r1 && mid1[1].grad == r2 && mid1[2].grad == seed);
    let tail1 = ord.subrange(1, 3);
    assert(tail1 =~= seq![1usize, 0usize]);
    assert(tail1[0] == 1usize);
    let mid2 = choose|mid: Seq<Value>|
        #[trigger] rule_applies(mid1, mid, 1usize, fa, fm, fd) && propagates(
            mid,
            tail1.subrange(1, 2),
            s1,
            fa,
            fm,
            fd,
        );
    assert(mid1[1].op is None);
    assert(mid2 == mid1);
    let tail2 = tail1.subrange(1, 2);
    assert(tail2 =~= seq![0usize]);
    assert(tail2[0] == 0usize);
    let mid3 = choose|mid: Seq<Value>|
        #[trigger] rule_applies(mid2, mid, 0usize, fa, fm, fd) && propagates(
            mid,
            tail2.subrange(1, 1),
            s1,
            fa,
            fm,
            fd,
        );
    assert(mid2[0].op is None);
    assert(mid3 == mid2);
    assert(tail2.subrange(1, 1) =~= Seq::<usize>::empty());
    assert(s1 == mid3);
}

/// The tanh law: after a backward pass seeded at `z = tanh(a)`, `a`'s
/// gradient grows by the caller's activation-backward word computed from
/// `z.data` and the seed — `(1 - z.data^2) * seed` under the intended
/// reading.
pub proof fn lemma_backward_tanh_law<
    FA: Fn(u64, u64) -> u64,
    FM: Fn(u64, u64) -> u64,
    FD: Fn(u64, u64) -> u64,
>(s: Seq<Value>, s1: Seq<Value>, seed: u64, fa: FA, fm: FM, fd: FD)
    requires
        s.len() == 2,
        wf_nodes(s),
        s[0].op is None,
        s[1].op == Some(Op::Tanh),
        s[1].prev@ == seq![0usize],
        propagates(
            s.update(1, with_grad(s[1], seed)),
            backward_order(s, 1),
            s1,
            fa,
            fm,
            fd,
        ),
    ensures
        exists|c: u64|
            #[trigger] call_ensures(fd, (s[1].data, seed), c) && call_ensures(
                fa,
                (s[0].grad, c),
                s1[0].grad,
            ),
        s1[1].grad == seed,
{
    assert(wf_node(s[0], 0));
    assert(wf_node(s[1], 1));
    let e = Seq::<usize>::empty();
    assert(!e.contains(0usize));
    assert(!e.contains(1usize));
    assert(visit_children(s, e, 0, 0) == e);
    assert(visit(s, e, 0) == e.push(0));
    assert(visit_children(s, e, 1, 0) == visit_children(s, visit(s, e, 0), 1, 1));
    assert(visit_children(s, e.push(0), 1, 1) == e.push(0));
    assert(visit(s, e, 1) == e.push(0).push(1));
    let ord = backward_order(s, 1);
    assert(ord =~= seq![1usize, 0usize]);
    let seeded = s.update(1, with_grad(s[1], seed));
    let mid1 = choose|mid: Seq<Value>|
        #[trigger] rule_applies(seeded, mid, ord[0], fa, fm, fd) && propagates(
            mid,
            ord.subrange(1, 2),
            s1,
            fa,
            fm,
            fd,
        );
    assert(ord[0] == 1usize);
    assert(seeded[1].op == Some(Op::Tanh));
    assert(seeded[1].grad == seed);
    assert(seeded[1].data == s[1].data);
    assert(seeded[1].prev@ == seq![0usize]);
    let (c, r): (u64, u64) = choose|c: u64, r: u64|
        #![trigger call_ensures(fd, (seeded[1].data, seeded[1].grad), c), bumped(fa, seeded, 0, c, mid1, r)]
        call_ensures(fd, (seeded[1].data, seeded[1].grad), c) && bumped(fa, seeded, 0, c, mid1, r);
    assert(seeded[0] == s[0]);
    assert(mid1 == seeded.update(0, with_grad(s[0], r)));
    assert(mid1[0].grad == r && mid1[1].grad == seed);
    let tail1 = ord.subrange(1, 2);
    assert(tail1 =~= seq![0usize]);
    assert(tail1[0] == 0usize);
    let mid2 = choose|mid: Seq<Value>|
        #[trigger] rule_applies(mid1, mid, 0usize, fa, fm, fd) && propagates(
            mid,
            tail1.subrange(1, 1),
            s1,
            fa,
            fm,
            fd,
        );
    assert(mid1[0].op is None);
    assert(mid2 == mid1);
    assert(tail1.subrange(1, 1) =~= Seq::<usize>::empty());
    assert(s1 == mid2);
}

/// The diamond law: with `p = a * a` and `q = p + a`, node `a` stands
/// under `q` through three paths — twice through the multiply, once
/// directly — and a backward pass seeded at `q` adds one contribution per
/// path into `a`'s gradient: contributions sum, they never overwrite.
/// Under IEEE semantics with seed one this makes `a.gradient` equal
/// `2 * a.data + 1`.
pub proof fn lemma_backward_diamond_law<
    FA: Fn(u64, u64) -> u64,
    FM: Fn(u64, u64) -> u64,
    FD: Fn(u64, u64) -> u64,
>(s: Seq<Value>, s1: Seq<Value>, seed: u64, fa: FA, fm: FM, fd: FD)
    requires
        s.len() == 3,
        wf_nodes(s),
        s[0].op is None,
        s[1].op == Some(Op::Mul),
        s[1].prev@ == seq![0usize, 0usize],
        s[2].op == Some(Op::Add),
        s[2].prev@ == seq![1usize, 0usize],
        propagates(
            s.update(2, with_grad(s[2], seed)),
            backward_order(s, 2),
            s1,
            fa,
            fm,
            fd,
        ),
    ensures
        exists|gq: u64, a1: u64, c1: u64, a2: u64, c2: u64|
            #![trigger call_ensures(fa, (s[1].grad, seed), gq), call_ensures(fa, (s[0].grad, seed), a1),
                call_ensures(fm, (s[0].data, gq), c1), call_ensures(fa, (a1, c1), a2),
                call_ensures(fa, (a2, c2), s1[0].grad)]
            {
                &&& call_ensures(fa, (s[1].grad, seed), gq)
                &&& s1[1].grad == gq
                &&& call_ensures(fa, (s[0].grad, seed), a1)
                &&& call_ensures(fm, (s[0].data, gq), c1)
                &&& call_ensures(fa, (a1, c1), a2)
                &&& call_ensures(fm, (s[0].data, gq), c2)
                &&& call_ensures(fa, (a2, c2), s1[0].grad)
            },
        s1[2].grad == seed,
{
    assert(wf_node(s[0], 0));
    assert(wf_node(s[1], 1));
    assert(wf_node(s[2], 2));
    lemma_order_three_nodes(s);
    let ord = backward_order(s, 2);
    assert(ord == seq![2usize, 1usize, 0usize]);
    let seeded = s.update(2, with_grad(s[2], seed));
    // the add rule of q: p first, then a, both with the seed
    let mid1 = choose|mid: Seq<Value>|
        #[trigger] rule_applies(seeded, mid, ord[0], fa, fm, fd) && propagates(
            mid,
            ord.subrange(1, 3),
            s1,
            fa,
            fm,
            fd,
        );
    assert(ord[0] == 2usize);
    assert(seeded[2].op == Some(Op::Add));
    assert(seeded[2].grad == seed);
    assert(seeded[2].prev@ == seq![1usize, 0usize]);
    let (midq, gq, a1): (Seq<Value>, u64, u64) = choose|midq: Seq<Value>, gq: u64, a1: u64|
        #![trigger bumped(fa, seeded, 1, seed, midq, gq), bumped(fa, midq, 0, seed, mid1, a1)]
        bumped(fa, seeded, 1, seed, midq, gq) && bumped(fa, midq, 0, seed, mid1, a1);
    assert(seeded[0] == s[0] && seeded[1] == s[1]);
    assert(midq == seeded.update(1, with_grad(s[1], gq)));
    assert(midq[0] == s[0]);
    assert(mid1 == midq.update(0, with_grad(s[0], a1)));
    assert(mid1[0].grad == a1 && mid1[1].grad == gq && mid1[2].grad == seed);
    assert(mid1[0].data == s[0].data && mid1[1].data == s[1].data);
    // the mul rule of p: both operands are a, so the two contributions
    // chain through a's already-updated gradient
    let tail1 = ord.subrange(1, 3);
    assert(tail1 =~= seq![1usize, 0usize]);
    assert(tail1[0] == 1usize);
    let mid2 = choose|mid: Seq<Value>|
        #[trigger] rule_applies(mid1, mid, 1usize, fa, fm, fd) && propagates(
            mid,
            tail1.subrange(1, 2),
            s1,
            fa,
            fm,
            fd,
        );
    assert(mid1[1].op == Some(Op::Mul));
    assert(mid1[1].prev@ == seq![0usize, 0usize]);
    let (midm, c1, a2, c2, a3): (Seq<Value>, u64, u64, u64, u64) = choose|
        midm: Seq<Value>,
        c1: u64,
        a2: u64,
        c2: u64,
        a3: u64,
    |
        #![trigger call_ensures(fm, (mid1[0].data, mid1[1].grad), c1), bumped(fa, mid1, 0, c1, midm, a2),
            call_ensures(fm, (mid1[0].data, mid1[1].grad), c2), bumped(fa, midm, 0, c2, mid2, a3)]
        {
            &&& call_ensures(fm, (mid1[0].data, mid1[1].grad), c1)
            &&& bumped(fa, mid1, 0, c1, midm, a2)
            &&& call_ensures(fm, (mid1[0].data, mid1[1].grad), c2)
            &&& bumped(fa, midm, 0, c2, mid2, a3)
        };
    assert(midm == mid1.update(0, with_grad(mid1[0], a2)));
    assert(midm[0].grad == a2);
    assert(mid2 == midm.update(0, with_grad(midm[0], a3)));
    assert(mid2[0].grad == a3 && mid2[1].grad == gq && mid2[2].grad == seed);
    // the leaf step changes nothing
    let tail2 = tail1.subrange(1, 2);
    assert(tail2 =~= seq![0usize]);
    assert(tail2[0] == 0usize);
    let mid3 = choose|mid: Seq<Value>|
        #[trigger] rule_applies(mid2, mid, 0usize, fa, fm, fd) && propagates(
            mid,
            tail2.subrange(1, 1),
            s1,
            fa,
            fm,
            fd,
        );
    assert(mid2[0].op is None);
    assert(mid3 == mid2);
    assert(tail2.subrange(1, 1) =~= Seq::<usize>::empty());
    assert(s1 == mid3);
    assert(call_ensures(fa, (s[1].grad, seed), gq));
    assert(call_ensures(fa, (s[0].grad, seed), a1));
    assert(call_ensures(fm, (s[0].data, gq), c1));
    assert(call_ensures(fa, (a1, c1), a2));
    assert(call_ensures(fm, (s[0].data, gq), c2));
    assert(call_ensures(fa, (a2, c2), s1[0].grad));
}

/// The input width of a layer appended after layers of the given sizes.
pub open spec fn trailing_width(in_width: int, sizes: Seq<usize>) -> int {
    if sizes.len() == 0 {
        in_width
    } else {
        sizes.last() as int
    }
}

proof fn lemma_params_needed_push(in_width: int, sizes: Seq<usize>, x: usize)
    ensures
        params_needed(in_width, sizes.push(x)) == params_needed(in_width, sizes) + x * (
        trailing_width(in_width, sizes) + 1),
    decreases sizes.len(),
{
    if sizes.len() == 0 {
        assert(sizes.push(x)[0] == x);
        assert(sizes.push(x).skip(1) =~= Seq::<usize>::empty());
        assert(params_needed(in_width, sizes.push(x)) == x * (in_width + 1) + params_needed(
            x as int,
            sizes.push(x).skip(1),
        ));
        assert(params_needed(x as int, sizes.push(x).skip(1)) == 0);
        assert(params_needed(in_width, sizes) == 0);
    } else {
        assert(sizes.push(x)[0] == sizes[0]);
        assert(sizes.push(x).skip(1) =~= sizes.skip(1).push(x));
        lemma_params_needed_push(sizes[0] as int, sizes.skip(1), x);
        assert(params_needed(in_width, sizes.push(x)) == sizes[0] * (in_width + 1)
            + params_needed(sizes[0] as int, sizes.skip(1).push(x)));
        assert(params_needed(in_width, sizes) == sizes[0] * (in_width + 1) + params_needed(
            sizes[0] as int,
            sizes.skip(1),
        ));
        assert(trailing_width(sizes[0] as int, sizes.skip(1)) == trailing_width(
            in_width,
            sizes,
        )) by {
            if sizes.len() > 1 {
                assert(sizes.skip(1).last() == sizes.last());
            } else {
                assert(sizes.last() == sizes[0]);
            }
        }
    }
}

proof fn lemma_layer_params_len(ns: Seq<Neuron>, w: int)
    requires
        forall|i: int| 0 <= i < ns.len() ==> (#[trigger] ns[i]).weights@.len() == w,
    ensures
        layer_params(ns).len() == ns.len() * (w + 1),
    decreases ns.len(),
{
    if ns.len() == 0 {
        assert(ns.len() * (w + 1) == 0) by (nonlinear_arith)
            requires
                ns.len() == 0,
        ;
    } else {
        assert forall|i: int| 0 <= i < ns.drop_last().len() implies (
        #[trigger] ns.drop_last()[i]).weights@.len() == w by {
            assert(ns.drop_last()[i] == ns[i]);
        }
        lemma_layer_params_len(ns.drop_last(), w);
        assert(ns[ns.len() - 1].weights@.len() == w);
        assert(ns.last().weights@.len() == w);
        assert(ns.len() * (w + 1) == (ns.len() - 1) * (w + 1) + (w + 1)) by (nonlinear_arith);
    }
}

/// The parameter-count law: a network whose layers chain sizes
/// `[input] + sizes` exposes exactly `sum over layers of
/// size * (previous size + 1)` parameter ids — one weight per input of each
/// neuron plus one bias per neuron.
pub proof fn lemma_mlp_parameter_count(ls: Seq<Layer>, in_width: int, sizes: Seq<usize>)
    requires
        sizes.len() == ls.len(),
        forall|i: int| 0 <= i < ls.len() ==> (#[trigger] ls[i]).neurons@.len() == sizes[i],
        mlp_chained(ls, in_width),
    ensures
        mlp_params(ls).len() == params_needed(in_width, sizes),
    decreases ls.len(),
{
    if ls.len() == 0 {
    } else {
        assert forall|i: int| 0 <= i < ls.drop_last().len() implies layer_uniform(
            #[trigger] ls.drop_last()[i],
            if i == 0 {
                in_width
            } else {
                ls.drop_last()[i - 1].neurons@.len() as int
            },
        ) by {
            assert(ls.drop_last()[i] == ls[i]);
            if i > 0 {
                assert(ls.drop_last()[i - 1] == ls[i - 1]);
            }
            assert(layer_uniform(
                ls[i],
                if i == 0 {
                    in_width
                } else {
                    ls[i - 1].neurons@.len() as int
                },
            ));
        }
        assert forall|i: int|
            0 <= i < ls.drop_last().len() implies (#[trigger] ls.drop_last()[i]).neurons@.len()
            == sizes.drop_last()[i] by {
            assert(ls.drop_last()[i] == ls[i]);
        }
        lemma_mlp_parameter_count(ls.drop_last(), in_width, sizes.drop_last());
        let last = ls.last();
        let w_last: int = if ls.len() == 1 {
            in_width
        } else {
            ls[ls.len() - 2].neurons@.len() as int
        };
        assert(layer_uniform(ls[ls.len() - 1], w_last));
        assert forall|i: int| 0 <= i < last.neurons@.len() implies (
        #[trigger] last.neurons@[i]).weights@.len() == w_last by {
            assert(layer_uniform(last, w_last));
        }
        lemma_layer_params_len(last.neurons@, w_last);
        assert(sizes =~= sizes.drop_last().push(sizes.last()));
        lemma_params_needed_push(in_width, sizes.drop_last(), sizes.last());
        assert(trailing_width(in_width, sizes.drop_last()) == w_last) by {
            if ls.len() > 1 {
                assert(sizes.drop_last().last() == sizes[ls.len() - 2]);
                assert(ls[ls.len() - 2].neurons@.len() == sizes[ls.len() - 2]);
            }
        }
        assert(last.neurons@.len() == sizes.last());
        assert(mlp_params(ls).len() == mlp_params(ls.drop_last()).len() + layer_params(
            last.neurons@,
        ).len());
    }
}

} // verus!
