//! The model: one network together with the arena that owns its parameter
//! nodes, as the maze demo consumes it.

use vstd::prelude::*;

verus! {

use crate::graph::{label_view, node_like, ValueTree};
use crate::mutation::MutationStrategy;
use crate::nn::{
    layer_like, layer_wf, leaf_with, mlp_forward_spec, lemma_mlp_params_in_tree, mlp_chained, mlp_like, mlp_params,
    mlp_wf, neuron_like, neuron_wf, params_needed, InitSource, MLP,
};

/// A network and the arena holding its parameter leaves.
pub struct Model {
    pub tree: ValueTree,
    pub mlp: MLP,
}

pub open spec fn model_wf(m: Model) -> bool {
    &&& m.tree.wf()
    &&& mlp_wf(m.mlp.layers@, m.tree@)
}

impl Model {
    /// The maze pilot's network shape: four inputs, two hidden layers of
    /// eight, four outputs; parameters initialized from the injected source.
    pub fn random(source: &mut InitSource) -> (m: Model)
        requires
            old(source).remaining() >= params_needed(4, seq![8usize, 8usize, 4usize]),
        ensures
            model_wf(m),
            mlp_chained(m.mlp.layers@, 4),
            m.mlp.layers@.len() == 3,
            m.mlp.layers@.last().neurons@.len() == 4,
            ({
                let ps = mlp_params(m.mlp.layers@);
                &&& m.tree@.len() == ps.len()
                &&& forall|p: int| 0 <= p < ps.len() ==> (#[trigger] ps[p]) as int == p
                &&& forall|p: int|
                    0 <= p < ps.len() ==> leaf_with(
                        #[trigger] m.tree@[p],
                        old(source).words@[old(source).next + p],
                    )
            }),
            final(source).words@ == old(source).words@,
    {
        let mut tree = ValueTree::new();
        let mut counts: Vec<usize> = Vec::new();
        counts.push(8);
        counts.push(8);
        counts.push(4);
        proof {
            assert(counts@ =~= seq![8usize, 8usize, 4usize]);
        }
        let mlp = MLP::new(&mut tree, 4, &counts, source);
        proof {
            let ps = mlp_params(mlp.layers@);
            assert forall|p: int| 0 <= p < ps.len() implies (#[trigger] ps[p]) as int == p by {
                assert(ps[p] as int == 0 + p);
            }
            assert forall|p: int| 0 <= p < ps.len() implies leaf_with(
                #[trigger] tree@[p],
                old(source).words@[old(source).next + p],
            ) by {
                assert(leaf_with(tree@[0 + p], old(source).words@[old(source).next + p]));
            }
        }
        Model { tree, mlp }
    }

    /// A deep copy: fresh arena with the same nodes, same network shape.
    pub fn from(model: &Model) -> (m: Model)
        ensures
            m.tree@.len() == model.tree@.len(),
            forall|i: int|
                0 <= i < model.tree@.len() ==> node_like(model.tree@[i], #[trigger] m.tree@[i]),
            mlp_like(model.mlp, m.mlp),
            model_wf(*model) ==> model_wf(m),
    {
        let tree = model.tree.duplicate();
        let mlp = model.mlp.duplicate();
        let m = Model { tree, mlp };
        proof {
            if model_wf(*model) {
                assert forall|i: int| 0 <= i < m.mlp.layers@.len() implies layer_wf(
                    #[trigger] m.mlp.layers@[i],
                    m.tree@,
                ) by {
                    assert(layer_wf(model.mlp.layers@[i], model.tree@));
                    assert(layer_like(model.mlp.layers@[i], m.mlp.layers@[i]));
                    assert forall|j: int|
                        0 <= j < m.mlp.layers@[i].neurons@.len() implies neuron_wf(
                        #[trigger] m.mlp.layers@[i].neurons@[j],
                        m.tree@,
                    ) by {
                        assert(neuron_wf(model.mlp.layers@[i].neurons@[j], model.tree@));
                        assert(neuron_like(
                            model.mlp.layers@[i].neurons@[j],
                            m.mlp.layers@[i].neurons@[j],
                        ));
                    }
                }
            }
        }
        m
    }

    /// A mutated copy: the original is untouched, the copy's parameter
    /// words are perturbed by the strategy; the graph structure is kept.
    pub fn mutate<S: MutationStrategy>(model: &Model, strategy: &mut S) -> (m: Model)
        requires
            model_wf(*model),
        ensures
            model_wf(m),
            mlp_like(model.mlp, m.mlp),
            m.tree@.len() == model.tree@.len(),
            forall|i: int|
                0 <= i < model.tree@.len() ==> ({
                    let a = model.tree@[i];
                    let b = #[trigger] m.tree@[i];
                    &&& b.id == a.id
                    &&& b.op == a.op
                    &&& b.prev@ == a.prev@
                    &&& label_view(b) == label_view(a)
                }),
    {
        let mut m = Model::from(model);
        let params = m.mlp.parameters();
        let ghost mid_tree = m.tree@;
        proof {
            lemma_mlp_params_in_tree(m.mlp.layers@, m.tree@);
        }
        strategy.mutate(&mut m.tree, &params);
        proof {
            assert forall|i: int| 0 <= i < m.mlp.layers@.len() implies layer_wf(
                #[trigger] m.mlp.layers@[i],
                m.tree@,
            ) by {
                assert(layer_wf(m.mlp.layers@[i], mid_tree));
                assert forall|j: int|
                    0 <= j < m.mlp.layers@[i].neurons@.len() implies neuron_wf(
                    #[trigger] m.mlp.layers@[i].neurons@[j],
                    m.tree@,
                ) by {
                    assert(neuron_wf(m.mlp.layers@[i].neurons@[j], mid_tree));
                }
            }
        }
        m
    }

    /// One forward evaluation: builds input leaves for the given scalar
    /// words, runs the network over them, and returns the output nodes'
    /// scalar words. Parameter nodes and all earlier nodes are untouched.
    pub fn forward<
        FA: Fn(u64, u64) -> u64,
        FM: Fn(u64, u64) -> u64,
        FT: Fn(u64) -> u64,
    >(&mut self, inputs: &Vec<u64>, add_op: &FA, mul_op: &FM, tanh_op: &FT) -> (r: Vec<u64>)
        requires
            model_wf(*old(self)),
            mlp_chained(old(self).mlp.layers@, inputs@.len() as int),
            forall|x: u64, y: u64| call_requires(*add_op, (x, y)),
            forall|x: u64, y: u64| call_requires(*mul_op, (x, y)),
            forall|x: u64| call_requires(*tanh_op, (x,)),
        ensures
            model_wf(*final(self)),
            final(self).mlp == old(self).mlp,
            final(self).tree@.len() >= old(self).tree@.len() + inputs@.len(),
            forall|i: int|
                0 <= i < old(self).tree@.len() ==> final(self).tree@[i] == old(self).tree@[i],
            forall|j: int|
                0 <= j < inputs@.len() ==> leaf_with(
                    #[trigger] final(self).tree@[old(self).tree@.len() + j],
                    inputs@[j],
                ),
            r@.len() == (if old(self).mlp.layers@.len() == 0 {
                inputs@.len() as int
            } else {
                old(self).mlp.layers@.last().neurons@.len() as int
            }),
            exists|xs_ids: Seq<usize>, outs: Seq<usize>|
                {
                    &&& xs_ids.len() == inputs@.len()
                    &&& forall|j: int|
                        0 <= j < xs_ids.len() ==> (#[trigger] xs_ids[j]) as int == old(
                            self,
                        ).tree@.len() + j
                    &&& #[trigger] mlp_forward_spec(
                        old(self).mlp.layers@,
                        final(self).tree@.take(old(self).tree@.len() + inputs@.len() as int),
                        final(self).tree@,
                        xs_ids,
                        outs,
                        *add_op,
                        *mul_op,
                        *tanh_op,
                    )
                    &&& outs.len() == r@.len()
                    &&& forall|p: int|
                        0 <= p < outs.len() ==> (((#[trigger] outs[p]) as int)
                            < final(self).tree@.len() && r@[p] == final(self).tree@[outs[p] as int].data)
                },
    {
        let ghost pre0 = self.tree@;
        let ghost l0 = self.tree@.len() as int;
        let mut xs: Vec<usize> = Vec::new();
        let mut j: usize = 0;
        while j < inputs.len()
            invariant
                self.tree.wf(),
                j <= inputs@.len(),
                pre0.len() == l0,
                self.tree@.len() == l0 + j,
                forall|q: int| 0 <= q < l0 ==> self.tree@[q] == pre0[q],
                xs@.len() == j,
                forall|q: int| 0 <= q < j ==> (#[trigger] xs@[q]) as int == l0 + q,
                forall|q: int|
                    0 <= q < j ==> leaf_with(#[trigger] self.tree@[l0 + q], inputs@[q]),
                self.mlp == old(self).mlp,
            decreases inputs@.len() - j,
        {
            let w = inputs[j];
            let id = self.tree.create_value(w, "");
            xs.push(id);
            j = j + 1;
        }
        let ghost mid_tree = self.tree@;
        proof {
            assert forall|i: int| 0 <= i < self.mlp.layers@.len() implies layer_wf(
                #[trigger] self.mlp.layers@[i],
                self.tree@,
            ) by {
                assert(layer_wf(self.mlp.layers@[i], pre0));
                assert forall|q: int|
                    0 <= q < self.mlp.layers@[i].neurons@.len() implies neuron_wf(
                    #[trigger] self.mlp.layers@[i].neurons@[q],
                    self.tree@,
                ) by {
                    assert(neuron_wf(self.mlp.layers@[i].neurons@[q], pre0));
                }
            }
        }
        let out_ids = self.mlp.forward(&mut self.tree, xs, add_op, mul_op, tanh_op);
        let ghost xs_ids = xs@;
        let mut r: Vec<u64> = Vec::new();
        let mut p: usize = 0;
        while p < out_ids.len()
            invariant
                p <= out_ids@.len(),
                forall|q: int|
                    0 <= q < out_ids@.len() ==> ((#[trigger] out_ids@[q]) as int)
                        < self.tree@.len(),
                r@.len() == p,
                forall|q: int|
                    0 <= q < p ==> r@[q] == self.tree@[(#[trigger] out_ids@[q]) as int].data,
            decreases out_ids@.len() - p,
        {
            let d = self.tree.data(out_ids[p]);
            r.push(d);
            p = p + 1;
        }
        proof {
            assert(self.tree@.take(l0 + inputs@.len() as int) =~= mid_tree);
            assert(mlp_forward_spec(
                old(self).mlp.layers@,
                self.tree@.take(l0 + inputs@.len() as int),
                self.tree@,
                xs_ids,
                out_ids@,
                *add_op,
                *mul_op,
                *tanh_op,
            ));
        }
        r
    }
}

} // verus!
