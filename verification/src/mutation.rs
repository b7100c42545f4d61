//! Parameter mutation: the engine exposes the hook, callers bring the
//! strategy (random perturbation, gradient steps, or anything else).

use vstd::prelude::*;

verus! {

use crate::graph::{Value, ValueTree};

/// Both scalar words may move, the structure may not: this is all a
/// mutation is allowed to do to a node.
pub open spec fn same_structure(a: Value, b: Value) -> bool {
    &&& b.id == a.id
    &&& b.op == a.op
    &&& b.prev@ == a.prev@
    &&& b.label == a.label
}

/// A way of perturbing the parameters of a network. Implementors adjust the
/// scalar words of the given parameter nodes in place; they must leave the
/// graph's structure alone.
pub trait MutationStrategy {
    fn mutate(&mut self, tree: &mut ValueTree, params: &Vec<usize>)
        requires
            old(tree).wf(),
            forall|p: int| 0 <= p < params@.len() ==> ((#[trigger] params@[p]) as int) < old(
                tree,
            )@.len(),
        ensures
            final(tree).wf(),
            final(tree)@.len() == old(tree)@.len(),
            forall|i: int|
                0 <= i < old(tree)@.len() ==> same_structure(old(tree)@[i], final(tree)@[i]),
    ;
}

} // verus!
