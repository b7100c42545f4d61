//! The computation graph: an append-only arena of scalar nodes, eager forward
//! construction, and the reverse-mode gradient pass.
//!
//! A node's `data` and `grad` are opaque 64-bit scalar words. The engine never
//! computes on them itself: every arithmetic step goes through an operation
//! closure handed in by the caller, and the contracts relate each stored word
//! to the closure's input/output relation (`call_ensures`).

use vstd::prelude::*;

verus! {

use vstd::pervasive::VecAdditionalExecFns;

/// The operation that produced a derived node. Leaves carry no tag.
#[derive(Copy, Clone, Debug, PartialEq, Eq, Structural)]
pub enum Op {
    Add,
    Mul,
    Tanh,
}

/// One vertex of the computation graph: a scalar word, its gradient
/// accumulator, an optional diagnostic label, the operation tag, and the ids
/// of the operand nodes it was computed from.
pub struct Value {
    pub id: usize,
    pub data: u64,
    pub grad: u64,
    pub label: Option<String>,
    pub op: Option<Op>,
    pub prev: Vec<usize>,
}

/// The label as a mathematical value, so contracts can speak of it without
/// depending on `String`'s opaque equality.
pub open spec fn label_view(v: Value) -> Option<Seq<char>> {
    match v.label {
        Some(s) => Some(s@),
        None => None,
    }
}

/// `v` with its gradient word replaced: the only kind of node update the
/// backward pass ever performs.
pub open spec fn with_grad(v: Value, g: u64) -> Value {
    Value { id: v.id, data: v.data, grad: g, label: v.label, op: v.op, prev: v.prev }
}

/// Same node up to the gradient word: backward changes nothing else.
pub open spec fn same_but_grad(a: Value, b: Value) -> bool {
    &&& b.id == a.id
    &&& b.data == a.data
    &&& b.op == a.op
    &&& b.prev@ == a.prev@
    &&& b.label == a.label
}

/// Well-formedness of the node stored at index `i`: its id is its index, its
/// operand count fits its operation, and every operand was created strictly
/// earlier. The last point is what makes the graph a forward-built DAG.
pub open spec fn wf_node(v: Value, i: int) -> bool {
    &&& v.id == i
    &&& match v.op {
        None => v.prev@.len() == 0,
        Some(Op::Add) => v.prev@.len() == 2,
        Some(Op::Mul) => v.prev@.len() == 2,
        Some(Op::Tanh) => v.prev@.len() == 1,
    }
    &&& forall|k: int| 0 <= k < v.prev@.len() ==> (#[trigger] v.prev@[k]) < i
}

pub open spec fn wf_nodes(s: Seq<Value>) -> bool {
    forall|i: int| 0 <= i < s.len() ==> wf_node(#[trigger] s[i], i)
}

impl Value {
    /// The node's id, as stored; under a well-formed arena it is the
    /// node's index.
    pub fn id(&self) -> (i: usize)
        ensures
            i == self.id,
    {
        self.id
    }
}

/// The arena: exclusive owner of all nodes, which the rest of the world
/// references only by id.
pub struct ValueTree {
    pub values: Vec<Value>,
}

impl View for ValueTree {
    type V = Seq<Value>;

    open spec fn view(&self) -> Seq<Value> {
        self.values@
    }
}

impl ValueTree {
    pub open spec fn wf(self) -> bool {
        wf_nodes(self@)
    }

    pub fn new() -> (tree: ValueTree)
        ensures
            tree.wf(),
            tree@.len() == 0,
    {
        ValueTree { values: Vec::new() }
    }

    /// Appends a leaf node: no operands, no operation, gradient word zero.
    pub fn create_value(&mut self, data: u64, label: &str) -> (id: usize)
        requires
            old(self).wf(),
        ensures
            final(self).wf(),
            id == old(self)@.len(),
            final(self)@.len() == old(self)@.len() + 1,
            forall|i: int| 0 <= i < old(self)@.len() ==> final(self)@[i] == old(self)@[i],
            ({
                let v = final(self)@[id as int];
                &&& v.id == id
                &&& v.data == data
                &&& v.grad == 0
                &&& v.op is None
                &&& v.prev@ == Seq::<usize>::empty()
                &&& label_view(v) == Some(label@)
            }),
    {
        let id = self.values.len();
        let node = Value {
            id,
            data,
            grad: 0,
            label: Some(label.to_owned()),
            op: None,
            prev: Vec::new(),
        };
        self.values.push(node);
        proof {
            assert(final(self)@[id as int].prev@ =~= Seq::<usize>::empty());
        }
        id
    }

    /// Appends a derived node for `first + second`, evaluating its scalar word
    /// eagerly through the caller's addition closure.
    pub fn add_values<F: Fn(u64, u64) -> u64>(
        &mut self,
        first_id: usize,
        second_id: usize,
        label: &str,
        f: &F,
    ) -> (id: usize)
        requires
            old(self).wf(),
            first_id < old(self)@.len(),
            second_id < old(self)@.len(),
            forall|x: u64, y: u64| call_requires(*f, (x, y)),
        ensures
            final(self).wf(),
            id == old(self)@.len(),
            final(self)@.len() == old(self)@.len() + 1,
            forall|i: int| 0 <= i < old(self)@.len() ==> final(self)@[i] == old(self)@[i],
            ({
                let v = final(self)@[id as int];
                &&& v.id == id
                &&& v.grad == 0
                &&& v.op == Some(Op::Add)
                &&& v.prev@ == seq![first_id, second_id]
                &&& label_view(v) == Some(label@)
                &&& call_ensures(
                    *f,
                    (old(self)@[first_id as int].data, old(self)@[second_id as int].data),
                    v.data,
                )
            }),
    {
        let data = f(self.values[first_id].data, self.values[second_id].data);
        let id = self.values.len();
        let mut prev: Vec<usize> = Vec::new();
        prev.push(first_id);
        prev.push(second_id);
        let node = Value {
            id,
            data,
            grad: 0,
            label: Some(label.to_owned()),
            op: Some(Op::Add),
            prev,
        };
        self.values.push(node);
        proof {
            assert(final(self)@[id as int].prev@ =~= seq![first_id, second_id]);
        }
        id
    }

    /// Appends a derived node for `first * second`, evaluating its scalar word
    /// eagerly through the caller's multiplication closure.
    pub fn mul_values<F: Fn(u64, u64) -> u64>(
        &mut self,
        first_id: usize,
        second_id: usize,
        label: &str,
        f: &F,
    ) -> (id: usize)
        requires
            old(self).wf(),
            first_id < old(self)@.len(),
            second_id < old(self)@.len(),
            forall|x: u64, y: u64| call_requires(*f, (x, y)),
        ensures
            final(self).wf(),
            id == old(self)@.len(),
            final(self)@.len() == old(self)@.len() + 1,
            forall|i: int| 0 <= i < old(self)@.len() ==> final(self)@[i] == old(self)@[i],
            ({
                let v = final(self)@[id as int];
                &&& v.id == id
                &&& v.grad == 0
                &&& v.op == Some(Op::Mul)
                &&& v.prev@ == seq![first_id, second_id]
                &&& label_view(v) == Some(label@)
                &&& call_ensures(
                    *f,
                    (old(self)@[first_id as int].data, old(self)@[second_id as int].data),
                    v.data,
                )
            }),
    {
        let data = f(self.values[first_id].data, self.values[second_id].data);
        let id = self.values.len();
        let mut prev: Vec<usize> = Vec::new();
        prev.push(first_id);
        prev.push(second_id);
        let node = Value {
            id,
            data,
            grad: 0,
            label: Some(label.to_owned()),
            op: Some(Op::Mul),
            prev,
        };
        self.values.push(node);
        proof {
            assert(final(self)@[id as int].prev@ =~= seq![first_id, second_id]);
        }
        id
    }

    /// Appends a derived node for `tanh(input)`, evaluating its scalar word
    /// eagerly through the caller's activation closure.
    pub fn tanh_value<F: Fn(u64) -> u64>(&mut self, value_id: usize, label: &str, f: &F) -> (id:
        usize)
        requires
            old(self).wf(),
            value_id < old(self)@.len(),
            forall|x: u64| call_requires(*f, (x,)),
        ensures
            final(self).wf(),
            id == old(self)@.len(),
            final(self)@.len() == old(self)@.len() + 1,
            forall|i: int| 0 <= i < old(self)@.len() ==> final(self)@[i] == old(self)@[i],
            ({
                let v = final(self)@[id as int];
                &&& v.id == id
                &&& v.grad == 0
                &&& v.op == Some(Op::Tanh)
                &&& v.prev@ == seq![value_id]
                &&& label_view(v) == Some(label@)
                &&& call_ensures(*f, (old(self)@[value_id as int].data,), v.data)
            }),
    {
        let data = f(self.values[value_id].data);
        let id = self.values.len();
        let mut prev: Vec<usize> = Vec::new();
        prev.push(value_id);
        let node = Value {
            id,
            data,
            grad: 0,
            label: Some(label.to_owned()),
            op: Some(Op::Tanh),
            prev,
        };
        self.values.push(node);
        proof {
            assert(final(self)@[id as int].prev@ =~= seq![value_id]);
        }
        id
    }

    /// Reads a node's scalar word.
    pub fn data(&self, id: usize) -> (d: u64)
        requires
            id < self@.len(),
        ensures
            d == self@[id as int].data,
    {
        self.values[id].data
    }

    /// Reads a node's gradient word.
    pub fn grad(&self, id: usize) -> (g: u64)
        requires
            id < self@.len(),
        ensures
            g == self@[id as int].grad,
    {
        self.values[id].grad
    }

    /// Overwrites a node's scalar word; a trainer uses this to apply updates.
    pub fn set_data(&mut self, id: usize, data: u64)
        requires
            old(self).wf(),
            id < old(self)@.len(),
        ensures
            final(self).wf(),
            final(self)@ == old(self)@.update(id as int, with_grad_and_data(old(self)@[id as int], old(self)@[id as int].grad, data)),
    {
        let grad = self.values[id].grad;
        self.replace_words(id, data, grad);
    }

    /// Overwrites a node's gradient word; a trainer uses this to zero
    /// gradients before a backward pass.
    pub fn set_grad(&mut self, id: usize, grad: u64)
        requires
            old(self).wf(),
            id < old(self)@.len(),
        ensures
            final(self).wf(),
            final(self)@ == old(self)@.update(id as int, with_grad(old(self)@[id as int], grad)),
    {
        let data = self.values[id].data;
        self.replace_words(id, data, grad);
    }

    /// Replaces both scalar words of one node, leaving its structure alone.
    fn replace_words(&mut self, id: usize, data: u64, grad: u64)
        requires
            old(self).wf(),
            id < old(self)@.len(),
        ensures
            final(self).wf(),
            final(self)@ == old(self)@.update(id as int, with_grad_and_data(old(self)@[id as int], grad, data)),
    {
        let mut node = Value {
            id: 0,
            data,
            grad,
            label: None,
            op: None,
            prev: Vec::new(),
        };
        self.values.set_and_swap(id, &mut node);
        let fresh = Value {
            id: node.id,
            data,
            grad,
            label: node.label,
            op: node.op,
            prev: node.prev,
        };
        self.values.set(id, fresh);
        proof {
            assert(final(self)@ =~= old(self)@.update(
                id as int,
                with_grad_and_data(old(self)@[id as int], grad, data),
            ));
            assert forall|i: int| 0 <= i < final(self)@.len() implies wf_node(
                #[trigger] final(self)@[i],
                i,
            ) by {
                assert(wf_node(old(self)@[i], i));
            }
        }
    }
}

/// `v` with both scalar words replaced.
pub open spec fn with_grad_and_data(v: Value, g: u64, d: u64) -> Value {
    Value { id: v.id, data: d, grad: g, label: v.label, op: v.op, prev: v.prev }
}

/// Is `j` in the operand cone of `i` (including `i` itself)? These are exactly
/// the nodes whose gradients a backward pass from `i` may touch.
pub open spec fn reaches(s: Seq<Value>, i: usize, j: usize) -> bool
    decreases i,
{
    (i as int) < s.len() && (i == j || exists|k: int|
        0 <= k < s[i as int].prev@.len() && (#[trigger] s[i as int].prev@[k]) < i && reaches(
            s,
            s[i as int].prev@[k],
            j,
        ))
}

/// Everything the operand cone can reach has a smaller-or-equal index.
pub proof fn lemma_reaches_le(s: Seq<Value>, i: usize, j: usize)
    requires
        reaches(s, i, j),
    ensures
        j <= i,
    decreases i,
{
    if i != j {
        let k = choose|k: int|
            0 <= k < s[i as int].prev@.len() && (#[trigger] s[i as int].prev@[k]) < i && reaches(
                s,
                s[i as int].prev@[k],
                j,
            );
        lemma_reaches_le(s, s[i as int].prev@[k], j);
    }
}

/// Reaching through one operand edge stays within the cone.
pub proof fn lemma_reaches_step(s: Seq<Value>, i: usize, j: usize, k: int)
    requires
        wf_nodes(s),
        reaches(s, i, j),
        0 <= k < s[j as int].prev@.len(),
    ensures
        reaches(s, i, s[j as int].prev@[k]),
    decreases i,
{
    lemma_reaches_le(s, i, j);
    if i == j {
        assert(wf_node(s[j as int], j as int));
        let c = s[j as int].prev@[k];
        assert(reaches(s, c, c));
    } else {
        let m = choose|m: int|
            0 <= m < s[i as int].prev@.len() && (#[trigger] s[i as int].prev@[m]) < i && reaches(
                s,
                s[i as int].prev@[m],
                j,
            );
        lemma_reaches_step(s, s[i as int].prev@[m], j, k);
    }
}

/// `r` carries `a` unchanged as its prefix.
pub open spec fn extends(r: Seq<usize>, a: Seq<usize>) -> bool {
    r.len() >= a.len() && forall|p: int| 0 <= p < a.len() ==> r[p] == a[p]
}

pub proof fn lemma_extends_contains(r: Seq<usize>, a: Seq<usize>, x: usize)
    requires
        extends(r, a),
        a.contains(x),
    ensures
        r.contains(x),
{
    let p = choose|p: int| 0 <= p < a.len() && a[p] == x;
    assert(r[p] == x);
}

pub proof fn lemma_push_contains(a: Seq<usize>, v: usize, x: usize)
    ensures
        a.push(v).contains(x) <==> a.contains(x) || x == v,
{
    if a.contains(x) {
        let p = choose|p: int| 0 <= p < a.len() && a[p] == x;
        assert(a.push(v)[p] == x);
    }
    if x == v {
        assert(a.push(v)[a.len() as int] == x);
    }
    if a.push(v).contains(x) {
        let p = choose|p: int| 0 <= p < a.push(v).len() && a.push(v)[p] == x;
        if p < a.len() {
            assert(a[p] == x);
        }
    }
}

/// A record of visited nodes that is closed under operand edges.
pub open spec fn operand_closed(s: Seq<Value>, acc: Seq<usize>) -> bool {
    forall|j: usize, k: int|
        #![trigger acc.contains(j), s[j as int].prev@[k]]
        acc.contains(j) && 0 <= k < s[j as int].prev@.len() ==> acc.contains(s[j as int].prev@[k])
}

pub open spec fn all_below(acc: Seq<usize>, n: int) -> bool {
    forall|p: int| 0 <= p < acc.len() ==> (#[trigger] acc[p]) < n
}

pub open spec fn no_dup(acc: Seq<usize>) -> bool {
    forall|p: int, q: int| 0 <= p < q < acc.len() ==> acc[p] != acc[q]
}

/// Is `c` recorded at some position strictly before `p`?
pub open spec fn recorded_before(acc: Seq<usize>, p: int, c: usize) -> bool {
    exists|q: int| 0 <= q < p && acc[q] == c
}

/// Every operand of a recorded node is recorded at a strictly earlier
/// position: the record is in post-order.
pub open spec fn post_ordered(s: Seq<Value>, acc: Seq<usize>) -> bool {
    forall|p: int, k: int|
        #![trigger s[acc[p] as int].prev@[k]]
        0 <= p < acc.len() && 0 <= k < s[acc[p] as int].prev@.len() ==> recorded_before(
            acc,
            p,
            s[acc[p] as int].prev@[k],
        )
}

/// The shape every intermediate visit record keeps.
pub open spec fn good_record(s: Seq<Value>, acc: Seq<usize>) -> bool {
    &&& operand_closed(s, acc)
    &&& all_below(acc, s.len() as int)
    &&& no_dup(acc)
    &&& post_ordered(s, acc)
}

/// If a closed record holds `i`, it holds `i`'s whole operand cone.
pub proof fn lemma_closed_reaches(s: Seq<Value>, acc: Seq<usize>, i: usize, j: usize)
    requires
        operand_closed(s, acc),
        acc.contains(i),
        reaches(s, i, j),
    ensures
        acc.contains(j),
    decreases i,
{
    if i != j {
        let k = choose|k: int|
            0 <= k < s[i as int].prev@.len() && (#[trigger] s[i as int].prev@[k]) < i && reaches(
                s,
                s[i as int].prev@[k],
                j,
            );
        assert(acc.contains(s[i as int].prev@[k]));
        lemma_closed_reaches(s, acc, s[i as int].prev@[k], j);
    }
}

/// Depth-first post-order visit of the operand cone of `i`, pruned by the
/// record `acc` of nodes already visited. This is the mathematical form of
/// the traversal the backward pass runs.
pub open spec fn visit(s: Seq<Value>, acc: Seq<usize>, i: usize) -> Seq<usize>
    decreases i, 1int, 0int,
{
    if acc.contains(i) || (i as int) >= s.len() {
        acc
    } else {
        visit_children(s, acc, i, 0).push(i)
    }
}

pub open spec fn visit_children(s: Seq<Value>, acc: Seq<usize>, i: usize, k: int) -> Seq<usize>
    decreases i, 0int, (if (i as int) < s.len() { s[i as int].prev@.len() - k } else { 0 }),
{
    if (i as int) < s.len() && 0 <= k < s[i as int].prev@.len() {
        let c = s[i as int].prev@[k];
        if c < i {
            visit_children(s, visit(s, acc, c), i, k + 1)
        } else {
            acc
        }
    } else {
        acc
    }
}

/// The order a backward pass processes: consumers first, operands later.
pub open spec fn backward_order(s: Seq<Value>, i: usize) -> Seq<usize> {
    visit(s, Seq::<usize>::empty(), i).reverse()
}

/// What one `visit` call adds to the record: its result extends the record,
/// stays well shaped, and holds exactly the old record plus the operand cone
/// of `i`.
pub proof fn lemma_visit(s: Seq<Value>, acc: Seq<usize>, i: usize)
    requires
        wf_nodes(s),
        (i as int) < s.len(),
        good_record(s, acc),
    ensures
        ({
            let r = visit(s, acc, i);
            &&& extends(r, acc)
            &&& good_record(s, r)
            &&& r.contains(i)
            &&& forall|j: usize| #![trigger r.contains(j)]
                r.contains(j) <==> acc.contains(j) || reaches(s, i, j)
        }),
    decreases i, 1int, 0int,
{
    let r = visit(s, acc, i);
    if acc.contains(i) {
        assert(r == acc);
        assert forall|j: usize| #![trigger r.contains(j)]
            r.contains(j) <==> acc.contains(j) || reaches(s, i, j) by {
            if reaches(s, i, j) {
                lemma_closed_reaches(s, acc, i, j);
            }
        }
    } else {
        assert(wf_node(s[i as int], i as int));
        lemma_visit_children(s, acc, i, 0);
        let rc = visit_children(s, acc, i, 0);
        assert(r == rc.push(i));
        // `i` is fresh in `rc`: anything in `rc` is either old or reachable
        // from a strict operand, hence has index below `i`.
        assert(!rc.contains(i)) by {
            if rc.contains(i) {
                if !acc.contains(i) {
                    let m = choose|m: int|
                        0 <= m < s[i as int].prev@.len() && reaches(
                            s,
                            (#[trigger] s[i as int].prev@[m]),
                            i,
                        );
                    lemma_reaches_le(s, s[i as int].prev@[m], i);
                }
            }
        }
        assert(extends(r, acc)) by {
            assert(forall|p: int| 0 <= p < acc.len() ==> r[p] == rc[p] && rc[p] == acc[p]);
        }
        assert(r.contains(i)) by {
            assert(r[r.len() - 1] == i);
        }
        // every strict operand of i is in rc
        assert forall|k: int| 0 <= k < s[i as int].prev@.len() implies rc.contains(
            #[trigger] s[i as int].prev@[k],
        ) by {
            let c = s[i as int].prev@[k];
            assert(reaches(s, c, c));
        }
        assert(operand_closed(s, r)) by {
            assert forall|j: usize, k: int|
                #![trigger r.contains(j), s[j as int].prev@[k]]
                r.contains(j) && 0 <= k < s[j as int].prev@.len() implies r.contains(
                s[j as int].prev@[k],
            ) by {
                lemma_push_contains(rc, i, j);
                if rc.contains(j) {
                    assert(rc.contains(s[j as int].prev@[k]));
                    lemma_push_contains(rc, i, s[j as int].prev@[k]);
                } else {
                    assert(j == i);
                    assert(rc.contains(s[i as int].prev@[k]));
                    lemma_push_contains(rc, i, s[j as int].prev@[k]);
                }
            }
        }
        assert(all_below(r, s.len() as int));
        assert(no_dup(r)) by {
            assert forall|p: int, q: int| 0 <= p < q < r.len() implies r[p] != r[q] by {
                if q < rc.len() {
                    assert(r[p] == rc[p] && r[q] == rc[q]);
                } else {
                    assert(r[q] == i);
                    assert(r[p] == rc[p]);
                    assert(rc.contains(rc[p]));
                }
            }
        }
        assert(post_ordered(s, r)) by {
            assert forall|p: int, k: int|
                #![trigger s[r[p] as int].prev@[k]]
                0 <= p < r.len() && 0 <= k < s[r[p] as int].prev@.len() implies recorded_before(
                r,
                p,
                s[r[p] as int].prev@[k],
            ) by {
                if p < rc.len() {
                    assert(r[p] == rc[p]);
                    assert(0 <= k < s[rc[p] as int].prev@.len());
                    assert(recorded_before(rc, p, s[rc[p] as int].prev@[k]));
                    let q = choose|q: int| 0 <= q < p && rc[q] == s[rc[p] as int].prev@[k];
                    assert(r[q] == rc[q]);
                    assert(0 <= q < p && r[q] == s[r[p] as int].prev@[k]);
                } else {
                    assert(r[p] == i);
                    assert(rc.contains(s[i as int].prev@[k]));
                    let q = choose|q: int| 0 <= q < rc.len() && rc[q] == s[i as int].prev@[k];
                    assert(r[q] == rc[q]);
                    assert(0 <= q < p && r[q] == s[r[p] as int].prev@[k]);
                }
            }
        }
        assert forall|j: usize| #![trigger r.contains(j)]
            r.contains(j) <==> acc.contains(j) || reaches(s, i, j) by {
            lemma_push_contains(rc, i, j);
            if r.contains(j) {
                if j == i {
                    assert(reaches(s, i, j));
                } else {
                    assert(rc.contains(j));
                    if !acc.contains(j) {
                        let m = choose|m: int|
                            0 <= m < s[i as int].prev@.len() && reaches(
                                s,
                                (#[trigger] s[i as int].prev@[m]),
                                j,
                            );
                        assert(s[i as int].prev@[m] < i);
                        assert(reaches(s, i, j));
                    }
                }
            }
            if acc.contains(j) {
                lemma_extends_contains(rc, acc, j);
            }
            if reaches(s, i, j) && j != i {
                let m = choose|m: int|
                    0 <= m < s[i as int].prev@.len() && (#[trigger] s[i as int].prev@[m]) < i
                        && reaches(s, s[i as int].prev@[m], j);
                assert(rc.contains(j));
            }
        }
    }
}

/// The companion of `lemma_visit` for the child sweep starting at operand `k`.
pub proof fn lemma_visit_children(s: Seq<Value>, acc: Seq<usize>, i: usize, k: int)
    requires
        wf_nodes(s),
        (i as int) < s.len(),
        0 <= k <= s[i as int].prev@.len(),
        good_record(s, acc),
    ensures
        ({
            let r = visit_children(s, acc, i, k);
            &&& extends(r, acc)
            &&& good_record(s, r)
            &&& forall|j: usize| #![trigger r.contains(j)]
                r.contains(j) <==> acc.contains(j) || exists|m: int|
                    k <= m < s[i as int].prev@.len() && reaches(
                        s,
                        (#[trigger] s[i as int].prev@[m]),
                        j,
                    )
        }),
    decreases i, 0int, s[i as int].prev@.len() - k,
{
    let r = visit_children(s, acc, i, k);
    assert(wf_node(s[i as int], i as int));
    if k == s[i as int].prev@.len() {
        assert(r == acc);
    } else {
        let c = s[i as int].prev@[k];
        assert(c < i);
        lemma_visit(s, acc, c);
        let acc1 = visit(s, acc, c);
        lemma_visit_children(s, acc1, i, k + 1);
        assert(r == visit_children(s, acc1, i, k + 1));
        assert(extends(r, acc));
        assert forall|j: usize| #![trigger r.contains(j)]
            r.contains(j) <==> acc.contains(j) || exists|m: int|
                k <= m < s[i as int].prev@.len() && reaches(
                    s,
                    (#[trigger] s[i as int].prev@[m]),
                    j,
                ) by {
            if r.contains(j) && !acc.contains(j) {
                if acc1.contains(j) {
                    assert(reaches(s, c, j));
                    assert(0 <= k < s[i as int].prev@.len() && reaches(
                        s,
                        (s[i as int].prev@[k]),
                        j,
                    ));
                } else {
                    let m = choose|m: int|
                        k + 1 <= m < s[i as int].prev@.len() && reaches(
                            s,
                            (#[trigger] s[i as int].prev@[m]),
                            j,
                        );
                    assert(k <= m < s[i as int].prev@.len() && reaches(
                        s,
                        (s[i as int].prev@[m]),
                        j,
                    ));
                }
            }
            if acc.contains(j) {
                lemma_extends_contains(acc1, acc, j);
                lemma_extends_contains(r, acc1, j);
            }
            if exists|m: int|
                k <= m < s[i as int].prev@.len() && reaches(
                    s,
                    (#[trigger] s[i as int].prev@[m]),
                    j,
                ) {
                let m = choose|m: int|
                    k <= m < s[i as int].prev@.len() && reaches(
                        s,
                        (#[trigger] s[i as int].prev@[m]),
                        j,
                    );
                if m == k {
                    assert(acc1.contains(j));
                    lemma_extends_contains(r, acc1, j);
                } else {
                    assert(k + 1 <= m < s[i as int].prev@.len() && reaches(
                        s,
                        (s[i as int].prev@[m]),
                        j,
                    ));
                    assert(r.contains(j));
                }
            }
        }
    }
}

/// Is `j` the node of some frame of the traversal stack?
pub open spec fn on_stack(st: Seq<(usize, usize)>, j: usize) -> bool {
    exists|t: int| 0 <= t < st.len() && (#[trigger] st[t]).0 == j
}

/// Runs the suspended child sweeps of the stacked frames to completion, top
/// frame first: what the iterative traversal will have recorded once the
/// stack drains, starting from the record `acc`.
pub open spec fn finish(s: Seq<Value>, acc: Seq<usize>, st: Seq<(usize, usize)>) -> Seq<usize>
    decreases st.len(),
{
    if st.len() == 0 {
        acc
    } else {
        let fr = st.last();
        finish(s, visit_children(s, acc, fr.0, fr.1 as int).push(fr.0), st.drop_last())
    }
}

/// Work left on the stack, for termination of the traversal loop.
pub open spec fn stack_weight(s: Seq<Value>, st: Seq<(usize, usize)>) -> nat
    decreases st.len(),
{
    if st.len() == 0 {
        0
    } else {
        let fr = st.last();
        stack_weight(s, st.drop_last()) + 1 + (if (fr.0 as int) < s.len() && fr.1
            <= s[fr.0 as int].prev@.len() {
            (s[fr.0 as int].prev@.len() - fr.1) as nat
        } else {
            0
        })
    }
}

/// How many nodes a visited map still leaves unvisited.
pub open spec fn count_false(v: Seq<bool>) -> nat
    decreases v.len(),
{
    if v.len() == 0 {
        0
    } else {
        count_false(v.drop_last()) + (if v.last() {
            0nat
        } else {
            1nat
        })
    }
}

pub proof fn lemma_count_false_update(v: Seq<bool>, i: int)
    requires
        0 <= i < v.len(),
        !v[i],
    ensures
        count_false(v.update(i, true)) < count_false(v),
    decreases v.len(),
{
    let w = v.update(i, true);
    if i == v.len() - 1 {
        assert(w.drop_last() =~= v.drop_last());
    } else {
        assert(w.drop_last() =~= v.drop_last().update(i, true));
        lemma_count_false_update(v.drop_last(), i);
    }
}

impl ValueTree {
    /// Records the operand cone of `id` in depth-first post-order, each node
    /// once, with an explicit stack in place of call-stack recursion: very
    /// deep graphs must not exhaust the machine stack.
    fn build_topo(&self, id: usize) -> (topo: Vec<usize>)
        requires
            self.wf(),
            id < self@.len(),
        ensures
            topo@ == visit(self@, Seq::<usize>::empty(), id),
    {
        let ghost s = self@;
        let mut topo: Vec<usize> = Vec::new();
        let mut visited: Vec<bool> = vec![false; self.values.len()];
        let mut stack: Vec<(usize, usize)> = Vec::new();
        visited.set(id, true);
        stack.push((id, 0));
        proof {
            assert(stack@.drop_last() =~= Seq::<(usize, usize)>::empty());
            assert(topo@ =~= Seq::<usize>::empty());
            assert(stack@.last() == (id, 0usize));
            assert(finish(s, topo@, stack@) == finish(
                s,
                visit_children(s, topo@, id, 0).push(id),
                stack@.drop_last(),
            ));
            assert(finish(
                s,
                visit_children(s, topo@, id, 0).push(id),
                Seq::<(usize, usize)>::empty(),
            ) == visit_children(s, topo@, id, 0).push(id));
            assert(!Seq::<usize>::empty().contains(id));
            assert(visit(s, Seq::<usize>::empty(), id) == visit_children(
                s,
                Seq::<usize>::empty(),
                id,
                0,
            ).push(id));
            assert(finish(s, topo@, stack@) == visit(s, Seq::<usize>::empty(), id));
            assert(stack@[0].0 == id);
            assert(on_stack(stack@, id));
        }
        while stack.len() > 0
            invariant
                self.wf(),
                s == self@,
                visited@.len() == s.len(),
                forall|t: int|
                    0 <= t < stack@.len() ==> ((#[trigger] stack@[t]).0 as int) < s.len()
                        && stack@[t].1 <= s[stack@[t].0 as int].prev@.len(),
                forall|t1: int, t2: int|
                    0 <= t1 < t2 < stack@.len() ==> stack@[t2].0 < stack@[t1].0,
                forall|j: usize|
                    #![trigger visited@[j as int]]
                    (j as int) < s.len() ==> (visited@[j as int] <==> topo@.contains(j)
                        || on_stack(stack@, j)),
                forall|p: int| 0 <= p < topo@.len() ==> ((#[trigger] topo@[p]) as int) < s.len(),
                finish(s, topo@, stack@) == visit(s, Seq::<usize>::empty(), id),
            decreases count_false(visited@), stack_weight(s, stack@),
        {
            let top_idx = stack.len() - 1;
            let (i, k) = stack[top_idx];
            let plen = self.values[i].prev.len();
            let ghost old_stack = stack@;
            let ghost old_topo = topo@;
            proof {
                assert(old_stack[top_idx as int] == (i, k));
                assert(wf_node(s[i as int], i as int));
                assert(old_stack.last() == (i, k));
            }
            if k < plen {
                let c = self.values[i].prev[k];
                stack.set(top_idx, (i, k + 1));
                let ghost mid_stack = stack@;
                proof {
                    assert(c == s[i as int].prev@[k as int]);
                    assert(c < i);
                    assert(mid_stack.drop_last() =~= old_stack.drop_last());
                    assert(mid_stack.last() == (i, (k + 1) as usize));
                    // only the sweep position of the top frame changed
                    assert(forall|t: int|
                        0 <= t < old_stack.len() ==> (#[trigger] mid_stack[t]).0
                            == old_stack[t].0);
                }
                if visited[c] {
                    proof {
                        assert(visited@[c as int]);
                        // the child cannot still be on the stack: every frame
                        // at or above it holds a node at or above `i`
                        assert(!on_stack(old_stack, c)) by {
                            if on_stack(old_stack, c) {
                                let t = choose|t: int|
                                    0 <= t < old_stack.len() && (#[trigger] old_stack[t]).0 == c;
                                if t < top_idx as int {
                                    assert(old_stack[top_idx as int].0 < old_stack[t].0);
                                }
                            }
                        }
                        assert(topo@.contains(c));
                        assert(visit(s, topo@, c) == topo@);
                        assert(visit_children(s, topo@, i, k as int) == visit_children(
                            s,
                            topo@,
                            i,
                            k as int + 1,
                        ));
                        assert(finish(s, topo@, mid_stack) == finish(
                            s,
                            visit_children(s, topo@, i, k as int + 1).push(i),
                            mid_stack.drop_last(),
                        ));
                        assert(finish(s, topo@, old_stack) == finish(
                            s,
                            visit_children(s, topo@, i, k as int).push(i),
                            old_stack.drop_last(),
                        ));
                        assert(finish(s, topo@, stack@) == finish(s, topo@, old_stack));
                        assert forall|j: usize|
                            #![trigger visited@[j as int]]
                            (j as int) < s.len() implies (visited@[j as int] <==> topo@.contains(j)
                            || on_stack(stack@, j)) by {
                            assert(on_stack(stack@, j) <==> on_stack(old_stack, j)) by {
                                if on_stack(old_stack, j) {
                                    let t = choose|t: int|
                                        0 <= t < old_stack.len() && (#[trigger] old_stack[t]).0
                                            == j;
                                    assert(mid_stack[t].0 == j);
                                }
                                if on_stack(mid_stack, j) {
                                    let t = choose|t: int|
                                        0 <= t < mid_stack.len() && (#[trigger] mid_stack[t]).0
                                            == j;
                                    assert(old_stack[t].0 == j);
                                }
                            }
                        }
                        assert(stack_weight(s, mid_stack) < stack_weight(s, old_stack)) by {
                            assert(stack_weight(s, mid_stack) == stack_weight(
                                s,
                                mid_stack.drop_last(),
                            ) + 1 + (s[i as int].prev@.len() - (k + 1)));
                            assert(stack_weight(s, old_stack) == stack_weight(
                                s,
                                old_stack.drop_last(),
                            ) + 1 + (s[i as int].prev@.len() - k));
                        }
                    }
                } else {
                    let ghost old_visited = visited@;
                    visited.set(c, true);
                    stack.push((c, 0));
                    proof {
                        assert(!old_visited[c as int]);
                        assert(!on_stack(old_stack, c)) by {
                            if on_stack(old_stack, c) {
                                let t = choose|t: int|
                                    0 <= t < old_stack.len() && (#[trigger] old_stack[t]).0 == c;
                            }
                        }
                        assert(!topo@.contains(c));
                        assert((c as int) < s.len());
                        let acc1 = visit(s, topo@, c);
                        assert(acc1 == visit_children(s, topo@, c, 0).push(c));
                        assert(visit_children(s, topo@, i, k as int) == visit_children(
                            s,
                            acc1,
                            i,
                            k as int + 1,
                        ));
                        assert(stack@.drop_last() =~= mid_stack);
                        assert(stack@.last() == (c, 0usize));
                        assert(finish(s, topo@, stack@) == finish(s, acc1, mid_stack));
                        assert(finish(s, acc1, mid_stack) == finish(
                            s,
                            visit_children(s, acc1, i, k as int + 1).push(i),
                            mid_stack.drop_last(),
                        ));
                        assert(finish(s, topo@, old_stack) == finish(
                            s,
                            visit_children(s, topo@, i, k as int).push(i),
                            old_stack.drop_last(),
                        ));
                        assert(finish(s, topo@, stack@) == finish(s, topo@, old_stack));
                        // stack order: the new top is below every older frame
                        assert forall|t1: int, t2: int|
                            0 <= t1 < t2 < stack@.len() implies stack@[t2].0 < stack@[t1].0 by {
                            if t2 < stack@.len() - 1 {
                                assert(stack@[t1] == mid_stack[t1] && stack@[t2] == mid_stack[t2]);
                                assert(mid_stack[t1].0 == old_stack[t1].0);
                                assert(mid_stack[t2].0 == old_stack[t2].0);
                            } else {
                                assert(stack@[t2].0 == c);
                                assert(stack@[t1] == mid_stack[t1]);
                                assert(mid_stack[t1].0 == old_stack[t1].0);
                                if t1 < top_idx as int {
                                    assert(old_stack[top_idx as int].0 < old_stack[t1].0);
                                }
                            }
                        }
                        assert forall|j: usize|
                            #![trigger visited@[j as int]]
                            (j as int) < s.len() implies (visited@[j as int] <==> topo@.contains(j)
                            || on_stack(stack@, j)) by {
                            if j == c {
                                assert(stack@[stack@.len() - 1].0 == c);
                                assert(on_stack(stack@, c));
                                assert(visited@[c as int]);
                            } else {
                                assert(visited@[j as int] == old_visited[j as int]);
                                assert(on_stack(stack@, j) <==> on_stack(old_stack, j)) by {
                                    if on_stack(old_stack, j) {
                                        let t = choose|t: int|
                                            0 <= t < old_stack.len() && (#[trigger] old_stack[t]).0
                                                == j;
                                        assert(stack@[t] == mid_stack[t]);
                                        assert(mid_stack[t].0 == old_stack[t].0);
                                    }
                                    if on_stack(stack@, j) {
                                        let t = choose|t: int|
                                            0 <= t < stack@.len() && (#[trigger] stack@[t]).0 == j;
                                        assert(t < stack@.len() - 1);
                                        assert(stack@[t] == mid_stack[t]);
                                        assert(old_stack[t].0 == mid_stack[t].0);
                                    }
                                }
                            }
                        }
                        lemma_count_false_update(old_visited, c as int);
                    }
                }
            } else {
                stack.pop();
                topo.push(i);
                proof {
                    assert(stack@ =~= old_stack.drop_last());
                    assert(topo@ == old_topo.push(i));
                    assert(visit_children(s, old_topo, i, k as int) == old_topo);
                    assert(finish(s, old_topo, old_stack) == finish(
                        s,
                        visit_children(s, old_topo, i, k as int).push(i),
                        old_stack.drop_last(),
                    ));
                    assert(finish(s, topo@, stack@) == finish(s, old_topo, old_stack));
                    assert forall|j: usize|
                        #![trigger visited@[j as int]]
                        (j as int) < s.len() implies (visited@[j as int] <==> topo@.contains(j)
                        || on_stack(stack@, j)) by {
                        lemma_push_contains(old_topo, i, j);
                        if j == i {
                            assert(topo@[topo@.len() - 1] == i);
                            assert(topo@.contains(i));
                            assert(visited@[i as int]);
                        } else {
                            assert(on_stack(old_stack, j) <==> on_stack(stack@, j)) by {
                                if on_stack(old_stack, j) {
                                    let t = choose|t: int|
                                        0 <= t < old_stack.len() && (#[trigger] old_stack[t]).0
                                            == j;
                                    assert(t < old_stack.len() - 1);
                                    assert(stack@[t].0 == j);
                                }
                                if on_stack(stack@, j) {
                                    let t = choose|t: int|
                                        0 <= t < stack@.len() && (#[trigger] stack@[t]).0 == j;
                                    assert(old_stack[t].0 == j);
                                }
                            }
                        }
                    }
                    assert(stack_weight(s, old_stack) == stack_weight(s, old_stack.drop_last()) + 1
                        + 0);
                }
            }
        }
        proof {
            assert(finish(s, topo@, stack@) == topo@);
        }
        topo
    }
}

/// The local chain rule of node `i`, as a relation between the gradient
/// state before and after its backward rule runs. `fa` is the caller's
/// scalar addition (gradients accumulate, they are never overwritten), `fm`
/// its multiplication, and `fd` its rule for the activation: from the tanh
/// node's own scalar word `t` and incoming gradient `g` it yields the
/// operand's contribution, `(1 - t^2) * g` under the intended reading.
pub open spec fn bumped<FA: Fn(u64, u64) -> u64>(
    fa: FA,
    s: Seq<Value>,
    a: int,
    c: u64,
    s2: Seq<Value>,
    r: u64,
) -> bool {
    call_ensures(fa, (s[a].grad, c), r) && s2 == s.update(a, with_grad(s[a], r))
}

pub open spec fn rule_applies<
    FA: Fn(u64, u64) -> u64,
    FM: Fn(u64, u64) -> u64,
    FD: Fn(u64, u64) -> u64,
>(pre: Seq<Value>, post: Seq<Value>, i: usize, fa: FA, fm: FM, fd: FD) -> bool {
    let v = pre[i as int];
    let g = v.grad;
    match v.op {
        None => post == pre,
        Some(Op::Add) => {
            let a = v.prev@[0] as int;
            let b = v.prev@[1] as int;
            exists|mid: Seq<Value>, r1: u64, r2: u64|
                #![trigger bumped(fa, pre, a, g, mid, r1), bumped(fa, mid, b, g, post, r2)]
                bumped(fa, pre, a, g, mid, r1) && bumped(fa, mid, b, g, post, r2)
        },
        Some(Op::Mul) => {
            let a = v.prev@[0] as int;
            let b = v.prev@[1] as int;
            exists|mid: Seq<Value>, c1: u64, r1: u64, c2: u64, r2: u64|
                #![trigger call_ensures(fm, (pre[b].data, g), c1), bumped(fa, pre, a, c1, mid, r1),
                    call_ensures(fm, (pre[a].data, g), c2), bumped(fa, mid, b, c2, post, r2)]
                {
                    &&& call_ensures(fm, (pre[b].data, g), c1)
                    &&& bumped(fa, pre, a, c1, mid, r1)
                    &&& call_ensures(fm, (pre[a].data, g), c2)
                    &&& bumped(fa, mid, b, c2, post, r2)
                }
        },
        Some(Op::Tanh) => {
            let a = v.prev@[0] as int;
            exists|c: u64, r: u64|
                #![trigger call_ensures(fd, (pre[i as int].data, g), c), bumped(fa, pre, a, c, post, r)]
                call_ensures(fd, (pre[i as int].data, g), c) && bumped(fa, pre, a, c, post, r)
        },
    }
}

/// The whole backward sweep as a relation: starting from `s0`, the rules of
/// the nodes in `order` fire one after the other and end in `s1`.
pub open spec fn propagates<
    FA: Fn(u64, u64) -> u64,
    FM: Fn(u64, u64) -> u64,
    FD: Fn(u64, u64) -> u64,
>(s0: Seq<Value>, order: Seq<usize>, s1: Seq<Value>, fa: FA, fm: FM, fd: FD) -> bool
    decreases order.len(),
{
    if order.len() == 0 {
        s1 == s0
    } else {
        exists|mid: Seq<Value>|
            #[trigger] rule_applies(s0, mid, order[0], fa, fm, fd) && propagates(
                mid,
                order.subrange(1, order.len() as int),
                s1,
                fa,
                fm,
                fd,
            )
    }
}

/// One more rule at the end of a sweep extends the sweep.
pub proof fn lemma_propagates_snoc<
    FA: Fn(u64, u64) -> u64,
    FM: Fn(u64, u64) -> u64,
    FD: Fn(u64, u64) -> u64,
>(s0: Seq<Value>, order: Seq<usize>, m: Seq<Value>, x: usize, m2: Seq<Value>, fa: FA, fm: FM, fd: FD)
    requires
        propagates(s0, order, m, fa, fm, fd),
        rule_applies(m, m2, x, fa, fm, fd),
    ensures
        propagates(s0, order.push(x), m2, fa, fm, fd),
    decreases order.len(),
{
    let ord2 = order.push(x);
    if order.len() == 0 {
        assert(m == s0);
        assert(ord2[0] == x);
        assert(ord2.subrange(1, ord2.len() as int) =~= Seq::<usize>::empty());
        assert(propagates(m2, ord2.subrange(1, ord2.len() as int), m2, fa, fm, fd));
        assert(rule_applies(s0, m2, ord2[0], fa, fm, fd));
    } else {
        let mid = choose|mid: Seq<Value>|
            #[trigger] rule_applies(s0, mid, order[0], fa, fm, fd) && propagates(
                mid,
                order.subrange(1, order.len() as int),
                m,
                fa,
                fm,
                fd,
            );
        lemma_propagates_snoc(mid, order.subrange(1, order.len() as int), m, x, m2, fa, fm, fd);
        assert(ord2.subrange(1, ord2.len() as int) =~= order.subrange(
            1,
            order.len() as int,
        ).push(x));
        assert(ord2[0] == order[0]);
        assert(rule_applies(s0, mid, ord2[0], fa, fm, fd) && propagates(
            mid,
            ord2.subrange(1, ord2.len() as int),
            m2,
            fa,
            fm,
            fd,
        ));
    }
}

impl ValueTree {
    /// The backward pass. Seeds the gradient of `output_id` with the
    /// caller's `seed` (the multiplicative unit of its scalar semantics),
    /// then walks the operand cone of `output_id` from consumers toward
    /// leaves in reverse depth-first post-order and fires each node's local
    /// rule once. A node used by several consumers receives one added
    /// contribution per consumer: contributions sum, they never overwrite.
    ///
    /// Structure, scalar words and labels are untouched; only gradients of
    /// nodes inside the operand cone change, exactly as `propagates` says.
    pub fn backward<
        FA: Fn(u64, u64) -> u64,
        FM: Fn(u64, u64) -> u64,
        FD: Fn(u64, u64) -> u64,
    >(&mut self, output_id: usize, seed: u64, add_op: &FA, mul_op: &FM, dtanh_op: &FD)
        requires
            old(self).wf(),
            output_id < old(self)@.len(),
            forall|x: u64, y: u64| call_requires(*add_op, (x, y)),
            forall|x: u64, y: u64| call_requires(*mul_op, (x, y)),
            forall|x: u64, y: u64| call_requires(*dtanh_op, (x, y)),
        ensures
            final(self).wf(),
            final(self)@.len() == old(self)@.len(),
            forall|i: int|
                0 <= i < old(self)@.len() ==> same_but_grad(old(self)@[i], final(self)@[i]),
            forall|j: usize|
                #![trigger final(self)@[j as int].grad]
                (j as int) < old(self)@.len() && !reaches(old(self)@, output_id, j)
                    ==> final(self)@[j as int].grad == old(self)@[j as int].grad,
            final(self)@[output_id as int].grad == seed,
            propagates(
                old(self)@.update(
                    output_id as int,
                    with_grad(old(self)@[output_id as int], seed),
                ),
                backward_order(old(self)@, output_id),
                final(self)@,
                *add_op,
                *mul_op,
                *dtanh_op,
            ),
    {
        let ghost s0 = self@;
        let topo = self.build_topo(output_id);
        proof {
            assert(good_record(s0, Seq::<usize>::empty()));
            lemma_visit(s0, Seq::<usize>::empty(), output_id);
        }
        self.set_grad(output_id, seed);
        let ghost seeded = s0.update(output_id as int, with_grad(s0[output_id as int], seed));
        let ghost ord = backward_order(s0, output_id);
        proof {
            assert(self@ == seeded);
            assert(ord.take(0) =~= Seq::<usize>::empty());
            assert(propagates(seeded, ord.take(0), self@, *add_op, *mul_op, *dtanh_op));
            assert(reaches(s0, output_id, output_id));
        }
        let mut t: usize = topo.len();
        while t > 0
            invariant
                self.wf(),
                wf_nodes(s0),
                output_id < s0.len(),
                self@.len() == s0.len(),
                t <= topo@.len(),
                topo@ == visit(s0, Seq::<usize>::empty(), output_id),
                good_record(s0, topo@),
                forall|j: usize| #![trigger topo@.contains(j)]
                    topo@.contains(j) <==> reaches(s0, output_id, j),
                seeded == s0.update(output_id as int, with_grad(s0[output_id as int], seed)),
                ord == backward_order(s0, output_id),
                forall|x: u64, y: u64| call_requires(*add_op, (x, y)),
                forall|x: u64, y: u64| call_requires(*mul_op, (x, y)),
                forall|x: u64, y: u64| call_requires(*dtanh_op, (x, y)),
                forall|i: int| 0 <= i < s0.len() ==> same_but_grad(s0[i], self@[i]),
                forall|j: usize|
                    #![trigger self@[j as int].grad]
                    (j as int) < s0.len() && !reaches(s0, output_id, j) ==> self@[j as int].grad
                        == s0[j as int].grad,
                self@[output_id as int].grad == seed,
                propagates(
                    seeded,
                    ord.take(topo@.len() - t),
                    self@,
                    *add_op,
                    *mul_op,
                    *dtanh_op,
                ),
            decreases t,
        {
            t -= 1;
            let i = topo[t];
            let ghost n_done = topo@.len() - (t + 1) as int;
            proof {
                assert(topo@[t as int] == i);
                assert(topo@.contains(i));
                assert(reaches(s0, output_id, i));
                assert((i as int) < s0.len());
                lemma_reaches_le(s0, output_id, i);
                assert(wf_node(s0[i as int], i as int));
                assert(same_but_grad(s0[i as int], self@[i as int]));
                assert(ord[n_done] == i) by {
                    assert(ord == visit(s0, Seq::<usize>::empty(), output_id).reverse());
                    assert(ord[n_done] == topo@[topo@.len() - 1 - n_done]);
                }
            }
            let ghost pre_step = self@;
            let node_op = self.values[i].op;
            match node_op {
                None => {
                    proof {
                        assert(rule_applies(
                            pre_step,
                            self@,
                            i,
                            *add_op,
                            *mul_op,
                            *dtanh_op,
                        ));
                    }
                },
                Some(Op::Add) => {
                    let g = self.values[i].grad;
                    let a = self.values[i].prev[0];
                    let b = self.values[i].prev[1];
                    proof {
                        assert(a == s0[i as int].prev@[0] && b == s0[i as int].prev@[1]);
                        assert(a < i && b < i);
                        lemma_reaches_step(s0, output_id, i, 0);
                        lemma_reaches_step(s0, output_id, i, 1);
                    }
                    let ga = self.values[a].grad;
                    let r1 = add_op(ga, g);
                    self.set_grad(a, r1);
                    let ghost mid_state = self@;
                    let gb = self.values[b].grad;
                    let r2 = add_op(gb, g);
                    self.set_grad(b, r2);
                    proof {
                        assert(bumped(*add_op, pre_step, a as int, g, mid_state, r1));
                        assert(bumped(*add_op, mid_state, b as int, g, self@, r2));
                        assert(rule_applies(
                            pre_step,
                            self@,
                            i,
                            *add_op,
                            *mul_op,
                            *dtanh_op,
                        ));
                    }
                },
                Some(Op::Mul) => {
                    let g = self.values[i].grad;
                    let a = self.values[i].prev[0];
                    let b = self.values[i].prev[1];
                    proof {
                        assert(a == s0[i as int].prev@[0] && b == s0[i as int].prev@[1]);
                        assert(a < i && b < i);
                        lemma_reaches_step(s0, output_id, i, 0);
                        lemma_reaches_step(s0, output_id, i, 1);
                    }
                    let a_data = self.values[a].data;
                    let b_data = self.values[b].data;
                    let c1 = mul_op(b_data, g);
                    let ga = self.values[a].grad;
                    let r1 = add_op(ga, c1);
                    self.set_grad(a, r1);
                    let ghost mid_state = self@;
                    let c2 = mul_op(a_data, g);
                    let gb = self.values[b].grad;
                    let r2 = add_op(gb, c2);
                    self.set_grad(b, r2);
                    proof {
                        assert(call_ensures(*mul_op, (pre_step[b as int].data, g), c1));
                        assert(bumped(*add_op, pre_step, a as int, c1, mid_state, r1));
                        assert(call_ensures(*mul_op, (pre_step[a as int].data, g), c2));
                        assert(bumped(*add_op, mid_state, b as int, c2, self@, r2));
                        assert(rule_applies(
                            pre_step,
                            self@,
                            i,
                            *add_op,
                            *mul_op,
                            *dtanh_op,
                        ));
                    }
                },
                Some(Op::Tanh) => {
                    let g = self.values[i].grad;
                    let t_data = self.values[i].data;
                    let a = self.values[i].prev[0];
                    proof {
                        assert(a == s0[i as int].prev@[0]);
                        assert(a < i);
                        lemma_reaches_step(s0, output_id, i, 0);
                    }
                    let c = dtanh_op(t_data, g);
                    let ga = self.values[a].grad;
                    let r = add_op(ga, c);
                    self.set_grad(a, r);
                    proof {
                        assert(call_ensures(*dtanh_op, (pre_step[i as int].data, g), c));
                        assert(bumped(*add_op, pre_step, a as int, c, self@, r));
                        assert(rule_applies(
                            pre_step,
                            self@,
                            i,
                            *add_op,
                            *mul_op,
                            *dtanh_op,
                        ));
                    }
                },
            }
            proof {
                lemma_propagates_snoc(
                    seeded,
                    ord.take(n_done),
                    pre_step,
                    i,
                    self@,
                    *add_op,
                    *mul_op,
                    *dtanh_op,
                );
                assert(ord.take(n_done + 1) =~= ord.take(n_done).push(ord[n_done]));
                assert(propagates(
                    seeded,
                    ord.take(topo@.len() - t),
                    self@,
                    *add_op,
                    *mul_op,
                    *dtanh_op,
                ));
            }
        }
        proof {
            assert(ord.take(topo@.len() - 0) =~= ord);
        }
    }
}

/// Equal nodes up to `String` identity: every field the engine reads agrees,
/// the label agreeing as text.
pub open spec fn node_like(a: Value, b: Value) -> bool {
    &&& b.id == a.id
    &&& b.data == a.data
    &&& b.grad == a.grad
    &&& b.op == a.op
    &&& b.prev@ == a.prev@
    &&& label_view(b) == label_view(a)
}

impl ValueTree {
    /// A deep copy of the arena: same nodes, same ids, same scalar words.
    pub fn duplicate(&self) -> (r: ValueTree)
        ensures
            r@.len() == self@.len(),
            forall|i: int| 0 <= i < self@.len() ==> node_like(self@[i], #[trigger] r@[i]),
            self.wf() ==> r.wf(),
    {
        let mut values: Vec<Value> = Vec::new();
        let mut i: usize = 0;
        while i < self.values.len()
            invariant
                i <= self@.len(),
                values@.len() == i,
                forall|q: int| 0 <= q < i ==> node_like(self@[q], #[trigger] values@[q]),
            decreases self@.len() - i,
        {
            let node = &self.values[i];
            let mut prev: Vec<usize> = Vec::new();
            let mut k: usize = 0;
            while k < node.prev.len()
                invariant
                    k <= node.prev@.len(),
                    prev@ == node.prev@.take(k as int),
                decreases node.prev@.len() - k,
            {
                let c = node.prev[k];
                prev.push(c);
                proof {
                    assert(prev@ =~= node.prev@.take(k + 1));
                }
                k = k + 1;
            }
            proof {
                assert(node.prev@.take(node.prev@.len() as int) =~= node.prev@);
            }
            let label: Option<String> = match &node.label {
                Some(s) => Some(s.as_str().to_owned()),
                None => None,
            };
            let copy = Value {
                id: node.id,
                data: node.data,
                grad: node.grad,
                label,
                op: node.op,
                prev,
            };
            values.push(copy);
            i = i + 1;
        }
        let r = ValueTree { values };
        proof {
            if self.wf() {
                assert forall|q: int| 0 <= q < r@.len() implies wf_node(#[trigger] r@[q], q) by {
                    assert(wf_node(self@[q], q));
                    assert(node_like(self@[q], r@[q]));
                }
            }
        }
        r
    }
}


} // verus!
