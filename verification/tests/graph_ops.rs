use scalargrad::graph::ValueTree;

fn addf(x: u64, y: u64) -> u64 {
    (f64::from_bits(x) + f64::from_bits(y)).to_bits()
}

fn mulf(x: u64, y: u64) -> u64 {
    (f64::from_bits(x) * f64::from_bits(y)).to_bits()
}

fn tanhf(x: u64) -> u64 {
    f64::from_bits(x).tanh().to_bits()
}

fn dtanhf(t: u64, g: u64) -> u64 {
    ((1.0 - f64::from_bits(t).powf(2.0)) * f64::from_bits(g)).to_bits()
}

const ONE: u64 = 0x3FF0000000000000;

fn run_backward(vt: &mut ValueTree, output: usize) {
    vt.backward(output, ONE, &addf, &mulf, &dtanhf);
}

fn grad_of(vt: &ValueTree, id: usize) -> f64 {
    f64::from_bits(vt.grad(id))
}

fn data_of(vt: &ValueTree, id: usize) -> f64 {
    f64::from_bits(vt.data(id))
}

#[test]
fn addition_gradients() {
    let mut vt = ValueTree::new();
    let a = vt.create_value(2.0f64.to_bits(), "a");
    let b = vt.create_value((-3.0f64).to_bits(), "b");
    let z = vt.add_values(a, b, "z", &addf);
    assert_eq!(data_of(&vt, z), -1.0);
    run_backward(&mut vt, z);
    assert_eq!(grad_of(&vt, a), 1.0);
    assert_eq!(grad_of(&vt, b), 1.0);
    assert_eq!(grad_of(&vt, z), 1.0);
}

#[test]
fn multiplication_gradients() {
    let mut vt = ValueTree::new();
    let a = vt.create_value(2.0f64.to_bits(), "a");
    let b = vt.create_value((-3.0f64).to_bits(), "b");
    let z = vt.mul_values(a, b, "z", &mulf);
    assert_eq!(data_of(&vt, z), -6.0);
    run_backward(&mut vt, z);
    assert_eq!(grad_of(&vt, a), -3.0);
    assert_eq!(grad_of(&vt, b), 2.0);
}

#[test]
fn tanh_gradient() {
    let mut vt = ValueTree::new();
    let a = vt.create_value(0.5f64.to_bits(), "a");
    let z = vt.tanh_value(a, "z", &tanhf);
    let zd = data_of(&vt, z);
    assert!((zd - 0.5f64.tanh()).abs() < 1e-12);
    run_backward(&mut vt, z);
    assert!((grad_of(&vt, a) - (1.0 - zd * zd)).abs() < 1e-12);
}

#[test]
fn diamond_accumulation() {
    // `a` feeds the same multiply twice and the final add once: the three
    // contributions must sum to 2 * 3 + 1 = 7.
    let mut vt = ValueTree::new();
    let a = vt.create_value(3.0f64.to_bits(), "a");
    let p = vt.mul_values(a, a, "p", &mulf);
    let q = vt.add_values(p, a, "q", &addf);
    assert_eq!(data_of(&vt, q), 12.0);
    run_backward(&mut vt, q);
    assert_eq!(grad_of(&vt, a), 7.0);
    assert_eq!(grad_of(&vt, p), 1.0);
}

#[test]
fn regression_two_input_neuron() {
    let mut vt = ValueTree::new();
    let x1 = vt.create_value(2.0f64.to_bits(), "x1");
    let x2 = vt.create_value(0.0f64.to_bits(), "x2");
    let w1 = vt.create_value((-3.0f64).to_bits(), "w1");
    let w2 = vt.create_value(1.0f64.to_bits(), "w2");
    let b = vt.create_value(6.8813735870195432f64.to_bits(), "b");
    let p1 = vt.mul_values(x1, w1, "x1*w1", &mulf);
    let p2 = vt.mul_values(x2, w2, "x2*w2", &mulf);
    let s1 = vt.add_values(p1, p2, "", &addf);
    let n = vt.add_values(s1, b, "n", &addf);
    let o = vt.tanh_value(n, "o", &tanhf);
    assert!((data_of(&vt, o) - 0.7071067812).abs() < 1e-6);
    run_backward(&mut vt, o);
    assert!((grad_of(&vt, x1) - (-1.5)).abs() < 1e-6);
    assert!((grad_of(&vt, w1) - 1.0).abs() < 1e-6);
    assert!((grad_of(&vt, x2) - 0.5).abs() < 1e-6);
    assert!(grad_of(&vt, w2).abs() < 1e-6);
    assert!((grad_of(&vt, b) - 0.5).abs() < 1e-6);
}

#[test]
fn ids_grow_strictly() {
    let mut vt = ValueTree::new();
    let mut last: Option<usize> = None;
    for i in 0..20usize {
        let id = vt.create_value((i as f64).to_bits(), "");
        if let Some(prev) = last {
            assert!(id > prev);
        }
        assert_eq!(id, i);
        last = Some(id);
    }
}

#[test]
fn backward_on_leaf_seeds_gradient() {
    let mut vt = ValueTree::new();
    let a = vt.create_value(4.25f64.to_bits(), "a");
    run_backward(&mut vt, a);
    assert_eq!(grad_of(&vt, a), 1.0);
}

#[test]
fn backward_leaves_unrelated_nodes_alone() {
    let mut vt = ValueTree::new();
    let a = vt.create_value(1.5f64.to_bits(), "a");
    let b = vt.create_value(2.5f64.to_bits(), "b");
    let unrelated = vt.mul_values(b, b, "", &mulf);
    let z = vt.tanh_value(a, "", &tanhf);
    run_backward(&mut vt, z);
    assert_eq!(grad_of(&vt, b), 0.0);
    assert_eq!(grad_of(&vt, unrelated), 0.0);
    assert!(grad_of(&vt, a) != 0.0);
}

#[test]
fn gradients_accumulate_until_zeroed() {
    let mut vt = ValueTree::new();
    let a = vt.create_value(2.0f64.to_bits(), "a");
    let b = vt.create_value(5.0f64.to_bits(), "b");
    let z = vt.add_values(a, b, "", &addf);
    run_backward(&mut vt, z);
    run_backward(&mut vt, z);
    // no automatic reset: two passes sum their contributions
    assert_eq!(grad_of(&vt, a), 2.0);
    // explicit zeroing restores the single-pass gradient
    vt.set_grad(a, 0.0f64.to_bits());
    vt.set_grad(b, 0.0f64.to_bits());
    vt.set_grad(z, 0.0f64.to_bits());
    run_backward(&mut vt, z);
    assert_eq!(grad_of(&vt, a), 1.0);
}

#[test]
fn set_data_and_grad_read_back() {
    let mut vt = ValueTree::new();
    let a = vt.create_value(1.0f64.to_bits(), "a");
    vt.set_data(a, 9.5f64.to_bits());
    vt.set_grad(a, (-2.25f64).to_bits());
    assert_eq!(data_of(&vt, a), 9.5);
    assert_eq!(grad_of(&vt, a), -2.25);
}

#[test]
fn duplicate_copies_nodes_and_words() {
    let mut vt = ValueTree::new();
    let a = vt.create_value(2.0f64.to_bits(), "a");
    let b = vt.create_value(3.0f64.to_bits(), "b");
    let z = vt.mul_values(a, b, "z", &mulf);
    let copy = vt.duplicate();
    assert_eq!(data_of(&copy, z), 6.0);
    run_backward(&mut vt, z);
    // the copy is independent: its gradients are untouched
    assert_eq!(grad_of(&copy, a), 0.0);
    assert_eq!(grad_of(&vt, a), 3.0);
}
