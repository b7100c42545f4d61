use scalargrad::graph::ValueTree;
use scalargrad::nn::{InitSource, Layer, Neuron, MLP};

fn addf(x: u64, y: u64) -> u64 {
    (f64::from_bits(x) + f64::from_bits(y)).to_bits()
}

fn mulf(x: u64, y: u64) -> u64 {
    (f64::from_bits(x) * f64::from_bits(y)).to_bits()
}

fn tanhf(x: u64) -> u64 {
    f64::from_bits(x).tanh().to_bits()
}

fn words(values: &[f64]) -> Vec<u64> {
    values.iter().map(|v| v.to_bits()).collect()
}

fn constant_words(n: usize, v: f64) -> Vec<u64> {
    vec![v.to_bits(); n]
}

#[test]
fn parameter_count_3_441() {
    // (3*4+4) + (4*4+4) + (4*1+1) == 41
    let mut vt = ValueTree::new();
    let mut source = InitSource::new(constant_words(41, 0.25));
    let sizes: Vec<usize> = vec![4, 4, 1];
    let mlp = MLP::new(&mut vt, 3, &sizes, &mut source);
    assert_eq!(mlp.parameters().len(), 41);
}

#[test]
fn parameter_ids_are_consecutive_and_in_order() {
    let mut vt = ValueTree::new();
    let mut source = InitSource::new(constant_words(41, 0.1));
    let sizes: Vec<usize> = vec![4, 4, 1];
    let mlp = MLP::new(&mut vt, 3, &sizes, &mut source);
    let params = mlp.parameters();
    for (i, id) in params.iter().enumerate() {
        assert_eq!(*id, i);
    }
}

#[test]
fn neuron_parameters_are_weights_then_bias() {
    let mut vt = ValueTree::new();
    let mut source = InitSource::new(words(&[0.5, -0.5, 0.25]));
    let n = Neuron::new(&mut vt, 2, &mut source);
    let params = n.parameters();
    assert_eq!(params.len(), 3);
    assert_eq!(params, vec![0, 1, 2]);
    // draw order: weights first, bias last
    assert_eq!(f64::from_bits(vt.data(0)), 0.5);
    assert_eq!(f64::from_bits(vt.data(1)), -0.5);
    assert_eq!(f64::from_bits(vt.data(2)), 0.25);
}

#[test]
fn neuron_forward_matches_hand_computation() {
    let mut vt = ValueTree::new();
    let mut source = InitSource::new(words(&[0.5, -1.0, 0.75]));
    let n = Neuron::new(&mut vt, 2, &mut source);
    let x1 = vt.create_value(2.0f64.to_bits(), "");
    let x2 = vt.create_value(3.0f64.to_bits(), "");
    let xs = vec![x1, x2];
    let out = n.forward(&mut vt, &xs, &addf, &mulf, &tanhf);
    let expected = (((0.75 + 0.5 * 2.0) + -1.0 * 3.0) as f64).tanh();
    assert!((f64::from_bits(vt.data(out)) - expected).abs() < 1e-12);
}

#[test]
fn layer_forward_gives_one_output_per_neuron() {
    let mut vt = ValueTree::new();
    let mut source = InitSource::new(constant_words(9, 0.5));
    let layer = Layer::new(&mut vt, 2, 3, &mut source);
    let x1 = vt.create_value(1.0f64.to_bits(), "");
    let x2 = vt.create_value((-1.0f64).to_bits(), "");
    let xs = vec![x1, x2];
    let outs = layer.forward(&mut vt, &xs, &addf, &mulf, &tanhf);
    assert_eq!(outs.len(), 3);
    // all three neurons share weights, so all outputs agree
    let first = vt.data(outs[0]);
    assert_eq!(vt.data(outs[1]), first);
    assert_eq!(vt.data(outs[2]), first);
}

#[test]
fn forward_is_deterministic_across_reruns() {
    let mut vt = ValueTree::new();
    let init: Vec<f64> = (0..148).map(|i| ((i % 7) as f64 - 3.0) / 4.0).collect();
    let mut source = InitSource::new(words(&init));
    let sizes: Vec<usize> = vec![8, 8, 4];
    let mlp = MLP::new(&mut vt, 4, &sizes, &mut source);

    let input = [0.25f64, -0.5, 0.75, 0.0];
    let leaves1: Vec<usize> = input.iter().map(|v| vt.create_value(v.to_bits(), "")).collect();
    let outs1 = mlp.forward(&mut vt, leaves1, &addf, &mulf, &tanhf);
    let words1: Vec<u64> = outs1.iter().map(|o| vt.data(*o)).collect();

    let leaves2: Vec<usize> = input.iter().map(|v| vt.create_value(v.to_bits(), "")).collect();
    let outs2 = mlp.forward(&mut vt, leaves2, &addf, &mulf, &tanhf);
    let words2: Vec<u64> = outs2.iter().map(|o| vt.data(*o)).collect();

    assert_eq!(words1, words2);
    // fresh nodes each pass: no id is reused
    assert_ne!(outs1, outs2);
}

#[test]
fn network_trains_toward_target_with_gradient_steps() {
    fn dtanhf(t: u64, g: u64) -> u64 {
        ((1.0 - f64::from_bits(t).powf(2.0)) * f64::from_bits(g)).to_bits()
    }
    let mut vt = ValueTree::new();
    let init: Vec<f64> = (0..13).map(|i| 0.1 * (i as f64 + 1.0)).collect();
    let mut source = InitSource::new(words(&init));
    let sizes: Vec<usize> = vec![3, 1];
    let mlp = MLP::new(&mut vt, 2, &sizes, &mut source);
    let params = mlp.parameters();

    let target = 0.5f64;
    let mut first_loss = 0.0f64;
    let mut last_loss = 0.0f64;
    for step in 0..200 {
        let x1 = vt.create_value(1.0f64.to_bits(), "");
        let x2 = vt.create_value((-0.5f64).to_bits(), "");
        let outs = mlp.forward(&mut vt, vec![x1, x2], &addf, &mulf, &tanhf);
        let o = outs[0];
        // loss = (o - target)^2, built in the graph itself
        let t = vt.create_value((-target).to_bits(), "");
        let diff = vt.add_values(o, t, "", &addf);
        let loss = vt.mul_values(diff, diff, "", &mulf);
        last_loss = f64::from_bits(vt.data(loss));
        if step == 0 {
            first_loss = last_loss;
        }
        for p in &params {
            vt.set_grad(*p, 0.0f64.to_bits());
        }
        vt.backward(loss, 0x3FF0000000000000, &addf, &mulf, &dtanhf);
        for p in &params {
            let g = f64::from_bits(vt.grad(*p));
            let d = f64::from_bits(vt.data(*p));
            vt.set_data(*p, (d - 0.1 * g).to_bits());
        }
    }
    assert!(last_loss < first_loss);
}

#[test]
fn init_source_reports_draw_order() {
    let mut vt = ValueTree::new();
    let mut source = InitSource::new(words(&[1.0, 2.0, 3.0, 4.0, 5.0, 6.0]));
    let layer = Layer::new(&mut vt, 1, 2, &mut source);
    let params = layer.parameters();
    assert_eq!(params.len(), 4);
    let seen: Vec<f64> = params.iter().map(|p| f64::from_bits(vt.data(*p))).collect();
    assert_eq!(seen, vec![1.0, 2.0, 3.0, 4.0]);
    assert_eq!(source.next, 4);
}

#[test]
fn empty_network_passes_inputs_through() {
    let mut vt = ValueTree::new();
    let mut source = InitSource::new(Vec::new());
    let sizes: Vec<usize> = Vec::new();
    let mlp = MLP::new(&mut vt, 2, &sizes, &mut source);
    assert_eq!(mlp.parameters().len(), 0);
    let x1 = vt.create_value(1.5f64.to_bits(), "");
    let x2 = vt.create_value(2.5f64.to_bits(), "");
    let outs = mlp.forward(&mut vt, vec![x1, x2], &addf, &mulf, &tanhf);
    assert_eq!(outs, vec![x1, x2]);
}

#[test]
fn zero_input_neuron_is_tanh_of_bias() {
    let mut vt = ValueTree::new();
    let mut source = InitSource::new(words(&[0.3]));
    let n = Neuron::new(&mut vt, 0, &mut source);
    let xs: Vec<usize> = Vec::new();
    let out = n.forward(&mut vt, &xs, &addf, &mulf, &tanhf);
    assert!((f64::from_bits(vt.data(out)) - 0.3f64.tanh()).abs() < 1e-12);
}
