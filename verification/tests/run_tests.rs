use genetic_nn::{Network, RunError};

/// Forward pass over the verified layout: for each computed layer and each of
/// its neurons, the dot product of the previous layer's outputs with the
/// neuron's weight run, plus the trailing bias, through a binary sigmoid with
/// gain `a`.
fn run(net: &Network, input: &[f32], a: f32) -> Result<Vec<f32>, RunError> {
    net.check_input_count(input.len())?;
    let layers = net.layers().clone();
    let buf = net.weight_buffer();
    let mut values: Vec<f32> = input.to_vec();
    for layer in 1..layers.len() {
        let mut next = Vec::with_capacity(layers[layer]);
        for neuron in 0..layers[layer] {
            let (start, end) = net.neuron_section(layer, neuron);
            let mut total = 0.0f32;
            for (i, &v) in values.iter().enumerate() {
                total += v * f32::from_bits(buf[start + i]);
            }
            total += f32::from_bits(buf[end - 1]);
            next.push(1.0 / (1.0 + (-total * a).exp()));
        }
        values = next;
    }
    Ok(values)
}

#[test]
fn run_rejects_every_wrong_input_width() {
    let net = Network::new(vec![3, 2, 1]).unwrap();
    for len in [0usize, 1, 2, 4, 5, 100] {
        let input = vec![0.5f32; len];
        assert_eq!(run(&net, &input, 1.0).unwrap_err(), RunError::WrongInputCount);
        assert!(net.check_input_count(len).is_err());
    }
}

#[test]
fn run_accepts_the_declared_width_and_returns_the_last_width() {
    let net = Network::new(vec![3, 4, 2]).unwrap();
    let out = run(&net, &[0.1, 0.2, 0.3], 1.0).unwrap();
    assert_eq!(out.len(), 2);
    assert!(net.check_input_count(3).is_ok());
    let wide = Network::new(vec![2, 5, 7, 3]).unwrap();
    assert_eq!(run(&wide, &[1.0, -1.0], 1.0).unwrap().len(), 3);
}

#[test]
fn repeated_runs_are_bit_identical() {
    let net = Network::new(vec![4, 3, 2]).unwrap();
    let input = [0.25f32, -0.5, 0.75, 1.0];
    let first = run(&net, &input, 1.0).unwrap();
    for _ in 0..20 {
        let again = run(&net, &input, 1.0).unwrap();
        assert_eq!(first.len(), again.len());
        for i in 0..first.len() {
            assert_eq!(first[i].to_bits(), again[i].to_bits());
        }
    }
}

#[test]
fn run_computes_a_known_single_neuron_value() {
    // a [2, 1] network computes sigmoid(w0*x0 + w1*x1 + bias)
    let mut net = Network::new(vec![2, 1]).unwrap();
    net.set_weight(1, 0, 0, 0.5f32.to_bits());
    net.set_weight(1, 0, 1, (-0.25f32).to_bits());
    net.set_weight(1, 0, 2, 0.125f32.to_bits());
    let x0 = 0.5f32;
    let x1 = 1.0f32;
    let total = 0.5 * x0 + (-0.25) * x1 + 0.125;
    let expected = 1.0 / (1.0 + (-total * 2.0f32).exp());
    let out = run(&net, &[x0, x1], 2.0).unwrap();
    assert_eq!(out.len(), 1);
    assert_eq!(out[0].to_bits(), expected.to_bits());
}
