use genetic_nn::{Chance, CreationError, Network};

fn make(layers: &[usize]) -> Network {
    Network::new(layers.to_vec()).expect("valid topology")
}

#[test]
fn topology_too_short_is_rejected() {
    assert_eq!(Network::new(vec![]).unwrap_err(), CreationError::NotEnoughLayers);
    assert_eq!(Network::new(vec![3]).unwrap_err(), CreationError::NotEnoughLayers);
}

#[test]
fn topology_with_zero_width_is_rejected() {
    assert_eq!(Network::new(vec![0, 2]).unwrap_err(), CreationError::NotEnoughLayers);
    assert_eq!(Network::new(vec![2, 0]).unwrap_err(), CreationError::NotEnoughLayers);
    assert_eq!(Network::new(vec![2, 0, 1]).unwrap_err(), CreationError::NotEnoughLayers);
}

#[test]
fn topology_validation_helpers_agree() {
    assert!(Network::layers_valid(&[2, 1]));
    assert!(!Network::layers_valid(&[2]));
    assert!(!Network::layers_valid(&[2, 0]));
    assert!(Network::is_valid_type(&[4, 3, 2]).is_ok());
    assert_eq!(Network::is_valid_type(&[1]).unwrap_err(), CreationError::NotEnoughLayers);
}

#[test]
fn weight_buffer_length_matches_formula() {
    // sum of layers[i] * (layers[i-1] + 1) over the computed layers
    assert_eq!(make(&[2, 2, 1]).weight_buffer().len(), 2 * 3 + 1 * 3);
    assert_eq!(make(&[3, 1]).weight_buffer().len(), 4);
    assert_eq!(make(&[5, 4, 3, 2]).weight_buffer().len(), 4 * 6 + 3 * 5 + 2 * 4);
}

#[test]
fn fresh_weights_lie_in_unit_interval() {
    let net = make(&[4, 5, 3]);
    for &bits in net.weight_buffer().iter() {
        let w = f32::from_bits(bits);
        assert!(w.is_finite());
        assert!((-1.0..=1.0).contains(&w));
    }
}

#[test]
fn multiple_builds_count_networks() {
    let nets = Network::multiple(&[2, 1], 7);
    assert_eq!(nets.len(), 7);
    for n in &nets {
        assert_eq!(n.layers().as_slice(), &[2, 1]);
        assert_eq!(n.weight_buffer().len(), 3);
    }
}

#[test]
fn first_address_reads_first_buffer_slot() {
    // on a [3, 1] network, address (1, 0, 0) is flat position 0
    let mut net = make(&[3, 1]);
    assert_eq!(net.weight(1, 0, 0), net.weight_buffer()[0]);
    net.set_weight(1, 0, 0, 0.75f32.to_bits());
    assert_eq!(f32::from_bits(net.weight(1, 0, 0)), 0.75);
    assert_eq!(f32::from_bits(net.weight_buffer()[0]), 0.75);
}

/// Every valid address of a [3, 2, 2] network, in layout order.
fn all_addresses_3_2_2() -> Vec<(usize, usize, usize)> {
    let mut addrs = Vec::new();
    for neuron in 0..2 {
        for input in 0..4 {
            addrs.push((1, neuron, input));
        }
    }
    for neuron in 0..2 {
        for input in 0..3 {
            addrs.push((2, neuron, input));
        }
    }
    addrs
}

#[test]
fn set_weight_round_trips_at_every_address() {
    let mut net = make(&[3, 2, 2]);
    let addrs = all_addresses_3_2_2();
    assert_eq!(addrs.len(), net.weight_buffer().len());
    for (k, &(l, n, i)) in addrs.iter().enumerate() {
        net.set_weight(l, n, i, k as u32);
        assert_eq!(net.weight(l, n, i), k as u32);
    }
    // every address still holds its own value: no two addresses share a slot
    for (k, &(l, n, i)) in addrs.iter().enumerate() {
        assert_eq!(net.weight(l, n, i), k as u32);
    }
    // and together they cover the whole buffer, in layout order
    let buf: Vec<u32> = net.weight_buffer().clone();
    assert_eq!(buf, (0..addrs.len() as u32).collect::<Vec<u32>>());
}

#[test]
fn set_weight_leaves_other_addresses_alone() {
    let mut net = make(&[3, 2, 2]);
    let before: Vec<u32> = net.weight_buffer().clone();
    net.set_weight(2, 1, 2, 0x12345678);
    let after = net.weight_buffer();
    let mut changed = 0;
    for i in 0..before.len() {
        if before[i] != after[i] {
            changed += 1;
        }
    }
    assert!(changed <= 1);
    assert_eq!(net.weight(2, 1, 2), 0x12345678);
}

fn fill(net: &mut Network, layers: &[usize], base: f32) {
    let mut k = 0;
    for layer in 1..layers.len() {
        for neuron in 0..layers[layer] {
            for input in 0..=layers[layer - 1] {
                net.set_weight(layer, neuron, input, (base + k as f32 / 100.0).to_bits());
                k += 1;
            }
        }
    }
}

#[test]
fn breed_copies_each_weight_from_one_parent() {
    let layers = [2, 2, 1];
    let mut father = make(&layers);
    let mut mother = make(&layers);
    fill(&mut father, &layers, 0.1);
    fill(&mut mother, &layers, -0.9);
    let child = Network::breed(&father, &mother, Chance::new(1, 2));
    let f = father.weight_buffer();
    let m = mother.weight_buffer();
    let c = child.weight_buffer();
    assert_eq!(c.len(), f.len());
    for i in 0..c.len() {
        assert!(c[i] == f[i] || c[i] == m[i], "weight {} is neither parent's", i);
    }
}

#[test]
fn breed_with_certain_chance_copies_one_whole_parent() {
    let layers = [3, 2];
    let mut father = make(&layers);
    let mut mother = make(&layers);
    fill(&mut father, &layers, 0.2);
    fill(&mut mother, &layers, -0.8);
    let all_father = Network::breed(&father, &mother, Chance::new(1, 1));
    assert_eq!(all_father.weight_buffer(), father.weight_buffer());
    let all_mother = Network::breed(&father, &mother, Chance::new(0, 1));
    assert_eq!(all_mother.weight_buffer(), mother.weight_buffer());
}

#[test]
fn mutate_keeps_weights_in_unit_interval() {
    let parent = make(&[3, 3, 2]);
    for &(num, den) in &[(0u32, 10u32), (3, 10), (10, 10)] {
        let child = Network::mutate(&parent, Chance::new(num, den));
        assert_eq!(child.layers().as_slice(), parent.layers().as_slice());
        for &bits in child.weight_buffer().iter() {
            let w = f32::from_bits(bits);
            assert!((-1.0..=1.0).contains(&w));
        }
    }
}

#[test]
fn mutate_with_zero_chance_is_identity() {
    let parent = make(&[4, 2, 2]);
    let child = Network::mutate(&parent, Chance::new(0, 10));
    assert_eq!(child.weight_buffer(), parent.weight_buffer());
    assert_eq!(child.layers(), parent.layers());
}

#[test]
fn mutate_each_weight_is_parents_or_a_fresh_unit_value() {
    let layers = [2, 2];
    let mut parent = make(&layers);
    fill(&mut parent, &layers, 0.3);
    let child = Network::mutate(&parent, Chance::new(5, 10));
    for i in 0..child.weight_buffer().len() {
        let c = child.weight_buffer()[i];
        let p = parent.weight_buffer()[i];
        let w = f32::from_bits(c);
        assert!(c == p || ((-1.0..=1.0).contains(&w)));
    }
}

#[test]
fn duplicate_is_an_exact_copy() {
    let net = make(&[3, 2, 1]);
    let copy = net.duplicate();
    assert_eq!(copy.layers(), net.layers());
    assert_eq!(copy.weight_buffer(), net.weight_buffer());
}

#[test]
fn chance_extremes_are_certain() {
    let mut rng = genetic_nn::get_rng();
    let never = Chance::new(0, 7);
    let always = Chance::new(7, 7);
    for _ in 0..200 {
        assert!(!never.sample(&mut rng));
        assert!(always.sample(&mut rng));
    }
}
