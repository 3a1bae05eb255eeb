use genetic_nn::genetic::{
    evolve_rated_networks, generate_survivor_distribution, sort_fitness_vec, Environment,
};
use genetic_nn::{Chance, CreationError, GeneticNetwork, Network};

#[test]
fn environment_rejects_invalid_topology() {
    assert_eq!(Environment::new(&[3], 10).unwrap_err(), CreationError::NotEnoughLayers);
    assert_eq!(Environment::new(&[2, 0], 10).unwrap_err(), CreationError::NotEnoughLayers);
}

#[test]
fn fresh_environment_state() {
    let env = Environment::new(&[2, 1], 5).unwrap();
    assert_eq!(env.survivor_count(), 0);
    assert_eq!(env.generation(), 0);
    assert!(env.get_network(4).is_some());
    assert!(env.get_network(5).is_none());
    assert!(env.get_previous_survivor(0).is_none());
    let best = env.get_best();
    let slot0 = env.get_network(0).unwrap();
    assert_eq!(best.weight_buffer(), slot0.weight_buffer());
}

#[test]
fn survivor_distribution_always_keeps_the_best_two_ranks() {
    for &n in &[2usize, 3, 5, 17, 50, 200] {
        for _ in 0..20 {
            let d = generate_survivor_distribution(n);
            assert!(d.len() >= 2);
            assert!(d.len() <= n);
            assert_eq!(d[0], 0);
            assert_eq!(d[1], 1);
            for i in 1..d.len() {
                assert!(d[i - 1] < d[i]);
                assert!(d[i] <= 2 * d[i - 1] + 1);
                assert!(d[i] < n);
            }
            // the rule stops only when even the largest step would leave
            assert!(2 * d[d.len() - 1] + 2 > n);
        }
    }
}

#[test]
fn sort_orders_ascending_and_permutes() {
    let nets = Network::multiple(&[2, 1], 6);
    let keys = [9u32, 3, 7, 3, 1, 8];
    let mut rated: Vec<(u32, Network)> = Vec::new();
    for (i, n) in nets.into_iter().enumerate() {
        rated.push((keys[i], n));
    }
    let sorted = sort_fitness_vec(rated);
    let got: Vec<u32> = sorted.iter().map(|p| p.0).collect();
    assert_eq!(got, vec![1, 3, 3, 7, 8, 9]);
    let mut back = got.clone();
    back.sort_unstable();
    let mut orig = keys.to_vec();
    orig.sort_unstable();
    assert_eq!(back, orig);
}

#[test]
fn evolve_keeps_the_two_best_ranks_verbatim() {
    for _ in 0..10 {
        let nets = Network::multiple(&[2, 1], 8);
        let rated: Vec<(u32, Network)> =
            nets.into_iter().enumerate().map(|(i, n)| (i as u32, n)).collect();
        let first = rated[0].1.weight_buffer().clone();
        let second = rated[1].1.weight_buffer().clone();
        let (sc, new_pop) = evolve_rated_networks(rated);
        assert_eq!(new_pop.len(), 8);
        assert!(sc >= 2);
        assert!(sc <= 8);
        assert_eq!(new_pop[0].weight_buffer(), &first);
        assert_eq!(new_pop[1].weight_buffer(), &second);
        for n in &new_pop {
            assert_eq!(n.layers().as_slice(), &[2, 1]);
            assert_eq!(n.weight_buffer().len(), 3);
        }
    }
}

/// Absolute deviation of a network's outputs from the XOR truth table,
/// through a binary sigmoid with gain one; lower is better.
fn xor_fitness(net: &Network) -> f32 {
    let table = [
        ([0.0f32, 0.0], 0.0f32),
        ([0.0, 1.0], 1.0),
        ([1.0, 0.0], 1.0),
        ([1.0, 1.0], 0.0),
    ];
    let layers = net.layers().clone();
    let buf = net.weight_buffer();
    let mut loss = 0.0f32;
    for (input, expected) in table {
        let mut values: Vec<f32> = input.to_vec();
        for layer in 1..layers.len() {
            let mut next = Vec::with_capacity(layers[layer]);
            for neuron in 0..layers[layer] {
                let (start, end) = net.neuron_section(layer, neuron);
                let mut total = 0.0f32;
                for (i, &v) in values.iter().enumerate() {
                    total += v * f32::from_bits(buf[start + i]);
                }
                total += f32::from_bits(buf[end - 1]);
                next.push(1.0 / (1.0 + (-total).exp()));
            }
            values = next;
        }
        loss += (values[0] - expected).abs();
    }
    loss
}

fn score_population(env: &Environment) -> Vec<u32> {
    let mut scores = Vec::new();
    let mut i = 0;
    while let Some(net) = env.get_network(i) {
        scores.push(xor_fitness(net).to_bits());
        i += 1;
    }
    scores
}

#[test]
fn generation_steps_update_counters_and_survivors() {
    let mut env = Environment::new(&[2, 2, 1], 10).unwrap();
    for g in 1..=5u32 {
        let scores = score_population(&env);
        assert!(scores.len() >= 2);
        env.rated_gen(&scores);
        assert_eq!(env.generation(), g);
        assert!(env.survivor_count() >= 2);
        assert!(env.survivor_count() <= 10);
        assert!(env.get_previous_survivor(0).is_some());
        assert!(env.get_previous_survivor(1).is_some());
        assert!(env.get_previous_survivor(env.survivor_count()).is_none());
        assert!(env.get_network(9).is_some());
        assert!(env.get_network(10).is_none());
    }
}

#[test]
fn best_survivor_scores_no_worse_than_any_survivor() {
    let mut env = Environment::new(&[2, 2, 1], 20).unwrap();
    for _ in 0..10 {
        let scores = score_population(&env);
        env.rated_gen(&scores);
        let best = xor_fitness(env.get_best());
        let mut i = 0;
        while let Some(survivor) = env.get_previous_survivor(i) {
            assert!(best <= xor_fitness(survivor));
            i += 1;
        }
        assert_eq!(i, env.survivor_count());
    }
}

#[test]
fn evolution_beats_the_initial_population_mean_on_xor() {
    let mut env = Environment::new(&[2, 2, 1], 50).unwrap();
    let initial = score_population(&env);
    let initial_mean =
        initial.iter().map(|&b| f32::from_bits(b) as f64).sum::<f64>() / initial.len() as f64;
    for _ in 0..2000 {
        let scores = score_population(&env);
        env.rated_gen(&scores);
    }
    let best = xor_fitness(env.get_best()) as f64;
    assert!(
        best < initial_mean,
        "best {} did not beat initial mean {}",
        best,
        initial_mean
    );
}

#[test]
fn trait_operators_behave_like_the_inherent_ones() {
    let father = Network::new(vec![2, 2]).unwrap();
    let mother = Network::new(vec![2, 2]).unwrap();
    let child = <Network as GeneticNetwork>::breed(&father, &mother, Chance::new(1, 1));
    assert_eq!(child.weight_buffer(), father.weight_buffer());
    let copy = <Network as GeneticNetwork>::mutate(&father, Chance::new(0, 1));
    assert_eq!(copy.weight_buffer(), father.weight_buffer());
}
