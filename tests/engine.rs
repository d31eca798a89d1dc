use flappy_evolution::evolution::{rank_by_fitness, Evolution, Origin};
use flappy_evolution::genetic::{
    selected_for_mutation, GeneticAlgorithms, MUTATION_DRAW_END, MUTATION_THRESHOLD,
};
use flappy_evolution::network::{Layer, NeuralNetwork, Node};
use flappy_evolution::random::Random;
use flappy_evolution::scalar::Scalar;

/// Single-precision values, with the arithmetic of `f32`.
#[derive(Clone, Copy, Debug, PartialEq)]
struct F(f32);

impl Scalar for F {
    // The models of the operations are the operations themselves.
    fn spec_zero() -> Self {
        Self::zero()
    }

    fn spec_plus(self, other: Self) -> Self {
        self.plus(other)
    }

    fn spec_times(self, other: Self) -> Self {
        self.times(other)
    }

    fn spec_halve(self) -> Self {
        self.halve()
    }

    fn spec_sigmoid(self) -> Self {
        self.sigmoid()
    }

    fn zero() -> Self {
        F(0.0)
    }

    fn ratio(numerator: i32, denominator: u32) -> Self {
        F(numerator as f32 / denominator as f32)
    }

    fn uniform(random: &mut Random, low: Self, high: Self) -> Self {
        F(low.0 + random.generator.rand_float() * (high.0 - low.0))
    }

    fn plus(self, other: Self) -> Self {
        F(self.0 + other.0)
    }

    fn times(self, other: Self) -> Self {
        F(self.0 * other.0)
    }

    fn halve(self) -> Self {
        F(self.0 / 2.0)
    }

    fn sigmoid(self) -> Self {
        F(1.0 / (1.0 + std::f32::consts::E.powf(-self.0)))
    }
}

fn sigmoid(x: f32) -> f32 {
    1.0 / (1.0 + std::f32::consts::E.powf(-x))
}

fn seeded(seed: u64) -> Random {
    Random::new().with_seed(seed)
}

/// A network of the given shape with every bias and weight equal to `value`.
fn filled(shape: &[usize], value: f32) -> NeuralNetwork<F> {
    let mut layers = Vec::new();
    for i in 0..shape.len() {
        let fan_out = if i + 1 < shape.len() { shape[i + 1] } else { 0 };
        let nodes = (0..shape[i])
            .map(|_| Node { activation: F(0.0), bias: F(value), weights: vec![F(value); fan_out] })
            .collect();
        layers.push(Layer { nodes });
    }
    NeuralNetwork { layers }
}

fn all_values(net: &NeuralNetwork<F>) -> Vec<f32> {
    let mut out = Vec::new();
    for layer in &net.layers {
        for node in &layer.nodes {
            out.push(node.activation.0);
            out.push(node.bias.0);
            out.extend(node.weights.iter().map(|w| w.0));
        }
    }
    out
}

fn weight_counts(net: &NeuralNetwork<F>) -> Vec<Vec<usize>> {
    net.layers.iter().map(|l| l.nodes.iter().map(|n| n.weights.len()).collect()).collect()
}

/// Maps fitness to an integer key of the same order.
fn order_key(f: f32) -> u32 {
    let bits = f.to_bits();
    if bits >> 31 == 1 {
        !bits
    } else {
        bits | (1 << 31)
    }
}

#[test]
fn new_has_requested_shape() {
    let mut random = seeded(1);
    let net: NeuralNetwork<F> = NeuralNetwork::new(&[3, 10, 3], &mut random);
    assert_eq!(net.layer_sizes(), vec![3, 10, 3]);
    assert_eq!(net.layers.len(), 3);
    assert_eq!(net.output().len(), 3);
    assert_eq!(weight_counts(&net), vec![vec![10; 3], vec![3; 10], vec![0; 3]]);
}

#[test]
fn new_two_layer_shape() {
    let mut random = seeded(2);
    let net: NeuralNetwork<F> = NeuralNetwork::new(&[5, 1], &mut random);
    assert_eq!(net.layer_sizes(), vec![5, 1]);
    assert_eq!(net.output().len(), 1);
}

#[test]
fn new_output_layer_is_zeroed() {
    let mut random = seeded(3);
    let net: NeuralNetwork<F> = NeuralNetwork::new(&[2, 4, 2], &mut random);
    for node in &net.layers[2].nodes {
        assert_eq!(node.bias, F(0.0));
        assert_eq!(node.activation, F(0.0));
        assert!(node.weights.is_empty());
    }
    assert_eq!(net.output(), vec![F(0.0), F(0.0)]);
}

#[test]
fn new_draws_from_unit_range() {
    let mut random = seeded(4);
    let net: NeuralNetwork<F> = NeuralNetwork::new(&[6, 8, 3], &mut random);
    for layer in &net.layers[..2] {
        for node in &layer.nodes {
            assert_eq!(node.activation, F(0.0));
            assert!(node.bias.0 >= -1.0 && node.bias.0 < 1.0);
            for w in &node.weights {
                assert!(w.0 >= -1.0 && w.0 < 1.0);
            }
        }
    }
    let distinct = all_values(&net);
    assert!(distinct.iter().any(|v| *v != 0.0));
}

#[test]
fn new_with_same_seed_is_reproducible() {
    let a: NeuralNetwork<F> = NeuralNetwork::new(&[3, 10, 3], &mut seeded(5));
    let b: NeuralNetwork<F> = NeuralNetwork::new(&[3, 10, 3], &mut seeded(5));
    assert_eq!(all_values(&a), all_values(&b));
}

#[test]
fn process_is_deterministic() {
    let net: NeuralNetwork<F> = NeuralNetwork::new(&[3, 10, 3], &mut seeded(6));
    let mut a = net.duplicate();
    let mut b = net.duplicate();
    let input = [F(0.3), F(-0.7), F(0.1)];
    a.process(&input);
    b.process(&input);
    let first = a.output();
    assert_eq!(first.iter().map(|v| v.0.to_bits()).collect::<Vec<_>>(),
        b.output().iter().map(|v| v.0.to_bits()).collect::<Vec<_>>());
    a.process(&input);
    assert_eq!(first.iter().map(|v| v.0.to_bits()).collect::<Vec<_>>(),
        a.output().iter().map(|v| v.0.to_bits()).collect::<Vec<_>>());
}

#[test]
fn process_zero_weight_and_bias_gives_half() {
    let mut net = filled(&[1, 1], 0.0);
    net.process(&[F(123.0)]);
    assert_eq!(net.output(), vec![F(0.5)]);
}

#[test]
fn process_adds_source_bias_once_per_edge() {
    let mut net = NeuralNetwork {
        layers: vec![
            Layer {
                nodes: vec![
                    Node { activation: F(0.0), bias: F(0.5), weights: vec![F(2.0), F(1.0)] },
                    Node { activation: F(0.0), bias: F(0.25), weights: vec![F(-1.0), F(0.0)] },
                ],
            },
            Layer {
                nodes: vec![
                    Node { activation: F(0.0), bias: F(0.0), weights: vec![] },
                    Node { activation: F(0.0), bias: F(0.0), weights: vec![] },
                ],
            },
        ],
    };
    net.process(&[F(1.0), F(3.0)]);
    // (1*2 + 0.5) + (3*-1 + 0.25) and (1*1 + 0.5) + (3*0 + 0.25)
    assert_eq!(net.output(), vec![F(sigmoid(-0.25)), F(sigmoid(1.75))]);
}

#[test]
fn process_hidden_layer_chain() {
    let mut net = filled(&[1, 1, 1], 1.0);
    net.process(&[F(2.0)]);
    let hidden = sigmoid(2.0 * 1.0 + 1.0);
    assert_eq!(net.layers[1].nodes[0].activation, F(hidden));
    assert_eq!(net.output(), vec![F(sigmoid(hidden * 1.0 + 1.0))]);
}

#[test]
fn process_short_input_keeps_previous_activation() {
    let mut net = filled(&[2, 1], 0.5);
    net.layers[0].nodes[1].activation = F(0.7);
    net.process(&[F(0.2)]);
    assert_eq!(net.layers[0].nodes[0].activation, F(0.2));
    assert_eq!(net.layers[0].nodes[1].activation, F(0.7));
    assert_eq!(net.output(), vec![F(sigmoid((0.2 * 0.5 + 0.5) + (0.7 * 0.5 + 0.5)))]);
}

#[test]
fn process_changes_only_activations() {
    let mut net: NeuralNetwork<F> = NeuralNetwork::new(&[3, 4, 2], &mut seeded(7));
    let before = net.duplicate();
    net.process(&[F(1.0), F(0.0), F(-1.0)]);
    for (l, layer) in net.layers.iter().enumerate() {
        for (j, node) in layer.nodes.iter().enumerate() {
            assert_eq!(node.bias, before.layers[l].nodes[j].bias);
            assert_eq!(node.weights, before.layers[l].nodes[j].weights);
        }
    }
    for v in net.output() {
        assert!(v.0 > 0.0 && v.0 < 1.0);
    }
}

#[test]
fn node_blend_is_the_mean() {
    let a = Node { activation: F(0.9), bias: F(1.0), weights: vec![F(2.0), F(-4.0)] };
    let b = Node { activation: F(0.1), bias: F(0.0), weights: vec![F(4.0), F(1.0)] };
    let c = a.blend(&b);
    assert_eq!(c.activation, F(0.0));
    assert_eq!(c.bias, F(0.5));
    assert_eq!(c.weights, vec![F(3.0), F(-1.5)]);
}

#[test]
fn crossover_preserves_shape() {
    let a: NeuralNetwork<F> = NeuralNetwork::new(&[3, 10, 3], &mut seeded(8));
    let b: NeuralNetwork<F> = NeuralNetwork::new(&[3, 10, 3], &mut seeded(9));
    let child = a.crossover(&b);
    assert_eq!(child.layer_sizes(), a.layer_sizes());
    assert_eq!(child.layer_sizes(), b.layer_sizes());
    assert_eq!(weight_counts(&child), weight_counts(&a));
}

#[test]
fn crossover_of_constants_is_their_mean() {
    let a = filled(&[2, 3, 1], 0.25);
    let b = filled(&[2, 3, 1], 0.75);
    let child = a.crossover(&b);
    for layer in &child.layers {
        for node in &layer.nodes {
            assert_eq!(node.bias, F(0.5));
            assert_eq!(node.activation, F(0.0));
            assert!(node.weights.iter().all(|w| *w == F(0.5)));
        }
    }
}

#[test]
fn crossover_blends_position_by_position() {
    let mut a: NeuralNetwork<F> = NeuralNetwork::new(&[3, 5, 2], &mut seeded(10));
    let b: NeuralNetwork<F> = NeuralNetwork::new(&[3, 5, 2], &mut seeded(11));
    a.process(&[F(1.0), F(1.0), F(1.0)]);
    let child = a.crossover(&b);
    for l in 0..3 {
        for j in 0..child.layers[l].nodes.len() {
            let (x, y, c) = (&a.layers[l].nodes[j], &b.layers[l].nodes[j], &child.layers[l].nodes[j]);
            assert_eq!(c.bias.0, (x.bias.0 + y.bias.0) / 2.0);
            assert_eq!(c.activation, F(0.0));
            for k in 0..c.weights.len() {
                assert_eq!(c.weights[k].0, (x.weights[k].0 + y.weights[k].0) / 2.0);
            }
        }
    }
}

#[test]
fn crossover_leaves_parents_unchanged() {
    let a: NeuralNetwork<F> = NeuralNetwork::new(&[2, 2, 2], &mut seeded(12));
    let b: NeuralNetwork<F> = NeuralNetwork::new(&[2, 2, 2], &mut seeded(13));
    let (va, vb) = (all_values(&a), all_values(&b));
    let _child = a.crossover(&b);
    assert_eq!(all_values(&a), va);
    assert_eq!(all_values(&b), vb);
}

#[test]
fn mutation_selection_threshold() {
    assert_eq!(MUTATION_DRAW_END, 100);
    assert_eq!(MUTATION_THRESHOLD, 80);
    assert!(!selected_for_mutation(0));
    assert!(!selected_for_mutation(80));
    assert!(selected_for_mutation(81));
    assert!(selected_for_mutation(99));
}

#[test]
fn mutate_preserves_shape() {
    let mut net: NeuralNetwork<F> = NeuralNetwork::new(&[3, 10, 3], &mut seeded(14));
    let counts = weight_counts(&net);
    let mut random = seeded(15);
    for _ in 0..20 {
        net.mutate(&mut random);
        assert_eq!(net.layer_sizes(), vec![3, 10, 3]);
        assert_eq!(weight_counts(&net), counts);
    }
}

#[test]
fn mutate_scales_weights_and_shifts_biases() {
    let mut net: NeuralNetwork<F> = NeuralNetwork::new(&[40, 40, 3], &mut seeded(16));
    net.process(&vec![F(0.5); 40]);
    let before = net.duplicate();
    net.mutate(&mut seeded(17));
    let mut changed = 0;
    for l in 0..net.layers.len() {
        for j in 0..net.layers[l].nodes.len() {
            let (old, new) = (&before.layers[l].nodes[j], &net.layers[l].nodes[j]);
            assert_eq!(old.activation, new.activation);
            if old.bias != new.bias || old.weights != new.weights {
                changed += 1;
                for k in 0..old.weights.len() {
                    let (w, v) = (old.weights[k].0, new.weights[k].0);
                    assert!(v.abs() <= w.abs() && v.abs() >= 0.5 * w.abs() * 0.999);
                    assert!(w == 0.0 || v == 0.0 || (w > 0.0) == (v > 0.0));
                }
                let low = old.bias.0 * if old.bias.0 >= 0.0 { 0.5 } else { 1.0 };
                let high = old.bias.0 * if old.bias.0 >= 0.0 { 1.0 } else { 0.5 } + 0.1;
                assert!(new.bias.0 >= low - 1e-6 && new.bias.0 <= high + 1e-6);
            }
        }
    }
    assert!(changed > 0);
    assert!(changed < 83);
}

#[test]
fn mutate_touches_output_biases() {
    let mut net: NeuralNetwork<F> = NeuralNetwork::new(&[1, 200], &mut seeded(18));
    net.mutate(&mut seeded(19));
    let shifted = net.layers[1].nodes.iter().filter(|n| n.bias.0 != 0.0).count();
    assert!(shifted > 0);
    assert!(net.layers[1].nodes.iter().all(|n| n.bias.0 >= 0.0 && n.bias.0 < 0.1 && n.weights.is_empty()));
}

#[test]
fn rank_by_fitness_is_descending_and_stable() {
    assert_eq!(rank_by_fitness(&vec![3, 9, 3, 7]), vec![1, 3, 0, 2]);
    assert_eq!(rank_by_fitness(&vec![5, 5, 5]), vec![0, 1, 2]);
    assert_eq!(rank_by_fitness(&vec![1, 2, 3, 4]), vec![3, 2, 1, 0]);
}

#[test]
fn rank_by_fitness_of_nothing() {
    assert_eq!(rank_by_fitness(&vec![]), Vec::<usize>::new());
    assert_eq!(rank_by_fitness(&vec![42]), vec![0]);
}

#[test]
fn rank_follows_float_fitness_order() {
    let fitness = [0.5f32, -2.0, 10.25, 0.0, 3.0];
    let keys: Vec<u32> = fitness.iter().map(|f| order_key(*f)).collect();
    assert_eq!(rank_by_fitness(&keys), vec![2, 4, 0, 3, 1]);
}

#[test]
fn evolution_new_accepts_valid_sizes() {
    assert_eq!(
        Evolution::new(20, 2, 3, 2),
        Some(Evolution { population: 20, elite: 2, replicas: 3, partners: 2 })
    );
    assert!(Evolution::new(8, 2, 3, 1).is_some());
}

#[test]
fn evolution_new_rejects_invalid_sizes() {
    assert_eq!(Evolution::new(20, 2, 3, 0), None);
    assert_eq!(Evolution::new(20, 2, 3, 3), None);
    assert_eq!(Evolution::new(7, 2, 3, 1), None);
    assert_eq!(Evolution::new(usize::MAX, 2, usize::MAX, 1), None);
    assert_eq!(Evolution::new(10, 0, 3, 1), None);
}

#[test]
fn default_evolution_sizes() {
    let cycle = Evolution::default();
    assert_eq!(cycle, Evolution { population: 1000, elite: 10, replicas: 50, partners: 3 });
    assert_eq!(cycle.offspring(), 500);
    assert_eq!(cycle.fresh(), 490);
}

#[test]
fn next_generation_has_population_size() {
    let shape = [2, 3, 1];
    let mut random = seeded(20);
    for (population, elite, replicas, partners) in [(20, 2, 3, 2), (4, 1, 1, 1), (10, 5, 1, 5), (6, 3, 0, 1)] {
        let cycle = Evolution::new(population, elite, replicas, partners).unwrap();
        let pool: Vec<NeuralNetwork<F>> =
            (0..population + 3).map(|_| NeuralNetwork::new(&shape, &mut random)).collect();
        let fitness: Vec<u32> = (0..pool.len() as u32).map(|i| (i * 7) % 11).collect();
        let generation = cycle.next_generation(&pool, &fitness, &shape, &mut random);
        assert_eq!(generation.networks.len(), population);
        assert_eq!(generation.origins.len(), population);
        for net in &generation.networks {
            assert_eq!(net.layer_sizes(), vec![2, 3, 1]);
        }
    }
}

#[test]
fn next_generation_layout_follows_ranking() {
    let shape = [2, 3, 1];
    let mut random = seeded(21);
    let cycle = Evolution::new(12, 2, 3, 2).unwrap();
    let pool: Vec<NeuralNetwork<F>> = (0..12).map(|_| NeuralNetwork::new(&shape, &mut random)).collect();
    let fitness: Vec<u32> = vec![4, 1, 9, 0, 3, 7, 2, 5, 8, 6, 10, 11];
    let generation = cycle.next_generation(&pool, &fitness, &shape, &mut random);
    assert_eq!(generation.origins[0], Origin::Elite(11));
    assert_eq!(generation.origins[1], Origin::Elite(10));
    assert_eq!(all_values(&generation.networks[0]), all_values(&pool[11]));
    assert_eq!(all_values(&generation.networks[1]), all_values(&pool[10]));
    for s in 0..6 {
        match generation.origins[2 + s] {
            Origin::Offspring(parent, partner) => {
                assert_eq!(parent, if s % 2 == 0 { 11 } else { 10 });
                assert!(partner == 11 || partner == 10);
            }
            other => panic!("expected offspring, got {:?}", other),
        }
    }
    for i in 8..12 {
        assert_eq!(generation.origins[i], Origin::Fresh);
    }
}

#[test]
fn offspring_are_mutated_blends_of_their_parents() {
    let shape = [1, 1];
    let mut random = seeded(22);
    let cycle = Evolution::new(3, 1, 2, 1).unwrap();
    let pool = vec![filled(&shape, 0.2), filled(&shape, 0.6), filled(&shape, 0.4)];
    let generation = cycle.next_generation(&pool, &vec![1, 5, 3], &shape, &mut random);
    assert_eq!(generation.origins, vec![Origin::Elite(1), Origin::Offspring(1, 1), Origin::Offspring(1, 1)]);
    for net in &generation.networks[1..] {
        let w = net.layers[0].nodes[0].weights[0].0;
        assert!(w == 0.6 || (w >= 0.3 * 0.999 && w < 0.6));
        assert_eq!(net.layers[1].nodes[0].activation, F(0.0));
    }
}

#[test]
fn best_fitness_never_drops_over_generations() {
    // Population of 4 with shape [2, 3, 1]; fitness is the sum of the
    // output-layer biases.
    let shape = [2, 3, 1];
    let mut random = seeded(2024);
    let cycle = Evolution::new(4, 1, 1, 1).unwrap();
    let mut population: Vec<NeuralNetwork<F>> =
        (0..4).map(|_| NeuralNetwork::new(&shape, &mut random)).collect();
    let score = |net: &NeuralNetwork<F>| -> f32 { net.layers[2].nodes.iter().map(|n| n.bias.0).sum() };
    let mut best_so_far = f32::NEG_INFINITY;
    for _ in 0..100 {
        let fitness: Vec<f32> = population.iter().map(|n| score(n)).collect();
        let best = fitness.iter().cloned().fold(f32::NEG_INFINITY, f32::max);
        assert!(best >= best_so_far);
        best_so_far = best;
        let keys: Vec<u32> = fitness.iter().map(|f| order_key(*f)).collect();
        population = cycle.next_generation(&population, &keys, &shape, &mut random).networks;
        assert_eq!(population.len(), 4);
        assert_eq!(score(&population[0]), best);
    }
    assert!(best_so_far > 0.0);
}

#[test]
fn from_draws_places_values_in_order() {
    let draws: Vec<F> = (0..10).map(|i| F(i as f32)).collect();
    let net = NeuralNetwork::from_draws(&[2, 2, 1], &draws);
    assert_eq!(net.layer_sizes(), vec![2, 2, 1]);
    assert_eq!(net.layers[0].nodes[0].bias, F(0.0));
    assert_eq!(net.layers[0].nodes[0].weights, vec![F(1.0), F(2.0)]);
    assert_eq!(net.layers[0].nodes[1].bias, F(3.0));
    assert_eq!(net.layers[0].nodes[1].weights, vec![F(4.0), F(5.0)]);
    assert_eq!(net.layers[1].nodes[0].bias, F(6.0));
    assert_eq!(net.layers[1].nodes[0].weights, vec![F(7.0)]);
    assert_eq!(net.layers[1].nodes[1].bias, F(8.0));
    assert_eq!(net.layers[1].nodes[1].weights, vec![F(9.0)]);
    assert_eq!(net.layers[2].nodes[0].bias, F(0.0));
    assert!(net.layers[2].nodes[0].weights.is_empty());
    assert!(all_values(&net).len() == 2 * 4 + 2 * 3 + 2);
}

#[test]
fn new_takes_its_draws_in_order() {
    let shape = [3, 4, 2];
    let net: NeuralNetwork<F> = NeuralNetwork::new(&shape, &mut seeded(30));
    let mut random = seeded(30);
    let count = 3 * (1 + 4) + 4 * (1 + 2);
    let draws: Vec<F> = (0..count).map(|_| F::uniform(&mut random, F(-1.0), F(1.0))).collect();
    let rebuilt = NeuralNetwork::from_draws(&shape, &draws);
    assert_eq!(all_values(&net), all_values(&rebuilt));
}

#[test]
fn fresh_network_outputs_zero() {
    let net: NeuralNetwork<F> = NeuralNetwork::new(&[2, 3, 1], &mut seeded(1));
    assert_eq!(net.output(), vec![F(0.0)]);
}

#[test]
fn perturb_with_scales_and_shifts() {
    let mut node = Node { activation: F(0.3), bias: F(2.0), weights: vec![F(4.0), F(-2.0)] };
    node.perturb_with(F(0.5), F(0.25), &vec![F(0.5), F(0.75)]);
    assert_eq!(node.activation, F(0.3));
    assert_eq!(node.bias, F(1.25));
    assert_eq!(node.weights, vec![F(2.0), F(-1.5)]);
}

#[test]
fn crossover_is_commutative() {
    let a: NeuralNetwork<F> = NeuralNetwork::new(&[3, 5, 2], &mut seeded(31));
    let b: NeuralNetwork<F> = NeuralNetwork::new(&[3, 5, 2], &mut seeded(32));
    assert_eq!(all_values(&a.crossover(&b)), all_values(&b.crossover(&a)));
}

#[test]
fn crossover_with_itself_keeps_parameters() {
    let mut a: NeuralNetwork<F> = NeuralNetwork::new(&[3, 5, 2], &mut seeded(33));
    a.process(&[F(0.5), F(0.5), F(0.5)]);
    let child = a.crossover(&a);
    for l in 0..3 {
        for j in 0..a.layers[l].nodes.len() {
            assert_eq!(child.layers[l].nodes[j].bias, a.layers[l].nodes[j].bias);
            assert_eq!(child.layers[l].nodes[j].weights, a.layers[l].nodes[j].weights);
            assert_eq!(child.layers[l].nodes[j].activation, F(0.0));
        }
    }
}
