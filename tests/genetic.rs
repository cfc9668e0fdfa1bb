use scratch_genetic::genetic::{
    evolve, fitness_order, gen_pop, reproduce, single_test, sort_by_fitness, test_all, test_and_sort,
};
use scratch_genetic::network::Network;
use scratch_genetic::neuron::{Config, NeuronConnection, NeuronConnectionMap, NeuronConnectionSet};

/// Node `j` passes input bit `j` through.
fn identity(width: usize) -> Network {
    let mut map = Vec::new();
    for j in 0..width {
        let mut conns = vec![NeuronConnection { weight: 0.0f64.to_bits(), offset: 0.0f64.to_bits() }; width];
        conns[j].weight = 1.0f64.to_bits();
        map.push(NeuronConnectionSet { conns });
    }
    Network { layers: vec![NeuronConnectionMap { map }], num_inputs: width }
}

/// A one-layer network of 8 nodes whose every synapse is (`tag / 1024`, -1):
/// it never fires, and `tag` tells it apart.
fn tagged(tag: i64) -> Network {
    let node = NeuronConnectionSet {
        conns: vec![NeuronConnection { weight: (tag as f64 / 1024.0).to_bits(), offset: (-1.0f64).to_bits() }; 8],
    };
    Network { layers: vec![NeuronConnectionMap { map: vec![node; 8] }], num_inputs: 8 }
}

fn tag(net: &Network) -> i64 {
    (f64::from_bits(net.layers[0].map[0].conns[0].weight) * 1024.0) as i64
}

fn zero_config() -> Config {
    Config { trait_swap_chance: 0, weight_mutate_chance: 0, offset_mutate_chance: 0, ..Config::default() }
}

#[test]
fn exact_match_scores_every_bit_and_flipped_scores_none() {
    let net = identity(16);
    let cfg = Config::default();
    assert_eq!(single_test(&net, &(vec![0xA5, 0x3C], vec![0xA5, 0x3C]), &cfg), 16);
    assert_eq!(single_test(&net, &(vec![0xA5, 0x3C], vec![0x5A, 0xC3]), &cfg), 0);
    assert_eq!(test_all(&net, &vec![(vec![0xA5, 0x3C], vec![0xA5, 0x3C])], &cfg), 16);
    assert_eq!(test_all(&net, &vec![(vec![0xA5, 0x3C], vec![0x5A, 0xC3])], &cfg), 0);
}

#[test]
fn fitness_counts_matching_bits() {
    let net = identity(8);
    let cfg = Config::default();
    // 0b1111_0000 against 0b1100_0011: agree in four places.
    assert_eq!(single_test(&net, &(vec![0b1111_0000], vec![0b1100_0011]), &cfg), 4);
    // Only the bytes both buffers have count.
    assert_eq!(single_test(&net, &(vec![0xFF], vec![0xFF, 0xFF]), &cfg), 8);
    let data = vec![(vec![0xFF], vec![0xFF]), (vec![0xF0], vec![0x00]), (vec![0x00], vec![0x00])];
    assert_eq!(test_all(&net, &data, &cfg), 8 + 4 + 8);
}

#[test]
fn fitness_stays_within_pairs_times_output_bits() {
    let cfg = Config::default();
    let data = vec![(vec![0x01, 0x02], vec![0x03, 0x04, 0x05]), (vec![0xFF, 0xEE], vec![0x00, 0x11, 0x22])];
    for _ in 0..20 {
        let net = Network::new_random(&vec![8], 16, 24);
        assert!(test_all(&net, &data, &cfg) <= 2 * 24);
    }
    assert_eq!(test_all(&identity(8), &vec![], &cfg), 0);
}

#[test]
fn fitness_order_is_stable_and_descending() {
    assert_eq!(fitness_order(&vec![3, 5, 3, 5]), vec![1, 3, 0, 2]);
    assert_eq!(fitness_order(&vec![1, 2, 3]), vec![2, 1, 0]);
    assert_eq!(fitness_order(&vec![7, 7, 7]), vec![0, 1, 2]);
    assert_eq!(fitness_order(&vec![]), Vec::<usize>::new());
}

#[test]
fn sort_moves_networks_with_their_scores() {
    let mut pop = vec![tagged(0), tagged(1), tagged(2), tagged(3)];
    let order = sort_by_fitness(&mut pop, &vec![3, 5, 3, 5]);
    assert_eq!(order, vec![1, 3, 0, 2]);
    assert_eq!(pop.iter().map(tag).collect::<Vec<_>>(), vec![1, 3, 0, 2]);
}

#[test]
fn sorting_again_keeps_equal_networks_in_order() {
    // Every network here scores the same: the sort must keep their order,
    // however often it runs.
    let cfg = Config::default();
    let data = vec![(vec![0x0F], vec![0x00])];
    let mut pop = vec![tagged(5), tagged(6), tagged(7)];
    let first = test_and_sort(&mut pop, &data, &cfg);
    assert_eq!(first, vec![8, 8, 8]);
    assert_eq!(pop.iter().map(tag).collect::<Vec<_>>(), vec![5, 6, 7]);
    for _ in 0..3 {
        test_and_sort(&mut pop, &data, &cfg);
        assert_eq!(pop.iter().map(tag).collect::<Vec<_>>(), vec![5, 6, 7]);
    }
}

#[test]
fn test_and_sort_puts_the_fittest_first() {
    let cfg = Config::default();
    let data = vec![(vec![0xF0], vec![0xF0])];
    let mut pop = vec![tagged(1), identity(8), tagged(2)];
    let scores = test_and_sort(&mut pop, &data, &cfg);
    assert_eq!(scores, vec![8, 4, 4]);
    assert_eq!(pop[0].to_bytes(), identity(8).to_bytes());
    assert_eq!(tag(&pop[1]), 1);
    assert_eq!(tag(&pop[2]), 2);
}

#[test]
fn reproduce_keeps_size_and_copies_parents() {
    let mut pop: Vec<Network> = (0..8).map(tagged).collect();
    reproduce(&mut pop, &zero_config());
    // Groups of four: parents 0 and 1, their two children, then 2 and 3 ...
    assert_eq!(pop.iter().map(tag).collect::<Vec<_>>(), vec![0, 1, 0, 1, 2, 3, 2, 3]);
}

#[test]
fn reproduce_cuts_the_last_group() {
    // Six networks: the fitter half holds one pair, (0, 1), which breeds
    // every group; networks 3, 4 and 5 are dropped.
    let mut pop: Vec<Network> = (0..6).map(tagged).collect();
    reproduce(&mut pop, &zero_config());
    assert_eq!(pop.iter().map(tag).collect::<Vec<_>>(), vec![0, 1, 0, 1, 0, 1]);
    let mut pop: Vec<Network> = (0..5).map(tagged).collect();
    reproduce(&mut pop, &Config::default());
    assert_eq!(pop.len(), 5);
    assert_eq!(tag(&pop[0]), 0);
    assert_eq!(tag(&pop[1]), 1);
    assert_eq!(tag(&pop[4]), 0);
    // Twelve: pairs (0, 1), (2, 3), (4, 5) of the fitter half, in turn.
    let mut pop: Vec<Network> = (0..12).map(tagged).collect();
    reproduce(&mut pop, &zero_config());
    assert_eq!(pop.iter().map(tag).collect::<Vec<_>>(), vec![0, 1, 0, 1, 2, 3, 2, 3, 4, 5, 4, 5]);
    // Ten: pairs (0, 1), (2, 3), then (0, 1) again for the cut last group.
    let mut pop: Vec<Network> = (0..10).map(tagged).collect();
    reproduce(&mut pop, &zero_config());
    assert_eq!(pop.iter().map(tag).collect::<Vec<_>>(), vec![0, 1, 0, 1, 2, 3, 2, 3, 0, 1]);
}

#[test]
fn reproduce_leaves_a_small_population() {
    let mut pop = vec![tagged(9)];
    reproduce(&mut pop, &Config::default());
    assert_eq!(pop.iter().map(tag).collect::<Vec<_>>(), vec![9]);
    let mut pop = vec![tagged(1), tagged(2), tagged(3)];
    reproduce(&mut pop, &Config::default());
    assert_eq!(pop.iter().map(tag).collect::<Vec<_>>(), vec![1, 2, 3]);
    let mut empty: Vec<Network> = Vec::new();
    reproduce(&mut empty, &Config::default());
    assert!(empty.is_empty());
}

#[test]
fn children_with_certain_swap_trade_every_synapse() {
    let cfg = Config { trait_swap_chance: scratch_genetic::neuron::CHANCE_SCALE, ..zero_config() };
    let mut pop = vec![tagged(1), tagged(2), tagged(3), tagged(4)];
    reproduce(&mut pop, &cfg);
    assert_eq!(pop.iter().map(tag).collect::<Vec<_>>(), vec![1, 2, 2, 1]);
}

#[test]
fn gen_pop_builds_the_architecture() {
    let pop = gen_pop(5, &vec![8, 4], 16, 24);
    assert_eq!(pop.len(), 5);
    for net in &pop {
        assert_eq!(net.num_inputs, 16);
        let shape: Vec<usize> = net.layers.iter().map(|l| l.map.len()).collect();
        assert_eq!(shape, vec![8, 4, 24]);
    }
}

#[test]
fn evolve_ends_sorted() {
    let cfg = Config::default();
    let data = vec![(vec![0x12, 0x34], vec![0x56]), (vec![0xAB, 0xCD], vec![0xEF])];
    let mut pop = gen_pop(8, &vec![8], 16, 8);
    let scores = evolve(&mut pop, &data, &cfg, 3);
    assert_eq!(pop.len(), 8);
    assert_eq!(scores.len(), 8);
    assert!(scores.windows(2).all(|w| w[0] >= w[1]));
    assert_eq!(scores[0], test_all(&pop[0], &data, &cfg));
}
