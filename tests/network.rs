use scratch_genetic::double::{decode_value, encode_value, MAX_EXACT};
use scratch_genetic::neuron::{
    draw_bounds, Config, NeuronConnection, NeuronConnectionMap, NeuronConnectionSet, CHANCE_SCALE,
    NEURON_ACTIVATION_THRESH, ONE,
};
use scratch_genetic::network::Network;

fn syn(weight: f64, offset: f64) -> NeuronConnection {
    NeuronConnection { weight: weight.to_bits(), offset: offset.to_bits() }
}

fn layer(nodes: usize, width: usize, weight: f64, offset: f64) -> NeuronConnectionMap {
    let mut map = Vec::new();
    for _ in 0..nodes {
        map.push(NeuronConnectionSet { conns: vec![syn(weight, offset); width] });
    }
    NeuronConnectionMap { map }
}

/// Node `j` passes input bit `j` through: weight 1 on that bit, 0 elsewhere.
fn identity_layer(width: usize) -> NeuronConnectionMap {
    let mut map = Vec::new();
    for j in 0..width {
        let mut conns = vec![syn(0.0, 0.0); width];
        conns[j].weight = 1.0f64.to_bits();
        map.push(NeuronConnectionSet { conns });
    }
    NeuronConnectionMap { map }
}

fn all_weights(net: &Network) -> Vec<f64> {
    let mut out = Vec::new();
    for l in &net.layers {
        for n in &l.map {
            for c in &n.conns {
                out.push(f64::from_bits(c.weight));
            }
        }
    }
    out
}

#[test]
fn zero_network_outputs_zero_bits() {
    let net = Network { layers: vec![layer(8, 8, 0.0, 0.0)], num_inputs: 8 };
    let cfg = Config::default();
    for input in [0x00u8, 0xFF, 0xA5, 0x01] {
        assert_eq!(net.result(&vec![input], &cfg), vec![0u8]);
    }
}

#[test]
fn identity_layer_passes_bits_msb_first() {
    let net = Network { layers: vec![identity_layer(8)], num_inputs: 8 };
    let cfg = Config::default();
    assert_eq!(net.result(&vec![0b1010_0001], &cfg), vec![0b1010_0001]);
    assert_eq!(net.result(&vec![0x80], &cfg), vec![0x80]);
}

#[test]
fn evaluate_twice_gives_same_bytes() {
    let net = Network::new_random(&vec![16, 8], 16, 24);
    let cfg = Config::default();
    let input = vec![0x3C, 0xC3];
    let a = net.result(&input, &cfg);
    let b = net.result(&input, &cfg);
    assert_eq!(a, b);
    let copy = net.duplicate();
    assert_eq!(copy.result(&input, &cfg), a);
}

#[test]
fn output_has_output_width_bytes() {
    let cfg = Config::default();
    for (sizes, outputs, bytes) in [(vec![8usize], 24usize, 3usize), (vec![5, 3], 2, 1), (vec![], 9, 2)] {
        let net = Network::new_random(&sizes, 16, outputs);
        assert_eq!(net.result(&vec![0xFF, 0x00], &cfg).len(), bytes);
    }
}

#[test]
fn partial_byte_is_padded_with_zeros() {
    // Three nodes: the first and third always fire (offset 1), the second never.
    let mut l = layer(3, 8, 0.0, 1.0);
    l.map[1] = NeuronConnectionSet { conns: vec![syn(0.0, -1.0); 8] };
    let net = Network { layers: vec![l], num_inputs: 8 };
    assert_eq!(net.result(&vec![0x00], &Config::default()), vec![0b1010_0000]);
}

#[test]
fn offset_counts_whatever_the_bit() {
    // Eight offsets of 0.1 sum to 0.8, above the 0.6 threshold, on any input.
    let node = NeuronConnectionSet { conns: vec![syn(0.0, 0.1); 8] };
    let cfg = Config::default();
    assert!(node.activated(&vec![0x00], &cfg));
    assert!(node.activated(&vec![0xFF], &cfg));
    // A weight counts only where its bit is set.
    let node = NeuronConnectionSet { conns: vec![syn(0.25, 0.0); 8] };
    assert!(!node.activated(&vec![0b1100_0000], &cfg));
    assert!(node.activated(&vec![0b1110_0000], &cfg));
}

#[test]
fn threshold_is_strict() {
    let cfg = Config::default();
    let zero = 0.0f64.to_bits();
    let at = NeuronConnectionSet {
        conns: vec![NeuronConnection { weight: encode_value(NEURON_ACTIVATION_THRESH), offset: zero }],
    };
    assert!(!at.activated(&vec![0x80], &cfg));
    let above = NeuronConnectionSet {
        conns: vec![NeuronConnection { weight: encode_value(NEURON_ACTIVATION_THRESH + 1), offset: zero }],
    };
    assert!(above.activated(&vec![0x80], &cfg));
}

#[test]
fn layers_feed_each_other() {
    // Two identity layers of 8, then one that inverts: fires unless its bit is set.
    let mut inv = Vec::new();
    for j in 0..8 {
        let mut conns = vec![syn(0.0, 0.0); 8];
        conns[j] = syn(-1.0, 1.0);
        inv.push(NeuronConnectionSet { conns });
    }
    let net = Network {
        layers: vec![identity_layer(8), identity_layer(8), NeuronConnectionMap { map: inv }],
        num_inputs: 8,
    };
    assert_eq!(net.result(&vec![0b1111_0000], &Config::default()), vec![0b0000_1111]);
}

#[test]
fn new_random_has_architecture_and_initial_ranges() {
    let net = Network::new_random(&vec![4, 3], 10, 5);
    assert_eq!(net.num_inputs, 10);
    let shape: Vec<(usize, usize)> = net.layers.iter().map(|l| (l.map.len(), l.map[0].conns.len())).collect();
    assert_eq!(shape, vec![(4, 10), (3, 4), (5, 3)]);
    for l in &net.layers {
        for n in &l.map {
            for c in &n.conns {
                let (w, o) = (f64::from_bits(c.weight), f64::from_bits(c.offset));
                assert!((-1.0..=1.0).contains(&w));
                assert!((-0.5..=0.5).contains(&o));
            }
        }
    }
    // The draws are not all the same value.
    let w = all_weights(&net);
    assert!(w.iter().any(|x| *x != w[0]));
}

#[test]
fn mutation_stays_within_amount() {
    let cfg = Config {
        weight_mutate_chance: CHANCE_SCALE,
        offset_mutate_chance: CHANCE_SCALE,
        weight_mutate_amount: ONE / 100,
        offset_mutate_amount: ONE / 20,
        ..Config::default()
    };
    let before = Network::new_random(&vec![8], 8, 8);
    let mut after = before.duplicate();
    after.mutate(&cfg);
    let mut moved = false;
    for (l, la) in before.layers.iter().zip(after.layers.iter()) {
        for (n, na) in l.map.iter().zip(la.map.iter()) {
            for (c, ca) in n.conns.iter().zip(na.conns.iter()) {
                assert!((decode_value(ca.weight) - decode_value(c.weight)).abs() <= cfg.weight_mutate_amount);
                assert!((decode_value(ca.offset) - decode_value(c.offset)).abs() <= cfg.offset_mutate_amount);
                moved |= ca.weight != c.weight;
            }
        }
    }
    assert!(moved);
}

#[test]
fn certain_mutation_redraws_off_grid_values() {
    // 0.1 is not a multiple of 2^-32: any redraw gives other bits, the exact
    // double of a value within the amount.
    let cfg = Config {
        weight_mutate_chance: CHANCE_SCALE,
        offset_mutate_chance: CHANCE_SCALE,
        weight_mutate_amount: ONE / 100,
        offset_mutate_amount: ONE / 100,
        ..Config::default()
    };
    let mut c = syn(0.1, -0.1);
    c.mutate(&cfg);
    assert_ne!(c.weight, 0.1f64.to_bits());
    assert_ne!(c.offset, (-0.1f64).to_bits());
    assert_eq!(encode_value(decode_value(c.weight)), c.weight);
    assert!((f64::from_bits(c.weight) - 0.1).abs() <= 0.01 + 1e-9);
}

#[test]
fn apply_mutation_writes_the_drawn_values() {
    let cfg = Config::default();
    let mut c = syn(0.5, 0.25);
    c.apply_mutation(&cfg, true, ONE / 4, false, 0);
    assert_eq!(c, syn(0.25, 0.25));
    c.apply_mutation(&cfg, false, 0, true, -ONE / 8);
    assert_eq!(c, syn(0.25, -0.125));
}

#[test]
fn draw_bounds_clip_at_the_exact_range() {
    assert_eq!(draw_bounds(100, 10), (90, 110));
    assert_eq!(draw_bounds(MAX_EXACT - 3, 10), (MAX_EXACT - 13, MAX_EXACT));
    assert_eq!(draw_bounds(-MAX_EXACT, 10), (-MAX_EXACT, -MAX_EXACT + 10));
    let (lo, hi) = draw_bounds(i64::MAX, 10);
    assert!(lo > hi);
}

#[test]
fn mutation_with_zero_chance_changes_nothing() {
    let cfg = Config { weight_mutate_chance: 0, offset_mutate_chance: 0, ..Config::default() };
    let before = Network::new_random(&vec![4], 8, 8);
    let mut after = before.duplicate();
    after.mutate(&cfg);
    assert_eq!(before.to_bytes(), after.to_bytes());
}

#[test]
fn mutation_clips_at_the_range_of_i64() {
    let cfg = Config { weight_mutate_chance: CHANCE_SCALE, weight_mutate_amount: 10, ..Config::default() };
    let mut c = NeuronConnection { weight: encode_value(MAX_EXACT), offset: 0 };
    c.mutate(&cfg);
    assert!(decode_value(c.weight) >= MAX_EXACT - 10);
    assert!(decode_value(c.weight) <= MAX_EXACT);
    // A value far past the exact range has nowhere to move, and stays.
    let mut c = syn(1e300, 0.0);
    c.mutate(&cfg);
    assert_eq!(c.weight, 1e300f64.to_bits());
}

#[test]
fn crossover_certain_swaps_every_synapse() {
    let cfg = Config { trait_swap_chance: CHANCE_SCALE, ..Config::default() };
    let mut a = Network { layers: vec![layer(2, 8, 1.0, 2.0)], num_inputs: 8 };
    let mut b = Network { layers: vec![layer(2, 8, 3.0, 4.0)], num_inputs: 8 };
    a.random_trade(&mut b, &cfg);
    assert!(all_weights(&a).iter().all(|w| *w == 3.0));
    assert!(all_weights(&b).iter().all(|w| *w == 1.0));
    assert_eq!(f64::from_bits(a.layers[0].map[1].conns[7].offset), 4.0);
}

#[test]
fn crossover_never_keeps_both() {
    let cfg = Config { trait_swap_chance: 0, ..Config::default() };
    let mut a = Network { layers: vec![layer(2, 8, 1.0, 2.0)], num_inputs: 8 };
    let mut b = Network { layers: vec![layer(2, 8, 3.0, 4.0)], num_inputs: 8 };
    a.random_trade(&mut b, &cfg);
    assert!(all_weights(&a).iter().all(|w| *w == 1.0));
    assert!(all_weights(&b).iter().all(|w| *w == 3.0));
}

#[test]
fn crossover_keeps_or_swaps_each_place() {
    let cfg = Config::default();
    let mut a = Network { layers: vec![layer(4, 8, 1.0, 10.0)], num_inputs: 8 };
    let mut b = Network { layers: vec![layer(4, 8, 2.0, 20.0)], num_inputs: 8 };
    a.random_trade(&mut b, &cfg);
    for (na, nb) in a.layers[0].map.iter().zip(b.layers[0].map.iter()) {
        for (ca, cb) in na.conns.iter().zip(nb.conns.iter()) {
            let kept = *ca == syn(1.0, 10.0) && *cb == syn(2.0, 20.0);
            let swapped = *ca == syn(2.0, 20.0) && *cb == syn(1.0, 10.0);
            assert!(kept || swapped);
        }
    }
}
