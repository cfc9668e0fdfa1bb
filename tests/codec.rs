use scratch_genetic::codec::ModelError;
use scratch_genetic::genetic::load_and_predict;
use scratch_genetic::network::Network;
use scratch_genetic::neuron::{Config, NeuronConnection, NeuronConnectionMap, NeuronConnectionSet};

fn syn(weight: f64, offset: f64) -> NeuronConnection {
    NeuronConnection { weight: weight.to_bits(), offset: offset.to_bits() }
}

fn one_node(conns: Vec<NeuronConnection>) -> Network {
    let n = conns.len();
    Network { layers: vec![NeuronConnectionMap { map: vec![NeuronConnectionSet { conns }] }], num_inputs: n }
}

fn synapses(net: &Network) -> Vec<NeuronConnection> {
    let mut out = Vec::new();
    for l in &net.layers {
        for n in &l.map {
            out.extend(n.conns.iter().copied());
        }
    }
    out
}

#[test]
fn one_synapse_bytes() {
    let net = one_node(vec![syn(1.0, -1.0 / 4294967296.0)]);
    // 1.0, then -2^-32.
    assert_eq!(
        net.to_bytes(),
        vec![0x3F, 0xF0, 0, 0, 0, 0, 0, 0, 0xBD, 0xF0, 0, 0, 0, 0, 0, 0]
    );
    assert_eq!(net.to_bytes()[..8], 1.0f64.to_be_bytes());
    assert_eq!(net.to_bytes()[8..], (-1.0f64 / 4294967296.0).to_be_bytes());
}

#[test]
fn bytes_follow_layer_node_synapse_order() {
    let mut map = Vec::new();
    for j in 0..2i64 {
        let conns = (0..3i64).map(|i| syn((10 * j + i) as f64, -(10 * j + i) as f64)).collect();
        map.push(NeuronConnectionSet { conns });
    }
    let net = Network { layers: vec![NeuronConnectionMap { map }], num_inputs: 3 };
    let bytes = net.to_bytes();
    assert_eq!(bytes.len(), 16 * 6);
    let value = |at: usize| f64::from_be_bytes(bytes[at..at + 8].try_into().unwrap());
    let weights: Vec<f64> = (0..6).map(|k| value(16 * k)).collect();
    assert_eq!(weights, vec![0.0, 1.0, 2.0, 10.0, 11.0, 12.0]);
    let offsets: Vec<f64> = (0..6).map(|k| value(16 * k + 8)).collect();
    assert_eq!(offsets, vec![0.0, -1.0, -2.0, -10.0, -11.0, -12.0]);
}

#[test]
fn model_length_is_sixteen_bytes_per_synapse() {
    let net = Network::new_random(&vec![8, 32, 32, 16], 536, 24);
    let n = 536 * 8 + 8 * 32 + 32 * 32 + 32 * 16 + 16 * 24;
    assert_eq!(net.to_bytes().len(), 16 * n);
}

#[test]
fn round_trip_restores_every_synapse() {
    let sizes = vec![6, 5];
    let net = Network::new_random(&sizes, 12, 9);
    let back = Network::from_bytes(&net.to_bytes(), &sizes, 12, 9).unwrap();
    assert_eq!(back.num_inputs, 12);
    assert_eq!(synapses(&back), synapses(&net));
    let shape: Vec<usize> = back.layers.iter().map(|l| l.map.len()).collect();
    assert_eq!(shape, vec![6, 5, 9]);
}

#[test]
fn round_trip_keeps_every_bit() {
    let conns = vec![
        syn(f64::NAN, f64::INFINITY),
        syn(f64::NEG_INFINITY, -0.0),
        syn(1e300, 1e-310),
        NeuronConnection { weight: 0x7FF0_0000_DEAD_BEEF, offset: u64::MAX },
        syn(f64::MAX, 1.0 / 3.0),
    ];
    let net = one_node(conns.clone());
    let back = Network::from_bytes(&net.to_bytes(), &vec![], 5, 1).unwrap();
    assert_eq!(back.layers[0].map[0].conns, conns);
}

#[test]
fn load_then_save_keeps_the_file() {
    // Any bytes of the right length, NaN patterns included.
    let bytes: Vec<u8> = (0..16 * 6).map(|i| (i * 37 + 11) as u8).collect();
    let mut with_nan = bytes.clone();
    with_nan[..8].copy_from_slice(&0x7FF8_0000_0000_0001u64.to_be_bytes());
    for b in [bytes, with_nan] {
        let net = Network::from_bytes(&b, &vec![2], 1, 2).unwrap();
        assert_eq!(net.to_bytes(), b);
    }
}

#[test]
fn odd_doubles_are_read_as_values() {
    let cfg = Config::default();
    // NaN reads as 0; a huge weight saturates; a tiny one is 0.
    let on = |w: f64, o: f64| one_node(vec![syn(w, o)]).result(&vec![0x80], &cfg) == vec![0x80];
    assert!(!on(f64::NAN, 0.0));
    assert!(on(f64::INFINITY, 0.0));
    assert!(on(1e300, 0.0));
    assert!(!on(f64::NEG_INFINITY, 0.0));
    assert!(!on(1e-300, 0.6));
    assert!(on(0.7, 0.0));
}

#[test]
fn saved_and_loaded_network_predicts_the_same() {
    let cfg = Config::default();
    let sizes = vec![16, 8];
    let net = Network::new_random(&sizes, 24, 24);
    let input = vec![0x12, 0xF0, 0x0F];
    let before = net.result(&input, &cfg);
    let back = Network::from_bytes(&net.to_bytes(), &sizes, 24, 24).unwrap();
    assert_eq!(back.result(&input, &cfg), before);
    assert_eq!(load_and_predict(&net.to_bytes(), &sizes, 24, 24, &input, &cfg), Ok(before));
}

#[test]
fn wrong_length_is_refused() {
    let sizes = vec![4];
    let bytes = Network::new_random(&sizes, 8, 8).to_bytes();
    let mut short = bytes.clone();
    short.pop();
    assert_eq!(Network::from_bytes(&short, &sizes, 8, 8).unwrap_err(), ModelError::WrongLength);
    let mut long = bytes.clone();
    long.push(0);
    assert_eq!(Network::from_bytes(&long, &sizes, 8, 8).unwrap_err(), ModelError::WrongLength);
    assert_eq!(Network::from_bytes(&bytes, &vec![5], 8, 8).unwrap_err(), ModelError::WrongLength);
    assert!(Network::from_bytes(&vec![], &vec![], 0, 3).is_ok());
}

#[test]
fn predicting_on_a_short_input_is_refused() {
    let cfg = Config::default();
    let sizes = vec![4];
    let bytes = Network::new_random(&sizes, 12, 8).to_bytes();
    assert_eq!(load_and_predict(&bytes, &sizes, 12, 8, &vec![0xFF], &cfg), Err(ModelError::InputTooShort));
    assert_eq!(load_and_predict(&bytes, &sizes, 12, 8, &vec![0xFF, 0x00], &cfg).unwrap().len(), 1);
    assert_eq!(load_and_predict(&bytes[1..].to_vec(), &sizes, 12, 8, &vec![0xFF], &cfg), Err(ModelError::WrongLength));
}
