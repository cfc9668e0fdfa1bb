//! A population of small bit-level perceptron networks, evolved by a genetic
//! algorithm (crossover and mutation, no gradients), with a flat binary
//! model format and the encoding of tournament games as training pairs.
pub mod args;
pub mod codec;
pub mod data;
pub mod double;
pub mod genetic;
pub mod network;
pub mod neuron;
mod random;
