//! What a user can ask of the predictor.
use crate::data::{Region, Round};
use vstd::prelude::*;

verus! {

/// The parsed command line.
#[derive(Clone, Debug)]
pub struct CliArgs {
    pub command: PredictorCommands,
}

/// What you can do with the program.
#[derive(Clone, Debug)]
pub enum PredictorCommands {
    /// Train on the data set.
    Train,
    /// Use a model to predict a game.
    Predict {
        year: String,
        round: Round,
        region: Option<Region>,
        high_seed: u8,
        high_seed_team: String,
        low_seed: u8,
        low_seed_team: String,
    },
}

} // verus!
