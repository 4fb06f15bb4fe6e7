//! Composable probability distributions and finite Markov processes with
//! exact rational probabilities.
pub mod absorption;
pub mod distribution;
pub mod elimination;
pub mod finite;
pub mod linear;
pub mod markov_process;
pub mod random;
pub mod ratio;
pub mod state;
pub mod stationary;
