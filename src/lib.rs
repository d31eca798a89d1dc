//! A genetic-algorithm engine for small feedforward networks: network
//! construction, forward propagation, mutation, blend crossover and the
//! generational cycle that turns a ranked pool of evaluated networks into the
//! next population.
//!
//! The numeric type of weights, biases and activations is a parameter
//! (`Scalar`). Contracts state every computed value over the spec functions
//! that name its operations, and every structural fact outright.

mod oorandom_specs;
pub mod random;
pub mod scalar;
pub mod network;
pub mod genetic;
pub mod evolution;
