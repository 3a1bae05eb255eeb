//! A feedforward neural network evaluator paired with a genetic optimizer.
//!
//! Network weights are stored as the raw bit patterns of 32-bit IEEE-754
//! values, so that the layout arithmetic, the genetic operators and the
//! selection rule can be verified; the floating-point forward pass reads
//! the same buffer through the addressing functions proved here.

pub mod address;
pub mod bits;
pub mod chance;
pub mod error;
pub mod genetic;
pub mod nn;
pub mod rng;

pub use bits::weight_in_range;
pub use chance::Chance;
pub use error::{CreationError, RunError};
pub use genetic::{Environment, GeneticNetwork};
pub use nn::Network;
pub use rng::get_rng;
