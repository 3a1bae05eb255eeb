//! The errors this crate reports.

use vstd::prelude::*;

verus! {

/// Construction was asked for an invalid topology: fewer than two layers, or
/// a layer of width zero.
#[derive(Clone, Copy, Debug, PartialEq, Eq, Hash, Structural)]
pub enum CreationError {
    NotEnoughLayers,
}

/// Forward evaluation was handed an input vector whose length differs from
/// the network's input width.
#[derive(Clone, Copy, Debug, PartialEq, Eq, Hash, Structural)]
pub enum RunError {
    WrongInputCount,
}

} // verus!
