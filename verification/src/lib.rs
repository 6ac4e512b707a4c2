//! Arithmetization and witness-resolution core for a low-degree constraint
//! system: a random-access gate evaluated in several algebraic
//! representations, and a dependency-driven fixpoint engine that fills a
//! partial witness from generators.

use vstd::prelude::*;

pub mod constraints;
pub mod extension;
pub mod field;
pub mod gates;
pub mod generator;
pub mod packed;
pub mod recorder;
pub mod stark;
pub mod target;
pub mod witness;

verus! {

/// The fatal, non-recoverable errors of this core: a malformed circuit
/// configuration detected during witness generation, or use of a disallowed
/// evaluation path.
#[derive(Clone, Copy, PartialEq, Eq, Debug, Structural)]
pub enum CircuitError {
    /// The generator set cannot reach a fixpoint: generators remain that can
    /// never run to completion.
    Deadlock,
    /// An access index lies outside the valid range of its gate.
    AccessIndexOutOfRange,
    /// The direct per-row base-field evaluation path was invoked; evaluation
    /// must route through the packed evaluator.
    DisallowedBaseRowEvaluation,
}

} // verus!
