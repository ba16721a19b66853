//! An evolving-chord decision engine for a generative drone.
//!
//! Pitches are exact rational intervals over a base frequency.  A memory
//! store maps each interval ever played to a familiarity score that decays
//! geometrically and is reinforced additively.  Harmony and novelty
//! measures of a candidate chord are computed exactly as rationals; a
//! hill-climbing search substitutes one note per step, ranked by
//! caller-supplied order keys derived from those measures.

pub mod arith;
pub mod engine;
pub mod frac;
pub mod judge;
pub mod memory;
pub mod ratio;
pub mod search;

use vstd::prelude::*;

verus! {

/// The errors the engine can signal.
#[derive(Clone, Copy, PartialEq, Eq, Structural, Debug)]
pub enum EngineError {
    /// An interval or a combined ratio would have denominator zero.
    DivisionByZero,
    /// Novelty was asked of a chord with no notes.
    EmptyChord,
    /// An exact rational no longer fits the machine word.
    Overflow,
    /// The number of order keys does not match the number of candidate chords.
    KeyCountMismatch,
}

} // verus!
