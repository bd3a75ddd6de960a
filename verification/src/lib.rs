//! A feedback-delay-network reverberation engine over Q16 fixed-point samples.
//!
//! The engine runs entirely on `i64` samples in Q16 fixed point (one full-scale
//! unit is `UNIT` = 65536), so every arithmetic step has an exact, machine-checked
//! description; transforms that must conserve energy (Hadamard, Householder) are
//! proved to do so over the integers.

use vstd::prelude::*;

pub mod delay;
pub mod diffuser;
pub mod fixed;
pub mod galactic;
pub mod luffverb;
pub mod mixer;
mod rng;
pub mod tail;

pub use delay::DelayLine;
pub use diffuser::Diffuser;
pub use fixed::clip;
pub use galactic::Galactic;
pub use fixed::mul_gain;
pub use fixed::one_pole;
pub use luffverb::LuffVerb;
pub use mixer::Householder;
pub use tail::Tail;

verus! {

/// What an engine reports after a block: it is a free-running effect and
/// always asks to continue; it never signals completion on its own.
#[derive(Clone, Copy, PartialEq, Eq, Structural, Debug)]
pub enum GenState {
    Continue,
}

} // verus!
