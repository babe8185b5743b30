//! The input-model interface: length, legality filter, tokenization.

use vstd::prelude::*;

use crate::types::{Burst, Token};

verus! {

#[derive(Clone, Copy, Debug, PartialEq, Eq)]
pub enum ModelKind {
    Pad,
    Grammar,
}

/// A family of inputs the platform can inject. Every method is a pure
/// function of the loaded model and its arguments.
pub trait InputModel: Sized {
    /// Atomic sampling unit (pad: a segment).
    type Unit;

    /// Bursts this model's operations are defined on.
    spec fn accepts(&self, b: Burst) -> bool;

    /// Burst length in model-native units of time (pad: frames).
    fn burst_len(&self, b: &Burst) -> u64
        requires
            self.accepts(*b),
    ;

    /// Enforce hard validity: idempotent, deterministic, no randomness.
    fn legalize(&self, b: Burst) -> Burst
        requires
            self.accepts(b),
    ;

    /// Canonical token stream for mining and dedup.
    fn tokenize(&self, b: &Burst) -> Vec<Token>;

    /// Inverse of `tokenize` up to duration-bucket quantization.
    fn detokenize(&self, t: &[Token]) -> Burst;

    fn kind(&self) -> ModelKind;
}

} // verus!
