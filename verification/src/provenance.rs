//! Provenance records: which generator produced a slot and how.

use vstd::prelude::*;

verus! {

#[derive(Clone, Copy, Debug, PartialEq, Eq)]
pub enum GeneratorKind {
    WeightedRandom,
    Macro,
    Mutation,
    Policy,
}

impl GeneratorKind {
    /// Wire / metrics name of the generator.
    pub fn name(self) -> (n: &'static str)
        ensures
            n@ == match self {
                GeneratorKind::WeightedRandom => "weighted_random"@,
                GeneratorKind::Macro => "macro"@,
                GeneratorKind::Mutation => "mutation"@,
                GeneratorKind::Policy => "policy"@,
            },
    {
        match self {
            GeneratorKind::WeightedRandom => "weighted_random",
            GeneratorKind::Macro => "macro",
            GeneratorKind::Mutation => "mutation",
            GeneratorKind::Policy => "policy",
        }
    }
}

/// Identity and bindings of the (first) macro a slot instantiated.
#[derive(Clone, Debug, PartialEq)]
pub struct MacroProvenance {
    pub pack_id: String,
    pub macro_name: String,
    /// Sorted by key.
    pub param_bindings: Vec<(String, String)>,
    pub macro_frames: u32,
    pub tail_frames: u32,
    pub chain_index: u32,
}

/// One applied mutation operator with its stringified arguments.
#[derive(Clone, Debug, PartialEq)]
pub struct MutationOpRec {
    pub op: String,
    /// Sorted by key.
    pub args: Vec<(String, String)>,
}

/// How a mutant was derived from its base.
#[derive(Clone, Debug, PartialEq)]
pub struct MutationProvenance {
    pub base_burst_id: [u8; 32],
    pub donor_burst_id: Option<[u8; 32]>,
    pub base_was_sibling: bool,
    /// In application order; a forced retry pass is last, with a `retry` arg.
    pub ops: Vec<MutationOpRec>,
    /// Whether the post-op length clamp changed anything.
    pub post_clamp: bool,
}

#[derive(Clone, Debug, PartialEq)]
pub struct Provenance {
    pub generator: GeneratorKind,
    pub slot: u32,
    /// Root stream label of the slot, e.g. `slot/7/wr`.
    pub rng_stream: String,
    pub fallback_from: Option<GeneratorKind>,
    pub macro_: Option<MacroProvenance>,
    pub mutation: Option<MutationProvenance>,
}

/// A generator whose weight was reallocated for a request, and why.
#[derive(Clone, Debug, PartialEq)]
pub struct Degraded {
    pub generator: GeneratorKind,
    pub reason: String,
}

} // verus!
