//! Input synthesizer core: pad-burst domain types, the pad legality model,
//! seeded stream derivation, burst composition and mutation transforms, macro
//! resolution, and structural experiment-config validation.

pub mod bits;
pub mod compose;
pub mod config;
pub mod context;
pub mod digest;
pub mod documents;
pub mod fingerprint;
pub mod encode;
pub mod legality_probe;
pub mod macros;
pub mod model;
pub mod overrides;
pub mod mixer;
pub mod mutation;
pub mod ordmap;
pub mod pad;
pub mod propose;
pub mod provenance;
pub mod rng;
pub mod text;
pub mod types;
pub mod validation;
