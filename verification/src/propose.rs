//! Request-level decisions of burst proposal: which generators are
//! unavailable and why, and which proposal requests are refused.

use vstd::prelude::*;

use crate::config::ModelKindCfg;
use crate::macros::joined_texts;
use crate::text::{debug_quoted, debug_str, decimal_chars, decimal_text};
use crate::provenance::{GeneratorKind, Provenance};
use crate::types::Burst;

verus! {

/// Availability inputs resolved before proposing.
#[derive(Clone, Copy, Debug, Default, PartialEq, Eq)]
pub struct Availability {
    /// At least one configured macro pack is loaded.
    pub macros_loaded: bool,
    /// The request carried a parent burst (a mutation base).
    pub has_parent_burst: bool,
}

/// One proposed burst with its provenance.
#[derive(Clone, Debug, PartialEq)]
pub struct SlotResult {
    pub burst: Burst,
    pub provenance: Provenance,
}

/// Why a generator cannot take slots in this request, or `None` when it can.
/// Weighted-random needs nothing beyond the config; the mutation and policy
/// generators are not wired, the former naming the missing parent burst
/// first.
pub fn unavailable_reason(kind: GeneratorKind, availability: Availability) -> (r: Option<&'static str>)
    ensures
        match kind {
            GeneratorKind::WeightedRandom => r is None,
            GeneratorKind::Macro => if availability.macros_loaded {
                r is None
            } else {
                r matches Some(s) && s@ == "no_macros_loaded"@
            },
            GeneratorKind::Mutation => if availability.has_parent_burst {
                r matches Some(s) && s@ == "mutation_generator_unavailable"@
            } else {
                r matches Some(s) && s@ == "no_parent_burst"@
            },
            GeneratorKind::Policy => r matches Some(s) && s@ == "policy_endpoint_down"@,
        },
{
    match kind {
        GeneratorKind::WeightedRandom => None,
        GeneratorKind::Macro => {
            if availability.macros_loaded {
                None
            } else {
                Some("no_macros_loaded")
            }
        },
        GeneratorKind::Mutation => {
            if availability.has_parent_burst {
                Some("mutation_generator_unavailable")
            } else {
                Some("no_parent_burst")
            }
        },
        GeneratorKind::Policy => Some("policy_endpoint_down"),
    }
}

/// The model a proposal request asks for.
#[derive(Clone, Copy, Debug, PartialEq, Eq)]
pub enum RequestedModel {
    Unspecified,
    Pad,
    EventGrammar,
}

/// Why a proposal request is refused, in the order the checks run.
#[derive(Clone, Debug, PartialEq)]
pub enum ProposeRejection {
    /// `k` outside `1..=256`.
    SlotCount(u32),
    /// Only the pad model can be proposed.
    ModelUnsupported(RequestedModel),
    UnknownExperiment(String),
    /// The experiment is configured for another model.
    ModelMismatch(String),
    /// The effective config names packs that are not loaded while macro
    /// weight is in play; the missing names in configuration order.
    PacksNotLoaded(Vec<String>),
    /// The request has no node context, or an empty node id.
    NodeIdMissing,
}

/// The name of a requested model, as its debug form prints it.
pub open spec fn model_words(m: RequestedModel) -> Seq<char> {
    match m {
        RequestedModel::Unspecified => "Unspecified"@,
        RequestedModel::Pad => "Pad"@,
        RequestedModel::EventGrammar => "EventGrammar"@,
    }
}

fn model_str(m: RequestedModel) -> (s: &'static str)
    ensures
        s@ == model_words(m),
{
    match m {
        RequestedModel::Unspecified => "Unspecified",
        RequestedModel::Pad => "Pad",
        RequestedModel::EventGrammar => "EventGrammar",
    }
}

/// The message of a refusal: plain words, names and numbers, and for
/// `UnknownExperiment` and `ModelMismatch` the experiment id in Rust's debug
/// form.
pub open spec fn rejection_words(r: ProposeRejection) -> Seq<char> {
    match r {
        ProposeRejection::SlotCount(k) => "k must be in 1..=256 (got "@ + decimal_chars(k as nat) + ")"@,
        ProposeRejection::ModelUnsupported(m) =>
            "model "@ + model_words(m) + " is not supported in M1 (only MODEL_KIND_PAD is available)"@,
        ProposeRejection::UnknownExperiment(id) => "unknown experiment_id "@ + debug_str(id@),
        ProposeRejection::ModelMismatch(id) =>
            "model mismatch: experiment_id "@ + debug_str(id@) + " is configured for EventGrammar, not pad"@,
        ProposeRejection::PacksNotLoaded(names) =>
            "experiment config references macro pack(s) not loaded: "@ + joined_texts(names@, ", "@),
        ProposeRejection::NodeIdMissing => "node_context.node_id is required"@,
    }
}

impl ProposeRejection {
    /// The message of the refusal (see [`rejection_words`]).
    pub fn text(&self) -> (t: String)
        ensures
            t@ == rejection_words(*self),
    {
        match self {
            ProposeRejection::SlotCount(k) => {
                let n = decimal_text(*k as u64);
                let mut t = String::from_str("k must be in 1..=256 (got ");
                t.append(n.as_str());
                t.append(")");
                t
            },
            ProposeRejection::ModelUnsupported(m) => {
                let mut t = String::from_str("model ");
                t.append(model_str(*m));
                t.append(" is not supported in M1 (only MODEL_KIND_PAD is available)");
                t
            },
            ProposeRejection::UnknownExperiment(id) => {
                let q = debug_quoted(id.as_str());
                let mut t = String::from_str("unknown experiment_id ");
                t.append(q.as_str());
                t
            },
            ProposeRejection::ModelMismatch(id) => {
                let q = debug_quoted(id.as_str());
                let mut t = String::from_str("model mismatch: experiment_id ");
                t.append(q.as_str());
                t.append(" is configured for EventGrammar, not pad");
                t
            },
            ProposeRejection::PacksNotLoaded(names) => {
                let mut t = String::from_str("experiment config references macro pack(s) not loaded: ");
                let mut i: usize = 0;
                while i < names.len()
                    invariant
                        i <= names@.len(),
                        t@ == "experiment config references macro pack(s) not loaded: "@ + joined_texts(
                            names@.take(i as int),
                            ", "@,
                        ),
                    decreases names@.len() - i,
                {
                    proof {
                        assert(names@.take(i as int + 1).drop_last() =~= names@.take(i as int));
                    }
                    let ghost before = t@;
                    if i > 0 {
                        t.append(", ");
                    }
                    t.append(names[i].as_str());
                    proof {
                        let p = "experiment config references macro pack(s) not loaded: "@;
                        let j = joined_texts(names@.take(i as int), ", "@);
                        if i > 0 {
                            assert(t@ =~= p + (j + ", "@ + names@[i as int]@));
                        } else {
                            assert(t@ =~= p + names@[i as int]@);
                        }
                    }
                    i = i + 1;
                }
                proof {
                    assert(names@.take(i as int) =~= names@);
                }
                t
            },
            ProposeRejection::NodeIdMissing => String::from_str("node_context.node_id is required"),
        }
    }
}

/// What the proposal checks read of a request and of the loaded state.
#[derive(Clone, Debug, PartialEq)]
pub struct ProposeRequestFacts {
    pub k: u32,
    pub model: RequestedModel,
    pub experiment_id: String,
    /// The configured model of the experiment, when it is loaded.
    pub experiment_model: Option<ModelKindCfg>,
    /// The effective config gives the macro generator a positive weight.
    pub macro_weight_positive: bool,
    /// `macro.packs` of the effective config.
    pub configured_packs: Vec<String>,
    pub loaded_pack_ids: Vec<String>,
    /// The node id, when the request carries a node context.
    pub node_id: Option<String>,
}

pub open spec fn contains_name(v: Seq<String>, s: Seq<char>) -> bool {
    exists|k: int| 0 <= k < v.len() && (#[trigger] v[k])@ == s
}

/// The configured packs (of the first `n`) that are not loaded.
pub open spec fn missing_packs(configured: Seq<String>, loaded: Seq<String>, n: int) -> Seq<String>
    decreases n,
{
    if n <= 0 {
        Seq::empty()
    } else {
        missing_packs(configured, loaded, n - 1) + if contains_name(loaded, configured[n - 1]@) {
            Seq::empty()
        } else {
            seq![configured[n - 1]]
        }
    }
}

proof fn lemma_missing_prefix(configured: Seq<String>, loaded: Seq<String>, n: int)
    requires
        0 <= n <= configured.len(),
    ensures
        forall|j: int|
            0 <= j < missing_packs(configured, loaded, n).len() ==> (exists|i: int|
                0 <= i < n && configured[i] == #[trigger] missing_packs(configured, loaded, n)[j]) && !contains_name(
                loaded,
                missing_packs(configured, loaded, n)[j]@,
            ),
        forall|i: int|
            0 <= i < n && !contains_name(loaded, (#[trigger] configured[i])@) ==> missing_packs(
                configured,
                loaded,
                n,
            ).contains(configured[i]),
    decreases n,
{
    if n > 0 {
        lemma_missing_prefix(configured, loaded, n - 1);
        let prev = missing_packs(configured, loaded, n - 1);
        let cur = missing_packs(configured, loaded, n);
        if contains_name(loaded, configured[n - 1]@) {
            assert(cur =~= prev);
        } else {
            assert(cur =~= prev.push(configured[n - 1]));
            assert(cur[prev.len() as int] == configured[n - 1]);
        }
        assert forall|j: int| 0 <= j < cur.len() implies (exists|i: int| 0 <= i < n && configured[i] == #[trigger] cur[j])
            && !contains_name(loaded, cur[j]@) by {
            if j < prev.len() {
                assert(cur[j] == prev[j]);
            } else {
                assert(cur[j] == configured[n - 1]);
            }
        }
        assert forall|i: int| 0 <= i < n && !contains_name(loaded, (#[trigger] configured[i])@) implies cur.contains(
            configured[i],
        ) by {
            if i < n - 1 {
                let j = choose|j: int| 0 <= j < prev.len() && prev[j] == configured[i];
                assert(cur[j] == prev[j]);
            } else {
                assert(cur[prev.len() as int] == configured[i]);
            }
        }
    }
}

/// The packs a request is refused for are the configured ones that no loaded
/// pack id equals, at any position: every reported name is configured and
/// matches no loaded id, and every configured name that matches no loaded id
/// is reported.
pub proof fn law_missing_packs_are_the_unloaded_ones(configured: Seq<String>, loaded: Seq<String>)
    ensures
        forall|j: int|
            0 <= j < missing_packs(configured, loaded, configured.len() as int).len() ==> (exists|i: int|
                0 <= i < configured.len() && configured[i] == #[trigger] missing_packs(
                    configured,
                    loaded,
                    configured.len() as int,
                )[j]) && (forall|q: int|
                0 <= q < loaded.len() ==> (#[trigger] loaded[q])@ != missing_packs(
                    configured,
                    loaded,
                    configured.len() as int,
                )[j]@),
        forall|i: int|
            0 <= i < configured.len() && (forall|q: int| 0 <= q < loaded.len() ==> (#[trigger] loaded[q])@
                != configured[i]@) ==> missing_packs(configured, loaded, configured.len() as int).contains(
                #[trigger] configured[i],
            ),
        (forall|i: int|
            0 <= i < configured.len() ==> exists|q: int| 0 <= q < loaded.len() && (#[trigger] loaded[q])@
                == (#[trigger] configured[i])@) ==> missing_packs(configured, loaded, configured.len() as int).len()
            == 0,
{
    let n = configured.len() as int;
    lemma_missing_prefix(configured, loaded, n);
    let m = missing_packs(configured, loaded, n);
    assert forall|i: int|
        0 <= i < configured.len() && (forall|q: int| 0 <= q < loaded.len() ==> (#[trigger] loaded[q])@
            != configured[i]@) implies m.contains(#[trigger] configured[i]) by {
        assert(!contains_name(loaded, configured[i]@));
    }
    if (forall|i: int|
        0 <= i < configured.len() ==> exists|q: int| 0 <= q < loaded.len() && (#[trigger] loaded[q])@
            == (#[trigger] configured[i])@) && m.len() > 0 {
        assert(!contains_name(loaded, m[0]@));
        let i = choose|i: int| 0 <= i < n && configured[i] == m[0];
        assert(exists|q: int| 0 <= q < loaded.len() && (#[trigger] loaded[q])@ == configured[i]@);
    }
}

fn contains_string(v: &Vec<String>, s: &String) -> (r: bool)
    ensures
        r == contains_name(v@, s@),
{
    let mut k: usize = 0;
    while k < v.len()
        invariant
            k <= v@.len(),
            forall|q: int| 0 <= q < k ==> (#[trigger] v@[q])@ != s@,
        decreases v@.len() - k,
    {
        if v[k] == *s {
            proof {
                assert(v@[k as int]@ == s@);
            }
            return true;
        }
        k = k + 1;
    }
    false
}

/// The configured packs that are not loaded, in configuration order.
pub fn packs_not_loaded(configured: &Vec<String>, loaded: &Vec<String>) -> (r: Vec<String>)
    ensures
        r@ == missing_packs(configured@, loaded@, configured@.len() as int),
{
    let mut out: Vec<String> = Vec::new();
    let mut k: usize = 0;
    while k < configured.len()
        invariant
            k <= configured@.len(),
            out@ == missing_packs(configured@, loaded@, k as int),
        decreases configured@.len() - k,
    {
        if !contains_string(loaded, &configured[k]) {
            out.push(configured[k].clone());
        }
        proof {
            assert(out@ =~= missing_packs(configured@, loaded@, k as int + 1));
        }
        k = k + 1;
    }
    out
}


pub open spec fn slot_count_ok(f: ProposeRequestFacts) -> bool {
    1 <= f.k <= 256
}

pub open spec fn model_ok(f: ProposeRequestFacts) -> bool {
    slot_count_ok(f) && f.model == RequestedModel::Pad
}

pub open spec fn experiment_ok(f: ProposeRequestFacts) -> bool {
    model_ok(f) && f.experiment_model == Some(ModelKindCfg::Pad)
}

pub open spec fn packs_ok(f: ProposeRequestFacts) -> bool {
    experiment_ok(f) && !(f.macro_weight_positive && missing_packs(
        f.configured_packs@,
        f.loaded_pack_ids@,
        f.configured_packs@.len() as int,
    ).len() > 0)
}

/// Run the proposal checks in order; the first that fails refuses the request.
pub fn check_propose_request(f: &ProposeRequestFacts) -> (r: Result<(), ProposeRejection>)
    ensures
        !slot_count_ok(*f) ==> r == Err::<(), ProposeRejection>(ProposeRejection::SlotCount(f.k)),
        slot_count_ok(*f) && !model_ok(*f) ==> r == Err::<(), ProposeRejection>(
            ProposeRejection::ModelUnsupported(f.model),
        ),
        model_ok(*f) && f.experiment_model is None ==> r == Err::<(), ProposeRejection>(
            ProposeRejection::UnknownExperiment(f.experiment_id),
        ),
        model_ok(*f) && f.experiment_model == Some(ModelKindCfg::EventGrammar) ==> r == Err::<(), ProposeRejection>(
            ProposeRejection::ModelMismatch(f.experiment_id),
        ),
        experiment_ok(*f) && !packs_ok(*f) ==> (r matches Err(ProposeRejection::PacksNotLoaded(v)) && v@
            == missing_packs(f.configured_packs@, f.loaded_pack_ids@, f.configured_packs@.len() as int)),
        packs_ok(*f) && (f.node_id is None || f.node_id->Some_0@.len() == 0) ==> r == Err::<(), ProposeRejection>(
            ProposeRejection::NodeIdMissing,
        ),
        packs_ok(*f) && (f.node_id matches Some(id) && id@.len() > 0) ==> r is Ok,
{
    if f.k == 0 || f.k > 256 {
        return Err(ProposeRejection::SlotCount(f.k));
    }
    match f.model {
        RequestedModel::Pad => {},
        _ => {
            return Err(ProposeRejection::ModelUnsupported(f.model));
        },
    }
    match f.experiment_model {
        None => {
            return Err(ProposeRejection::UnknownExperiment(f.experiment_id.clone()));
        },
        Some(ModelKindCfg::EventGrammar) => {
            return Err(ProposeRejection::ModelMismatch(f.experiment_id.clone()));
        },
        Some(ModelKindCfg::Pad) => {},
    }
    if f.macro_weight_positive {
        let missing = packs_not_loaded(&f.configured_packs, &f.loaded_pack_ids);
        if missing.len() > 0 {
            return Err(ProposeRejection::PacksNotLoaded(missing));
        }
    }
    match &f.node_id {
        None => Err(ProposeRejection::NodeIdMissing),
        Some(id) => {
            if id.as_str().unicode_len() == 0 {
                Err(ProposeRejection::NodeIdMissing)
            } else {
                Ok(())
            }
        },
    }
}

} // verus!
