//! Macro packs: the document shapes, structural validation of a pack, the
//! registry of loaded packs, and resolution of the configured packs into
//! bit-level macro recipes against the experiment's button alphabet.

use indexmap::IndexMap;
use vstd::prelude::*;
use vstd::multiset::Multiset;
use vstd::utf8::encode_utf8;

use crate::config::{lemma_spec_bit_in_range, spec_bit, ButtonAlphabet, HistoryPredicate, Predicate, PressedWithin};
use crate::digest::{blake3_hash, hash32};
use crate::encode::{hex_chars, hex_encode, is_lower_hex, lemma_hex_chars_shape};
use crate::pad::{bucket_midpoint, midpoint_spec};
use crate::ordmap::{
    bit_map_entries, bit_map_get, bit_map_insert, bit_map_new, entry_keys, pick_map_entries, pick_map_insert,
    pick_map_new, pick_map_values, entry_lookup, inserted, mirror_entries, mirror_get, name_map_contains,
    name_map_entries, name_map_get,
};
use crate::text::{
    debug_quoted, debug_str, decimal_chars, decimal_text, first_index, lemma_first_index, signed_decimal_chars,
    signed_decimal_text,
};
use crate::types::PadSegment;

verus! {

/// An inclusive integer range.
#[derive(Clone, Debug, PartialEq)]
pub struct IntRange {
    pub min: i64,
    pub max: i64,
}

/// A scale range, its bounds held as the bit patterns of the `f64` values
/// the document gives.
#[derive(Clone, Debug, PartialEq)]
pub struct ScaleRange {
    pub min_bits: u64,
    pub max_bits: u64,
}

/// A declared macro parameter's domain.
#[derive(Clone, Debug, PartialEq)]
pub enum ParamDomain {
    Enum(Vec<String>),
    Int(IntRange),
    Scale(ScaleRange),
}

#[derive(Clone, Debug, PartialEq)]
pub struct ParamDef {
    pub name: String,
    pub domain: ParamDomain,
}

/// `frames: 24` or `frames: $runup` (held as the bare parameter name).
#[derive(Clone, Debug, PartialEq)]
pub enum FrameSpec {
    Literal(u32),
    Param(String),
}

#[derive(Clone, Debug, PartialEq)]
pub struct StepSpec {
    pub hold: Vec<String>,
    pub frames: FrameSpec,
}

#[derive(Clone, Debug, PartialEq)]
pub struct TokenStepSpec {
    pub mask: Vec<String>,
    pub dur_bucket: u8,
}

/// A macro's instantiation recipe: `steps` or `token_steps`.
#[derive(Clone, Debug, PartialEq)]
pub enum MacroSteps {
    Steps(Vec<StepSpec>),
    TokenSteps(Vec<TokenStepSpec>),
}

/// The text form of a `frames` value that is not an integer: a `$param`
/// reference. `None` for any other text.
pub fn frame_spec_from_text(s: &str) -> (r: Option<FrameSpec>)
    ensures
        s@.len() > 0 && s@[0] == '$' ==> (r matches Some(FrameSpec::Param(name)) && name@ == s@.drop_first()),
        !(s@.len() > 0 && s@[0] == '$') ==> r is None,
{
    if s.unicode_len() > 0 && s.get_char(0) == '$' {
        proof {
            assert(s@.len() > 0);
        }
        let rest = s.substring_char(1, s.unicode_len());
        proof {
            assert(rest@ =~= s@.drop_first());
        }
        Some(FrameSpec::Param(rest.to_owned()))
    } else {
        None
    }
}

/// Midpoint in frames of a token duration bucket (buckets above 5 read as 5),
/// the same value the pad model detokenizes a bucket to.
pub fn dur_bucket_midpoint(bucket: u8) -> (m: u32)
    ensures
        m == midpoint_spec(if bucket < 5 { bucket } else { 5 }),
{
    bucket_midpoint(if bucket < 5 { bucket } else { 5 })
}


// ---------------------------------------------------------------------
// Pack documents and their validation
// ---------------------------------------------------------------------

/// What the float reading of a macro weight found.
#[derive(Clone, Copy, Debug, PartialEq, Eq)]
pub enum WeightCheck {
    Valid,
    NotFinite,
    NotPositive,
}

/// What the float reading of a scale domain found.
#[derive(Clone, Copy, Debug, PartialEq, Eq)]
pub struct ScaleFacts {
    /// Both bounds are finite.
    pub finite: bool,
    /// `min > max`.
    pub min_gt_max: bool,
    /// `min <= 0`.
    pub min_not_positive: bool,
}

/// One macro of a pack document as read, before validation.
#[derive(Debug)]
pub struct RawMacro {
    pub name: String,
    pub weight_bits: u64,
    pub weight_check: WeightCheck,
    pub tags: Vec<String>,
    pub params: Vec<ParamDef>,
    /// One entry per parameter; read for scale-domain parameters only.
    pub scale_facts: Vec<ScaleFacts>,
    pub eligibility: Vec<Predicate>,
    pub steps: Option<Vec<StepSpec>>,
    pub token_steps: Option<Vec<TokenStepSpec>>,
    /// Enum parameter name -> (enum value -> button name).
    pub mirror: IndexMap<String, IndexMap<String, String>>,
}

/// A macro-pack document as read, before validation.
#[derive(Debug)]
pub struct RawPack {
    pub version: u32,
    pub kind: String,
    pub name: String,
    pub model: String,
    pub button_alphabet: String,
    pub source: String,
    pub macros: Vec<RawMacro>,
}

/// A validated macro, still name-based.
#[derive(Debug)]
pub struct MacroDef {
    pub name: String,
    pub weight_bits: u64,
    pub tags: Vec<String>,
    pub params: Vec<ParamDef>,
    pub eligibility: Vec<Predicate>,
    pub kind: MacroSteps,
    pub mirror: IndexMap<String, IndexMap<String, String>>,
}

/// A validation failure of a pack document.
#[derive(Clone, Debug, PartialEq)]
pub enum PackIssue {
    Version(u32),
    Kind(String),
    Name(String),
    EventGrammarModel,
    Model(String),
    Source(String),
    NoMacros,
    DuplicateMacro(String),
    WeightNotFinite { macro_name: String, weight_bits: u64 },
    WeightNotPositive { macro_name: String, weight_bits: u64 },
    DuplicateParam { macro_name: String, param: String },
    EnumDomainEmpty { macro_name: String, param: String },
    IntMinGtMax { macro_name: String, param: String, min: i64, max: i64 },
    IntSpanTooWide { macro_name: String, param: String, min: i64, max: i64 },
    ScaleNotFinite { macro_name: String, param: String, min_bits: u64, max_bits: u64 },
    ScaleMinGtMax { macro_name: String, param: String, min_bits: u64, max_bits: u64 },
    ScaleMinNotPositive { macro_name: String, param: String, min_bits: u64 },
    HistoryEligibility(String),
    StepsEmpty(String),
    TokenStepsEmpty(String),
    DurBucketRange { macro_name: String, dur_bucket: u8 },
    StepsAndTokenSteps(String),
    NoSteps(String),
    FramesNonIntParam { macro_name: String, param: String },
    FramesUndeclaredParam { macro_name: String, param: String },
    NoMirror { macro_name: String, param: String },
    MirrorMissingValue { macro_name: String, param: String, value: String },
    NonEnumHoldParam { macro_name: String, param: String },
}

pub open spec fn name_char(c: char) -> bool {
    ||| ('a' as u32) <= (c as u32) <= ('z' as u32)
    ||| ('0' as u32) <= (c as u32) <= ('9' as u32)
    ||| c == '-'
}

/// Matches `[a-z0-9-]+`.
pub open spec fn valid_name_spec(s: Seq<char>) -> bool {
    s.len() > 0 && forall|i: int| 0 <= i < s.len() ==> #[trigger] name_char(s[i])
}

/// Whether `s` matches `[a-z0-9-]+`.
pub fn valid_name(s: &str) -> (r: bool)
    ensures
        r == valid_name_spec(s@),
{
    let n = s.unicode_len();
    if n == 0 {
        return false;
    }
    let mut i: usize = 0;
    while i < n
        invariant
            n == s@.len(),
            i <= n,
            forall|k: int| 0 <= k < i ==> #[trigger] name_char(s@[k]),
        decreases n - i,
    {
        let c = s.get_char(i);
        let lower = ('a' as u32) <= (c as u32) && (c as u32) <= ('z' as u32);
        let digit = ('0' as u32) <= (c as u32) && (c as u32) <= ('9' as u32);
        if !(lower || digit || c == '-') {
            proof {
                assert(!name_char(s@[i as int]));
            }
            return false;
        }
        i = i + 1;
    }
    true
}

pub open spec fn names_of(v: Seq<String>) -> Seq<Seq<char>> {
    v.map_values(|s: String| s@)
}

fn names_contain(v: &Vec<String>, s: &String) -> (r: bool)
    ensures
        r == names_of(v@).contains(s@),
{
    let mut i: usize = 0;
    while i < v.len()
        invariant
            i <= v@.len(),
            forall|k: int| 0 <= k < i ==> v@[k]@ != s@,
        decreases v@.len() - i,
    {
        if v[i] == *s {
            proof {
                assert(names_of(v@)[i as int] == s@);
            }
            return true;
        }
        i = i + 1;
    }
    proof {
        if names_of(v@).contains(s@) {
            let k = choose|k: int| 0 <= k < names_of(v@).len() && names_of(v@)[k] == s@;
            assert(v@[k]@ == s@);
        }
    }
    false
}

pub open spec fn opt_issue(cond: bool, issue: PackIssue) -> Seq<PackIssue> {
    if cond {
        seq![issue]
    } else {
        Seq::empty()
    }
}

/// Issues of the pack-level fields, in the order they are checked.
pub open spec fn header_issues(doc: RawPack) -> Seq<PackIssue> {
    opt_issue(doc.version != 1, PackIssue::Version(doc.version))
        + opt_issue(doc.kind@ != "macro_pack"@, PackIssue::Kind(doc.kind))
        + opt_issue(!valid_name_spec(doc.name@), PackIssue::Name(doc.name))
        + (if doc.model@ == "event_grammar"@ {
        seq![PackIssue::EventGrammarModel]
    } else {
        opt_issue(doc.model@ != "pad"@, PackIssue::Model(doc.model))
    }) + opt_issue(
        doc.source@ != "handwritten"@ && doc.source@ != "mined"@,
        PackIssue::Source(doc.source),
    ) + opt_issue(doc.macros@.len() == 0, PackIssue::NoMacros)
}

fn header_checks(doc: &RawPack, issues: &mut Vec<PackIssue>)
    ensures
        final(issues)@ == old(issues)@ + header_issues(*doc),
{
    let ghost start = issues@;
    if doc.version != 1 {
        issues.push(PackIssue::Version(doc.version));
    }
    if doc.kind != "macro_pack".to_owned() {
        issues.push(PackIssue::Kind(doc.kind.clone()));
    }
    if !valid_name(doc.name.as_str()) {
        issues.push(PackIssue::Name(doc.name.clone()));
    }
    if doc.model == "event_grammar".to_owned() {
        issues.push(PackIssue::EventGrammarModel);
    } else if doc.model != "pad".to_owned() {
        issues.push(PackIssue::Model(doc.model.clone()));
    }
    if doc.source != "handwritten".to_owned() && doc.source != "mined".to_owned() {
        issues.push(PackIssue::Source(doc.source.clone()));
    }
    if doc.macros.len() == 0 {
        issues.push(PackIssue::NoMacros);
    }
    proof {
        assert(issues@ =~= start + header_issues(*doc));
    }
}


pub open spec fn param_names(params: Seq<ParamDef>) -> Seq<Seq<char>> {
    params.map_values(|p: ParamDef| p.name@)
}

/// Index of the first declared parameter called `name`.
pub open spec fn param_index(params: Seq<ParamDef>, name: Seq<char>) -> Option<int> {
    first_index(param_names(params), name)
}

/// Issues of parameter `j`'s domain.
pub open spec fn domain_issues(m: RawMacro, j: int) -> Seq<PackIssue> {
    let p = m.params@[j];
    match p.domain {
        ParamDomain::Enum(values) => opt_issue(
            values@.len() == 0,
            PackIssue::EnumDomainEmpty { macro_name: m.name, param: p.name },
        ),
        ParamDomain::Int(r) => if r.min > r.max {
            seq![PackIssue::IntMinGtMax { macro_name: m.name, param: p.name, min: r.min, max: r.max }]
        } else {
            opt_issue(
                r.max - r.min + 1 > 0x1_0000_0000,
                PackIssue::IntSpanTooWide { macro_name: m.name, param: p.name, min: r.min, max: r.max },
            )
        },
        ParamDomain::Scale(r) => {
            let f = m.scale_facts@[j];
            opt_issue(
                !f.finite,
                PackIssue::ScaleNotFinite {
                    macro_name: m.name,
                    param: p.name,
                    min_bits: r.min_bits,
                    max_bits: r.max_bits,
                },
            ) + opt_issue(
                f.min_gt_max,
                PackIssue::ScaleMinGtMax {
                    macro_name: m.name,
                    param: p.name,
                    min_bits: r.min_bits,
                    max_bits: r.max_bits,
                },
            ) + opt_issue(
                f.min_not_positive,
                PackIssue::ScaleMinNotPositive { macro_name: m.name, param: p.name, min_bits: r.min_bits },
            )
        },
    }
}

/// Issues of the first `n` parameters: a name repeated from an earlier
/// parameter, then the domain's own issues.
pub open spec fn param_issues(m: RawMacro, n: int) -> Seq<PackIssue>
    decreases n,
{
    if n <= 0 {
        Seq::empty()
    } else {
        param_issues(m, n - 1) + opt_issue(
            param_names(m.params@.take(n - 1)).contains(m.params@[n - 1].name@),
            PackIssue::DuplicateParam { macro_name: m.name, param: m.params@[n - 1].name },
        ) + domain_issues(m, n - 1)
    }
}

fn domain_checks(m: &RawMacro, j: usize, issues: &mut Vec<PackIssue>)
    requires
        j < m.params@.len(),
        m.scale_facts@.len() == m.params@.len(),
    ensures
        final(issues)@ == old(issues)@ + domain_issues(*m, j as int),
{
    let ghost start = issues@;
    let p = &m.params[j];
    match &p.domain {
        ParamDomain::Enum(values) => {
            if values.len() == 0 {
                issues.push(PackIssue::EnumDomainEmpty { macro_name: m.name.clone(), param: p.name.clone() });
            }
        },
        ParamDomain::Int(r) => {
            if r.min > r.max {
                issues.push(
                    PackIssue::IntMinGtMax { macro_name: m.name.clone(), param: p.name.clone(), min: r.min, max: r.max },
                );
            } else {
                let span: i128 = r.max as i128 - r.min as i128 + 1;
                if span > 0x1_0000_0000i128 {
                    issues.push(
                        PackIssue::IntSpanTooWide {
                            macro_name: m.name.clone(),
                            param: p.name.clone(),
                            min: r.min,
                            max: r.max,
                        },
                    );
                }
            }
        },
        ParamDomain::Scale(r) => {
            let f = m.scale_facts[j];
            if !f.finite {
                issues.push(
                    PackIssue::ScaleNotFinite {
                        macro_name: m.name.clone(),
                        param: p.name.clone(),
                        min_bits: r.min_bits,
                        max_bits: r.max_bits,
                    },
                );
            }
            if f.min_gt_max {
                issues.push(
                    PackIssue::ScaleMinGtMax {
                        macro_name: m.name.clone(),
                        param: p.name.clone(),
                        min_bits: r.min_bits,
                        max_bits: r.max_bits,
                    },
                );
            }
            if f.min_not_positive {
                issues.push(
                    PackIssue::ScaleMinNotPositive {
                        macro_name: m.name.clone(),
                        param: p.name.clone(),
                        min_bits: r.min_bits,
                    },
                );
            }
        },
    }
    proof {
        assert(issues@ =~= start + domain_issues(*m, j as int));
    }
}

#[verifier::spinoff_prover]
fn param_checks(m: &RawMacro, issues: &mut Vec<PackIssue>)
    requires
        m.scale_facts@.len() == m.params@.len(),
    ensures
        final(issues)@ == old(issues)@ + param_issues(*m, m.params@.len() as int),
{
    let ghost start = issues@;
    let mut seen: Vec<String> = Vec::new();
    let mut j: usize = 0;
    while j < m.params.len()
        invariant
            j <= m.params@.len(),
            m.scale_facts@.len() == m.params@.len(),
            names_of(seen@) == param_names(m.params@.take(j as int)),
            issues@ == start + param_issues(*m, j as int),
        decreases m.params@.len() - j,
    {
        let p = &m.params[j];
        if names_contain(&seen, &p.name) {
            issues.push(PackIssue::DuplicateParam { macro_name: m.name.clone(), param: p.name.clone() });
        }
        let ghost old_seen = seen@;
        seen.push(p.name.clone());
        domain_checks(m, j, issues);
        proof {
            assert(m.params@.take(j as int + 1) =~= m.params@.take(j as int).push(m.params@[j as int]));
            assert(seen@ == old_seen.push(m.params@[j as int].name));
            assert forall|i: int| 0 <= i < j + 1 implies #[trigger] names_of(seen@)[i] == param_names(
                m.params@.take(j as int + 1),
            )[i] by {
                if i < j {
                    assert(names_of(old_seen)[i] == param_names(m.params@.take(j as int))[i]);
                    assert(seen@[i] == old_seen[i]);
                    assert(m.params@.take(j as int + 1)[i] == m.params@.take(j as int)[i]);
                } else {
                    assert(seen@[i] == m.params@[j as int].name);
                }
            }
            assert(names_of(old_seen).len() == old_seen.len());
            assert(param_names(m.params@.take(j as int)).len() == j);
            assert(names_of(seen@) =~= param_names(m.params@.take(j as int + 1)));
            assert(issues@ =~= start + param_issues(*m, j as int + 1));
        }
        j = j + 1;
    }
}

/// One issue per history predicate among the first `n` eligibility predicates.
pub open spec fn eligibility_issues(m: RawMacro, n: int) -> Seq<PackIssue>
    decreases n,
{
    if n <= 0 {
        Seq::empty()
    } else {
        eligibility_issues(m, n - 1) + opt_issue(
            m.eligibility@[n - 1] is History,
            PackIssue::HistoryEligibility(m.name),
        )
    }
}

fn eligibility_checks(m: &RawMacro, issues: &mut Vec<PackIssue>)
    ensures
        final(issues)@ == old(issues)@ + eligibility_issues(*m, m.eligibility@.len() as int),
{
    let ghost start = issues@;
    let mut k: usize = 0;
    while k < m.eligibility.len()
        invariant
            k <= m.eligibility@.len(),
            issues@ == start + eligibility_issues(*m, k as int),
        decreases m.eligibility@.len() - k,
    {
        if let Predicate::History { .. } = &m.eligibility[k] {
            issues.push(PackIssue::HistoryEligibility(m.name.clone()));
        }
        proof {
            assert(issues@ =~= start + eligibility_issues(*m, k as int + 1));
        }
        k = k + 1;
    }
}

/// The recipe a raw macro declares, when it declares exactly one.
pub open spec fn raw_kind(m: RawMacro) -> Option<MacroSteps> {
    match m.steps {
        Some(st) => match m.token_steps {
            None => Some(MacroSteps::Steps(st)),
            Some(_) => None,
        },
        None => match m.token_steps {
            Some(ts) => Some(MacroSteps::TokenSteps(ts)),
            None => None,
        },
    }
}

pub open spec fn dur_issues(name: String, ts: Seq<TokenStepSpec>, n: int) -> Seq<PackIssue>
    decreases n,
{
    if n <= 0 {
        Seq::empty()
    } else {
        dur_issues(name, ts, n - 1) + opt_issue(
            ts[n - 1].dur_bucket > 5,
            PackIssue::DurBucketRange { macro_name: name, dur_bucket: ts[n - 1].dur_bucket },
        )
    }
}

/// Issues of the `steps` / `token_steps` declaration.
pub open spec fn kind_issues(m: RawMacro) -> Seq<PackIssue> {
    match m.steps {
        Some(st) => match m.token_steps {
            None => opt_issue(st@.len() == 0, PackIssue::StepsEmpty(m.name)),
            Some(_) => seq![PackIssue::StepsAndTokenSteps(m.name)],
        },
        None => match m.token_steps {
            Some(ts) => opt_issue(ts@.len() == 0, PackIssue::TokenStepsEmpty(m.name)) + dur_issues(
                m.name,
                ts@,
                ts@.len() as int,
            ),
            None => seq![PackIssue::NoSteps(m.name)],
        },
    }
}

fn kind_checks(m: &RawMacro, issues: &mut Vec<PackIssue>)
    ensures
        final(issues)@ == old(issues)@ + kind_issues(*m),
{
    let ghost start = issues@;
    match &m.steps {
        Some(st) => match &m.token_steps {
            None => {
                if st.len() == 0 {
                    issues.push(PackIssue::StepsEmpty(m.name.clone()));
                }
            },
            Some(_) => {
                issues.push(PackIssue::StepsAndTokenSteps(m.name.clone()));
            },
        },
        None => match &m.token_steps {
            Some(ts) => {
                if ts.len() == 0 {
                    issues.push(PackIssue::TokenStepsEmpty(m.name.clone()));
                }
                let ghost mid = issues@;
                let mut k: usize = 0;
                while k < ts.len()
                    invariant
                        k <= ts@.len(),
                        issues@ == mid + dur_issues(m.name, ts@, k as int),
                    decreases ts@.len() - k,
                {
                    if ts[k].dur_bucket > 5 {
                        issues.push(
                            PackIssue::DurBucketRange { macro_name: m.name.clone(), dur_bucket: ts[k].dur_bucket },
                        );
                    }
                    proof {
                        assert(issues@ =~= mid + dur_issues(m.name, ts@, k as int + 1));
                    }
                    k = k + 1;
                }
            },
            None => {
                issues.push(PackIssue::NoSteps(m.name.clone()));
            },
        },
    }
    proof {
        assert(issues@ =~= start + kind_issues(*m));
    }
}


/// Issue of one step's `frames` when it names a parameter.
pub open spec fn frame_issue(m: RawMacro, st: StepSpec) -> Seq<PackIssue> {
    match st.frames {
        FrameSpec::Literal(_) => Seq::empty(),
        FrameSpec::Param(pname) => match param_index(m.params@, pname@) {
            Some(j) => opt_issue(
                !(m.params@[j].domain is Int),
                PackIssue::FramesNonIntParam { macro_name: m.name, param: pname },
            ),
            None => seq![PackIssue::FramesUndeclaredParam { macro_name: m.name, param: pname }],
        },
    }
}

pub open spec fn frames_issues_upto(m: RawMacro, steps: Seq<StepSpec>, n: int) -> Seq<PackIssue>
    decreases n,
{
    if n <= 0 {
        Seq::empty()
    } else {
        frames_issues_upto(m, steps, n - 1) + frame_issue(m, steps[n - 1])
    }
}

/// Issues of `$param` frame references, for a macro declaring `steps` only.
pub open spec fn frames_issues(m: RawMacro) -> Seq<PackIssue> {
    match raw_kind(m) {
        Some(MacroSteps::Steps(st)) => frames_issues_upto(m, st@, st@.len() as int),
        _ => Seq::empty(),
    }
}

fn find_param(params: &Vec<ParamDef>, name: &String) -> (r: Option<usize>)
    ensures
        r matches Some(j) ==> param_index(params@, name@) == Some(j as int) && j < params@.len()
            && params@[j as int].name@ == name@,
        r is None ==> param_index(params@, name@) is None,
{
    let ghost names = param_names(params@);
    proof {
        lemma_first_index(names, name@);
    }
    let mut i: usize = 0;
    while i < params.len()
        invariant
            i <= params@.len(),
            names == param_names(params@),
            forall|k: int| 0 <= k < i ==> names[k] != name@,
            first_index(names, name@) matches Some(j) ==> 0 <= j < names.len() && names[j] == name@ && forall|k: int|
                0 <= k < j ==> names[k] != name@,
            first_index(names, name@) is None ==> forall|k: int| 0 <= k < names.len() ==> names[k] != name@,
        decreases params@.len() - i,
    {
        if params[i].name == *name {
            proof {
                assert(names[i as int] == name@);
                let j = first_index(names, name@)->Some_0;
                if j < i {
                    assert(names[j] != name@);
                }
                if j > i {
                    assert(names[i as int] != name@);
                }
            }
            return Some(i);
        }
        i = i + 1;
    }
    proof {
        if first_index(names, name@) is Some {
            let j = first_index(names, name@)->Some_0;
            assert(names[j] != name@);
        }
    }
    None
}

fn frame_check(m: &RawMacro, st: &StepSpec, issues: &mut Vec<PackIssue>)
    ensures
        final(issues)@ == old(issues)@ + frame_issue(*m, *st),
{
    let ghost start = issues@;
    match &st.frames {
        FrameSpec::Literal(_) => {},
        FrameSpec::Param(pname) => {
            match find_param(&m.params, pname) {
                Some(j) => {
                    match &m.params[j].domain {
                        ParamDomain::Int(_) => {},
                        _ => {
                            issues.push(
                                PackIssue::FramesNonIntParam { macro_name: m.name.clone(), param: pname.clone() },
                            );
                        },
                    }
                },
                None => {
                    issues.push(
                        PackIssue::FramesUndeclaredParam { macro_name: m.name.clone(), param: pname.clone() },
                    );
                },
            }
        },
    }
    proof {
        assert(issues@ =~= start + frame_issue(*m, *st));
    }
}

fn frames_checks(m: &RawMacro, issues: &mut Vec<PackIssue>)
    ensures
        final(issues)@ == old(issues)@ + frames_issues(*m),
{
    let ghost start = issues@;
    if let Some(st) = &m.steps {
        if m.token_steps.is_none() {
            let mut k: usize = 0;
            while k < st.len()
                invariant
                    k <= st@.len(),
                    raw_kind(*m) == Some(MacroSteps::Steps(*st)),
                    issues@ == start + frames_issues_upto(*m, st@, k as int),
                decreases st@.len() - k,
            {
                frame_check(m, &st[k], issues);
                proof {
                    assert(issues@ =~= start + frames_issues_upto(*m, st@, k as int + 1));
                }
                k = k + 1;
            }
            return;
        }
    }
    proof {
        assert(issues@ =~= start + frames_issues(*m));
    }
}

pub open spec fn step_holds(steps: Seq<StepSpec>, n: int) -> Seq<String>
    decreases n,
{
    if n <= 0 {
        Seq::empty()
    } else {
        step_holds(steps, n - 1) + steps[n - 1].hold@
    }
}

pub open spec fn token_masks(ts: Seq<TokenStepSpec>, n: int) -> Seq<String>
    decreases n,
{
    if n <= 0 {
        Seq::empty()
    } else {
        token_masks(ts, n - 1) + ts[n - 1].mask@
    }
}

/// Every name a macro's steps hold (or token steps mask), in order.
pub open spec fn referenced_names(m: RawMacro) -> Seq<String> {
    match raw_kind(m) {
        Some(MacroSteps::Steps(st)) => step_holds(st@, st@.len() as int),
        Some(MacroSteps::TokenSteps(ts)) => token_masks(ts@, ts@.len() as int),
        None => Seq::empty(),
    }
}

pub open spec fn missing_values(
    m: RawMacro,
    n: String,
    values: Seq<String>,
    inner: Seq<(Seq<char>, Seq<char>)>,
    k: int,
) -> Seq<PackIssue>
    decreases k,
{
    if k <= 0 {
        Seq::empty()
    } else {
        missing_values(m, n, values, inner, k - 1) + opt_issue(
            !entry_keys(inner).contains(values[k - 1]@),
            PackIssue::MirrorMissingValue { macro_name: m.name, param: n, value: values[k - 1] },
        )
    }
}

/// Issues of one held / masked name: none for a button name; an enum
/// parameter needs a mirror map covering every value; other parameters
/// cannot be held.
pub open spec fn reference_issue(m: RawMacro, n: String) -> Seq<PackIssue> {
    match param_index(m.params@, n@) {
        None => Seq::empty(),
        Some(j) => match m.params@[j].domain {
            ParamDomain::Enum(values) => match entry_lookup(mirror_entries(m.mirror), n@) {
                None => seq![PackIssue::NoMirror { macro_name: m.name, param: n }],
                Some(inner) => missing_values(m, n, values@, inner, values@.len() as int),
            },
            _ => seq![PackIssue::NonEnumHoldParam { macro_name: m.name, param: n }],
        },
    }
}

pub open spec fn reference_issues_upto(m: RawMacro, names: Seq<String>, k: int) -> Seq<PackIssue>
    decreases k,
{
    if k <= 0 {
        Seq::empty()
    } else {
        reference_issues_upto(m, names, k - 1) + reference_issue(m, names[k - 1])
    }
}

pub open spec fn reference_issues(m: RawMacro) -> Seq<PackIssue> {
    reference_issues_upto(m, referenced_names(m), referenced_names(m).len() as int)
}

fn reference_check(m: &RawMacro, n: &String, issues: &mut Vec<PackIssue>)
    ensures
        final(issues)@ == old(issues)@ + reference_issue(*m, *n),
{
    let ghost start = issues@;
    match find_param(&m.params, n) {
        None => {},
        Some(j) => match &m.params[j].domain {
            ParamDomain::Enum(values) => match mirror_get(&m.mirror, n.as_str()) {
                None => {
                    issues.push(PackIssue::NoMirror { macro_name: m.name.clone(), param: n.clone() });
                },
                Some(map) => {
                    let ghost inner = name_map_entries(*map);
                    let mut k: usize = 0;
                    while k < values.len()
                        invariant
                            k <= values@.len(),
                            inner == name_map_entries(*map),
                            issues@ == start + missing_values(*m, *n, values@, inner, k as int),
                        decreases values@.len() - k,
                    {
                        if !name_map_contains(map, values[k].as_str()) {
                            issues.push(
                                PackIssue::MirrorMissingValue {
                                    macro_name: m.name.clone(),
                                    param: n.clone(),
                                    value: values[k].clone(),
                                },
                            );
                        }
                        proof {
                            assert(issues@ =~= start + missing_values(*m, *n, values@, inner, k as int + 1));
                        }
                        k = k + 1;
                    }
                },
            },
            _ => {
                issues.push(PackIssue::NonEnumHoldParam { macro_name: m.name.clone(), param: n.clone() });
            },
        },
    }
    proof {
        assert(issues@ =~= start + reference_issue(*m, *n));
    }
}

fn reference_list_checks(m: &RawMacro, names: &Vec<String>, issues: &mut Vec<PackIssue>)
    ensures
        final(issues)@ == old(issues)@ + reference_issues_upto(*m, names@, names@.len() as int),
{
    let ghost start = issues@;
    let mut k: usize = 0;
    while k < names.len()
        invariant
            k <= names@.len(),
            issues@ == start + reference_issues_upto(*m, names@, k as int),
        decreases names@.len() - k,
    {
        reference_check(m, &names[k], issues);
        proof {
            assert(issues@ =~= start + reference_issues_upto(*m, names@, k as int + 1));
        }
        k = k + 1;
    }
}

fn collect_referenced(m: &RawMacro) -> (names: Vec<String>)
    ensures
        names@ == referenced_names(*m),
{
    let mut out: Vec<String> = Vec::new();
    match &m.steps {
        Some(st) => {
            if m.token_steps.is_none() {
                let mut k: usize = 0;
                while k < st.len()
                    invariant
                        k <= st@.len(),
                        out@ == step_holds(st@, k as int),
                    decreases st@.len() - k,
                {
                    let ghost before = out@;
                    let mut q: usize = 0;
                    while q < st[k].hold.len()
                        invariant
                            k < st@.len(),
                            q <= st@[k as int].hold@.len(),
                            out@ == before + st@[k as int].hold@.take(q as int),
                        decreases st@[k as int].hold@.len() - q,
                    {
                        out.push(st[k].hold[q].clone());
                        proof {
                            assert(st@[k as int].hold@.take(q as int + 1) =~= st@[k as int].hold@.take(q as int).push(
                                st@[k as int].hold@[q as int],
                            ));
                            assert(out@ =~= before + st@[k as int].hold@.take(q as int + 1));
                        }
                        q = q + 1;
                    }
                    proof {
                        assert(st@[k as int].hold@.take(q as int) =~= st@[k as int].hold@);
                    }
                    k = k + 1;
                }
            }
        },
        None => {
            if let Some(ts) = &m.token_steps {
                let mut k: usize = 0;
                while k < ts.len()
                    invariant
                        k <= ts@.len(),
                        out@ == token_masks(ts@, k as int),
                    decreases ts@.len() - k,
                {
                    let ghost before = out@;
                    let mut q: usize = 0;
                    while q < ts[k].mask.len()
                        invariant
                            k < ts@.len(),
                            q <= ts@[k as int].mask@.len(),
                            out@ == before + ts@[k as int].mask@.take(q as int),
                        decreases ts@[k as int].mask@.len() - q,
                    {
                        out.push(ts[k].mask[q].clone());
                        proof {
                            assert(ts@[k as int].mask@.take(q as int + 1) =~= ts@[k as int].mask@.take(q as int).push(
                                ts@[k as int].mask@[q as int],
                            ));
                            assert(out@ =~= before + ts@[k as int].mask@.take(q as int + 1));
                        }
                        q = q + 1;
                    }
                    proof {
                        assert(ts@[k as int].mask@.take(q as int) =~= ts@[k as int].mask@);
                    }
                    k = k + 1;
                }
            }
        },
    }
    out
}


pub open spec fn weight_issues(m: RawMacro) -> Seq<PackIssue> {
    match m.weight_check {
        WeightCheck::Valid => Seq::empty(),
        WeightCheck::NotFinite => seq![
            PackIssue::WeightNotFinite { macro_name: m.name, weight_bits: m.weight_bits },
        ],
        WeightCheck::NotPositive => seq![
            PackIssue::WeightNotPositive { macro_name: m.name, weight_bits: m.weight_bits },
        ],
    }
}

/// Every issue of one macro, given the names of the macros before it, in
/// the order they are checked.
pub open spec fn macro_issues(m: RawMacro, earlier: Seq<Seq<char>>) -> Seq<PackIssue> {
    opt_issue(earlier.contains(m.name@), PackIssue::DuplicateMacro(m.name)) + weight_issues(m) + param_issues(
        m,
        m.params@.len() as int,
    ) + eligibility_issues(m, m.eligibility@.len() as int) + kind_issues(m) + frames_issues(m)
        + reference_issues(m)
}

pub open spec fn macro_names(macros: Seq<RawMacro>) -> Seq<Seq<char>> {
    macros.map_values(|m: RawMacro| m.name@)
}

pub open spec fn macros_issues(macros: Seq<RawMacro>, n: int) -> Seq<PackIssue>
    decreases n,
{
    if n <= 0 {
        Seq::empty()
    } else {
        macros_issues(macros, n - 1) + macro_issues(macros[n - 1], macro_names(macros.take(n - 1)))
    }
}

/// Every validation issue of a pack document, in the order they are found.
pub open spec fn pack_issues(doc: RawPack) -> Seq<PackIssue> {
    header_issues(doc) + macros_issues(doc.macros@, doc.macros@.len() as int)
}

/// Each raw macro gives one scale reading per parameter.
pub open spec fn facts_complete(doc: RawPack) -> bool {
    forall|i: int| 0 <= i < doc.macros@.len() ==> (#[trigger] doc.macros@[i]).scale_facts@.len()
        == doc.macros@[i].params@.len()
}

/// The validated form of a raw macro declaring exactly one recipe.
pub open spec fn def_of(m: RawMacro) -> MacroDef {
    MacroDef {
        name: m.name,
        weight_bits: m.weight_bits,
        tags: m.tags,
        params: m.params,
        eligibility: m.eligibility,
        kind: raw_kind(m)->Some_0,
        mirror: m.mirror,
    }
}

#[verifier::rlimit(40)]
fn macro_checks(m: &RawMacro, earlier: &Vec<String>, issues: &mut Vec<PackIssue>)
    requires
        m.scale_facts@.len() == m.params@.len(),
    ensures
        final(issues)@ == old(issues)@ + macro_issues(*m, names_of(earlier@)),
{
    let ghost start = issues@;
    if names_contain(earlier, &m.name) {
        issues.push(PackIssue::DuplicateMacro(m.name.clone()));
    }
    match m.weight_check {
        WeightCheck::Valid => {},
        WeightCheck::NotFinite => {
            issues.push(PackIssue::WeightNotFinite { macro_name: m.name.clone(), weight_bits: m.weight_bits });
        },
        WeightCheck::NotPositive => {
            issues.push(PackIssue::WeightNotPositive { macro_name: m.name.clone(), weight_bits: m.weight_bits });
        },
    }
    let ghost s1 = issues@;
    param_checks(m, issues);
    let ghost s2 = issues@;
    eligibility_checks(m, issues);
    let ghost s3 = issues@;
    kind_checks(m, issues);
    let ghost s4 = issues@;
    frames_checks(m, issues);
    let ghost s5 = issues@;
    let names = collect_referenced(m);
    reference_list_checks(m, &names, issues);
    proof {
        assert(s1 =~= start + opt_issue(names_of(earlier@).contains(m.name@), PackIssue::DuplicateMacro(m.name))
            + weight_issues(*m));
        assert(issues@ =~= start + macro_issues(*m, names_of(earlier@)));
    }
}

/// Validate a pack document, collecting every issue; with none, the macros
/// in document order.
#[verifier::rlimit(100)]
pub fn validate_pack(doc: RawPack) -> (r: Result<Vec<MacroDef>, Vec<PackIssue>>)
    requires
        facts_complete(doc),
    ensures
        pack_issues(doc).len() == 0 ==> (r matches Ok(defs) && defs@ == doc.macros@.map_values(
            |m: RawMacro| def_of(m),
        )),
        pack_issues(doc).len() > 0 ==> (r matches Err(issues) && issues@ == pack_issues(doc)),
{
    let mut issues: Vec<PackIssue> = Vec::new();
    header_checks(&doc, &mut issues);
    let mut seen: Vec<String> = Vec::new();
    let mut i: usize = 0;
    while i < doc.macros.len()
        invariant
            i <= doc.macros@.len(),
            facts_complete(doc),
            names_of(seen@) == macro_names(doc.macros@.take(i as int)),
            issues@ == header_issues(doc) + macros_issues(doc.macros@, i as int),
        decreases doc.macros@.len() - i,
    {
        let m = &doc.macros[i];
        proof {
            assert(doc.macros@[i as int].scale_facts@.len() == doc.macros@[i as int].params@.len());
        }
        macro_checks(m, &seen, &mut issues);
        let ghost old_seen = seen@;
        seen.push(m.name.clone());
        proof {
            assert(doc.macros@.take(i as int + 1) =~= doc.macros@.take(i as int).push(doc.macros@[i as int]));
            assert(names_of(old_seen).len() == old_seen.len());
            assert(macro_names(doc.macros@.take(i as int)).len() == i);
            assert forall|k: int| 0 <= k < i + 1 implies #[trigger] names_of(seen@)[k] == macro_names(
                doc.macros@.take(i as int + 1),
            )[k] by {
                if k < i {
                    assert(names_of(old_seen)[k] == macro_names(doc.macros@.take(i as int))[k]);
                }
            }
            assert(names_of(seen@) =~= macro_names(doc.macros@.take(i as int + 1)));
            assert(issues@ =~= header_issues(doc) + macros_issues(doc.macros@, i as int + 1));
        }
        i = i + 1;
    }
    if issues.len() > 0 {
        return Err(issues);
    }
    proof {
        assert(doc.macros@.take(i as int) =~= doc.macros@);
        lemma_no_issues_kinds(doc.macros@, doc.macros@.len() as int);
    }
    let ghost raw = doc.macros@;
    let mut macros = doc.macros;
    let mut defs: Vec<MacroDef> = Vec::new();
    while macros.len() > 0
        invariant
            defs@.len() + macros@.len() == raw.len(),
            macros@ == raw.skip(defs@.len() as int),
            defs@ == raw.take(defs@.len() as int).map_values(|m: RawMacro| def_of(m)),
            forall|k: int| 0 <= k < raw.len() ==> (#[trigger] raw_kind(raw[k])) is Some,
        decreases macros@.len(),
    {
        let ghost n = defs@.len() as int;
        let m = macros.remove(0);
        proof {
            assert(m == raw[n]);
            assert(raw_kind(raw[n]) is Some);
        }
        let RawMacro { name, weight_bits, weight_check: _, tags, params, scale_facts: _, eligibility, steps, token_steps, mirror } = m;
        let kind = match steps {
            Some(st) => match token_steps {
                None => MacroSteps::Steps(st),
                Some(_) => MacroSteps::Steps(st),
            },
            None => match token_steps {
                Some(ts) => MacroSteps::TokenSteps(ts),
                None => MacroSteps::Steps(Vec::new()),
            },
        };
        defs.push(MacroDef { name, weight_bits, tags, params, eligibility, kind, mirror });
        proof {
            assert(raw.skip(n + 1) =~= raw.skip(n).drop_first());
            assert(raw.take(n + 1) =~= raw.take(n).push(raw[n]));
            assert(defs@ =~= raw.take(n + 1).map_values(|m: RawMacro| def_of(m)));
        }
    }
    proof {
        assert(raw.take(defs@.len() as int) =~= raw);
    }
    Ok(defs)
}

/// With no issues, every macro declares exactly one recipe.
proof fn lemma_no_issues_kinds(macros: Seq<RawMacro>, n: int)
    requires
        0 <= n <= macros.len(),
        macros_issues(macros, n).len() == 0,
    ensures
        forall|k: int| 0 <= k < n ==> (#[trigger] raw_kind(macros[k])) is Some,
    decreases n,
{
    if n > 0 {
        let m = macros[n - 1];
        let earlier = macro_names(macros.take(n - 1));
        assert(macro_issues(m, earlier).len() == 0);
        assert(kind_issues(m).len() == 0);
        lemma_no_issues_kinds(macros, n - 1);
    }
}


// ---------------------------------------------------------------------
// Loaded packs and the registry
// ---------------------------------------------------------------------

/// A validated pack, identified by the BLAKE3 hex digest of its document bytes.
#[derive(Debug)]
pub struct MacroPack {
    pub pack_id: String,
    pub name: String,
    pub button_alphabet: String,
    pub macros: Vec<MacroDef>,
}

/// Why a pack document was refused.
#[derive(Debug, PartialEq)]
pub enum MacroPackError {
    Parse { message: String, line: Option<usize>, column: Option<usize> },
    /// Every validation failure found; a document with any loads nothing.
    Invalid(Vec<String>),
}

/// Texts separated by `sep`.
pub open spec fn joined_texts(ts: Seq<String>, sep: Seq<char>) -> Seq<char>
    decreases ts.len(),
{
    if ts.len() == 0 {
        Seq::empty()
    } else if ts.len() == 1 {
        ts[0]@
    } else {
        joined_texts(ts.drop_last(), sep) + sep + ts.last()@
    }
}

impl MacroPackError {
    /// The error as the service reports it: a parse error with its place
    /// when known, or every validation failure separated by `; `.
    pub fn message(&self) -> (t: String)
        ensures
            t@ == match self {
                MacroPackError::Parse { message, line, column } => "parse error: "@ + message@ + match (line, column) {
                    (Some(l), Some(c)) => " (line "@ + decimal_chars(*l as nat) + ", column "@ + decimal_chars(
                        *c as nat,
                    ) + ")"@,
                    _ => Seq::empty(),
                },
                MacroPackError::Invalid(errs) => joined_texts(errs@, "; "@),
            },
    {
        match self {
            MacroPackError::Parse { message, line, column } => {
                let mut t = String::from_str("parse error: ");
                t.append(message.as_str());
                match (line, column) {
                    (Some(l), Some(c)) => {
                        let a = decimal_text(*l as u64);
                        let b = decimal_text(*c as u64);
                        t.append(" (line ");
                        t.append(a.as_str());
                        t.append(", column ");
                        t.append(b.as_str());
                        t.append(")");
                    },
                    _ => {},
                }
                t
            },
            MacroPackError::Invalid(errs) => {
                let mut t = String::new();
                let mut i: usize = 0;
                while i < errs.len()
                    invariant
                        i <= errs@.len(),
                        t@ == joined_texts(errs@.take(i as int), "; "@),
                    decreases errs@.len() - i,
                {
                    proof {
                        assert(errs@.take(i as int + 1).drop_last() =~= errs@.take(i as int));
                    }
                    if i > 0 {
                        t.append("; ");
                    }
                    t.append(errs[i].as_str());
                    i = i + 1;
                }
                proof {
                    assert(errs@.take(i as int) =~= errs@);
                }
                t
            },
        }
    }
}

/// `macro "<name>": `, the start of a message about one macro of a pack.
pub open spec fn macro_words(name: Seq<char>) -> Seq<char> {
    "macro "@ + debug_str(name) + ": "@
}

/// `macro "<name>": param "<param>" `, the start of a message about a param.
pub open spec fn param_words(name: Seq<char>, param: Seq<char>) -> Seq<char> {
    macro_words(name) + "param "@ + debug_str(param) + " "@
}

/// The message of a pack issue: plain words, decimal numbers and the
/// offending names in Rust's debug form; `None` for the issues about a
/// weight or a scale domain, whose messages print floating-point numbers.
pub open spec fn pack_issue_words(issue: PackIssue) -> Option<Seq<char>> {
    match issue {
        PackIssue::Version(v) => Some("version "@ + decimal_chars(v as nat) + " unsupported (expected 1)"@),
        PackIssue::Kind(k) => Some("kind "@ + debug_str(k@) + " is not \"macro_pack\""@),
        PackIssue::Name(n) => Some("name "@ + debug_str(n@) + " must match [a-z0-9-]+"@),
        PackIssue::EventGrammarModel => Some(
            "model \"event_grammar\" is not supported until M5 (event_grammar packs use event_steps, not the pad `steps`/`token_steps` machinery)"@,
        ),
        PackIssue::Model(m) => Some("model "@ + debug_str(m@) + " unsupported (expected \"pad\")"@),
        PackIssue::Source(src) => Some("source "@ + debug_str(src@) + " must be \"handwritten\" or \"mined\""@),
        PackIssue::NoMacros => Some("macros must be non-empty"@),
        PackIssue::DuplicateMacro(n) => Some("duplicate macro name "@ + debug_str(n@) + " within pack"@),
        PackIssue::WeightNotFinite { .. } => None,
        PackIssue::WeightNotPositive { .. } => None,
        PackIssue::DuplicateParam { macro_name, param } => Some(
            macro_words(macro_name@) + "duplicate param name "@ + debug_str(param@),
        ),
        PackIssue::EnumDomainEmpty { macro_name, param } => Some(
            param_words(macro_name@, param@) + "enum domain must be non-empty"@,
        ),
        PackIssue::IntMinGtMax { macro_name, param, min, max } => Some(
            param_words(macro_name@, param@) + "int domain min "@ + signed_decimal_chars(min as int) + " > max "@
                + signed_decimal_chars(max as int),
        ),
        PackIssue::IntSpanTooWide { macro_name, param, min, max } => Some(
            param_words(macro_name@, param@) + "int domain span "@ + signed_decimal_chars(max - min + 1)
                + " exceeds 2^32"@,
        ),
        PackIssue::ScaleNotFinite { .. } => None,
        PackIssue::ScaleMinGtMax { .. } => None,
        PackIssue::ScaleMinNotPositive { .. } => None,
        PackIssue::HistoryEligibility(n) => Some(
            macro_words(n@)
                + "eligibility predicates must be feature comparisons (history predicates are not supported in macro packs)"@,
        ),
        PackIssue::StepsEmpty(n) => Some(macro_words(n@) + "steps must be non-empty"@),
        PackIssue::TokenStepsEmpty(n) => Some(macro_words(n@) + "token_steps must be non-empty"@),
        PackIssue::DurBucketRange { macro_name, dur_bucket } => Some(
            macro_words(macro_name@) + "token_steps dur_bucket "@ + decimal_chars(dur_bucket as nat) + " must be in 0..=5"@,
        ),
        PackIssue::StepsAndTokenSteps(n) => Some(macro_words(n@) + "steps and token_steps are mutually exclusive"@),
        PackIssue::NoSteps(n) => Some(macro_words(n@) + "must declare steps or token_steps"@),
        PackIssue::FramesNonIntParam { macro_name, param } => Some(
            macro_words(macro_name@) + "frames $"@ + param@ + " references a non-int-domain param"@,
        ),
        PackIssue::FramesUndeclaredParam { macro_name, param } => Some(
            macro_words(macro_name@) + "frames $"@ + param@ + " references an undeclared param"@,
        ),
        PackIssue::NoMirror { macro_name, param } => Some(
            macro_words(macro_name@) + "enum param "@ + debug_str(param@) + " used in hold/mask has no mirror map"@,
        ),
        PackIssue::MirrorMissingValue { macro_name, param, value } => Some(
            macro_words(macro_name@) + "mirror["@ + debug_str(param@) + "] missing enum value "@ + debug_str(value@),
        ),
        PackIssue::NonEnumHoldParam { macro_name, param } => Some(
            param_words(macro_name@, param@) + "used in hold/mask must be enum-domain"@,
        ),
    }
}

fn macro_text(name: &String) -> (t: String)
    ensures
        t@ == macro_words(name@),
{
    let q = debug_quoted(name.as_str());
    let mut t = String::from_str("macro ");
    t.append(q.as_str());
    t.append(": ");
    t
}

fn param_text(name: &String, param: &String) -> (t: String)
    ensures
        t@ == param_words(name@, param@),
{
    let q = debug_quoted(param.as_str());
    let mut t = macro_text(name);
    t.append("param ");
    t.append(q.as_str());
    t.append(" ");
    proof {
        assert(t@ =~= param_words(name@, param@));
    }
    t
}

/// `head` followed by `tail`.
fn then_str(head: String, tail: &str) -> (t: String)
    ensures
        t@ == head@ + tail@,
{
    let mut t = head;
    t.append(tail);
    t
}

/// The message of a pack issue (see [`pack_issue_words`]).
pub fn pack_issue_text(issue: &PackIssue) -> (t: Option<String>)
    ensures
        match pack_issue_words(*issue) {
            Some(w) => t matches Some(s) && s@ == w,
            None => t is None,
        },
{
    match issue {
        PackIssue::Version(v) => {
            let n = decimal_text(*v as u64);
            let t = then_str(String::from_str("version "), n.as_str());
            Some(then_str(t, " unsupported (expected 1)"))
        },
        PackIssue::Kind(k) => {
            let t = then_str(String::from_str("kind "), debug_quoted(k.as_str()).as_str());
            Some(then_str(t, " is not \"macro_pack\""))
        },
        PackIssue::Name(n) => {
            let t = then_str(String::from_str("name "), debug_quoted(n.as_str()).as_str());
            Some(then_str(t, " must match [a-z0-9-]+"))
        },
        PackIssue::EventGrammarModel => Some(
            String::from_str(
                "model \"event_grammar\" is not supported until M5 (event_grammar packs use event_steps, not the pad `steps`/`token_steps` machinery)",
            ),
        ),
        PackIssue::Model(m) => {
            let t = then_str(String::from_str("model "), debug_quoted(m.as_str()).as_str());
            Some(then_str(t, " unsupported (expected \"pad\")"))
        },
        PackIssue::Source(src) => {
            let t = then_str(String::from_str("source "), debug_quoted(src.as_str()).as_str());
            Some(then_str(t, " must be \"handwritten\" or \"mined\""))
        },
        PackIssue::NoMacros => Some(String::from_str("macros must be non-empty")),
        PackIssue::DuplicateMacro(n) => {
            let t = then_str(String::from_str("duplicate macro name "), debug_quoted(n.as_str()).as_str());
            Some(then_str(t, " within pack"))
        },
        PackIssue::WeightNotFinite { .. } => None,
        PackIssue::WeightNotPositive { .. } => None,
        PackIssue::DuplicateParam { macro_name, param } => {
            let t = then_str(macro_text(macro_name), "duplicate param name ");
            Some(then_str(t, debug_quoted(param.as_str()).as_str()))
        },
        PackIssue::EnumDomainEmpty { macro_name, param } => {
            Some(then_str(param_text(macro_name, param), "enum domain must be non-empty"))
        },
        PackIssue::IntMinGtMax { macro_name, param, min, max } => {
            let t = then_str(param_text(macro_name, param), "int domain min ");
            let t = then_str(t, signed_decimal_text(*min as i128).as_str());
            let t = then_str(t, " > max ");
            Some(then_str(t, signed_decimal_text(*max as i128).as_str()))
        },
        PackIssue::IntSpanTooWide { macro_name, param, min, max } => {
            let span: i128 = *max as i128 - *min as i128 + 1;
            let t = then_str(param_text(macro_name, param), "int domain span ");
            let t = then_str(t, signed_decimal_text(span).as_str());
            Some(then_str(t, " exceeds 2^32"))
        },
        PackIssue::ScaleNotFinite { .. } => None,
        PackIssue::ScaleMinGtMax { .. } => None,
        PackIssue::ScaleMinNotPositive { .. } => None,
        PackIssue::HistoryEligibility(n) => Some(
            then_str(
                macro_text(n),
                "eligibility predicates must be feature comparisons (history predicates are not supported in macro packs)",
            ),
        ),
        PackIssue::StepsEmpty(n) => Some(then_str(macro_text(n), "steps must be non-empty")),
        PackIssue::TokenStepsEmpty(n) => Some(then_str(macro_text(n), "token_steps must be non-empty")),
        PackIssue::DurBucketRange { macro_name, dur_bucket } => {
            let t = then_str(macro_text(macro_name), "token_steps dur_bucket ");
            let t = then_str(t, decimal_text(*dur_bucket as u64).as_str());
            Some(then_str(t, " must be in 0..=5"))
        },
        PackIssue::StepsAndTokenSteps(n) => Some(
            then_str(macro_text(n), "steps and token_steps are mutually exclusive"),
        ),
        PackIssue::NoSteps(n) => Some(then_str(macro_text(n), "must declare steps or token_steps")),
        PackIssue::FramesNonIntParam { macro_name, param } => {
            let t = then_str(macro_text(macro_name), "frames $");
            let t = then_str(t, param.as_str());
            Some(then_str(t, " references a non-int-domain param"))
        },
        PackIssue::FramesUndeclaredParam { macro_name, param } => {
            let t = then_str(macro_text(macro_name), "frames $");
            let t = then_str(t, param.as_str());
            Some(then_str(t, " references an undeclared param"))
        },
        PackIssue::NoMirror { macro_name, param } => {
            let t = then_str(macro_text(macro_name), "enum param ");
            let t = then_str(t, debug_quoted(param.as_str()).as_str());
            Some(then_str(t, " used in hold/mask has no mirror map"))
        },
        PackIssue::MirrorMissingValue { macro_name, param, value } => {
            let t = then_str(macro_text(macro_name), "mirror[");
            let t = then_str(t, debug_quoted(param.as_str()).as_str());
            let t = then_str(t, "] missing enum value ");
            Some(then_str(t, debug_quoted(value.as_str()).as_str()))
        },
        PackIssue::NonEnumHoldParam { macro_name, param } => {
            Some(then_str(param_text(macro_name, param), "used in hold/mask must be enum-domain"))
        },
    }
}

/// Lowercase hex of the BLAKE3 digest of `bytes`: the id of a pack document.
pub open spec fn pack_id_of(bytes: Seq<u8>) -> Seq<char> {
    hex_chars(blake3_hash(bytes))
}

/// Id of a document: the lowercase hex BLAKE3 digest of its bytes.
pub fn document_id(bytes: &[u8]) -> (id: String)
    ensures
        id@ == pack_id_of(bytes@),
        id@.len() == 64,
        forall|i: int| 0 <= i < 64 ==> is_lower_hex(#[trigger] id@[i]),
{
    let digest = hash32(bytes);
    proof {
        lemma_hex_chars_shape(digest@);
    }
    hex_encode(&digest)
}

/// What loading a parsed document with bytes `bytes` gives: with no issue, the
/// pack of the document's validated macros, named and for the alphabet the
/// document says, whose id is the 64 lowercase hex digits of the BLAKE3
/// digest of the bytes; else every issue, in order.
pub open spec fn validated_pack_is(bytes: Seq<u8>, doc: RawPack, r: Result<MacroPack, Vec<PackIssue>>) -> bool {
    &&& pack_issues(doc).len() == 0 ==> (r matches Ok(p) && p.pack_id@ == pack_id_of(bytes) && p.pack_id@.len() == 64
        && (forall|i: int| 0 <= i < 64 ==> is_lower_hex(#[trigger] p.pack_id@[i])) && p.name == doc.name
        && p.button_alphabet == doc.button_alphabet && p.macros@ == doc.macros@.map_values(|m: RawMacro| def_of(m)))
    &&& pack_issues(doc).len() > 0 ==> (r matches Err(issues) && issues@ == pack_issues(doc))
}

proof fn lemma_pack_contains_concat(a: Seq<PackIssue>, b: Seq<PackIssue>, x: PackIssue)
    requires
        a.contains(x) || b.contains(x),
    ensures
        (a + b).contains(x),
{
    if a.contains(x) {
        let j = choose|j: int| 0 <= j < a.len() && a[j] == x;
        assert((a + b)[j] == x);
    } else {
        let j = choose|j: int| 0 <= j < b.len() && b[j] == x;
        assert((a + b)[a.len() + j] == x);
    }
}

/// An issue of a macro's recipe is an issue of the pack.
proof fn lemma_kind_issue_in_pack(doc: RawPack, i: int, x: PackIssue)
    requires
        0 <= i < doc.macros@.len(),
        kind_issues(doc.macros@[i]).contains(x),
    ensures
        pack_issues(doc).contains(x),
{
    let macros = doc.macros@;
    let m = macros[i];
    let e = macro_names(macros.take(i));
    let p1 = opt_issue(e.contains(m.name@), PackIssue::DuplicateMacro(m.name)) + weight_issues(m) + param_issues(
        m,
        m.params@.len() as int,
    ) + eligibility_issues(m, m.eligibility@.len() as int);
    lemma_pack_contains_concat(p1, kind_issues(m), x);
    lemma_pack_contains_concat(p1 + kind_issues(m), frames_issues(m), x);
    lemma_pack_contains_concat(p1 + kind_issues(m) + frames_issues(m), reference_issues(m), x);
    assert(macro_issues(m, e) == p1 + kind_issues(m) + frames_issues(m) + reference_issues(m));
    lemma_macro_issue_in_macros(macros, macros.len() as int, i, x);
    lemma_pack_contains_concat(header_issues(doc), macros_issues(macros, macros.len() as int), x);
}

proof fn lemma_macro_issue_in_macros(macros: Seq<RawMacro>, n: int, i: int, x: PackIssue)
    requires
        0 <= i < n <= macros.len(),
        macro_issues(macros[i], macro_names(macros.take(i))).contains(x),
    ensures
        macros_issues(macros, n).contains(x),
    decreases n,
{
    if i < n - 1 {
        lemma_macro_issue_in_macros(macros, n - 1, i, x);
    }
    lemma_pack_contains_concat(
        macros_issues(macros, n - 1),
        macro_issues(macros[n - 1], macro_names(macros.take(n - 1))),
        x,
    );
}

/// Every macro of a pack declares exactly one recipe, `steps` or
/// `token_steps`, and that recipe has at least one step. A macro that breaks
/// this is reported by its name: empty `steps` as `StepsEmpty`, empty
/// `token_steps` as `TokenStepsEmpty`, both as `StepsAndTokenSteps`,
/// neither as `NoSteps`; so every macro of an accepted pack has a non-empty
/// recipe.
pub proof fn law_accepted_macros_have_a_recipe(doc: RawPack)
    ensures
        forall|i: int|
            0 <= i < doc.macros@.len() && ((#[trigger] doc.macros@[i]).steps matches Some(st) && st@.len() == 0)
                && doc.macros@[i].token_steps is None ==> pack_issues(doc).contains(
                PackIssue::StepsEmpty(doc.macros@[i].name),
            ),
        forall|i: int|
            0 <= i < doc.macros@.len() && (#[trigger] doc.macros@[i]).steps is None && (
            doc.macros@[i].token_steps matches Some(ts) && ts@.len() == 0) ==> pack_issues(doc).contains(
                PackIssue::TokenStepsEmpty(doc.macros@[i].name),
            ),
        forall|i: int|
            0 <= i < doc.macros@.len() && (#[trigger] doc.macros@[i]).steps is Some
                && doc.macros@[i].token_steps is Some ==> pack_issues(doc).contains(
                PackIssue::StepsAndTokenSteps(doc.macros@[i].name),
            ),
        forall|i: int|
            0 <= i < doc.macros@.len() && (#[trigger] doc.macros@[i]).steps is None
                && doc.macros@[i].token_steps is None ==> pack_issues(doc).contains(
                PackIssue::NoSteps(doc.macros@[i].name),
            ),
        pack_issues(doc).len() == 0 ==> forall|i: int|
            0 <= i < doc.macros@.len() ==> (((#[trigger] doc.macros@[i]).steps matches Some(st) && st@.len() > 0)
                && doc.macros@[i].token_steps is None) || (doc.macros@[i].steps is None
                && (doc.macros@[i].token_steps matches Some(ts) && ts@.len() > 0)),
{
    assert forall|i: int| 0 <= i < doc.macros@.len() && kind_issues(#[trigger] doc.macros@[i]).len() > 0 implies pack_issues(
        doc,
    ).contains(kind_issues(doc.macros@[i])[0]) by {
        lemma_kind_issue_in_pack(doc, i, kind_issues(doc.macros@[i])[0]);
    }
    assert forall|i: int| 0 <= i < doc.macros@.len() implies {
        let m = #[trigger] doc.macros@[i];
        &&& (m.steps matches Some(st) && st@.len() == 0) && m.token_steps is None ==> kind_issues(m)[0]
            == PackIssue::StepsEmpty(m.name)
        &&& m.steps is None && (m.token_steps matches Some(ts) && ts@.len() == 0) ==> kind_issues(m)[0]
            == PackIssue::TokenStepsEmpty(m.name)
        &&& m.steps is Some && m.token_steps is Some ==> kind_issues(m)[0] == PackIssue::StepsAndTokenSteps(m.name)
        &&& m.steps is None && m.token_steps is None ==> kind_issues(m)[0] == PackIssue::NoSteps(m.name)
        &&& !(((m.steps matches Some(st) && st@.len() > 0) && m.token_steps is None) || (m.steps is None && (
        m.token_steps matches Some(ts) && ts@.len() > 0))) ==> kind_issues(m).len() > 0
    } by {
        let m = doc.macros@[i];
        match m.steps {
            Some(st) => match m.token_steps {
                None => {},
                Some(_) => {},
            },
            None => match m.token_steps {
                Some(ts) => {
                    if ts@.len() == 0 {
                        let t = opt_issue(true, PackIssue::TokenStepsEmpty(m.name));
                        let d = dur_issues(m.name, ts@, ts@.len() as int);
                        assert((t + d)[0] == t[0]);
                    }
                },
                None => {},
            },
        }
    }
    if pack_issues(doc).len() == 0 {
        assert forall|i: int| 0 <= i < doc.macros@.len() implies (((#[trigger] doc.macros@[i]).steps matches Some(st)
            && st@.len() > 0) && doc.macros@[i].token_steps is None) || (doc.macros@[i].steps is None
            && (doc.macros@[i].token_steps matches Some(ts) && ts@.len() > 0)) by {
            if kind_issues(doc.macros@[i]).len() > 0 {
                assert(pack_issues(doc).contains(kind_issues(doc.macros@[i])[0]));
            }
        }
    }
}

/// Loading the same bytes, parsed to the same document, twice gives the same
/// outcome: the same issues, or packs with the same id, name, alphabet and
/// macros.
pub proof fn law_loading_is_deterministic(
    bytes: Seq<u8>,
    doc: RawPack,
    r1: Result<MacroPack, Vec<PackIssue>>,
    r2: Result<MacroPack, Vec<PackIssue>>,
)
    requires
        validated_pack_is(bytes, doc, r1),
        validated_pack_is(bytes, doc, r2),
    ensures
        r1 is Ok <==> r2 is Ok,
        r1 matches Err(i1) ==> (r2 matches Err(i2) && i1@ == i2@),
        r1 matches Ok(p1) ==> (r2 matches Ok(p2) && p1.pack_id@ == p2.pack_id@ && p1.pack_id@.len() == 64
            && p1.name == p2.name && p1.button_alphabet == p2.button_alphabet && p1.macros@ == p2.macros@),
{
}

/// The pack a parsed document makes: validated macros, and an id that is the
/// digest of exactly the bytes given, so identical bytes give the same id.
pub fn validated_pack(bytes: &[u8], doc: RawPack) -> (r: Result<MacroPack, Vec<PackIssue>>)
    requires
        facts_complete(doc),
    ensures
        validated_pack_is(bytes@, doc, r),
{
    let name = doc.name.clone();
    let button_alphabet = doc.button_alphabet.clone();
    let ghost d = doc;
    match validate_pack(doc) {
        Err(issues) => Err(issues),
        Ok(macros) => {
            let pack_id = document_id(bytes);
            Ok(MacroPack { pack_id, name, button_alphabet, macros })
        },
    }
}

fn copy_strings(v: &Vec<String>) -> (r: Vec<String>)
    ensures
        r@ == v@,
{
    let mut out: Vec<String> = Vec::new();
    let mut i: usize = 0;
    while i < v.len()
        invariant
            i <= v@.len(),
            out@ == v@.take(i as int),
        decreases v@.len() - i,
    {
        out.push(v[i].clone());
        proof {
            assert(v@.take(i as int + 1) =~= v@.take(i as int).push(v@[i as int]));
        }
        i = i + 1;
    }
    proof {
        assert(v@.take(i as int) =~= v@);
    }
    out
}

/// Two parameter declarations with the same name and the same domain.
pub open spec fn same_param(a: ParamDef, b: ParamDef) -> bool {
    &&& a.name == b.name
    &&& match a.domain {
        ParamDomain::Enum(x) => b.domain matches ParamDomain::Enum(y) && x@ == y@,
        ParamDomain::Int(x) => b.domain == ParamDomain::Int(x),
        ParamDomain::Scale(x) => b.domain == ParamDomain::Scale(x),
    }
}

pub open spec fn same_params(a: Seq<ParamDef>, b: Seq<ParamDef>) -> bool {
    a.len() == b.len() && forall|i: int| 0 <= i < a.len() ==> #[trigger] same_param(a[i], b[i])
}

fn copy_param(p: &ParamDef) -> (r: ParamDef)
    ensures
        same_param(r, *p),
{
    let domain = match &p.domain {
        ParamDomain::Enum(values) => ParamDomain::Enum(copy_strings(values)),
        ParamDomain::Int(r) => ParamDomain::Int(IntRange { min: r.min, max: r.max }),
        ParamDomain::Scale(r) => ParamDomain::Scale(ScaleRange { min_bits: r.min_bits, max_bits: r.max_bits }),
    };
    ParamDef { name: p.name.clone(), domain }
}

fn copy_params(v: &Vec<ParamDef>) -> (r: Vec<ParamDef>)
    ensures
        same_params(r@, v@),
{
    let mut out: Vec<ParamDef> = Vec::new();
    let mut i: usize = 0;
    while i < v.len()
        invariant
            i <= v@.len(),
            out@.len() == i,
            forall|k: int| 0 <= k < i ==> #[trigger] same_param(out@[k], v@[k]),
        decreases v@.len() - i,
    {
        out.push(copy_param(&v[i]));
        i = i + 1;
    }
    out
}

fn copy_predicates(v: &Vec<Predicate>) -> (r: Vec<Predicate>)
    ensures
        r@ == v@,
{
    let mut out: Vec<Predicate> = Vec::new();
    let mut i: usize = 0;
    while i < v.len()
        invariant
            i <= v@.len(),
            out@ == v@.take(i as int),
        decreases v@.len() - i,
    {
        let c = match &v[i] {
            Predicate::Feature { feature, op, value_bits } => Predicate::Feature {
                feature: feature.clone(),
                op: *op,
                value_bits: *value_bits,
            },
            Predicate::History { history } => Predicate::History {
                history: HistoryPredicate {
                    pressed_within: PressedWithin {
                        button: history.pressed_within.button.clone(),
                        frames: history.pressed_within.frames,
                    },
                },
            },
        };
        out.push(c);
        proof {
            assert(v@.take(i as int + 1) =~= v@.take(i as int).push(v@[i as int]));
        }
        i = i + 1;
    }
    proof {
        assert(v@.take(i as int) =~= v@);
    }
    out
}

/// A note from loading a pack into the registry.
#[derive(Clone, Debug, PartialEq)]
pub enum RegistryWarning {
    /// A pack name owns one document: the pack of that name was replaced.
    Replaced { name: String, old_id: String, new_id: String },
    /// A macro of the new pack has the name of a macro in another loaded pack.
    Shadows { macro_name: String, other_pack: String },
}

impl RegistryWarning {
    /// The warning as the service logs it.
    pub fn text(&self) -> (t: String)
        ensures
            t@ == match self {
                RegistryWarning::Replaced { name, old_id, new_id } => "pack '"@ + name@ + "' (id "@ + old_id@
                    + ") replaced by id "@ + new_id@ + " \u{2014} a pack name owns one document"@,
                RegistryWarning::Shadows { macro_name, other_pack } => "macro '"@ + macro_name@
                    + "' shadows same-name macro in pack "@ + other_pack@,
            },
    {
        match self {
            RegistryWarning::Replaced { name, old_id, new_id } => {
                let mut t = String::from_str("pack '");
                t.append(name.as_str());
                t.append("' (id ");
                t.append(old_id.as_str());
                t.append(") replaced by id ");
                t.append(new_id.as_str());
                t.append(" \u{2014} a pack name owns one document");
                t
            },
            RegistryWarning::Shadows { macro_name, other_pack } => {
                let mut t = String::from_str("macro '");
                t.append(macro_name.as_str());
                t.append("' shadows same-name macro in pack ");
                t.append(other_pack.as_str());
                t
            },
        }
    }
}

/// Loaded packs in load order.
pub struct PackRegistry {
    packs: Vec<MacroPack>,
}

pub open spec fn pack_ids_of(packs: Seq<MacroPack>) -> Seq<Seq<char>> {
    packs.map_values(|p: MacroPack| p.pack_id@)
}

pub open spec fn pack_names_of(packs: Seq<MacroPack>) -> Seq<Seq<char>> {
    packs.map_values(|p: MacroPack| p.name@)
}

pub open spec fn has_macro_named(p: MacroPack, name: Seq<char>) -> bool {
    exists|k: int| 0 <= k < p.macros@.len() && (#[trigger] p.macros@[k]).name@ == name
}

/// Shadow warnings of macro `m` against the first `n` packs of `others`.
pub open spec fn shadows_of(m: MacroDef, others: Seq<MacroPack>, n: int) -> Seq<RegistryWarning>
    decreases n,
{
    if n <= 0 {
        Seq::empty()
    } else {
        shadows_of(m, others, n - 1) + (if has_macro_named(others[n - 1], m.name@) {
            seq![RegistryWarning::Shadows { macro_name: m.name, other_pack: others[n - 1].name }]
        } else {
            Seq::empty()
        })
    }
}

/// Shadow warnings of the first `n` macros of `pack` against `others`.
pub open spec fn shadow_warnings(pack: MacroPack, others: Seq<MacroPack>, n: int) -> Seq<RegistryWarning>
    decreases n,
{
    if n <= 0 {
        Seq::empty()
    } else {
        shadow_warnings(pack, others, n - 1) + shadows_of(pack.macros@[n - 1], others, others.len() as int)
    }
}

/// The first pack whose name or id is `key`.
pub open spec fn lookup_position(packs: Seq<MacroPack>, key: Seq<char>) -> Option<int>
    decreases packs.len(),
{
    if packs.len() == 0 {
        None
    } else if packs[0].name@ == key || packs[0].pack_id@ == key {
        Some(0)
    } else {
        match lookup_position(packs.drop_first(), key) {
            Some(i) => Some(i + 1),
            None => None,
        }
    }
}

proof fn lemma_lookup_position(packs: Seq<MacroPack>, key: Seq<char>)
    ensures
        lookup_position(packs, key) matches Some(i) ==> 0 <= i < packs.len() && (packs[i].name@ == key
            || packs[i].pack_id@ == key) && forall|k: int|
            0 <= k < i ==> !(packs[k].name@ == key || packs[k].pack_id@ == key),
        lookup_position(packs, key) is None ==> forall|k: int|
            0 <= k < packs.len() ==> !(packs[k].name@ == key || packs[k].pack_id@ == key),
    decreases packs.len(),
{
    if packs.len() > 0 {
        lemma_lookup_position(packs.drop_first(), key);
        assert forall|k: int| 1 <= k < packs.len() implies packs[k] == packs.drop_first()[k - 1] by {}
    }
}

fn has_macro(p: &MacroPack, name: &String) -> (r: bool)
    ensures
        r == has_macro_named(*p, name@),
{
    let mut k: usize = 0;
    while k < p.macros.len()
        invariant
            k <= p.macros@.len(),
            forall|q: int| 0 <= q < k ==> (#[trigger] p.macros@[q]).name@ != name@,
        decreases p.macros@.len() - k,
    {
        if p.macros[k].name == *name {
            proof {
                assert(p.macros@[k as int].name@ == name@);
            }
            return true;
        }
        k = k + 1;
    }
    false
}

fn position_by_id(packs: &Vec<MacroPack>, id: &String) -> (r: Option<usize>)
    ensures
        r matches Some(i) ==> first_index(pack_ids_of(packs@), id@) == Some(i as int),
        r is None ==> first_index(pack_ids_of(packs@), id@) is None,
{
    let ghost ids = pack_ids_of(packs@);
    proof {
        lemma_first_index(ids, id@);
    }
    let mut i: usize = 0;
    while i < packs.len()
        invariant
            i <= packs@.len(),
            ids == pack_ids_of(packs@),
            forall|k: int| 0 <= k < i ==> ids[k] != id@,
            first_index(ids, id@) matches Some(j) ==> 0 <= j < ids.len() && ids[j] == id@ && forall|k: int|
                0 <= k < j ==> ids[k] != id@,
            first_index(ids, id@) is None ==> forall|k: int| 0 <= k < ids.len() ==> ids[k] != id@,
        decreases packs@.len() - i,
    {
        if packs[i].pack_id == *id {
            proof {
                assert(ids[i as int] == id@);
                let j = first_index(ids, id@)->Some_0;
                if j < i {
                    assert(ids[j] != id@);
                }
                if j > i {
                    assert(ids[i as int] != id@);
                }
            }
            return Some(i);
        }
        i = i + 1;
    }
    proof {
        if first_index(ids, id@) is Some {
            let j = first_index(ids, id@)->Some_0;
            assert(ids[j] != id@);
        }
    }
    None
}

fn position_by_name(packs: &Vec<MacroPack>, name: &String) -> (r: Option<usize>)
    ensures
        r matches Some(i) ==> first_index(pack_names_of(packs@), name@) == Some(i as int),
        r is None ==> first_index(pack_names_of(packs@), name@) is None,
{
    let ghost names = pack_names_of(packs@);
    proof {
        lemma_first_index(names, name@);
    }
    let mut i: usize = 0;
    while i < packs.len()
        invariant
            i <= packs@.len(),
            names == pack_names_of(packs@),
            forall|k: int| 0 <= k < i ==> names[k] != name@,
            first_index(names, name@) matches Some(j) ==> 0 <= j < names.len() && names[j] == name@ && forall|k: int|
                0 <= k < j ==> names[k] != name@,
            first_index(names, name@) is None ==> forall|k: int| 0 <= k < names.len() ==> names[k] != name@,
        decreases packs@.len() - i,
    {
        if packs[i].name == *name {
            proof {
                assert(names[i as int] == name@);
                let j = first_index(names, name@)->Some_0;
                if j < i {
                    assert(names[j] != name@);
                }
                if j > i {
                    assert(names[i as int] != name@);
                }
            }
            return Some(i);
        }
        i = i + 1;
    }
    proof {
        if first_index(names, name@) is Some {
            let j = first_index(names, name@)->Some_0;
            assert(names[j] != name@);
        }
    }
    None
}

/// Sort strings by their UTF-8 bytes (insertion sort): the same strings, as
/// a multiset, in ascending order.
pub(crate) fn sort_strings(v: &mut Vec<String>)
    ensures
        final(v)@.to_multiset() == old(v)@.to_multiset(),
        forall|i: int, j: int|
            0 <= i <= j < final(v)@.len() ==> bytes_le(
                encode_utf8(final(v)@[i]@),
                encode_utf8(final(v)@[j]@),
            ),
{
    broadcast use vstd::seq_lib::group_to_multiset_ensures;
    broadcast use vstd::multiset::group_multiset_axioms;

    let ghost orig = v@;
    let mut out: Vec<String> = Vec::new();
    proof {
        assert(v@ =~= orig);
        assert(out@.to_multiset().add(v@.to_multiset()) =~= orig.to_multiset());
    }
    while v.len() > 0
        invariant
            out@.to_multiset().add(v@.to_multiset()) == orig.to_multiset(),
            forall|a: int, b: int|
                0 <= a <= b < out@.len() ==> bytes_le(encode_utf8(out@[a]@), encode_utf8(out@[b]@)),
        decreases v@.len(),
    {
        let ghost before = v@;
        let x = v.pop().unwrap();
        proof {
            assert(before =~= v@.push(x));
        }
        let xb = x.as_str().as_bytes();
        let mut j: usize = 0;
        while j < out.len() && bytes_le_exec(out[j].as_str().as_bytes(), xb)
            invariant
                j <= out@.len(),
                xb@ == encode_utf8(x@),
                forall|k: int| 0 <= k < j ==> bytes_le(encode_utf8(#[trigger] out@[k]@), encode_utf8(x@)),
            decreases out@.len() - j,
        {
            j = j + 1;
        }
        let ghost sorted = out@;
        proof {
            assert forall|k: int| j <= k < sorted.len() implies bytes_le(encode_utf8(x@), encode_utf8(
                #[trigger] sorted[k]@,
            )) by {
                lemma_bytes_le_total(encode_utf8(sorted[j as int]@), encode_utf8(x@));
                lemma_bytes_le_transitive(encode_utf8(x@), encode_utf8(sorted[j as int]@), encode_utf8(sorted[k]@));
            }
        }
        out.insert(j, x);
        proof {
            let n = out@;
            assert(n =~= sorted.insert(j as int, x));
            assert forall|a: int, b: int| 0 <= a <= b < n.len() implies bytes_le(
                encode_utf8(n[a]@),
                encode_utf8(n[b]@),
            ) by {
                if a == b {
                    lemma_bytes_le_reflexive(encode_utf8(n[a]@));
                } else if b < j {
                } else if a > j {
                    assert(n[a] == sorted[a - 1] && n[b] == sorted[b - 1]);
                } else if a == j {
                    assert(n[b] == sorted[b - 1]);
                } else if b == j {
                } else {
                    assert(n[b] == sorted[b - 1]);
                    lemma_bytes_le_transitive(encode_utf8(n[a]@), encode_utf8(x@), encode_utf8(n[b]@));
                }
            }
            vstd::seq_lib::to_multiset_insert(sorted, j as int, x);
            vstd::seq_lib::to_multiset_build(v@, x);
            assert(n.to_multiset() == sorted.to_multiset().insert(x));
            assert(before.to_multiset() == v@.to_multiset().insert(x));
            assert(n.to_multiset().add(v@.to_multiset()) =~= orig.to_multiset());
        }
    }
    proof {
        assert(v@.to_multiset() =~= Multiset::<String>::empty());
        assert(out@.to_multiset() =~= orig.to_multiset());
    }
    *v = out;
}

pub(crate) fn bytes_le_exec(a: &[u8], b: &[u8]) -> (r: bool)
    ensures
        r == bytes_le(a@, b@),
{
    let mut i: usize = 0;
    proof {
        assert(a@.skip(0) =~= a@);
        assert(b@.skip(0) =~= b@);
    }
    while i < a.len() && i < b.len() && a[i] == b[i]
        invariant
            i <= a@.len(),
            i <= b@.len(),
            bytes_le(a@, b@) == bytes_le(a@.skip(i as int), b@.skip(i as int)),
        decreases a@.len() - i,
    {
        proof {
            assert(a@.skip(i as int).drop_first() =~= a@.skip(i as int + 1));
            assert(b@.skip(i as int).drop_first() =~= b@.skip(i as int + 1));
        }
        i = i + 1;
    }
    if i == a.len() {
        proof {
            assert(a@.skip(i as int).len() == 0);
        }
        true
    } else if i == b.len() {
        false
    } else {
        proof {
            assert(a@.skip(i as int)[0] == a@[i as int]);
            assert(b@.skip(i as int)[0] == b@[i as int]);
        }
        a[i] < b[i]
    }
}

pub(crate) proof fn lemma_bytes_le_reflexive(a: Seq<u8>)
    ensures
        bytes_le(a, a),
    decreases a.len(),
{
    if a.len() > 0 {
        lemma_bytes_le_reflexive(a.drop_first());
    }
}

pub(crate) proof fn lemma_bytes_le_antisymmetric(a: Seq<u8>, b: Seq<u8>)
    requires
        bytes_le(a, b),
        bytes_le(b, a),
    ensures
        a == b,
    decreases a.len(),
{
    if a.len() > 0 && b.len() > 0 {
        lemma_bytes_le_antisymmetric(a.drop_first(), b.drop_first());
        assert(a =~= seq![a[0]] + a.drop_first());
        assert(b =~= seq![b[0]] + b.drop_first());
    } else {
        assert(a =~= b);
    }
}

pub(crate) proof fn lemma_bytes_le_transitive(a: Seq<u8>, b: Seq<u8>, c: Seq<u8>)
    requires
        bytes_le(a, b),
        bytes_le(b, c),
    ensures
        bytes_le(a, c),
    decreases a.len(),
{
    if a.len() > 0 && b.len() > 0 && c.len() > 0 && a[0] == b[0] && b[0] == c[0] {
        lemma_bytes_le_transitive(a.drop_first(), b.drop_first(), c.drop_first());
    }
}

pub(crate) proof fn lemma_bytes_le_total(a: Seq<u8>, b: Seq<u8>)
    ensures
        bytes_le(a, b) || bytes_le(b, a),
    decreases a.len(),
{
    if a.len() > 0 && b.len() > 0 && a[0] == b[0] {
        lemma_bytes_le_total(a.drop_first(), b.drop_first());
    }
}

/// Lexicographic order of byte strings.
pub open spec fn bytes_le(a: Seq<u8>, b: Seq<u8>) -> bool
    decreases a.len(),
{
    if a.len() == 0 {
        true
    } else if b.len() == 0 {
        false
    } else if a[0] != b[0] {
        a[0] < b[0]
    } else {
        bytes_le(a.drop_first(), b.drop_first())
    }
}

/// The loaded packs after loading `pack`: a pack with its id is replaced in
/// place; otherwise a pack of its name is removed and `pack` goes last.
pub open spec fn packs_after_insert(before: Seq<MacroPack>, pack: MacroPack) -> Seq<MacroPack> {
    match first_index(pack_ids_of(before), pack.pack_id@) {
        Some(i) => before.update(i, pack),
        None => match first_index(pack_names_of(before), pack.name@) {
            Some(i) => before.remove(i).push(pack),
            None => before.push(pack),
        },
    }
}

/// The warnings of loading `pack`: none for a pack replaced by id; else a
/// replacement notice when a pack of its name was loaded, then one shadow
/// warning per macro name it shares with each remaining pack.
pub open spec fn insert_warnings(before: Seq<MacroPack>, pack: MacroPack) -> Seq<RegistryWarning> {
    match first_index(pack_ids_of(before), pack.pack_id@) {
        Some(i) => Seq::empty(),
        None => match first_index(pack_names_of(before), pack.name@) {
            Some(i) => seq![
                RegistryWarning::Replaced { name: pack.name, old_id: before[i].pack_id, new_id: pack.pack_id },
            ] + shadow_warnings(pack, before.remove(i), pack.macros@.len() as int),
            None => shadow_warnings(pack, before, pack.macros@.len() as int),
        },
    }
}

pub open spec fn names_unique(packs: Seq<MacroPack>) -> bool {
    forall|i: int, j: int| 0 <= i < j < packs.len() ==> (#[trigger] packs[i]).name@ != (#[trigger] packs[j]).name@
}

/// A pack name owns one document: loading a pack keeps the loaded names
/// distinct, given that a pack replacing one of the same id (the same
/// document) has its name.
pub proof fn law_insert_keeps_names_unique(before: Seq<MacroPack>, pack: MacroPack)
    requires
        names_unique(before),
        first_index(pack_ids_of(before), pack.pack_id@) matches Some(i) ==> before[i].name@ == pack.name@,
    ensures
        names_unique(packs_after_insert(before, pack)),
{
    let after = packs_after_insert(before, pack);
    lemma_first_index(pack_ids_of(before), pack.pack_id@);
    lemma_first_index(pack_names_of(before), pack.name@);
    match first_index(pack_ids_of(before), pack.pack_id@) {
        Some(i) => {
            assert forall|a: int, b: int| 0 <= a < b < after.len() implies (#[trigger] after[a]).name@
                != (#[trigger] after[b]).name@ by {
                assert(after[a].name@ == before[a].name@);
                assert(after[b].name@ == before[b].name@);
            }
        },
        None => match first_index(pack_names_of(before), pack.name@) {
            Some(i) => {
                let kept = before.remove(i);
                assert forall|a: int, b: int| 0 <= a < b < after.len() implies (#[trigger] after[a]).name@
                    != (#[trigger] after[b]).name@ by {
                    if b < kept.len() {
                        let oa = if a < i { a } else { a + 1 };
                        let ob = if b < i { b } else { b + 1 };
                        assert(kept[a] == before[oa]);
                        assert(kept[b] == before[ob]);
                    } else {
                        let oa = if a < i { a } else { a + 1 };
                        assert(kept[a] == before[oa]);
                        assert(pack_names_of(before)[oa] == before[oa].name@);
                        if oa != i {
                            assert(before[oa].name@ != before[i].name@);
                        }
                    }
                }
            },
            None => {
                assert forall|a: int, b: int| 0 <= a < b < after.len() implies (#[trigger] after[a]).name@
                    != (#[trigger] after[b]).name@ by {
                    if b == before.len() {
                        assert(pack_names_of(before)[a] == before[a].name@);
                    }
                }
            },
        },
    }
}

/// Every `$param` frame reference of every macro of `packs` names a declared parameter.
pub open spec fn all_frames_declared(packs: Seq<MacroPack>) -> bool {
    forall|p: int, k: int|
        0 <= p < packs.len() && 0 <= k < packs[p].macros@.len() ==> frame_refs_declared(
            #[trigger] packs[p].macros@[k],
        )
}

proof fn lemma_frame_issues_empty(m: RawMacro, steps: Seq<StepSpec>, n: int)
    requires
        0 <= n <= steps.len(),
        frames_issues_upto(m, steps, n).len() == 0,
    ensures
        forall|i: int|
            0 <= i < n ==> ((#[trigger] steps[i]).frames matches FrameSpec::Param(p) ==> param_index(
                m.params@,
                p@,
            ) is Some),
    decreases n,
{
    if n > 0 {
        lemma_frame_issues_empty(m, steps, n - 1);
        assert(frame_issue(m, steps[n - 1]).len() == 0);
    }
}

proof fn lemma_macro_issues_empty(macros: Seq<RawMacro>, n: int)
    requires
        0 <= n <= macros.len(),
        macros_issues(macros, n).len() == 0,
    ensures
        forall|i: int|
            0 <= i < n ==> (#[trigger] macro_issues(macros[i], macro_names(macros.take(i)))).len() == 0,
    decreases n,
{
    if n > 0 {
        lemma_macro_issues_empty(macros, n - 1);
    }
}

/// The position `pack` takes when it is loaded into `before`.
pub open spec fn insert_position(before: Seq<MacroPack>, pack: MacroPack) -> int {
    match first_index(pack_ids_of(before), pack.pack_id@) {
        Some(i) => i,
        None => match first_index(pack_names_of(before), pack.name@) {
            Some(i) => before.len() - 1,
            None => before.len() as int,
        },
    }
}

proof fn lemma_found_at(packs: Seq<MacroPack>, key: Seq<char>, p: int)
    requires
        0 <= p < packs.len(),
        packs[p].name@ == key || packs[p].pack_id@ == key,
        forall|k: int| 0 <= k < p ==> !(packs[k].name@ == key || packs[k].pack_id@ == key),
    ensures
        lookup_position(packs, key) == Some(p),
{
    lemma_lookup_position(packs, key);
}

/// A loaded pack is found again by its name and by its id, given that the
/// loaded names are distinct, that a pack replacing one of the same id has
/// its name, and that no other pack's name or id is the new pack's name or
/// id.
pub proof fn law_loaded_pack_is_found(before: Seq<MacroPack>, pack: MacroPack)
    requires
        names_unique(before),
        first_index(pack_ids_of(before), pack.pack_id@) matches Some(i) ==> before[i].name@ == pack.name@,
        forall|k: int| 0 <= k < before.len() ==> (#[trigger] before[k]).pack_id@ != pack.name@,
        forall|k: int| 0 <= k < before.len() ==> (#[trigger] before[k]).name@ != pack.pack_id@,
    ensures
        ({
            let after = packs_after_insert(before, pack);
            let p = insert_position(before, pack);
            &&& 0 <= p < after.len()
            &&& after[p] == pack
            &&& lookup_position(after, pack.name@) == Some(p)
            &&& lookup_position(after, pack.pack_id@) == Some(p)
        }),
{
    let after = packs_after_insert(before, pack);
    let p = insert_position(before, pack);
    lemma_first_index(pack_ids_of(before), pack.pack_id@);
    lemma_first_index(pack_names_of(before), pack.name@);
    match first_index(pack_ids_of(before), pack.pack_id@) {
        Some(i) => {
            assert forall|k: int| 0 <= k < p implies !(after[k].name@ == pack.name@ || after[k].pack_id@
                == pack.name@) by {
                assert(after[k] == before[k]);
                assert(before[k].name@ != before[i].name@);
            }
            assert forall|k: int| 0 <= k < p implies !(after[k].name@ == pack.pack_id@ || after[k].pack_id@
                == pack.pack_id@) by {
                assert(after[k] == before[k]);
                assert(pack_ids_of(before)[k] == before[k].pack_id@);
            }
        },
        None => {
            let kept = match first_index(pack_names_of(before), pack.name@) {
                Some(i) => before.remove(i),
                None => before,
            };
            assert(after =~= kept.push(pack));
            assert forall|k: int| 0 <= k < p implies !(after[k].name@ == pack.name@ || after[k].pack_id@
                == pack.name@) && !(after[k].name@ == pack.pack_id@ || after[k].pack_id@ == pack.pack_id@) by {
                match first_index(pack_names_of(before), pack.name@) {
                    Some(i) => {
                        let o = if k < i { k } else { k + 1 };
                        assert(after[k] == before[o]);
                        assert(pack_ids_of(before)[o] == before[o].pack_id@);
                        assert(o != i);
                        assert(before[o].name@ != before[i].name@);
                    },
                    None => {
                        assert(after[k] == before[k]);
                        assert(pack_ids_of(before)[k] == before[k].pack_id@);
                        assert(pack_names_of(before)[k] == before[k].name@);
                    },
                }
            }
        },
    }
    lemma_found_at(after, pack.name@, p);
    lemma_found_at(after, pack.pack_id@, p);
}

/// In a pack document that validation accepts, every `$param` frame count
/// of every macro names a declared parameter.
pub proof fn law_accepted_pack_frames_declared(doc: RawPack)
    requires
        pack_issues(doc).len() == 0,
    ensures
        forall|i: int| 0 <= i < doc.macros@.len() ==> frame_refs_declared(#[trigger] def_of(doc.macros@[i])),
{
    let ms = doc.macros@;
    lemma_macro_issues_empty(ms, ms.len() as int);
    assert forall|i: int| 0 <= i < ms.len() implies frame_refs_declared(#[trigger] def_of(ms[i])) by {
        let m = ms[i];
        assert(macro_issues(m, macro_names(ms.take(i))).len() == 0);
        assert(kind_issues(m).len() == 0);
        assert(frames_issues(m).len() == 0);
        if let Some(MacroSteps::Steps(st)) = raw_kind(m) {
            lemma_frame_issues_empty(m, st@, st@.len() as int);
        }
    }
}

/// Loading a pack whose macros all name declared parameters in their frame
/// counts keeps that true of every loaded macro.
pub proof fn law_insert_keeps_frames_declared(before: Seq<MacroPack>, pack: MacroPack)
    requires
        all_frames_declared(before),
        forall|k: int| 0 <= k < pack.macros@.len() ==> frame_refs_declared(#[trigger] pack.macros@[k]),
    ensures
        all_frames_declared(packs_after_insert(before, pack)),
{
    let after = packs_after_insert(before, pack);
    lemma_first_index(pack_ids_of(before), pack.pack_id@);
    lemma_first_index(pack_names_of(before), pack.name@);
    assert forall|p: int, k: int| 0 <= p < after.len() && 0 <= k < after[p].macros@.len() implies frame_refs_declared(
        #[trigger] after[p].macros@[k],
    ) by {
        match first_index(pack_ids_of(before), pack.pack_id@) {
            Some(i) => {
                if p != i {
                    assert(after[p] == before[p]);
                }
            },
            None => match first_index(pack_names_of(before), pack.name@) {
                Some(i) => {
                    if p < before.len() - 1 {
                        let o = if p < i { p } else { p + 1 };
                        assert(after[p] == before[o]);
                    }
                },
                None => {
                    if p < before.len() {
                        assert(after[p] == before[p]);
                    }
                },
            },
        }
    }
}

impl PackRegistry {
    /// The loaded packs, in load order.
    pub closed spec fn packs(&self) -> Seq<MacroPack> {
        self.packs@
    }

    pub fn new() -> (r: Self)
        ensures
            r.packs() == Seq::<MacroPack>::empty(),
    {
        PackRegistry { packs: Vec::new() }
    }

    /// Load a pack. A pack with the same id replaces the loaded one in place,
    /// silently. Otherwise a loaded pack of the same name is removed (with a
    /// warning), a warning is given for each macro of the new pack whose name
    /// a remaining pack also uses, and the pack goes last.
    pub fn insert(&mut self, pack: MacroPack) -> (warnings: Vec<RegistryWarning>)
        ensures
            final(self).packs() == packs_after_insert(old(self).packs(), pack),
            warnings@ == insert_warnings(old(self).packs(), pack),
    {
        let ghost before = self.packs@;
        if let Some(idx) = position_by_id(&self.packs, &pack.pack_id) {
            proof {
                lemma_first_index(pack_ids_of(before), pack.pack_id@);
            }
            self.packs.set(idx, pack);
            return Vec::new();
        }
        let mut warnings: Vec<RegistryWarning> = Vec::new();
        if let Some(idx) = position_by_name(&self.packs, &pack.name) {
            proof {
                lemma_first_index(pack_names_of(before), pack.name@);
            }
            warnings.push(
                RegistryWarning::Replaced {
                    name: pack.name.clone(),
                    old_id: self.packs[idx].pack_id.clone(),
                    new_id: pack.pack_id.clone(),
                },
            );
            self.packs.remove(idx);
        }
        let ghost kept = self.packs@;
        let ghost head = warnings@;
        let mut mi: usize = 0;
        while mi < pack.macros.len()
            invariant
                mi <= pack.macros@.len(),
                self.packs@ == kept,
                warnings@ == head + shadow_warnings(pack, kept, mi as int),
            decreases pack.macros@.len() - mi,
        {
            let m = &pack.macros[mi];
            let ghost mid = warnings@;
            let mut oi: usize = 0;
            while oi < self.packs.len()
                invariant
                    oi <= kept.len(),
                    mi < pack.macros@.len(),
                    *m == pack.macros@[mi as int],
                    self.packs@ == kept,
                    warnings@ == mid + shadows_of(*m, kept, oi as int),
                decreases kept.len() - oi,
            {
                if has_macro(&self.packs[oi], &m.name) {
                    warnings.push(
                        RegistryWarning::Shadows { macro_name: m.name.clone(), other_pack: self.packs[oi].name.clone() },
                    );
                }
                proof {
                    assert(warnings@ =~= mid + shadows_of(*m, kept, oi as int + 1));
                }
                oi = oi + 1;
            }
            proof {
                assert(warnings@ =~= head + shadow_warnings(pack, kept, mi as int + 1));
            }
            mi = mi + 1;
        }
        self.packs.push(pack);
        proof {
            assert(head.len() == 0 ==> head + shadow_warnings(pack, kept, pack.macros@.len() as int)
                =~= shadow_warnings(pack, kept, pack.macros@.len() as int));
        }
        warnings
    }

    /// The first loaded pack whose declared name or id is `name_or_id`.
    pub fn get(&self, name_or_id: &str) -> (r: Option<&MacroPack>)
        ensures
            match lookup_position(self.packs(), name_or_id@) {
                Some(i) => r == Some(&self.packs()[i]),
                None => r is None,
            },
    {
        let key = name_or_id.to_owned();
        proof {
            lemma_lookup_position(self.packs@, name_or_id@);
        }
        let mut i: usize = 0;
        while i < self.packs.len()
            invariant
                i <= self.packs@.len(),
                key@ == name_or_id@,
                forall|k: int|
                    0 <= k < i ==> !(self.packs@[k].name@ == key@ || self.packs@[k].pack_id@ == key@),
                lookup_position(self.packs@, key@) matches Some(j) ==> 0 <= j < self.packs@.len() && (
                self.packs@[j].name@ == key@ || self.packs@[j].pack_id@ == key@) && forall|k: int|
                    0 <= k < j ==> !(self.packs@[k].name@ == key@ || self.packs@[k].pack_id@ == key@),
                lookup_position(self.packs@, key@) is None ==> forall|k: int|
                    0 <= k < self.packs@.len() ==> !(self.packs@[k].name@ == key@ || self.packs@[k].pack_id@
                        == key@),
            decreases self.packs@.len() - i,
        {
            if self.packs[i].name == key || self.packs[i].pack_id == key {
                proof {
                    let j = lookup_position(self.packs@, key@)->Some_0;
                    if j > i {
                        assert(!(self.packs@[i as int].name@ == key@ || self.packs@[i as int].pack_id@ == key@));
                    }
                }
                return Some(&self.packs[i]);
            }
            i = i + 1;
        }
        proof {
            if lookup_position(self.packs@, key@) is Some {
                let j = lookup_position(self.packs@, key@)->Some_0;
                assert(!(self.packs@[j].name@ == key@ || self.packs@[j].pack_id@ == key@));
            }
        }
        None
    }

    /// The ids of the loaded packs, in ascending order.
    pub fn pack_ids(&self) -> (ids: Vec<String>)
        ensures
            ids@.to_multiset() == self.packs().map_values(|p: MacroPack| p.pack_id).to_multiset(),
            forall|i: int, j: int|
                0 <= i <= j < ids@.len() ==> bytes_le(encode_utf8(ids@[i]@), encode_utf8(ids@[j]@)),
    {
        let mut ids: Vec<String> = Vec::new();
        let mut i: usize = 0;
        while i < self.packs.len()
            invariant
                i <= self.packs@.len(),
                ids@ == self.packs@.take(i as int).map_values(|p: MacroPack| p.pack_id),
            decreases self.packs@.len() - i,
        {
            ids.push(self.packs[i].pack_id.clone());
            proof {
                assert(self.packs@.take(i as int + 1) =~= self.packs@.take(i as int).push(self.packs@[i as int]));
                assert(ids@ =~= self.packs@.take(i as int + 1).map_values(|p: MacroPack| p.pack_id));
            }
            i = i + 1;
        }
        proof {
            assert(self.packs@.take(i as int) =~= self.packs@);
        }
        sort_strings(&mut ids);
        ids
    }
}


// ---------------------------------------------------------------------
// Resolution against the experiment's button alphabet
// ---------------------------------------------------------------------

/// Why the configured packs could not be resolved.
#[derive(Clone, Debug, PartialEq)]
pub enum ResolveError {
    PackNotLoaded(String),
    AlphabetMismatch { pack: String, pack_alphabet: String, cfg_alphabet: String },
    UnresolvableButton { macro_name: String, button: String },
}

#[derive(Clone, Debug, PartialEq)]
pub enum FrameBinding {
    Literal(u32),
    /// Index into the macro's declared parameters.
    Param(usize),
}

#[derive(Clone, Debug, PartialEq)]
pub struct ResolvedStep {
    pub static_mask: u16,
    /// Indices of the enum parameters whose mirrored button joins the mask.
    pub enum_contribs: Vec<usize>,
    pub frames: FrameBinding,
}

#[derive(Clone, Debug, PartialEq)]
pub struct ResolvedTokenStep {
    pub static_mask: u16,
    pub enum_contribs: Vec<usize>,
    pub dur_bucket: u8,
}

#[derive(Clone, Debug, PartialEq)]
pub enum ResolvedKind {
    Steps(Vec<ResolvedStep>),
    TokenSteps(Vec<ResolvedTokenStep>),
}

/// The button bit each value of one enum parameter mirrors to.
#[derive(Debug)]
pub struct ResolvedMirror {
    pub param_idx: usize,
    pub values: IndexMap<String, u16>,
}

/// A macro bound to bits of the experiment's alphabet.
#[derive(Debug)]
pub struct ResolvedMacro {
    pub name: String,
    pub weight_bits: u64,
    pub pack_id: String,
    pub params: Vec<ParamDef>,
    pub eligibility: Vec<Predicate>,
    pub kind: ResolvedKind,
    pub mirrors: Vec<ResolvedMirror>,
}

/// The eligible macro candidates of a request.
#[derive(Debug)]
pub struct ResolvedMacros {
    pub items: Vec<ResolvedMacro>,
}

/// The single-bit mask of a declared button.
pub open spec fn button_mask(alphabet: ButtonAlphabet, name: Seq<char>) -> Option<u16> {
    match spec_bit(alphabet.buttons@, name) {
        Some(b) => Some(1u16 << b),
        None => None,
    }
}

/// The first `n` held names: parameters give enum contributions, the rest
/// must be buttons; the first name that is neither is the error.
pub open spec fn names_resolution(
    params: Seq<ParamDef>,
    alphabet: ButtonAlphabet,
    names: Seq<String>,
    n: int,
) -> Result<(u16, Seq<usize>), Seq<char>>
    decreases n,
{
    if n <= 0 {
        Ok((0u16, Seq::empty()))
    } else {
        match names_resolution(params, alphabet, names, n - 1) {
            Err(e) => Err(e),
            Ok((mask, contribs)) => match param_index(params, names[n - 1]@) {
                Some(j) => Ok((mask, contribs.push(j as usize))),
                None => match button_mask(alphabet, names[n - 1]@) {
                    Some(b) => Ok((mask | b, contribs)),
                    None => Err(names[n - 1]@),
                },
            },
        }
    }
}

/// Value -> bit entries of one mirrored enum parameter (its first `k`
/// values); the first mirrored button that is not declared is the error.
pub open spec fn mirror_resolution(
    alphabet: ButtonAlphabet,
    values: Seq<String>,
    inner: Seq<(Seq<char>, Seq<char>)>,
    k: int,
) -> Result<Seq<(Seq<char>, u16)>, Seq<char>>
    decreases k,
{
    if k <= 0 {
        Ok(Seq::empty())
    } else {
        match mirror_resolution(alphabet, values, inner, k - 1) {
            Err(e) => Err(e),
            Ok(e) => match entry_lookup(inner, values[k - 1]@) {
                None => Ok(e),
                Some(button) => match button_mask(alphabet, button) {
                    Some(bit) => Ok(inserted(e, values[k - 1]@, bit)),
                    None => Err(button),
                },
            },
        }
    }
}

/// The resolved mirrors of the first `n` parameters: one per enum parameter
/// that has a mirror map, in parameter order.
pub open spec fn mirrors_resolution(m: MacroDef, alphabet: ButtonAlphabet, n: int) -> Result<
    Seq<(int, Seq<(Seq<char>, u16)>)>,
    Seq<char>,
>
    decreases n,
{
    if n <= 0 {
        Ok(Seq::empty())
    } else {
        match mirrors_resolution(m, alphabet, n - 1) {
            Err(e) => Err(e),
            Ok(list) => match m.params@[n - 1].domain {
                ParamDomain::Enum(values) => match entry_lookup(mirror_entries(m.mirror), m.params@[n - 1].name@) {
                    Some(inner) => match mirror_resolution(alphabet, values@, inner, values@.len() as int) {
                        Ok(e) => Ok(list.push((n - 1, e))),
                        Err(b) => Err(b),
                    },
                    None => Ok(list),
                },
                _ => Ok(list),
            },
        }
    }
}

pub open spec fn frame_binding(params: Seq<ParamDef>, f: FrameSpec) -> FrameBinding {
    match f {
        FrameSpec::Literal(n) => FrameBinding::Literal(n),
        FrameSpec::Param(p) => FrameBinding::Param(param_index(params, p@)->Some_0 as usize),
    }
}

pub open spec fn steps_resolution(m: MacroDef, alphabet: ButtonAlphabet, steps: Seq<StepSpec>, n: int) -> Result<
    Seq<(u16, Seq<usize>, FrameBinding)>,
    Seq<char>,
>
    decreases n,
{
    if n <= 0 {
        Ok(Seq::empty())
    } else {
        match steps_resolution(m, alphabet, steps, n - 1) {
            Err(e) => Err(e),
            Ok(list) => match names_resolution(m.params@, alphabet, steps[n - 1].hold@, steps[n - 1].hold@.len() as int) {
                Err(e) => Err(e),
                Ok((mask, contribs)) => Ok(list.push((mask, contribs, frame_binding(m.params@, steps[n - 1].frames)))),
            },
        }
    }
}

pub open spec fn token_steps_resolution(
    m: MacroDef,
    alphabet: ButtonAlphabet,
    ts: Seq<TokenStepSpec>,
    n: int,
) -> Result<Seq<(u16, Seq<usize>, u8)>, Seq<char>>
    decreases n,
{
    if n <= 0 {
        Ok(Seq::empty())
    } else {
        match token_steps_resolution(m, alphabet, ts, n - 1) {
            Err(e) => Err(e),
            Ok(list) => match names_resolution(m.params@, alphabet, ts[n - 1].mask@, ts[n - 1].mask@.len() as int) {
                Err(e) => Err(e),
                Ok((mask, contribs)) => Ok(list.push((mask, contribs, ts[n - 1].dur_bucket))),
            },
        }
    }
}

/// The first button name of a macro that the alphabet does not declare, in
/// the order resolution meets them: mirrors first, then the steps.
pub open spec fn unresolvable_button(m: MacroDef, alphabet: ButtonAlphabet) -> Option<Seq<char>> {
    match mirrors_resolution(m, alphabet, m.params@.len() as int) {
        Err(b) => Some(b),
        Ok(_) => match m.kind {
            MacroSteps::Steps(st) => match steps_resolution(m, alphabet, st@, st@.len() as int) {
                Err(b) => Some(b),
                Ok(_) => None,
            },
            MacroSteps::TokenSteps(ts) => match token_steps_resolution(m, alphabet, ts@, ts@.len() as int) {
                Err(b) => Some(b),
                Ok(_) => None,
            },
        },
    }
}

pub open spec fn step_matches(r: ResolvedStep, t: (u16, Seq<usize>, FrameBinding)) -> bool {
    r.static_mask == t.0 && r.enum_contribs@ == t.1 && r.frames == t.2
}

pub open spec fn token_step_matches(r: ResolvedTokenStep, t: (u16, Seq<usize>, u8)) -> bool {
    r.static_mask == t.0 && r.enum_contribs@ == t.1 && r.dur_bucket == t.2
}

pub open spec fn mirror_matches(r: ResolvedMirror, t: (int, Seq<(Seq<char>, u16)>)) -> bool {
    r.param_idx == t.0 && bit_map_entries(r.values) == t.1
}

/// `r` is macro `m` of pack `pack_id` resolved against `alphabet`.
pub open spec fn resolved_from(r: ResolvedMacro, m: MacroDef, pack_id: String, alphabet: ButtonAlphabet) -> bool {
    &&& r.name == m.name
    &&& r.weight_bits == m.weight_bits
    &&& r.pack_id == pack_id
    &&& same_params(r.params@, m.params@)
    &&& r.eligibility@ == m.eligibility@
    &&& (mirrors_resolution(m, alphabet, m.params@.len() as int) matches Ok(mirs) && r.mirrors@.len() == mirs.len()
        && forall|i: int| 0 <= i < mirs.len() ==> #[trigger] mirror_matches(r.mirrors@[i], mirs[i]))
    &&& match m.kind {
        MacroSteps::Steps(st) => r.kind matches ResolvedKind::Steps(rs) && (steps_resolution(
            m,
            alphabet,
            st@,
            st@.len() as int,
        ) matches Ok(l) && rs@.len() == l.len() && forall|i: int|
            0 <= i < l.len() ==> #[trigger] step_matches(rs@[i], l[i])),
        MacroSteps::TokenSteps(ts) => r.kind matches ResolvedKind::TokenSteps(rs) && (token_steps_resolution(
            m,
            alphabet,
            ts@,
            ts@.len() as int,
        ) matches Ok(l) && rs@.len() == l.len() && forall|i: int|
            0 <= i < l.len() ==> #[trigger] token_step_matches(rs@[i], l[i])),
    }
}

/// Every `$param` frame reference of a macro names a declared parameter
/// (validation guarantees it for loaded packs).
pub open spec fn frame_refs_declared(m: MacroDef) -> bool {
    m.kind matches MacroSteps::Steps(st) ==> forall|i: int|
        0 <= i < st@.len() ==> ((#[trigger] st@[i]).frames matches FrameSpec::Param(p) ==> param_index(
            m.params@,
            p@,
        ) is Some)
}

fn button_bit_mask(alphabet: &ButtonAlphabet, name: &str) -> (r: Option<u16>)
    requires
        alphabet.bits_ok(),
    ensures
        r == button_mask(*alphabet, name@),
{
    match alphabet.bit(name) {
        Some(b) => {
            proof {
                lemma_spec_bit_in_range(alphabet.buttons@, name@);
            }
            Some(1u16 << b)
        },
        None => None,
    }
}

fn resolve_names(params: &Vec<ParamDef>, alphabet: &ButtonAlphabet, names: &Vec<String>) -> (r: Result<
    (u16, Vec<usize>),
    String,
>)
    requires
        alphabet.bits_ok(),
    ensures
        match names_resolution(params@, *alphabet, names@, names@.len() as int) {
            Ok((mask, contribs)) => r matches Ok((m2, c2)) && m2 == mask && c2@ == contribs,
            Err(b) => r matches Err(s) && s@ == b,
        },
{
    let mut mask: u16 = 0;
    let mut contribs: Vec<usize> = Vec::new();
    let mut k: usize = 0;
    while k < names.len()
        invariant
            k <= names@.len(),
            alphabet.bits_ok(),
            names_resolution(params@, *alphabet, names@, k as int) == Ok::<(u16, Seq<usize>), Seq<char>>(
                (mask, contribs@),
            ),
        decreases names@.len() - k,
    {
        match find_param(params, &names[k]) {
            Some(j) => {
                contribs.push(j);
            },
            None => match button_bit_mask(alphabet, names[k].as_str()) {
                Some(b) => {
                    mask = mask | b;
                },
                None => {
                    proof {
                        lemma_names_resolution_err(params@, *alphabet, names@, k as int + 1);
                    }
                    return Err(names[k].clone());
                },
            },
        }
        k = k + 1;
    }
    Ok((mask, contribs))
}

proof fn lemma_names_resolution_err(params: Seq<ParamDef>, alphabet: ButtonAlphabet, names: Seq<String>, n: int)
    requires
        0 <= n <= names.len(),
        names_resolution(params, alphabet, names, n) is Err,
    ensures
        names_resolution(params, alphabet, names, names.len() as int) == names_resolution(params, alphabet, names, n),
    decreases names.len() - n,
{
    if n < names.len() {
        lemma_names_resolution_err(params, alphabet, names, n + 1);
    }
}


proof fn lemma_mirror_resolution_err(
    alphabet: ButtonAlphabet,
    values: Seq<String>,
    inner: Seq<(Seq<char>, Seq<char>)>,
    k: int,
)
    requires
        0 <= k <= values.len(),
        mirror_resolution(alphabet, values, inner, k) is Err,
    ensures
        mirror_resolution(alphabet, values, inner, values.len() as int) == mirror_resolution(alphabet, values, inner, k),
    decreases values.len() - k,
{
    if k < values.len() {
        lemma_mirror_resolution_err(alphabet, values, inner, k + 1);
    }
}

proof fn lemma_mirrors_resolution_err(m: MacroDef, alphabet: ButtonAlphabet, n: int)
    requires
        0 <= n <= m.params@.len(),
        mirrors_resolution(m, alphabet, n) is Err,
    ensures
        mirrors_resolution(m, alphabet, m.params@.len() as int) == mirrors_resolution(m, alphabet, n),
    decreases m.params@.len() - n,
{
    if n < m.params@.len() {
        lemma_mirrors_resolution_err(m, alphabet, n + 1);
    }
}

proof fn lemma_steps_resolution_err(m: MacroDef, alphabet: ButtonAlphabet, steps: Seq<StepSpec>, n: int)
    requires
        0 <= n <= steps.len(),
        steps_resolution(m, alphabet, steps, n) is Err,
    ensures
        steps_resolution(m, alphabet, steps, steps.len() as int) == steps_resolution(m, alphabet, steps, n),
    decreases steps.len() - n,
{
    if n < steps.len() {
        lemma_steps_resolution_err(m, alphabet, steps, n + 1);
    }
}

proof fn lemma_token_steps_resolution_err(m: MacroDef, alphabet: ButtonAlphabet, ts: Seq<TokenStepSpec>, n: int)
    requires
        0 <= n <= ts.len(),
        token_steps_resolution(m, alphabet, ts, n) is Err,
    ensures
        token_steps_resolution(m, alphabet, ts, ts.len() as int) == token_steps_resolution(m, alphabet, ts, n),
    decreases ts.len() - n,
{
    if n < ts.len() {
        lemma_token_steps_resolution_err(m, alphabet, ts, n + 1);
    }
}

fn resolve_mirror_values(alphabet: &ButtonAlphabet, values: &Vec<String>, map: &IndexMap<String, String>) -> (r: Result<
    IndexMap<String, u16>,
    String,
>)
    requires
        alphabet.bits_ok(),
    ensures
        match mirror_resolution(*alphabet, values@, name_map_entries(*map), values@.len() as int) {
            Ok(e) => r matches Ok(rv) && bit_map_entries(rv) == e,
            Err(b) => r matches Err(s) && s@ == b,
        },
{
    let ghost inner = name_map_entries(*map);
    let mut rv = bit_map_new();
    let mut k: usize = 0;
    while k < values.len()
        invariant
            k <= values@.len(),
            alphabet.bits_ok(),
            inner == name_map_entries(*map),
            mirror_resolution(*alphabet, values@, inner, k as int) == Ok::<Seq<(Seq<char>, u16)>, Seq<char>>(
                bit_map_entries(rv),
            ),
        decreases values@.len() - k,
    {
        match name_map_get(map, values[k].as_str()) {
            None => {},
            Some(button) => match button_bit_mask(alphabet, button.as_str()) {
                Some(bit) => {
                    bit_map_insert(&mut rv, values[k].clone(), bit);
                },
                None => {
                    proof {
                        lemma_mirror_resolution_err(*alphabet, values@, inner, k as int + 1);
                    }
                    return Err(button.clone());
                },
            },
        }
        k = k + 1;
    }
    Ok(rv)
}

fn resolve_mirrors(m: &MacroDef, alphabet: &ButtonAlphabet) -> (r: Result<Vec<ResolvedMirror>, String>)
    requires
        alphabet.bits_ok(),
    ensures
        match mirrors_resolution(*m, *alphabet, m.params@.len() as int) {
            Ok(mirs) => r matches Ok(rm) && rm@.len() == mirs.len() && forall|i: int|
                0 <= i < mirs.len() ==> #[trigger] mirror_matches(rm@[i], mirs[i]),
            Err(b) => r matches Err(s) && s@ == b,
        },
{
    let mut out: Vec<ResolvedMirror> = Vec::new();
    let mut j: usize = 0;
    while j < m.params.len()
        invariant
            j <= m.params@.len(),
            alphabet.bits_ok(),
            mirrors_resolution(*m, *alphabet, j as int) matches Ok(mirs) && out@.len() == mirs.len() && forall|i: int|
                0 <= i < mirs.len() ==> #[trigger] mirror_matches(out@[i], mirs[i]),
        decreases m.params@.len() - j,
    {
        let p = &m.params[j];
        let ghost prev = mirrors_resolution(*m, *alphabet, j as int)->Ok_0;
        if let ParamDomain::Enum(values) = &p.domain {
            if let Some(map) = mirror_get(&m.mirror, p.name.as_str()) {
                match resolve_mirror_values(alphabet, values, map) {
                    Ok(rv) => {
                        out.push(ResolvedMirror { param_idx: j, values: rv });
                        proof {
                            let now = mirrors_resolution(*m, *alphabet, j as int + 1)->Ok_0;
                            assert(now == prev.push((j as int, bit_map_entries(rv))));
                            assert forall|i: int| 0 <= i < now.len() implies #[trigger] mirror_matches(
                                out@[i],
                                now[i],
                            ) by {
                                if i < prev.len() {
                                    assert(mirror_matches(out@[i], prev[i]));
                                }
                            }
                        }
                    },
                    Err(b) => {
                        proof {
                            lemma_mirrors_resolution_err(*m, *alphabet, j as int + 1);
                        }
                        return Err(b);
                    },
                }
            }
        }
        j = j + 1;
    }
    Ok(out)
}

fn bind_frames(params: &Vec<ParamDef>, f: &FrameSpec) -> (r: FrameBinding)
    requires
        f matches FrameSpec::Param(p) ==> param_index(params@, p@) is Some,
    ensures
        r == frame_binding(params@, *f),
{
    match f {
        FrameSpec::Literal(n) => FrameBinding::Literal(*n),
        FrameSpec::Param(p) => match find_param(params, p) {
            Some(j) => FrameBinding::Param(j),
            None => FrameBinding::Param(0),
        },
    }
}

fn resolve_steps(m: &MacroDef, alphabet: &ButtonAlphabet, steps: &Vec<StepSpec>) -> (r: Result<Vec<ResolvedStep>, String>)
    requires
        alphabet.bits_ok(),
        m.kind == MacroSteps::Steps(*steps),
        frame_refs_declared(*m),
    ensures
        match steps_resolution(*m, *alphabet, steps@, steps@.len() as int) {
            Ok(l) => r matches Ok(rs) && rs@.len() == l.len() && forall|i: int|
                0 <= i < l.len() ==> #[trigger] step_matches(rs@[i], l[i]),
            Err(b) => r matches Err(s) && s@ == b,
        },
{
    let mut out: Vec<ResolvedStep> = Vec::new();
    let mut k: usize = 0;
    while k < steps.len()
        invariant
            k <= steps@.len(),
            alphabet.bits_ok(),
            m.kind == MacroSteps::Steps(*steps),
            frame_refs_declared(*m),
            steps_resolution(*m, *alphabet, steps@, k as int) matches Ok(l) && out@.len() == l.len() && forall|i: int|
                0 <= i < l.len() ==> #[trigger] step_matches(out@[i], l[i]),
        decreases steps@.len() - k,
    {
        let ghost prev = steps_resolution(*m, *alphabet, steps@, k as int)->Ok_0;
        match resolve_names(&m.params, alphabet, &steps[k].hold) {
            Ok((static_mask, enum_contribs)) => {
                proof {
                    assert(steps@[k as int].frames matches FrameSpec::Param(p) ==> param_index(m.params@, p@) is Some);
                }
                let frames = bind_frames(&m.params, &steps[k].frames);
                out.push(ResolvedStep { static_mask, enum_contribs, frames });
                proof {
                    let now = steps_resolution(*m, *alphabet, steps@, k as int + 1)->Ok_0;
                    assert forall|i: int| 0 <= i < now.len() implies #[trigger] step_matches(out@[i], now[i]) by {
                        if i < prev.len() {
                            assert(step_matches(out@[i], prev[i]));
                        }
                    }
                }
            },
            Err(b) => {
                proof {
                    lemma_steps_resolution_err(*m, *alphabet, steps@, k as int + 1);
                }
                return Err(b);
            },
        }
        k = k + 1;
    }
    Ok(out)
}

fn resolve_token_steps(m: &MacroDef, alphabet: &ButtonAlphabet, ts: &Vec<TokenStepSpec>) -> (r: Result<
    Vec<ResolvedTokenStep>,
    String,
>)
    requires
        alphabet.bits_ok(),
    ensures
        match token_steps_resolution(*m, *alphabet, ts@, ts@.len() as int) {
            Ok(l) => r matches Ok(rs) && rs@.len() == l.len() && forall|i: int|
                0 <= i < l.len() ==> #[trigger] token_step_matches(rs@[i], l[i]),
            Err(b) => r matches Err(s) && s@ == b,
        },
{
    let mut out: Vec<ResolvedTokenStep> = Vec::new();
    let mut k: usize = 0;
    while k < ts.len()
        invariant
            k <= ts@.len(),
            alphabet.bits_ok(),
            token_steps_resolution(*m, *alphabet, ts@, k as int) matches Ok(l) && out@.len() == l.len() && forall|i: int|
                0 <= i < l.len() ==> #[trigger] token_step_matches(out@[i], l[i]),
        decreases ts@.len() - k,
    {
        let ghost prev = token_steps_resolution(*m, *alphabet, ts@, k as int)->Ok_0;
        match resolve_names(&m.params, alphabet, &ts[k].mask) {
            Ok((static_mask, enum_contribs)) => {
                out.push(ResolvedTokenStep { static_mask, enum_contribs, dur_bucket: ts[k].dur_bucket });
                proof {
                    let now = token_steps_resolution(*m, *alphabet, ts@, k as int + 1)->Ok_0;
                    assert forall|i: int| 0 <= i < now.len() implies #[trigger] token_step_matches(out@[i], now[i]) by {
                        if i < prev.len() {
                            assert(token_step_matches(out@[i], prev[i]));
                        }
                    }
                }
            },
            Err(b) => {
                proof {
                    lemma_token_steps_resolution_err(*m, *alphabet, ts@, k as int + 1);
                }
                return Err(b);
            },
        }
        k = k + 1;
    }
    Ok(out)
}

/// Bind one macro of a pack to bits of `alphabet`: mirrors first, then the
/// steps; the first button name the alphabet does not declare is the error.
pub fn resolve_macro(m: &MacroDef, pack_id: &String, alphabet: &ButtonAlphabet) -> (r: Result<ResolvedMacro, ResolveError>)
    requires
        alphabet.bits_ok(),
        frame_refs_declared(*m),
    ensures
        match unresolvable_button(*m, *alphabet) {
            Some(b) => r matches Err(ResolveError::UnresolvableButton { macro_name, button }) && macro_name
                == m.name && button@ == b,
            None => r matches Ok(rm) && resolved_from(rm, *m, *pack_id, *alphabet),
        },
{
    let mirrors = match resolve_mirrors(m, alphabet) {
        Ok(v) => v,
        Err(b) => {
            return Err(ResolveError::UnresolvableButton { macro_name: m.name.clone(), button: b });
        },
    };
    let kind = match &m.kind {
        MacroSteps::Steps(st) => match resolve_steps(m, alphabet, st) {
            Ok(v) => ResolvedKind::Steps(v),
            Err(b) => {
                return Err(ResolveError::UnresolvableButton { macro_name: m.name.clone(), button: b });
            },
        },
        MacroSteps::TokenSteps(ts) => match resolve_token_steps(m, alphabet, ts) {
            Ok(v) => ResolvedKind::TokenSteps(v),
            Err(b) => {
                return Err(ResolveError::UnresolvableButton { macro_name: m.name.clone(), button: b });
            },
        },
    };
    Ok(
        ResolvedMacro {
            name: m.name.clone(),
            weight_bits: m.weight_bits,
            pack_id: pack_id.clone(),
            params: copy_params(&m.params),
            eligibility: copy_predicates(&m.eligibility),
            kind,
            mirrors,
        },
    )
}

impl ResolvedMacro {
    /// The bit a bound enum value of parameter `param_idx` mirrors to, if
    /// the parameter has a mirror and the value is in it.
    pub fn mirror_bit(&self, param_idx: usize, value: &str) -> (r: Option<u16>)
        ensures
            r == mirror_bit_spec(*self, param_idx, value@),
    {
        let ghost idxs = self.mirrors@.map_values(|m: ResolvedMirror| m.param_idx);
        proof {
            lemma_first_index(idxs, param_idx);
        }
        let mut i: usize = 0;
        while i < self.mirrors.len()
            invariant
                i <= self.mirrors@.len(),
                idxs == self.mirrors@.map_values(|m: ResolvedMirror| m.param_idx),
                forall|k: int| 0 <= k < i ==> idxs[k] != param_idx,
                first_index(idxs, param_idx) matches Some(j) ==> 0 <= j < idxs.len() && idxs[j] == param_idx
                    && forall|k: int| 0 <= k < j ==> idxs[k] != param_idx,
                first_index(idxs, param_idx) is None ==> forall|k: int| 0 <= k < idxs.len() ==> idxs[k] != param_idx,
            decreases self.mirrors@.len() - i,
        {
            if self.mirrors[i].param_idx == param_idx {
                proof {
                    assert(idxs[i as int] == param_idx);
                    let j = first_index(idxs, param_idx)->Some_0;
                    if j < i {
                        assert(idxs[j] != param_idx);
                    }
                    if j > i {
                        assert(idxs[i as int] != param_idx);
                    }
                }
                return bit_map_get(&self.mirrors[i].values, value);
            }
            i = i + 1;
        }
        proof {
            if first_index(idxs, param_idx) is Some {
                let j = first_index(idxs, param_idx)->Some_0;
                assert(idxs[j] != param_idx);
            }
        }
        None
    }
}


/// Entries after inserting every macro name of pack `pi` (its first `k`
/// macros) with its `(pack, macro)` position.
pub open spec fn picks_with_pack(
    reg: Seq<MacroPack>,
    pi: usize,
    w: Seq<(Seq<char>, (usize, usize))>,
    k: int,
) -> Seq<(Seq<char>, (usize, usize))>
    decreases k,
{
    if k <= 0 {
        w
    } else {
        inserted(picks_with_pack(reg, pi, w, k - 1), reg[pi as int].macros@[k - 1].name@, (pi, (k - 1) as usize))
    }
}

/// The selected macro of each name over the first `n` configured packs: a
/// later pack's macro replaces an earlier one of the same name and keeps its
/// place; or the first configured pack that is not loaded or whose alphabet
/// differs.
pub open spec fn selection(reg: Seq<MacroPack>, packs: Seq<String>, alphabet_name: String, n: int) -> Result<
    Seq<(Seq<char>, (usize, usize))>,
    ResolveError,
>
    decreases n,
{
    if n <= 0 {
        Ok(Seq::empty())
    } else {
        match selection(reg, packs, alphabet_name, n - 1) {
            Err(e) => Err(e),
            Ok(w) => match lookup_position(reg, packs[n - 1]@) {
                None => Err(ResolveError::PackNotLoaded(packs[n - 1])),
                Some(pi) => if reg[pi].button_alphabet@ != alphabet_name@ {
                    Err(
                        ResolveError::AlphabetMismatch {
                            pack: reg[pi].name,
                            pack_alphabet: reg[pi].button_alphabet,
                            cfg_alphabet: alphabet_name,
                        },
                    )
                } else {
                    Ok(picks_with_pack(reg, pi as usize, w, reg[pi].macros@.len() as int))
                },
            },
        }
    }
}

pub open spec fn picked(reg: Seq<MacroPack>, pick: (usize, usize)) -> MacroDef {
    reg[pick.0 as int].macros@[pick.1 as int]
}

/// The first selected macro, among the first `k`, with a button the
/// alphabet does not declare.
pub open spec fn first_unresolvable(reg: Seq<MacroPack>, alphabet: ButtonAlphabet, picks: Seq<(usize, usize)>, k: int) -> Option<
    (int, Seq<char>),
>
    decreases k,
{
    if k <= 0 {
        None
    } else {
        match first_unresolvable(reg, alphabet, picks, k - 1) {
            Some(x) => Some(x),
            None => match unresolvable_button(picked(reg, picks[k - 1]), alphabet) {
                Some(b) => Some((k - 1, b)),
                None => None,
            },
        }
    }
}

pub open spec fn picks_valid(reg: Seq<MacroPack>, w: Seq<(Seq<char>, (usize, usize))>) -> bool {
    forall|i: int|
        0 <= i < w.len() ==> (#[trigger] w[i]).1.0 < reg.len() && w[i].1.1 < reg[w[i].1.0 as int].macros@.len()
}

proof fn lemma_picks_with_pack_valid(reg: Seq<MacroPack>, pi: usize, w: Seq<(Seq<char>, (usize, usize))>, k: int)
    requires
        pi < reg.len(),
        0 <= k <= reg[pi as int].macros@.len(),
        reg[pi as int].macros@.len() <= usize::MAX,
        picks_valid(reg, w),
    ensures
        picks_valid(reg, picks_with_pack(reg, pi, w, k)),
    decreases k,
{
    if k > 0 {
        lemma_picks_with_pack_valid(reg, pi, w, k - 1);
        let prev = picks_with_pack(reg, pi, w, k - 1);
        let key = reg[pi as int].macros@[k - 1].name@;
        let next = picks_with_pack(reg, pi, w, k);
        lemma_first_index(entry_keys(prev), key);
        assert forall|i: int| 0 <= i < next.len() implies (#[trigger] next[i]).1.0 < reg.len() && next[i].1.1
            < reg[next[i].1.0 as int].macros@.len() by {
            match first_index(entry_keys(prev), key) {
                Some(j) => {
                    if i != j {
                        assert(next[i] == prev[i]);
                    }
                },
                None => {
                    if i < prev.len() {
                        assert(next[i] == prev[i]);
                    }
                },
            }
        }
    }
}

proof fn lemma_first_unresolvable_some(reg: Seq<MacroPack>, alphabet: ButtonAlphabet, picks: Seq<(usize, usize)>, k: int)
    requires
        0 <= k <= picks.len(),
        first_unresolvable(reg, alphabet, picks, k) is Some,
    ensures
        first_unresolvable(reg, alphabet, picks, picks.len() as int) == first_unresolvable(reg, alphabet, picks, k),
    decreases picks.len() - k,
{
    if k < picks.len() {
        lemma_first_unresolvable_some(reg, alphabet, picks, k + 1);
    }
}

proof fn lemma_selection_err(reg: Seq<MacroPack>, packs: Seq<String>, alphabet_name: String, n: int)
    requires
        0 <= n <= packs.len(),
        selection(reg, packs, alphabet_name, n) is Err,
    ensures
        selection(reg, packs, alphabet_name, packs.len() as int) == selection(reg, packs, alphabet_name, n),
    decreases packs.len() - n,
{
    if n < packs.len() {
        lemma_selection_err(reg, packs, alphabet_name, n + 1);
    }
}

/// Whether every `$param` frame count of a macro names a declared parameter.
pub fn frame_refs_valid(m: &MacroDef) -> (r: bool)
    ensures
        r == frame_refs_declared(*m),
{
    match &m.kind {
        MacroSteps::TokenSteps(_) => true,
        MacroSteps::Steps(st) => {
            let mut i: usize = 0;
            while i < st.len()
                invariant
                    i <= st@.len(),
                    m.kind == MacroSteps::Steps(*st),
                    forall|k: int|
                        0 <= k < i ==> ((#[trigger] st@[k]).frames matches FrameSpec::Param(p) ==> param_index(
                            m.params@,
                            p@,
                        ) is Some),
                decreases st@.len() - i,
            {
                if let FrameSpec::Param(p) = &st[i].frames {
                    if find_param(&m.params, p).is_none() {
                        return false;
                    }
                }
                i = i + 1;
            }
            true
        },
    }
}

impl PackRegistry {
    /// Every `$param` frame reference of every loaded macro names a declared
    /// parameter (true of every pack that validation accepted).
    pub open spec fn frames_declared(&self) -> bool {
        all_frames_declared(self.packs())
    }

    /// Whether every `$param` frame count of every loaded macro names a
    /// declared parameter.
    pub fn frames_valid(&self) -> (r: bool)
        ensures
            r == self.frames_declared(),
    {
        let mut p: usize = 0;
        while p < self.packs.len()
            invariant
                p <= self.packs@.len(),
                forall|q: int, k: int|
                    0 <= q < p && 0 <= k < self.packs@[q].macros@.len() ==> frame_refs_declared(
                        #[trigger] self.packs@[q].macros@[k],
                    ),
            decreases self.packs@.len() - p,
        {
            let macros = &self.packs[p].macros;
            let mut k: usize = 0;
            while k < macros.len()
                invariant
                    p < self.packs@.len(),
                    *macros == self.packs@[p as int].macros,
                    k <= macros@.len(),
                    forall|q: int, j: int|
                        0 <= q < p && 0 <= j < self.packs@[q].macros@.len() ==> frame_refs_declared(
                            #[trigger] self.packs@[q].macros@[j],
                        ),
                    forall|j: int| 0 <= j < k ==> frame_refs_declared(#[trigger] macros@[j]),
                decreases macros@.len() - k,
            {
                if !frame_refs_valid(&macros[k]) {
                    return false;
                }
                k = k + 1;
            }
            p = p + 1;
        }
        true
    }

    fn position(&self, key: &String) -> (r: Option<usize>)
        ensures
            r matches Some(i) ==> lookup_position(self.packs@, key@) == Some(i as int),
            r is None ==> lookup_position(self.packs@, key@) is None,
    {
        proof {
            lemma_lookup_position(self.packs@, key@);
        }
        let mut i: usize = 0;
        while i < self.packs.len()
            invariant
                i <= self.packs@.len(),
                forall|k: int|
                    0 <= k < i ==> !(self.packs@[k].name@ == key@ || self.packs@[k].pack_id@ == key@),
                lookup_position(self.packs@, key@) matches Some(j) ==> 0 <= j < self.packs@.len() && (
                self.packs@[j].name@ == key@ || self.packs@[j].pack_id@ == key@) && forall|k: int|
                    0 <= k < j ==> !(self.packs@[k].name@ == key@ || self.packs@[k].pack_id@ == key@),
                lookup_position(self.packs@, key@) is None ==> forall|k: int|
                    0 <= k < self.packs@.len() ==> !(self.packs@[k].name@ == key@ || self.packs@[k].pack_id@
                        == key@),
            decreases self.packs@.len() - i,
        {
            if self.packs[i].name == *key || self.packs[i].pack_id == *key {
                proof {
                    let j = lookup_position(self.packs@, key@)->Some_0;
                    if j > i {
                        assert(!(self.packs@[i as int].name@ == key@ || self.packs@[i as int].pack_id@ == key@));
                    }
                }
                return Some(i);
            }
            i = i + 1;
        }
        proof {
            if lookup_position(self.packs@, key@) is Some {
                let j = lookup_position(self.packs@, key@)->Some_0;
                assert(!(self.packs@[j].name@ == key@ || self.packs@[j].pack_id@ == key@));
            }
        }
        None
    }
}

/// The `(pack, macro)` index of each selected name.
pub open spec fn selection_picks(w: Seq<(Seq<char>, (usize, usize))>) -> Seq<(usize, usize)> {
    w.map_values(|e: (Seq<char>, (usize, usize))| e.1)
}

/// What resolving the configured `packs` against the loaded `reg` gives:
/// the first configured pack that is not loaded or has another alphabet;
/// else the first selected macro with an undeclared button; else one
/// resolved macro per selected name, from the pack that wins it.
pub open spec fn resolution_is(
    reg: Seq<MacroPack>,
    packs: Seq<String>,
    alphabet: ButtonAlphabet,
    r: Result<ResolvedMacros, ResolveError>,
) -> bool {
    match selection(reg, packs, alphabet.name, packs.len() as int) {
        Err(e) => r == Err::<ResolvedMacros, ResolveError>(e),
        Ok(w) => {
            let picks = selection_picks(w);
            match first_unresolvable(reg, alphabet, picks, picks.len() as int) {
                Some((i, b)) => r matches Err(ResolveError::UnresolvableButton { macro_name, button })
                    && macro_name == picked(reg, picks[i]).name && button@ == b,
                None => r matches Ok(rms) && rms.items@.len() == picks.len() && forall|i: int|
                    0 <= i < picks.len() ==> #[trigger] resolved_from(
                        rms.items@[i],
                        picked(reg, picks[i]),
                        reg[picks[i].0 as int].pack_id,
                        alphabet,
                    ),
            }
        },
    }
}

/// Resolve the configured packs (`packs`, in configuration order) against
/// the registry into bit-level macro candidates: packs in configuration
/// order, macros in pack order, and of two macros with one name the one of
/// the pack configured later, in the place of the first. The winner is thus
/// a function of the configuration alone, never of load order.
pub fn resolve(registry: &PackRegistry, packs: &[String], alphabet: &ButtonAlphabet) -> (r: Result<
    ResolvedMacros,
    ResolveError,
>)
    requires
        alphabet.bits_ok(),
        registry.frames_declared(),
    ensures
        resolution_is(registry.packs(), packs@, *alphabet, r),
{
    let ghost reg = registry.packs@;
    let mut winners = pick_map_new();
    let mut k: usize = 0;
    while k < packs.len()
        invariant
            k <= packs@.len(),
            reg == registry.packs@,
            selection(reg, packs@, alphabet.name, k as int) == Ok::<
                Seq<(Seq<char>, (usize, usize))>,
                ResolveError,
            >(pick_map_entries(winners)),
            picks_valid(reg, pick_map_entries(winners)),
        decreases packs@.len() - k,
    {
        let pi = match registry.position(&packs[k]) {
            None => {
                proof {
                    lemma_selection_err(reg, packs@, alphabet.name, k as int + 1);
                }
                return Err(ResolveError::PackNotLoaded(packs[k].clone()));
            },
            Some(pi) => pi,
        };
        proof {
            lemma_lookup_position(reg, packs@[k as int]@);
        }
        let pack = &registry.packs[pi];
        if pack.button_alphabet != alphabet.name {
            proof {
                lemma_selection_err(reg, packs@, alphabet.name, k as int + 1);
            }
            return Err(
                ResolveError::AlphabetMismatch {
                    pack: pack.name.clone(),
                    pack_alphabet: pack.button_alphabet.clone(),
                    cfg_alphabet: alphabet.name.clone(),
                },
            );
        }
        let ghost w0 = pick_map_entries(winners);
        let mut mi: usize = 0;
        while mi < pack.macros.len()
            invariant
                mi <= pack.macros@.len(),
                pi < reg.len(),
                *pack == reg[pi as int],
                pick_map_entries(winners) == picks_with_pack(reg, pi, w0, mi as int),
            decreases pack.macros@.len() - mi,
        {
            pick_map_insert(&mut winners, pack.macros[mi].name.clone(), (pi, mi));
            mi = mi + 1;
        }
        proof {
            lemma_picks_with_pack_valid(reg, pi, w0, pack.macros@.len() as int);
        }
        k = k + 1;
    }
    let picks = pick_map_values(&winners);
    let ghost w = pick_map_entries(winners);
    let mut items: Vec<ResolvedMacro> = Vec::new();
    let mut i: usize = 0;
    while i < picks.len()
        invariant
            i <= picks@.len(),
            reg == registry.packs@,
            registry.frames_declared(),
            alphabet.bits_ok(),
            picks@ == w.map_values(|e: (Seq<char>, (usize, usize))| e.1),
            selection(reg, packs@, alphabet.name, packs@.len() as int) == Ok::<
                Seq<(Seq<char>, (usize, usize))>,
                ResolveError,
            >(w),
            picks_valid(reg, w),
            first_unresolvable(reg, *alphabet, picks@, i as int) is None,
            items@.len() == i,
            forall|q: int|
                0 <= q < i ==> #[trigger] resolved_from(
                    items@[q],
                    picked(reg, picks@[q]),
                    reg[picks@[q].0 as int].pack_id,
                    *alphabet,
                ),
        decreases picks@.len() - i,
    {
        let (pi, mi) = picks[i];
        proof {
            assert(w[i as int].1 == picks@[i as int]);
            assert(pi < reg.len() && mi < reg[pi as int].macros@.len());
            assert(frame_refs_declared(registry.packs@[pi as int].macros@[mi as int]));
        }
        match resolve_macro(&registry.packs[pi].macros[mi], &registry.packs[pi].pack_id, alphabet) {
            Ok(rm) => {
                items.push(rm);
            },
            Err(e) => {
                proof {
                    lemma_first_unresolvable_some(reg, *alphabet, picks@, i as int + 1);
                }
                return Err(e);
            },
        }
        i = i + 1;
    }
    Ok(ResolvedMacros { items })
}


/// A selection read independently of where packs sit in the registry: each
/// macro name with the macro chosen for it and the id of its pack.
pub open spec fn selection_view(reg: Seq<MacroPack>, w: Seq<(Seq<char>, (usize, usize))>) -> Seq<
    (Seq<char>, MacroDef, String),
> {
    w.map_values(|e: (Seq<char>, (usize, usize))| (e.0, picked(reg, e.1), reg[e.1.0 as int].pack_id))
}

proof fn lemma_view_keys(r1: Seq<MacroPack>, w1: Seq<(Seq<char>, (usize, usize))>, r2: Seq<MacroPack>, w2: Seq<(Seq<char>, (usize, usize))>)
    requires
        selection_view(r1, w1) == selection_view(r2, w2),
    ensures
        entry_keys(w1) == entry_keys(w2),
{
    assert(w1.len() == selection_view(r1, w1).len());
    assert(w2.len() == selection_view(r2, w2).len());
    assert forall|i: int| 0 <= i < w1.len() implies entry_keys(w1)[i] == entry_keys(w2)[i] by {
        assert(selection_view(r1, w1)[i].0 == w1[i].0);
        assert(selection_view(r2, w2)[i].0 == w2[i].0);
    }
    assert(entry_keys(w1) =~= entry_keys(w2));
}

proof fn lemma_picks_view(
    r1: Seq<MacroPack>,
    p1: usize,
    w1: Seq<(Seq<char>, (usize, usize))>,
    r2: Seq<MacroPack>,
    p2: usize,
    w2: Seq<(Seq<char>, (usize, usize))>,
    k: int,
)
    requires
        p1 < r1.len(),
        p2 < r2.len(),
        r1[p1 as int] == r2[p2 as int],
        0 <= k <= r1[p1 as int].macros@.len(),
        selection_view(r1, w1) == selection_view(r2, w2),
    ensures
        selection_view(r1, picks_with_pack(r1, p1, w1, k)) == selection_view(r2, picks_with_pack(r2, p2, w2, k)),
    decreases k,
{
    if k > 0 {
        lemma_picks_view(r1, p1, w1, r2, p2, w2, k - 1);
        let a = picks_with_pack(r1, p1, w1, k - 1);
        let b = picks_with_pack(r2, p2, w2, k - 1);
        let key = r1[p1 as int].macros@[k - 1].name@;
        lemma_view_keys(r1, a, r2, b);
        let na = picks_with_pack(r1, p1, w1, k);
        let nb = picks_with_pack(r2, p2, w2, k);
        let va = selection_view(r1, a);
        let vb = selection_view(r2, b);
        let entry = (key, picked(r1, (p1, (k - 1) as usize)), r1[p1 as int].pack_id);
        assert(picked(r2, (p2, (k - 1) as usize)) == picked(r1, (p1, (k - 1) as usize)));
        match first_index(entry_keys(a), key) {
            Some(j) => {
                lemma_first_index(entry_keys(a), key);
                assert(selection_view(r1, na) =~= va.update(j, entry));
                assert(selection_view(r2, nb) =~= vb.update(j, entry));
            },
            None => {
                assert(selection_view(r1, na) =~= va.push(entry));
                assert(selection_view(r2, nb) =~= vb.push(entry));
            },
        }
    }
}

/// Configured packs that name the same documents in two registries.
pub open spec fn same_configured_packs(r1: Seq<MacroPack>, r2: Seq<MacroPack>, packs: Seq<String>) -> bool {
    forall|k: int|
        0 <= k < packs.len() ==> match lookup_position(r1, (#[trigger] packs[k])@) {
            Some(i) => lookup_position(r2, packs[k]@) matches Some(j) && r1[i] == r2[j],
            None => lookup_position(r2, packs[k]@) is None,
        }
}

/// Resolution does not depend on load order: two registries in which every
/// configured name finds the same pack (wherever it sits) make the same
/// selection, or refuse with the same error.
pub proof fn law_resolution_ignores_load_order(
    r1: Seq<MacroPack>,
    r2: Seq<MacroPack>,
    packs: Seq<String>,
    alphabet_name: String,
    n: int,
)
    requires
        0 <= n <= packs.len(),
        same_configured_packs(r1, r2, packs),
        r1.len() <= usize::MAX,
        r2.len() <= usize::MAX,
    ensures
        selection(r1, packs, alphabet_name, n) is Err ==> selection(r1, packs, alphabet_name, n) == selection(
            r2,
            packs,
            alphabet_name,
            n,
        ),
        selection(r1, packs, alphabet_name, n) matches Ok(w1) ==> (selection(r2, packs, alphabet_name, n) matches Ok(
            w2,
        ) && selection_view(r1, w1) == selection_view(r2, w2)),
    decreases n,
{
    if n > 0 {
        law_resolution_ignores_load_order(r1, r2, packs, alphabet_name, n - 1);
        let name = packs[n - 1];
        assert(match lookup_position(r1, name@) {
            Some(i) => lookup_position(r2, name@) matches Some(j) && r1[i] == r2[j],
            None => lookup_position(r2, name@) is None,
        });
        lemma_lookup_position(r1, name@);
        lemma_lookup_position(r2, name@);
        match selection(r1, packs, alphabet_name, n - 1) {
            Err(_) => {},
            Ok(w1) => {
                let w2 = selection(r2, packs, alphabet_name, n - 1)->Ok_0;
                match lookup_position(r1, name@) {
                    None => {},
                    Some(i) => {
                        let j = lookup_position(r2, name@)->Some_0;
                        if r1[i].button_alphabet@ == alphabet_name@ {
                            lemma_picks_view(
                                r1,
                                i as usize,
                                w1,
                                r2,
                                j as usize,
                                w2,
                                r1[i].macros@.len() as int,
                            );
                        }
                    },
                }
            },
        }
    }
}


/// The bit a bound value of an enum parameter mirrors to.
pub open spec fn mirror_bit_spec(m: ResolvedMacro, param_idx: usize, value: Seq<char>) -> Option<u16> {
    match first_index(m.mirrors@.map_values(|r: ResolvedMirror| r.param_idx), param_idx) {
        Some(i) => entry_lookup(bit_map_entries(m.mirrors@[i].values), value),
        None => None,
    }
}

/// The bit one contributing parameter adds: the mirror of its bound value
/// (the first binding for it), or nothing.
pub open spec fn contrib_bit(m: ResolvedMacro, idx: usize, bindings: Seq<(usize, String)>) -> u16 {
    match first_index(bindings.map_values(|b: (usize, String)| b.0), idx) {
        Some(k) => match mirror_bit_spec(m, idx, bindings[k].1@) {
            Some(b) => b,
            None => 0,
        },
        None => 0,
    }
}

pub open spec fn step_mask_spec(m: ResolvedMacro, static_mask: u16, contribs: Seq<usize>, bindings: Seq<(usize, String)>, n: int) -> u16
    decreases n,
{
    if n <= 0 {
        static_mask
    } else {
        step_mask_spec(m, static_mask, contribs, bindings, n - 1) | contrib_bit(m, contribs[n - 1], bindings)
    }
}

impl ResolvedMacro {
    /// The mask of one instantiated step: its static buttons plus the
    /// mirrored button of each contributing enum parameter's bound value.
    pub fn step_mask(&self, static_mask: u16, enum_contribs: &[usize], enum_bindings: &[(usize, String)]) -> (r: u16)
        ensures
            r == step_mask_spec(*self, static_mask, enum_contribs@, enum_bindings@, enum_contribs@.len() as int),
    {
        let ghost keys = enum_bindings@.map_values(|b: (usize, String)| b.0);
        let mut mask = static_mask;
        let mut c: usize = 0;
        while c < enum_contribs.len()
            invariant
                c <= enum_contribs@.len(),
                keys == enum_bindings@.map_values(|b: (usize, String)| b.0),
                mask == step_mask_spec(*self, static_mask, enum_contribs@, enum_bindings@, c as int),
            decreases enum_contribs@.len() - c,
        {
            let idx = enum_contribs[c];
            proof {
                lemma_first_index(keys, idx);
            }
            let mut k: usize = 0;
            let mut bit: u16 = 0;
            let mut found = false;
            while k < enum_bindings.len() && !found
                invariant
                    k <= enum_bindings@.len(),
                    keys == enum_bindings@.map_values(|b: (usize, String)| b.0),
                    !found ==> forall|q: int| 0 <= q < k ==> keys[q] != idx,
                    found ==> bit == contrib_bit(*self, idx, enum_bindings@),
                    first_index(keys, idx) matches Some(j) ==> 0 <= j < keys.len() && keys[j] == idx && forall|q: int|
                        0 <= q < j ==> keys[q] != idx,
                    first_index(keys, idx) is None ==> forall|q: int| 0 <= q < keys.len() ==> keys[q] != idx,
                decreases enum_bindings@.len() - k,
            {
                if enum_bindings[k].0 == idx {
                    proof {
                        assert(keys[k as int] == idx);
                        let j = first_index(keys, idx)->Some_0;
                        if j < k {
                            assert(keys[j] != idx);
                        }
                        if j > k {
                            assert(keys[k as int] != idx);
                        }
                    }
                    bit = match self.mirror_bit(idx, enum_bindings[k].1.as_str()) {
                        Some(b) => b,
                        None => 0,
                    };
                    found = true;
                }
                k = k + 1;
            }
            if !found {
                proof {
                    if first_index(keys, idx) is Some {
                        let j = first_index(keys, idx)->Some_0;
                        assert(keys[j] != idx);
                    }
                }
                bit = 0;
            }
            mask = mask | bit;
            c = c + 1;
        }
        mask
    }
}

/// Frames a macro chain reports, and the tail to generate after it.
pub open spec fn chain_span_spec(chain_total: u64, max_frames: u32, target: u64, pad_to_length: bool) -> (u32, Option<u64>, u32) {
    let macro_frames = if chain_total < max_frames { chain_total as u32 } else { max_frames };
    if chain_total < target && pad_to_length {
        let tail = (target - chain_total) as u64;
        (macro_frames, Some(tail), if tail <= u32::MAX { tail as u32 } else { u32::MAX })
    } else {
        (macro_frames, None, 0)
    }
}

/// The span a macro chain of `chain_total` frames reports (at most the
/// burst-length maximum, as legalization truncates to it), the tail length
/// to pad up to `target` when padding is on, and that tail's reported frames.
pub fn chain_span(chain_total: u64, max_frames: u32, target: u64, pad_to_length: bool) -> (r: (u32, Option<u64>, u32))
    ensures
        r == chain_span_spec(chain_total, max_frames, target, pad_to_length),
{
    let macro_frames: u32 = if chain_total < max_frames as u64 { chain_total as u32 } else { max_frames };
    if chain_total < target && pad_to_length {
        let tail = target - chain_total;
        let tail_frames: u32 = if tail <= u32::MAX as u64 { tail as u32 } else { u32::MAX };
        (macro_frames, Some(tail), tail_frames)
    } else {
        (macro_frames, None, 0)
    }
}

/// With padding on and a target within the burst-length bounds, the
/// reported macro and tail frames add up to the length the burst is
/// legalized to: the target when the chain is shorter, else the chain
/// truncated to the maximum.
pub proof fn law_chain_span_adds_up(chain_total: u64, min_frames: u32, max_frames: u32, target: u64)
    requires
        min_frames <= target <= max_frames,
    ensures
        ({
            let (m, tail, t) = chain_span_spec(chain_total, max_frames, target, true);
            let length = match tail {
                Some(x) => chain_total + x,
                None => chain_total as int,
            };
            let legalized = if length < min_frames {
                min_frames as int
            } else if length > max_frames {
                max_frames as int
            } else {
                length
            };
            m + t == legalized
        }),
{
}
proof fn lemma_same_unresolvable(
    r1: Seq<MacroPack>,
    p1: Seq<(usize, usize)>,
    r2: Seq<MacroPack>,
    p2: Seq<(usize, usize)>,
    alphabet: ButtonAlphabet,
    k: int,
)
    requires
        0 <= k <= p1.len(),
        p1.len() == p2.len(),
        forall|i: int| 0 <= i < p1.len() ==> #[trigger] picked(r1, p1[i]) == picked(r2, p2[i]),
    ensures
        first_unresolvable(r1, alphabet, p1, k) == first_unresolvable(r2, alphabet, p2, k),
    decreases k,
{
    if k > 0 {
        lemma_same_unresolvable(r1, p1, r2, p2, alphabet, k - 1);
        assert(picked(r1, p1[k - 1]) == picked(r2, p2[k - 1]));
    }
}

proof fn lemma_first_unresolvable_range(reg: Seq<MacroPack>, alphabet: ButtonAlphabet, picks: Seq<(usize, usize)>, k: int)
    ensures
        first_unresolvable(reg, alphabet, picks, k) matches Some((i, b)) ==> 0 <= i < k,
    decreases k,
{
    if k > 0 {
        lemma_first_unresolvable_range(reg, alphabet, picks, k - 1);
    }
}

/// The macro and pack id that item `i` of a resolution comes from.
pub open spec fn resolution_source(reg: Seq<MacroPack>, packs: Seq<String>, alphabet_name: String, i: int) -> (
    MacroDef,
    String,
) {
    let picks = selection_picks(selection(reg, packs, alphabet_name, packs.len() as int)->Ok_0);
    (picked(reg, picks[i]), reg[picks[i].0 as int].pack_id)
}

/// The resolved macros do not depend on load order: two registries in which
/// every configured name finds the same pack resolve alike, to the same
/// error or to the same number of macros, each resolved from the same macro
/// of the same pack.
pub proof fn law_resolved_macros_ignore_load_order(
    r1: Seq<MacroPack>,
    r2: Seq<MacroPack>,
    packs: Seq<String>,
    alphabet: ButtonAlphabet,
    res1: Result<ResolvedMacros, ResolveError>,
    res2: Result<ResolvedMacros, ResolveError>,
)
    requires
        same_configured_packs(r1, r2, packs),
        r1.len() <= usize::MAX,
        r2.len() <= usize::MAX,
        resolution_is(r1, packs, alphabet, res1),
        resolution_is(r2, packs, alphabet, res2),
    ensures
        res1 is Err <==> res2 is Err,
        res1 matches Err(e) && !(e is UnresolvableButton) ==> res1 == res2,
        res1 matches Err(ResolveError::UnresolvableButton { macro_name: m1, button: b1 }) ==> (res2 matches Err(
            ResolveError::UnresolvableButton { macro_name: m2, button: b2 },
        ) && m1 == m2 && b1@ == b2@),
        res1 matches Ok(a) ==> (res2 matches Ok(b) && a.items@.len() == b.items@.len() && forall|i: int|
            0 <= i < a.items@.len() ==> {
                let (m, pack_id) = resolution_source(r1, packs, alphabet.name, i);
                resolved_from(#[trigger] a.items@[i], m, pack_id, alphabet) && resolved_from(
                    b.items@[i],
                    m,
                    pack_id,
                    alphabet,
                )
            }),
{
    let n = packs.len() as int;
    law_resolution_ignores_load_order(r1, r2, packs, alphabet.name, n);
    match selection(r1, packs, alphabet.name, n) {
        Err(e) => {},
        Ok(w1) => {
            let w2 = selection(r2, packs, alphabet.name, n)->Ok_0;
            let v1 = selection_view(r1, w1);
            let v2 = selection_view(r2, w2);
            assert(v1 == v2);
            let p1 = selection_picks(w1);
            let p2 = selection_picks(w2);
            assert(w1.len() == v1.len() && w2.len() == v2.len());
            assert forall|i: int| 0 <= i < p1.len() implies #[trigger] picked(r1, p1[i]) == picked(r2, p2[i])
                && r1[p1[i].0 as int].pack_id == r2[p2[i].0 as int].pack_id by {
                assert(v1[i] == v2[i]);
            }
            lemma_same_unresolvable(r1, p1, r2, p2, alphabet, p1.len() as int);
            lemma_first_unresolvable_range(r1, alphabet, p1, p1.len() as int);
            assert(p1.len() == p2.len());
            match first_unresolvable(r1, alphabet, p1, p1.len() as int) {
                Some((i, b)) => {
                    assert(picked(r1, p1[i]) == picked(r2, p2[i]));
                },
                None => {
                    assert(first_unresolvable(r2, alphabet, p2, p2.len() as int) is None);
                    let a = res1->Ok_0;
                    let b = res2->Ok_0;
                    assert(res1 == Ok::<ResolvedMacros, ResolveError>(a));
                    assert(res2 == Ok::<ResolvedMacros, ResolveError>(b));
                    assert(a.items@.len() == b.items@.len());
                    assert forall|i: int| 0 <= i < a.items@.len() implies {
                        let (m, pack_id) = resolution_source(r1, packs, alphabet.name, i);
                        resolved_from(#[trigger] a.items@[i], m, pack_id, alphabet) && resolved_from(
                            b.items@[i],
                            m,
                            pack_id,
                            alphabet,
                        )
                    } by {
                        assert(picked(r1, p1[i]) == picked(r2, p2[i]));
                        assert(resolved_from(a.items@[i], picked(r1, p1[i]), r1[p1[i].0 as int].pack_id, alphabet));
                        assert(resolved_from(b.items@[i], picked(r2, p2[i]), r2[p2[i].0 as int].pack_id, alphabet));
                    }
                },
            }
        },
    }
}

/// No two loaded packs share a key: names and ids are distinct, and no
/// pack's name is another pack's id.
pub open spec fn keys_distinct(reg: Seq<MacroPack>) -> bool {
    forall|i: int, j: int|
        0 <= i < reg.len() && 0 <= j < reg.len() && i != j ==> (#[trigger] reg[i]).name@ != (#[trigger] reg[j]).name@
            && reg[i].pack_id@ != reg[j].pack_id@ && reg[i].name@ != reg[j].pack_id@
}

proof fn lemma_lookup_unique(reg: Seq<MacroPack>, key: Seq<char>, j: int)
    requires
        keys_distinct(reg),
        0 <= j < reg.len(),
        reg[j].name@ == key || reg[j].pack_id@ == key,
    ensures
        lookup_position(reg, key) == Some(j),
{
    lemma_lookup_position(reg, key);
    match lookup_position(reg, key) {
        Some(i) => {
            if i != j {
                assert(reg[i].name@ != reg[j].name@ && reg[i].pack_id@ != reg[j].pack_id@);
                assert(reg[i].name@ != reg[j].pack_id@ && reg[j].name@ != reg[i].pack_id@);
            }
        },
        None => {},
    }
}

/// The same packs loaded in another order: when no two packs share a key,
/// every configured name finds the same pack in both registries, so they
/// resolve alike (see `law_resolved_macros_ignore_load_order`).
pub proof fn law_reordered_packs_are_found_alike(r1: Seq<MacroPack>, r2: Seq<MacroPack>, packs: Seq<String>)
    requires
        r1.to_multiset() == r2.to_multiset(),
        keys_distinct(r1),
        keys_distinct(r2),
    ensures
        same_configured_packs(r1, r2, packs),
{
    broadcast use vstd::seq_lib::group_to_multiset_ensures;

    assert forall|k: int| 0 <= k < packs.len() implies match lookup_position(r1, (#[trigger] packs[k])@) {
        Some(i) => lookup_position(r2, packs[k]@) matches Some(j) && r1[i] == r2[j],
        None => lookup_position(r2, packs[k]@) is None,
    } by {
        let key = packs[k]@;
        lemma_lookup_position(r1, key);
        lemma_lookup_position(r2, key);
        match lookup_position(r1, key) {
            Some(i) => {
                assert(r1.contains(r1[i]));
                assert(r1.to_multiset().count(r1[i]) > 0);
                assert(r2.contains(r1[i]));
                let j = choose|j: int| 0 <= j < r2.len() && r2[j] == r1[i];
                lemma_lookup_unique(r2, key, j);
            },
            None => {
                if let Some(j) = lookup_position(r2, key) {
                    assert(r2.contains(r2[j]));
                    assert(r2.to_multiset().count(r2[j]) > 0);
                    assert(r1.contains(r2[j]));
                    let i = choose|i: int| 0 <= i < r1.len() && r1[i] == r2[j];
                    assert(!(r1[i].name@ == key || r1[i].pack_id@ == key));
                }
            },
        }
    }
}

proof fn lemma_inserted_lookup<V>(e: Seq<(Seq<char>, V)>, key: Seq<char>, v: V, x: Seq<char>)
    ensures
        entry_lookup(inserted(e, key, v), x) == if x == key {
            Some(v)
        } else {
            entry_lookup(e, x)
        },
{
    let ks = entry_keys(e);
    let after = inserted(e, key, v);
    let ka = entry_keys(after);
    lemma_first_index(ks, key);
    lemma_first_index(ks, x);
    lemma_first_index(ka, x);
    match first_index(ks, key) {
        Some(i) => {
            assert(ka =~= ks);
            if x != key {
                if let Some(j) = first_index(ks, x) {
                    assert(j != i);
                    assert(after[j] == e[j]);
                }
            }
        },
        None => {
            assert(ka =~= ks.push(key));
            match first_index(ks, x) {
                Some(j) => {
                    assert(ka[j] == x);
                    let j2 = first_index(ka, x)->Some_0;
                    if j2 < j {
                        assert(ka[j2] == ks[j2]);
                    }
                    if j2 > j {
                        assert(ka[j] != x);
                    }
                    assert(after[j] == e[j]);
                },
                None => {
                    if x == key {
                        assert(ka[e.len() as int] == x);
                        let j2 = first_index(ka, x)->Some_0;
                        if j2 < e.len() {
                            assert(ka[j2] == ks[j2]);
                        }
                    } else {
                        if let Some(j2) = first_index(ka, x) {
                            if j2 < e.len() {
                                assert(ka[j2] == ks[j2]);
                            }
                        }
                    }
                },
            }
        },
    }
}

/// A name declared among the first `k` macros of pack `pi`.
pub open spec fn declares_within(reg: Seq<MacroPack>, pi: int, k: int, x: Seq<char>) -> bool {
    exists|q: int| 0 <= q < k && (#[trigger] reg[pi].macros@[q]).name@ == x
}

proof fn lemma_picks_with_pack(reg: Seq<MacroPack>, pi: usize, w: Seq<(Seq<char>, (usize, usize))>, k: int, x: Seq<char>)
    requires
        0 <= k <= reg[pi as int].macros@.len(),
    ensures
        declares_within(reg, pi as int, k, x) ==> (entry_lookup(picks_with_pack(reg, pi, w, k), x) matches Some(
            pick,
        ) && pick.0 == pi && pick.1 < k && reg[pi as int].macros@[pick.1 as int].name@ == x),
        !declares_within(reg, pi as int, k, x) ==> entry_lookup(picks_with_pack(reg, pi, w, k), x) == entry_lookup(
            w,
            x,
        ),
    decreases k,
{
    if k > 0 {
        assert(reg[pi as int].macros.len() == reg[pi as int].macros@.len());
        lemma_picks_with_pack(reg, pi, w, k - 1, x);
        let prev = picks_with_pack(reg, pi, w, k - 1);
        let nm = reg[pi as int].macros@[k - 1].name@;
        lemma_inserted_lookup(prev, nm, (pi, (k - 1) as usize), x);
        if nm != x {
            if declares_within(reg, pi as int, k, x) {
                let q = choose|q: int| 0 <= q < k && (#[trigger] reg[pi as int].macros@[q]).name@ == x;
                assert(q < k - 1);
                assert(declares_within(reg, pi as int, k - 1, x));
            }
            if declares_within(reg, pi as int, k - 1, x) {
                let q = choose|q: int| 0 <= q < k - 1 && (#[trigger] reg[pi as int].macros@[q]).name@ == x;
                assert(declares_within(reg, pi as int, k, x));
            }
        } else {
            assert(declares_within(reg, pi as int, k, x));
        }
    }
}

/// The pack that configured name `m` finds.
pub open spec fn configured_pack(reg: Seq<MacroPack>, packs: Seq<String>, m: int) -> int {
    lookup_position(reg, packs[m]@)->Some_0
}

/// Whether the configured pack `m` declares a macro named `x`.
pub open spec fn configured_declares(reg: Seq<MacroPack>, packs: Seq<String>, m: int, x: Seq<char>) -> bool {
    declares_within(reg, configured_pack(reg, packs, m), reg[configured_pack(reg, packs, m)].macros@.len() as int, x)
}

/// A name's winner comes from the last configured pack that declares it,
/// and a name no configured pack declares is not selected.
pub proof fn law_last_configured_pack_wins(
    reg: Seq<MacroPack>,
    packs: Seq<String>,
    alphabet_name: String,
    n: int,
    x: Seq<char>,
)
    requires
        0 <= n <= packs.len(),
        reg.len() <= usize::MAX,
        selection(reg, packs, alphabet_name, n) is Ok,
    ensures
        ({
            let w = selection(reg, packs, alphabet_name, n)->Ok_0;
            match entry_lookup(w, x) {
                Some(pick) => exists|m: int|
                    0 <= m < n && #[trigger] configured_pack(reg, packs, m) == pick.0 as int
                        && pick.1 < reg[pick.0 as int].macros@.len() && reg[pick.0 as int].macros@[pick.1 as int].name@
                        == x && forall|m2: int| m < m2 < n ==> !#[trigger] configured_declares(reg, packs, m2, x),
                None => forall|m: int| 0 <= m < n ==> !#[trigger] configured_declares(reg, packs, m, x),
            }
        }),
    decreases n,
{
    if n > 0 {
        assert(selection(reg, packs, alphabet_name, n - 1) is Ok);
        law_last_configured_pack_wins(reg, packs, alphabet_name, n - 1, x);
        let prev = selection(reg, packs, alphabet_name, n - 1)->Ok_0;
        lemma_lookup_position(reg, packs[n - 1]@);
        let pi = lookup_position(reg, packs[n - 1]@)->Some_0;
        let len = reg[pi].macros@.len() as int;
        lemma_picks_with_pack(reg, pi as usize, prev, len, x);
        let w = selection(reg, packs, alphabet_name, n)->Ok_0;
        assert(w == picks_with_pack(reg, pi as usize, prev, len));
        assert(configured_pack(reg, packs, n - 1) == pi);
        if configured_declares(reg, packs, n - 1, x) {
            let pick = entry_lookup(w, x)->Some_0;
            assert(configured_pack(reg, packs, n - 1) == pick.0 as int);
        } else {
            match entry_lookup(prev, x) {
                Some(pick) => {
                    let m = choose|m: int|
                        0 <= m < n - 1 && #[trigger] configured_pack(reg, packs, m) == pick.0 as int
                            && pick.1 < reg[pick.0 as int].macros@.len()
                            && reg[pick.0 as int].macros@[pick.1 as int].name@ == x && forall|m2: int|
                            m < m2 < n - 1 ==> !#[trigger] configured_declares(reg, packs, m2, x);
                    assert(configured_pack(reg, packs, m) == pick.0 as int);
                },
                None => {},
            }
        }
    }
}

} // verus!
