//! Structural validation of an experiment config: every rule on integers,
//! names and button references, in the order the rules are checked, with
//! the float rules' findings (read where the floats are) merged in place.

use vstd::prelude::*;

use crate::config::{ButtonAlphabet, ButtonDef, ModelKindCfg};
use crate::text::{debug_quoted, debug_str, decimal_chars, decimal_text};

verus! {

/// Where a button name was referenced.
#[derive(Clone, Copy, Debug, PartialEq, Eq)]
pub enum ButtonRef {
    ExclusiveGroups,
    ForbiddenMask,
    ForbiddenClear,
    DirectionsGroup,
    WeightedRandomButtons,
    ContextRuleButtons,
    Refractory,
}

/// A failed config rule.
#[derive(Clone, Debug, PartialEq)]
pub enum ConfigIssue {
    Version(u32),
    Kind(String),
    EmptyExperimentId,
    ButtonCount(usize),
    BitTooLarge { name: String, bit: u8 },
    BitReused { name: String, bit: u8 },
    NameTwice(String),
    UndeclaredButton { place: ButtonRef, name: String },
    DirectionPriorName(String),
    MinFramesZero,
    MeanFrames(u32),
    MaxBelowMin { max: u32, min: u32 },
    MaxTooLarge(u32),
    RuleDirectionKey(String),
    ChainN(u32),
    UnknownOp(String),
    OpsN(u32),
    GrammarMissing,
    /// A float rule's finding, as its message.
    Float(String),
}

/// One direction prior: its name and the findings of its float checks.
#[derive(Clone, Debug, PartialEq)]
pub struct DirectionPriorFacts {
    pub name: String,
    /// Set when the value is not finite; the prior's other checks are skipped.
    pub not_finite: Option<String>,
    /// Set when the value is negative.
    pub negative: Option<String>,
}

/// One context rule: its keys and the findings of its float checks.
#[derive(Clone, Debug, PartialEq)]
pub struct RuleFacts {
    pub button_keys: Vec<String>,
    pub button_value_issues: Vec<String>,
    pub direction_keys: Vec<String>,
    pub direction_value_issues: Vec<String>,
}

#[derive(Clone, Debug, PartialEq)]
pub struct RefractoryFacts {
    pub button: String,
    pub penalty_issue: Option<String>,
}

/// What validation reads of a config: its integer, name and reference
/// settings as they are, and for each float setting the finding of its
/// check, in document order.
#[derive(Clone, Debug, PartialEq)]
pub struct ConfigFacts {
    pub version: u32,
    pub kind: String,
    pub experiment_id: String,
    pub alphabet: ButtonAlphabet,
    /// Keys of `weighted_random.buttons`.
    pub prior_buttons: Vec<String>,
    /// Findings on the default and per-button priors.
    pub prior_issues: Vec<String>,
    /// Findings on the direction's stickiness, mean hold and diagonal factor.
    pub direction_issues: Vec<String>,
    pub direction_priors: Vec<DirectionPriorFacts>,
    pub mix_issues: Vec<String>,
    pub min_frames: u32,
    pub mean_frames: u32,
    pub max_frames: u32,
    pub sigma_issue: Option<String>,
    pub context_rules: Vec<RuleFacts>,
    pub refractory: Vec<RefractoryFacts>,
    pub chain_n: u32,
    /// Keys of `mutation.op_probs`.
    pub op_keys: Vec<String>,
    /// Findings on the op probabilities, their sum, the donor bias, the
    /// timing sigma and the binomial `p`.
    pub mutation_issues: Vec<String>,
    pub ops_n: u32,
    pub model: ModelKindCfg,
    pub has_grammar_id: bool,
}

pub open spec fn opt_issue(cond: bool, issue: ConfigIssue) -> Seq<ConfigIssue> {
    if cond {
        seq![issue]
    } else {
        Seq::empty()
    }
}

pub open spec fn floats(msgs: Seq<String>) -> Seq<ConfigIssue> {
    msgs.map_values(|m: String| ConfigIssue::Float(m))
}

pub open spec fn opt_float(msg: Option<String>) -> Seq<ConfigIssue> {
    match msg {
        Some(m) => seq![ConfigIssue::Float(m)],
        None => Seq::empty(),
    }
}

/// Some button of the alphabet has this name.
pub open spec fn declared(buttons: Seq<ButtonDef>, name: Seq<char>) -> bool {
    exists|k: int| 0 <= k < buttons.len() && (#[trigger] buttons[k]).name@ == name
}

/// Issues of button `i`: a bit that does not fit a 16-bit mask (nothing
/// else is checked then), a bit or a name an earlier in-range button has.
pub open spec fn button_issue(buttons: Seq<ButtonDef>, i: int) -> Seq<ConfigIssue> {
    let b = buttons[i];
    if b.bit >= 16 {
        seq![ConfigIssue::BitTooLarge { name: b.name, bit: b.bit }]
    } else {
        opt_issue(
            exists|k: int| 0 <= k < i && (#[trigger] buttons[k]).bit < 16 && buttons[k].bit == b.bit,
            ConfigIssue::BitReused { name: b.name, bit: b.bit },
        ) + opt_issue(
            exists|k: int| 0 <= k < i && (#[trigger] buttons[k]).bit < 16 && buttons[k].name@ == b.name@,
            ConfigIssue::NameTwice(b.name),
        )
    }
}

pub open spec fn button_issues(buttons: Seq<ButtonDef>, n: int) -> Seq<ConfigIssue>
    decreases n,
{
    if n <= 0 {
        Seq::empty()
    } else {
        button_issues(buttons, n - 1) + button_issue(buttons, n - 1)
    }
}

/// One issue per name (of the first `n`) that no button declares.
pub open spec fn undeclared(buttons: Seq<ButtonDef>, names: Seq<String>, place: ButtonRef, n: int) -> Seq<ConfigIssue>
    decreases n,
{
    if n <= 0 {
        Seq::empty()
    } else {
        undeclared(buttons, names, place, n - 1) + opt_issue(
            !declared(buttons, names[n - 1]@),
            ConfigIssue::UndeclaredButton { place, name: names[n - 1] },
        )
    }
}

pub open spec fn undeclared_all(buttons: Seq<ButtonDef>, names: Seq<String>, place: ButtonRef) -> Seq<ConfigIssue> {
    undeclared(buttons, names, place, names.len() as int)
}

pub open spec fn groups_issues(a: ButtonAlphabet, n: int) -> Seq<ConfigIssue>
    decreases n,
{
    if n <= 0 {
        Seq::empty()
    } else {
        groups_issues(a, n - 1) + undeclared_all(a.buttons@, a.exclusive_groups@[n - 1]@, ButtonRef::ExclusiveGroups)
    }
}

pub open spec fn forbidden_issues(a: ButtonAlphabet, n: int) -> Seq<ConfigIssue>
    decreases n,
{
    if n <= 0 {
        Seq::empty()
    } else {
        forbidden_issues(a, n - 1) + undeclared_all(a.buttons@, a.forbidden_masks@[n - 1].mask@, ButtonRef::ForbiddenMask)
            + undeclared_all(a.buttons@, a.forbidden_masks@[n - 1].clear@, ButtonRef::ForbiddenClear)
    }
}

/// Issues of the button alphabet, in the order they are checked.
pub open spec fn alphabet_issues(a: ButtonAlphabet) -> Seq<ConfigIssue> {
    opt_issue(a.buttons@.len() == 0 || a.buttons@.len() > 16, ConfigIssue::ButtonCount(a.buttons@.len() as usize))
        + button_issues(a.buttons@, a.buttons@.len() as int) + groups_issues(a, a.exclusive_groups@.len() as int)
        + forbidden_issues(a, a.forbidden_masks@.len() as int) + undeclared_all(
        a.buttons@,
        a.directions.group@,
        ButtonRef::DirectionsGroup,
    )
}

/// `NEUTRAL` or a member of the direction group.
pub open spec fn direction_key_ok(a: ButtonAlphabet, name: Seq<char>) -> bool {
    name == "NEUTRAL"@ || exists|k: int| 0 <= k < a.directions.group@.len() && (#[trigger] a.directions.group@[k])@
        == name
}

pub open spec fn direction_prior_issues(a: ButtonAlphabet, priors: Seq<DirectionPriorFacts>, n: int) -> Seq<ConfigIssue>
    decreases n,
{
    if n <= 0 {
        Seq::empty()
    } else {
        let p = priors[n - 1];
        direction_prior_issues(a, priors, n - 1) + match p.not_finite {
            Some(m) => seq![ConfigIssue::Float(m)],
            None => opt_float(p.negative) + opt_issue(
                !direction_key_ok(a, p.name@),
                ConfigIssue::DirectionPriorName(p.name),
            ),
        }
    }
}

pub open spec fn direction_key_issues(a: ButtonAlphabet, keys: Seq<String>, n: int) -> Seq<ConfigIssue>
    decreases n,
{
    if n <= 0 {
        Seq::empty()
    } else {
        direction_key_issues(a, keys, n - 1) + opt_issue(
            !direction_key_ok(a, keys[n - 1]@),
            ConfigIssue::RuleDirectionKey(keys[n - 1]),
        )
    }
}

pub open spec fn rules_issues(a: ButtonAlphabet, rules: Seq<RuleFacts>, n: int) -> Seq<ConfigIssue>
    decreases n,
{
    if n <= 0 {
        Seq::empty()
    } else {
        let r = rules[n - 1];
        rules_issues(a, rules, n - 1) + undeclared_all(a.buttons@, r.button_keys@, ButtonRef::ContextRuleButtons)
            + floats(r.button_value_issues@) + direction_key_issues(a, r.direction_keys@, r.direction_keys@.len() as int)
            + floats(r.direction_value_issues@)
    }
}

pub open spec fn refractory_issues(a: ButtonAlphabet, rs: Seq<RefractoryFacts>, n: int) -> Seq<ConfigIssue>
    decreases n,
{
    if n <= 0 {
        Seq::empty()
    } else {
        refractory_issues(a, rs, n - 1) + opt_issue(
            !declared(a.buttons@, rs[n - 1].button@),
            ConfigIssue::UndeclaredButton { place: ButtonRef::Refractory, name: rs[n - 1].button },
        ) + opt_float(rs[n - 1].penalty_issue)
    }
}

/// The mutation operators a config may name.
pub open spec fn known_op(name: Seq<char>) -> bool {
    ||| name == "perturb_timing"@
    ||| name == "extend"@
    ||| name == "flip_button"@
    ||| name == "splice"@
    ||| name == "truncate"@
    ||| name == "duplicate_segment"@
    ||| name == "swap_adjacent"@
}

pub open spec fn op_key_issues(keys: Seq<String>, n: int) -> Seq<ConfigIssue>
    decreases n,
{
    if n <= 0 {
        Seq::empty()
    } else {
        op_key_issues(keys, n - 1) + opt_issue(!known_op(keys[n - 1]@), ConfigIssue::UnknownOp(keys[n - 1]))
    }
}

pub open spec fn header_issues(c: ConfigFacts) -> Seq<ConfigIssue> {
    opt_issue(c.version != 1, ConfigIssue::Version(c.version)) + opt_issue(
        c.kind@ != "experiment_config"@,
        ConfigIssue::Kind(c.kind),
    ) + opt_issue(c.experiment_id@.len() == 0, ConfigIssue::EmptyExperimentId)
}

pub open spec fn alphabet_and_prior_issues(c: ConfigFacts) -> Seq<ConfigIssue> {
    alphabet_issues(c.alphabet) + undeclared_all(c.alphabet.buttons@, c.prior_buttons@, ButtonRef::WeightedRandomButtons)
        + floats(c.prior_issues@) + floats(c.direction_issues@) + direction_prior_issues(
        c.alphabet,
        c.direction_priors@,
        c.direction_priors@.len() as int,
    ) + floats(c.mix_issues@)
}

pub open spec fn length_issues(c: ConfigFacts) -> Seq<ConfigIssue> {
    opt_issue(c.min_frames == 0, ConfigIssue::MinFramesZero) + opt_issue(
        !(1 <= c.mean_frames <= 216_000),
        ConfigIssue::MeanFrames(c.mean_frames),
    ) + opt_issue(c.max_frames < c.min_frames, ConfigIssue::MaxBelowMin { max: c.max_frames, min: c.min_frames })
        + opt_issue(c.max_frames > 216_000, ConfigIssue::MaxTooLarge(c.max_frames)) + opt_float(c.sigma_issue)
}

pub open spec fn conditioning_issues(c: ConfigFacts) -> Seq<ConfigIssue> {
    rules_issues(c.alphabet, c.context_rules@, c.context_rules@.len() as int) + refractory_issues(
        c.alphabet,
        c.refractory@,
        c.refractory@.len() as int,
    )
}

pub open spec fn generator_issues(c: ConfigFacts) -> Seq<ConfigIssue> {
    opt_issue(!(1 <= c.chain_n <= 4), ConfigIssue::ChainN(c.chain_n)) + op_key_issues(c.op_keys@, c.op_keys@.len() as int)
        + floats(c.mutation_issues@) + opt_issue(c.ops_n > 64, ConfigIssue::OpsN(c.ops_n)) + opt_issue(
        c.model == ModelKindCfg::EventGrammar && !c.has_grammar_id,
        ConfigIssue::GrammarMissing,
    )
}

/// Every failed rule of a config, in the order the rules are checked.
pub open spec fn config_issues(c: ConfigFacts) -> Seq<ConfigIssue> {
    header_issues(c) + alphabet_and_prior_issues(c) + length_issues(c) + conditioning_issues(c) + generator_issues(c)
}


fn is_declared(buttons: &Vec<ButtonDef>, name: &String) -> (r: bool)
    ensures
        r == declared(buttons@, name@),
{
    let mut k: usize = 0;
    while k < buttons.len()
        invariant
            k <= buttons@.len(),
            forall|q: int| 0 <= q < k ==> (#[trigger] buttons@[q]).name@ != name@,
        decreases buttons@.len() - k,
    {
        if buttons[k].name == *name {
            proof {
                assert(buttons@[k as int].name@ == name@);
            }
            return true;
        }
        k = k + 1;
    }
    false
}

fn push_undeclared(buttons: &Vec<ButtonDef>, names: &Vec<String>, place: ButtonRef, issues: &mut Vec<ConfigIssue>)
    ensures
        final(issues)@ == old(issues)@ + undeclared_all(buttons@, names@, place),
{
    let ghost start = issues@;
    let mut k: usize = 0;
    while k < names.len()
        invariant
            k <= names@.len(),
            issues@ == start + undeclared(buttons@, names@, place, k as int),
        decreases names@.len() - k,
    {
        if !is_declared(buttons, &names[k]) {
            issues.push(ConfigIssue::UndeclaredButton { place, name: names[k].clone() });
        }
        proof {
            assert(issues@ =~= start + undeclared(buttons@, names@, place, k as int + 1));
        }
        k = k + 1;
    }
}

fn push_floats(msgs: &Vec<String>, issues: &mut Vec<ConfigIssue>)
    ensures
        final(issues)@ == old(issues)@ + floats(msgs@),
{
    let ghost start = issues@;
    let mut k: usize = 0;
    while k < msgs.len()
        invariant
            k <= msgs@.len(),
            issues@ == start + floats(msgs@.take(k as int)),
        decreases msgs@.len() - k,
    {
        issues.push(ConfigIssue::Float(msgs[k].clone()));
        proof {
            assert(msgs@.take(k as int + 1) =~= msgs@.take(k as int).push(msgs@[k as int]));
            assert(issues@ =~= start + floats(msgs@.take(k as int + 1)));
        }
        k = k + 1;
    }
    proof {
        assert(msgs@.take(k as int) =~= msgs@);
    }
}

fn push_opt_float(msg: &Option<String>, issues: &mut Vec<ConfigIssue>)
    ensures
        final(issues)@ == old(issues)@ + opt_float(*msg),
{
    let ghost start = issues@;
    if let Some(m) = msg {
        issues.push(ConfigIssue::Float(m.clone()));
    }
    proof {
        assert(issues@ =~= start + opt_float(*msg));
    }
}

fn button_checks(buttons: &Vec<ButtonDef>, issues: &mut Vec<ConfigIssue>)
    ensures
        final(issues)@ == old(issues)@ + button_issues(buttons@, buttons@.len() as int),
{
    let ghost start = issues@;
    let mut seen: [bool; 16] = [false; 16];
    let mut i: usize = 0;
    while i < buttons.len()
        invariant
            i <= buttons@.len(),
            issues@ == start + button_issues(buttons@, i as int),
            forall|q: int|
                0 <= q < 16 ==> (#[trigger] seen@[q] <==> exists|k: int|
                    0 <= k < i && (#[trigger] buttons@[k]).bit < 16 && buttons@[k].bit == q),
        decreases buttons@.len() - i,
    {
        let b = &buttons[i];
        let ghost before = issues@;
        if b.bit >= 16 {
            issues.push(ConfigIssue::BitTooLarge { name: b.name.clone(), bit: b.bit });
            proof {
                assert forall|q: int| 0 <= q < 16 implies (#[trigger] seen@[q] <==> exists|k: int|
                    0 <= k < i + 1 && (#[trigger] buttons@[k]).bit < 16 && buttons@[k].bit == q) by {
                    if seen@[q] {
                        let k = choose|k: int| 0 <= k < i && (#[trigger] buttons@[k]).bit < 16 && buttons@[k].bit == q;
                        assert(0 <= k < i + 1 && buttons@[k].bit < 16 && buttons@[k].bit == q);
                    }
                }
                assert(issues@ =~= start + button_issues(buttons@, i as int + 1));
            }
        } else {
            let bit = b.bit as usize;
            if seen[bit] {
                issues.push(ConfigIssue::BitReused { name: b.name.clone(), bit: b.bit });
            }
            let ghost mid = issues@;
            let mut twice = false;
            let mut k: usize = 0;
            while k < i
                invariant
                    k <= i,
                    i < buttons@.len(),
                    *b == buttons@[i as int],
                    twice <==> exists|q: int|
                        0 <= q < k && (#[trigger] buttons@[q]).bit < 16 && buttons@[q].name@ == b.name@,
                decreases i - k,
            {
                if buttons[k].bit < 16 && buttons[k].name == b.name {
                    twice = true;
                }
                proof {
                    if !twice {
                        assert forall|q: int| 0 <= q < k + 1 && (#[trigger] buttons@[q]).bit < 16 implies buttons@[q].name@
                            != b.name@ by {}
                    }
                }
                k = k + 1;
            }
            if twice {
                issues.push(ConfigIssue::NameTwice(b.name.clone()));
            }
            let ghost old_seen = seen@;
            seen[bit] = true;
            proof {
                assert forall|q: int| 0 <= q < 16 implies (#[trigger] seen@[q] <==> exists|k: int|
                    0 <= k < i + 1 && (#[trigger] buttons@[k]).bit < 16 && buttons@[k].bit == q) by {
                    if q == bit {
                        assert(buttons@[i as int].bit < 16 && buttons@[i as int].bit == q);
                    } else {
                        assert(seen@[q] == old_seen[q]);
                        if exists|k: int| 0 <= k < i + 1 && (#[trigger] buttons@[k]).bit < 16 && buttons@[k].bit == q {
                            let k = choose|k: int| 0 <= k < i + 1 && (#[trigger] buttons@[k]).bit < 16 && buttons@[k].bit == q;
                            assert(k != i);
                        }
                    }
                }
                assert(issues@ =~= start + button_issues(buttons@, i as int + 1));
            }
        }
        i = i + 1;
    }
}

fn alphabet_checks(a: &ButtonAlphabet, issues: &mut Vec<ConfigIssue>)
    ensures
        final(issues)@ == old(issues)@ + alphabet_issues(*a),
{
    let ghost start = issues@;
    let n = a.buttons.len();
    if n == 0 || n > 16 {
        issues.push(ConfigIssue::ButtonCount(n));
    }
    button_checks(&a.buttons, issues);
    let ghost s2 = issues@;
    let mut g: usize = 0;
    while g < a.exclusive_groups.len()
        invariant
            g <= a.exclusive_groups@.len(),
            issues@ == s2 + groups_issues(*a, g as int),
        decreases a.exclusive_groups@.len() - g,
    {
        push_undeclared(&a.buttons, &a.exclusive_groups[g], ButtonRef::ExclusiveGroups, issues);
        proof {
            assert(issues@ =~= s2 + groups_issues(*a, g as int + 1));
        }
        g = g + 1;
    }
    let ghost s3 = issues@;
    let mut f: usize = 0;
    while f < a.forbidden_masks.len()
        invariant
            f <= a.forbidden_masks@.len(),
            issues@ == s3 + forbidden_issues(*a, f as int),
        decreases a.forbidden_masks@.len() - f,
    {
        push_undeclared(&a.buttons, &a.forbidden_masks[f].mask, ButtonRef::ForbiddenMask, issues);
        push_undeclared(&a.buttons, &a.forbidden_masks[f].clear, ButtonRef::ForbiddenClear, issues);
        proof {
            assert(issues@ =~= s3 + forbidden_issues(*a, f as int + 1));
        }
        f = f + 1;
    }
    push_undeclared(&a.buttons, &a.directions.group, ButtonRef::DirectionsGroup, issues);
    proof {
        assert(issues@ =~= start + alphabet_issues(*a));
    }
}

/// Whether a direction name is `NEUTRAL` or in the alphabet's direction group.
pub fn direction_key_allowed(a: &ButtonAlphabet, name: &String) -> (r: bool)
    ensures
        r == direction_key_ok(*a, name@),
{
    if *name == "NEUTRAL".to_owned() {
        return true;
    }
    let mut k: usize = 0;
    while k < a.directions.group.len()
        invariant
            k <= a.directions.group@.len(),
            name@ != "NEUTRAL"@,
            forall|q: int| 0 <= q < k ==> (#[trigger] a.directions.group@[q])@ != name@,
        decreases a.directions.group@.len() - k,
    {
        if a.directions.group[k] == *name {
            proof {
                assert(a.directions.group@[k as int]@ == name@);
            }
            return true;
        }
        k = k + 1;
    }
    false
}

fn direction_prior_checks(a: &ButtonAlphabet, priors: &Vec<DirectionPriorFacts>, issues: &mut Vec<ConfigIssue>)
    ensures
        final(issues)@ == old(issues)@ + direction_prior_issues(*a, priors@, priors@.len() as int),
{
    let ghost start = issues@;
    let mut k: usize = 0;
    while k < priors.len()
        invariant
            k <= priors@.len(),
            issues@ == start + direction_prior_issues(*a, priors@, k as int),
        decreases priors@.len() - k,
    {
        let p = &priors[k];
        match &p.not_finite {
            Some(m) => {
                issues.push(ConfigIssue::Float(m.clone()));
            },
            None => {
                push_opt_float(&p.negative, issues);
                if !direction_key_allowed(a, &p.name) {
                    issues.push(ConfigIssue::DirectionPriorName(p.name.clone()));
                }
            },
        }
        proof {
            assert(issues@ =~= start + direction_prior_issues(*a, priors@, k as int + 1));
        }
        k = k + 1;
    }
}

fn direction_key_checks(a: &ButtonAlphabet, keys: &Vec<String>, issues: &mut Vec<ConfigIssue>)
    ensures
        final(issues)@ == old(issues)@ + direction_key_issues(*a, keys@, keys@.len() as int),
{
    let ghost start = issues@;
    let mut k: usize = 0;
    while k < keys.len()
        invariant
            k <= keys@.len(),
            issues@ == start + direction_key_issues(*a, keys@, k as int),
        decreases keys@.len() - k,
    {
        if !direction_key_allowed(a, &keys[k]) {
            issues.push(ConfigIssue::RuleDirectionKey(keys[k].clone()));
        }
        proof {
            assert(issues@ =~= start + direction_key_issues(*a, keys@, k as int + 1));
        }
        k = k + 1;
    }
}

fn rule_checks(a: &ButtonAlphabet, rules: &Vec<RuleFacts>, issues: &mut Vec<ConfigIssue>)
    ensures
        final(issues)@ == old(issues)@ + rules_issues(*a, rules@, rules@.len() as int),
{
    let ghost start = issues@;
    let mut k: usize = 0;
    while k < rules.len()
        invariant
            k <= rules@.len(),
            issues@ == start + rules_issues(*a, rules@, k as int),
        decreases rules@.len() - k,
    {
        let r = &rules[k];
        push_undeclared(&a.buttons, &r.button_keys, ButtonRef::ContextRuleButtons, issues);
        push_floats(&r.button_value_issues, issues);
        direction_key_checks(a, &r.direction_keys, issues);
        push_floats(&r.direction_value_issues, issues);
        proof {
            assert(issues@ =~= start + rules_issues(*a, rules@, k as int + 1));
        }
        k = k + 1;
    }
}

fn refractory_checks(a: &ButtonAlphabet, rs: &Vec<RefractoryFacts>, issues: &mut Vec<ConfigIssue>)
    ensures
        final(issues)@ == old(issues)@ + refractory_issues(*a, rs@, rs@.len() as int),
{
    let ghost start = issues@;
    let mut k: usize = 0;
    while k < rs.len()
        invariant
            k <= rs@.len(),
            issues@ == start + refractory_issues(*a, rs@, k as int),
        decreases rs@.len() - k,
    {
        if !is_declared(&a.buttons, &rs[k].button) {
            issues.push(ConfigIssue::UndeclaredButton { place: ButtonRef::Refractory, name: rs[k].button.clone() });
        }
        push_opt_float(&rs[k].penalty_issue, issues);
        proof {
            assert(issues@ =~= start + refractory_issues(*a, rs@, k as int + 1));
        }
        k = k + 1;
    }
}

fn is_known_op(name: &String) -> (r: bool)
    ensures
        r == known_op(name@),
{
    *name == "perturb_timing".to_owned() || *name == "extend".to_owned() || *name == "flip_button".to_owned()
        || *name == "splice".to_owned() || *name == "truncate".to_owned() || *name
        == "duplicate_segment".to_owned() || *name == "swap_adjacent".to_owned()
}

fn op_key_checks(keys: &Vec<String>, issues: &mut Vec<ConfigIssue>)
    ensures
        final(issues)@ == old(issues)@ + op_key_issues(keys@, keys@.len() as int),
{
    let ghost start = issues@;
    let mut k: usize = 0;
    while k < keys.len()
        invariant
            k <= keys@.len(),
            issues@ == start + op_key_issues(keys@, k as int),
        decreases keys@.len() - k,
    {
        if !is_known_op(&keys[k]) {
            issues.push(ConfigIssue::UnknownOp(keys[k].clone()));
        }
        proof {
            assert(issues@ =~= start + op_key_issues(keys@, k as int + 1));
        }
        k = k + 1;
    }
}

fn header_checks(c: &ConfigFacts, issues: &mut Vec<ConfigIssue>)
    ensures
        final(issues)@ == old(issues)@ + header_issues(*c),
{
    let ghost start = issues@;
    if c.version != 1 {
        issues.push(ConfigIssue::Version(c.version));
    }
    if c.kind != "experiment_config".to_owned() {
        issues.push(ConfigIssue::Kind(c.kind.clone()));
    }
    if c.experiment_id.as_str().unicode_len() == 0 {
        issues.push(ConfigIssue::EmptyExperimentId);
    }
    proof {
        assert(issues@ =~= start + header_issues(*c));
    }
}

fn alphabet_and_prior_checks(c: &ConfigFacts, issues: &mut Vec<ConfigIssue>)
    ensures
        final(issues)@ == old(issues)@ + alphabet_and_prior_issues(*c),
{
    let ghost start = issues@;
    alphabet_checks(&c.alphabet, issues);
    push_undeclared(&c.alphabet.buttons, &c.prior_buttons, ButtonRef::WeightedRandomButtons, issues);
    push_floats(&c.prior_issues, issues);
    push_floats(&c.direction_issues, issues);
    direction_prior_checks(&c.alphabet, &c.direction_priors, issues);
    push_floats(&c.mix_issues, issues);
    proof {
        assert(issues@ =~= start + alphabet_and_prior_issues(*c));
    }
}

fn length_checks(c: &ConfigFacts, issues: &mut Vec<ConfigIssue>)
    ensures
        final(issues)@ == old(issues)@ + length_issues(*c),
{
    let ghost start = issues@;
    if c.min_frames == 0 {
        issues.push(ConfigIssue::MinFramesZero);
    }
    if !(1 <= c.mean_frames && c.mean_frames <= 216_000) {
        issues.push(ConfigIssue::MeanFrames(c.mean_frames));
    }
    if c.max_frames < c.min_frames {
        issues.push(ConfigIssue::MaxBelowMin { max: c.max_frames, min: c.min_frames });
    }
    if c.max_frames > 216_000 {
        issues.push(ConfigIssue::MaxTooLarge(c.max_frames));
    }
    push_opt_float(&c.sigma_issue, issues);
    proof {
        assert(issues@ =~= start + length_issues(*c));
    }
}

fn generator_checks(c: &ConfigFacts, issues: &mut Vec<ConfigIssue>)
    ensures
        final(issues)@ == old(issues)@ + generator_issues(*c),
{
    let ghost start = issues@;
    if !(1 <= c.chain_n && c.chain_n <= 4) {
        issues.push(ConfigIssue::ChainN(c.chain_n));
    }
    op_key_checks(&c.op_keys, issues);
    push_floats(&c.mutation_issues, issues);
    if c.ops_n > 64 {
        issues.push(ConfigIssue::OpsN(c.ops_n));
    }
    let event_grammar = match c.model {
        ModelKindCfg::EventGrammar => true,
        ModelKindCfg::Pad => false,
    };
    if event_grammar && !c.has_grammar_id {
        issues.push(ConfigIssue::GrammarMissing);
    }
    proof {
        assert(issues@ =~= start + generator_issues(*c));
    }
}

/// Check every config rule at once; the result lists each failed rule, in
/// the order the rules are checked, and is empty exactly when the config is
/// valid.
pub fn validate_config(c: &ConfigFacts) -> (issues: Vec<ConfigIssue>)
    ensures
        issues@ == config_issues(*c),
{
    let mut issues: Vec<ConfigIssue> = Vec::new();
    header_checks(c, &mut issues);
    alphabet_and_prior_checks(c, &mut issues);
    length_checks(c, &mut issues);
    let ghost s3 = issues@;
    rule_checks(&c.alphabet, &c.context_rules, &mut issues);
    refractory_checks(&c.alphabet, &c.refractory, &mut issues);
    proof {
        assert(issues@ =~= s3 + conditioning_issues(*c));
    }
    generator_checks(c, &mut issues);
    proof {
        assert(issues@ =~= config_issues(*c));
    }
    issues
}


proof fn lemma_button_issues_empty(buttons: Seq<ButtonDef>, n: int)
    requires
        0 <= n <= buttons.len(),
        button_issues(buttons, n).len() == 0,
    ensures
        forall|i: int| 0 <= i < n ==> #[trigger] buttons[i].bit < 16,
    decreases n,
{
    if n > 0 {
        lemma_button_issues_empty(buttons, n - 1);
        assert(button_issue(buttons, n - 1).len() == 0);
    }
}

/// A config that validation accepts fits the pad model: every button bit
/// fits a 16-bit mask and `1 <= min_frames <= max_frames`.
pub proof fn law_accepted_config_fits_pad_model(c: ConfigFacts)
    requires
        config_issues(c).len() == 0,
    ensures
        c.alphabet.bits_ok(),
        1 <= c.min_frames <= c.max_frames,
{
    assert(alphabet_issues(c.alphabet).len() == 0);
    lemma_button_issues_empty(c.alphabet.buttons@, c.alphabet.buttons@.len() as int);
    assert(length_issues(c).len() == 0);
}

/// No issue of `s` is about an unknown mutation operator.
pub open spec fn no_unknown_op(s: Seq<ConfigIssue>) -> bool {
    forall|j: int| 0 <= j < s.len() ==> !((#[trigger] s[j]) is UnknownOp)
}

proof fn lemma_no_unknown_op_concat(a: Seq<ConfigIssue>, b: Seq<ConfigIssue>)
    requires
        no_unknown_op(a),
        no_unknown_op(b),
    ensures
        no_unknown_op(a + b),
{
    assert forall|j: int| 0 <= j < (a + b).len() implies !((#[trigger] (a + b)[j]) is UnknownOp) by {
        if j < a.len() {
            assert((a + b)[j] == a[j]);
        } else {
            assert((a + b)[j] == b[j - a.len()]);
        }
    }
}

proof fn lemma_floats_no_unknown_op(msgs: Seq<String>)
    ensures
        no_unknown_op(floats(msgs)),
{
    assert forall|j: int| 0 <= j < floats(msgs).len() implies !((#[trigger] floats(msgs)[j]) is UnknownOp) by {
        assert(floats(msgs)[j] == ConfigIssue::Float(msgs[j]));
    }
}

proof fn lemma_button_issues_no_unknown_op(buttons: Seq<ButtonDef>, n: int)
    ensures
        no_unknown_op(button_issues(buttons, n)),
    decreases n,
{
    if n > 0 {
        lemma_button_issues_no_unknown_op(buttons, n - 1);
        let b = buttons[n - 1];
        if b.bit < 16 {
            lemma_no_unknown_op_concat(
                opt_issue(
                    exists|k: int| 0 <= k < n - 1 && (#[trigger] buttons[k]).bit < 16 && buttons[k].bit == b.bit,
                    ConfigIssue::BitReused { name: b.name, bit: b.bit },
                ),
                opt_issue(
                    exists|k: int| 0 <= k < n - 1 && (#[trigger] buttons[k]).bit < 16 && buttons[k].name@ == b.name@,
                    ConfigIssue::NameTwice(b.name),
                ),
            );
        }
        lemma_no_unknown_op_concat(button_issues(buttons, n - 1), button_issue(buttons, n - 1));
    }
}

proof fn lemma_undeclared_no_unknown_op(buttons: Seq<ButtonDef>, names: Seq<String>, place: ButtonRef, n: int)
    ensures
        no_unknown_op(undeclared(buttons, names, place, n)),
    decreases n,
{
    if n > 0 {
        lemma_undeclared_no_unknown_op(buttons, names, place, n - 1);
        lemma_no_unknown_op_concat(
            undeclared(buttons, names, place, n - 1),
            opt_issue(
                !declared(buttons, names[n - 1]@),
                ConfigIssue::UndeclaredButton { place, name: names[n - 1] },
            ),
        );
    }
}

proof fn lemma_groups_no_unknown_op(a: ButtonAlphabet, n: int)
    ensures
        no_unknown_op(groups_issues(a, n)),
    decreases n,
{
    if n > 0 {
        lemma_groups_no_unknown_op(a, n - 1);
        let names = a.exclusive_groups@[n - 1]@;
        lemma_undeclared_no_unknown_op(a.buttons@, names, ButtonRef::ExclusiveGroups, names.len() as int);
        lemma_no_unknown_op_concat(
            groups_issues(a, n - 1),
            undeclared_all(a.buttons@, names, ButtonRef::ExclusiveGroups),
        );
    }
}

proof fn lemma_forbidden_no_unknown_op(a: ButtonAlphabet, n: int)
    ensures
        no_unknown_op(forbidden_issues(a, n)),
    decreases n,
{
    if n > 0 {
        lemma_forbidden_no_unknown_op(a, n - 1);
        let fm = a.forbidden_masks@[n - 1];
        lemma_undeclared_no_unknown_op(a.buttons@, fm.mask@, ButtonRef::ForbiddenMask, fm.mask@.len() as int);
        lemma_undeclared_no_unknown_op(a.buttons@, fm.clear@, ButtonRef::ForbiddenClear, fm.clear@.len() as int);
        let m = undeclared_all(a.buttons@, fm.mask@, ButtonRef::ForbiddenMask);
        let cl = undeclared_all(a.buttons@, fm.clear@, ButtonRef::ForbiddenClear);
        lemma_no_unknown_op_concat(forbidden_issues(a, n - 1), m);
        lemma_no_unknown_op_concat(forbidden_issues(a, n - 1) + m, cl);
    }
}

proof fn lemma_alphabet_no_unknown_op(a: ButtonAlphabet)
    ensures
        no_unknown_op(alphabet_issues(a)),
{
    let count = opt_issue(
        a.buttons@.len() == 0 || a.buttons@.len() > 16,
        ConfigIssue::ButtonCount(a.buttons@.len() as usize),
    );
    let bi = button_issues(a.buttons@, a.buttons@.len() as int);
    let gi = groups_issues(a, a.exclusive_groups@.len() as int);
    let fi = forbidden_issues(a, a.forbidden_masks@.len() as int);
    let di = undeclared_all(a.buttons@, a.directions.group@, ButtonRef::DirectionsGroup);
    lemma_button_issues_no_unknown_op(a.buttons@, a.buttons@.len() as int);
    lemma_groups_no_unknown_op(a, a.exclusive_groups@.len() as int);
    lemma_forbidden_no_unknown_op(a, a.forbidden_masks@.len() as int);
    lemma_undeclared_no_unknown_op(
        a.buttons@,
        a.directions.group@,
        ButtonRef::DirectionsGroup,
        a.directions.group@.len() as int,
    );
    lemma_no_unknown_op_concat(count, bi);
    lemma_no_unknown_op_concat(count + bi, gi);
    lemma_no_unknown_op_concat(count + bi + gi, fi);
    lemma_no_unknown_op_concat(count + bi + gi + fi, di);
}

proof fn lemma_priors_no_unknown_op(a: ButtonAlphabet, priors: Seq<DirectionPriorFacts>, n: int)
    ensures
        no_unknown_op(direction_prior_issues(a, priors, n)),
    decreases n,
{
    if n > 0 {
        lemma_priors_no_unknown_op(a, priors, n - 1);
        let p = priors[n - 1];
        let tail = match p.not_finite {
            Some(m) => seq![ConfigIssue::Float(m)],
            None => opt_float(p.negative) + opt_issue(
                !direction_key_ok(a, p.name@),
                ConfigIssue::DirectionPriorName(p.name),
            ),
        };
        if p.not_finite is None {
            lemma_no_unknown_op_concat(
                opt_float(p.negative),
                opt_issue(!direction_key_ok(a, p.name@), ConfigIssue::DirectionPriorName(p.name)),
            );
        }
        lemma_no_unknown_op_concat(direction_prior_issues(a, priors, n - 1), tail);
    }
}

proof fn lemma_direction_keys_no_unknown_op(a: ButtonAlphabet, keys: Seq<String>, n: int)
    ensures
        no_unknown_op(direction_key_issues(a, keys, n)),
    decreases n,
{
    if n > 0 {
        lemma_direction_keys_no_unknown_op(a, keys, n - 1);
        lemma_no_unknown_op_concat(
            direction_key_issues(a, keys, n - 1),
            opt_issue(!direction_key_ok(a, keys[n - 1]@), ConfigIssue::RuleDirectionKey(keys[n - 1])),
        );
    }
}

proof fn lemma_rules_no_unknown_op(a: ButtonAlphabet, rules: Seq<RuleFacts>, n: int)
    ensures
        no_unknown_op(rules_issues(a, rules, n)),
    decreases n,
{
    if n > 0 {
        lemma_rules_no_unknown_op(a, rules, n - 1);
        let r = rules[n - 1];
        let p = rules_issues(a, rules, n - 1);
        let u = undeclared_all(a.buttons@, r.button_keys@, ButtonRef::ContextRuleButtons);
        let f1 = floats(r.button_value_issues@);
        let d = direction_key_issues(a, r.direction_keys@, r.direction_keys@.len() as int);
        let f2 = floats(r.direction_value_issues@);
        lemma_undeclared_no_unknown_op(
            a.buttons@,
            r.button_keys@,
            ButtonRef::ContextRuleButtons,
            r.button_keys@.len() as int,
        );
        lemma_floats_no_unknown_op(r.button_value_issues@);
        lemma_direction_keys_no_unknown_op(a, r.direction_keys@, r.direction_keys@.len() as int);
        lemma_floats_no_unknown_op(r.direction_value_issues@);
        lemma_no_unknown_op_concat(p, u);
        lemma_no_unknown_op_concat(p + u, f1);
        lemma_no_unknown_op_concat(p + u + f1, d);
        lemma_no_unknown_op_concat(p + u + f1 + d, f2);
    }
}

proof fn lemma_refractory_no_unknown_op(a: ButtonAlphabet, rs: Seq<RefractoryFacts>, n: int)
    ensures
        no_unknown_op(refractory_issues(a, rs, n)),
    decreases n,
{
    if n > 0 {
        lemma_refractory_no_unknown_op(a, rs, n - 1);
        let p = refractory_issues(a, rs, n - 1);
        let u = opt_issue(
            !declared(a.buttons@, rs[n - 1].button@),
            ConfigIssue::UndeclaredButton { place: ButtonRef::Refractory, name: rs[n - 1].button },
        );
        let f = opt_float(rs[n - 1].penalty_issue);
        lemma_no_unknown_op_concat(p, u);
        lemma_no_unknown_op_concat(p + u, f);
    }
}

/// The names of the mutation operators, as a list.
proof fn lemma_known_op_listed(name: Seq<char>)
    ensures
        known_op(name) <==> seq![
            "perturb_timing"@,
            "extend"@,
            "flip_button"@,
            "splice"@,
            "truncate"@,
            "duplicate_segment"@,
            "swap_adjacent"@,
        ].contains(name),
{
    let ops = seq![
        "perturb_timing"@,
        "extend"@,
        "flip_button"@,
        "splice"@,
        "truncate"@,
        "duplicate_segment"@,
        "swap_adjacent"@,
    ];
    assert(ops[0] == "perturb_timing"@);
    assert(ops[1] == "extend"@);
    assert(ops[2] == "flip_button"@);
    assert(ops[3] == "splice"@);
    assert(ops[4] == "truncate"@);
    assert(ops[5] == "duplicate_segment"@);
    assert(ops[6] == "swap_adjacent"@);
}

proof fn lemma_op_key_issues(keys: Seq<String>, n: int)
    requires
        0 <= n <= keys.len(),
    ensures
        forall|j: int|
            0 <= j < op_key_issues(keys, n).len() ==> (#[trigger] op_key_issues(keys, n)[j] matches ConfigIssue::UnknownOp(
                k,
            ) && !known_op(k@) && exists|m: int| 0 <= m < n && keys[m] == k),
        forall|m: int|
            0 <= m < n && !known_op((#[trigger] keys[m])@) ==> op_key_issues(keys, n).contains(
                ConfigIssue::UnknownOp(keys[m]),
            ),
    decreases n,
{
    if n > 0 {
        lemma_op_key_issues(keys, n - 1);
        let prev = op_key_issues(keys, n - 1);
        let cur = op_key_issues(keys, n);
        let x = ConfigIssue::UnknownOp(keys[n - 1]);
        if known_op(keys[n - 1]@) {
            assert(cur =~= prev);
        } else {
            assert(cur =~= prev.push(x));
            assert(cur[prev.len() as int] == x);
        }
        assert forall|j: int| 0 <= j < cur.len() implies (#[trigger] cur[j] matches ConfigIssue::UnknownOp(k)
            && !known_op(k@) && exists|m: int| 0 <= m < n && keys[m] == k) by {
            if j < prev.len() {
                assert(cur[j] == prev[j]);
            } else {
                assert(cur[j] == x);
            }
        }
        assert forall|m: int| 0 <= m < n && !known_op((#[trigger] keys[m])@) implies cur.contains(
            ConfigIssue::UnknownOp(keys[m]),
        ) by {
            if m < n - 1 {
                let j = choose|j: int| 0 <= j < prev.len() && prev[j] == ConfigIssue::UnknownOp(keys[m]);
                assert(cur[j] == prev[j]);
            }
        }
    }
}

proof fn lemma_contains_concat(a: Seq<ConfigIssue>, b: Seq<ConfigIssue>, x: ConfigIssue)
    requires
        a.contains(x) || b.contains(x),
    ensures
        (a + b).contains(x),
{
    if a.contains(x) {
        let j = choose|j: int| 0 <= j < a.len() && a[j] == x;
        assert((a + b)[j] == x);
    } else {
        let j = choose|j: int| 0 <= j < b.len() && b[j] == x;
        assert((a + b)[a.len() + j] == x);
    }
}

/// The checks before the op keys.
spec fn issues_before_op_keys(c: ConfigFacts) -> Seq<ConfigIssue> {
    header_issues(c) + alphabet_and_prior_issues(c) + length_issues(c) + conditioning_issues(c) + opt_issue(
        !(1 <= c.chain_n <= 4),
        ConfigIssue::ChainN(c.chain_n),
    )
}

/// The checks after the op keys.
spec fn issues_after_op_keys(c: ConfigFacts) -> Seq<ConfigIssue> {
    floats(c.mutation_issues@) + opt_issue(c.ops_n > 64, ConfigIssue::OpsN(c.ops_n)) + opt_issue(
        c.model == ModelKindCfg::EventGrammar && !c.has_grammar_id,
        ConfigIssue::GrammarMissing,
    )
}

proof fn lemma_header_no_unknown_op(c: ConfigFacts)
    ensures
        no_unknown_op(header_issues(c)),
{
    lemma_no_unknown_op_concat(
        opt_issue(c.version != 1, ConfigIssue::Version(c.version)),
        opt_issue(c.kind@ != "experiment_config"@, ConfigIssue::Kind(c.kind)),
    );
    lemma_no_unknown_op_concat(
        opt_issue(c.version != 1, ConfigIssue::Version(c.version)) + opt_issue(
            c.kind@ != "experiment_config"@,
            ConfigIssue::Kind(c.kind),
        ),
        opt_issue(c.experiment_id@.len() == 0, ConfigIssue::EmptyExperimentId),
    );
}

proof fn lemma_alphabet_and_prior_no_unknown_op(c: ConfigFacts)
    ensures
        no_unknown_op(alphabet_and_prior_issues(c)),
{
    lemma_alphabet_no_unknown_op(c.alphabet);
    lemma_undeclared_no_unknown_op(
        c.alphabet.buttons@,
        c.prior_buttons@,
        ButtonRef::WeightedRandomButtons,
        c.prior_buttons@.len() as int,
    );
    lemma_floats_no_unknown_op(c.prior_issues@);
    lemma_floats_no_unknown_op(c.direction_issues@);
    lemma_priors_no_unknown_op(c.alphabet, c.direction_priors@, c.direction_priors@.len() as int);
    lemma_floats_no_unknown_op(c.mix_issues@);
    let a1 = alphabet_issues(c.alphabet);
    let a2 = undeclared_all(c.alphabet.buttons@, c.prior_buttons@, ButtonRef::WeightedRandomButtons);
    let a3 = floats(c.prior_issues@);
    let a4 = floats(c.direction_issues@);
    let a5 = direction_prior_issues(c.alphabet, c.direction_priors@, c.direction_priors@.len() as int);
    let a6 = floats(c.mix_issues@);
    lemma_no_unknown_op_concat(a1, a2);
    lemma_no_unknown_op_concat(a1 + a2, a3);
    lemma_no_unknown_op_concat(a1 + a2 + a3, a4);
    lemma_no_unknown_op_concat(a1 + a2 + a3 + a4, a5);
    lemma_no_unknown_op_concat(a1 + a2 + a3 + a4 + a5, a6);
}

proof fn lemma_length_no_unknown_op(c: ConfigFacts)
    ensures
        no_unknown_op(length_issues(c)),
{
    let l1 = opt_issue(c.min_frames == 0, ConfigIssue::MinFramesZero);
    let l2 = opt_issue(!(1 <= c.mean_frames <= 216_000), ConfigIssue::MeanFrames(c.mean_frames));
    let l3 = opt_issue(c.max_frames < c.min_frames, ConfigIssue::MaxBelowMin { max: c.max_frames, min: c.min_frames });
    let l4 = opt_issue(c.max_frames > 216_000, ConfigIssue::MaxTooLarge(c.max_frames));
    let l5 = opt_float(c.sigma_issue);
    lemma_no_unknown_op_concat(l1, l2);
    lemma_no_unknown_op_concat(l1 + l2, l3);
    lemma_no_unknown_op_concat(l1 + l2 + l3, l4);
    lemma_no_unknown_op_concat(l1 + l2 + l3 + l4, l5);
}

proof fn lemma_around_op_keys(c: ConfigFacts)
    ensures
        no_unknown_op(issues_before_op_keys(c)),
        no_unknown_op(issues_after_op_keys(c)),
        config_issues(c) == issues_before_op_keys(c) + op_key_issues(c.op_keys@, c.op_keys@.len() as int)
            + issues_after_op_keys(c),
{
    let h = header_issues(c);
    let ap = alphabet_and_prior_issues(c);
    let l = length_issues(c);
    let co = conditioning_issues(c);
    let g1 = opt_issue(!(1 <= c.chain_n <= 4), ConfigIssue::ChainN(c.chain_n));
    lemma_header_no_unknown_op(c);
    lemma_alphabet_and_prior_no_unknown_op(c);
    lemma_length_no_unknown_op(c);
    lemma_rules_no_unknown_op(c.alphabet, c.context_rules@, c.context_rules@.len() as int);
    lemma_refractory_no_unknown_op(c.alphabet, c.refractory@, c.refractory@.len() as int);
    lemma_no_unknown_op_concat(
        rules_issues(c.alphabet, c.context_rules@, c.context_rules@.len() as int),
        refractory_issues(c.alphabet, c.refractory@, c.refractory@.len() as int),
    );
    lemma_no_unknown_op_concat(h, ap);
    lemma_no_unknown_op_concat(h + ap, l);
    lemma_no_unknown_op_concat(h + ap + l, co);
    lemma_no_unknown_op_concat(h + ap + l + co, g1);
    lemma_floats_no_unknown_op(c.mutation_issues@);
    lemma_no_unknown_op_concat(
        floats(c.mutation_issues@),
        opt_issue(c.ops_n > 64, ConfigIssue::OpsN(c.ops_n)),
    );
    lemma_no_unknown_op_concat(
        floats(c.mutation_issues@) + opt_issue(c.ops_n > 64, ConfigIssue::OpsN(c.ops_n)),
        opt_issue(c.model == ModelKindCfg::EventGrammar && !c.has_grammar_id, ConfigIssue::GrammarMissing),
    );
    assert(config_issues(c) =~= issues_before_op_keys(c) + op_key_issues(c.op_keys@, c.op_keys@.len() as int)
        + issues_after_op_keys(c));
}

/// The mutation operators are perturb_timing, extend, flip_button, splice,
/// truncate, duplicate_segment and swap_adjacent. Validation reports an op
/// key as unknown exactly when it is none of them: every `UnknownOp` issue
/// names one of the config's op keys outside that list, and every op key
/// outside it is reported.
pub proof fn law_unknown_op_keys(c: ConfigFacts)
    ensures
        forall|j: int|
            0 <= j < config_issues(c).len() ==> (#[trigger] config_issues(c)[j] matches ConfigIssue::UnknownOp(k) ==> (
            !seq![
                "perturb_timing"@,
                "extend"@,
                "flip_button"@,
                "splice"@,
                "truncate"@,
                "duplicate_segment"@,
                "swap_adjacent"@,
            ].contains(k@) && exists|m: int| 0 <= m < c.op_keys@.len() && c.op_keys@[m] == k)),
        forall|m: int|
            0 <= m < c.op_keys@.len() && !seq![
                "perturb_timing"@,
                "extend"@,
                "flip_button"@,
                "splice"@,
                "truncate"@,
                "duplicate_segment"@,
                "swap_adjacent"@,
            ].contains((#[trigger] c.op_keys@[m])@) ==> config_issues(c).contains(
                ConfigIssue::UnknownOp(c.op_keys@[m]),
            ),
{
    let keys = c.op_keys@;
    let before = issues_before_op_keys(c);
    let ok = op_key_issues(keys, keys.len() as int);
    let rest = issues_after_op_keys(c);
    lemma_around_op_keys(c);
    lemma_op_key_issues(keys, keys.len() as int);
    let all = config_issues(c);
    assert forall|j: int| 0 <= j < all.len() implies (#[trigger] all[j] matches ConfigIssue::UnknownOp(k) ==> (
    !seq![
        "perturb_timing"@,
        "extend"@,
        "flip_button"@,
        "splice"@,
        "truncate"@,
        "duplicate_segment"@,
        "swap_adjacent"@,
    ].contains(k@) && exists|m: int| 0 <= m < keys.len() && keys[m] == k)) by {
        if all[j] is UnknownOp {
            if j < before.len() {
                assert(all[j] == before[j]);
            } else if j < before.len() + ok.len() {
                assert(all[j] == ok[j - before.len()]);
                lemma_known_op_listed(all[j]->UnknownOp_0@);
            } else {
                assert(all[j] == rest[j - before.len() - ok.len()]);
            }
        }
    }
    assert forall|m: int|
        0 <= m < keys.len() && !seq![
            "perturb_timing"@,
            "extend"@,
            "flip_button"@,
            "splice"@,
            "truncate"@,
            "duplicate_segment"@,
            "swap_adjacent"@,
        ].contains((#[trigger] keys[m])@) implies all.contains(ConfigIssue::UnknownOp(keys[m])) by {
        lemma_known_op_listed(keys[m]@);
        lemma_contains_concat(before, ok, ConfigIssue::UnknownOp(keys[m]));
        lemma_contains_concat(before + ok, rest, ConfigIssue::UnknownOp(keys[m]));
    }
}

/// Where a button reference sits, as the messages name it.
pub open spec fn place_words(place: ButtonRef) -> Seq<char> {
    match place {
        ButtonRef::ExclusiveGroups => "exclusive_groups"@,
        ButtonRef::ForbiddenMask => "forbidden_masks.mask"@,
        ButtonRef::ForbiddenClear => "forbidden_masks.clear"@,
        ButtonRef::DirectionsGroup => "directions.group"@,
        ButtonRef::WeightedRandomButtons => "weighted_random.buttons"@,
        ButtonRef::ContextRuleButtons => "context_rules.adjust_buttons"@,
        ButtonRef::Refractory => "refractory"@,
    }
}

fn place_str(place: ButtonRef) -> (s: &'static str)
    ensures
        s@ == place_words(place),
{
    match place {
        ButtonRef::ExclusiveGroups => "exclusive_groups",
        ButtonRef::ForbiddenMask => "forbidden_masks.mask",
        ButtonRef::ForbiddenClear => "forbidden_masks.clear",
        ButtonRef::DirectionsGroup => "directions.group",
        ButtonRef::WeightedRandomButtons => "weighted_random.buttons",
        ButtonRef::ContextRuleButtons => "context_rules.adjust_buttons",
        ButtonRef::Refractory => "refractory",
    }
}

/// The message of a failed rule: plain words, names, decimal numbers, and
/// for `Kind` and `UnknownOp` the offending text in Rust's debug form.
pub open spec fn issue_words(issue: ConfigIssue) -> Seq<char> {
    match issue {
        ConfigIssue::Version(v) => "version "@ + decimal_chars(v as nat) + " unsupported (expected 1)"@,
        ConfigIssue::Kind(kind) => "kind "@ + debug_str(kind@) + " is not \"experiment_config\""@,
        ConfigIssue::EmptyExperimentId => "experiment_id must be non-empty"@,
        ConfigIssue::ButtonCount(n) =>
            "button_alphabet.buttons has "@ + decimal_chars(n as nat) + " entries (expected 1..=16)"@,
        ConfigIssue::BitTooLarge { name, bit } =>
            "button "@ + name@ + " has bit "@ + decimal_chars(bit as nat) + " (must be < 16)"@,
        ConfigIssue::BitReused { name, bit } => "button "@ + name@ + " reuses bit "@ + decimal_chars(bit as nat),
        ConfigIssue::NameTwice(name) => "button name "@ + name@ + " declared twice"@,
        ConfigIssue::UndeclaredButton { place, name } =>
            place_words(place) + " references undeclared button "@ + name@,
        ConfigIssue::DirectionPriorName(name) =>
            "direction prior "@ + name@ + " is neither NEUTRAL nor in directions.group"@,
        ConfigIssue::MinFramesZero => "burst_len.min_frames must be >= 1"@,
        ConfigIssue::MeanFrames(m) =>
            "burst_len.mean_frames "@ + decimal_chars(m as nat) + " must be in [1, 216000]"@,
        ConfigIssue::MaxBelowMin { max, min } =>
            "burst_len.max_frames "@ + decimal_chars(max as nat) + " < min_frames "@ + decimal_chars(min as nat),
        ConfigIssue::MaxTooLarge(m) =>
            "burst_len.max_frames "@ + decimal_chars(m as nat) + " exceeds 216000 (1 hour at 60fps)"@,
        ConfigIssue::RuleDirectionKey(name) =>
            "context_rules.adjust_directions key "@ + name@ + " is neither NEUTRAL nor in directions.group"@,
        ConfigIssue::ChainN(n) => "macro.chain_n "@ + decimal_chars(n as nat) + " must be in 1..=4"@,
        ConfigIssue::UnknownOp(key) => "mutation.op_probs has unknown key "@ + debug_str(key@),
        ConfigIssue::OpsN(n) => "mutation.ops_binomial.n "@ + decimal_chars(n as nat) + " must be <= 64"@,
        ConfigIssue::GrammarMissing => "model event_grammar requires grammar_id"@,
        ConfigIssue::Float(message) => message@,
    }
}

/// The message of a failed rule (see [`issue_words`]).
pub fn issue_text(issue: &ConfigIssue) -> (t: String)
    ensures
        t@ == issue_words(*issue),
{
    match issue {
        ConfigIssue::Version(v) => {
            let n = decimal_text(*v as u64);
            let mut t = String::from_str("version ");
            t.append(n.as_str());
            t.append(" unsupported (expected 1)");
            t
        },
        ConfigIssue::Kind(kind) => {
            let q = debug_quoted(kind.as_str());
            let mut t = String::from_str("kind ");
            t.append(q.as_str());
            t.append(" is not \"experiment_config\"");
            t
        },
        ConfigIssue::EmptyExperimentId => String::from_str("experiment_id must be non-empty"),
        ConfigIssue::ButtonCount(c) => {
            let n = decimal_text(*c as u64);
            let mut t = String::from_str("button_alphabet.buttons has ");
            t.append(n.as_str());
            t.append(" entries (expected 1..=16)");
            t
        },
        ConfigIssue::BitTooLarge { name, bit } => {
            let n = decimal_text(*bit as u64);
            let mut t = String::from_str("button ");
            t.append(name.as_str());
            t.append(" has bit ");
            t.append(n.as_str());
            t.append(" (must be < 16)");
            t
        },
        ConfigIssue::BitReused { name, bit } => {
            let n = decimal_text(*bit as u64);
            let mut t = String::from_str("button ");
            t.append(name.as_str());
            t.append(" reuses bit ");
            t.append(n.as_str());
            t
        },
        ConfigIssue::NameTwice(name) => {
            let mut t = String::from_str("button name ");
            t.append(name.as_str());
            t.append(" declared twice");
            t
        },
        ConfigIssue::UndeclaredButton { place, name } => {
            let mut t = String::from_str(place_str(*place));
            t.append(" references undeclared button ");
            t.append(name.as_str());
            t
        },
        ConfigIssue::DirectionPriorName(name) => {
            let mut t = String::from_str("direction prior ");
            t.append(name.as_str());
            t.append(" is neither NEUTRAL nor in directions.group");
            t
        },
        ConfigIssue::MinFramesZero => String::from_str("burst_len.min_frames must be >= 1"),
        ConfigIssue::MeanFrames(m) => {
            let n = decimal_text(*m as u64);
            let mut t = String::from_str("burst_len.mean_frames ");
            t.append(n.as_str());
            t.append(" must be in [1, 216000]");
            t
        },
        ConfigIssue::MaxBelowMin { max, min } => {
            let a = decimal_text(*max as u64);
            let b = decimal_text(*min as u64);
            let mut t = String::from_str("burst_len.max_frames ");
            t.append(a.as_str());
            t.append(" < min_frames ");
            t.append(b.as_str());
            t
        },
        ConfigIssue::MaxTooLarge(m) => {
            let n = decimal_text(*m as u64);
            let mut t = String::from_str("burst_len.max_frames ");
            t.append(n.as_str());
            t.append(" exceeds 216000 (1 hour at 60fps)");
            t
        },
        ConfigIssue::RuleDirectionKey(name) => {
            let mut t = String::from_str("context_rules.adjust_directions key ");
            t.append(name.as_str());
            t.append(" is neither NEUTRAL nor in directions.group");
            t
        },
        ConfigIssue::ChainN(c) => {
            let n = decimal_text(*c as u64);
            let mut t = String::from_str("macro.chain_n ");
            t.append(n.as_str());
            t.append(" must be in 1..=4");
            t
        },
        ConfigIssue::UnknownOp(key) => {
            let q = debug_quoted(key.as_str());
            let mut t = String::from_str("mutation.op_probs has unknown key ");
            t.append(q.as_str());
            t
        },
        ConfigIssue::OpsN(c) => {
            let n = decimal_text(*c as u64);
            let mut t = String::from_str("mutation.ops_binomial.n ");
            t.append(n.as_str());
            t.append(" must be <= 64");
            t
        },
        ConfigIssue::GrammarMissing => String::from_str("model event_grammar requires grammar_id"),
        ConfigIssue::Float(message) => message.clone(),
    }
}

} // verus!
