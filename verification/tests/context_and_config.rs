use input_synth::config::{ButtonAlphabet, ButtonDef, DirectionsCfg, ForbiddenMask, ModelKindCfg};
use input_synth::context::{history_predicate_holds, last_frame_mask, pressed_within};
use input_synth::propose::{
    check_propose_request, packs_not_loaded, unavailable_reason, Availability, ProposeRejection, ProposeRequestFacts,
    RequestedModel,
};
use input_synth::provenance::GeneratorKind;
use input_synth::pad::PadModel;
use input_synth::types::{total_fits, PadBurst, PadSegment};
use input_synth::validation::{
    direction_key_allowed, validate_config, ButtonRef, ConfigFacts, ConfigIssue, DirectionPriorFacts, RefractoryFacts,
    RuleFacts,
};

fn seg(buttons: u16, hold_frames: u32) -> PadSegment {
    PadSegment { buttons, hold_frames }
}

fn alphabet() -> ButtonAlphabet {
    let names = ["A", "B", "X", "Y", "L", "R", "UP", "DOWN", "LEFT", "RIGHT", "START", "SELECT"];
    ButtonAlphabet {
        name: "console16-12btn-v1".to_owned(),
        buttons: names.iter().enumerate().map(|(i, n)| ButtonDef { name: (*n).to_owned(), bit: i as u8 }).collect(),
        exclusive_groups: vec![vec!["UP".to_owned(), "DOWN".to_owned()]],
        forbidden_masks: vec![ForbiddenMask { mask: vec!["START".to_owned()], clear: vec!["SELECT".to_owned()] }],
        directions: DirectionsCfg {
            group: vec!["UP".to_owned(), "DOWN".to_owned(), "LEFT".to_owned(), "RIGHT".to_owned()],
            allow_diagonals: true,
        },
    }
}

#[test]
fn press_within_window_counts_only_rising_edges() {
    // START (bit 10) pressed at frame 10 for 5 frames; 30 frames in all.
    let h = PadBurst { segments: vec![seg(0, 10), seg(1 << 10, 5), seg(0, 15)] };
    assert!(pressed_within(Some(&h), 10, 20));
    assert!(!pressed_within(Some(&h), 10, 19));
    assert!(!pressed_within(Some(&h), 0, 30));
    assert!(!pressed_within(None, 10, 100));
    // Held from frame 0: a press at frame 0, counted only when the window reaches it.
    let held = PadBurst { segments: vec![seg(1, 8), seg(1, 8)] };
    assert!(pressed_within(Some(&held), 0, 16));
    assert!(!pressed_within(Some(&held), 0, 15));
    // Still held into the window but pressed before it: no press in the window.
    let long = PadBurst { segments: vec![seg(0, 2), seg(4, 40)] };
    assert!(!pressed_within(Some(&long), 2, 10));
}

#[test]
fn last_frame_mask_and_history_predicates() {
    let h = PadBurst { segments: vec![seg(3, 2), seg(1 << 10, 4)] };
    assert_eq!(last_frame_mask(Some(&h)), Some(1 << 10));
    assert_eq!(last_frame_mask(Some(&PadBurst { segments: vec![] })), None);
    assert_eq!(last_frame_mask(None), None);
    assert!(history_predicate_holds(&alphabet(), Some(&h), "START", 4));
    assert!(!history_predicate_holds(&alphabet(), Some(&h), "START", 3));
    assert!(!history_predicate_holds(&alphabet(), Some(&h), "TURBO", 100));
}

fn facts() -> ConfigFacts {
    ConfigFacts {
        version: 1,
        kind: "experiment_config".to_owned(),
        experiment_id: "exp".to_owned(),
        alphabet: alphabet(),
        prior_buttons: vec!["A".to_owned()],
        prior_issues: vec![],
        direction_issues: vec![],
        direction_priors: vec![DirectionPriorFacts { name: "NEUTRAL".to_owned(), not_finite: None, negative: None }],
        mix_issues: vec![],
        min_frames: 16,
        mean_frames: 180,
        max_frames: 1800,
        sigma_issue: None,
        context_rules: vec![],
        refractory: vec![],
        chain_n: 1,
        op_keys: vec!["extend".to_owned()],
        mutation_issues: vec![],
        ops_n: 3,
        model: ModelKindCfg::Pad,
        has_grammar_id: false,
    }
}

#[test]
fn valid_config_facts_have_no_issues() {
    assert!(validate_config(&facts()).is_empty());
    let f = facts();
    assert!(f.alphabet.bits_valid());
    assert!(1 <= f.min_frames && f.min_frames <= f.max_frames);
    let model = PadModel::new(&f.alphabet, f.min_frames, f.max_frames);
    assert_eq!((model.min_frames(), model.max_frames()), (f.min_frames, f.max_frames));
}

#[test]
fn every_structural_rule_reports_in_order() {
    let mut f = facts();
    f.version = 2;
    f.experiment_id = String::new();
    f.alphabet.buttons.push(ButtonDef { name: "A".to_owned(), bit: 1 });
    f.alphabet.buttons.push(ButtonDef { name: "Z".to_owned(), bit: 20 });
    f.alphabet.exclusive_groups.push(vec!["TURBO".to_owned()]);
    f.prior_buttons.push("GHOST".to_owned());
    f.prior_issues.push("button A: duty 0.9 > mean_hold/(mean_hold+1) = 0.8".to_owned());
    f.direction_priors.push(DirectionPriorFacts { name: "A".to_owned(), not_finite: None, negative: None });
    f.direction_priors.push(DirectionPriorFacts {
        name: "nowhere".to_owned(),
        not_finite: Some("direction prior nowhere value NaN must be finite".to_owned()),
        negative: None,
    });
    f.min_frames = 0;
    f.max_frames = 300_000;
    f.context_rules.push(RuleFacts {
        button_keys: vec!["Q".to_owned()],
        button_value_issues: vec![],
        direction_keys: vec!["SIDEWAYS".to_owned(), "UP".to_owned()],
        direction_value_issues: vec![],
    });
    f.refractory.push(RefractoryFacts { button: "W".to_owned(), penalty_issue: None });
    f.chain_n = 5;
    f.op_keys.push("teleport".to_owned());
    f.ops_n = 65;
    f.model = ModelKindCfg::EventGrammar;
    let issues = validate_config(&f);
    assert_eq!(
        issues,
        vec![
            ConfigIssue::Version(2),
            ConfigIssue::EmptyExperimentId,
            ConfigIssue::BitReused { name: "A".to_owned(), bit: 1 },
            ConfigIssue::NameTwice("A".to_owned()),
            ConfigIssue::BitTooLarge { name: "Z".to_owned(), bit: 20 },
            ConfigIssue::UndeclaredButton { place: ButtonRef::ExclusiveGroups, name: "TURBO".to_owned() },
            ConfigIssue::UndeclaredButton { place: ButtonRef::WeightedRandomButtons, name: "GHOST".to_owned() },
            ConfigIssue::Float("button A: duty 0.9 > mean_hold/(mean_hold+1) = 0.8".to_owned()),
            ConfigIssue::DirectionPriorName("A".to_owned()),
            ConfigIssue::Float("direction prior nowhere value NaN must be finite".to_owned()),
            ConfigIssue::MinFramesZero,
            ConfigIssue::MaxTooLarge(300_000),
            ConfigIssue::UndeclaredButton { place: ButtonRef::ContextRuleButtons, name: "Q".to_owned() },
            ConfigIssue::RuleDirectionKey("SIDEWAYS".to_owned()),
            ConfigIssue::UndeclaredButton { place: ButtonRef::Refractory, name: "W".to_owned() },
            ConfigIssue::ChainN(5),
            ConfigIssue::UnknownOp("teleport".to_owned()),
            ConfigIssue::OpsN(65),
            ConfigIssue::GrammarMissing,
        ]
    );
}

#[test]
fn button_count_must_fit_a_mask() {
    let mut f = facts();
    f.alphabet.buttons.clear();
    f.alphabet.exclusive_groups.clear();
    f.alphabet.forbidden_masks.clear();
    f.alphabet.directions.group.clear();
    f.prior_buttons.clear();
    assert_eq!(validate_config(&f), vec![ConfigIssue::ButtonCount(0)]);
    let mut f = facts();
    for i in 0..5u8 {
        f.alphabet.buttons.push(ButtonDef { name: format!("extra{i}"), bit: 12 + i });
    }
    let issues = validate_config(&f);
    assert_eq!(issues[0], ConfigIssue::ButtonCount(17));
    assert_eq!(issues[1], ConfigIssue::BitTooLarge { name: "extra4".to_owned(), bit: 16 });
}

#[test]
fn burst_length_rules() {
    let mut f = facts();
    f.mean_frames = 0;
    f.max_frames = 10;
    assert_eq!(
        validate_config(&f),
        vec![ConfigIssue::MeanFrames(0), ConfigIssue::MaxBelowMin { max: 10, min: 16 }]
    );
}

#[test]
fn direction_keys() {
    let a = alphabet();
    assert!(direction_key_allowed(&a, &"NEUTRAL".to_owned()));
    assert!(direction_key_allowed(&a, &"LEFT".to_owned()));
    assert!(!direction_key_allowed(&a, &"A".to_owned()));
}

#[test]
fn unavailable_reasons_follow_availability() {
    let none = Availability::default();
    assert_eq!(unavailable_reason(GeneratorKind::WeightedRandom, none), None);
    assert_eq!(unavailable_reason(GeneratorKind::Macro, none), Some("no_macros_loaded"));
    assert_eq!(unavailable_reason(GeneratorKind::Mutation, none), Some("no_parent_burst"));
    assert_eq!(unavailable_reason(GeneratorKind::Policy, none), Some("policy_endpoint_down"));
    let all = Availability { macros_loaded: true, has_parent_burst: true };
    assert_eq!(unavailable_reason(GeneratorKind::Macro, all), None);
    assert_eq!(unavailable_reason(GeneratorKind::Mutation, all), Some("mutation_generator_unavailable"));
}

fn request() -> ProposeRequestFacts {
    ProposeRequestFacts {
        k: 8,
        model: RequestedModel::Pad,
        experiment_id: "exp".to_owned(),
        experiment_model: Some(ModelKindCfg::Pad),
        macro_weight_positive: true,
        configured_packs: vec!["a".to_owned(), "b".to_owned()],
        loaded_pack_ids: vec!["a".to_owned()],
        node_id: Some("node-0".to_owned()),
    }
}

#[test]
fn proposal_requests_are_checked_in_order() {
    let mut r = request();
    r.k = 0;
    assert_eq!(check_propose_request(&r), Err(ProposeRejection::SlotCount(0)));
    r.k = 257;
    assert_eq!(check_propose_request(&r), Err(ProposeRejection::SlotCount(257)));
    let mut r = request();
    r.model = RequestedModel::EventGrammar;
    assert_eq!(check_propose_request(&r), Err(ProposeRejection::ModelUnsupported(RequestedModel::EventGrammar)));
    let mut r = request();
    r.experiment_model = None;
    assert_eq!(check_propose_request(&r), Err(ProposeRejection::UnknownExperiment("exp".to_owned())));
    let mut r = request();
    r.experiment_model = Some(ModelKindCfg::EventGrammar);
    assert_eq!(check_propose_request(&r), Err(ProposeRejection::ModelMismatch("exp".to_owned())));
    let r = request();
    assert_eq!(check_propose_request(&r), Err(ProposeRejection::PacksNotLoaded(vec!["b".to_owned()])));
    let mut r = request();
    r.macro_weight_positive = false;
    assert_eq!(check_propose_request(&r), Ok(()));
    r.node_id = Some(String::new());
    assert_eq!(check_propose_request(&r), Err(ProposeRejection::NodeIdMissing));
    r.node_id = None;
    assert_eq!(check_propose_request(&r), Err(ProposeRejection::NodeIdMissing));
    assert_eq!(packs_not_loaded(&vec!["x".to_owned(), "a".to_owned(), "y".to_owned()], &vec!["a".to_owned()]), vec![
        "x".to_owned(),
        "y".to_owned()
    ]);
}

#[test]
fn total_length_fits_is_checked() {
    assert!(total_fits(&[]));
    assert!(total_fits(&[seg(1, u32::MAX), seg(2, u32::MAX)]));
    assert!(total_fits(&vec![seg(0, u32::MAX); 1000]));
}
