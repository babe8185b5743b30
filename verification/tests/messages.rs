use input_synth::propose::{ProposeRejection, RequestedModel};
use input_synth::macros::{pack_issue_text, MacroPackError, PackIssue, RegistryWarning};
use input_synth::validation::{issue_text, ButtonRef, ConfigIssue};

#[test]
fn config_rules_are_worded_exactly() {
    let text = |i: ConfigIssue| issue_text(&i);
    assert_eq!(text(ConfigIssue::Version(2)), "version 2 unsupported (expected 1)");
    assert_eq!(text(ConfigIssue::EmptyExperimentId), "experiment_id must be non-empty");
    assert_eq!(text(ConfigIssue::ButtonCount(17)), "button_alphabet.buttons has 17 entries (expected 1..=16)");
    assert_eq!(
        text(ConfigIssue::BitTooLarge { name: "Z".to_owned(), bit: 16 }),
        "button Z has bit 16 (must be < 16)"
    );
    assert_eq!(text(ConfigIssue::BitReused { name: "B".to_owned(), bit: 0 }), "button B reuses bit 0");
    assert_eq!(text(ConfigIssue::NameTwice("A".to_owned())), "button name A declared twice");
    assert_eq!(
        text(ConfigIssue::UndeclaredButton { place: ButtonRef::ForbiddenClear, name: "Q".to_owned() }),
        "forbidden_masks.clear references undeclared button Q"
    );
    assert_eq!(
        text(ConfigIssue::DirectionPriorName("UPLEFT".to_owned())),
        "direction prior UPLEFT is neither NEUTRAL nor in directions.group"
    );
    assert_eq!(text(ConfigIssue::MinFramesZero), "burst_len.min_frames must be >= 1");
    assert_eq!(text(ConfigIssue::MeanFrames(0)), "burst_len.mean_frames 0 must be in [1, 216000]");
    assert_eq!(
        text(ConfigIssue::MaxBelowMin { max: 10, min: 16 }),
        "burst_len.max_frames 10 < min_frames 16"
    );
    assert_eq!(
        text(ConfigIssue::MaxTooLarge(216001)),
        "burst_len.max_frames 216001 exceeds 216000 (1 hour at 60fps)"
    );
    assert_eq!(
        text(ConfigIssue::RuleDirectionKey("X".to_owned())),
        "context_rules.adjust_directions key X is neither NEUTRAL nor in directions.group"
    );
    assert_eq!(text(ConfigIssue::ChainN(5)), "macro.chain_n 5 must be in 1..=4");
    assert_eq!(text(ConfigIssue::OpsN(65)), "mutation.ops_binomial.n 65 must be <= 64");
    assert_eq!(text(ConfigIssue::GrammarMissing), "model event_grammar requires grammar_id");
    assert_eq!(text(ConfigIssue::Float("sigma must be > 0".to_owned())), "sigma must be > 0");
    assert_eq!(text(ConfigIssue::Kind("pack".to_owned())), "kind \"pack\" is not \"experiment_config\"");
    assert_eq!(text(ConfigIssue::UnknownOp("sw\"ap".to_owned())), "mutation.op_probs has unknown key \"sw\\\"ap\"");
}

#[test]
fn pack_messages_are_worded_exactly() {
    assert_eq!(pack_issue_text(&PackIssue::Version(3)).unwrap(), "version 3 unsupported (expected 1)");
    assert_eq!(pack_issue_text(&PackIssue::NoMacros).unwrap(), "macros must be non-empty");
    assert!(pack_issue_text(&PackIssue::EventGrammarModel).unwrap().starts_with("model \"event_grammar\" is not supported"));
    assert_eq!(pack_issue_text(&PackIssue::Kind("k".to_owned())).unwrap(), "kind \"k\" is not \"macro_pack\"");
    assert_eq!(pack_issue_text(&PackIssue::Name("Bad Name".to_owned())).unwrap(), "name \"Bad Name\" must match [a-z0-9-]+");
    assert_eq!(pack_issue_text(&PackIssue::Model("snes".to_owned())).unwrap(), "model \"snes\" unsupported (expected \"pad\")");
    assert_eq!(
        pack_issue_text(&PackIssue::Source("x".to_owned())).unwrap(),
        "source \"x\" must be \"handwritten\" or \"mined\""
    );
    assert_eq!(pack_issue_text(&PackIssue::DuplicateMacro("m".to_owned())).unwrap(), "duplicate macro name \"m\" within pack");
    let m = || "dash".to_owned();
    let p = || "n".to_owned();
    assert_eq!(
        pack_issue_text(&PackIssue::DuplicateParam { macro_name: m(), param: p() }).unwrap(),
        "macro \"dash\": duplicate param name \"n\""
    );
    assert_eq!(
        pack_issue_text(&PackIssue::EnumDomainEmpty { macro_name: m(), param: p() }).unwrap(),
        "macro \"dash\": param \"n\" enum domain must be non-empty"
    );
    assert_eq!(
        pack_issue_text(&PackIssue::IntMinGtMax { macro_name: m(), param: p(), min: 5, max: -3 }).unwrap(),
        "macro \"dash\": param \"n\" int domain min 5 > max -3"
    );
    assert_eq!(
        pack_issue_text(&PackIssue::IntSpanTooWide { macro_name: m(), param: p(), min: i64::MIN, max: i64::MAX }).unwrap(),
        "macro \"dash\": param \"n\" int domain span 18446744073709551616 exceeds 2^32"
    );
    assert_eq!(
        pack_issue_text(&PackIssue::HistoryEligibility(m())).unwrap(),
        "macro \"dash\": eligibility predicates must be feature comparisons (history predicates are not supported in macro packs)"
    );
    assert_eq!(pack_issue_text(&PackIssue::StepsEmpty(m())).unwrap(), "macro \"dash\": steps must be non-empty");
    assert_eq!(pack_issue_text(&PackIssue::TokenStepsEmpty(m())).unwrap(), "macro \"dash\": token_steps must be non-empty");
    assert_eq!(
        pack_issue_text(&PackIssue::DurBucketRange { macro_name: m(), dur_bucket: 9 }).unwrap(),
        "macro \"dash\": token_steps dur_bucket 9 must be in 0..=5"
    );
    assert_eq!(
        pack_issue_text(&PackIssue::StepsAndTokenSteps(m())).unwrap(),
        "macro \"dash\": steps and token_steps are mutually exclusive"
    );
    assert_eq!(pack_issue_text(&PackIssue::NoSteps(m())).unwrap(), "macro \"dash\": must declare steps or token_steps");
    assert_eq!(
        pack_issue_text(&PackIssue::FramesNonIntParam { macro_name: m(), param: p() }).unwrap(),
        "macro \"dash\": frames $n references a non-int-domain param"
    );
    assert_eq!(
        pack_issue_text(&PackIssue::FramesUndeclaredParam { macro_name: m(), param: p() }).unwrap(),
        "macro \"dash\": frames $n references an undeclared param"
    );
    assert_eq!(
        pack_issue_text(&PackIssue::NoMirror { macro_name: m(), param: p() }).unwrap(),
        "macro \"dash\": enum param \"n\" used in hold/mask has no mirror map"
    );
    assert_eq!(
        pack_issue_text(&PackIssue::MirrorMissingValue { macro_name: m(), param: p(), value: "L".to_owned() }).unwrap(),
        "macro \"dash\": mirror[\"n\"] missing enum value \"L\""
    );
    assert_eq!(
        pack_issue_text(&PackIssue::NonEnumHoldParam { macro_name: m(), param: p() }).unwrap(),
        "macro \"dash\": param \"n\" used in hold/mask must be enum-domain"
    );
    assert_eq!(pack_issue_text(&PackIssue::WeightNotPositive { macro_name: m(), weight_bits: 0 }), None);
    let parse = MacroPackError::Parse { message: "bad".to_owned(), line: Some(3), column: Some(14) };
    assert_eq!(parse.message(), "parse error: bad (line 3, column 14)");
    let bare = MacroPackError::Parse { message: "bad".to_owned(), line: None, column: Some(1) };
    assert_eq!(bare.message(), "parse error: bad");
    let invalid = MacroPackError::Invalid(vec!["one".to_owned(), "two".to_owned()]);
    assert_eq!(invalid.message(), "one; two");
    let replaced =
        RegistryWarning::Replaced { name: "p".to_owned(), old_id: "aa".to_owned(), new_id: "bb".to_owned() };
    assert_eq!(replaced.text(), "pack 'p' (id aa) replaced by id bb \u{2014} a pack name owns one document");
    let shadows = RegistryWarning::Shadows { macro_name: "m".to_owned(), other_pack: "q".to_owned() };
    assert_eq!(shadows.text(), "macro 'm' shadows same-name macro in pack q");
}

#[test]
fn proposal_refusals_are_worded_exactly() {
    assert_eq!(ProposeRejection::SlotCount(0).text(), "k must be in 1..=256 (got 0)");
    assert_eq!(ProposeRejection::SlotCount(300).text(), "k must be in 1..=256 (got 300)");
    assert_eq!(
        ProposeRejection::ModelUnsupported(RequestedModel::EventGrammar).text(),
        "model EventGrammar is not supported in M1 (only MODEL_KIND_PAD is available)"
    );
    assert_eq!(
        ProposeRejection::PacksNotLoaded(vec!["a".to_owned(), "b".to_owned()]).text(),
        "experiment config references macro pack(s) not loaded: a, b"
    );
    assert_eq!(ProposeRejection::NodeIdMissing.text(), "node_context.node_id is required");
    assert_eq!(ProposeRejection::UnknownExperiment("exp-1".to_owned()).text(), "unknown experiment_id \"exp-1\"");
    assert_eq!(
        ProposeRejection::ModelMismatch("g".to_owned()).text(),
        "model mismatch: experiment_id \"g\" is configured for EventGrammar, not pad"
    );
}
