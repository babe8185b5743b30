use indexmap::IndexMap;
use input_synth::config::{ButtonAlphabet, ButtonDef, DirectionsCfg, ForbiddenMask, HistoryPredicate, Predicate, PressedWithin};
use input_synth::macros::{
    dur_bucket_midpoint, frame_refs_valid, frame_spec_from_text, resolve, valid_name, validated_pack, FrameBinding, FrameSpec,
    IntRange, MacroDef, MacroSteps, PackIssue, PackRegistry, ParamDef, ParamDomain, RawMacro, RawPack, RegistryWarning,
    ResolveError, ResolvedKind, ScaleFacts, StepSpec, TokenStepSpec, WeightCheck,
};
use input_synth::model::InputModel;
use input_synth::pad::PadModel;
use input_synth::types::{Burst, Token};

fn console16_alphabet() -> ButtonAlphabet {
    let names = ["A", "B", "X", "Y", "L", "R", "UP", "DOWN", "LEFT", "RIGHT", "START", "SELECT"];
    ButtonAlphabet {
        name: "console16-12btn-v1".to_owned(),
        buttons: names
            .iter()
            .enumerate()
            .map(|(i, n)| ButtonDef { name: (*n).to_owned(), bit: i as u8 })
            .collect(),
        exclusive_groups: vec![
            vec!["UP".to_owned(), "DOWN".to_owned()],
            vec!["LEFT".to_owned(), "RIGHT".to_owned()],
        ],
        forbidden_masks: vec![ForbiddenMask {
            mask: vec!["START".to_owned(), "SELECT".to_owned()],
            clear: vec!["SELECT".to_owned()],
        }],
        directions: DirectionsCfg {
            group: vec!["UP".to_owned(), "DOWN".to_owned(), "LEFT".to_owned(), "RIGHT".to_owned()],
            allow_diagonals: true,
        },
    }
}

fn strings(v: &[&str]) -> Vec<String> {
    v.iter().map(|s| (*s).to_owned()).collect()
}

fn simple_macro(name: &str, hold: &[&str], frames: u32) -> RawMacro {
    RawMacro {
        name: name.to_owned(),
        weight_bits: 1.0f64.to_bits(),
        weight_check: WeightCheck::Valid,
        tags: Vec::new(),
        params: Vec::new(),
        scale_facts: Vec::new(),
        eligibility: Vec::new(),
        steps: Some(vec![StepSpec { hold: strings(hold), frames: FrameSpec::Literal(frames) }]),
        token_steps: None,
        mirror: IndexMap::new(),
    }
}

fn pack_doc(name: &str, macros: Vec<RawMacro>) -> RawPack {
    RawPack {
        version: 1,
        kind: "macro_pack".to_owned(),
        name: name.to_owned(),
        model: "pad".to_owned(),
        button_alphabet: "console16-12btn-v1".to_owned(),
        source: "handwritten".to_owned(),
        macros,
    }
}

#[test]
fn cross_pack_duplicate_name_warns_and_latest_wins() {
    let pack_a_yaml = br#"
version: 1
kind: macro_pack
name: pack-a
model: pad
button_alphabet: console16-12btn-v1
source: handwritten
macros:
  - { name: shared-name, weight: 1.0, steps: [{ hold: [A], frames: 4 }] }
"#;
    let pack_b_yaml = br#"
version: 1
kind: macro_pack
name: pack-b
model: pad
button_alphabet: console16-12btn-v1
source: handwritten
macros:
  - { name: shared-name, weight: 1.0, steps: [{ hold: [B], frames: 4 }] }
"#;
    let pack_a = validated_pack(pack_a_yaml, pack_doc("pack-a", vec![simple_macro("shared-name", &["A"], 4)]))
        .expect("load pack-a");
    let pack_b = validated_pack(pack_b_yaml, pack_doc("pack-b", vec![simple_macro("shared-name", &["B"], 4)]))
        .expect("load pack-b");

    let mut registry = PackRegistry::new();
    let warnings_a = registry.insert(pack_a);
    assert!(warnings_a.is_empty(), "first pack never shadows anything");
    let warnings_b = registry.insert(pack_b);
    assert_eq!(warnings_b.len(), 1);
    assert!(matches!(
        &warnings_b[0],
        RegistryWarning::Shadows { macro_name, other_pack } if macro_name == "shared-name" && other_pack == "pack-a"
    ));

    let resolved = resolve(&registry, &strings(&["pack-a", "pack-b"]), &console16_alphabet()).expect("resolve");
    let winners: Vec<_> = resolved.items.iter().filter(|m| m.name == "shared-name").collect();
    assert_eq!(winners.len(), 1, "shared-name present exactly once");
    assert_eq!(winners[0].pack_id, registry.get("pack-b").unwrap().pack_id);
    // The winner is B's recipe: bit 1.
    match &winners[0].kind {
        ResolvedKind::Steps(steps) => assert_eq!(steps[0].static_mask, 1 << 1),
        other => panic!("unexpected kind {other:?}"),
    }
}

#[test]
fn configured_order_not_load_order_picks_the_winner() {
    let pack_a = validated_pack(b"a", pack_doc("pack-a", vec![simple_macro("m", &["A"], 4)])).unwrap();
    let pack_b = validated_pack(b"b", pack_doc("pack-b", vec![simple_macro("m", &["B"], 4)])).unwrap();
    let mut registry = PackRegistry::new();
    registry.insert(pack_b);
    registry.insert(pack_a);
    let resolved = resolve(&registry, &strings(&["pack-b", "pack-a"]), &console16_alphabet()).unwrap();
    assert_eq!(resolved.items.len(), 1);
    assert_eq!(resolved.items[0].pack_id, registry.get("pack-a").unwrap().pack_id);
}

#[test]
fn token_steps_midpoints_match_synth_pad_detokenize() {
    let model = PadModel::new(&console16_alphabet(), 16, 1800);
    for bucket in 0u8..=5 {
        let Burst::Pad(pad) = model.detokenize(&[Token { mask: 0, dur_bucket: bucket }]) else {
            unreachable!("pad model emits pad bursts")
        };
        assert_eq!(dur_bucket_midpoint(bucket), pad.segments[0].hold_frames);
    }
    assert_eq!(dur_bucket_midpoint(9), 48);
}

#[test]
fn pack_ids_are_blake3_hex_of_the_bytes() {
    let a = validated_pack(b"same bytes", pack_doc("p", vec![simple_macro("m", &["A"], 1)])).unwrap();
    let b = validated_pack(b"same bytes", pack_doc("p", vec![simple_macro("m", &["A"], 1)])).unwrap();
    let c = validated_pack(b"other bytes", pack_doc("p", vec![simple_macro("m", &["A"], 1)])).unwrap();
    assert_eq!(a.pack_id, b.pack_id);
    assert_ne!(a.pack_id, c.pack_id);
    assert_eq!(a.pack_id, blake3::hash(b"same bytes").to_hex().to_string());
    assert_eq!(a.pack_id.len(), 64);
}

#[test]
fn pack_level_issues_are_all_reported_in_order() {
    let mut doc = pack_doc("Bad_Name", Vec::new());
    doc.version = 2;
    doc.kind = "other".to_owned();
    doc.model = "event_grammar".to_owned();
    doc.source = "scraped".to_owned();
    let issues = validated_pack(b"x", doc).unwrap_err();
    assert_eq!(
        issues,
        vec![
            PackIssue::Version(2),
            PackIssue::Kind("other".to_owned()),
            PackIssue::Name("Bad_Name".to_owned()),
            PackIssue::EventGrammarModel,
            PackIssue::Source("scraped".to_owned()),
            PackIssue::NoMacros,
        ]
    );
    let mut doc = pack_doc("ok", vec![simple_macro("m", &["A"], 1)]);
    doc.model = "vector".to_owned();
    assert_eq!(validated_pack(b"x", doc).unwrap_err(), vec![PackIssue::Model("vector".to_owned())]);
}

#[test]
fn macro_level_issues_cover_each_rule() {
    let mut dup = simple_macro("m", &["A"], 1);
    dup.weight_check = WeightCheck::NotPositive;
    let mut params_macro = simple_macro("p", &["side"], 1);
    params_macro.params = vec![
        ParamDef { name: "side".to_owned(), domain: ParamDomain::Enum(strings(&["l", "r"])) },
        ParamDef { name: "side".to_owned(), domain: ParamDomain::Enum(Vec::new()) },
        ParamDef { name: "n".to_owned(), domain: ParamDomain::Int(IntRange { min: 5, max: 1 }) },
        ParamDef { name: "w".to_owned(), domain: ParamDomain::Int(IntRange { min: 0, max: 1 << 40 }) },
    ];
    params_macro.scale_facts = vec![ScaleFacts { finite: true, min_gt_max: false, min_not_positive: false }; 4];
    let mut mirror = IndexMap::new();
    let mut side = IndexMap::new();
    side.insert("l".to_owned(), "LEFT".to_owned());
    mirror.insert("side".to_owned(), side);
    params_macro.mirror = mirror;
    params_macro.eligibility = vec![Predicate::History {
        history: HistoryPredicate { pressed_within: PressedWithin { button: "A".to_owned(), frames: 3 } },
    }];
    let mut both = simple_macro("both", &["A"], 1);
    both.token_steps = Some(vec![TokenStepSpec { mask: strings(&["A"]), dur_bucket: 9 }]);
    let mut tokens = simple_macro("tok", &["A"], 1);
    tokens.steps = None;
    tokens.token_steps = Some(vec![TokenStepSpec { mask: strings(&["A"]), dur_bucket: 9 }]);
    let mut frames = simple_macro("fr", &["A"], 1);
    frames.steps = Some(vec![
        StepSpec { hold: strings(&["A"]), frames: FrameSpec::Param("missing".to_owned()) },
        StepSpec { hold: strings(&["k"]), frames: FrameSpec::Param("k".to_owned()) },
    ]);
    frames.params = vec![ParamDef { name: "k".to_owned(), domain: ParamDomain::Enum(strings(&["x"])) }];
    frames.scale_facts = vec![ScaleFacts { finite: true, min_gt_max: false, min_not_positive: false }];
    let doc = pack_doc(
        "ok",
        vec![simple_macro("m", &["A"], 1), dup, params_macro, both, tokens, frames],
    );
    let issues = validated_pack(b"x", doc).unwrap_err();
    let w = 1.0f64.to_bits();
    let expected = vec![
        PackIssue::DuplicateMacro("m".to_owned()),
        PackIssue::WeightNotPositive { macro_name: "m".to_owned(), weight_bits: w },
        PackIssue::DuplicateParam { macro_name: "p".to_owned(), param: "side".to_owned() },
        PackIssue::EnumDomainEmpty { macro_name: "p".to_owned(), param: "side".to_owned() },
        PackIssue::IntMinGtMax { macro_name: "p".to_owned(), param: "n".to_owned(), min: 5, max: 1 },
        PackIssue::IntSpanTooWide { macro_name: "p".to_owned(), param: "w".to_owned(), min: 0, max: 1 << 40 },
        PackIssue::HistoryEligibility("p".to_owned()),
        PackIssue::MirrorMissingValue { macro_name: "p".to_owned(), param: "side".to_owned(), value: "r".to_owned() },
        PackIssue::StepsAndTokenSteps("both".to_owned()),
        PackIssue::DurBucketRange { macro_name: "tok".to_owned(), dur_bucket: 9 },
        PackIssue::FramesUndeclaredParam { macro_name: "fr".to_owned(), param: "missing".to_owned() },
        PackIssue::FramesNonIntParam { macro_name: "fr".to_owned(), param: "k".to_owned() },
        PackIssue::NoMirror { macro_name: "fr".to_owned(), param: "k".to_owned() },
    ];
    assert_eq!(issues, expected);
}

#[test]
fn enum_mirrors_resolve_to_bits_and_frames_bind_params() {
    let mut m = simple_macro("dash", &["side", "B"], 1);
    m.params = vec![
        ParamDef { name: "side".to_owned(), domain: ParamDomain::Enum(strings(&["l", "r"])) },
        ParamDef { name: "n".to_owned(), domain: ParamDomain::Int(IntRange { min: 1, max: 9 }) },
    ];
    m.scale_facts = vec![ScaleFacts { finite: true, min_gt_max: false, min_not_positive: false }; 2];
    m.steps = Some(vec![StepSpec { hold: strings(&["side", "B"]), frames: FrameSpec::Param("n".to_owned()) }]);
    let mut side = IndexMap::new();
    side.insert("l".to_owned(), "LEFT".to_owned());
    side.insert("r".to_owned(), "RIGHT".to_owned());
    let mut mirror = IndexMap::new();
    mirror.insert("side".to_owned(), side);
    m.mirror = mirror;
    let pack = validated_pack(b"dash", pack_doc("dash-pack", vec![m])).expect("valid");
    assert!(matches!(pack.macros[0].kind, MacroSteps::Steps(_)));
    let mut registry = PackRegistry::new();
    registry.insert(pack);
    let resolved = resolve(&registry, &strings(&["dash-pack"]), &console16_alphabet()).unwrap();
    let rm = &resolved.items[0];
    match &rm.kind {
        ResolvedKind::Steps(steps) => {
            assert_eq!(steps[0].static_mask, 1 << 1);
            assert_eq!(steps[0].enum_contribs, vec![0]);
            assert_eq!(steps[0].frames, FrameBinding::Param(1));
        }
        other => panic!("unexpected kind {other:?}"),
    }
    assert_eq!(rm.step_mask(1 << 1, &[0], &[(0, "r".to_owned())]), (1 << 1) | (1 << 9));
    assert_eq!(rm.step_mask(1 << 1, &[0], &[(1, "r".to_owned())]), 1 << 1);
    assert_eq!(rm.step_mask(0, &[0, 0], &[(0, "l".to_owned()), (0, "r".to_owned())]), 1 << 8);
    assert_eq!(rm.mirror_bit(0, "l"), Some(1 << 8));
    assert_eq!(rm.mirror_bit(0, "r"), Some(1 << 9));
    assert_eq!(rm.mirror_bit(0, "x"), None);
    assert_eq!(rm.mirror_bit(1, "l"), None);
}

#[test]
fn resolution_errors() {
    let registry = PackRegistry::new();
    assert_eq!(
        resolve(&registry, &strings(&["nope"]), &console16_alphabet()).unwrap_err(),
        ResolveError::PackNotLoaded("nope".to_owned())
    );
    let mut registry = PackRegistry::new();
    let mut doc = pack_doc("other-alpha", vec![simple_macro("m", &["A"], 1)]);
    doc.button_alphabet = "arcade".to_owned();
    registry.insert(validated_pack(b"o", doc).unwrap());
    registry.insert(validated_pack(b"g", pack_doc("ghost", vec![simple_macro("g", &["GHOST"], 1)])).unwrap());
    assert_eq!(
        resolve(&registry, &strings(&["other-alpha"]), &console16_alphabet()).unwrap_err(),
        ResolveError::AlphabetMismatch {
            pack: "other-alpha".to_owned(),
            pack_alphabet: "arcade".to_owned(),
            cfg_alphabet: "console16-12btn-v1".to_owned(),
        }
    );
    assert_eq!(
        resolve(&registry, &strings(&["ghost"]), &console16_alphabet()).unwrap_err(),
        ResolveError::UnresolvableButton { macro_name: "g".to_owned(), button: "GHOST".to_owned() }
    );
}

#[test]
fn registry_replaces_by_id_and_by_name() {
    let mut registry = PackRegistry::new();
    let first = validated_pack(b"v1", pack_doc("p", vec![simple_macro("m", &["A"], 1)])).unwrap();
    let first_id = first.pack_id.clone();
    assert!(registry.insert(first).is_empty());
    let same = validated_pack(b"v1", pack_doc("p", vec![simple_macro("m", &["A"], 1)])).unwrap();
    assert!(registry.insert(same).is_empty(), "same id replaces silently");
    let second = validated_pack(b"v2", pack_doc("p", vec![simple_macro("m", &["A"], 1)])).unwrap();
    let second_id = second.pack_id.clone();
    let warnings = registry.insert(second);
    assert_eq!(
        warnings,
        vec![RegistryWarning::Replaced { name: "p".to_owned(), old_id: first_id.clone(), new_id: second_id.clone() }]
    );
    assert_eq!(registry.pack_ids(), vec![second_id.clone()]);
    assert!(registry.get(&first_id).is_none());
    assert_eq!(registry.get("p").unwrap().pack_id, second_id);
    let other = validated_pack(b"v3", pack_doc("q", vec![simple_macro("z", &["A"], 1)])).unwrap();
    let other_id = other.pack_id.clone();
    registry.insert(other);
    assert_eq!(registry.get(&other_id).unwrap().name, "q");
    assert_eq!(registry.get("q").unwrap().pack_id, other_id);
    let mut sorted = vec![second_id, other_id];
    sorted.sort();
    assert_eq!(registry.pack_ids(), sorted);
}

#[test]
fn names_and_frame_references() {
    assert!(valid_name("console16-movement-core"));
    assert!(valid_name("a1-b2"));
    assert!(!valid_name(""));
    assert!(!valid_name("Upper"));
    assert!(!valid_name("under_score"));
    assert_eq!(frame_spec_from_text("$runup"), Some(FrameSpec::Param("runup".to_owned())));
    assert_eq!(frame_spec_from_text("$"), Some(FrameSpec::Param(String::new())));
    assert_eq!(frame_spec_from_text("runup"), None);
}

#[test]
fn accepted_packs_reference_declared_params_only() {
    let mut m = simple_macro("hold", &["A"], 1);
    m.params = vec![ParamDef { name: "n".to_owned(), domain: ParamDomain::Int(IntRange { min: 1, max: 9 }) }];
    m.scale_facts = vec![ScaleFacts { finite: true, min_gt_max: false, min_not_positive: false }];
    m.steps = Some(vec![StepSpec { hold: strings(&["A"]), frames: FrameSpec::Param("n".to_owned()) }]);
    let pack = validated_pack(b"hold", pack_doc("hold-pack", vec![m])).expect("valid");
    assert!(frame_refs_valid(&pack.macros[0]));
    let mut registry = PackRegistry::new();
    assert!(registry.frames_valid());
    registry.insert(pack);
    assert!(registry.frames_valid());

    let stray = MacroDef {
        name: "stray".to_owned(),
        weight_bits: 1.0f64.to_bits(),
        tags: Vec::new(),
        params: Vec::new(),
        eligibility: Vec::new(),
        kind: MacroSteps::Steps(vec![StepSpec { hold: strings(&["A"]), frames: FrameSpec::Param("m".to_owned()) }]),
        mirror: IndexMap::new(),
    };
    assert!(!frame_refs_valid(&stray));
    let tokens = MacroDef {
        kind: MacroSteps::TokenSteps(vec![TokenStepSpec { mask: strings(&["A"]), dur_bucket: 0 }]),
        ..stray
    };
    assert!(frame_refs_valid(&tokens));
}

#[test]
fn alphabet_bits_are_checked() {
    let mut a = console16_alphabet();
    assert!(a.bits_valid());
    a.buttons.push(ButtonDef { name: "Z".to_owned(), bit: 16 });
    assert!(!a.bits_valid());
}

const SMALL_PACK: &[u8] = b"version: 1
kind: macro_pack
name: small-test-pack
model: pad
button_alphabet: console16-12btn-v1
source: handwritten
macros:
  - { name: test-long-jump, weight: 1.0, steps: [{ hold: [A], frames: 20 }] }
";

const DEMO_PACK: &[u8] = b"version: 1
kind: macro_pack
name: console16-movement-core
model: pad
button_alphabet: console16-12btn-v1
source: handwritten
macros:
  - { name: dash-right, weight: 1.0, steps: [{ hold: [RIGHT, B], frames: 12 }] }
";

#[test]
fn identical_bytes_load_to_the_same_pack_id() {
    let a = validated_pack(SMALL_PACK, pack_doc("small-test-pack", vec![simple_macro("test-long-jump", &["A"], 20)]))
        .expect("load a");
    let b = validated_pack(SMALL_PACK, pack_doc("small-test-pack", vec![simple_macro("test-long-jump", &["A"], 20)]))
        .expect("load b");
    assert_eq!(a.pack_id, b.pack_id);
    assert_eq!(a.pack_id.len(), 64, "blake3-256 hex must be 64 chars");
    assert!(a.pack_id.chars().all(|c| c.is_ascii_hexdigit() && !c.is_ascii_uppercase()));
}

#[test]
fn different_bytes_load_to_different_pack_ids() {
    let a = validated_pack(SMALL_PACK, pack_doc("small-test-pack", vec![simple_macro("test-long-jump", &["A"], 20)]))
        .expect("load small");
    let b = validated_pack(
        DEMO_PACK,
        pack_doc("console16-movement-core", vec![simple_macro("dash-right", &["RIGHT", "B"], 12)]),
    )
    .expect("load demo");
    assert_ne!(a.pack_id, b.pack_id);
}
