use input_synth::mixer::{lay_out_slots, partition_generators, permute_slots, GeneratorOffer};
use input_synth::mutation::sorted_args;
use input_synth::provenance::{Degraded, GeneratorKind};

#[test]
fn offers_split_into_available_and_degraded() {
    let offers = vec![
        GeneratorOffer { kind: GeneratorKind::WeightedRandom, positive: true, unavailable: None },
        GeneratorOffer { kind: GeneratorKind::Macro, positive: true, unavailable: Some("no_macros_loaded".to_owned()) },
        GeneratorOffer { kind: GeneratorKind::Mutation, positive: false, unavailable: Some("no_parent_burst".to_owned()) },
        GeneratorOffer { kind: GeneratorKind::Policy, positive: false, unavailable: None },
    ];
    let (available, degraded) = partition_generators(&offers);
    assert_eq!(available, vec![0]);
    assert_eq!(degraded, vec![Degraded { generator: GeneratorKind::Macro, reason: "no_macros_loaded".to_owned() }]);
}

#[test]
fn slots_lay_out_and_permute() {
    let kinds = [GeneratorKind::WeightedRandom, GeneratorKind::Macro];
    let mut slots = lay_out_slots(&kinds, &[2, 1]);
    assert_eq!(slots, vec![GeneratorKind::WeightedRandom, GeneratorKind::WeightedRandom, GeneratorKind::Macro]);
    // Swap index 2 with 0, then index 1 with 1.
    permute_slots(&mut slots, &[0, 1]);
    assert_eq!(slots, vec![GeneratorKind::Macro, GeneratorKind::WeightedRandom, GeneratorKind::WeightedRandom]);
    let mut empty: Vec<GeneratorKind> = Vec::new();
    permute_slots(&mut empty, &[]);
    assert!(empty.is_empty());
}

#[test]
fn argument_records_sort_stably_by_key() {
    let args = vec![
        ("z_bits".to_owned(), "1".to_owned()),
        ("fired_segments".to_owned(), "2".to_owned()),
        ("retry".to_owned(), "1".to_owned()),
        ("fired_segments".to_owned(), "3".to_owned()),
    ];
    let sorted = sorted_args(args);
    assert_eq!(
        sorted,
        vec![
            ("fired_segments".to_owned(), "2".to_owned()),
            ("fired_segments".to_owned(), "3".to_owned()),
            ("retry".to_owned(), "1".to_owned()),
            ("z_bits".to_owned(), "1".to_owned()),
        ]
    );
}
