use input_synth::config::{ButtonAlphabet, ButtonDef, DirectionsCfg, ForbiddenMask};
use input_synth::model::{InputModel, ModelKind};
use input_synth::pad::{bucket_midpoint, hold_bucket, neutral_burst, PadModel};
use input_synth::types::{Burst, PadBurst, PadSegment, Token};

fn console16_alphabet() -> ButtonAlphabet {
    let names = [
        "A", "B", "X", "Y", "L", "R", "UP", "DOWN", "LEFT", "RIGHT", "START", "SELECT",
    ];
    ButtonAlphabet {
        name: "console16-12btn-v1".to_owned(),
        buttons: names
            .iter()
            .enumerate()
            .map(|(i, n)| ButtonDef {
                name: (*n).to_owned(),
                bit: i as u8,
            })
            .collect(),
        exclusive_groups: vec![
            vec!["UP".to_owned(), "DOWN".to_owned()],
            vec!["LEFT".to_owned(), "RIGHT".to_owned()],
        ],
        forbidden_masks: vec![ForbiddenMask {
            mask: vec!["START".to_owned(), "SELECT".to_owned()],
            clear: vec!["SELECT".to_owned()],
        }],
        directions: DirectionsCfg {
            group: vec![
                "UP".to_owned(),
                "DOWN".to_owned(),
                "LEFT".to_owned(),
                "RIGHT".to_owned(),
            ],
            allow_diagonals: true,
        },
    }
}

const UP: u16 = 1 << 6;
const DOWN: u16 = 1 << 7;
const LEFT: u16 = 1 << 8;
const RIGHT: u16 = 1 << 9;
const START: u16 = 1 << 10;
const SELECT: u16 = 1 << 11;
const B: u16 = 1 << 1;

fn model(min_frames: u32, max_frames: u32) -> PadModel {
    PadModel::new(&console16_alphabet(), min_frames, max_frames)
}

fn seg(buttons: u16, hold_frames: u32) -> PadSegment {
    PadSegment {
        buttons,
        hold_frames,
    }
}

fn burst(segments: Vec<PadSegment>) -> Burst {
    Burst::Pad(PadBurst { segments })
}

fn pad_segments(b: &Burst) -> &[PadSegment] {
    let Burst::Pad(pad) = b else {
        unreachable!("only pad bursts exist")
    };
    &pad.segments
}

#[test]
fn up_down_exclusive_clears_both() {
    let m = model(16, 1800);
    let out = m.legalize(burst(vec![seg(UP | DOWN, 30)]));
    assert_eq!(pad_segments(&out), &[seg(0, 30)]);
}

#[test]
fn left_right_exclusive_clears_both() {
    let m = model(16, 1800);
    let out = m.legalize(burst(vec![seg(LEFT | RIGHT | B, 30)]));
    assert_eq!(pad_segments(&out), &[seg(B, 30)]);
}

#[test]
fn start_select_forbidden_clears_select() {
    let m = model(16, 1800);
    let out = m.legalize(burst(vec![seg(START | SELECT, 30)]));
    assert_eq!(pad_segments(&out), &[seg(START, 30)]);
}

#[test]
fn zero_hold_frames_clamped_to_one() {
    let m = model(1, 1800);
    let out = m.legalize(burst(vec![seg(B, 0), seg(0, 20)]));
    assert_eq!(pad_segments(&out), &[seg(B, 1), seg(0, 20)]);
}

#[test]
fn adjacent_equal_masks_merged() {
    let m = model(1, 1800);
    let out = m.legalize(burst(vec![seg(B, 10), seg(B, 5), seg(0, 3)]));
    assert_eq!(pad_segments(&out), &[seg(B, 15), seg(0, 3)]);
}

#[test]
fn empty_burst_becomes_one_neutral_segment_of_min_frames() {
    let m = model(16, 1800);
    let out = m.legalize(burst(vec![]));
    assert_eq!(pad_segments(&out), &[seg(0, 16)]);
}

#[test]
fn over_max_truncated_to_max() {
    let m = model(16, 100);
    let out = m.legalize(burst(vec![seg(B, 60), seg(0, 60)]));
    assert_eq!(pad_segments(&out), &[seg(B, 60), seg(0, 40)]);
}

#[test]
fn under_min_extended_to_min() {
    let m = model(100, 1800);
    let out = m.legalize(burst(vec![seg(B, 10)]));
    assert_eq!(pad_segments(&out), &[seg(B, 100)]);
}

#[test]
fn legalize_is_idempotent_on_fixtures() {
    let m = model(16, 100);
    let inputs = vec![
        burst(vec![seg(UP | DOWN, 30)]),
        burst(vec![seg(START | SELECT, 5), seg(START | SELECT, 5)]),
        burst(vec![]),
        burst(vec![seg(B, 1000), seg(B, 1000)]),
    ];
    for b in inputs {
        let once = m.legalize(b);
        let twice = m.legalize(once.clone());
        assert_eq!(once, twice);
    }
}

#[test]
fn tokenize_bucket_boundaries() {
    let m = model(1, 3000);
    let cases: [(u32, u8); 11] = [
        (1, 0),
        (2, 1),
        (3, 1),
        (4, 2),
        (7, 2),
        (8, 3),
        (15, 3),
        (16, 4),
        (31, 4),
        (32, 5),
        (1000, 5),
    ];
    for (hold, expected_bucket) in cases {
        let b = burst(vec![seg(B, hold)]);
        let tokens = m.tokenize(&b);
        assert_eq!(
            tokens,
            vec![Token {
                mask: B,
                dur_bucket: expected_bucket
            }]
        );
    }
}

#[test]
fn detokenize_preserves_masks_and_segment_count_for_legalized_burst() {
    let m = model(16, 1800);
    let legalized = m.legalize(burst(vec![seg(B, 30), seg(UP, 5), seg(0, 200)]));
    let tokens = m.tokenize(&legalized);
    let back = m.detokenize(&tokens);
    let orig_segments = pad_segments(&legalized);
    let back_segments = pad_segments(&back);
    assert_eq!(orig_segments.len(), back_segments.len());
    for (a, b) in orig_segments.iter().zip(back_segments.iter()) {
        assert_eq!(a.buttons, b.buttons);
    }
}

#[test]
fn bucket_midpoints_are_bucket_stable() {
    for bucket in 0u8..6 {
        let midpoint = bucket_midpoint(bucket);
        let computed = hold_bucket(midpoint);
        assert_eq!(computed, bucket, "midpoint {midpoint} for bucket {bucket}");
    }
}

#[test]
fn zero_hold_tokenizes_to_first_bucket() {
    assert_eq!(hold_bucket(0), 0);
    assert_eq!(bucket_midpoint(9), 48);
}

#[test]
fn model_accessors_and_direction_mask() {
    let m = model(16, 1800);
    assert_eq!(m.min_frames(), 16);
    assert_eq!(m.max_frames(), 1800);
    assert_eq!(m.direction_mask(), UP | DOWN | LEFT | RIGHT);
    assert_eq!(m.kind(), ModelKind::Pad);
    assert_eq!(m.burst_len(&burst(vec![seg(B, 7), seg(0, 9)])), 16);
}

#[test]
fn undeclared_group_names_are_skipped() {
    let mut alphabet = console16_alphabet();
    alphabet.exclusive_groups.push(vec!["UP".to_owned(), "NOPE".to_owned()]);
    let m = PadModel::new(&alphabet, 1, 100);
    let out = m.legalize(burst(vec![seg(UP | LEFT, 10)]));
    assert_eq!(pad_segments(&out), &[seg(UP | LEFT, 10)]);
}

#[test]
fn neutral_burst_has_at_least_one_frame() {
    assert_eq!(pad_segments(&neutral_burst(0)), &[seg(0, 1)]);
    assert_eq!(pad_segments(&neutral_burst(12)), &[seg(0, 12)]);
}

#[test]
fn legalized_output_is_legal_on_a_messy_burst() {
    let m = model(20, 50);
    let out = m.legalize(burst(vec![
        seg(UP | DOWN | START | SELECT, 0),
        seg(START, 4),
        seg(START, 4),
        seg(LEFT | RIGHT, 100),
    ]));
    assert_eq!(pad_segments(&out), &[seg(START, 9), seg(0, 41)]);
}
