use input_synth::compose::{compose_segments, DirSegment};
use input_synth::encode::{burst_hash, burst_wire_bytes, hex_encode};
use input_synth::types::{burst_from_wire, Burst, ConvertError, PadBurst, PadSegment, WireBody};

/// The straightforward per-cut rescan that `compose_segments` must agree with.
fn compose_segments_old(
    target: u64,
    dir_segments: &[DirSegment],
    button_intervals: &[(u16, Vec<(u64, u64)>)],
) -> Vec<PadSegment> {
    let mut cuts: Vec<u64> = vec![0, target];
    let mut acc = 0u64;
    for seg in dir_segments {
        acc += seg.frames;
        if acc < target {
            cuts.push(acc);
        }
    }
    for (_, intervals) in button_intervals {
        for &(start, end) in intervals {
            if start < target {
                cuts.push(start);
            }
            if end < target {
                cuts.push(end);
            }
        }
    }
    cuts.sort_unstable();
    cuts.dedup();

    let mut segments = Vec::with_capacity(cuts.len());
    for window in cuts.windows(2) {
        let (start, end) = (window[0], window[1]);
        if end <= start {
            continue;
        }
        let mut mask = 0u16;
        let mut acc = 0u64;
        for seg in dir_segments {
            let seg_end = acc + seg.frames;
            if start < seg_end {
                mask |= seg.mask;
                break;
            }
            acc = seg_end;
        }
        for (btn_mask, intervals) in button_intervals {
            if intervals.iter().any(|&(s, e)| s <= start && start < e) {
                mask |= btn_mask;
            }
        }
        segments.push(PadSegment {
            buttons: mask,
            hold_frames: u32::try_from(end - start).unwrap_or(u32::MAX),
        });
    }
    segments
}

fn assert_matches(target: u64, dir_segments: &[DirSegment], button_intervals: &[(u16, Vec<(u64, u64)>)]) {
    let old = compose_segments_old(target, dir_segments, button_intervals);
    let new = compose_segments(target, dir_segments, button_intervals);
    assert_eq!(old, new, "target={target}");
}

#[test]
fn dir_total_short_of_target_leaves_trailing_mask_zero() {
    assert_matches(
        1000,
        &[DirSegment { mask: 0b1, frames: 100 }, DirSegment { mask: 0b10, frames: 200 }],
        &[(0b100, vec![(500, 900)])],
    );
}

#[test]
fn dir_total_exceeds_target() {
    assert_matches(
        100,
        &[DirSegment { mask: 0b1, frames: 50 }, DirSegment { mask: 0b10, frames: 100 }],
        &[],
    );
}

#[test]
fn empty_dir_segments_and_empty_intervals() {
    assert_matches(100, &[], &[]);
}

#[test]
fn interval_start_lands_exactly_on_a_cut_boundary() {
    assert_matches(100, &[DirSegment { mask: 0b1, frames: 100 }], &[(0b10, vec![(20, 40)])]);
}

#[test]
fn adjacent_intervals_touch_at_shared_boundary() {
    assert_matches(100, &[], &[(0b1, vec![(0, 20), (20, 40), (40, 60)])]);
}

#[test]
fn interval_ends_exactly_at_target() {
    assert_matches(100, &[], &[(0b1, vec![(50, 100)])]);
}

#[test]
fn compose_exact_segments_for_a_small_case() {
    let out = compose_segments(
        10,
        &[DirSegment { mask: 0b1, frames: 4 }, DirSegment { mask: 0b10, frames: 6 }],
        &[(0b100, vec![(2, 6)])],
    );
    assert_eq!(
        out,
        vec![
            PadSegment { buttons: 0b1, hold_frames: 2 },
            PadSegment { buttons: 0b101, hold_frames: 2 },
            PadSegment { buttons: 0b110, hold_frames: 2 },
            PadSegment { buttons: 0b10, hold_frames: 4 },
        ]
    );
}

#[test]
fn compose_many_overlapping_tracks_matches_rescan() {
    let dirs: Vec<DirSegment> = (0..20).map(|i| DirSegment { mask: 1 << (i % 4), frames: 7 + (i % 5) as u64 }).collect();
    let btns: Vec<(u16, Vec<(u64, u64)>)> = (0..5u16)
        .map(|b| (1u16 << (4 + b), (0..8u64).map(|k| (k * 23 + b as u64, k * 23 + b as u64 + 9)).collect()))
        .collect();
    assert_matches(200, &dirs, &btns);
}

#[test]
fn from_proto_rejects_wide_masks() {
    let body = WireBody::Pad { segments: vec![(0x1_0000, 1)], button_alphabet: "a".to_owned() };
    assert_eq!(
        burst_from_wire(1, &body),
        Err(ConvertError::ButtonsOutOfRange { index: 0, mask: 0x1_0000 })
    );
}

#[test]
fn wire_burst_round_trip_and_errors() {
    let body = WireBody::Pad { segments: vec![(3, 5), (0, 2)], button_alphabet: "console".to_owned() };
    let (burst, alphabet) = burst_from_wire(1, &body).expect("valid wire burst");
    assert_eq!(alphabet, "console");
    assert_eq!(
        burst,
        Burst::Pad(PadBurst {
            segments: vec![PadSegment { buttons: 3, hold_frames: 5 }, PadSegment { buttons: 0, hold_frames: 2 }]
        })
    );
    // Format version 0 means "unset" and is read as the current version.
    assert!(burst_from_wire(0, &body).is_ok());
    assert_eq!(burst_from_wire(2, &body), Err(ConvertError::FormatVersion { got: 2, expected: 1 }));
    assert_eq!(burst_from_wire(1, &WireBody::Missing), Err(ConvertError::MissingBody));
    assert_eq!(burst_from_wire(1, &WireBody::Event), Err(ConvertError::EventModelUnsupported));
}

#[test]
fn wire_bytes_are_the_postcard_encoding() {
    let burst = Burst::Pad(PadBurst {
        segments: vec![PadSegment { buttons: 0x101, hold_frames: 300 }, PadSegment { buttons: 2, hold_frames: 1 }],
    });
    let expected = postcard::to_allocvec(&(1u32, 0u32, vec![(0x101u16, 300u32), (2u16, 1u32)])).unwrap();
    assert_eq!(burst_wire_bytes(&burst), expected);
}

#[test]
fn burst_hash_is_blake3_of_the_wire_bytes_and_input_sensitive() {
    let a = Burst::Pad(PadBurst { segments: vec![PadSegment { buttons: 1, hold_frames: 4 }] });
    let b = Burst::Pad(PadBurst {
        segments: vec![PadSegment { buttons: 1, hold_frames: 4 }, PadSegment { buttons: 1, hold_frames: 1 }],
    });
    assert_eq!(burst_hash(&a), *blake3::hash(&burst_wire_bytes(&a)).as_bytes());
    assert_eq!(burst_hash(&a), burst_hash(&a.clone()));
    assert_ne!(burst_hash(&a), burst_hash(&b));
}

#[test]
fn hex_encode_is_lowercase_two_digits_per_byte() {
    assert_eq!(hex_encode(&[0x00, 0x0f, 0xa0, 0xff]), "000fa0ff");
    assert_eq!(hex_encode(&[]), "");
}
