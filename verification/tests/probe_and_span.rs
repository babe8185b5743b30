use input_synth::encode::{burst_hash, burst_to_wire};
use input_synth::fingerprint::fingerprint;
use input_synth::legality_probe::burst_is_legal;
use input_synth::macros::chain_span;
use input_synth::types::{burst_from_wire, Burst, PadBurst, PadSegment, WireBody};

fn pad(segments: Vec<(u32, u32)>) -> WireBody {
    WireBody::Pad { segments, button_alphabet: "console16-12btn-v1".to_owned() }
}

#[test]
fn probe_accepts_only_sound_bursts() {
    assert!(burst_is_legal(&pad(vec![(1, 10), (0, 10)])));
    assert!(!burst_is_legal(&pad(vec![(1, 10)])), "under 16 frames");
    assert!(!burst_is_legal(&pad(vec![(1, 1801)])), "over 1800 frames");
    assert!(!burst_is_legal(&pad(vec![])));
    assert!(!burst_is_legal(&pad(vec![(1, 0), (2, 20)])), "zero hold");
    assert!(!burst_is_legal(&pad(vec![(1 << 6 | 1 << 7, 20)])), "up and down");
    assert!(!burst_is_legal(&pad(vec![(1 << 8 | 1 << 9, 20)])), "left and right");
    assert!(!burst_is_legal(&pad(vec![(3, 10), (3, 10)])), "adjacent equal masks");
    assert!(!burst_is_legal(&WireBody::Missing));
    assert!(!burst_is_legal(&WireBody::Event));
}

#[test]
fn chain_span_reports_and_pads() {
    assert_eq!(chain_span(100, 1800, 300, true), (100, Some(200), 200));
    assert_eq!(chain_span(100, 1800, 300, false), (100, None, 0));
    assert_eq!(chain_span(2000, 1800, 300, true), (1800, None, 0));
    assert_eq!(chain_span(300, 1800, 300, true), (300, None, 0));
}

#[test]
fn wire_round_trip_and_id() {
    let burst = Burst::Pad(PadBurst {
        segments: vec![PadSegment { buttons: 0x8001, hold_frames: 7 }, PadSegment { buttons: 0, hold_frames: 9 }],
    });
    let (version, id, body) = burst_to_wire(&burst, "console16-12btn-v1");
    assert_eq!(version, 1);
    assert_eq!(id, burst_hash(&burst));
    let (back, alphabet) = burst_from_wire(version, &body).unwrap();
    assert_eq!(back, burst);
    assert_eq!(alphabet, "console16-12btn-v1");
}

#[test]
fn fingerprint_digests_config_sorted_ids_and_version() {
    let ids = vec!["bbb".to_owned(), "aaa".to_owned()];
    let got = fingerprint(b"cfg", &ids, "0.1.0");
    let mut hasher = blake3::Hasher::new();
    hasher.update(b"cfg");
    hasher.update(b"aaa");
    hasher.update(&[0]);
    hasher.update(b"bbb");
    hasher.update(&[0]);
    hasher.update(b"0.1.0");
    assert_eq!(got, *hasher.finalize().as_bytes());
    let reordered = vec!["aaa".to_owned(), "bbb".to_owned()];
    assert_eq!(fingerprint(b"cfg", &reordered, "0.1.0"), got);
    assert_ne!(fingerprint(b"cfg", &reordered, "0.1.1"), got);
}
