use input_synth::mutation::{mutant_clamped, mutant_unchanged};
use input_synth::mutation::{
    apply_duplicate_segment, apply_extend, apply_flip_button, apply_recorded_op, apply_splice, apply_swap_adjacent,
    apply_truncate, parse_appended, parse_hex_32, parse_repeats, parse_run, parse_usize_csv, recorded_arg,
    appended_text, recorded_op_valid, repeats_text, run_text, resolve_donor, split_retry, FlipRepeat,
};
use input_synth::encode::hex_encode;
use input_synth::provenance::MutationOpRec;
use input_synth::text::decimal_text;
use input_synth::types::{PadBurst, PadSegment};

fn seg(buttons: u16, hold_frames: u32) -> PadSegment {
    PadSegment { buttons, hold_frames }
}

fn op(name: &str, args: &[(&str, &str)]) -> MutationOpRec {
    MutationOpRec {
        op: name.to_owned(),
        args: args.iter().map(|(k, v)| ((*k).to_owned(), (*v).to_owned())).collect(),
    }
}

fn base() -> Vec<PadSegment> {
    vec![seg(1, 10), seg(2, 20), seg(4, 30)]
}

#[test]
fn transforms_give_exact_results() {
    let b = base();
    assert_eq!(apply_extend(&b, &[seg(8, 5)]), vec![seg(1, 10), seg(2, 20), seg(4, 30), seg(8, 5)]);
    assert_eq!(apply_splice(&b, &[seg(16, 1), seg(32, 2)], 1, 1), vec![seg(1, 10), seg(32, 2)]);
    assert_eq!(apply_splice(&b, &[seg(16, 1)], 9, 9), b);
    assert_eq!(apply_truncate(&b, 35), vec![seg(1, 10), seg(2, 15)]);
    assert_eq!(apply_truncate(&b, 1000), vec![seg(1, 1)]);
    assert_eq!(apply_truncate(&[], 0), vec![seg(0, 1)]);
    assert_eq!(
        apply_duplicate_segment(&b, 1, 1, 2),
        vec![seg(1, 10), seg(2, 20), seg(2, 20), seg(2, 20), seg(4, 30)]
    );
    assert_eq!(apply_duplicate_segment(&b, 9, 0, 1), vec![seg(1, 10), seg(2, 20), seg(4, 30), seg(4, 30)]);
    assert_eq!(apply_duplicate_segment(&[], 0, 1, 1), vec![]);
    assert_eq!(apply_swap_adjacent(&b, 1), vec![seg(1, 10), seg(4, 30), seg(2, 20)]);
    assert_eq!(apply_swap_adjacent(&b, 2), b);
    let repeats = [
        FlipRepeat { seg: 0, btn_bit: 1, redirect_mask: None },
        FlipRepeat { seg: 2, btn_bit: 0, redirect_mask: Some(0x40) },
        FlipRepeat { seg: 0, btn_bit: 0, redirect_mask: None },
    ];
    assert_eq!(apply_flip_button(&b, &repeats, 0x3c4), vec![seg(2, 10), seg(2, 20), seg(0x40, 30)]);
}

#[test]
fn recorded_argument_parsers() {
    assert_eq!(parse_usize_csv(""), Vec::<usize>::new());
    assert_eq!(parse_usize_csv("0,12,3"), vec![0, 12, 3]);
    assert_eq!(parse_appended("5:10;0:2"), vec![seg(5, 10), seg(0, 2)]);
    assert_eq!(parse_appended(""), vec![]);
    let reps = parse_repeats("1,3;0,2,redirect,256");
    assert_eq!(reps.len(), 2);
    assert_eq!((reps[0].seg, reps[0].btn_bit, reps[0].redirect_mask), (1, 3, None));
    assert_eq!((reps[1].seg, reps[1].btn_bit, reps[1].redirect_mask), (0, 2, Some(256)));
    assert_eq!(parse_run("2,1,3"), (2, 1, 3));
    assert_eq!(parse_run("x,1"), (0, 1, 0));
    let hex = "00ff".repeat(16);
    let id = parse_hex_32(&hex);
    assert_eq!(id[0], 0x00);
    assert_eq!(id[1], 0xff);
    assert_eq!(id[31], 0xff);
}

#[test]
fn recorded_args_are_looked_up_by_name() {
    let args = vec![("a".to_owned(), "1".to_owned()), ("b".to_owned(), "2".to_owned()), ("a".to_owned(), "3".to_owned())];
    assert_eq!(recorded_arg(&args, "a"), "1");
    assert_eq!(recorded_arg(&args, "b"), "2");
    assert_eq!(recorded_arg(&args, "c"), "");
}

#[test]
fn replay_applies_each_integer_operator() {
    let b = base();
    let donor_id = [7u8; 32];
    let donor = PadBurst { segments: vec![seg(64, 3), seg(128, 4)] };
    let other_id = [9u8; 32];
    let other = PadBurst { segments: vec![seg(512, 1)] };
    let donors = [(&other_id, &other), (&donor_id, &donor)];
    let donor_hex = "07".repeat(32);
    assert_eq!(
        apply_recorded_op(&op("extend", &[("appended", "8:5")]), &b, &donors, 0),
        vec![seg(1, 10), seg(2, 20), seg(4, 30), seg(8, 5)]
    );
    assert_eq!(
        apply_recorded_op(&op("flip_button", &[("repeats", "1,0")]), &b, &donors, 0),
        vec![seg(1, 10), seg(3, 20), seg(4, 30)]
    );
    assert_eq!(
        apply_recorded_op(
            &op("splice", &[("donor_burst_id", donor_hex.as_str()), ("i", "2"), ("j", "1")]),
            &b,
            &donors,
            0
        ),
        vec![seg(1, 10), seg(2, 20), seg(128, 4)]
    );
    assert_eq!(
        apply_recorded_op(&op("truncate", &[("frames_dropped", "50")]), &b, &donors, 0),
        vec![seg(1, 10)]
    );
    assert_eq!(
        apply_recorded_op(&op("duplicate_segment", &[("run", "0,2,1")]), &b, &donors, 0),
        vec![seg(1, 10), seg(2, 20), seg(1, 10), seg(2, 20), seg(4, 30)]
    );
    assert_eq!(
        apply_recorded_op(&op("swap_adjacent", &[("boundary", "0")]), &b, &donors, 0),
        vec![seg(2, 20), seg(1, 10), seg(4, 30)]
    );
    assert_eq!(resolve_donor(&donors, &"09".repeat(32)), &[seg(512, 1)][..]);
}

#[test]
fn split_retry_takes_only_a_trailing_marked_op() {
    let ops = vec![op("extend", &[("appended", "")]), op("perturb_timing", &[("retry", "1")])];
    let (main, retry) = split_retry(&ops);
    assert_eq!(main.len(), 1);
    assert_eq!(retry.unwrap().op, "perturb_timing");
    let ops = vec![op("perturb_timing", &[("retry", "1")]), op("extend", &[])];
    let (main, retry) = split_retry(&ops);
    assert_eq!(main.len(), 2);
    assert!(retry.is_none());
    let (main, retry) = split_retry(&[]);
    assert!(main.is_empty() && retry.is_none());
}

#[test]
fn recorded_op_validity_is_checked_before_replay() {
    let b = base();
    let donor_id = [7u8; 32];
    let donor = PadBurst { segments: vec![seg(64, 3)] };
    let donors = [(&donor_id, &donor)];
    let seven = "07".repeat(32);
    let eight = "08".repeat(32);
    assert!(recorded_op_valid(&op("extend", &[("appended", "8:5;16:2")]), &b, &donors));
    assert!(recorded_op_valid(&op("extend", &[]), &b, &donors));
    assert!(!recorded_op_valid(&op("extend", &[("appended", "8-5")]), &b, &donors));
    assert!(!recorded_op_valid(&op("extend", &[("appended", "70000:5")]), &b, &donors));
    assert!(recorded_op_valid(&op("flip_button", &[("repeats", "1,0;2,3,redirect,16")]), &b, &donors));
    assert!(!recorded_op_valid(&op("flip_button", &[("repeats", "1")]), &b, &donors));
    assert!(!recorded_op_valid(&op("flip_button", &[("repeats", "1,16")]), &b, &donors));
    assert!(recorded_op_valid(&op("flip_button", &[("repeats", "5,16")]), &b, &donors));
    assert!(recorded_op_valid(&op("splice", &[("donor_burst_id", seven.as_str())]), &b, &donors));
    assert!(!recorded_op_valid(&op("splice", &[("donor_burst_id", eight.as_str())]), &b, &donors));
    assert!(!recorded_op_valid(&op("splice", &[("donor_burst_id", "07")]), &b, &donors));
    assert!(recorded_op_valid(&op("truncate", &[("frames_dropped", "3")]), &b, &donors));
    assert!(recorded_op_valid(&op("duplicate_segment", &[("run", "0,2,1")]), &b, &donors));
    assert!(recorded_op_valid(&op("swap_adjacent", &[("boundary", "1")]), &b, &donors));
    let top = usize::MAX.to_string();
    assert!(!recorded_op_valid(&op("swap_adjacent", &[("boundary", top.as_str())]), &b, &donors));
    assert!(!recorded_op_valid(&op("perturb_timing", &[]), &b, &donors));
    assert!(!recorded_op_valid(&op("rotate", &[]), &b, &donors));
}

#[test]
fn written_records_read_back() {
    let segs = vec![seg(8, 5), seg(65535, u32::MAX), seg(0, 0)];
    let text = appended_text(&segs);
    assert_eq!(text, "8:5;65535:4294967295;0:0");
    assert_eq!(parse_appended(&text), segs);
    assert_eq!(appended_text(&[]), "");

    let repeats = vec![
        FlipRepeat { seg: 3, btn_bit: 1, redirect_mask: None },
        FlipRepeat { seg: 0, btn_bit: 6, redirect_mask: Some(1 << 9) },
    ];
    let text = repeats_text(&repeats);
    assert_eq!(text, "3,1,toggle;0,6,redirect,512");
    assert_eq!(parse_repeats(&text), repeats);

    let run = run_text(2, 1, 3);
    assert_eq!(run, "2,1,3");
    assert_eq!(parse_run(&run), (2, 1, 3));

    assert_eq!(decimal_text(0), "0");
    assert_eq!(decimal_text(1907), "1907");
    assert_eq!(decimal_text(u64::MAX), u64::MAX.to_string());
}

#[test]
fn hex_ids_read_back() {
    let mut id = [0u8; 32];
    for (i, b) in id.iter_mut().enumerate() {
        *b = (i as u8).wrapping_mul(37).wrapping_add(200);
    }
    let text = hex_encode(&id);
    assert_eq!(text.len(), 64);
    assert_eq!(parse_hex_32(&text), id);
}

#[test]
fn mutant_clamp_and_retry_decisions() {
    let b = base();
    assert!(!mutant_clamped(&b, 16, 60));
    assert!(mutant_clamped(&b, 61, 100));
    assert!(mutant_clamped(&b, 1, 59));
    assert!(mutant_unchanged(&b, &base()));
    assert!(!mutant_unchanged(&b, &[seg(1, 10), seg(2, 20)]));
}
