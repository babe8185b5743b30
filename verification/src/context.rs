//! What the generators read of a node's history: the bursts a mutation may
//! start from, and the press / hold queries that history predicates and
//! hold continuation ask of the recent inputs.

use vstd::prelude::*;

use crate::config::{spec_bit, ButtonAlphabet};
use crate::types::{lemma_total_prefix_mono, total_of, PadBurst, PadSegment};

verus! {

/// A previously generated pad burst usable as a mutation base or donor, with
/// its content-addressed id.
#[derive(Clone, Debug, PartialEq)]
pub struct ContextBurst {
    pub pad: PadBurst,
    pub burst_id: [u8; 32],
}

pub open spec fn holds_bit(s: PadSegment, bit: u8) -> bool {
    s.buttons & (1u16 << bit) != 0
}

/// Segment `k` starts a press of `bit`: the bit is on there and was off on
/// the segment before (or `k` is the first segment).
pub open spec fn press_at(segs: Seq<PadSegment>, bit: u8, k: int) -> bool {
    &&& 0 <= k < segs.len()
    &&& holds_bit(segs[k], bit)
    &&& (k == 0 || !holds_bit(segs[k - 1], bit))
}

/// First frame of the last `frames` frames of the history.
pub open spec fn window_start(segs: Seq<PadSegment>, frames: u32) -> nat {
    if total_of(segs) >= frames {
        (total_of(segs) - frames) as nat
    } else {
        0
    }
}

/// A press of `bit` begins within the last `frames` frames of `segs`.
pub open spec fn pressed_within_spec(segs: Seq<PadSegment>, bit: u8, frames: u32) -> bool {
    exists|k: int| #[trigger] press_at(segs, bit, k) && total_of(segs.take(k)) >= window_start(segs, frames)
}

/// Whether the recent inputs show a press (a rising edge, or a hold from the
/// first frame) of `bit` within the last `frames` frames. A press earlier
/// than the window that is still held does not count.
pub fn pressed_within(recent_inputs: Option<&PadBurst>, bit: u8, frames: u32) -> (r: bool)
    requires
        bit < 16,
        recent_inputs matches Some(p) ==> total_of(p.segments@) <= u64::MAX,
    ensures
        r == (recent_inputs matches Some(p) && pressed_within_spec(p.segments@, bit, frames)),
{
    let pad = match recent_inputs {
        None => return false,
        Some(p) => p,
    };
    let ghost segs = pad.segments@;
    let mask: u16 = 1u16 << bit;
    let total = pad.total_frames();
    let window: u64 = if total >= frames as u64 {
        total - frames as u64
    } else {
        0
    };
    let mut frame: u64 = 0;
    let mut prev_set = false;
    let mut i: usize = 0;
    while i < pad.segments.len()
        invariant
            i <= segs.len(),
            segs == pad.segments@,
            recent_inputs matches Some(p) && p.segments@ == segs,
            bit < 16,
            mask == 1u16 << bit,
            total_of(segs) <= u64::MAX,
            window == window_start(segs, frames),
            frame == total_of(segs.take(i as int)),
            i > 0 ==> prev_set == holds_bit(segs[i - 1], bit),
            i == 0 ==> !prev_set,
            forall|k: int| 0 <= k < i ==> !(#[trigger] press_at(segs, bit, k) && total_of(segs.take(k)) >= window),
        decreases segs.len() - i,
    {
        let seg = pad.segments[i];
        let set = seg.buttons & mask != 0;
        if set && !prev_set && frame >= window {
            proof {
                assert(segs[i as int] == seg);
                assert(holds_bit(segs[i as int], bit));
                assert(press_at(segs, bit, i as int));
                assert(press_at(segs, bit, i as int) && total_of(segs.take(i as int)) >= window_start(segs, frames));
            }
            return true;
        }
        proof {
            assert(segs.take(i as int + 1).drop_last() =~= segs.take(i as int));
            lemma_total_prefix_mono(segs, i as int + 1);
            reveal_with_fuel(total_of, 2);
        }
        prev_set = set;
        frame = frame + seg.hold_frames as u64;
        i = i + 1;
    }
    false
}

/// Mask held on the last frame of the history, if there is any history.
pub fn last_frame_mask(recent_inputs: Option<&PadBurst>) -> (r: Option<u16>)
    ensures
        r == match recent_inputs {
            Some(p) => if p.segments@.len() > 0 {
                Some(p.segments@.last().buttons)
            } else {
                None
            },
            None => None::<u16>,
        },
{
    match recent_inputs {
        Some(p) => {
            let n = p.segments.len();
            if n > 0 {
                Some(p.segments[n - 1].buttons)
            } else {
                None
            }
        },
        None => None,
    }
}

/// A history predicate `pressed_within { button, frames }`: false when the
/// button is not declared or there is no history.
pub fn history_predicate_holds(
    alphabet: &ButtonAlphabet,
    recent_inputs: Option<&PadBurst>,
    button: &str,
    frames: u32,
) -> (r: bool)
    requires
        alphabet.bits_ok(),
        recent_inputs matches Some(p) ==> total_of(p.segments@) <= u64::MAX,
    ensures
        r == match spec_bit(alphabet.buttons@, button@) {
            Some(b) => recent_inputs matches Some(p) && pressed_within_spec(p.segments@, b, frames),
            None => false,
        },
{
    match alphabet.bit(button) {
        Some(b) => {
            proof {
                crate::config::lemma_spec_bit_in_range(alphabet.buttons@, button@);
            }
            pressed_within(recent_inputs, b, frames)
        },
        None => false,
    }
}

} // verus!
