//! The client-side legality probe of bursts received over the wire for the
//! `console16-12btn-v1` alphabet: every hold positive, no opposing
//! directions held together, no two adjacent segments with one mask, and a
//! total length within the default `[16, 1800]` frames.

use vstd::prelude::*;

use crate::types::WireBody;

verus! {

pub const UP: u32 = 1 << 6;

pub const DOWN: u32 = 1 << 7;

pub const LEFT: u32 = 1 << 8;

pub const RIGHT: u32 = 1 << 9;

pub open spec fn wire_total(segs: Seq<(u32, u32)>) -> nat
    decreases segs.len(),
{
    if segs.len() == 0 {
        0
    } else {
        wire_total(segs.drop_last()) + segs.last().1 as nat
    }
}

pub open spec fn segment_sound(s: (u32, u32)) -> bool {
    &&& s.1 != 0
    &&& !(s.0 & UP != 0 && s.0 & DOWN != 0)
    &&& !(s.0 & LEFT != 0 && s.0 & RIGHT != 0)
}

pub open spec fn probe_legal(segs: Seq<(u32, u32)>) -> bool {
    &&& segs.len() > 0
    &&& forall|i: int| 0 <= i < segs.len() ==> segment_sound(#[trigger] segs[i])
    &&& forall|i: int| 0 < i < segs.len() ==> (#[trigger] segs[i]).0 != segs[i - 1].0
    &&& 16 <= wire_total(segs) <= 1800
}

proof fn lemma_wire_total_mono(segs: Seq<(u32, u32)>, a: int, b: int)
    requires
        0 <= a <= b <= segs.len(),
    ensures
        wire_total(segs.take(a)) <= wire_total(segs.take(b)),
    decreases b - a,
{
    if a < b {
        lemma_wire_total_mono(segs, a, b - 1);
        assert(segs.take(b).drop_last() =~= segs.take(b - 1));
    }
}

/// Whether a received burst passes the probe; a body that is not a pad body
/// never does.
pub fn burst_is_legal(body: &WireBody) -> (r: bool)
    ensures
        r == (body matches WireBody::Pad { segments, .. } && probe_legal(segments@)),
{
    let segs = match body {
        WireBody::Pad { segments, .. } => segments,
        _ => return false,
    };
    if segs.len() == 0 {
        return false;
    }
    let mut total: u64 = 0;
    let mut i: usize = 0;
    while i < segs.len()
        invariant
            i <= segs@.len(),
            segs@.len() > 0,
            *body matches WireBody::Pad { segments, .. } && segments@ == segs@,
            total == wire_total(segs@.take(i as int)),
            total <= 1800,
            forall|k: int| 0 <= k < i ==> segment_sound(#[trigger] segs@[k]),
            forall|k: int| 0 < k < i ==> (#[trigger] segs@[k]).0 != segs@[k - 1].0,
        decreases segs@.len() - i,
    {
        let (mask, hold) = segs[i];
        proof {
            assert(segs@.take(i as int + 1).drop_last() =~= segs@.take(i as int));
        }
        if hold == 0 || (mask & UP != 0 && mask & DOWN != 0) || (mask & LEFT != 0 && mask & RIGHT != 0) {
            proof {
                assert(!segment_sound(segs@[i as int]));
            }
            return false;
        }
        if i > 0 && segs[i - 1].0 == mask {
            proof {
                assert(segs@[i as int].0 == segs@[i as int - 1].0);
            }
            return false;
        }
        total = total + hold as u64;
        if total > 1800 {
            proof {
                lemma_wire_total_mono(segs@, i as int + 1, segs@.len() as int);
                assert(segs@.take(segs@.len() as int) =~= segs@);
            }
            return false;
        }
        i = i + 1;
    }
    proof {
        assert(segs@.take(i as int) =~= segs@);
    }
    total >= 16
}

} // verus!
