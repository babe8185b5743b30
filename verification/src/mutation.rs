//! Mutation transforms: the deterministic segment-list edits that the
//! mutation generator applies with sampled arguments and that replay applies
//! with recorded ones.

use vstd::prelude::*;

use crate::provenance::MutationOpRec;
use crate::text::{
    ascii_bytes, decimal_bytes, decimal_text, free_of, joined, lemma_ascii_concat, lemma_ascii_encoding, lemma_decimal,
    lemma_parse_decimal, lemma_split_joined, lemma_split_once_at, bytes_equal, first_index, lemma_first_index, hex_pair, hex_value, parse_hex_pair, parse_unsigned, parse_unsigned_bytes, split_bytes,
    split_once_bytes, split_once_spec, split_spec,
};
use crate::digest::blake3_hash;
use crate::encode::{burst_hash, burst_wire, hex_char, hex_chars};
use vstd::slice::slice_to_vec;
use crate::macros::{bytes_le, bytes_le_exec};
use crate::types::{segments_total_frames, total_fits, total_of, Burst, PadBurst, PadSegment};
use vstd::string::StringSliceAdditionalSpecFns;
use vstd::utf8::encode_utf8;

verus! {

/// `segments` followed by `appended`.
pub fn apply_extend(segments: &[PadSegment], appended: &[PadSegment]) -> (out: Vec<PadSegment>)
    ensures
        out@ == segments@ + appended@,
{
    let mut out: Vec<PadSegment> = Vec::new();
    let mut i: usize = 0;
    while i < segments.len()
        invariant
            i <= segments@.len(),
            out@ == segments@.take(i as int),
        decreases segments@.len() - i,
    {
        proof {
            assert(segments@.take(i as int + 1) =~= segments@.take(i as int).push(segments@[i as int]));
        }
        out.push(segments[i]);
        i = i + 1;
    }
    let mut j: usize = 0;
    proof {
        assert(segments@.take(i as int) =~= segments@);
    }
    while j < appended.len()
        invariant
            j <= appended@.len(),
            out@ == segments@ + appended@.take(j as int),
        decreases appended@.len() - j,
    {
        proof {
            assert(segments@ + appended@.take(j as int + 1) =~= (segments@ + appended@.take(j as int)).push(
                appended@[j as int],
            ));
        }
        out.push(appended[j]);
        j = j + 1;
    }
    proof {
        assert(appended@.take(j as int) =~= appended@);
    }
    out
}

/// One recorded `flip_button` repeat: toggle `btn_bit` on segment `seg`, or,
/// for a direction button, replace the segment's direction bits.
#[derive(Clone, Copy, Debug, PartialEq, Eq)]
pub struct FlipRepeat {
    pub seg: usize,
    pub btn_bit: u8,
    pub redirect_mask: Option<u16>,
}

pub open spec fn flip_one(b: u16, r: FlipRepeat, dir_group_mask: u16) -> u16 {
    match r.redirect_mask {
        Some(m) => (b & !dir_group_mask) | m,
        None => b ^ (1u16 << r.btn_bit),
    }
}

/// Repeats applied in order; a repeat naming a segment past the end is skipped.
pub open spec fn flip_spec(segs: Seq<PadSegment>, repeats: Seq<FlipRepeat>, dir_group_mask: u16) -> Seq<PadSegment>
    decreases repeats.len(),
{
    if repeats.len() == 0 {
        segs
    } else {
        let prev = flip_spec(segs, repeats.drop_last(), dir_group_mask);
        let r = repeats.last();
        if r.seg < prev.len() {
            prev.update(
                r.seg as int,
                PadSegment { buttons: flip_one(prev[r.seg as int].buttons, r, dir_group_mask), hold_frames: prev[r.seg as int].hold_frames },
            )
        } else {
            prev
        }
    }
}

pub proof fn lemma_flip_len(segs: Seq<PadSegment>, repeats: Seq<FlipRepeat>, dir_group_mask: u16)
    ensures
        flip_spec(segs, repeats, dir_group_mask).len() == segs.len(),
    decreases repeats.len(),
{
    if repeats.len() > 0 {
        lemma_flip_len(segs, repeats.drop_last(), dir_group_mask);
    }
}

/// Toggle repeats that land on a segment name a bit of a 16-bit mask.
pub open spec fn toggles_in_range(len: nat, repeats: Seq<FlipRepeat>) -> bool {
    forall|i: int|
        0 <= i < repeats.len() ==> ((#[trigger] repeats[i]).seg < len && repeats[i].redirect_mask is None
            ==> repeats[i].btn_bit < 16)
}

pub fn apply_flip_button(segments: &[PadSegment], repeats: &[FlipRepeat], dir_group_mask: u16) -> (out: Vec<PadSegment>)
    requires
        toggles_in_range(segments@.len(), repeats@),
    ensures
        out@ == flip_spec(segments@, repeats@, dir_group_mask),
{
    let mut out = apply_extend(segments, &[]);
    proof {
        assert(segments@ + Seq::<PadSegment>::empty() =~= segments@);
        assert(repeats@.take(0) =~= Seq::<FlipRepeat>::empty());
    }
    let mut i: usize = 0;
    while i < repeats.len()
        invariant
            i <= repeats@.len(),
            toggles_in_range(segments@.len(), repeats@),
            out@ == flip_spec(segments@, repeats@.take(i as int), dir_group_mask),
        decreases repeats@.len() - i,
    {
        proof {
            assert(repeats@.take(i as int + 1).drop_last() =~= repeats@.take(i as int));
            lemma_flip_len(segments@, repeats@.take(i as int), dir_group_mask);
        }
        let r = repeats[i];
        if r.seg < out.len() {
            let seg = out[r.seg];
            let buttons = match r.redirect_mask {
                Some(new_mask) => (seg.buttons & !dir_group_mask) | new_mask,
                None => seg.buttons ^ (1u16 << r.btn_bit),
            };
            out.set(r.seg, PadSegment { buttons, hold_frames: seg.hold_frames });
        }
        i = i + 1;
    }
    proof {
        assert(repeats@.take(i as int) =~= repeats@);
    }
    out
}

/// `base[..i] ++ donor[j..]`, cut points clamped to the lengths.
pub open spec fn splice_spec(base: Seq<PadSegment>, donor: Seq<PadSegment>, i: int, j: int) -> Seq<PadSegment> {
    let i2 = if i < base.len() { i } else { base.len() as int };
    let j2 = if j < donor.len() { j } else { donor.len() as int };
    base.take(i2) + donor.skip(j2)
}

pub fn apply_splice(base: &[PadSegment], donor: &[PadSegment], i: usize, j: usize) -> (out: Vec<PadSegment>)
    ensures
        out@ == splice_spec(base@, donor@, i as int, j as int),
{
    let i2 = if i < base.len() {
        i
    } else {
        base.len()
    };
    let j2 = if j < donor.len() {
        j
    } else {
        donor.len()
    };
    let mut out: Vec<PadSegment> = Vec::new();
    let mut a: usize = 0;
    while a < i2
        invariant
            a <= i2 <= base@.len(),
            out@ == base@.take(a as int),
        decreases i2 - a,
    {
        proof {
            assert(base@.take(a as int + 1) =~= base@.take(a as int).push(base@[a as int]));
        }
        out.push(base[a]);
        a = a + 1;
    }
    let mut b: usize = j2;
    proof {
        assert(donor@.skip(j2 as int).take(0) =~= Seq::<PadSegment>::empty());
        assert(out@ =~= base@.take(i2 as int) + donor@.skip(j2 as int).take(0));
    }
    while b < donor.len()
        invariant
            j2 <= b <= donor@.len(),
            out@ == base@.take(i2 as int) + donor@.skip(j2 as int).take(b - j2),
        decreases donor@.len() - b,
    {
        proof {
            assert(donor@.skip(j2 as int).take(b - j2 + 1) =~= donor@.skip(j2 as int).take(b - j2).push(donor@[b as int]));
        }
        out.push(donor[b]);
        b = b + 1;
    }
    proof {
        assert(donor@.skip(j2 as int).take(b - j2) =~= donor@.skip(j2 as int));
    }
    out
}

/// The first `remaining` frames, dropping zero-length pieces.
pub open spec fn keep_prefix(segs: Seq<PadSegment>, remaining: nat) -> Seq<PadSegment>
    decreases segs.len(),
{
    if segs.len() == 0 || remaining == 0 {
        Seq::empty()
    } else {
        let take: nat = if (segs[0].hold_frames as nat) < remaining {
            segs[0].hold_frames as nat
        } else {
            remaining
        };
        (if take > 0 {
            seq![PadSegment { buttons: segs[0].buttons, hold_frames: take as u32 }]
        } else {
            Seq::empty()
        }) + keep_prefix(segs.drop_first(), (remaining - take) as nat)
    }
}

/// Drop `frames_dropped` trailing frames, always keeping at least one frame
/// (a lone released frame when nothing of the burst remains).
pub open spec fn truncate_drop_spec(segs: Seq<PadSegment>, frames_dropped: nat) -> Seq<PadSegment> {
    let total = total_of(segs);
    let keep: nat = if total > frames_dropped && total - frames_dropped >= 1 {
        (total - frames_dropped) as nat
    } else {
        1
    };
    let kept = keep_prefix(segs, keep);
    if kept.len() == 0 {
        seq![PadSegment { buttons: 0, hold_frames: 1 }]
    } else {
        kept
    }
}

pub fn apply_truncate(segments: &[PadSegment], frames_dropped: u64) -> (out: Vec<PadSegment>)
    requires
        total_of(segments@) <= u64::MAX,
    ensures
        out@ == truncate_drop_spec(segments@, frames_dropped as nat),
{
    let total = segments_total_frames(segments);
    let rest = total.saturating_sub(frames_dropped);
    let keep: u64 = if rest > 1 {
        rest
    } else {
        1
    };
    let mut out: Vec<PadSegment> = Vec::with_capacity(segments.len());
    let mut remaining = keep;
    let mut i: usize = 0;
    proof {
        assert(segments@.skip(0) =~= segments@);
        assert(out@ + keep_prefix(segments@.skip(0), remaining as nat) == keep_prefix(segments@, keep as nat));
    }
    while i < segments.len() && remaining > 0
        invariant
            i <= segments@.len(),
            out@ + keep_prefix(segments@.skip(i as int), remaining as nat) == keep_prefix(segments@, keep as nat),
        decreases segments@.len() - i,
    {
        let seg = segments[i];
        let take: u64 = if (seg.hold_frames as u64) < remaining {
            seg.hold_frames as u64
        } else {
            remaining
        };
        proof {
            let rest_s = segments@.skip(i as int);
            assert(rest_s[0] == seg);
            assert(rest_s.drop_first() =~= segments@.skip(i as int + 1));
        }
        if take > 0 {
            proof {
                let h = seq![PadSegment { buttons: seg.buttons, hold_frames: take as u32 }];
                assert(out@.push(h[0]) + keep_prefix(segments@.skip(i as int + 1), (remaining - take) as nat)
                    =~= out@ + (h + keep_prefix(segments@.skip(i as int + 1), (remaining - take) as nat)));
            }
            out.push(PadSegment { buttons: seg.buttons, hold_frames: take as u32 });
        } else {
            proof {
                assert(Seq::<PadSegment>::empty() + keep_prefix(segments@.skip(i as int + 1), (remaining - take) as nat)
                    =~= keep_prefix(segments@.skip(i as int + 1), (remaining - take) as nat));
            }
        }
        remaining = remaining - take;
        i = i + 1;
    }
    proof {
        if i == segments@.len() {
            assert(segments@.skip(i as int) =~= Seq::<PadSegment>::empty());
        }
        assert(out@ + Seq::<PadSegment>::empty() =~= out@);
    }
    if out.len() == 0 {
        out.push(PadSegment { buttons: 0, hold_frames: 1 });
        proof {
            assert(out@ =~= seq![PadSegment { buttons: 0, hold_frames: 1 }]);
        }
    }
    out
}

/// Repeat the run `segs[start..end]` `k` extra times right after itself, with
/// `start` clamped to the last segment and the run at least one segment long.
pub open spec fn duplicate_spec(segs: Seq<PadSegment>, start: nat, run_len: nat, k: nat) -> Seq<PadSegment> {
    if segs.len() == 0 {
        Seq::empty()
    } else {
        let s: int = if start < segs.len() - 1 { start as int } else { segs.len() - 1 };
        let rl: int = if run_len == 0 { 1 } else { run_len as int };
        let e: int = if s + rl < segs.len() { s + rl } else { segs.len() as int };
        segs.take(e) + repeat_seq(segs.subrange(s, e), k) + segs.skip(e)
    }
}

/// `k` copies of `run`, back to back.
pub open spec fn repeat_seq(run: Seq<PadSegment>, k: nat) -> Seq<PadSegment>
    decreases k,
{
    if k == 0 {
        Seq::empty()
    } else {
        repeat_seq(run, (k - 1) as nat) + run
    }
}

pub fn apply_duplicate_segment(segments: &[PadSegment], start: usize, run_len: usize, k: usize) -> (out: Vec<PadSegment>)
    requires
        segments@.len() > 0 ==> (if start < segments@.len() - 1 { start as int } else { segments@.len() - 1 })
            + (if run_len == 0 { 1 } else { run_len as int }) <= usize::MAX,
    ensures
        out@ == duplicate_spec(segments@, start as nat, run_len as nat, k as nat),
{
    if segments.len() == 0 {
        return Vec::new();
    }
    let s = if start < segments.len() - 1 {
        start
    } else {
        segments.len() - 1
    };
    let rl = if run_len == 0 {
        1
    } else {
        run_len
    };
    let e = if s + rl < segments.len() {
        s + rl
    } else {
        segments.len()
    };
    let ghost prefix = segments@.take(e as int);
    let mut out = apply_splice(segments, &[], e, 0);
    proof {
        assert(Seq::<PadSegment>::empty().skip(0) =~= Seq::<PadSegment>::empty());
        assert(out@ =~= prefix);
        assert(repeat_seq(segments@.subrange(s as int, e as int), 0) =~= Seq::<PadSegment>::empty());
        assert(prefix + Seq::<PadSegment>::empty() =~= prefix);
    }
    let mut c: usize = 0;
    while c < k
        invariant
            c <= k,
            s < e <= segments@.len(),
            out@ == prefix + repeat_seq(segments@.subrange(s as int, e as int), c as nat),
        decreases k - c,
    {
        let mut q: usize = s;
        let ghost before = out@;
        proof {
            assert(segments@.subrange(s as int, s as int) =~= Seq::<PadSegment>::empty());
            assert(before + Seq::<PadSegment>::empty() =~= before);
        }
        while q < e
            invariant
                s <= q <= e <= segments@.len(),
                out@ == before + segments@.subrange(s as int, q as int),
            decreases e - q,
        {
            proof {
                assert(segments@.subrange(s as int, q as int + 1) =~= segments@.subrange(s as int, q as int).push(segments@[q as int]));
            }
            out.push(segments[q]);
            q = q + 1;
        }
        proof {
            assert(prefix + repeat_seq(segments@.subrange(s as int, e as int), c as nat + 1)
                =~= before + segments@.subrange(s as int, e as int));
        }
        c = c + 1;
    }
    let mut q: usize = e;
    let ghost mid = out@;
    proof {
        assert(segments@.skip(e as int).take(0) =~= Seq::<PadSegment>::empty());
    }
    while q < segments.len()
        invariant
            e <= q <= segments@.len(),
            out@ == mid + segments@.skip(e as int).take(q - e),
        decreases segments@.len() - q,
    {
        proof {
            assert(segments@.skip(e as int).take(q - e + 1) =~= segments@.skip(e as int).take(q - e).push(segments@[q as int]));
        }
        out.push(segments[q]);
        q = q + 1;
    }
    proof {
        assert(segments@.skip(e as int).take(q - e) =~= segments@.skip(e as int));
    }
    out
}

/// Swap the segments on either side of `boundary` when both exist.
pub open spec fn swap_spec(segs: Seq<PadSegment>, boundary: int) -> Seq<PadSegment> {
    if boundary + 1 < segs.len() {
        segs.update(boundary, segs[boundary + 1]).update(boundary + 1, segs[boundary])
    } else {
        segs
    }
}

pub fn apply_swap_adjacent(segments: &[PadSegment], boundary: usize) -> (out: Vec<PadSegment>)
    requires
        boundary < usize::MAX,
    ensures
        out@ == swap_spec(segments@, boundary as int),
{
    let mut out = apply_extend(segments, &[]);
    proof {
        assert(segments@ + Seq::<PadSegment>::empty() =~= segments@);
    }
    if boundary + 1 < out.len() {
        let a = out[boundary];
        let b = out[boundary + 1];
        out.set(boundary, b);
        out.set(boundary + 1, a);
    }
    out
}

// ---------------------------------------------------------------------
// Recorded-argument parsing
// ---------------------------------------------------------------------

/// Value of a parse known to succeed.
pub open spec fn parsed(o: Option<nat>) -> nat {
    match o {
        Some(v) => v,
        None => 0,
    }
}

fn parse_required(part: &Vec<u8>, max: u64) -> (v: u64)
    requires
        parse_unsigned(part@, max as nat) is Some,
    ensures
        v == parsed(parse_unsigned(part@, max as nat)),
{
    match parse_unsigned_bytes(part.as_slice(), max) {
        Some(v) => v,
        None => 0,
    }
}

/// Every comma-separated piece of a non-empty list is a `usize`.
pub open spec fn usize_csv_ok(b: Seq<u8>) -> bool {
    b.len() == 0 || forall|i: int|
        0 <= i < split_spec(b, 44).len() ==> parse_unsigned(#[trigger] split_spec(b, 44)[i], usize::MAX as nat) is Some
}

pub open spec fn usize_csv(b: Seq<u8>) -> Seq<usize> {
    if b.len() == 0 {
        Seq::empty()
    } else {
        split_spec(b, 44).map_values(|p: Seq<u8>| parsed(parse_unsigned(p, usize::MAX as nat)) as usize)
    }
}

/// Comma-separated `usize` list; the empty string is the empty list.
pub fn parse_usize_csv(s: &str) -> (v: Vec<usize>)
    requires
        usize_csv_ok(s.spec_bytes()),
    ensures
        v@ == usize_csv(s.spec_bytes()),
{
    let bytes = s.as_bytes();
    let mut out: Vec<usize> = Vec::new();
    if bytes.len() == 0 {
        return out;
    }
    let parts = split_bytes(bytes, 44);
    let ghost sp = split_spec(bytes@, 44);
    let mut i: usize = 0;
    while i < parts.len()
        invariant
            i <= parts@.len(),
            parts@.map_values(|p: Vec<u8>| p@) == sp,
            sp == split_spec(s.spec_bytes(), 44),
            bytes@.len() > 0,
            bytes@ == s.spec_bytes(),
            usize_csv_ok(s.spec_bytes()),
            out@ == sp.take(i as int).map_values(|p: Seq<u8>| parsed(parse_unsigned(p, usize::MAX as nat)) as usize),
        decreases parts@.len() - i,
    {
        proof {
            assert(sp[i as int] == parts@[i as int]@);
            assert(sp.take(i as int + 1).map_values(|p: Seq<u8>| parsed(parse_unsigned(p, usize::MAX as nat)) as usize)
                =~= sp.take(i as int).map_values(|p: Seq<u8>| parsed(parse_unsigned(p, usize::MAX as nat)) as usize).push(
                parsed(parse_unsigned(sp[i as int], usize::MAX as nat)) as usize));
        }
        let v = parse_required(&parts[i], usize::MAX as u64);
        out.push(v as usize);
        i = i + 1;
    }
    proof {
        assert(sp.take(i as int) =~= sp);
    }
    out
}

/// One `mask:frames` pair of an `extend` record.
pub open spec fn appended_item_ok(p: Seq<u8>) -> bool {
    match split_once_spec(p, 58) {
        Some((a, b)) => parse_unsigned(a, 0xffff) is Some && parse_unsigned(b, u32::MAX as nat) is Some,
        None => false,
    }
}

pub open spec fn appended_item(p: Seq<u8>) -> PadSegment {
    match split_once_spec(p, 58) {
        Some((a, b)) => PadSegment {
            buttons: parsed(parse_unsigned(a, 0xffff)) as u16,
            hold_frames: parsed(parse_unsigned(b, u32::MAX as nat)) as u32,
        },
        None => PadSegment { buttons: 0, hold_frames: 0 },
    }
}

pub open spec fn appended_ok(b: Seq<u8>) -> bool {
    b.len() == 0 || forall|i: int| 0 <= i < split_spec(b, 59).len() ==> appended_item_ok(#[trigger] split_spec(b, 59)[i])
}

pub open spec fn appended_spec(b: Seq<u8>) -> Seq<PadSegment> {
    if b.len() == 0 {
        Seq::empty()
    } else {
        split_spec(b, 59).map_values(|p: Seq<u8>| appended_item(p))
    }
}

/// Semicolon-separated `mask:frames` pairs (decimal), as an `extend` records them.
pub fn parse_appended(s: &str) -> (v: Vec<PadSegment>)
    requires
        appended_ok(s.spec_bytes()),
    ensures
        v@ == appended_spec(s.spec_bytes()),
{
    let bytes = s.as_bytes();
    let mut out: Vec<PadSegment> = Vec::new();
    if bytes.len() == 0 {
        return out;
    }
    let parts = split_bytes(bytes, 59);
    let ghost sp = split_spec(bytes@, 59);
    let mut i: usize = 0;
    while i < parts.len()
        invariant
            i <= parts@.len(),
            parts@.map_values(|p: Vec<u8>| p@) == sp,
            sp == split_spec(s.spec_bytes(), 59),
            bytes@.len() > 0,
            bytes@ == s.spec_bytes(),
            appended_ok(s.spec_bytes()),
            out@ == sp.take(i as int).map_values(|p: Seq<u8>| appended_item(p)),
        decreases parts@.len() - i,
    {
        proof {
            assert(sp[i as int] == parts@[i as int]@);
            assert(appended_item_ok(sp[i as int]));
            assert(sp.take(i as int + 1).map_values(|p: Seq<u8>| appended_item(p))
                =~= sp.take(i as int).map_values(|p: Seq<u8>| appended_item(p)).push(appended_item(sp[i as int])));
        }
        match split_once_bytes(parts[i].as_slice(), 58) {
            Some((a, b)) => {
                let mask = parse_required(&a, 0xffff);
                let frames = parse_required(&b, u32::MAX as u64);
                out.push(PadSegment { buttons: mask as u16, hold_frames: frames as u32 });
            },
            None => {},
        }
        i = i + 1;
    }
    proof {
        assert(sp.take(i as int) =~= sp);
    }
    out
}

/// The bytes of `redirect`.
pub open spec fn redirect_word() -> Seq<u8> {
    seq![114u8, 101, 100, 105, 114, 101, 99, 116]
}

/// One `seg,btn_bit,action[,new_dir_mask]` entry of a `flip_button` record.
pub open spec fn repeat_ok(e: Seq<u8>) -> bool {
    let parts = split_spec(e, 44);
    &&& parts.len() >= 2
    &&& parse_unsigned(parts[0], usize::MAX as nat) is Some
    &&& parse_unsigned(parts[1], 0xff) is Some
    &&& parts.len() > 3 && parts[2] == redirect_word() ==> parse_unsigned(parts[3], 0xffff) is Some
}

pub open spec fn repeat_spec(e: Seq<u8>) -> FlipRepeat {
    let parts = split_spec(e, 44);
    FlipRepeat {
        seg: parsed(parse_unsigned(parts[0], usize::MAX as nat)) as usize,
        btn_bit: parsed(parse_unsigned(parts[1], 0xff)) as u8,
        redirect_mask: if parts.len() > 3 && parts[2] == redirect_word() {
            Some(parsed(parse_unsigned(parts[3], 0xffff)) as u16)
        } else {
            None
        },
    }
}

pub open spec fn repeats_ok(b: Seq<u8>) -> bool {
    b.len() == 0 || forall|i: int| 0 <= i < split_spec(b, 59).len() ==> repeat_ok(#[trigger] split_spec(b, 59)[i])
}

pub open spec fn repeats_spec(b: Seq<u8>) -> Seq<FlipRepeat> {
    if b.len() == 0 {
        Seq::empty()
    } else {
        split_spec(b, 59).map_values(|e: Seq<u8>| repeat_spec(e))
    }
}

fn parse_one_repeat(e: &Vec<u8>) -> (r: FlipRepeat)
    requires
        repeat_ok(e@),
    ensures
        r == repeat_spec(e@),
{
    let parts = split_bytes(e.as_slice(), 44);
    proof {
        assert(parts@[0]@ == split_spec(e@, 44)[0]);
        assert(parts@[1]@ == split_spec(e@, 44)[1]);
    }
    let seg = parse_required(&parts[0], usize::MAX as u64);
    let btn_bit = parse_required(&parts[1], 0xff);
    let word: [u8; 8] = [114u8, 101, 100, 105, 114, 101, 99, 116];
    proof {
        assert(word@ =~= redirect_word());
    }
    let redirect_mask = if parts.len() > 3 && bytes_equal(parts[2].as_slice(), word.as_slice()) {
        proof {
            assert(parts@[2]@ == split_spec(e@, 44)[2]);
            assert(parts@[3]@ == split_spec(e@, 44)[3]);
        }
        Some(parse_required(&parts[3], 0xffff) as u16)
    } else {
        proof {
            if parts@.len() > 3 {
                assert(parts@[2]@ == split_spec(e@, 44)[2]);
            }
        }
        None
    };
    FlipRepeat { seg: seg as usize, btn_bit: btn_bit as u8, redirect_mask }
}

/// Semicolon-separated `flip_button` repeats.
pub fn parse_repeats(s: &str) -> (v: Vec<FlipRepeat>)
    requires
        repeats_ok(s.spec_bytes()),
    ensures
        v@ == repeats_spec(s.spec_bytes()),
{
    let bytes = s.as_bytes();
    let mut out: Vec<FlipRepeat> = Vec::new();
    if bytes.len() == 0 {
        return out;
    }
    let parts = split_bytes(bytes, 59);
    let ghost sp = split_spec(bytes@, 59);
    let mut i: usize = 0;
    while i < parts.len()
        invariant
            i <= parts@.len(),
            parts@.map_values(|p: Vec<u8>| p@) == sp,
            sp == split_spec(s.spec_bytes(), 59),
            bytes@.len() > 0,
            bytes@ == s.spec_bytes(),
            repeats_ok(s.spec_bytes()),
            out@ == sp.take(i as int).map_values(|e: Seq<u8>| repeat_spec(e)),
        decreases parts@.len() - i,
    {
        proof {
            assert(sp[i as int] == parts@[i as int]@);
            assert(repeat_ok(sp[i as int]));
            assert(sp.take(i as int + 1).map_values(|e: Seq<u8>| repeat_spec(e))
                =~= sp.take(i as int).map_values(|e: Seq<u8>| repeat_spec(e)).push(repeat_spec(sp[i as int])));
        }
        out.push(parse_one_repeat(&parts[i]));
        i = i + 1;
    }
    proof {
        assert(sp.take(i as int) =~= sp);
    }
    out
}

/// Piece `i` of a comma list read as a `usize`, 0 when absent or malformed.
pub open spec fn run_field(b: Seq<u8>, i: int) -> usize {
    let parts = split_spec(b, 44);
    if i < parts.len() {
        match parse_unsigned(parts[i], usize::MAX as nat) {
            Some(v) => v as usize,
            None => 0,
        }
    } else {
        0
    }
}

/// `start,len,k` of a `duplicate_segment` record; missing or malformed fields read as 0.
pub fn parse_run(s: &str) -> (r: (usize, usize, usize))
    ensures
        r == (run_field(s.spec_bytes(), 0), run_field(s.spec_bytes(), 1), run_field(s.spec_bytes(), 2)),
{
    let parts = split_bytes(s.as_bytes(), 44);
    let mut vals: [usize; 3] = [0usize; 3];
    let mut i: usize = 0;
    while i < 3
        invariant
            i <= 3,
            parts@.map_values(|p: Vec<u8>| p@) == split_spec(s.spec_bytes(), 44),
            forall|q: int| 0 <= q < i ==> #[trigger] vals@[q] == run_field(s.spec_bytes(), q),
        decreases 3 - i,
    {
        if i < parts.len() {
            proof {
                assert(parts@[i as int]@ == split_spec(s.spec_bytes(), 44)[i as int]);
            }
            vals[i] = match parse_unsigned_bytes(parts[i].as_slice(), usize::MAX as u64) {
                Some(v) => v as usize,
                None => 0,
            };
        } else {
            vals[i] = 0;
        }
        i = i + 1;
    }
    (vals[0], vals[1], vals[2])
}

/// 64 bytes, every two-byte chunk a base-16 byte.
pub open spec fn hex32_ok(b: Seq<u8>) -> bool {
    b.len() == 64 && forall|i: int| 0 <= i < 32 ==> (#[trigger] hex_pair(b[2 * i], b[2 * i + 1])) is Some
}

pub open spec fn hex32_spec(b: Seq<u8>) -> Seq<u8> {
    Seq::new(
        32,
        |i: int|
            match hex_pair(b[2 * i], b[2 * i + 1]) {
                Some(v) => v,
                None => 0,
            },
    )
}

/// A recorded 64-digit hex burst id back to its 32 bytes.
pub fn parse_hex_32(s: &str) -> (id: [u8; 32])
    requires
        hex32_ok(s.spec_bytes()),
    ensures
        id@ == hex32_spec(s.spec_bytes()),
{
    let b = s.as_bytes();
    let mut out: [u8; 32] = [0u8; 32];
    let mut i: usize = 0;
    while i < 32
        invariant
            i <= 32,
            b@ == s.spec_bytes(),
            hex32_ok(b@),
            forall|q: int| 0 <= q < i ==> #[trigger] out@[q] == hex32_spec(b@)[q],
        decreases 32 - i,
    {
        let v = match parse_hex_pair(b[2 * i], b[2 * i + 1]) {
            Some(v) => v,
            None => 0,
        };
        out[i] = v;
        i = i + 1;
    }
    proof {
        assert(out@ =~= hex32_spec(b@));
    }
    out
}

proof fn lemma_hex_chars(bytes: Seq<u8>)
    ensures
        hex_chars(bytes).len() == 2 * bytes.len(),
        forall|i: int|
            0 <= i < bytes.len() ==> #[trigger] hex_chars(bytes)[2 * i] == hex_char(bytes[i] / 16)
                && hex_chars(bytes)[2 * i + 1] == hex_char(bytes[i] % 16),
    decreases bytes.len(),
{
    if bytes.len() > 0 {
        lemma_hex_chars(bytes.drop_last());
        assert forall|i: int| 0 <= i < bytes.len() implies #[trigger] hex_chars(bytes)[2 * i] == hex_char(
            bytes[i] / 16,
        ) && hex_chars(bytes)[2 * i + 1] == hex_char(bytes[i] % 16) by {
            if i < bytes.len() - 1 {
                assert(bytes.drop_last()[i] == bytes[i]);
                assert(hex_chars(bytes.drop_last())[2 * i] == hex_char(bytes[i] / 16));
            }
        }
    }
}

proof fn lemma_hex_char_value(n: u8)
    requires
        n < 16,
    ensures
        '\0' <= hex_char(n) <= '\u{7f}',
        hex_value(hex_char(n) as u8) == Some(n as nat),
{
}

/// The hex text of a 32-byte id reads back as that id.
pub proof fn law_hex_round_trip(id: Seq<u8>)
    requires
        id.len() == 32,
    ensures
        hex32_ok(encode_utf8(hex_chars(id))),
        hex32_spec(encode_utf8(hex_chars(id))) == id,
{
    let cs = hex_chars(id);
    lemma_hex_chars(id);
    assert forall|k: int| 0 <= k < cs.len() implies '\0' <= #[trigger] cs[k] <= '\u{7f}' by {
        let i = k / 2;
        assert(k == 2 * i || k == 2 * i + 1);
        assert(0 <= i < id.len());
        lemma_hex_char_value(id[i] / 16);
        lemma_hex_char_value(id[i] % 16);
        assert(cs[2 * i] == hex_char(id[i] / 16));
        assert(cs[2 * i + 1] == hex_char(id[i] % 16));
    }
    vstd::utf8::is_ascii_chars_encode_utf8(cs);
    let b = encode_utf8(cs);
    assert forall|i: int| 0 <= i < 32 implies (#[trigger] hex_pair(b[2 * i], b[2 * i + 1])) == Some(id[i]) by {
        lemma_hex_char_value(id[i] / 16);
        lemma_hex_char_value(id[i] % 16);
        assert(cs[2 * i] == hex_char(id[i] / 16));
        assert(cs[2 * i + 1] == hex_char(id[i] % 16));
        assert(b[2 * i] == cs[2 * i] as u8);
        assert(b[2 * i + 1] == cs[2 * i + 1] as u8);
        assert(b[2 * i] != 43);
        assert((id[i] / 16) * 16 + id[i] % 16 == id[i]);
    }
    assert(hex32_spec(b) =~= id);
}

fn same_id(a: &[u8; 32], b: &[u8; 32]) -> (r: bool)
    ensures
        r == (a@ == b@),
{
    bytes_equal(a.as_slice(), b.as_slice())
}

pub open spec fn donor_ids(donors: Seq<(&[u8; 32], &PadBurst)>) -> Seq<Seq<u8>> {
    donors.map_values(|d: (&[u8; 32], &PadBurst)| d.0@)
}

/// Segments of the donor a recorded splice names by its hex id.
pub fn resolve_donor<'a>(donors: &[(&'a [u8; 32], &'a PadBurst)], donor_id_hex: &str) -> (segs: &'a [PadSegment])
    requires
        hex32_ok(donor_id_hex.spec_bytes()),
        first_index(donor_ids(donors@), hex32_spec(donor_id_hex.spec_bytes())) is Some,
    ensures
        match first_index(donor_ids(donors@), hex32_spec(donor_id_hex.spec_bytes())) {
            Some(i) => segs@ == donors@[i].1.segments@,
            None => false,
        },
{
    let id = parse_hex_32(donor_id_hex);
    let ghost ids = donor_ids(donors@);
    proof {
        lemma_first_index(ids, id@);
    }
    let mut i: usize = 0;
    while i < donors.len()
        invariant
            i <= donors@.len(),
            ids == donor_ids(donors@),
            id@ == hex32_spec(donor_id_hex.spec_bytes()),
            first_index(ids, id@) is Some,
            forall|k: int| 0 <= k < i ==> ids[k] != id@,
            first_index(ids, id@) matches Some(j) ==> 0 <= j < ids.len() && ids[j] == id@ && forall|k: int|
                0 <= k < j ==> ids[k] != id@,
        decreases donors@.len() - i,
    {
        if same_id(donors[i].0, &id) {
            proof {
                assert(ids[i as int] == id@);
                let j = first_index(ids, id@)->Some_0;
                if j < i {
                    assert(ids[j] != id@);
                }
                if j > i {
                    assert(ids[i as int] != id@);
                }
            }
            return donors[i].1.segments.as_slice();
        }
        i = i + 1;
    }
    proof {
        let j = first_index(ids, id@)->Some_0;
        assert(ids[j] != id@);
    }
    &[]
}


// ---------------------------------------------------------------------
// Replay of recorded operators
// ---------------------------------------------------------------------

pub open spec fn arg_keys(args: Seq<(String, String)>) -> Seq<Seq<char>> {
    args.map_values(|a: (String, String)| a.0@)
}

/// Text recorded under `key`: the first argument with that name, or the
/// empty string when the record has none.
pub open spec fn arg_text(args: Seq<(String, String)>, key: Seq<char>) -> Seq<char> {
    match first_index(arg_keys(args), key) {
        Some(i) => args[i].1@,
        None => Seq::empty(),
    }
}

pub open spec fn arg_bytes(op: MutationOpRec, key: Seq<char>) -> Seq<u8> {
    encode_utf8(arg_text(op.args@, key))
}

/// An unsigned decimal no larger than `max`, or 0 when it does not parse.
pub open spec fn parse_or_zero(b: Seq<u8>, max: nat) -> nat {
    match parse_unsigned(b, max) {
        Some(v) => v,
        None => 0,
    }
}

/// Value of the argument named `key`, or the empty string.
pub fn recorded_arg<'a>(args: &'a [(String, String)], key: &str) -> (v: &'a str)
    ensures
        v@ == arg_text(args@, key@),
{
    let wanted = key.to_owned();
    let ghost keys = arg_keys(args@);
    proof {
        lemma_first_index(keys, key@);
    }
    let mut i: usize = 0;
    while i < args.len()
        invariant
            i <= args@.len(),
            keys == arg_keys(args@),
            wanted@ == key@,
            forall|k: int| 0 <= k < i ==> keys[k] != key@,
            first_index(keys, key@) matches Some(j) ==> 0 <= j < keys.len() && keys[j] == key@ && forall|k: int|
                0 <= k < j ==> keys[k] != key@,
            first_index(keys, key@) is None ==> forall|k: int| 0 <= k < keys.len() ==> keys[k] != key@,
        decreases args@.len() - i,
    {
        if args[i].0 == wanted {
            proof {
                assert(keys[i as int] == key@);
                let j = first_index(keys, key@)->Some_0;
                if j < i {
                    assert(keys[j] != key@);
                }
                if j > i {
                    assert(keys[i as int] != key@);
                }
            }
            return args[i].1.as_str();
        }
        i = i + 1;
    }
    proof {
        if first_index(keys, key@) is Some {
            let j = first_index(keys, key@)->Some_0;
            assert(keys[j] != key@);
        }
        reveal_strlit("");
    }
    ""
}

/// Whether a recorded operator is one of the integer transforms with
/// well-formed arguments for `segments` and `donors`.
pub open spec fn recorded_op_ok(
    op: MutationOpRec,
    segments: Seq<PadSegment>,
    donors: Seq<(&[u8; 32], &PadBurst)>,
) -> bool {
    if op.op@ == "extend"@ {
        appended_ok(arg_bytes(op, "appended"@))
    } else if op.op@ == "flip_button"@ {
        &&& repeats_ok(arg_bytes(op, "repeats"@))
        &&& toggles_in_range(segments.len(), repeats_spec(arg_bytes(op, "repeats"@)))
    } else if op.op@ == "splice"@ {
        &&& hex32_ok(arg_bytes(op, "donor_burst_id"@))
        &&& first_index(donor_ids(donors), hex32_spec(arg_bytes(op, "donor_burst_id"@))) is Some
    } else if op.op@ == "truncate"@ {
        total_of(segments) <= u64::MAX
    } else if op.op@ == "duplicate_segment"@ {
        let start = run_field(arg_bytes(op, "run"@), 0);
        let run_len = run_field(arg_bytes(op, "run"@), 1);
        segments.len() > 0 ==> (if start < segments.len() - 1 { start as int } else { segments.len() - 1 }) + (
        if run_len == 0 {
            1
        } else {
            run_len as int
        }) <= usize::MAX
    } else if op.op@ == "swap_adjacent"@ {
        parse_or_zero(arg_bytes(op, "boundary"@), usize::MAX as nat) < usize::MAX
    } else {
        false
    }
}

/// What replaying a recorded integer operator does to `segments`.
pub open spec fn recorded_op_spec(
    op: MutationOpRec,
    segments: Seq<PadSegment>,
    donors: Seq<(&[u8; 32], &PadBurst)>,
    dir_group_mask: u16,
) -> Seq<PadSegment> {
    if op.op@ == "extend"@ {
        segments + appended_spec(arg_bytes(op, "appended"@))
    } else if op.op@ == "flip_button"@ {
        flip_spec(segments, repeats_spec(arg_bytes(op, "repeats"@)), dir_group_mask)
    } else if op.op@ == "splice"@ {
        let d = first_index(donor_ids(donors), hex32_spec(arg_bytes(op, "donor_burst_id"@)))->Some_0;
        splice_spec(
            segments,
            donors[d].1.segments@,
            parse_or_zero(arg_bytes(op, "i"@), usize::MAX as nat) as int,
            parse_or_zero(arg_bytes(op, "j"@), usize::MAX as nat) as int,
        )
    } else if op.op@ == "truncate"@ {
        truncate_drop_spec(segments, parse_or_zero(arg_bytes(op, "frames_dropped"@), u64::MAX as nat))
    } else if op.op@ == "duplicate_segment"@ {
        let b = arg_bytes(op, "run"@);
        duplicate_spec(segments, run_field(b, 0) as nat, run_field(b, 1) as nat, run_field(b, 2) as nat)
    } else {
        swap_spec(segments, parse_or_zero(arg_bytes(op, "boundary"@), usize::MAX as nat) as int)
    }
}

fn parse_lenient(s: &str, max: u64) -> (v: u64)
    ensures
        v == parse_or_zero(s.spec_bytes(), max as nat),
{
    match parse_unsigned_bytes(s.as_bytes(), max) {
        Some(v) => v,
        None => 0,
    }
}

/// Replay one recorded integer operator (every kind but `perturb_timing`)
/// with its recorded arguments; a `splice` reads its own recorded donor.
pub fn apply_recorded_op(
    op: &MutationOpRec,
    segments: &[PadSegment],
    donors: &[(&[u8; 32], &PadBurst)],
    dir_group_mask: u16,
) -> (out: Vec<PadSegment>)
    requires
        recorded_op_ok(*op, segments@, donors@),
    ensures
        out@ == recorded_op_spec(*op, segments@, donors@, dir_group_mask),
{
    let args = op.args.as_slice();
    if op.op == "extend".to_owned() {
        let appended = parse_appended(recorded_arg(args, "appended"));
        apply_extend(segments, appended.as_slice())
    } else if op.op == "flip_button".to_owned() {
        let repeats = parse_repeats(recorded_arg(args, "repeats"));
        apply_flip_button(segments, repeats.as_slice(), dir_group_mask)
    } else if op.op == "splice".to_owned() {
        let i = parse_lenient(recorded_arg(args, "i"), usize::MAX as u64) as usize;
        let j = parse_lenient(recorded_arg(args, "j"), usize::MAX as u64) as usize;
        let donor_segments = resolve_donor(donors, recorded_arg(args, "donor_burst_id"));
        apply_splice(segments, donor_segments, i, j)
    } else if op.op == "truncate".to_owned() {
        let frames_dropped = parse_lenient(recorded_arg(args, "frames_dropped"), u64::MAX);
        apply_truncate(segments, frames_dropped)
    } else if op.op == "duplicate_segment".to_owned() {
        let (start, run_len, k) = parse_run(recorded_arg(args, "run"));
        apply_duplicate_segment(segments, start, run_len, k)
    } else {
        let boundary = parse_lenient(recorded_arg(args, "boundary"), usize::MAX as u64) as usize;
        apply_swap_adjacent(segments, boundary)
    }
}

fn appended_valid(b: &[u8]) -> (r: bool)
    ensures
        r == appended_ok(b@),
{
    if b.len() == 0 {
        return true;
    }
    let parts = split_bytes(b, 59);
    let ghost sp = split_spec(b@, 59);
    let mut i: usize = 0;
    while i < parts.len()
        invariant
            i <= parts@.len(),
            parts@.map_values(|p: Vec<u8>| p@) == sp,
            sp == split_spec(b@, 59),
            b@.len() > 0,
            forall|k: int| 0 <= k < i ==> appended_item_ok(#[trigger] sp[k]),
        decreases parts@.len() - i,
    {
        proof {
            assert(sp[i as int] == parts@[i as int]@);
        }
        let ok = match split_once_bytes(parts[i].as_slice(), 58) {
            Some((x, y)) => parse_unsigned_bytes(x.as_slice(), 0xffff).is_some() && parse_unsigned_bytes(
                y.as_slice(),
                u32::MAX as u64,
            ).is_some(),
            None => false,
        };
        if !ok {
            proof {
                assert(!appended_item_ok(sp[i as int]));
            }
            return false;
        }
        i = i + 1;
    }
    true
}

fn repeat_valid(e: &[u8]) -> (r: bool)
    ensures
        r == repeat_ok(e@),
{
    let parts = split_bytes(e, 44);
    let ghost sp = split_spec(e@, 44);
    proof {
        assert(parts@.len() == sp.len());
    }
    if parts.len() < 2 {
        return false;
    }
    proof {
        assert(parts@[0]@ == sp[0]);
        assert(parts@[1]@ == sp[1]);
    }
    if parse_unsigned_bytes(parts[0].as_slice(), usize::MAX as u64).is_none() {
        return false;
    }
    if parse_unsigned_bytes(parts[1].as_slice(), 0xff).is_none() {
        return false;
    }
    let word: [u8; 8] = [114u8, 101, 100, 105, 114, 101, 99, 116];
    proof {
        assert(word@ =~= redirect_word());
    }
    if parts.len() > 3 && bytes_equal(parts[2].as_slice(), word.as_slice()) {
        proof {
            assert(parts@[2]@ == sp[2]);
            assert(parts@[3]@ == sp[3]);
        }
        parse_unsigned_bytes(parts[3].as_slice(), 0xffff).is_some()
    } else {
        proof {
            if parts@.len() > 3 {
                assert(parts@[2]@ == sp[2]);
            }
        }
        true
    }
}

fn repeats_valid(b: &[u8]) -> (r: bool)
    ensures
        r == repeats_ok(b@),
{
    if b.len() == 0 {
        return true;
    }
    let parts = split_bytes(b, 59);
    let ghost sp = split_spec(b@, 59);
    let mut i: usize = 0;
    while i < parts.len()
        invariant
            i <= parts@.len(),
            parts@.map_values(|p: Vec<u8>| p@) == sp,
            sp == split_spec(b@, 59),
            b@.len() > 0,
            forall|k: int| 0 <= k < i ==> repeat_ok(#[trigger] sp[k]),
        decreases parts@.len() - i,
    {
        proof {
            assert(sp[i as int] == parts@[i as int]@);
        }
        if !repeat_valid(parts[i].as_slice()) {
            return false;
        }
        i = i + 1;
    }
    true
}

fn toggles_valid(len: usize, repeats: &Vec<FlipRepeat>) -> (r: bool)
    ensures
        r == toggles_in_range(len as nat, repeats@),
{
    let mut i: usize = 0;
    while i < repeats.len()
        invariant
            i <= repeats@.len(),
            forall|k: int|
                0 <= k < i ==> ((#[trigger] repeats@[k]).seg < len && repeats@[k].redirect_mask is None
                    ==> repeats@[k].btn_bit < 16),
        decreases repeats@.len() - i,
    {
        let rp = &repeats[i];
        if rp.seg < len && rp.redirect_mask.is_none() && rp.btn_bit >= 16 {
            return false;
        }
        i = i + 1;
    }
    true
}

fn hex32_valid(b: &[u8]) -> (r: bool)
    ensures
        r == hex32_ok(b@),
{
    if b.len() != 64 {
        return false;
    }
    let mut i: usize = 0;
    while i < 32
        invariant
            i <= 32,
            b@.len() == 64,
            forall|k: int| 0 <= k < i ==> (#[trigger] hex_pair(b@[2 * k], b@[2 * k + 1])) is Some,
        decreases 32 - i,
    {
        if parse_hex_pair(b[2 * i], b[2 * i + 1]).is_none() {
            return false;
        }
        i = i + 1;
    }
    true
}

fn donor_known(donors: &[(&[u8; 32], &PadBurst)], id: &[u8; 32]) -> (r: bool)
    ensures
        r == (first_index(donor_ids(donors@), id@) is Some),
{
    let ghost ids = donor_ids(donors@);
    proof {
        lemma_first_index(ids, id@);
    }
    let mut i: usize = 0;
    while i < donors.len()
        invariant
            i <= donors@.len(),
            ids == donor_ids(donors@),
            forall|k: int| 0 <= k < i ==> ids[k] != id@,
        decreases donors@.len() - i,
    {
        if same_id(donors[i].0, id) {
            proof {
                lemma_first_index(ids, id@);
                assert(ids[i as int] == id@);
            }
            return true;
        }
        i = i + 1;
    }
    proof {
        if first_index(ids, id@) is Some {
            let j = first_index(ids, id@)->Some_0;
            assert(ids[j] == id@);
        }
    }
    false
}

/// Whether `apply_recorded_op` may replay `op` against `segments` and
/// `donors`: an integer operator whose recorded arguments are well formed
/// and name a donor that is present.
pub fn recorded_op_valid(op: &MutationOpRec, segments: &[PadSegment], donors: &[(&[u8; 32], &PadBurst)]) -> (r:
    bool)
    ensures
        r == recorded_op_ok(*op, segments@, donors@),
{
    let args = op.args.as_slice();
    if op.op == "extend".to_owned() {
        appended_valid(recorded_arg(args, "appended").as_bytes())
    } else if op.op == "flip_button".to_owned() {
        let text = recorded_arg(args, "repeats");
        if !repeats_valid(text.as_bytes()) {
            return false;
        }
        let repeats = parse_repeats(text);
        toggles_valid(segments.len(), &repeats)
    } else if op.op == "splice".to_owned() {
        let text = recorded_arg(args, "donor_burst_id");
        if !hex32_valid(text.as_bytes()) {
            return false;
        }
        let id = parse_hex_32(text);
        donor_known(donors, &id)
    } else if op.op == "truncate".to_owned() {
        total_fits(segments)
    } else if op.op == "duplicate_segment".to_owned() {
        let (start, run_len, _k) = parse_run(recorded_arg(args, "run"));
        if segments.len() == 0 {
            return true;
        }
        let first = if start < segments.len() - 1 {
            start
        } else {
            segments.len() - 1
        };
        let span = if run_len == 0 {
            1
        } else {
            run_len
        };
        span <= usize::MAX - first
    } else if op.op == "swap_adjacent".to_owned() {
        parse_lenient(recorded_arg(args, "boundary"), usize::MAX as u64) < usize::MAX as u64
    } else {
        false
    }
}

/// Whether a recorded operator carries the `retry` marker of the forced
/// second pass.
pub open spec fn is_retry(op: MutationOpRec) -> bool {
    arg_keys(op.args@).contains("retry"@)
}

fn has_retry_arg(op: &MutationOpRec) -> (r: bool)
    ensures
        r == is_retry(*op),
{
    let wanted = "retry".to_owned();
    let ghost keys = arg_keys(op.args@);
    let mut i: usize = 0;
    while i < op.args.len()
        invariant
            i <= op.args@.len(),
            keys == arg_keys(op.args@),
            wanted@ == "retry"@,
            forall|k: int| 0 <= k < i ==> keys[k] != "retry"@,
        decreases op.args@.len() - i,
    {
        if op.args[i].0 == wanted {
            proof {
                assert(keys[i as int] == "retry"@);
            }
            return true;
        }
        i = i + 1;
    }
    false
}

/// Split a recorded op list into the main ops and the trailing forced retry
/// op, which is present exactly when the last op carries a `retry` argument.
pub fn split_retry(ops: &[MutationOpRec]) -> (r: (&[MutationOpRec], Option<&MutationOpRec>))
    ensures
        ops@.len() > 0 && is_retry(ops@.last()) ==> (r.0@ == ops@.drop_last() && (r.1 matches Some(x)
            && *x == ops@.last())),
        !(ops@.len() > 0 && is_retry(ops@.last())) ==> r.0@ == ops@ && r.1 is None,
{
    let n = ops.len();
    if n > 0 {
        let last = &ops[n - 1];
        if has_retry_arg(last) {
            let (main, _) = ops.split_at(n - 1);
            proof {
                assert(main@ =~= ops@.drop_last());
            }
            return (main, Some(last));
        }
    }
    (ops, None)
}

// ---------------------------------------------------------------------
// Argument records
// ---------------------------------------------------------------------

/// `a` sorts before `b` or with it: byte-wise, as std orders strings.
pub open spec fn key_le(a: String, b: String) -> bool {
    bytes_le(encode_utf8(a@), encode_utf8(b@))
}

/// `x` placed after every element whose key is not greater than its own,
/// counting from the end of the already sorted `s`.
pub open spec fn insert_by_key(s: Seq<(String, String)>, x: (String, String)) -> Seq<(String, String)>
    decreases s.len(),
{
    if s.len() == 0 {
        seq![x]
    } else if key_le(s.last().0, x.0) {
        s.push(x)
    } else {
        insert_by_key(s.drop_last(), x).push(s.last())
    }
}

/// A stable sort by key: each record inserted, in order, after every
/// earlier record whose key is not greater.
pub open spec fn sorted_by_key(s: Seq<(String, String)>) -> Seq<(String, String)>
    decreases s.len(),
{
    if s.len() == 0 {
        Seq::empty()
    } else {
        insert_by_key(sorted_by_key(s.drop_last()), s.last())
    }
}

proof fn lemma_insert_at(s: Seq<(String, String)>, x: (String, String), q: int)
    requires
        0 <= q <= s.len(),
        forall|k: int| q <= k < s.len() ==> !key_le(#[trigger] s[k].0, x.0),
        q == 0 || key_le(s[q - 1].0, x.0),
    ensures
        insert_by_key(s, x) == s.take(q) + seq![x] + s.skip(q),
    decreases s.len() - q,
{
    if q == s.len() {
        if s.len() == 0 {
            assert(s.take(q) + seq![x] + s.skip(q) =~= seq![x]);
        } else {
            assert(s.take(q) + seq![x] + s.skip(q) =~= s.push(x));
        }
    } else {
        let t = s.drop_last();
        assert(!key_le(s.last().0, x.0));
        assert forall|k: int| q <= k < t.len() implies !key_le(#[trigger] t[k].0, x.0) by {
            assert(t[k] == s[k]);
        }
        if q > 0 {
            assert(t[q - 1] == s[q - 1]);
        }
        lemma_insert_at(t, x, q);
        assert(t.take(q) + seq![x] + t.skip(q) + seq![s.last()] =~= s.take(q) + seq![x] + s.skip(q));
    }
}

/// An op's argument records sorted by key, records with equal keys keeping
/// their order.
pub fn sorted_args(args: Vec<(String, String)>) -> (out: Vec<(String, String)>)
    ensures
        out@ == sorted_by_key(args@),
{
    let mut out: Vec<(String, String)> = Vec::new();
    let mut i: usize = 0;
    while i < args.len()
        invariant
            i <= args@.len(),
            out@ == sorted_by_key(args@.take(i as int)),
        decreases args@.len() - i,
    {
        let x = (args[i].0.clone(), args[i].1.clone());
        proof {
            assert(x == args@[i as int]);
        }
        let mut q: usize = out.len();
        while q > 0 && !bytes_le_exec(out[q - 1].0.as_str().as_bytes(), x.0.as_str().as_bytes())
            invariant
                q <= out@.len(),
                forall|k: int| q <= k < out@.len() ==> !key_le(#[trigger] out@[k].0, x.0),
            decreases q,
        {
            q = q - 1;
        }
        proof {
            lemma_insert_at(out@, x, q as int);
            assert(args@.take(i as int + 1).drop_last() =~= args@.take(i as int));
        }
        out.insert(q, x);
        proof {
            assert(out@ =~= sorted_by_key(args@.take(i as int + 1)));
        }
        i = i + 1;
    }
    proof {
        assert(args@.take(i as int) =~= args@);
    }
    out
}
// ---------------------------------------------------------------------
// Record writers: the argument texts of the integer operators
// ---------------------------------------------------------------------

/// The bytes of `toggle`.
pub open spec fn toggle_word() -> Seq<u8> {
    seq![116u8, 111, 103, 103, 108, 101]
}

/// `start,len,k` of a `duplicate_segment` record.
pub open spec fn run_bytes(start: usize, run_len: usize, k: usize) -> Seq<u8> {
    joined(seq![decimal_bytes(start as nat), decimal_bytes(run_len as nat), decimal_bytes(k as nat)], 44)
}

/// `mask:frames` of one appended segment.
pub open spec fn appended_item_bytes(s: PadSegment) -> Seq<u8> {
    decimal_bytes(s.buttons as nat).push(58) + decimal_bytes(s.hold_frames as nat)
}

/// The `appended` record of an `extend`.
pub open spec fn appended_bytes(segs: Seq<PadSegment>) -> Seq<u8> {
    joined(segs.map_values(|s: PadSegment| appended_item_bytes(s)), 59)
}

/// `seg,bit,toggle` or `seg,bit,redirect,mask` of one flip.
pub open spec fn repeat_parts(r: FlipRepeat) -> Seq<Seq<u8>> {
    match r.redirect_mask {
        None => seq![decimal_bytes(r.seg as nat), decimal_bytes(r.btn_bit as nat), toggle_word()],
        Some(m) => seq![
            decimal_bytes(r.seg as nat),
            decimal_bytes(r.btn_bit as nat),
            redirect_word(),
            decimal_bytes(m as nat),
        ],
    }
}

/// The `repeats` record of a `flip_button`.
pub open spec fn repeats_bytes(rs: Seq<FlipRepeat>) -> Seq<u8> {
    joined(rs.map_values(|r: FlipRepeat| joined(repeat_parts(r), 44)), 59)
}

proof fn lemma_digits_free(n: nat, sep: u8)
    requires
        !(48 <= sep <= 57),
    ensures
        free_of(decimal_bytes(n), sep),
{
    lemma_decimal(n);
}

proof fn lemma_joined_free(parts: Seq<Seq<u8>>, inner: u8, outer: u8)
    requires
        inner != outer,
        forall|i: int| 0 <= i < parts.len() ==> free_of(#[trigger] parts[i], outer),
    ensures
        free_of(joined(parts, inner), outer),
    decreases parts.len(),
{
    if parts.len() > 1 {
        let init = parts.drop_last();
        assert forall|i: int| 0 <= i < init.len() implies free_of(#[trigger] init[i], outer) by {
            assert(init[i] == parts[i]);
        }
        lemma_joined_free(init, inner, outer);
        let a = joined(init, inner).push(inner);
        let b = parts.last();
        assert(free_of(b, outer));
        assert forall|i: int| 0 <= i < (a + b).len() implies (a + b)[i] != outer by {
            if i < a.len() {
                assert((a + b)[i] == a[i]);
            } else {
                assert((a + b)[i] == b[i - a.len()]);
            }
        }
    } else if parts.len() == 1 {
        assert(free_of(parts[0], outer));
    }
}

proof fn lemma_joined_nonempty(parts: Seq<Seq<u8>>, sep: u8)
    requires
        parts.len() >= 1,
        parts[0].len() >= 1,
    ensures
        joined(parts, sep).len() >= 1,
    decreases parts.len(),
{
    if parts.len() > 1 {
        lemma_joined_nonempty(parts.drop_last(), sep);
    }
}

proof fn lemma_joined3(a: Seq<u8>, b: Seq<u8>, c: Seq<u8>, sep: u8)
    ensures
        joined(seq![a, b, c], sep) == (a.push(sep) + b).push(sep) + c,
{
    let s3 = seq![a, b, c];
    let s2 = seq![a, b];
    let s1 = seq![a];
    assert(s3.drop_last() =~= s2);
    assert(s2.drop_last() =~= s1);
    assert(joined(s1, sep) == a);
    assert(joined(s2, sep) == joined(s1, sep).push(sep) + b);
    assert(joined(s3, sep) == joined(s2, sep).push(sep) + c);
}

proof fn lemma_joined4(a: Seq<u8>, b: Seq<u8>, c: Seq<u8>, d: Seq<u8>, sep: u8)
    ensures
        joined(seq![a, b, c, d], sep) == ((a.push(sep) + b).push(sep) + c).push(sep) + d,
{
    assert(seq![a, b, c, d].drop_last() =~= seq![a, b, c]);
    lemma_joined3(a, b, c, sep);
}

fn push_sep(t: &mut String, sep: u8)
    requires
        sep == 44 || sep == 58 || sep == 59,
        vstd::utf8::is_ascii_chars(old(t)@),
    ensures
        vstd::utf8::is_ascii_chars(final(t)@),
        ascii_bytes(final(t)@) == ascii_bytes(old(t)@).push(sep),
{
    let ghost before = t@;
    if sep == 44 {
        proof {
            reveal_strlit(",");
        }
        t.append(",");
    } else if sep == 58 {
        proof {
            reveal_strlit(":");
        }
        t.append(":");
    } else {
        proof {
            reveal_strlit(";");
        }
        t.append(";");
    }
    proof {
        lemma_ascii_concat(before, t@.skip(before.len() as int));
        assert(t@ =~= before + t@.skip(before.len() as int));
        assert(ascii_bytes(t@) =~= ascii_bytes(before).push(sep));
    }
}

fn push_decimal(t: &mut String, n: u64)
    requires
        vstd::utf8::is_ascii_chars(old(t)@),
    ensures
        vstd::utf8::is_ascii_chars(final(t)@),
        ascii_bytes(final(t)@) == ascii_bytes(old(t)@) + decimal_bytes(n as nat),
{
    let ghost before = t@;
    let d = decimal_text(n);
    t.append(d.as_str());
    proof {
        lemma_decimal(n as nat);
        lemma_ascii_concat(before, d@);
    }
}

fn push_word(t: &mut String, redirect: bool)
    requires
        vstd::utf8::is_ascii_chars(old(t)@),
    ensures
        vstd::utf8::is_ascii_chars(final(t)@),
        ascii_bytes(final(t)@) == ascii_bytes(old(t)@) + if redirect {
            redirect_word()
        } else {
            toggle_word()
        },
{
    let ghost before = t@;
    if redirect {
        proof {
            reveal_strlit("redirect");
        }
        t.append("redirect");
    } else {
        proof {
            reveal_strlit("toggle");
        }
        t.append("toggle");
    }
    proof {
        let w = t@.skip(before.len() as int);
        assert(t@ =~= before + w);
        lemma_ascii_concat(before, w);
        if redirect {
            assert(ascii_bytes(w) =~= redirect_word());
        } else {
            assert(ascii_bytes(w) =~= toggle_word());
        }
    }
}

/// The `run` record of a `duplicate_segment`; it reads back as its three fields.
pub fn run_text(start: usize, run_len: usize, k: usize) -> (t: String)
    ensures
        encode_utf8(t@) == run_bytes(start, run_len, k),
        run_field(encode_utf8(t@), 0) == start,
        run_field(encode_utf8(t@), 1) == run_len,
        run_field(encode_utf8(t@), 2) == k,
{
    let mut t = String::new();
    proof {
        assert(ascii_bytes(t@) =~= Seq::<u8>::empty());
    }
    push_decimal(&mut t, start as u64);
    push_sep(&mut t, 44);
    push_decimal(&mut t, run_len as u64);
    push_sep(&mut t, 44);
    push_decimal(&mut t, k as u64);
    proof {
        let parts = seq![decimal_bytes(start as nat), decimal_bytes(run_len as nat), decimal_bytes(k as nat)];
        lemma_joined3(decimal_bytes(start as nat), decimal_bytes(run_len as nat), decimal_bytes(k as nat), 44);
        assert(ascii_bytes(t@) =~= joined(parts, 44));
        lemma_ascii_encoding(t@);
        lemma_digits_free(start as nat, 44);
        lemma_digits_free(run_len as nat, 44);
        lemma_digits_free(k as nat, 44);
        lemma_split_joined(parts, 44);
        lemma_parse_decimal(start as nat, usize::MAX as nat);
        lemma_parse_decimal(run_len as nat, usize::MAX as nat);
        lemma_parse_decimal(k as nat, usize::MAX as nat);
    }
    t
}

proof fn lemma_appended_item(s: PadSegment)
    ensures
        appended_item_ok(appended_item_bytes(s)),
        appended_item(appended_item_bytes(s)) == s,
        free_of(appended_item_bytes(s), 59),
        appended_item_bytes(s).len() >= 1,
{
    let a = decimal_bytes(s.buttons as nat);
    let b = decimal_bytes(s.hold_frames as nat);
    lemma_digits_free(s.buttons as nat, 58);
    lemma_digits_free(s.buttons as nat, 59);
    lemma_digits_free(s.hold_frames as nat, 59);
    lemma_split_once_at(a, b, 58);
    lemma_parse_decimal(s.buttons as nat, 0xffff);
    lemma_parse_decimal(s.hold_frames as nat, u32::MAX as nat);
    let x = a.push(58) + b;
    assert forall|i: int| 0 <= i < x.len() implies x[i] != 59 by {
        if i < a.len() {
            assert(x[i] == a[i]);
        } else if i > a.len() {
            assert(x[i] == b[i - a.len() - 1]);
        }
    }
}

/// The `appended` record of an `extend`; it reads back as the segments.
pub fn appended_text(segs: &[PadSegment]) -> (t: String)
    ensures
        encode_utf8(t@) == appended_bytes(segs@),
        appended_ok(encode_utf8(t@)),
        appended_spec(encode_utf8(t@)) == segs@,
{
    let ghost items = segs@.map_values(|s: PadSegment| appended_item_bytes(s));
    let mut t = String::new();
    proof {
        assert(ascii_bytes(t@) =~= Seq::<u8>::empty());
        assert(items.take(0) =~= Seq::<Seq<u8>>::empty());
    }
    let mut i: usize = 0;
    while i < segs.len()
        invariant
            i <= segs@.len(),
            items == segs@.map_values(|s: PadSegment| appended_item_bytes(s)),
            vstd::utf8::is_ascii_chars(t@),
            ascii_bytes(t@) == joined(items.take(i as int), 59),
        decreases segs@.len() - i,
    {
        let ghost prev = ascii_bytes(t@);
        if i > 0 {
            push_sep(&mut t, 59);
        }
        push_decimal(&mut t, segs[i].buttons as u64);
        push_sep(&mut t, 58);
        push_decimal(&mut t, segs[i].hold_frames as u64);
        proof {
            let it = appended_item_bytes(segs@[i as int]);
            assert(items[i as int] == it);
            assert(items.take(i as int + 1).drop_last() =~= items.take(i as int));
            if i > 0 {
                assert(ascii_bytes(t@) =~= prev.push(59) + it);
            } else {
                assert(ascii_bytes(t@) =~= it);
            }
        }
        i = i + 1;
    }
    proof {
        assert(items.take(i as int) =~= items);
        lemma_ascii_encoding(t@);
        let b = encode_utf8(t@);
        if segs@.len() > 0 {
            assert forall|k: int| 0 <= k < items.len() implies free_of(#[trigger] items[k], 59) by {
                lemma_appended_item(segs@[k]);
            }
            lemma_split_joined(items, 59);
            lemma_appended_item(segs@[0]);
            lemma_joined_nonempty(items, 59);
            assert forall|k: int| 0 <= k < items.len() implies appended_item_ok(#[trigger] items[k]) by {
                lemma_appended_item(segs@[k]);
            }
            assert(appended_spec(b) =~= segs@) by {
                assert forall|k: int| 0 <= k < segs@.len() implies #[trigger] appended_spec(b)[k] == segs@[k] by {
                    lemma_appended_item(segs@[k]);
                }
            }
        } else {
            assert(b.len() == 0);
            assert(appended_spec(b) =~= segs@);
        }
    }
    t
}

proof fn lemma_repeat_item(r: FlipRepeat)
    ensures
        repeat_ok(joined(repeat_parts(r), 44)),
        repeat_spec(joined(repeat_parts(r), 44)) == r,
        free_of(joined(repeat_parts(r), 44), 59),
        joined(repeat_parts(r), 44).len() >= 1,
{
    let ps = repeat_parts(r);
    lemma_digits_free(r.seg as nat, 44);
    lemma_digits_free(r.btn_bit as nat, 44);
    lemma_digits_free(r.seg as nat, 59);
    lemma_digits_free(r.btn_bit as nat, 59);
    lemma_parse_decimal(r.seg as nat, usize::MAX as nat);
    lemma_parse_decimal(r.btn_bit as nat, 0xff);
    assert(free_of(redirect_word(), 44) && free_of(redirect_word(), 59));
    assert(free_of(toggle_word(), 44) && free_of(toggle_word(), 59));
    if let Some(m) = r.redirect_mask {
        lemma_digits_free(m as nat, 44);
        lemma_digits_free(m as nat, 59);
        lemma_parse_decimal(m as nat, 0xffff);
    } else {
        assert(toggle_word() != redirect_word());
    }
    assert forall|i: int| 0 <= i < ps.len() implies free_of(#[trigger] ps[i], 44) by {}
    assert forall|i: int| 0 <= i < ps.len() implies free_of(#[trigger] ps[i], 59) by {}
    lemma_split_joined(ps, 44);
    lemma_joined_free(ps, 44, 59);
    lemma_decimal(r.seg as nat);
    lemma_joined_nonempty(ps, 44);
}

/// The `repeats` record of a `flip_button`; it reads back as the repeats.
pub fn repeats_text(rs: &[FlipRepeat]) -> (t: String)
    ensures
        encode_utf8(t@) == repeats_bytes(rs@),
        repeats_ok(encode_utf8(t@)),
        repeats_spec(encode_utf8(t@)) == rs@,
{
    let ghost items = rs@.map_values(|r: FlipRepeat| joined(repeat_parts(r), 44));
    let mut t = String::new();
    proof {
        assert(ascii_bytes(t@) =~= Seq::<u8>::empty());
        assert(items.take(0) =~= Seq::<Seq<u8>>::empty());
    }
    let mut i: usize = 0;
    while i < rs.len()
        invariant
            i <= rs@.len(),
            items == rs@.map_values(|r: FlipRepeat| joined(repeat_parts(r), 44)),
            vstd::utf8::is_ascii_chars(t@),
            ascii_bytes(t@) == joined(items.take(i as int), 59),
        decreases rs@.len() - i,
    {
        let ghost prev = ascii_bytes(t@);
        if i > 0 {
            push_sep(&mut t, 59);
        }
        let ghost mid = ascii_bytes(t@);
        let r = rs[i];
        push_decimal(&mut t, r.seg as u64);
        push_sep(&mut t, 44);
        push_decimal(&mut t, r.btn_bit as u64);
        push_sep(&mut t, 44);
        match r.redirect_mask {
            None => {
                push_word(&mut t, false);
            },
            Some(m) => {
                push_word(&mut t, true);
                push_sep(&mut t, 44);
                push_decimal(&mut t, m as u64);
            },
        }
        proof {
            let ps = repeat_parts(r);
            let it = joined(ps, 44);
            assert(items[i as int] == it);
            assert(items.take(i as int + 1).drop_last() =~= items.take(i as int));
            match r.redirect_mask {
                None => {
                    lemma_joined3(ps[0], ps[1], ps[2], 44);
                    assert(ps =~= seq![ps[0], ps[1], ps[2]]);
                },
                Some(m) => {
                    lemma_joined4(ps[0], ps[1], ps[2], ps[3], 44);
                    assert(ps =~= seq![ps[0], ps[1], ps[2], ps[3]]);
                },
            }
            assert(ascii_bytes(t@) =~= mid + it);
            if i > 0 {
                assert(mid =~= prev.push(59));
            } else {
                assert(mid =~= Seq::<u8>::empty());
            }
            assert(ascii_bytes(t@) =~= joined(items.take(i as int + 1), 59));
        }
        i = i + 1;
    }
    proof {
        assert(items.take(i as int) =~= items);
        lemma_ascii_encoding(t@);
        let b = encode_utf8(t@);
        if rs@.len() > 0 {
            assert forall|k: int| 0 <= k < items.len() implies free_of(#[trigger] items[k], 59) by {
                lemma_repeat_item(rs@[k]);
            }
            lemma_split_joined(items, 59);
            lemma_repeat_item(rs@[0]);
            lemma_joined_nonempty(items, 59);
            assert forall|k: int| 0 <= k < items.len() implies repeat_ok(#[trigger] items[k]) by {
                lemma_repeat_item(rs@[k]);
            }
            assert(repeats_spec(b) =~= rs@) by {
                assert forall|k: int| 0 <= k < rs@.len() implies #[trigger] repeats_spec(b)[k] == rs@[k] by {
                    lemma_repeat_item(rs@[k]);
                }
            }
        } else {
            assert(b.len() == 0);
            assert(repeats_spec(b) =~= rs@);
        }
    }
    t
}

// ---------------------------------------------------------------------
// Decisions of the mutation pipeline
// ---------------------------------------------------------------------

/// Whether legalization will clamp the mutant: its length before
/// legalization lies outside `[min_frames, max_frames]`.
pub fn mutant_clamped(segments: &[PadSegment], min_frames: u32, max_frames: u32) -> (r: bool)
    requires
        total_of(segments@) <= u64::MAX,
    ensures
        r == (total_of(segments@) < min_frames || total_of(segments@) > max_frames),
{
    let total = segments_total_frames(segments);
    total < min_frames as u64 || total > max_frames as u64
}

/// Whether the legalized mutant is the base burst again by content hash,
/// which calls for the forced timing retry.
pub fn mutant_unchanged(base: &[PadSegment], mutant: &[PadSegment]) -> (r: bool)
    ensures
        r == (blake3_hash(burst_wire(base@)) == blake3_hash(burst_wire(mutant@))),
{
    let b = Burst::Pad(PadBurst { segments: slice_to_vec(base) });
    let m = Burst::Pad(PadBurst { segments: slice_to_vec(mutant) });
    let hb = burst_hash(&b);
    let hm = burst_hash(&m);
    bytes_equal(hb.as_slice(), hm.as_slice())
}

} // verus!
