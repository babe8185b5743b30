//! Pad input model: legality filter over segment masks, segment merging,
//! burst-length clamping, and tokenize / detokenize.

use vstd::prelude::*;

use crate::bits::{
    count_ones, lemma_clear_is_subset, lemma_popcount_subset, lemma_subset_and, lemma_subset_refl,
    lemma_subset_trans, popcount, subset,
};
use crate::config::{spec_mask, ButtonAlphabet, ForbiddenMask};
use crate::model::{InputModel, ModelKind};
use crate::types::{
    lemma_total_concat, lemma_total_first, lemma_total_update_last, pad_segments,
    segments_total_frames, total_of, Burst, PadBurst, PadSegment, Token,
};

verus! {

// ---------------------------------------------------------------------
// Specification
// ---------------------------------------------------------------------

/// The rules a pad model enforces, as plain values.
pub struct PadRules {
    pub min_frames: u32,
    pub max_frames: u32,
    /// One mask per exclusive group: at most one of its buttons may be held.
    pub exclusive: Seq<u16>,
    /// `(mask, clear)`: when every bit of `mask` is held, `clear` is released.
    pub forbidden: Seq<(u16, u16)>,
    pub direction_mask: u16,
}

impl PadRules {
    pub open spec fn wf(self) -> bool {
        1 <= self.min_frames <= self.max_frames
    }
}

/// Exclusive-group step: two or more buttons of the group held ⇒ release the group.
pub open spec fn exclusive_step(b: u16, g: u16) -> u16 {
    if popcount(b & g) >= 2 {
        b & !g
    } else {
        b
    }
}

pub open spec fn apply_exclusive(b: u16, groups: Seq<u16>) -> u16
    decreases groups.len(),
{
    if groups.len() == 0 {
        b
    } else {
        exclusive_step(apply_exclusive(b, groups.drop_last()), groups.last())
    }
}

/// Forbidden-mask step: the whole mask held ⇒ release the `clear` bits.
pub open spec fn forbidden_step(b: u16, f: (u16, u16)) -> u16 {
    if b & f.0 == f.0 {
        b & !f.1
    } else {
        b
    }
}

pub open spec fn apply_forbidden(b: u16, fs: Seq<(u16, u16)>) -> u16
    decreases fs.len(),
{
    if fs.len() == 0 {
        b
    } else {
        forbidden_step(apply_forbidden(b, fs.drop_last()), fs.last())
    }
}

/// One segment after the per-segment legality pass: exclusive groups, then
/// forbidden masks, then a zero hold raised to one frame.
pub open spec fn legal_segment(r: PadRules, s: PadSegment) -> PadSegment {
    PadSegment {
        buttons: apply_forbidden(apply_exclusive(s.buttons, r.exclusive), r.forbidden),
        hold_frames: if s.hold_frames == 0 {
            1
        } else {
            s.hold_frames
        },
    }
}

/// A mask that the legality pass leaves alone.
pub open spec fn mask_legal(r: PadRules, b: u16) -> bool {
    &&& forall|i: int| 0 <= i < r.exclusive.len() ==> popcount(b & #[trigger] r.exclusive[i]) < 2
    &&& forall|j: int|
        0 <= j < r.forbidden.len() ==> (b & (#[trigger] r.forbidden[j]).0 == r.forbidden[j].0 ==> b
            & r.forbidden[j].1 == 0)
}

/// A segment that is legal on its own: a legal mask held at least one frame.
pub open spec fn segment_ok(r: PadRules, s: PadSegment) -> bool {
    s.hold_frames >= 1 && mask_legal(r, s.buttons)
}

pub open spec fn all_segments_ok(r: PadRules, segs: Seq<PadSegment>) -> bool {
    forall|i: int| 0 <= i < segs.len() ==> segment_ok(r, #[trigger] segs[i])
}

/// No two neighbouring segments share a mask.
pub open spec fn no_adjacent_equal(segs: Seq<PadSegment>) -> bool {
    forall|i: int| 0 <= i < segs.len() - 1 ==> #[trigger] segs[i].buttons != segs[i + 1].buttons
}

/// A burst the pad model accepts as is: non-empty, every segment legal, no
/// neighbouring equal masks, total length within `[min_frames, max_frames]`.
pub open spec fn burst_legal(r: PadRules, segs: Seq<PadSegment>) -> bool {
    &&& segs.len() >= 1
    &&& all_segments_ok(r, segs)
    &&& no_adjacent_equal(segs)
    &&& r.min_frames <= total_of(segs) <= r.max_frames
}

// ---------------------------------------------------------------------
// Per-segment lemmas
// ---------------------------------------------------------------------

pub proof fn lemma_exclusive_subset(b: u16, groups: Seq<u16>)
    ensures
        subset(apply_exclusive(b, groups), b),
    decreases groups.len(),
{
    if groups.len() == 0 {
        lemma_subset_refl(b);
    } else {
        let prev = apply_exclusive(b, groups.drop_last());
        lemma_exclusive_subset(b, groups.drop_last());
        lemma_clear_is_subset(prev, groups.last());
        lemma_subset_refl(prev);
        lemma_subset_trans(apply_exclusive(b, groups), prev, b);
    }
}

pub proof fn lemma_forbidden_subset(b: u16, fs: Seq<(u16, u16)>)
    ensures
        subset(apply_forbidden(b, fs), b),
    decreases fs.len(),
{
    if fs.len() == 0 {
        lemma_subset_refl(b);
    } else {
        let prev = apply_forbidden(b, fs.drop_last());
        lemma_forbidden_subset(b, fs.drop_last());
        lemma_clear_is_subset(prev, fs.last().1);
        lemma_subset_refl(prev);
        lemma_subset_trans(apply_forbidden(b, fs), prev, b);
    }
}

/// Applying a group list equals applying a prefix and then the rest.
pub proof fn lemma_exclusive_split(b: u16, groups: Seq<u16>, k: int)
    requires
        0 <= k <= groups.len(),
    ensures
        apply_exclusive(b, groups) == apply_exclusive(apply_exclusive(b, groups.take(k)), groups.skip(k)),
    decreases groups.len(),
{
    if groups.len() == k {
        assert(groups.take(k) =~= groups);
        assert(groups.skip(k) =~= Seq::<u16>::empty());
    } else {
        lemma_exclusive_split(b, groups.drop_last(), k);
        assert(groups.drop_last().take(k) =~= groups.take(k));
        assert(groups.skip(k).drop_last() =~= groups.drop_last().skip(k));
        assert(groups.skip(k).last() == groups.last());
    }
}

pub proof fn lemma_forbidden_split(b: u16, fs: Seq<(u16, u16)>, k: int)
    requires
        0 <= k <= fs.len(),
    ensures
        apply_forbidden(b, fs) == apply_forbidden(apply_forbidden(b, fs.take(k)), fs.skip(k)),
    decreases fs.len(),
{
    if fs.len() == k {
        assert(fs.take(k) =~= fs);
        assert(fs.skip(k) =~= Seq::<(u16, u16)>::empty());
    } else {
        lemma_forbidden_split(b, fs.drop_last(), k);
        assert(fs.drop_last().take(k) =~= fs.take(k));
        assert(fs.skip(k).drop_last() =~= fs.drop_last().skip(k));
        assert(fs.skip(k).last() == fs.last());
    }
}

/// The legality pass yields a legal mask.
pub proof fn lemma_legal_segment_mask(r: PadRules, b: u16)
    ensures
        mask_legal(r, apply_forbidden(apply_exclusive(b, r.exclusive), r.forbidden)),
{
    let e = apply_exclusive(b, r.exclusive);
    let f = apply_forbidden(e, r.forbidden);
    lemma_forbidden_subset(e, r.forbidden);
    assert forall|i: int| 0 <= i < r.exclusive.len() implies popcount(f & #[trigger] r.exclusive[i])
        < 2 by {
        let g = r.exclusive[i];
        let before = apply_exclusive(b, r.exclusive.take(i));
        let after = apply_exclusive(b, r.exclusive.take(i + 1));
        assert(r.exclusive.take(i + 1).drop_last() =~= r.exclusive.take(i));
        assert(r.exclusive.take(i + 1).last() == g);
        assert(after == exclusive_step(before, g));
        lemma_exclusive_split(b, r.exclusive, i + 1);
        lemma_exclusive_subset(after, r.exclusive.skip(i + 1));
        lemma_subset_trans(f, e, after);
        lemma_subset_and(f, after, g);
        lemma_popcount_subset(f & g, after & g);
        if popcount(before & g) >= 2 {
            lemma_clear_is_subset(before, g);
            assert(after & g == 0);
        }
    }
    assert forall|j: int| 0 <= j < r.forbidden.len() && f & (#[trigger] r.forbidden[j]).0
        == r.forbidden[j].0 implies f & r.forbidden[j].1 == 0 by {
        let (m, c) = r.forbidden[j];
        let before = apply_forbidden(e, r.forbidden.take(j));
        let after = apply_forbidden(e, r.forbidden.take(j + 1));
        assert(r.forbidden.take(j + 1).drop_last() =~= r.forbidden.take(j));
        assert(r.forbidden.take(j + 1).last() == r.forbidden[j]);
        assert(after == forbidden_step(before, r.forbidden[j]));
        lemma_forbidden_split(e, r.forbidden, j + 1);
        lemma_forbidden_subset(after, r.forbidden.skip(j + 1));
        if before & m == m {
            lemma_clear_is_subset(before, c);
            assert(f & after == f && after & c == 0 ==> f & c == 0) by (bit_vector);
        } else {
            assert(f & after == f && after == before && before & m != m ==> f & m != m)
                by (bit_vector);
        }
    }
}

/// A legal mask passes the group steps unchanged.
pub proof fn lemma_exclusive_fixed(b: u16, groups: Seq<u16>)
    requires
        forall|i: int| 0 <= i < groups.len() ==> popcount(b & #[trigger] groups[i]) < 2,
    ensures
        apply_exclusive(b, groups) == b,
    decreases groups.len(),
{
    if groups.len() > 0 {
        assert forall|i: int| 0 <= i < groups.drop_last().len() implies popcount(
            b & #[trigger] groups.drop_last()[i],
        ) < 2 by {
            assert(groups.drop_last()[i] == groups[i]);
        }
        lemma_exclusive_fixed(b, groups.drop_last());
        assert(popcount(b & groups[groups.len() - 1]) < 2);
    }
}

pub proof fn lemma_forbidden_fixed(b: u16, fs: Seq<(u16, u16)>)
    requires
        forall|j: int|
            0 <= j < fs.len() ==> (b & (#[trigger] fs[j]).0 == fs[j].0 ==> b & fs[j].1 == 0),
    ensures
        apply_forbidden(b, fs) == b,
    decreases fs.len(),
{
    if fs.len() > 0 {
        assert forall|j: int| 0 <= j < fs.drop_last().len() && b & (#[trigger] fs.drop_last()[j]).0
            == fs.drop_last()[j].0 implies b & fs.drop_last()[j].1 == 0 by {
            assert(fs.drop_last()[j] == fs[j]);
        }
        lemma_forbidden_fixed(b, fs.drop_last());
        let (m, c) = fs[fs.len() - 1];
        assert(b & c == 0 ==> b & !c == b) by (bit_vector);
    }
}

pub proof fn lemma_legal_segment_fixed(r: PadRules, s: PadSegment)
    requires
        segment_ok(r, s),
    ensures
        legal_segment(r, s) == s,
{
    lemma_exclusive_fixed(s.buttons, r.exclusive);
    lemma_forbidden_fixed(s.buttons, r.forbidden);
}

pub proof fn lemma_legal_segment_ok(r: PadRules, s: PadSegment)
    ensures
        segment_ok(r, legal_segment(r, s)),
{
    lemma_legal_segment_mask(r, s.buttons);
}

// ---------------------------------------------------------------------
// Merging, truncation, extension
// ---------------------------------------------------------------------

/// `a + b`, saturating at `u32::MAX`.
pub open spec fn sat_add(a: u32, b: u32) -> u32 {
    if a + b > u32::MAX {
        u32::MAX
    } else {
        (a + b) as u32
    }
}

/// Neighbouring segments with equal masks merged into one, holds summed.
pub open spec fn merge_spec(segs: Seq<PadSegment>) -> Seq<PadSegment>
    decreases segs.len(),
{
    if segs.len() == 0 {
        Seq::empty()
    } else {
        let m = merge_spec(segs.drop_last());
        let s = segs.last();
        if m.len() > 0 && m.last().buttons == s.buttons {
            m.update(
                m.len() - 1,
                PadSegment { buttons: s.buttons, hold_frames: sat_add(m.last().hold_frames, s.hold_frames) },
            )
        } else {
            m.push(s)
        }
    }
}

/// The first `remaining` frames of a segment sequence (the last kept segment
/// may be cut short; segments past the budget are dropped).
pub open spec fn truncate_spec(segs: Seq<PadSegment>, remaining: nat) -> Seq<PadSegment>
    decreases segs.len(),
{
    if segs.len() == 0 || remaining == 0 {
        Seq::empty()
    } else {
        let take: nat = if (segs[0].hold_frames as nat) < remaining {
            segs[0].hold_frames as nat
        } else {
            remaining
        };
        seq![PadSegment { buttons: segs[0].buttons, hold_frames: take as u32 }] + truncate_spec(
            segs.drop_first(),
            (remaining - take) as nat,
        )
    }
}

/// A burst shorter than `min_frames` grows its final segment (or, when empty,
/// becomes one released segment of `min_frames`).
pub open spec fn extend_spec(segs: Seq<PadSegment>, min_frames: u32) -> Seq<PadSegment> {
    if total_of(segs) < min_frames {
        if segs.len() > 0 {
            let deficit = (min_frames - total_of(segs)) as u32;
            segs.update(
                segs.len() - 1,
                PadSegment {
                    buttons: segs.last().buttons,
                    hold_frames: sat_add(segs.last().hold_frames, deficit),
                },
            )
        } else {
            seq![PadSegment { buttons: 0, hold_frames: min_frames }]
        }
    } else {
        segs
    }
}

/// Total length clamped into `[min_frames, max_frames]`.
pub open spec fn clamp_spec(min_frames: u32, max_frames: u32, segs: Seq<PadSegment>) -> Seq<PadSegment> {
    let cut = if total_of(segs) > max_frames {
        truncate_spec(segs, max_frames as nat)
    } else {
        segs
    };
    merge_spec(extend_spec(cut, min_frames))
}

/// The whole legality filter: per-segment pass, merge, at least one segment,
/// length clamp.
pub open spec fn legalize_spec(r: PadRules, segs: Seq<PadSegment>) -> Seq<PadSegment> {
    let merged = merge_spec(segs.map_values(|s: PadSegment| legal_segment(r, s)));
    let nonempty = if merged.len() == 0 {
        seq![PadSegment { buttons: 0, hold_frames: r.min_frames }]
    } else {
        merged
    };
    clamp_spec(r.min_frames, r.max_frames, nonempty)
}

/// Sum of the holds with zero holds counted as one frame.
pub open spec fn lifted_total(segs: Seq<PadSegment>) -> nat
    decreases segs.len(),
{
    if segs.len() == 0 {
        0
    } else {
        lifted_total(segs.drop_last()) + if segs.last().hold_frames == 0 {
            1nat
        } else {
            segs.last().hold_frames as nat
        }
    }
}

pub proof fn lemma_last_le_total(x: Seq<PadSegment>)
    requires
        x.len() > 0,
    ensures
        x.last().hold_frames <= total_of(x),
{
}

pub proof fn lemma_merge_shape(segs: Seq<PadSegment>)
    ensures
        no_adjacent_equal(merge_spec(segs)),
        segs.len() > 0 ==> merge_spec(segs).len() > 0,
        merge_spec(segs).len() <= segs.len(),
        total_of(merge_spec(segs)) <= total_of(segs),
        total_of(segs) <= u32::MAX ==> total_of(merge_spec(segs)) == total_of(segs),
        total_of(segs) > u32::MAX ==> total_of(merge_spec(segs)) >= u32::MAX,
    decreases segs.len(),
{
    if segs.len() > 0 {
        let m = merge_spec(segs.drop_last());
        let s = segs.last();
        lemma_merge_shape(segs.drop_last());
        if m.len() > 0 && m.last().buttons == s.buttons {
            let n = PadSegment { buttons: s.buttons, hold_frames: sat_add(m.last().hold_frames, s.hold_frames) };
            lemma_total_update_last(m, n);
            lemma_last_le_total(m);
            let u = m.update(m.len() - 1, n);
            assert forall|i: int| 0 <= i < u.len() - 1 implies #[trigger] u[i].buttons != u[i + 1].buttons by {
                assert(u[i] == m[i]);
                if i + 1 < u.len() - 1 {
                    assert(u[i + 1] == m[i + 1]);
                }
            }
        } else {
            let u = m.push(s);
            assert(u.drop_last() =~= m);
            assert forall|i: int| 0 <= i < u.len() - 1 implies #[trigger] u[i].buttons != u[i + 1].buttons by {
                assert(u[i] == m[i]);
                if i + 1 < u.len() - 1 {
                    assert(u[i + 1] == m[i + 1]);
                }
            }
        }
    }
}

/// Merging keeps every segment legal when every input segment is.
pub proof fn lemma_merge_ok(r: PadRules, segs: Seq<PadSegment>)
    requires
        all_segments_ok(r, segs),
    ensures
        all_segments_ok(r, merge_spec(segs)),
    decreases segs.len(),
{
    if segs.len() > 0 {
        let m = merge_spec(segs.drop_last());
        let s = segs.last();
        assert(all_segments_ok(r, segs.drop_last())) by {
            assert forall|i: int| 0 <= i < segs.drop_last().len() implies segment_ok(
                r,
                #[trigger] segs.drop_last()[i],
            ) by {
                assert(segs.drop_last()[i] == segs[i]);
            }
        }
        lemma_merge_ok(r, segs.drop_last());
        assert(segment_ok(r, segs[segs.len() - 1]));
        if m.len() > 0 && m.last().buttons == s.buttons {
            assert(segment_ok(r, m[m.len() - 1]));
        }
    }
}

/// A sequence without neighbouring equal masks is its own merge.
pub proof fn lemma_merge_fixed(segs: Seq<PadSegment>)
    requires
        no_adjacent_equal(segs),
    ensures
        merge_spec(segs) == segs,
    decreases segs.len(),
{
    if segs.len() > 0 {
        let d = segs.drop_last();
        assert(no_adjacent_equal(d)) by {
            assert forall|i: int| 0 <= i < d.len() - 1 implies #[trigger] d[i].buttons != d[i + 1].buttons by {
                assert(d[i] == segs[i] && d[i + 1] == segs[i + 1]);
            }
        }
        lemma_merge_fixed(d);
        if d.len() > 0 {
            assert(segs[d.len() - 1].buttons != segs[d.len() as int].buttons);
        }
        assert(d.push(segs.last()) =~= segs);
    }
}

pub proof fn lemma_truncate_shape(r: PadRules, segs: Seq<PadSegment>, remaining: nat)
    ensures
        truncate_spec(segs, remaining).len() <= segs.len(),
        forall|k: int|
            0 <= k < truncate_spec(segs, remaining).len() ==> (#[trigger] truncate_spec(segs, remaining)[k]).buttons
                == segs[k].buttons,
        total_of(truncate_spec(segs, remaining)) == if total_of(segs) < remaining {
            total_of(segs)
        } else {
            remaining
        },
        all_segments_ok(r, segs) ==> all_segments_ok(r, truncate_spec(segs, remaining)),
        all_segments_ok(r, segs) && segs.len() > 0 && remaining > 0 ==> truncate_spec(segs, remaining).len() > 0,
    decreases segs.len(),
{
    assert(total_of(Seq::<PadSegment>::empty()) == 0);
    if segs.len() > 0 && remaining > 0 {
        let take: nat = if (segs[0].hold_frames as nat) < remaining {
            segs[0].hold_frames as nat
        } else {
            remaining
        };
        let head = seq![PadSegment { buttons: segs[0].buttons, hold_frames: take as u32 }];
        let rest = truncate_spec(segs.drop_first(), (remaining - take) as nat);
        lemma_truncate_shape(r, segs.drop_first(), (remaining - take) as nat);
        lemma_total_first(segs);
        lemma_total_concat(head, rest);
        assert(head.drop_last() =~= Seq::<PadSegment>::empty());
        assert(total_of(Seq::<PadSegment>::empty()) == 0);
        assert(total_of(head) == take);
        if take == remaining {
            assert(rest =~= Seq::<PadSegment>::empty());
        }
        let t = truncate_spec(segs, remaining);
        assert(t == head + rest);
        assert forall|k: int| 0 <= k < t.len() implies (#[trigger] t[k]).buttons == segs[k].buttons by {
            if k > 0 {
                assert(t[k] == rest[k - 1]);
                assert(segs.drop_first()[k - 1] == segs[k]);
            }
        }
        if all_segments_ok(r, segs) {
            assert(all_segments_ok(r, segs.drop_first())) by {
                assert forall|i: int| 0 <= i < segs.drop_first().len() implies segment_ok(
                    r,
                    #[trigger] segs.drop_first()[i],
                ) by {
                    assert(segs.drop_first()[i] == segs[i + 1]);
                }
            }
            assert(segment_ok(r, segs[0]));
            assert forall|k: int| 0 <= k < t.len() implies segment_ok(r, #[trigger] t[k]) by {
                if k > 0 {
                    assert(t[k] == rest[k - 1]);
                }
            }
        }
    }
}

/// A released segment of at least one frame is legal under any rules.
pub proof fn lemma_neutral_ok(r: PadRules, hold: u32)
    requires
        hold >= 1,
    ensures
        segment_ok(r, PadSegment { buttons: 0, hold_frames: hold }),
{
    assert forall|i: int| 0 <= i < r.exclusive.len() implies popcount(0u16 & #[trigger] r.exclusive[i]) < 2 by {
        let g = r.exclusive[i];
        assert(0u16 & g == 0) by (bit_vector);
    }
    assert forall|j: int| 0 <= j < r.forbidden.len() && 0u16 & (#[trigger] r.forbidden[j]).0
        == r.forbidden[j].0 implies 0u16 & r.forbidden[j].1 == 0 by {
        let c = r.forbidden[j].1;
        assert(0u16 & c == 0) by (bit_vector);
    }
}

/// Everything `legalize` emits is a legal burst.
pub proof fn law_legalized_burst_is_legal(r: PadRules, segs: Seq<PadSegment>)
    requires
        r.wf(),
    ensures
        burst_legal(r, legalize_spec(r, segs)),
{
    let mapped = segs.map_values(|s: PadSegment| legal_segment(r, s));
    assert forall|i: int| 0 <= i < mapped.len() implies segment_ok(r, #[trigger] mapped[i]) by {
        lemma_legal_segment_ok(r, segs[i]);
    }
    let merged = merge_spec(mapped);
    lemma_merge_ok(r, mapped);
    lemma_merge_shape(mapped);
    let ne = if merged.len() == 0 {
        seq![PadSegment { buttons: 0, hold_frames: r.min_frames }]
    } else {
        merged
    };
    if merged.len() == 0 {
        lemma_neutral_ok(r, r.min_frames);
        assert(all_segments_ok(r, ne));
        assert(no_adjacent_equal(ne));
    }
    assert(all_segments_ok(r, ne) && no_adjacent_equal(ne) && ne.len() > 0);
    let cut = if total_of(ne) > r.max_frames {
        truncate_spec(ne, r.max_frames as nat)
    } else {
        ne
    };
    lemma_truncate_shape(r, ne, r.max_frames as nat);
    if total_of(ne) > r.max_frames {
        let t = truncate_spec(ne, r.max_frames as nat);
        assert forall|i: int| 0 <= i < t.len() - 1 implies #[trigger] t[i].buttons != t[i + 1].buttons by {
            assert(t[i].buttons == ne[i].buttons);
            assert(t[i + 1].buttons == ne[i + 1].buttons);
        }
    }
    assert(all_segments_ok(r, cut) && no_adjacent_equal(cut) && cut.len() > 0);
    assert(total_of(cut) <= r.max_frames);
    let ext = extend_spec(cut, r.min_frames);
    if total_of(cut) < r.min_frames {
        let last = cut.last();
        let deficit = (r.min_frames - total_of(cut)) as u32;
        let n = PadSegment { buttons: last.buttons, hold_frames: sat_add(last.hold_frames, deficit) };
        lemma_last_le_total(cut);
        lemma_total_update_last(cut, n);
        assert(segment_ok(r, cut[cut.len() - 1]));
        assert forall|i: int| 0 <= i < ext.len() implies segment_ok(r, #[trigger] ext[i]) by {
            if i < cut.len() - 1 {
                assert(ext[i] == cut[i]);
            }
        }
        assert forall|i: int| 0 <= i < ext.len() - 1 implies #[trigger] ext[i].buttons != ext[i + 1].buttons by {
            assert(ext[i].buttons == cut[i].buttons);
            assert(ext[i + 1].buttons == cut[i + 1].buttons);
        }
    }
    assert(all_segments_ok(r, ext) && no_adjacent_equal(ext) && ext.len() > 0);
    assert(r.min_frames <= total_of(ext) <= r.max_frames);
    lemma_merge_fixed(ext);
}

/// A legal burst passes `legalize` unchanged.
pub proof fn law_legal_burst_is_fixed(r: PadRules, segs: Seq<PadSegment>)
    requires
        r.wf(),
        burst_legal(r, segs),
    ensures
        legalize_spec(r, segs) == segs,
{
    let mapped = segs.map_values(|s: PadSegment| legal_segment(r, s));
    assert forall|i: int| 0 <= i < mapped.len() implies #[trigger] mapped[i] == segs[i] by {
        lemma_legal_segment_fixed(r, segs[i]);
    }
    assert(mapped =~= segs);
    lemma_merge_fixed(segs);
    lemma_merge_fixed(segs);
}

/// Law: legalizing twice is legalizing once.
pub proof fn law_legalize_idempotent(r: PadRules, segs: Seq<PadSegment>)
    requires
        r.wf(),
    ensures
        legalize_spec(r, legalize_spec(r, segs)) == legalize_spec(r, segs),
{
    law_legalized_burst_is_legal(r, segs);
    law_legal_burst_is_fixed(r, legalize_spec(r, segs));
}

/// The total length after legalization: the input length (zero holds
/// counted as one frame) clamped into `[min_frames, max_frames]`.
pub open spec fn clamped_length(r: PadRules, segs: Seq<PadSegment>) -> nat {
    if lifted_total(segs) < r.min_frames {
        r.min_frames as nat
    } else if lifted_total(segs) > r.max_frames {
        r.max_frames as nat
    } else {
        lifted_total(segs)
    }
}

/// Law: legalization changes a burst's length only as far as the bounds
/// demand: too short grows to `min_frames`, too long is cut to
/// `max_frames`, and any other length is kept.
pub proof fn law_legalized_length(r: PadRules, segs: Seq<PadSegment>)
    requires
        r.wf(),
    ensures
        total_of(legalize_spec(r, segs)) == clamped_length(r, segs),
{
    let mapped = segs.map_values(|s: PadSegment| legal_segment(r, s));
    lemma_lifted_total(r, segs);
    lemma_merge_shape(mapped);
    let merged = merge_spec(mapped);
    let ne = if merged.len() == 0 {
        seq![PadSegment { buttons: 0, hold_frames: r.min_frames }]
    } else {
        merged
    };
    if merged.len() == 0 {
        assert(mapped.len() == 0);
        assert(ne.drop_last() =~= Seq::<PadSegment>::empty());
        assert(total_of(ne) == r.min_frames);
    }
    let cut = if total_of(ne) > r.max_frames {
        truncate_spec(ne, r.max_frames as nat)
    } else {
        ne
    };
    lemma_truncate_shape(r, ne, r.max_frames as nat);
    law_legalized_burst_is_legal(r, segs);
    let ext = extend_spec(cut, r.min_frames);
    if total_of(cut) < r.min_frames {
        if cut.len() > 0 {
            let last = cut.last();
            let deficit = (r.min_frames - total_of(cut)) as u32;
            let n = PadSegment { buttons: last.buttons, hold_frames: sat_add(last.hold_frames, deficit) };
            lemma_last_le_total(cut);
            lemma_total_update_last(cut, n);
        } else {
            assert(ext.drop_last() =~= Seq::<PadSegment>::empty());
        }
        assert(total_of(ext) == r.min_frames);
    }
    lemma_merge_shape(ext);
}

/// Zero holds counted as one frame is exactly the total after the per-segment pass.
pub proof fn lemma_lifted_total(r: PadRules, segs: Seq<PadSegment>)
    ensures
        total_of(segs.map_values(|s: PadSegment| legal_segment(r, s))) == lifted_total(segs),
    decreases segs.len(),
{
    if segs.len() > 0 {
        let m = segs.map_values(|s: PadSegment| legal_segment(r, s));
        assert(m.drop_last() =~= segs.drop_last().map_values(|s: PadSegment| legal_segment(r, s)));
        lemma_lifted_total(r, segs.drop_last());
    }
}

// ---------------------------------------------------------------------
// Duration buckets
// ---------------------------------------------------------------------

/// Floor of the base-2 logarithm.
pub open spec fn log2_floor(n: nat) -> nat
    decreases n,
{
    if n < 2 {
        0
    } else {
        1 + log2_floor(n / 2)
    }
}

/// Duration bucket of a hold: `min(floor(log2(max(hold, 1))), 5)`, i.e. the
/// buckets `[1], [2,3], [4,7], [8,15], [16,31], [32,inf)`.
pub open spec fn dur_bucket(hold: u32) -> u8 {
    let h: nat = if hold == 0 {
        1
    } else {
        hold as nat
    };
    if log2_floor(h) < 5 {
        log2_floor(h) as u8
    } else {
        5
    }
}

/// Pinned midpoint (in frames) of each duration bucket; buckets above 5 read as 5.
pub open spec fn midpoint_spec(bucket: u8) -> u32 {
    if bucket == 0 {
        1
    } else if bucket == 1 {
        2
    } else if bucket == 2 {
        5
    } else if bucket == 3 {
        11
    } else if bucket == 4 {
        23
    } else {
        48
    }
}

pub open spec fn token_of(s: PadSegment) -> Token {
    Token { mask: s.buttons, dur_bucket: dur_bucket(s.hold_frames) }
}

pub open spec fn segment_of(t: Token) -> PadSegment {
    PadSegment { buttons: t.mask, hold_frames: midpoint_spec(t.dur_bucket) }
}

/// Duration bucket of a hold length.
pub fn hold_bucket(hold: u32) -> (b: u8)
    ensures
        b == dur_bucket(hold),
{
    proof {
        reveal_with_fuel(log2_floor, 7);
    }
    if hold < 2 {
        0
    } else if hold < 4 {
        1
    } else if hold < 8 {
        2
    } else if hold < 16 {
        3
    } else if hold < 32 {
        4
    } else {
        proof {
            lemma_log2_at_least_5(hold as nat);
        }
        5
    }
}

pub proof fn lemma_log2_at_least_5(n: nat)
    requires
        n >= 32,
    ensures
        log2_floor(n) >= 5,
{
    reveal_with_fuel(log2_floor, 6);
}

/// Midpoint hold (frames) of a duration bucket.
pub fn bucket_midpoint(bucket: u8) -> (m: u32)
    ensures
        m == midpoint_spec(bucket),
{
    if bucket == 0 {
        1
    } else if bucket == 1 {
        2
    } else if bucket == 2 {
        5
    } else if bucket == 3 {
        11
    } else if bucket == 4 {
        23
    } else {
        48
    }
}

/// Law: every bucket's midpoint falls back into that bucket.
pub proof fn law_midpoints_bucket_stable(bucket: u8)
    requires
        bucket <= 5,
    ensures
        dur_bucket(midpoint_spec(bucket)) == bucket,
{
    reveal_with_fuel(log2_floor, 7);
}

/// Law: tokens survive a detokenize / tokenize round trip unchanged.
pub proof fn law_token_roundtrip(tokens: Seq<Token>)
    requires
        forall|i: int| 0 <= i < tokens.len() ==> (#[trigger] tokens[i]).dur_bucket <= 5,
    ensures
        tokens.map_values(|t: Token| segment_of(t)).map_values(|s: PadSegment| token_of(s)) == tokens,
{
    let back = tokens.map_values(|t: Token| segment_of(t)).map_values(|s: PadSegment| token_of(s));
    assert forall|i: int| 0 <= i < tokens.len() implies #[trigger] back[i] == tokens[i] by {
        law_midpoints_bucket_stable(tokens[i].dur_bucket);
    }
    assert(back =~= tokens);
}

/// Law: a tokenize / detokenize round trip keeps the segment count and every
/// mask, and each hold comes back in its own duration bucket.
pub proof fn law_shape_roundtrip(segs: Seq<PadSegment>)
    ensures
        ({
            let back = segs.map_values(|s: PadSegment| token_of(s)).map_values(|t: Token| segment_of(t));
            &&& back.len() == segs.len()
            &&& forall|i: int|
                0 <= i < segs.len() ==> (#[trigger] back[i]).buttons == segs[i].buttons && dur_bucket(back[i].hold_frames)
                    == dur_bucket(segs[i].hold_frames)
        }),
{
    let back = segs.map_values(|s: PadSegment| token_of(s)).map_values(|t: Token| segment_of(t));
    assert forall|i: int| 0 <= i < segs.len() implies (#[trigger] back[i]).buttons == segs[i].buttons && dur_bucket(
        back[i].hold_frames,
    ) == dur_bucket(segs[i].hold_frames) by {
        reveal_with_fuel(log2_floor, 7);
        law_midpoints_bucket_stable(dur_bucket(segs[i].hold_frames));
    }
}

// ---------------------------------------------------------------------
// The model
// ---------------------------------------------------------------------

/// Masks of the name lists that fully resolve, in order (unresolvable lists are skipped).
pub open spec fn resolved_masks(buttons: Seq<crate::config::ButtonDef>, groups: Seq<Vec<String>>) -> Seq<u16>
    decreases groups.len(),
{
    if groups.len() == 0 {
        Seq::empty()
    } else {
        let prev = resolved_masks(buttons, groups.drop_last());
        match spec_mask(buttons, groups.last()@) {
            Some(m) => prev.push(m),
            None => prev,
        }
    }
}

/// `(mask, clear)` pairs of the forbidden entries whose names all resolve.
pub open spec fn resolved_forbidden(buttons: Seq<crate::config::ButtonDef>, fms: Seq<ForbiddenMask>) -> Seq<(u16, u16)>
    decreases fms.len(),
{
    if fms.len() == 0 {
        Seq::empty()
    } else {
        let prev = resolved_forbidden(buttons, fms.drop_last());
        match (spec_mask(buttons, fms.last().mask@), spec_mask(buttons, fms.last().clear@)) {
            (Some(m), Some(c)) => prev.push((m, c)),
            _ => prev,
        }
    }
}

/// Pad input model: precomputed legality masks of a button alphabet plus
/// burst-length bounds.
#[derive(Debug)]
pub struct PadModel {
    min_frames: u32,
    max_frames: u32,
    exclusive_masks: Vec<u16>,
    forbidden: Vec<(u16, u16)>,
    direction_mask: u16,
}

impl View for PadModel {
    type V = PadRules;

    closed spec fn view(&self) -> PadRules {
        PadRules {
            min_frames: self.min_frames,
            max_frames: self.max_frames,
            exclusive: self.exclusive_masks@,
            forbidden: self.forbidden@,
            direction_mask: self.direction_mask,
        }
    }
}

impl PadModel {
    #[verifier::type_invariant]
    spec fn bounds_ok(self) -> bool {
        1 <= self.min_frames <= self.max_frames
    }

    /// Build the model from an alphabet and the `[min_frames, max_frames]`
    /// burst-length bounds. Exclusive groups and forbidden entries naming an
    /// undeclared button are skipped.
    pub fn new(alphabet: &ButtonAlphabet, min_frames: u32, max_frames: u32) -> (m: Self)
        requires
            1 <= min_frames <= max_frames,
            alphabet.bits_ok(),
        ensures
            m@ == (PadRules {
                min_frames,
                max_frames,
                exclusive: resolved_masks(alphabet.buttons@, alphabet.exclusive_groups@),
                forbidden: resolved_forbidden(alphabet.buttons@, alphabet.forbidden_masks@),
                direction_mask: match spec_mask(alphabet.buttons@, alphabet.directions.group@) {
                    Some(d) => d,
                    None => 0,
                },
            }),
    {
        let mut exclusive_masks: Vec<u16> = Vec::new();
        let mut i: usize = 0;
        while i < alphabet.exclusive_groups.len()
            invariant
                i <= alphabet.exclusive_groups@.len(),
                alphabet.bits_ok(),
                1 <= min_frames <= max_frames,
                exclusive_masks@ == resolved_masks(alphabet.buttons@, alphabet.exclusive_groups@.take(i as int)),
            decreases alphabet.exclusive_groups@.len() - i,
        {
            proof {
                assert(alphabet.exclusive_groups@.take(i as int + 1).drop_last()
                    =~= alphabet.exclusive_groups@.take(i as int));
            }
            match alphabet.mask(alphabet.exclusive_groups[i].as_slice()) {
                Some(mask) => exclusive_masks.push(mask),
                None => {},
            }
            i = i + 1;
        }
        proof {
            assert(alphabet.exclusive_groups@.take(i as int) =~= alphabet.exclusive_groups@);
        }

        let mut forbidden: Vec<(u16, u16)> = Vec::new();
        let mut j: usize = 0;
        while j < alphabet.forbidden_masks.len()
            invariant
                j <= alphabet.forbidden_masks@.len(),
                alphabet.bits_ok(),
                1 <= min_frames <= max_frames,
                forbidden@ == resolved_forbidden(alphabet.buttons@, alphabet.forbidden_masks@.take(j as int)),
            decreases alphabet.forbidden_masks@.len() - j,
        {
            proof {
                assert(alphabet.forbidden_masks@.take(j as int + 1).drop_last()
                    =~= alphabet.forbidden_masks@.take(j as int));
            }
            let fm = &alphabet.forbidden_masks[j];
            match (alphabet.mask(fm.mask.as_slice()), alphabet.mask(fm.clear.as_slice())) {
                (Some(mask), Some(clear)) => forbidden.push((mask, clear)),
                _ => {},
            }
            j = j + 1;
        }
        proof {
            assert(alphabet.forbidden_masks@.take(j as int) =~= alphabet.forbidden_masks@);
        }

        let direction_mask = match alphabet.mask(alphabet.directions.group.as_slice()) {
            Some(d) => d,
            None => 0,
        };

        PadModel { min_frames, max_frames, exclusive_masks, forbidden, direction_mask }
    }

    /// Minimum legal total burst length in frames.
    pub fn min_frames(&self) -> (r: u32)
        ensures
            r == self@.min_frames,
    {
        self.min_frames
    }

    /// Maximum legal total burst length in frames.
    pub fn max_frames(&self) -> (r: u32)
        ensures
            r == self@.max_frames,
    {
        self.max_frames
    }

    /// Bitmask over the alphabet's direction group.
    pub fn direction_mask(&self) -> (r: u16)
        ensures
            r == self@.direction_mask,
    {
        self.direction_mask
    }

    /// Per-segment legality pass: exclusive groups, then forbidden masks,
    /// then the zero-hold clamp.
    fn legalize_segment(&self, seg: &mut PadSegment)
        ensures
            *final(seg) == legal_segment(self@, *old(seg)),
    {
        let ghost orig = *seg;
        let mut i: usize = 0;
        while i < self.exclusive_masks.len()
            invariant
                i <= self.exclusive_masks@.len(),
                seg.hold_frames == orig.hold_frames,
                seg.buttons == apply_exclusive(orig.buttons, self.exclusive_masks@.take(i as int)),
            decreases self.exclusive_masks@.len() - i,
        {
            proof {
                assert(self.exclusive_masks@.take(i as int + 1).drop_last() =~= self.exclusive_masks@.take(i as int));
            }
            let group_mask = self.exclusive_masks[i];
            if count_ones(seg.buttons & group_mask) >= 2 {
                seg.buttons = seg.buttons & !group_mask;
            }
            i = i + 1;
        }
        proof {
            assert(self.exclusive_masks@.take(i as int) =~= self.exclusive_masks@);
        }
        let ghost excl = seg.buttons;
        let mut j: usize = 0;
        while j < self.forbidden.len()
            invariant
                j <= self.forbidden@.len(),
                seg.hold_frames == orig.hold_frames,
                seg.buttons == apply_forbidden(excl, self.forbidden@.take(j as int)),
            decreases self.forbidden@.len() - j,
        {
            proof {
                assert(self.forbidden@.take(j as int + 1).drop_last() =~= self.forbidden@.take(j as int));
            }
            let (mask, clear) = self.forbidden[j];
            if seg.buttons & mask == mask {
                seg.buttons = seg.buttons & !clear;
            }
            j = j + 1;
        }
        proof {
            assert(self.forbidden@.take(j as int) =~= self.forbidden@);
        }
        if seg.hold_frames == 0 {
            seg.hold_frames = 1;
        }
    }

    /// Merge neighbouring segments that share a mask, summing holds with
    /// saturation.
    fn merge_adjacent(segments: Vec<PadSegment>) -> (merged: Vec<PadSegment>)
        ensures
            merged@ == merge_spec(segments@),
    {
        let mut merged: Vec<PadSegment> = Vec::with_capacity(segments.len());
        let mut i: usize = 0;
        while i < segments.len()
            invariant
                i <= segments@.len(),
                merged@ == merge_spec(segments@.take(i as int)),
            decreases segments@.len() - i,
        {
            proof {
                assert(segments@.take(i as int + 1).drop_last() =~= segments@.take(i as int));
            }
            let seg = segments[i];
            let n = merged.len();
            if n > 0 && merged[n - 1].buttons == seg.buttons {
                let hold = merged[n - 1].hold_frames.saturating_add(seg.hold_frames);
                merged.set(n - 1, PadSegment { buttons: seg.buttons, hold_frames: hold });
            } else {
                merged.push(seg);
            }
            i = i + 1;
        }
        proof {
            assert(segments@.take(i as int) =~= segments@);
        }
        merged
    }

    /// Clamp total frames to `[min_frames, max_frames]`: over-long bursts are
    /// cut from the end, short ones grow their final segment.
    fn clamp_total_frames(&self, segments: Vec<PadSegment>) -> (out: Vec<PadSegment>)
        requires
            total_of(segments@) <= u64::MAX,
        ensures
            out@ == clamp_spec(self@.min_frames, self@.max_frames, segments@),
    {
        let ghost orig = segments@;
        let mut segments = segments;
        let total = segments_total_frames(segments.as_slice());
        if total > self.max_frames as u64 {
            let mut remaining: u64 = self.max_frames as u64;
            let mut truncated: Vec<PadSegment> = Vec::with_capacity(segments.len());
            let mut i: usize = 0;
            proof {
                assert(segments@.skip(0) =~= segments@);
            }
            while i < segments.len() && remaining > 0
                invariant
                    i <= segments@.len(),
                    segments@ == orig,
                    remaining <= self.max_frames,
                    truncated@ + truncate_spec(segments@.skip(i as int), remaining as nat)
                        == truncate_spec(orig, self@.max_frames as nat),
                decreases segments@.len() - i,
            {
                let seg = segments[i];
                let take: u64 = if (seg.hold_frames as u64) < remaining {
                    seg.hold_frames as u64
                } else {
                    remaining
                };
                proof {
                    let rest = segments@.skip(i as int);
                    assert(rest[0] == seg);
                    assert(rest.drop_first() =~= segments@.skip(i as int + 1));
                    let head = seq![PadSegment { buttons: seg.buttons, hold_frames: take as u32 }];
                    assert(truncate_spec(rest, remaining as nat) == head + truncate_spec(
                        segments@.skip(i as int + 1),
                        (remaining - take) as nat,
                    ));
                    assert(truncated@.push(head[0]) + truncate_spec(segments@.skip(i as int + 1), (remaining - take) as nat)
                        =~= truncated@ + (head + truncate_spec(segments@.skip(i as int + 1), (remaining - take) as nat)));
                }
                truncated.push(PadSegment { buttons: seg.buttons, hold_frames: take as u32 });
                remaining = remaining - take;
                i = i + 1;
            }
            proof {
                if i == segments@.len() {
                    assert(segments@.skip(i as int) =~= Seq::<PadSegment>::empty());
                }
                assert(truncated@ + Seq::<PadSegment>::empty() =~= truncated@);
            }
            segments = truncated;
        }
        let ghost cut = segments@;
        proof {
            lemma_truncate_shape(self@, orig, self@.max_frames as nat);
        }
        let total = segments_total_frames(segments.as_slice());
        if total < self.min_frames as u64 {
            let deficit: u64 = self.min_frames as u64 - total;
            let deficit: u32 = if deficit > u32::MAX as u64 {
                u32::MAX
            } else {
                deficit as u32
            };
            let n = segments.len();
            if n > 0 {
                let last = segments[n - 1];
                segments.set(
                    n - 1,
                    PadSegment { buttons: last.buttons, hold_frames: last.hold_frames.saturating_add(deficit) },
                );
            } else {
                segments.push(PadSegment { buttons: 0, hold_frames: self.min_frames });
            }
        }
        proof {
            assert(segments@ == extend_spec(cut, self@.min_frames));
        }
        Self::merge_adjacent(segments)
    }
}

impl Clone for PadModel {
    fn clone(&self) -> (c: Self)
        ensures
            c@ == self@,
    {
        proof {
            use_type_invariant(self);
        }
        let exclusive_masks = self.exclusive_masks.clone();
        let mut forbidden: Vec<(u16, u16)> = Vec::with_capacity(self.forbidden.len());
        let mut i: usize = 0;
        while i < self.forbidden.len()
            invariant
                i <= self.forbidden@.len(),
                forbidden@ == self.forbidden@.take(i as int),
            decreases self.forbidden@.len() - i,
        {
            proof {
                assert(self.forbidden@.take(i as int + 1) =~= self.forbidden@.take(i as int).push(self.forbidden@[i as int]));
            }
            forbidden.push(self.forbidden[i]);
            i = i + 1;
        }
        proof {
            assert(exclusive_masks@ =~= self.exclusive_masks@);
            assert(forbidden@ =~= self.forbidden@);
        }
        PadModel {
            min_frames: self.min_frames,
            max_frames: self.max_frames,
            exclusive_masks,
            forbidden,
            direction_mask: self.direction_mask,
        }
    }
}

/// Bursts whose per-segment-legalized total fits in a `u64`.
pub open spec fn pad_accepts(b: Burst) -> bool {
    lifted_total(pad_segments(b)) <= u64::MAX
}

pub proof fn lemma_total_le_lifted(segs: Seq<PadSegment>)
    ensures
        total_of(segs) <= lifted_total(segs),
    decreases segs.len(),
{
    if segs.len() > 0 {
        lemma_total_le_lifted(segs.drop_last());
    }
}

impl InputModel for PadModel {
    type Unit = PadSegment;

    open spec fn accepts(&self, b: Burst) -> bool {
        pad_accepts(b)
    }

    fn burst_len(&self, b: &Burst) -> (n: u64)
        ensures
            n == total_of(pad_segments(*b)),
    {
        proof {
            lemma_total_le_lifted(pad_segments(*b));
        }
        match b {
            Burst::Pad(pad) => pad.total_frames(),
        }
    }

    fn legalize(&self, b: Burst) -> (out: Burst)
        ensures
            pad_segments(out) == legalize_spec(self@, pad_segments(b)),
            self@.wf(),
    {
        proof {
            use_type_invariant(self);
        }
        let segments = match b {
            Burst::Pad(pad) => pad.segments,
        };
        let ghost orig = segments@;
        let mut segments = segments;
        let mut i: usize = 0;
        while i < segments.len()
            invariant
                segments@.len() == orig.len(),
                i <= orig.len(),
                forall|k: int| 0 <= k < i ==> #[trigger] segments@[k] == legal_segment(self@, orig[k]),
                forall|k: int| i <= k < orig.len() ==> #[trigger] segments@[k] == orig[k],
            decreases orig.len() - i,
        {
            let mut seg = segments[i];
            self.legalize_segment(&mut seg);
            segments.set(i, seg);
            i = i + 1;
        }
        let ghost mapped = orig.map_values(|s: PadSegment| legal_segment(self@, s));
        proof {
            assert(segments@ =~= mapped);
            lemma_lifted_total(self@, orig);
            lemma_merge_shape(mapped);
        }
        let mut segments = Self::merge_adjacent(segments);
        if segments.len() == 0 {
            segments.push(PadSegment { buttons: 0, hold_frames: self.min_frames });
            proof {
                assert(total_of(segments@) == self@.min_frames as nat) by {
                    assert(segments@.drop_last() =~= Seq::<PadSegment>::empty());
                }
            }
        }
        let segments = self.clamp_total_frames(segments);
        Burst::Pad(PadBurst { segments })
    }

    fn tokenize(&self, b: &Burst) -> (tokens: Vec<Token>)
        ensures
            tokens@ == pad_segments(*b).map_values(|s: PadSegment| token_of(s)),
    {
        let segments = match b {
            Burst::Pad(pad) => &pad.segments,
        };
        let mut tokens: Vec<Token> = Vec::with_capacity(segments.len());
        let mut i: usize = 0;
        while i < segments.len()
            invariant
                i <= segments@.len(),
                segments@ == pad_segments(*b),
                tokens@ == segments@.take(i as int).map_values(|s: PadSegment| token_of(s)),
            decreases segments@.len() - i,
        {
            proof {
                assert(segments@.take(i as int + 1).map_values(|s: PadSegment| token_of(s))
                    =~= segments@.take(i as int).map_values(|s: PadSegment| token_of(s)).push(token_of(segments@[i as int])));
            }
            let seg = segments[i];
            tokens.push(Token { mask: seg.buttons, dur_bucket: hold_bucket(seg.hold_frames) });
            i = i + 1;
        }
        proof {
            assert(segments@.take(i as int) =~= segments@);
        }
        tokens
    }

    fn detokenize(&self, t: &[Token]) -> (out: Burst)
        ensures
            pad_segments(out) == t@.map_values(|tok: Token| segment_of(tok)),
    {
        let mut segments: Vec<PadSegment> = Vec::with_capacity(t.len());
        let mut i: usize = 0;
        while i < t.len()
            invariant
                i <= t@.len(),
                segments@ == t@.take(i as int).map_values(|tok: Token| segment_of(tok)),
            decreases t@.len() - i,
        {
            proof {
                assert(t@.take(i as int + 1).map_values(|tok: Token| segment_of(tok))
                    =~= t@.take(i as int).map_values(|tok: Token| segment_of(tok)).push(segment_of(t@[i as int])));
            }
            let tok = t[i];
            segments.push(PadSegment { buttons: tok.mask, hold_frames: bucket_midpoint(tok.dur_bucket) });
            i = i + 1;
        }
        proof {
            assert(t@.take(i as int) =~= t@);
        }
        Burst::Pad(PadBurst { segments })
    }

    fn kind(&self) -> (k: ModelKind)
        ensures
            k == ModelKind::Pad,
    {
        ModelKind::Pad
    }
}

/// One released segment spanning `frames` (at least one frame).
pub fn neutral_burst(frames: u32) -> (b: Burst)
    ensures
        pad_segments(b) == seq![PadSegment { buttons: 0, hold_frames: if frames == 0 { 1 } else { frames } }],
{
    let hold = if frames == 0 {
        1
    } else {
        frames
    };
    let mut segments: Vec<PadSegment> = Vec::new();
    segments.push(PadSegment { buttons: 0, hold_frames: hold });
    proof {
        assert(segments@ =~= seq![PadSegment { buttons: 0, hold_frames: hold }]);
    }
    Burst::Pad(PadBurst { segments })
}

} // verus!
