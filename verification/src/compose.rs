//! Burst composition: a direction track and per-button hold intervals
//! materialized into a run-length segment list, plus direction-name helpers.

use vstd::prelude::*;

use crate::bits::{count_ones, popcount};
use crate::config::{spec_bit, spec_mask, ButtonAlphabet};
use crate::types::{total_of, PadSegment};

verus! {

/// One direction segment: a direction-group mask and its duration.
#[derive(Clone, Copy, Debug, PartialEq, Eq)]
pub struct DirSegment {
    pub mask: u16,
    pub frames: u64,
}

/// Total duration of a direction track.
pub open spec fn dir_total(dirs: Seq<DirSegment>) -> nat
    decreases dirs.len(),
{
    if dirs.len() == 0 {
        0
    } else {
        dir_total(dirs.drop_last()) + dirs.last().frames as nat
    }
}

/// End of the `k`-th direction segment counted from the track start.
pub open spec fn dir_end(dirs: Seq<DirSegment>, k: int) -> nat {
    dir_total(dirs.take(k))
}

/// Mask of the first direction segment that covers frame `t`, where the
/// track starts at frame `acc`; 0 past the end of the track.
pub open spec fn dir_mask_from(dirs: Seq<DirSegment>, acc: nat, t: nat) -> u16
    decreases dirs.len(),
{
    if dirs.len() == 0 {
        0
    } else if t < acc + dirs[0].frames {
        dirs[0].mask
    } else {
        dir_mask_from(dirs.drop_first(), acc + dirs[0].frames as nat, t)
    }
}

/// Whether some interval `[s, e)` contains frame `t`.
pub open spec fn held_at(ivs: Seq<(u64, u64)>, t: nat) -> bool {
    exists|j: int| 0 <= j < ivs.len() && (#[trigger] ivs[j]).0 <= t && t < ivs[j].1
}

/// Union of the masks of the buttons held at frame `t`.
pub open spec fn buttons_at(btns: Seq<(u16, Vec<(u64, u64)>)>, t: nat) -> u16
    decreases btns.len(),
{
    if btns.len() == 0 {
        0
    } else {
        buttons_at(btns.drop_last(), t) | if held_at(btns.last().1@, t) {
            btns.last().0
        } else {
            0u16
        }
    }
}

/// The frames at which the composed mask may change: the burst bounds,
/// every direction boundary inside the burst, and every interval bound
/// inside the burst.
pub open spec fn is_cut(
    target: u64,
    dirs: Seq<DirSegment>,
    btns: Seq<(u16, Vec<(u64, u64)>)>,
    c: u64,
) -> bool {
    ||| c == 0
    ||| c == target
    ||| c < target && exists|k: int| 1 <= k <= dirs.len() && #[trigger] dir_end(dirs, k) == c
    ||| c < target && exists|b: int, j: int|
        0 <= b < btns.len() && 0 <= j < btns[b].1@.len() && ((#[trigger] btns[b].1@[j]).0 == c
            || btns[b].1@[j].1 == c)
}

/// Segment spanning `[start, end)` with the mask in force at `start`.
pub open spec fn window_segment(
    dirs: Seq<DirSegment>,
    btns: Seq<(u16, Vec<(u64, u64)>)>,
    start: u64,
    end: u64,
) -> PadSegment {
    PadSegment {
        buttons: dir_mask_from(dirs, 0, start as nat) | buttons_at(btns, start as nat),
        hold_frames: if end - start > u32::MAX {
            u32::MAX
        } else {
            (end - start) as u32
        },
    }
}

pub open spec fn strictly_increasing(s: Seq<u64>) -> bool {
    forall|i: int, j: int| 0 <= i < j < s.len() ==> s[i] < s[j]
}

/// Per-button intervals are each ordered and pairwise non-overlapping.
pub open spec fn intervals_ordered(ivs: Seq<(u64, u64)>) -> bool {
    &&& forall|j: int| 0 <= j < ivs.len() ==> (#[trigger] ivs[j]).0 <= ivs[j].1
    &&& forall|j1: int, j2: int| 0 <= j1 < j2 < ivs.len() ==> (#[trigger] ivs[j1]).1 <= (#[trigger] ivs[j2]).0
}

/// The composed burst: the sorted distinct cut points, one segment per
/// neighbouring pair.
pub open spec fn composed(
    target: u64,
    dirs: Seq<DirSegment>,
    btns: Seq<(u16, Vec<(u64, u64)>)>,
    cuts: Seq<u64>,
    out: Seq<PadSegment>,
) -> bool {
    &&& strictly_increasing(cuts)
    &&& forall|c: u64| cuts.contains(c) <==> is_cut(target, dirs, btns, c)
    &&& out.len() + 1 == cuts.len()
    &&& forall|k: int| 0 <= k < out.len() ==> #[trigger] out[k] == window_segment(dirs, btns, cuts[k], cuts[k + 1])
}

proof fn lemma_increasing_determined(a: Seq<u64>, b: Seq<u64>)
    requires
        strictly_increasing(a),
        strictly_increasing(b),
        forall|c: u64| a.contains(c) <==> b.contains(c),
    ensures
        a == b,
    decreases a.len() + b.len(),
{
    if a.len() == 0 {
        if b.len() > 0 {
            assert(b.contains(b[0]));
        }
        assert(a =~= b);
    } else if b.len() == 0 {
        assert(a.contains(a[0]));
    } else {
        assert(a.contains(a[0]));
        assert(b.contains(b[0]));
        let ia = choose|i: int| 0 <= i < a.len() && a[i] == b[0];
        let ib = choose|i: int| 0 <= i < b.len() && b[i] == a[0];
        if ia > 0 {
            assert(a[0] < a[ia]);
        }
        if ib > 0 {
            assert(b[0] < b[ib]);
        }
        assert(a[0] == b[0]);
        let ra = a.drop_first();
        let rb = b.drop_first();
        assert forall|c: u64| ra.contains(c) <==> rb.contains(c) by {
            if ra.contains(c) {
                let k = choose|k: int| 0 <= k < ra.len() && ra[k] == c;
                assert(a[k + 1] == c && a[0] < a[k + 1]);
                assert(a.contains(c));
                let m = choose|m: int| 0 <= m < b.len() && b[m] == c;
                if m == 0 {
                    assert(false);
                }
                assert(rb[m - 1] == c);
            }
            if rb.contains(c) {
                let k = choose|k: int| 0 <= k < rb.len() && rb[k] == c;
                assert(b[k + 1] == c && b[0] < b[k + 1]);
                assert(b.contains(c));
                let m = choose|m: int| 0 <= m < a.len() && a[m] == c;
                if m == 0 {
                    assert(false);
                }
                assert(ra[m - 1] == c);
            }
        }
        lemma_increasing_determined(ra, rb);
        assert(a =~= seq![a[0]] + ra);
        assert(b =~= seq![b[0]] + rb);
    }
}

proof fn lemma_composed_total(
    target: u64,
    dirs: Seq<DirSegment>,
    btns: Seq<(u16, Vec<(u64, u64)>)>,
    cuts: Seq<u64>,
    out: Seq<PadSegment>,
    k: int,
)
    requires
        composed(target, dirs, btns, cuts, out),
        target <= u32::MAX,
        forall|j: int| 0 <= j < cuts.len() ==> #[trigger] cuts[j] <= target,
        0 <= k <= out.len(),
    ensures
        total_of(out.take(k)) == cuts[k] - cuts[0],
    decreases k,
{
    if k > 0 {
        lemma_composed_total(target, dirs, btns, cuts, out, k - 1);
        assert(out.take(k).drop_last() =~= out.take(k - 1));
        assert(out[k - 1] == window_segment(dirs, btns, cuts[k - 1], cuts[k]));
        assert(cuts[k - 1] < cuts[k]);
        assert(cuts[k] <= target);
    }
}

/// A composed burst covers exactly `[0, target)`: its holds add up to the
/// target, every hold lasts at least one frame, and a positive target gives
/// at least one segment.
pub proof fn law_composition_covers_target(
    target: u64,
    dirs: Seq<DirSegment>,
    btns: Seq<(u16, Vec<(u64, u64)>)>,
    cuts: Seq<u64>,
    out: Seq<PadSegment>,
)
    requires
        composed(target, dirs, btns, cuts, out),
        target <= u32::MAX,
    ensures
        total_of(out) == target,
        forall|k: int| 0 <= k < out.len() ==> (#[trigger] out[k]).hold_frames >= 1,
        target >= 1 ==> out.len() >= 1,
{
    assert(is_cut(target, dirs, btns, 0));
    assert(is_cut(target, dirs, btns, target));
    assert(cuts.contains(0u64));
    assert(cuts.contains(target));
    assert forall|j: int| 0 <= j < cuts.len() implies #[trigger] cuts[j] <= target by {
        assert(cuts.contains(cuts[j]));
        assert(is_cut(target, dirs, btns, cuts[j]));
    }
    let z = choose|j: int| 0 <= j < cuts.len() && cuts[j] == 0u64;
    let t = choose|j: int| 0 <= j < cuts.len() && cuts[j] == target;
    let n = out.len() as int;
    if z > 0 {
        assert(cuts[0] < cuts[z]);
    }
    if t < n {
        assert(cuts[t] < cuts[n]);
    }
    assert(cuts[0] == 0 && cuts[n] == target);
    lemma_composed_total(target, dirs, btns, cuts, out, n);
    assert(out.take(n) =~= out);
    assert forall|k: int| 0 <= k < out.len() implies (#[trigger] out[k]).hold_frames >= 1 by {
        assert(out[k] == window_segment(dirs, btns, cuts[k], cuts[k + 1]));
        assert(cuts[k] < cuts[k + 1]);
        assert(cuts[k + 1] <= target);
    }
    if target >= 1 {
        assert(cuts[0] != cuts[n]);
    }
}

/// Composition leaves nothing open: the cut points and so the segment list
/// are fixed by the target, the direction track and the button intervals.
pub proof fn law_composition_is_determined(
    target: u64,
    dirs: Seq<DirSegment>,
    btns: Seq<(u16, Vec<(u64, u64)>)>,
    cuts1: Seq<u64>,
    out1: Seq<PadSegment>,
    cuts2: Seq<u64>,
    out2: Seq<PadSegment>,
)
    requires
        composed(target, dirs, btns, cuts1, out1),
        composed(target, dirs, btns, cuts2, out2),
    ensures
        cuts1 == cuts2,
        out1 == out2,
{
    assert forall|c: u64| cuts1.contains(c) <==> cuts2.contains(c) by {
        assert(cuts1.contains(c) <==> is_cut(target, dirs, btns, c));
        assert(cuts2.contains(c) <==> is_cut(target, dirs, btns, c));
    }
    lemma_increasing_determined(cuts1, cuts2);
    assert(out1 =~= out2);
}


/// Sort values ascending (insertion sort): the same values, as a multiset,
/// in order.
fn sort_u64s(v: &mut Vec<u64>)
    ensures
        final(v)@.to_multiset() == old(v)@.to_multiset(),
        forall|i: int, j: int| 0 <= i <= j < final(v)@.len() ==> final(v)@[i] <= final(v)@[j],
{
    broadcast use vstd::seq_lib::group_to_multiset_ensures;
    broadcast use vstd::multiset::group_multiset_axioms;

    let ghost orig = v@;
    let mut out: Vec<u64> = Vec::new();
    proof {
        assert(out@.to_multiset().add(v@.to_multiset()) =~= orig.to_multiset());
    }
    while v.len() > 0
        invariant
            out@.to_multiset().add(v@.to_multiset()) == orig.to_multiset(),
            forall|a: int, b: int| 0 <= a <= b < out@.len() ==> out@[a] <= out@[b],
        decreases v@.len(),
    {
        let ghost before = v@;
        let x = v.pop().unwrap();
        proof {
            assert(before =~= v@.push(x));
        }
        let mut j: usize = 0;
        while j < out.len() && out[j] <= x
            invariant
                j <= out@.len(),
                forall|k: int| 0 <= k < j ==> #[trigger] out@[k] <= x,
            decreases out@.len() - j,
        {
            j = j + 1;
        }
        let ghost sorted = out@;
        out.insert(j, x);
        proof {
            let n = out@;
            assert(n =~= sorted.insert(j as int, x));
            assert forall|a: int, b: int| 0 <= a <= b < n.len() implies n[a] <= n[b] by {
                if a < j && b > j {
                    assert(n[b] == sorted[b - 1]);
                    assert(sorted[j as int] <= sorted[b - 1]);
                } else if a == j && b > j {
                    assert(n[b] == sorted[b - 1]);
                    assert(sorted[j as int] <= sorted[b - 1]);
                } else if a > j {
                    assert(n[a] == sorted[a - 1] && n[b] == sorted[b - 1]);
                }
            }
            vstd::seq_lib::to_multiset_insert(sorted, j as int, x);
            vstd::seq_lib::to_multiset_build(v@, x);
            assert(n.to_multiset().add(v@.to_multiset()) =~= orig.to_multiset());
        }
    }
    proof {
        assert(v@.to_multiset() =~= vstd::multiset::Multiset::<u64>::empty());
        assert(out@.to_multiset() =~= orig.to_multiset());
    }
    *v = out;
}

/// Remove repeated values from an ascending vector.
fn dedup_sorted(v: &Vec<u64>) -> (out: Vec<u64>)
    requires
        forall|i: int, j: int| 0 <= i <= j < v@.len() ==> v@[i] <= v@[j],
    ensures
        strictly_increasing(out@),
        forall|x: u64| out@.contains(x) <==> v@.contains(x),
{
    let mut out: Vec<u64> = Vec::new();
    let mut i: usize = 0;
    while i < v.len()
        invariant
            i <= v@.len(),
            forall|a: int, b: int| 0 <= a <= b < v@.len() ==> v@[a] <= v@[b],
            strictly_increasing(out@),
            i > 0 ==> out@.len() > 0 && out@.last() == v@[i - 1],
            i == 0 ==> out@.len() == 0,
            forall|x: u64| out@.contains(x) <==> v@.take(i as int).contains(x),
        decreases v@.len() - i,
    {
        let x = v[i];
        let n = out.len();
        let ghost old_out = out@;
        if n == 0 || out[n - 1] != x {
            out.push(x);
            proof {
                assert forall|a: int, b: int| 0 <= a < b < out@.len() implies out@[a] < out@[b] by {
                    if b == out@.len() - 1 && n > 0 {
                        assert(out@[a] <= old_out.last());
                    }
                }
            }
        }
        proof {
            let t0 = v@.take(i as int);
            let t1 = v@.take(i as int + 1);
            assert(t1 =~= t0.push(x));
            assert(out@.len() >= old_out.len());
            assert(forall|k: int| 0 <= k < old_out.len() ==> out@[k] == old_out[k]);
            assert(out@[out@.len() - 1] == x);
            assert forall|y: u64| out@.contains(y) <==> t1.contains(y) by {
                if t1.contains(y) {
                    let k = choose|k: int| 0 <= k < t1.len() && t1[k] == y;
                    if k < i {
                        assert(t0[k] == y);
                        assert(t0.contains(y));
                        assert(old_out.contains(y));
                        let k2 = choose|k2: int| 0 <= k2 < old_out.len() && old_out[k2] == y;
                        assert(out@[k2] == y);
                    } else {
                        assert(y == x);
                        assert(out@[out@.len() - 1] == y);
                    }
                }
                if out@.contains(y) {
                    let k = choose|k: int| 0 <= k < out@.len() && out@[k] == y;
                    if k < old_out.len() {
                        assert(old_out[k] == y);
                        assert(old_out.contains(y));
                        assert(t0.contains(y));
                        let k2 = choose|k2: int| 0 <= k2 < t0.len() && t0[k2] == y;
                        assert(t1[k2] == y);
                    } else {
                        assert(y == x);
                        assert(t1[i as int] == y);
                    }
                }
            }
        }
        i = i + 1;
    }
    proof {
        assert(v@.take(i as int) =~= v@);
    }
    out
}

// ---------------------------------------------------------------------
// Candidate cut list, in the order the composer gathers it
// ---------------------------------------------------------------------

/// Direction boundaries strictly inside the burst, in track order.
pub open spec fn dir_cuts(dirs: Seq<DirSegment>, target: u64) -> Seq<u64>
    decreases dirs.len(),
{
    if dirs.len() == 0 {
        Seq::empty()
    } else {
        dir_cuts(dirs.drop_last(), target) + if dir_total(dirs) < target {
            seq![dir_total(dirs) as u64]
        } else {
            Seq::empty()
        }
    }
}

/// Interval bounds strictly inside the burst, in interval order.
pub open spec fn interval_cuts(ivs: Seq<(u64, u64)>, target: u64) -> Seq<u64>
    decreases ivs.len(),
{
    if ivs.len() == 0 {
        Seq::empty()
    } else {
        interval_cuts(ivs.drop_last(), target) + (if ivs.last().0 < target {
            seq![ivs.last().0]
        } else {
            Seq::empty()
        }) + (if ivs.last().1 < target {
            seq![ivs.last().1]
        } else {
            Seq::empty()
        })
    }
}

pub open spec fn button_cuts(btns: Seq<(u16, Vec<(u64, u64)>)>, target: u64) -> Seq<u64>
    decreases btns.len(),
{
    if btns.len() == 0 {
        Seq::empty()
    } else {
        button_cuts(btns.drop_last(), target) + interval_cuts(btns.last().1@, target)
    }
}

pub open spec fn raw_cuts(target: u64, dirs: Seq<DirSegment>, btns: Seq<(u16, Vec<(u64, u64)>)>) -> Seq<u64> {
    seq![0u64, target] + dir_cuts(dirs, target) + button_cuts(btns, target)
}

pub proof fn lemma_concat_contains(a: Seq<u64>, b: Seq<u64>, x: u64)
    ensures
        (a + b).contains(x) <==> a.contains(x) || b.contains(x),
{
    if (a + b).contains(x) {
        let k = choose|k: int| 0 <= k < (a + b).len() && (a + b)[k] == x;
        if k < a.len() {
            assert(a[k] == x);
        } else {
            assert(b[k - a.len()] == x);
        }
    }
    if a.contains(x) {
        let k = choose|k: int| 0 <= k < a.len() && a[k] == x;
        assert((a + b)[k] == x);
    }
    if b.contains(x) {
        let k = choose|k: int| 0 <= k < b.len() && b[k] == x;
        assert((a + b)[k + a.len()] == x);
    }
}

pub proof fn lemma_dir_end_step(dirs: Seq<DirSegment>, k: int)
    requires
        0 <= k < dirs.len(),
    ensures
        dir_end(dirs, k + 1) == dir_end(dirs, k) + dirs[k].frames,
{
    assert(dirs.take(k + 1).drop_last() =~= dirs.take(k));
}

pub proof fn lemma_dir_end_mono(dirs: Seq<DirSegment>, k1: int, k2: int)
    requires
        0 <= k1 <= k2 <= dirs.len(),
    ensures
        dir_end(dirs, k1) <= dir_end(dirs, k2),
        dir_end(dirs, k2) <= dir_total(dirs),
    decreases k2 - k1,
{
    lemma_dir_end_le_total(dirs, k2);
    if k1 < k2 {
        lemma_dir_end_step(dirs, k2 - 1);
        lemma_dir_end_mono(dirs, k1, k2 - 1);
    }
}

pub proof fn lemma_dir_end_le_total(dirs: Seq<DirSegment>, k: int)
    requires
        0 <= k <= dirs.len(),
    ensures
        dir_end(dirs, k) <= dir_total(dirs),
    decreases dirs.len() - k,
{
    if k < dirs.len() {
        lemma_dir_end_step(dirs, k);
        lemma_dir_end_le_total(dirs, k + 1);
    } else {
        assert(dirs.take(k) =~= dirs);
    }
}

pub proof fn lemma_dir_cuts_contains(dirs: Seq<DirSegment>, target: u64, c: u64)
    ensures
        dir_cuts(dirs, target).contains(c) <==> (c < target && exists|k: int|
            1 <= k <= dirs.len() && #[trigger] dir_end(dirs, k) == c),
    decreases dirs.len(),
{
    if dirs.len() > 0 {
        let d = dirs.drop_last();
        let tail = if dir_total(dirs) < target {
            seq![dir_total(dirs) as u64]
        } else {
            Seq::<u64>::empty()
        };
        lemma_dir_cuts_contains(d, target, c);
        lemma_concat_contains(dir_cuts(d, target), tail, c);
        assert(dirs.take(dirs.len() as int) =~= dirs);
        assert forall|k: int| 1 <= k <= d.len() implies #[trigger] dir_end(d, k) == dir_end(dirs, k) by {
            assert(d.take(k) =~= dirs.take(k));
        }
        if c < target && exists|k: int| 1 <= k <= dirs.len() && #[trigger] dir_end(dirs, k) == c {
            let k = choose|k: int| 1 <= k <= dirs.len() && #[trigger] dir_end(dirs, k) == c;
            if k < dirs.len() {
                assert(dir_end(d, k) == c);
            } else {
                assert(tail.contains(c)) by {
                    assert(tail[0] == c);
                }
            }
        }
        if tail.contains(c) {
            assert(dir_end(dirs, dirs.len() as int) == c);
        }
        if dir_cuts(d, target).contains(c) {
            let k = choose|k: int| 1 <= k <= d.len() && #[trigger] dir_end(d, k) == c;
            assert(dir_end(dirs, k) == c);
        }
    }
}

pub proof fn lemma_interval_cuts_contains(ivs: Seq<(u64, u64)>, target: u64, c: u64)
    ensures
        interval_cuts(ivs, target).contains(c) <==> (c < target && exists|j: int|
            0 <= j < ivs.len() && ((#[trigger] ivs[j]).0 == c || ivs[j].1 == c)),
    decreases ivs.len(),
{
    if ivs.len() > 0 {
        let d = ivs.drop_last();
        let l = ivs.last();
        let t1 = if l.0 < target {
            seq![l.0]
        } else {
            Seq::<u64>::empty()
        };
        let t2 = if l.1 < target {
            seq![l.1]
        } else {
            Seq::<u64>::empty()
        };
        lemma_interval_cuts_contains(d, target, c);
        lemma_concat_contains(interval_cuts(d, target), t1, c);
        lemma_concat_contains(interval_cuts(d, target) + t1, t2, c);
        if c < target && exists|j: int| 0 <= j < ivs.len() && ((#[trigger] ivs[j]).0 == c || ivs[j].1 == c) {
            let j = choose|j: int| 0 <= j < ivs.len() && ((#[trigger] ivs[j]).0 == c || ivs[j].1 == c);
            if j < d.len() {
                assert(d[j] == ivs[j]);
            } else if l.0 == c {
                assert(t1[0] == c);
            } else {
                assert(t2[0] == c);
            }
        }
        if interval_cuts(d, target).contains(c) {
            let j = choose|j: int| 0 <= j < d.len() && ((#[trigger] d[j]).0 == c || d[j].1 == c);
            assert(ivs[j] == d[j]);
        }
        if t1.contains(c) || t2.contains(c) {
            assert(ivs[ivs.len() - 1] == l);
        }
    }
}

pub proof fn lemma_button_cuts_contains(btns: Seq<(u16, Vec<(u64, u64)>)>, target: u64, c: u64)
    ensures
        button_cuts(btns, target).contains(c) <==> (c < target && exists|b: int, j: int|
            0 <= b < btns.len() && 0 <= j < btns[b].1@.len() && ((#[trigger] btns[b].1@[j]).0 == c
                || btns[b].1@[j].1 == c)),
    decreases btns.len(),
{
    if btns.len() > 0 {
        let d = btns.drop_last();
        let l = btns.last();
        lemma_button_cuts_contains(d, target, c);
        lemma_interval_cuts_contains(l.1@, target, c);
        lemma_concat_contains(button_cuts(d, target), interval_cuts(l.1@, target), c);
        if c < target && exists|b: int, j: int|
            0 <= b < btns.len() && 0 <= j < btns[b].1@.len() && ((#[trigger] btns[b].1@[j]).0 == c
                || btns[b].1@[j].1 == c) {
            let (b, j) = choose|b: int, j: int|
                0 <= b < btns.len() && 0 <= j < btns[b].1@.len() && ((#[trigger] btns[b].1@[j]).0 == c
                    || btns[b].1@[j].1 == c);
            if b < d.len() {
                assert(d[b] == btns[b]);
                assert(d[b].1@[j] == btns[b].1@[j]);
            } else {
                assert(l.1@[j] == btns[b].1@[j]);
            }
        }
        if button_cuts(d, target).contains(c) {
            let (b, j) = choose|b: int, j: int|
                0 <= b < d.len() && 0 <= j < d[b].1@.len() && ((#[trigger] d[b].1@[j]).0 == c || d[b].1@[j].1 == c);
            assert(btns[b] == d[b]);
            assert(btns[b].1@[j] == d[b].1@[j]);
        }
        if interval_cuts(l.1@, target).contains(c) {
            let j = choose|j: int| 0 <= j < l.1@.len() && ((#[trigger] l.1@[j]).0 == c || l.1@[j].1 == c);
            assert(btns[btns.len() - 1] == l);
            assert(btns[btns.len() - 1].1@[j] == l.1@[j]);
        }
    }
}

pub proof fn lemma_raw_cuts_contains(target: u64, dirs: Seq<DirSegment>, btns: Seq<(u16, Vec<(u64, u64)>)>, c: u64)
    ensures
        raw_cuts(target, dirs, btns).contains(c) <==> is_cut(target, dirs, btns, c),
{
    let base = seq![0u64, target];
    lemma_concat_contains(base, dir_cuts(dirs, target), c);
    lemma_concat_contains(base + dir_cuts(dirs, target), button_cuts(btns, target), c);
    lemma_dir_cuts_contains(dirs, target, c);
    lemma_button_cuts_contains(btns, target, c);
    if base.contains(c) {
        let k = choose|k: int| 0 <= k < base.len() && base[k] == c;
    }
    if c == 0 {
        assert(base[0] == c);
    }
    if c == target {
        assert(base[1] == c);
    }
}

// ---------------------------------------------------------------------
// Cursor lookups
// ---------------------------------------------------------------------

/// Skipping the direction segments that end at or before `t` does not
/// change the mask in force at `t`.
pub proof fn lemma_dir_skip(dirs: Seq<DirSegment>, i: int, t: nat)
    requires
        0 <= i <= dirs.len(),
        forall|d: int| 0 <= d < i ==> #[trigger] dir_end(dirs, d + 1) <= t,
    ensures
        dir_mask_from(dirs, 0, t) == dir_mask_from(dirs.skip(i), dir_end(dirs, i), t),
    decreases i,
{
    if i == 0 {
        assert(dirs.skip(0) =~= dirs);
        assert(dirs.take(0) =~= Seq::<DirSegment>::empty());
    } else {
        lemma_dir_skip(dirs, i - 1, t);
        lemma_dir_end_step(dirs, i - 1);
        let s = dirs.skip(i - 1);
        assert(s[0] == dirs[i - 1]);
        assert(s.drop_first() =~= dirs.skip(i));
        assert(dir_end(dirs, i) <= t);
    }
}

/// The mask at `t` once the cursor sits on the first segment ending after `t`.
pub proof fn lemma_dir_cursor(dirs: Seq<DirSegment>, i: int, t: nat)
    requires
        0 <= i <= dirs.len(),
        forall|d: int| 0 <= d < i ==> #[trigger] dir_end(dirs, d + 1) <= t,
        i < dirs.len() ==> dir_end(dirs, i + 1) > t,
    ensures
        dir_mask_from(dirs, 0, t) == if i < dirs.len() {
            dirs[i].mask
        } else {
            0u16
        },
{
    lemma_dir_skip(dirs, i, t);
    if i < dirs.len() {
        lemma_dir_end_step(dirs, i);
        assert(dirs.skip(i)[0] == dirs[i]);
    } else {
        assert(dirs.skip(i) =~= Seq::<DirSegment>::empty());
    }
}

/// With ordered intervals, the button is held at `t` exactly when the first
/// interval ending after `t` has already started.
pub proof fn lemma_button_cursor(ivs: Seq<(u64, u64)>, c: int, t: nat)
    requires
        intervals_ordered(ivs),
        0 <= c <= ivs.len(),
        forall|j: int| 0 <= j < c ==> (#[trigger] ivs[j]).1 <= t,
        c < ivs.len() ==> ivs[c].1 > t,
    ensures
        held_at(ivs, t) == (c < ivs.len() && ivs[c].0 <= t),
{
    if held_at(ivs, t) {
        let j = choose|j: int| 0 <= j < ivs.len() && (#[trigger] ivs[j]).0 <= t && t < ivs[j].1;
        if j > c {
            assert(ivs[c].1 <= ivs[j].0);
        }
    }
    if c < ivs.len() && ivs[c].0 <= t {
        assert(ivs[c].0 <= t && t < ivs[c].1);
    }
}

// ---------------------------------------------------------------------
// Composition
// ---------------------------------------------------------------------

/// Materialize the change points of a direction track and per-button ON
/// intervals over `[0, target)` into a run-length segment list. One monotone
/// cursor per track replaces a rescan per cut.
pub fn compose_segments(
    target: u64,
    dir_segments: &[DirSegment],
    button_intervals: &[(u16, Vec<(u64, u64)>)],
) -> (out: Vec<PadSegment>)
    requires
        dir_total(dir_segments@) <= u64::MAX,
        forall|b: int| 0 <= b < button_intervals@.len() ==> intervals_ordered(#[trigger] button_intervals@[b].1@),
    ensures
        exists|cuts: Seq<u64>| composed(target, dir_segments@, button_intervals@, cuts, out@),
{
    let ghost dirs = dir_segments@;
    let ghost btns = button_intervals@;

    let mut cuts: Vec<u64> = Vec::new();
    cuts.push(0);
    cuts.push(target);
    let mut acc: u64 = 0;
    let mut i: usize = 0;
    proof {
        assert(cuts@ =~= seq![0u64, target] + dir_cuts(dirs.take(0), target));
    }
    while i < dir_segments.len()
        invariant
            i <= dirs.len(),
            dirs == dir_segments@,
            dir_total(dirs) <= u64::MAX,
            acc == dir_total(dirs.take(i as int)),
            cuts@ == seq![0u64, target] + dir_cuts(dirs.take(i as int), target),
        decreases dirs.len() - i,
    {
        proof {
            lemma_dir_end_le_total(dirs, i as int + 1);
            assert(dirs.take(i as int + 1).drop_last() =~= dirs.take(i as int));
        }
        acc = acc + dir_segments[i].frames;
        if acc < target {
            cuts.push(acc);
        }
        proof {
            assert(cuts@ =~= seq![0u64, target] + dir_cuts(dirs.take(i as int + 1), target));
        }
        i = i + 1;
    }
    proof {
        assert(dirs.take(i as int) =~= dirs);
    }
    let ghost base = cuts@;
    let mut b: usize = 0;
    proof {
        assert(btns.take(0) =~= Seq::<(u16, Vec<(u64, u64)>)>::empty());
        assert(cuts@ =~= base + button_cuts(btns.take(0), target));
    }
    while b < button_intervals.len()
        invariant
            b <= btns.len(),
            btns == button_intervals@,
            cuts@ == base + button_cuts(btns.take(b as int), target),
        decreases btns.len() - b,
    {
        let intervals = &button_intervals[b].1;
        let ghost before = cuts@;
        let mut j: usize = 0;
        proof {
            assert(intervals@.take(0) =~= Seq::<(u64, u64)>::empty());
            assert(cuts@ =~= before + interval_cuts(intervals@.take(0), target));
        }
        while j < intervals.len()
            invariant
                j <= intervals@.len(),
                cuts@ == before + interval_cuts(intervals@.take(j as int), target),
            decreases intervals@.len() - j,
        {
            proof {
                assert(intervals@.take(j as int + 1).drop_last() =~= intervals@.take(j as int));
            }
            let (start, end) = intervals[j];
            if start < target {
                cuts.push(start);
            }
            if end < target {
                cuts.push(end);
            }
            proof {
                assert(cuts@ =~= before + interval_cuts(intervals@.take(j as int + 1), target));
            }
            j = j + 1;
        }
        proof {
            assert(intervals@.take(j as int) =~= intervals@);
            assert(btns.take(b as int + 1).drop_last() =~= btns.take(b as int));
            assert(btns.take(b as int + 1).last() == btns[b as int]);
            assert(cuts@ =~= base + button_cuts(btns.take(b as int + 1), target));
        }
        b = b + 1;
    }
    proof {
        assert(btns.take(b as int) =~= btns);
        assert(cuts@ =~= raw_cuts(target, dirs, btns));
    }
    let ghost raw = cuts@;
    sort_u64s(&mut cuts);
    let ghost sorted = cuts@;
    let cuts = dedup_sorted(&cuts);
    proof {
        raw.to_multiset_ensures();
        sorted.to_multiset_ensures();
        assert forall|c: u64| cuts@.contains(c) <==> is_cut(target, dirs, btns, c) by {
            lemma_raw_cuts_contains(target, dirs, btns, c);
            assert(sorted.contains(c) <==> sorted.to_multiset().count(c) > 0);
            assert(raw.contains(c) <==> raw.to_multiset().count(c) > 0);
        }
        // 0 and target are cuts, so there is at least one cut point.
        assert(is_cut(target, dirs, btns, 0));
        assert(cuts@.contains(0));
    }

    let mut segments: Vec<PadSegment> = Vec::with_capacity(cuts.len());
    let mut dir_idx: usize = 0;
    let mut dir_cum_end: u64 = if dir_segments.len() > 0 {
        dir_segments[0].frames
    } else {
        0
    };
    proof {
        if dirs.len() > 0 {
            lemma_dir_end_step(dirs, 0);
            assert(dirs.take(0) =~= Seq::<DirSegment>::empty());
        } else {
            assert(dirs.take(0) =~= Seq::<DirSegment>::empty());
        }
    }
    let mut btn_cursors: Vec<usize> = Vec::new();
    let mut z: usize = 0;
    while z < button_intervals.len()
        invariant
            z <= btns.len(),
            btns == button_intervals@,
            btn_cursors@.len() == z,
            forall|q: int| 0 <= q < z ==> #[trigger] btn_cursors@[q] == 0,
        decreases btns.len() - z,
    {
        btn_cursors.push(0);
        z = z + 1;
    }

    let mut k: usize = 0;
    while k < cuts.len() - 1
        invariant
            cuts@.len() >= 1,
            k + 1 <= cuts@.len(),
            strictly_increasing(cuts@),
            dirs == dir_segments@,
            btns == button_intervals@,
            dir_total(dirs) <= u64::MAX,
            forall|q: int| 0 <= q < btns.len() ==> intervals_ordered(#[trigger] btns[q].1@),
            segments@.len() == k,
            forall|kk: int| 0 <= kk < k ==> #[trigger] segments@[kk] == window_segment(dirs, btns, cuts@[kk], cuts@[kk + 1]),
            dir_idx <= dirs.len(),
            dir_cum_end == dir_end(dirs, if dir_idx < dirs.len() { dir_idx + 1 } else { dirs.len() as int }),
            forall|d: int| 0 <= d < dir_idx ==> #[trigger] dir_end(dirs, d + 1) <= cuts@[k as int],
            btn_cursors@.len() == btns.len(),
            forall|q: int| 0 <= q < btns.len() ==> #[trigger] btn_cursors@[q] <= btns[q].1@.len(),
            forall|q: int, j: int|
                0 <= q < btns.len() && 0 <= j < btn_cursors@[q] ==> (#[trigger] btns[q].1@[j]).1 <= cuts@[k as int],
        decreases cuts@.len() - k,
    {
        let start = cuts[k];
        let end = cuts[k + 1];
        let ghost t = start as nat;
        let mut mask: u16 = 0;
        while dir_idx < dir_segments.len() && dir_cum_end <= start
            invariant
                dirs == dir_segments@,
                dir_total(dirs) <= u64::MAX,
                dir_idx <= dirs.len(),
                dir_cum_end == dir_end(dirs, if dir_idx < dirs.len() { dir_idx + 1 } else { dirs.len() as int }),
                forall|d: int| 0 <= d < dir_idx ==> #[trigger] dir_end(dirs, d + 1) <= start,
            decreases dirs.len() - dir_idx,
        {
            proof {
                assert(dir_end(dirs, dir_idx + 1) <= start);
            }
            dir_idx = dir_idx + 1;
            if dir_idx < dir_segments.len() {
                proof {
                    lemma_dir_end_step(dirs, dir_idx as int);
                    lemma_dir_end_le_total(dirs, dir_idx as int + 1);
                }
                dir_cum_end = dir_cum_end + dir_segments[dir_idx].frames;
            }
        }
        proof {
            lemma_dir_cursor(dirs, dir_idx as int, t);
        }
        if dir_idx < dir_segments.len() {
            mask = mask | dir_segments[dir_idx].mask;
        }
        let ghost dmask = mask;
        proof {
            assert(dmask == dir_mask_from(dirs, 0, t)) by {
                let m = dir_mask_from(dirs, 0, t);
                assert(0u16 | m == m) by (bit_vector);
            }
            assert(btns.take(0) =~= Seq::<(u16, Vec<(u64, u64)>)>::empty());
            assert(mask | 0u16 == mask) by (bit_vector);
        }
        let mut q: usize = 0;
        while q < button_intervals.len()
            invariant
                q <= btns.len(),
                btns == button_intervals@,
                forall|qq: int| 0 <= qq < btns.len() ==> intervals_ordered(#[trigger] btns[qq].1@),
                btn_cursors@.len() == btns.len(),
                forall|qq: int| 0 <= qq < btns.len() ==> #[trigger] btn_cursors@[qq] <= btns[qq].1@.len(),
                forall|qq: int, j: int|
                    0 <= qq < btns.len() && 0 <= j < btn_cursors@[qq] ==> (#[trigger] btns[qq].1@[j]).1 <= start,
                mask == dmask | buttons_at(btns.take(q as int), t),
                t == start as nat,
            decreases btns.len() - q,
        {
            let intervals = &button_intervals[q].1;
            let btn_mask = button_intervals[q].0;
            let mut cursor = btn_cursors[q];
            proof {
                assert(intervals@ == btns[q as int].1@);
                assert forall|j: int| 0 <= j < cursor implies (#[trigger] intervals@[j]).1 <= start by {
                    assert(intervals@[j] == btns[q as int].1@[j]);
                }
            }
            while cursor < intervals.len() && intervals[cursor].1 <= start
                invariant
                    cursor <= intervals@.len(),
                    forall|j: int| 0 <= j < cursor ==> (#[trigger] intervals@[j]).1 <= start,
                decreases intervals@.len() - cursor,
            {
                cursor = cursor + 1;
            }
            proof {
                assert(intervals@ == btns[q as int].1@);
                lemma_button_cursor(intervals@, cursor as int, t);
                assert(btns.take(q as int + 1).drop_last() =~= btns.take(q as int));
                assert(btns.take(q as int + 1).last() == btns[q as int]);
            }
            let ghost prev = mask;
            btn_cursors.set(q, cursor);
            if cursor < intervals.len() && intervals[cursor].0 <= start {
                mask = mask | btn_mask;
            }
            proof {
                let bt = buttons_at(btns.take(q as int), t);
                assert(prev == dmask | bt);
                if held_at(btns[q as int].1@, t) {
                    assert(mask == (dmask | bt) | btn_mask);
                    assert((dmask | bt) | btn_mask == dmask | (bt | btn_mask)) by (bit_vector);
                } else {
                    assert(mask == prev);
                    assert(dmask | bt == dmask | (bt | 0u16)) by (bit_vector);
                }
            }
            q = q + 1;
        }
        proof {
            assert(btns.take(q as int) =~= btns);
        }
        let width = end - start;
        let hold: u32 = if width > u32::MAX as u64 {
            u32::MAX
        } else {
            width as u32
        };
        segments.push(PadSegment { buttons: mask, hold_frames: hold });
        proof {
            assert(cuts@[k as int] < cuts@[k as int + 1]);
        }
        k = k + 1;
    }
    proof {
        assert(composed(target, dirs, btns, cuts@, segments@));
    }
    segments
}

// ---------------------------------------------------------------------
// Direction names
// ---------------------------------------------------------------------

/// Mask of a direction name: `NEUTRAL` is 0, a declared button its bit, an
/// undeclared name 0.
pub open spec fn dir_mask_spec(buttons: Seq<crate::config::ButtonDef>, name: Seq<char>) -> u16 {
    if name == "NEUTRAL"@ {
        0
    } else {
        match spec_bit(buttons, name) {
            Some(b) => 1u16 << b,
            None => 0,
        }
    }
}

/// Direction name -> bitmask.
pub fn dir_mask(alphabet: &ButtonAlphabet, name: &str) -> (m: u16)
    requires
        alphabet.bits_ok(),
    ensures
        m == dir_mask_spec(alphabet.buttons@, name@),
{
    let owned = name.to_owned();
    let neutral = String::from_str("NEUTRAL");
    if owned == neutral {
        0
    } else {
        match alphabet.bit(name) {
            Some(b) => {
                proof {
                    crate::config::lemma_spec_bit_in_range(alphabet.buttons@, name@);
                }
                1u16 << b
            },
            None => 0,
        }
    }
}

/// Whether `combined` holds two or more buttons of some resolvable exclusive group.
pub open spec fn violates_exclusive(
    buttons: Seq<crate::config::ButtonDef>,
    groups: Seq<Vec<String>>,
    combined: u16,
) -> bool
    decreases groups.len(),
{
    if groups.len() == 0 {
        false
    } else {
        violates_exclusive(buttons, groups.drop_last(), combined) || match spec_mask(
            buttons,
            groups.last()@,
        ) {
            Some(gm) => popcount(combined & gm) >= 2,
            None => false,
        }
    }
}

/// Direction bits that can join `mask` as a diagonal: declared group members
/// not already in `mask` whose addition breaks no exclusive group, in group order.
pub open spec fn diagonal_spec(
    buttons: Seq<crate::config::ButtonDef>,
    groups: Seq<Vec<String>>,
    names: Seq<String>,
    mask: u16,
) -> Seq<u16>
    decreases names.len(),
{
    if names.len() == 0 {
        Seq::empty()
    } else {
        let prev = diagonal_spec(buttons, groups, names.drop_last(), mask);
        match spec_bit(buttons, names.last()@) {
            None => prev,
            Some(bit) => {
                let candidate = 1u16 << bit;
                if candidate & mask != 0 || violates_exclusive(buttons, groups, mask | candidate) {
                    prev
                } else {
                    prev.push(candidate)
                }
            },
        }
    }
}

fn any_violation(alphabet: &ButtonAlphabet, combined: u16) -> (v: bool)
    requires
        alphabet.bits_ok(),
    ensures
        v == violates_exclusive(alphabet.buttons@, alphabet.exclusive_groups@, combined),
{
    let groups = &alphabet.exclusive_groups;
    let mut i: usize = 0;
    while i < groups.len()
        invariant
            i <= groups@.len(),
            alphabet.bits_ok(),
            groups@ == alphabet.exclusive_groups@,
            !violates_exclusive(alphabet.buttons@, groups@.take(i as int), combined),
        decreases groups@.len() - i,
    {
        proof {
            assert(groups@.take(i as int + 1).drop_last() =~= groups@.take(i as int));
        }
        match alphabet.mask(groups[i].as_slice()) {
            Some(gm) => {
                if count_ones(combined & gm) >= 2 {
                    proof {
                        lemma_violation_prefix(alphabet.buttons@, groups@, combined, i as int + 1);
                    }
                    return true;
                }
            },
            None => {},
        }
        i = i + 1;
    }
    proof {
        assert(groups@.take(i as int) =~= groups@);
    }
    false
}

pub proof fn lemma_violation_prefix(
    buttons: Seq<crate::config::ButtonDef>,
    groups: Seq<Vec<String>>,
    combined: u16,
    n: int,
)
    requires
        0 <= n <= groups.len(),
        violates_exclusive(buttons, groups.take(n), combined),
    ensures
        violates_exclusive(buttons, groups, combined),
    decreases groups.len() - n,
{
    if n < groups.len() {
        assert(groups.take(n + 1).drop_last() =~= groups.take(n));
        lemma_violation_prefix(buttons, groups, combined, n + 1);
    } else {
        assert(groups.take(n) =~= groups);
    }
}

/// Directions legal to combine with `mask` for a diagonal.
pub fn diagonal_candidates(alphabet: &ButtonAlphabet, mask: u16) -> (out: Vec<u16>)
    requires
        alphabet.bits_ok(),
    ensures
        out@ == diagonal_spec(alphabet.buttons@, alphabet.exclusive_groups@, alphabet.directions.group@, mask),
{
    let names = &alphabet.directions.group;
    let mut out: Vec<u16> = Vec::new();
    let mut i: usize = 0;
    while i < names.len()
        invariant
            i <= names@.len(),
            alphabet.bits_ok(),
            names@ == alphabet.directions.group@,
            out@ == diagonal_spec(alphabet.buttons@, alphabet.exclusive_groups@, names@.take(i as int), mask),
        decreases names@.len() - i,
    {
        proof {
            assert(names@.take(i as int + 1).drop_last() =~= names@.take(i as int));
        }
        match alphabet.bit(names[i].as_str()) {
            None => {},
            Some(bit) => {
                proof {
                    crate::config::lemma_spec_bit_in_range(alphabet.buttons@, names@[i as int]@);
                }
                let candidate = 1u16 << bit;
                if candidate & mask == 0 {
                    let combined = mask | candidate;
                    if !any_violation(alphabet, combined) {
                        out.push(candidate);
                    }
                }
            },
        }
        i = i + 1;
    }
    proof {
        assert(names@.take(i as int) =~= names@);
    }
    out
}

} // verus!
