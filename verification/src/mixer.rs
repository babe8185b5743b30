//! The integer side of slot allocation: which generators take part and
//! which are reported degraded, laying out per-generator slot counts, and
//! the seeded permutation of the slot list.

use vstd::prelude::*;

use crate::provenance::{Degraded, GeneratorKind};

verus! {

/// A generator for one request: whether its weight is positive and, when it
/// cannot take slots, why.
#[derive(Clone, Debug, PartialEq)]
pub struct GeneratorOffer {
    pub kind: GeneratorKind,
    pub positive: bool,
    pub unavailable: Option<String>,
}

/// Indices (of the first `n` offers) of generators that take slots: positive
/// weight and available.
pub open spec fn available_indices(offers: Seq<GeneratorOffer>, n: int) -> Seq<usize>
    decreases n,
{
    if n <= 0 {
        Seq::empty()
    } else {
        available_indices(offers, n - 1) + if offers[n - 1].positive && offers[n - 1].unavailable is None {
            seq![(n - 1) as usize]
        } else {
            Seq::empty()
        }
    }
}

/// Generators (of the first `n`) with positive weight that cannot take
/// slots, with their reasons. A zero-weight generator is never reported.
pub open spec fn degraded_list(offers: Seq<GeneratorOffer>, n: int) -> Seq<Degraded>
    decreases n,
{
    if n <= 0 {
        Seq::empty()
    } else {
        degraded_list(offers, n - 1) + match offers[n - 1].unavailable {
            Some(reason) => if offers[n - 1].positive {
                seq![Degraded { generator: offers[n - 1].kind, reason }]
            } else {
                Seq::empty()
            },
            None => Seq::empty(),
        }
    }
}

/// Split the offers into the generators that take slots and the degraded
/// ones, both in offer order.
pub fn partition_generators(offers: &[GeneratorOffer]) -> (r: (Vec<usize>, Vec<Degraded>))
    ensures
        r.0@ == available_indices(offers@, offers@.len() as int),
        r.1@ == degraded_list(offers@, offers@.len() as int),
{
    let mut available: Vec<usize> = Vec::new();
    let mut degraded: Vec<Degraded> = Vec::new();
    let mut i: usize = 0;
    while i < offers.len()
        invariant
            i <= offers@.len(),
            available@ == available_indices(offers@, i as int),
            degraded@ == degraded_list(offers@, i as int),
        decreases offers@.len() - i,
    {
        let o = &offers[i];
        match &o.unavailable {
            Some(reason) => {
                if o.positive {
                    degraded.push(Degraded { generator: o.kind, reason: reason.clone() });
                }
            },
            None => {
                if o.positive {
                    available.push(i);
                }
            },
        }
        proof {
            assert(available@ =~= available_indices(offers@, i as int + 1));
            assert(degraded@ =~= degraded_list(offers@, i as int + 1));
        }
        i = i + 1;
    }
    (available, degraded)
}

/// Each generator repeated its count of times, in generator order (the
/// first `n` generators).
pub open spec fn laid_out(kinds: Seq<GeneratorKind>, counts: Seq<usize>, n: int) -> Seq<GeneratorKind>
    decreases n,
{
    if n <= 0 {
        Seq::empty()
    } else {
        laid_out(kinds, counts, n - 1) + Seq::new(counts[n - 1] as nat, |_k: int| kinds[n - 1])
    }
}

pub open spec fn count_sum(counts: Seq<usize>, n: int) -> int
    decreases n,
{
    if n <= 0 {
        0
    } else {
        count_sum(counts, n - 1) + counts[n - 1]
    }
}

/// The slot list before permutation: each generator's slots together, in
/// generator order.
pub fn lay_out_slots(kinds: &[GeneratorKind], counts: &[usize]) -> (slots: Vec<GeneratorKind>)
    requires
        kinds@.len() == counts@.len(),
        count_sum(counts@, counts@.len() as int) <= usize::MAX,
    ensures
        slots@ == laid_out(kinds@, counts@, kinds@.len() as int),
{
    let mut slots: Vec<GeneratorKind> = Vec::new();
    let mut g: usize = 0;
    while g < kinds.len()
        invariant
            g <= kinds@.len(),
            kinds@.len() == counts@.len(),
            slots@ == laid_out(kinds@, counts@, g as int),
            slots@.len() == count_sum(counts@, g as int),
            count_sum(counts@, counts@.len() as int) <= usize::MAX,
        decreases kinds@.len() - g,
    {
        proof {
            lemma_count_sum_mono(counts@, g as int + 1, counts@.len() as int);
        }
        let ghost before = slots@;
        let mut c: usize = 0;
        while c < counts[g]
            invariant
                g < kinds@.len(),
                kinds@.len() == counts@.len(),
                c <= counts@[g as int],
                slots@ == before + Seq::new(c as nat, |_k: int| kinds@[g as int]),
            decreases counts@[g as int] - c,
        {
            slots.push(kinds[g]);
            proof {
                assert(slots@ =~= before + Seq::new(c as nat + 1, |_k: int| kinds@[g as int]));
            }
            c = c + 1;
        }
        g = g + 1;
    }
    slots
}

proof fn lemma_count_sum_mono(counts: Seq<usize>, a: int, b: int)
    requires
        0 <= a <= b <= counts.len(),
    ensures
        count_sum(counts, a) <= count_sum(counts, b),
    decreases b - a,
{
    if a < b {
        lemma_count_sum_mono(counts, a, b - 1);
    }
}

/// Swap position `i` with `picks[..]`'s partner for `i` from the last index
/// down to 1: the `t`-th swap (from the end) exchanges `len - 1 - t` and
/// `picks[t]`. The first `m` swaps.
pub open spec fn swapped(s: Seq<GeneratorKind>, picks: Seq<usize>, m: int) -> Seq<GeneratorKind>
    decreases m,
{
    if m <= 0 {
        s
    } else {
        let prev = swapped(s, picks, m - 1);
        let i = s.len() - m;
        let j = picks[m - 1] as int;
        prev.update(i, prev[j]).update(j, prev[i])
    }
}

/// Each pick names a partner not after its position.
pub open spec fn picks_ok(len: nat, picks: Seq<usize>) -> bool {
    &&& picks.len() + 1 == len || (len == 0 && picks.len() == 0)
    &&& forall|t: int| 0 <= t < picks.len() ==> #[trigger] picks[t] <= len - 1 - t
}

/// Apply the seeded Fisher–Yates swaps to the slot list.
pub fn permute_slots(slots: &mut Vec<GeneratorKind>, picks: &[usize])
    requires
        picks_ok(old(slots)@.len(), picks@),
    ensures
        final(slots)@ == swapped(old(slots)@, picks@, picks@.len() as int),
        final(slots)@.to_multiset() == old(slots)@.to_multiset(),
{
    let ghost start = slots@;
    let mut t: usize = 0;
    while t < picks.len()
        invariant
            t <= picks@.len(),
            picks_ok(start.len(), picks@),
            slots@ == swapped(start, picks@, t as int),
            slots@.len() == start.len(),
            slots@.to_multiset() == start.to_multiset(),
        decreases picks@.len() - t,
    {
        let i = slots.len() - 1 - t;
        let j = picks[t];
        proof {
            assert(picks@[t as int] <= start.len() - 1 - t);
        }
        let a = slots[i];
        let b = slots[j];
        let ghost prev = slots@;
        slots.set(i, b);
        slots.set(j, a);
        proof {
            lemma_swap_multiset(prev, i as int, j as int);
            assert(slots@ =~= prev.update(i as int, prev[j as int]).update(j as int, prev[i as int]));
        }
        t = t + 1;
    }
}

proof fn lemma_swap_multiset(s: Seq<GeneratorKind>, i: int, j: int)
    requires
        0 <= i < s.len(),
        0 <= j < s.len(),
    ensures
        s.update(i, s[j]).update(j, s[i]).to_multiset() == s.to_multiset(),
{
    let s1 = s.update(i, s[j]);
    vstd::seq_lib::to_multiset_update(s, i, s[j]);
    vstd::seq_lib::to_multiset_update(s1, j, s[i]);
    if i != j {
        assert(s1[j] == s[j]);
        assert(s.to_multiset().count(s[i]) > 0) by {
            s.to_multiset_ensures();
        }
        assert(s1.update(j, s[i]).to_multiset() =~= s.to_multiset());
    } else {
        assert(s1.update(j, s[i]) =~= s);
    }
}

} // verus!
