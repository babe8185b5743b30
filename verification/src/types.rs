//! Domain burst types: run-length pad segments, bursts, and mining tokens.

use vstd::prelude::*;

verus! {

/// Version of the burst wire format.
pub const BURST_FORMAT_VERSION: u32 = 1;

/// One run-length unit of a pad burst: bit `i` of `buttons` set means the
/// button with bit `i` is held for every frame of the segment.
#[derive(Clone, Copy, Debug, PartialEq, Eq, Hash)]
pub struct PadSegment {
    pub buttons: u16,
    pub hold_frames: u32,
}

/// A pad burst: the segment sequence, played back in order.
#[derive(Clone, Debug, PartialEq, Eq, Default)]
pub struct PadBurst {
    pub segments: Vec<PadSegment>,
}

/// A burst proposal; the pad model is the only model so far.
#[derive(Clone, Debug, PartialEq, Eq)]
#[non_exhaustive]
pub enum Burst {
    Pad(PadBurst),
}

/// The segment sequence of a pad burst.
pub open spec fn pad_segments(b: Burst) -> Seq<PadSegment> {
    match b {
        Burst::Pad(p) => p.segments@,
    }
}

/// Canonical mining / dedup token: a mask plus a log2 duration bucket.
#[derive(Clone, Copy, Debug, PartialEq, Eq, Hash)]
pub struct Token {
    pub mask: u16,
    pub dur_bucket: u8,
}

/// Why a wire burst was refused (values are rejected, never truncated).
#[derive(Clone, Debug, PartialEq, Eq)]
pub enum ConvertError {
    MissingBody,
    EventModelUnsupported,
    ButtonsOutOfRange { index: usize, mask: u32 },
    FormatVersion { got: u32, expected: u32 },
}

/// The body of a wire burst, as plain values.
#[derive(Clone, Debug, PartialEq, Eq)]
pub enum WireBody {
    Missing,
    Event,
    /// `(buttons, hold_frames)` per segment, plus the alphabet name.
    Pad { segments: Vec<(u32, u32)>, button_alphabet: String },
}

/// Index of the first segment whose mask does not fit 16 bits.
pub open spec fn first_wide_mask(segs: Seq<(u32, u32)>) -> Option<int>
    decreases segs.len(),
{
    if segs.len() == 0 {
        None
    } else if segs[0].0 > 0xffff {
        Some(0)
    } else {
        match first_wide_mask(segs.drop_first()) {
            Some(i) => Some(i + 1),
            None => None,
        }
    }
}

pub proof fn lemma_first_wide_mask(segs: Seq<(u32, u32)>)
    ensures
        first_wide_mask(segs) matches Some(i) ==> 0 <= i < segs.len() && segs[i].0 > 0xffff && forall|k: int|
            0 <= k < i ==> (#[trigger] segs[k]).0 <= 0xffff,
        first_wide_mask(segs) is None ==> forall|k: int| 0 <= k < segs.len() ==> (#[trigger] segs[k]).0 <= 0xffff,
    decreases segs.len(),
{
    if segs.len() > 0 {
        lemma_first_wide_mask(segs.drop_first());
        assert forall|k: int| 1 <= k < segs.len() implies #[trigger] segs[k] == segs.drop_first()[k - 1] by {}
    }
}

/// Domain burst of a wire burst plus its declared alphabet name. A format
/// version of 0 (unset) or the current version is accepted; any other is
/// refused, as are a missing body, an event body, and masks wider than 16 bits.
pub fn burst_from_wire(format_version: u32, body: &WireBody) -> (r: Result<(Burst, String), ConvertError>)
    ensures
        format_version != 0 && format_version != BURST_FORMAT_VERSION ==> r == Err::<(Burst, String), ConvertError>(
            ConvertError::FormatVersion { got: format_version, expected: BURST_FORMAT_VERSION },
        ),
        format_version == 0 || format_version == BURST_FORMAT_VERSION ==> match body {
            WireBody::Missing => r == Err::<(Burst, String), ConvertError>(ConvertError::MissingBody),
            WireBody::Event => r == Err::<(Burst, String), ConvertError>(ConvertError::EventModelUnsupported),
            WireBody::Pad { segments, button_alphabet } => match first_wide_mask(segments@) {
                Some(i) => r == Err::<(Burst, String), ConvertError>(
                    ConvertError::ButtonsOutOfRange { index: i as usize, mask: segments@[i].0 },
                ),
                None => r matches Ok((b, name)) && name@ == button_alphabet@ && pad_segments(b).len()
                    == segments@.len() && forall|k: int|
                    0 <= k < segments@.len() ==> (#[trigger] pad_segments(b)[k]).buttons == segments@[k].0
                        && pad_segments(b)[k].hold_frames == segments@[k].1,
            },
        },
{
    if format_version != 0 && format_version != BURST_FORMAT_VERSION {
        return Err(ConvertError::FormatVersion { got: format_version, expected: BURST_FORMAT_VERSION });
    }
    match body {
        WireBody::Missing => Err(ConvertError::MissingBody),
        WireBody::Event => Err(ConvertError::EventModelUnsupported),
        WireBody::Pad { segments, button_alphabet } => {
            proof {
                lemma_first_wide_mask(segments@);
            }
            let mut out: Vec<PadSegment> = Vec::with_capacity(segments.len());
            let mut index: usize = 0;
            while index < segments.len()
                invariant
                    index <= segments@.len(),
                    format_version == 0 || format_version == BURST_FORMAT_VERSION,
                    *body == (WireBody::Pad { segments: *segments, button_alphabet: *button_alphabet }),
                    out@.len() == index,
                    forall|k: int| 0 <= k < index ==> (#[trigger] segments@[k]).0 <= 0xffff,
                    forall|k: int|
                        0 <= k < index ==> (#[trigger] out@[k]).buttons == segments@[k].0 && out@[k].hold_frames
                            == segments@[k].1,
                    first_wide_mask(segments@) matches Some(i) ==> index <= i && 0 <= i < segments@.len()
                        && segments@[i].0 > 0xffff && forall|k: int| 0 <= k < i ==> (#[trigger] segments@[k]).0 <= 0xffff,
                    first_wide_mask(segments@) is None ==> forall|k: int|
                        0 <= k < segments@.len() ==> (#[trigger] segments@[k]).0 <= 0xffff,
                decreases segments@.len() - index,
            {
                let (buttons, hold_frames) = segments[index];
                if buttons > 0xffff {
                    proof {
                        assert(segments@[index as int].0 == buttons);
                        if let Some(i) = first_wide_mask(segments@) {
                            if i > index {
                                assert(segments@[index as int].0 <= 0xffff);
                            }
                        }
                        assert(first_wide_mask(segments@) == Some(index as int));
                    }
                    return Err(ConvertError::ButtonsOutOfRange { index, mask: buttons });
                }
                out.push(PadSegment { buttons: buttons as u16, hold_frames });
                index = index + 1;
            }
            Ok((Burst::Pad(PadBurst { segments: out }), button_alphabet.clone()))
        },
    }
}

/// Sum of the hold lengths of a segment sequence.
pub open spec fn total_of(segs: Seq<PadSegment>) -> nat
    decreases segs.len(),
{
    if segs.len() == 0 {
        0
    } else {
        total_of(segs.drop_last()) + segs.last().hold_frames as nat
    }
}

/// Total length of a segment list in frames.
pub fn segments_total_frames(segments: &[PadSegment]) -> (total: u64)
    requires
        total_of(segments@) <= u64::MAX,
    ensures
        total == total_of(segments@),
{
    let mut acc: u64 = 0;
    let mut i: usize = 0;
    while i < segments.len()
        invariant
            i <= segments@.len(),
            acc == total_of(segments@.take(i as int)),
            total_of(segments@) <= u64::MAX,
        decreases segments@.len() - i,
    {
        proof {
            lemma_total_prefix_mono(segments@, i as int + 1);
            assert(segments@.take(i as int + 1).drop_last() =~= segments@.take(i as int));
        }
        acc = acc + segments[i].hold_frames as u64;
        i = i + 1;
    }
    proof {
        assert(segments@.take(i as int) =~= segments@);
    }
    acc
}

/// Whether the total length of a segment list fits 64 bits.
pub fn total_fits(segments: &[PadSegment]) -> (r: bool)
    ensures
        r == (total_of(segments@) <= u64::MAX),
{
    let mut acc: u64 = 0;
    let mut i: usize = 0;
    while i < segments.len()
        invariant
            i <= segments@.len(),
            acc == total_of(segments@.take(i as int)),
        decreases segments@.len() - i,
    {
        proof {
            assert(segments@.take(i as int + 1).drop_last() =~= segments@.take(i as int));
        }
        let h = segments[i].hold_frames as u64;
        if acc > u64::MAX - h {
            proof {
                lemma_total_prefix_mono(segments@, i as int + 1);
            }
            return false;
        }
        acc = acc + h;
        i = i + 1;
    }
    proof {
        assert(segments@.take(i as int) =~= segments@);
    }
    true
}

impl PadBurst {
    /// Total length of the burst in frames.
    pub fn total_frames(&self) -> (total: u64)
        requires
            total_of(self.segments@) <= u64::MAX,
        ensures
            total == total_of(self.segments@),
    {
        segments_total_frames(self.segments.as_slice())
    }
}

/// The total of a prefix never exceeds the total of the whole sequence.
pub proof fn lemma_total_prefix_mono(segs: Seq<PadSegment>, n: int)
    requires
        0 <= n <= segs.len(),
    ensures
        total_of(segs.take(n)) <= total_of(segs),
    decreases segs.len(),
{
    if n < segs.len() {
        assert(segs.drop_last().take(n) =~= segs.take(n));
        lemma_total_prefix_mono(segs.drop_last(), n);
    } else {
        assert(segs.take(n) =~= segs);
    }
}

/// Totals add over concatenation.
pub proof fn lemma_total_concat(a: Seq<PadSegment>, b: Seq<PadSegment>)
    ensures
        total_of(a + b) == total_of(a) + total_of(b),
    decreases b.len(),
{
    if b.len() == 0 {
        assert(a + b =~= a);
    } else {
        lemma_total_concat(a, b.drop_last());
        assert((a + b).drop_last() =~= a + b.drop_last());
    }
}

/// The total splits off the first segment.
pub proof fn lemma_total_first(x: Seq<PadSegment>)
    requires
        x.len() > 0,
    ensures
        total_of(x) == x[0].hold_frames + total_of(x.drop_first()),
{
    lemma_total_concat(seq![x[0]], x.drop_first());
    assert(seq![x[0]] + x.drop_first() =~= x);
    assert(seq![x[0]].drop_last() =~= Seq::<PadSegment>::empty());
    assert(total_of(Seq::<PadSegment>::empty()) == 0);
    assert(total_of(seq![x[0]]) == x[0].hold_frames);
}

/// Replacing the last segment changes the total by the hold difference.
pub proof fn lemma_total_update_last(x: Seq<PadSegment>, s: PadSegment)
    requires
        x.len() > 0,
    ensures
        total_of(x.update(x.len() - 1, s)) == total_of(x.drop_last()) + s.hold_frames,
        total_of(x) == total_of(x.drop_last()) + x.last().hold_frames,
{
    assert(x.update(x.len() - 1, s).drop_last() =~= x.drop_last());
}

} // verus!
