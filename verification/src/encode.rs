//! Canonical byte form of a burst and its content hash, plus lowercase hex.
//!
//! The byte form is postcard's encoding of the versioned wire value
//! `(BURST_FORMAT_VERSION, Burst)`: the version, the variant index, the
//! segment count, then each segment's mask and hold, every integer as an
//! unsigned LEB128 varint.

use vstd::prelude::*;

use crate::digest::{blake3_hash, hash32};
use crate::types::{first_wide_mask, lemma_first_wide_mask, pad_segments, Burst, PadSegment, WireBody, BURST_FORMAT_VERSION};

verus! {

/// Unsigned LEB128: seven bits per byte, low group first, high bit set on
/// every byte but the last.
pub open spec fn varint(n: nat) -> Seq<u8>
    decreases n,
{
    if n < 128 {
        seq![n as u8]
    } else {
        seq![((n % 128) + 128) as u8] + varint(n / 128)
    }
}

/// Each pair's two integers as varints, in order.
pub open spec fn pairs_wire(pairs: Seq<(u16, u32)>) -> Seq<u8>
    decreases pairs.len(),
{
    if pairs.len() == 0 {
        Seq::empty()
    } else {
        pairs_wire(pairs.drop_last()) + varint(pairs.last().0 as nat) + varint(pairs.last().1 as nat)
    }
}

/// A burst's segments as `(buttons, hold_frames)` pairs.
pub open spec fn segment_pairs(segs: Seq<PadSegment>) -> Seq<(u16, u32)> {
    segs.map_values(|s: PadSegment| (s.buttons, s.hold_frames))
}

/// Canonical bytes of a pad burst (variant index 0).
pub open spec fn burst_wire(segs: Seq<PadSegment>) -> Seq<u8> {
    varint(BURST_FORMAT_VERSION as nat) + varint(0) + varint(segs.len()) + pairs_wire(segment_pairs(segs))
}

/// Calls `postcard::to_allocvec` on `(version, variant, pairs)`. Claimed, as
/// postcard's wire format documents and its source shows: every `u16`,
/// `u32` and length is an unsigned LEB128 varint, a tuple is its fields in
/// order, a `Vec` is its length followed by its items, and serialising
/// into a growable vector cannot fail.
#[verifier::external_body]
fn postcard_bytes(version: u32, variant: u32, pairs: &Vec<(u16, u32)>) -> (r: Vec<u8>)
    ensures
        r@ == varint(version as nat) + varint(variant as nat) + varint(pairs@.len()) + pairs_wire(pairs@),
{
    postcard::to_allocvec(&(version, variant, pairs)).expect("serialising into a Vec cannot fail")
}

/// Canonical bytes of a burst.
pub fn burst_wire_bytes(b: &Burst) -> (bytes: Vec<u8>)
    ensures
        bytes@ == burst_wire(pad_segments(*b)),
{
    let segments = match b {
        Burst::Pad(pad) => &pad.segments,
    };
    let mut pairs: Vec<(u16, u32)> = Vec::new();
    let mut i: usize = 0;
    while i < segments.len()
        invariant
            i <= segments@.len(),
            pairs@ == segment_pairs(segments@.take(i as int)),
        decreases segments@.len() - i,
    {
        pairs.push((segments[i].buttons, segments[i].hold_frames));
        proof {
            assert(pairs@ =~= segment_pairs(segments@.take(i as int + 1)));
        }
        i = i + 1;
    }
    proof {
        assert(segments@.take(i as int) =~= segments@);
    }
    postcard_bytes(BURST_FORMAT_VERSION, 0, &pairs)
}

/// Stable content hash of a burst: BLAKE3 over its canonical bytes.
pub fn burst_hash(b: &Burst) -> (h: [u8; 32])
    ensures
        h@ == blake3_hash(burst_wire(pad_segments(*b))),
{
    let bytes = burst_wire_bytes(b);
    hash32(bytes.as_slice())
}

/// Wire form of pad segments: `(buttons, hold_frames)` pairs.
pub open spec fn wire_segments(segs: Seq<PadSegment>) -> Seq<(u32, u32)> {
    segs.map_values(|s: PadSegment| (s.buttons as u32, s.hold_frames))
}

/// The wire form of a burst: the current format version, the burst's content
/// hash as its id, and the body with the alphabet name.
pub fn burst_to_wire(b: &Burst, button_alphabet: &str) -> (r: (u32, [u8; 32], WireBody))
    ensures
        r.0 == BURST_FORMAT_VERSION,
        r.1@ == blake3_hash(burst_wire(pad_segments(*b))),
        r.2 matches WireBody::Pad { segments, button_alphabet: name } && segments@ == wire_segments(
            pad_segments(*b),
        ) && name@ == button_alphabet@,
{
    let id = burst_hash(b);
    let segments = match b {
        Burst::Pad(pad) => &pad.segments,
    };
    let mut out: Vec<(u32, u32)> = Vec::new();
    let mut i: usize = 0;
    while i < segments.len()
        invariant
            i <= segments@.len(),
            segments@ == pad_segments(*b),
            out@ == wire_segments(segments@.take(i as int)),
        decreases segments@.len() - i,
    {
        out.push((segments[i].buttons as u32, segments[i].hold_frames));
        proof {
            assert(segments@.take(i as int + 1) =~= segments@.take(i as int).push(segments@[i as int]));
            assert(out@ =~= wire_segments(segments@.take(i as int + 1)));
        }
        i = i + 1;
    }
    proof {
        assert(segments@.take(i as int) =~= segments@);
    }
    (BURST_FORMAT_VERSION, id, WireBody::Pad { segments: out, button_alphabet: button_alphabet.to_owned() })
}

/// Reading back the wire form of any pad segments gives the same segments:
/// every mask fits 16 bits, and each pair converts back to its segment.
pub proof fn law_wire_round_trip(segs: Seq<PadSegment>)
    ensures
        first_wide_mask(wire_segments(segs)) is None,
        wire_segments(segs).len() == segs.len(),
        forall|k: int|
            0 <= k < segs.len() ==> (#[trigger] wire_segments(segs)[k]).0 == segs[k].buttons
                && wire_segments(segs)[k].1 == segs[k].hold_frames,
{
    let w = wire_segments(segs);
    lemma_first_wide_mask(w);
    if first_wide_mask(w) is Some {
        let i = first_wide_mask(w)->Some_0;
        assert(w[i].0 == segs[i].buttons as u32);
    }
}

/// Lowercase hex digit of a nibble.
pub open spec fn hex_char(n: u8) -> char {
    if n < 10 {
        (48 + n) as char
    } else {
        (87 + n) as char
    }
}

/// Lowercase hex of a byte string, two digits per byte.
pub open spec fn hex_chars(bytes: Seq<u8>) -> Seq<char>
    decreases bytes.len(),
{
    if bytes.len() == 0 {
        Seq::empty()
    } else {
        hex_chars(bytes.drop_last()) + seq![hex_char(bytes.last() / 16), hex_char(bytes.last() % 16)]
    }
}

fn hex_digit(n: u8) -> (s: &'static str)
    requires
        n < 16,
    ensures
        s@ == seq![hex_char(n)],
{
    if n == 0 {
        proof { reveal_strlit("0"); }
        "0"
    } else if n == 1 {
        proof { reveal_strlit("1"); }
        "1"
    } else if n == 2 {
        proof { reveal_strlit("2"); }
        "2"
    } else if n == 3 {
        proof { reveal_strlit("3"); }
        "3"
    } else if n == 4 {
        proof { reveal_strlit("4"); }
        "4"
    } else if n == 5 {
        proof { reveal_strlit("5"); }
        "5"
    } else if n == 6 {
        proof { reveal_strlit("6"); }
        "6"
    } else if n == 7 {
        proof { reveal_strlit("7"); }
        "7"
    } else if n == 8 {
        proof { reveal_strlit("8"); }
        "8"
    } else if n == 9 {
        proof { reveal_strlit("9"); }
        "9"
    } else if n == 10 {
        proof { reveal_strlit("a"); }
        "a"
    } else if n == 11 {
        proof { reveal_strlit("b"); }
        "b"
    } else if n == 12 {
        proof { reveal_strlit("c"); }
        "c"
    } else if n == 13 {
        proof { reveal_strlit("d"); }
        "d"
    } else if n == 14 {
        proof { reveal_strlit("e"); }
        "e"
    } else {
        proof { reveal_strlit("f"); }
        "f"
    }
}

/// A lowercase hex digit.
pub open spec fn is_lower_hex(c: char) -> bool {
    ('0' <= c && c <= '9') || ('a' <= c && c <= 'f')
}

/// Hex text has two lowercase hex digits per byte.
pub proof fn lemma_hex_chars_shape(bytes: Seq<u8>)
    ensures
        hex_chars(bytes).len() == 2 * bytes.len(),
        forall|i: int| 0 <= i < hex_chars(bytes).len() ==> is_lower_hex(#[trigger] hex_chars(bytes)[i]),
    decreases bytes.len(),
{
    if bytes.len() > 0 {
        lemma_hex_chars_shape(bytes.drop_last());
        let b = bytes.last();
        assert(is_lower_hex(hex_char(b / 16)) && is_lower_hex(hex_char(b % 16)));
        let p = hex_chars(bytes.drop_last());
        assert forall|i: int| 0 <= i < hex_chars(bytes).len() implies is_lower_hex(#[trigger] hex_chars(bytes)[i]) by {
            if i < p.len() {
                assert(hex_chars(bytes)[i] == p[i]);
            }
        }
    }
}

/// Lowercase hex encoding of `bytes`.
pub fn hex_encode(bytes: &[u8]) -> (s: String)
    ensures
        s@ == hex_chars(bytes@),
{
    let mut out = String::new();
    let mut i: usize = 0;
    while i < bytes.len()
        invariant
            i <= bytes@.len(),
            out@ == hex_chars(bytes@.take(i as int)),
        decreases bytes@.len() - i,
    {
        proof {
            assert(bytes@.take(i as int + 1).drop_last() =~= bytes@.take(i as int));
        }
        let b = bytes[i];
        out.append(hex_digit(b / 16));
        out.append(hex_digit(b % 16));
        proof {
            assert(out@ =~= hex_chars(bytes@.take(i as int + 1)));
        }
        i = i + 1;
    }
    proof {
        assert(bytes@.take(i as int) =~= bytes@);
    }
    out
}

} // verus!
