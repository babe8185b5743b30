//! Seeded randomness plumbing: the 32-byte request root, per-label stream
//! keys, and the small label-keyed xorshift generator.

use vstd::prelude::*;
use vstd::bytes::{spec_u64_to_le_bytes, u64_to_le_bytes};
use vstd::string::StringSliceAdditionalSpecFns;

use crate::digest::{blake3_derive_key, blake3_keyed_hash, derive_key32, keyed_hash32};

verus! {

/// Derive-key context of the request root (part of the wire contract).
pub const ROOT_CONTEXT: &'static str = "determinism.inputsynth.v1 2026 proposal root";

/// 32-byte root of a request: BLAKE3 key derivation over the little-endian
/// seed followed by the node id's bytes.
pub fn fanout_root(seed: u64, node_id: &str) -> (root: [u8; 32])
    ensures
        root@ == blake3_derive_key(ROOT_CONTEXT@, spec_u64_to_le_bytes(seed) + node_id.spec_bytes()),
{
    let mut material = u64_to_le_bytes(seed);
    let node = node_id.as_bytes();
    let mut i: usize = 0;
    while i < node.len()
        invariant
            i <= node@.len(),
            node@ == node_id.spec_bytes(),
            material@ == spec_u64_to_le_bytes(seed) + node@.take(i as int),
        decreases node@.len() - i,
    {
        proof {
            assert(node@.take(i as int + 1) =~= node@.take(i as int).push(node@[i as int]));
        }
        material.push(node[i]);
        i = i + 1;
    }
    proof {
        assert(node@.take(i as int) =~= node@);
    }
    derive_key32(ROOT_CONTEXT, material.as_slice())
}

/// Seed of the random stream for domain label `label` under `root`: the
/// BLAKE3 keyed hash of the label bytes with the root as key. The stream
/// itself is the ChaCha8 generator seeded with these bytes.
pub fn stream_seed(root: &[u8; 32], label: &str) -> (seed: [u8; 32])
    ensures
        seed@ == blake3_keyed_hash(root@, label.spec_bytes()),
{
    keyed_hash32(root, label.as_bytes())
}

/// `x` rotated left by five bits.
pub open spec fn rotl5(x: u64) -> u64 {
    (x << 5u64) | (x >> 59u64)
}

/// Label bytes folded into a state: rotate, then xor the next byte.
pub open spec fn absorb(state: u64, bytes: Seq<u8>) -> u64
    decreases bytes.len(),
{
    if bytes.len() == 0 {
        state
    } else {
        rotl5(absorb(state, bytes.drop_last())) ^ (bytes.last() as u64)
    }
}

/// One xorshift step.
pub open spec fn xorshift(s: u64) -> u64 {
    let a = s ^ (s << 7u64);
    a ^ (a >> 9u64)
}

/// Small label-keyed generator.
#[derive(Clone, Debug)]
pub struct FanoutRng {
    state: u64,
}

impl View for FanoutRng {
    type V = u64;

    closed spec fn view(&self) -> u64 {
        self.state
    }
}

impl FanoutRng {
    /// Generator for `label` under `root`.
    pub fn stream(root: u64, label: &str) -> (r: Self)
        ensures
            r@ == absorb(root ^ 0x9E37_79B9_7F4A_7C15u64, label.spec_bytes()),
    {
        let bytes = label.as_bytes();
        let mut state: u64 = root ^ 0x9E37_79B9_7F4A_7C15u64;
        let mut i: usize = 0;
        while i < bytes.len()
            invariant
                i <= bytes@.len(),
                bytes@ == label.spec_bytes(),
                state == absorb(root ^ 0x9E37_79B9_7F4A_7C15u64, bytes@.take(i as int)),
            decreases bytes@.len() - i,
        {
            proof {
                assert(bytes@.take(i as int + 1).drop_last() =~= bytes@.take(i as int));
            }
            state = ((state << 5u64) | (state >> 59u64)) ^ (bytes[i] as u64);
            i = i + 1;
        }
        proof {
            assert(bytes@.take(i as int) =~= bytes@);
        }
        FanoutRng { state }
    }

    /// Advance the state one xorshift step and return it.
    pub fn next_u64(&mut self) -> (x: u64)
        ensures
            x == xorshift(old(self)@),
            final(self)@ == x,
    {
        self.state = self.state ^ (self.state << 7u64);
        self.state = self.state ^ (self.state >> 9u64);
        self.state
    }
}

} // verus!
