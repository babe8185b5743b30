use input_synth::rng::{fanout_root, stream_seed, FanoutRng};
use rand_chacha::rand_core::{RngCore, SeedableRng};
use rand_chacha::ChaCha8Rng;

#[test]
fn stream_is_stable() {
    let mut rng = FanoutRng::stream(123, "m0");
    assert_eq!(rng.next_u64(), 0x2E83_5164_65C2_D6C9);
}

#[test]
fn streams_are_independent_per_label() {
    let root = fanout_root(1, "n");
    let mut a = ChaCha8Rng::from_seed(stream_seed(&root, "slot/0/wr/btn/0"));
    let mut b = ChaCha8Rng::from_seed(stream_seed(&root, "slot/0/wr/btn/1"));
    assert_ne!(a.next_u64(), b.next_u64());
}
