//! Bit-set facts over 16-bit segment masks.

use vstd::prelude::*;

verus! {

/// Number of set bits.
pub open spec fn popcount(x: u16) -> nat
    decreases x,
{
    if x == 0 {
        0
    } else {
        (x % 2) as nat + popcount(x / 2)
    }
}

/// `x` holds no bit that `y` lacks.
pub open spec fn subset(x: u16, y: u16) -> bool {
    x & y == x
}

pub proof fn lemma_subset_refl(x: u16)
    ensures
        subset(x, x),
{
    assert(x & x == x) by (bit_vector);
}

pub proof fn lemma_subset_trans(x: u16, y: u16, z: u16)
    requires
        subset(x, y),
        subset(y, z),
    ensures
        subset(x, z),
{
    assert(x & y == x && y & z == y ==> x & z == x) by (bit_vector);
}

pub proof fn lemma_subset_and(x: u16, y: u16, g: u16)
    requires
        subset(x, y),
    ensures
        subset(x & g, y & g),
{
    assert(x & y == x ==> (x & g) & (y & g) == x & g) by (bit_vector);
}

pub proof fn lemma_clear_is_subset(x: u16, c: u16)
    ensures
        subset(x & !c, x),
        (x & !c) & c == 0,
{
    assert((x & !c) & x == x & !c) by (bit_vector);
    assert((x & !c) & c == 0) by (bit_vector);
}

/// A subset never has more set bits.
pub proof fn lemma_popcount_subset(x: u16, y: u16)
    requires
        subset(x, y),
    ensures
        popcount(x) <= popcount(y),
    decreases y,
{
    if y == 0 {
        assert(x & 0 == 0) by (bit_vector);
    } else if x == 0 {
    } else {
        assert(x & y == x ==> (x / 2) & (y / 2) == x / 2) by (bit_vector);
        assert(x & y == x ==> x % 2 <= y % 2) by (bit_vector);
        assert(y / 2 < y) by (bit_vector)
            requires
                y != 0,
        ;
        lemma_popcount_subset(x / 2, y / 2);
    }
}

/// Never more set bits than the value itself.
pub proof fn lemma_popcount_le(x: u16)
    ensures
        popcount(x) <= x,
    decreases x,
{
    if x != 0 {
        assert(x != 0 ==> x / 2 < x) by (bit_vector);
        lemma_popcount_le(x / 2);
        assert(x % 2 + x / 2 <= x) by (bit_vector);
    }
}

/// Count of set bits (same value as `u16::count_ones`).
pub fn count_ones(x: u16) -> (n: u32)
    ensures
        n == popcount(x),
{
    let mut y: u16 = x;
    let mut n: u32 = 0;
    proof {
        lemma_popcount_le(x);
    }
    while y != 0
        invariant
            n + popcount(y) == popcount(x),
            popcount(x) <= 0xffff,
        decreases y,
    {
        assert(y != 0 ==> y / 2 < y) by (bit_vector);
        assert(y & 1 == y % 2) by (bit_vector);
        assert(y >> 1 == y / 2) by (bit_vector);
        n = n + (y & 1) as u32;
        y = y >> 1;
    }
    n
}

} // verus!
