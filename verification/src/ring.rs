//! Index arithmetic on circular arrays.

use vstd::prelude::*;

verus! {

/// `i` reduced into `0..m`, for `i` below `2 * m`.
pub open spec fn wrap(i: int, m: int) -> int {
    if i >= m {
        i - m
    } else {
        i
    }
}

/// How many steps forward slot `i` lies from slot `from` in a ring of `m`.
pub open spec fn steps_from(from: int, i: int, m: int) -> int {
    if i >= from {
        i - from
    } else {
        i - from + m
    }
}

/// `mask` is one less than a power of two: its set bits are its lowest bits.
pub open spec fn is_low_mask(mask: u64) -> bool {
    mask < 0x8000_0000_0000_0000 && mask & ((mask + 1) as u64) == 0
}

/// A counter `k` steps on, by wrapping addition.
pub open spec fn advanced(p: u64, k: int) -> u64 {
    p.wrapping_add(k as u64)
}

/// The slot of a counter under a mask is below the ring's size.
pub proof fn lemma_slot_in_ring(p: u64, mask: u64)
    ensures
        p & mask <= mask,
{
    assert(p & mask <= mask) by (bit_vector);
}

/// Stepping a counter forward steps its slot forward round the ring, whether or
/// not the counter wraps.
pub proof fn lemma_slot_advances(p: u64, k: u64, mask: u64)
    requires
        is_low_mask(mask),
        k <= mask,
    ensures
        (advanced(p, k as int) & mask) as int == wrap((p & mask) + k, mask + 1),
{
    let q = p.wrapping_add(k);
    assert(mask < 0x8000_0000_0000_0000 && mask & ((mask + 1) as u64) == 0 && k <= mask && (p
        <= 0xffff_ffff_ffff_ffff - k ==> q == p + k) && (p > 0xffff_ffff_ffff_ffff - k ==> q == p
        - (0xffff_ffff_ffff_ffff - k) - 1) ==> (q & mask) == (if (p & mask) + k > mask {
        ((p & mask) + k - mask - 1) as u64
    } else {
        ((p & mask) + k) as u64
    })) by (bit_vector);
}

/// A counter that is a whole ring further on has the same slot.
pub proof fn lemma_slot_after_lap(p: u64, mask: u64)
    requires
        is_low_mask(mask),
    ensures
        advanced(p, mask + 1) & mask == p & mask,
{
    let k = (mask + 1) as u64;
    let q = p.wrapping_add(k);
    assert(mask < 0x8000_0000_0000_0000 && mask & k == 0 && k == mask + 1 && (p
        <= 0xffff_ffff_ffff_ffff - k ==> q == p + k) && (p > 0xffff_ffff_ffff_ffff - k ==> q == p
        - (0xffff_ffff_ffff_ffff - k) - 1) ==> (q & mask) == (p & mask)) by (bit_vector);
}

/// `cap` is the least power of two that is at least `size`, and at least one.
pub open spec fn is_rounded_up(size: usize, cap: usize) -> bool {
    &&& 1 <= cap
    &&& size <= cap
    &&& cap - 1 < 0x8000_0000_0000_0000
    &&& is_low_mask((cap - 1) as u64)
    &&& (cap == 1 || cap / 2 < size)
}

/// `cap` is the capacity that a request for `capacity` gets: the least power of
/// two that is at least two and at least `capacity`.
pub open spec fn is_normalized(capacity: usize, cap: usize) -> bool {
    &&& 2 <= cap
    &&& capacity <= cap
    &&& cap - 1 < 0x8000_0000_0000_0000
    &&& is_low_mask((cap - 1) as u64)
    &&& (cap == 2 || cap / 2 < capacity)
}

/// The distance from `pos` to `seq` round the 64-bit counter, taken as a signed
/// number.
pub open spec fn signed_distance(seq: u64, pos: u64) -> int {
    let d = seq.wrapping_sub(pos) as int;
    if d < 0x8000_0000_0000_0000 {
        d
    } else {
        d - 0x1_0000_0000_0000_0000
    }
}

/// The least power of two that is at least `size`: one, for a size of zero.
pub fn round_up_to_power_of_two(size: usize) -> (cap: usize)
    requires
        size <= usize::MAX / 2 + 1,
    ensures
        is_rounded_up(size, cap),
{
    let mut c: usize = 1;
    assert(is_low_mask(0u64)) by (bit_vector);
    while c < size
        invariant
            1 <= c,
            c - 1 < 0x8000_0000_0000_0000,
            is_low_mask((c - 1) as u64),
            c == 1 || c / 2 < size,
            size <= usize::MAX / 2 + 1,
        decreases usize::MAX - c,
    {
        proof {
            let m = (c - 1) as u64;
            let m2 = (2 * c - 1) as u64;
            assert(m < 0x7fff_ffff_ffff_ffff && m & ((m + 1) as u64) == 0 && m2 == 2 * m + 1
                ==> m2 & ((m2 + 1) as u64) == 0 && m2 < 0x8000_0000_0000_0000) by (bit_vector);
        }
        c = c * 2;
    }
    c
}

/// The least power of two that is at least two and at least `capacity`.
pub fn normalize_capacity(capacity: usize) -> (cap: usize)
    requires
        capacity <= usize::MAX / 2 + 1,
    ensures
        is_normalized(capacity, cap),
{
    if capacity < 2 {
        assert(is_low_mask(1u64)) by (bit_vector);
        2
    } else {
        round_up_to_power_of_two(capacity)
    }
}

/// The signed distance from `pos` to `seq`.
pub fn difference(seq: u64, pos: u64) -> (d: i64)
    ensures
        d == signed_distance(seq, pos),
{
    let w = seq.wrapping_sub(pos);
    if w < 0x8000_0000_0000_0000 {
        w as i64
    } else {
        let back = (u64::MAX - w) as i64;
        -back - 1
    }
}

} // verus!
