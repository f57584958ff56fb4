//! Single-word update primitives in the form the queue algorithms use them,
//! applied to a word that the caller holds by exclusive borrow.

use vstd::prelude::*;

verus! {

/// What a word that held `held` holds after a compare-and-swap from `current`
/// to `new`.
pub open spec fn cas_leaves(held: int, current: int, new: int) -> int {
    if held == current {
        new
    } else {
        held
    }
}

/// Whether a compare-and-swap from `current` took effect on a word that held
/// `held`: it did where it found `current`, which is what it then returns.
pub open spec fn cas_wins(held: int, current: int) -> bool {
    held == current
}

/// Of two compare-and-swaps from the same value, each to another value, that
/// run one after the other on one word, at most one takes effect: the second
/// finds what the first one wrote. Exactly one does where the word held the
/// value that both expect.
pub proof fn law_one_winner(held: int, current: int, first: int, second: int)
    requires
        first != current,
    ensures
        !(cas_wins(held, current) && cas_wins(cas_leaves(held, current, first), current)),
        held == current ==> cas_wins(held, current) && cas_leaves(
            cas_leaves(held, current, first),
            current,
            second,
        ) == first,
        held != current ==> cas_leaves(cas_leaves(held, current, first), current, second) == held,
{
}

/// Writes `new` into `word` where it holds `current`, and returns what it held
/// before: the update took place exactly when the result is `current`.
pub fn compare_and_swap(word: &mut usize, current: usize, new: usize) -> (prev: usize)
    ensures
        prev == *old(word),
        *final(word) == cas_leaves(*old(word) as int, current as int, new as int),
        cas_wins(*old(word) as int, current as int) == (prev == current),
{
    let prev = *word;
    if prev == current {
        *word = new;
    }
    prev
}

/// `compare_and_swap` on a 64-bit counter.
pub fn compare_and_swap_u64(word: &mut u64, current: u64, new: u64) -> (prev: u64)
    ensures
        prev == *old(word),
        *final(word) == cas_leaves(*old(word) as int, current as int, new as int),
        cas_wins(*old(word) as int, current as int) == (prev == current),
{
    let prev = *word;
    if prev == current {
        *word = new;
    }
    prev
}

} // verus!
