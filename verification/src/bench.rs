//! The workloads by which the map is measured: filling it with the keys below a
//! size, and looking up keys drawn at random from twice that range.

use vstd::prelude::*;
use rand::Rng;
use crate::flatmap::FlatMap;

verus! {

/// `m` binds every key below `size` to itself, and no other key.
pub open spec fn is_filled(m: Map<usize, usize>, size: usize) -> bool {
    forall|k: usize| (#[trigger] m.contains_key(k) <==> k < size) && (k < size ==> m[k] == k)
}

/// `Rng::gen_range` on the thread's generator, with the range `0..bound`.
/// Claimed of it: that the number is below `bound`, which is what a half-open
/// range promises. An empty range makes it panic, so `bound` is not zero.
#[verifier::external_body]
fn random_below(bound: usize) -> (k: usize)
    requires
        0 < bound,
    ensures
        k < bound,
{
    rand::thread_rng().gen_range(0..bound)
}

/// A map that binds every key below `size` to itself. Each of the insertions
/// finds its key unbound.
pub fn filled(size: usize) -> (m: FlatMap<usize, usize>)
    ensures
        m.wf(),
        is_filled(m@, size),
{
    let mut m: FlatMap<usize, usize> = FlatMap::new();
    let mut i: usize = 0;
    while i < size
        invariant
            i <= size,
            m.wf(),
            is_filled(m@, i),
        decreases size - i,
    {
        let fresh = m.insert(i, i);
        assert(fresh);
        i = i + 1;
    }
    m
}

/// A lookup of `k` in `m` ends as it has to in a map filled up to `size`: with a
/// value where `k` is below `size`, without one where it is not.
pub open spec fn ends_as_expected(m: Map<usize, usize>, size: usize, k: usize) -> bool {
    (k < size) == m.contains_key(k)
}

/// In a map filled up to `size` every lookup ends as it has to.
pub proof fn lemma_filled_lookups(m: Map<usize, usize>, size: usize, k: usize)
    requires
        is_filled(m, size),
    ensures
        ends_as_expected(m, size, k),
{
    assert(m.contains_key(k) <==> k < size);
}

/// Whether a lookup of `k` in `m` ends as it has to in a map filled up to
/// `size`: see `ends_as_expected`. In a map that is filled up to `size` it
/// always does.
pub fn lookup_is_as_expected(m: &FlatMap<usize, usize>, size: usize, k: usize) -> (ok: bool)
    requires
        m.wf(),
    ensures
        ok == ends_as_expected(m@, size, k),
{
    if k < size {
        m.find(&k).is_some()
    } else {
        m.find(&k).is_none()
    }
}

/// A key drawn at random from below twice `size`: as likely bound as not in a
/// map filled up to `size`.
pub fn draw_key(size: usize) -> (k: usize)
    requires
        0 < size <= usize::MAX / 2,
    ensures
        k < 2 * size,
{
    random_below(size * 2)
}

/// One round of the lookup workload: whether the lookup of a key drawn by
/// `draw_key` ends as it has to in a map filled up to `size`. In a map that is
/// filled up to `size` it does, whichever key was drawn.
pub fn find_round(m: &FlatMap<usize, usize>, size: usize) -> (ok: bool)
    requires
        m.wf(),
        0 < size <= usize::MAX / 2,
    ensures
        exists|k: usize| k < 2 * size && ok == #[trigger] ends_as_expected(m@, size, k),
        is_filled(m@, size) ==> ok,
{
    let k = draw_key(size);
    proof {
        if is_filled(m@, size) {
            lemma_filled_lookups(m@, size, k);
        }
    }
    lookup_is_as_expected(m, size, k)
}

} // verus!
