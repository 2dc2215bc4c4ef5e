//! Full-sort TopK selection, the reference for the heap-based one.

use vstd::prelude::*;

use crate::bits::{position, NEG_ZERO};
use crate::kernels::topk_heap::{
    entry, holds, keeps_best, lemma_rearranged, picked, selects, sort_by_index,
};
use crate::sparsify::TopKScratch;

verus! {

/// The rank of `(index, value)` in the full sort: by number descending (the
/// two zeros are equal numbers), then by index ascending. A NaN ranks by its
/// sign and magnitude.
pub open spec fn sort_rank() -> spec_fn((u32, u32)) -> int {
    |e: (u32, u32)| position(e.1) * 0x1_0000_0000 + (0xffff_ffff - e.0)
}

/// The key by which the full sort ascends: it falls as the rank rises.
pub open spec fn sort_key(e: (u32, u32)) -> int {
    (0x7fff_ffff - position(e.1)) * 0x1_0000_0000 + e.0
}

/// The full sort's key of one pair.
fn descending_key(idx: u32, val: u32) -> (res: u64)
    ensures
        res == sort_key((idx, val)),
{
    let high: u32 = if val >= NEG_ZERO {
        0x7fff_ffff + (val - NEG_ZERO)
    } else {
        0x7fff_ffff - val
    };
    proof {
        assert(((high as u64) << 32u32) | (idx as u64) == high * 0x1_0000_0000 + idx)
            by (bit_vector);
    }
    ((high as u64) << 32u32) | (idx as u64)
}

/// Sort pairs by ascending [`sort_key`].
///
/// Calls `slice::sort_by_key` of the standard library with [`descending_key`]
/// as the key, and claims of it what its documentation says: the slice is
/// rearranged so that the keys ascend.
#[verifier::external_body]
fn sort_descending(v: &mut Vec<(u32, u32)>)
    ensures
        final(v)@.to_multiset() == old(v)@.to_multiset(),
        forall|s: int, t: int|
            0 <= s < t < final(v)@.len() ==> sort_key(#[trigger] final(v)@[s]) <= sort_key(
                #[trigger] final(v)@[t],
            ),
{
    v.sort_by_key(|e| descending_key(e.0, e.1))
}

/// Select the `k` largest entries from `scores` and write them, sorted by
/// index ascending, into `scratch.indexed`. Ties broken by index ascending.
pub fn topk_select(scores: &[u32], k: usize, scratch: &mut TopKScratch)
    requires
        scores@.len() <= 0x1_0000_0000,
    ensures
        selects(sort_rank(), scores@, k as int, final(scratch).indexed@),
{
    let ghost rank = sort_rank();
    let n: usize = scores.len();
    scratch.indexed.clear();
    scratch.indexed.reserve(n);
    let mut i: usize = 0;
    while i < n
        invariant
            i <= n,
            n == scores@.len(),
            n <= 0x1_0000_0000,
            scratch.indexed@.len() == i,
            forall|t: int| 0 <= t < i ==> #[trigger] scratch.indexed@[t] == entry(scores@, t),
        decreases n - i,
    {
        scratch.indexed.push((i as u32, scores[i]));
        i += 1;
    }
    let ghost listed = scratch.indexed@;
    assert(holds(scores@, n as int, listed));
    assert forall|j: int| 0 <= j < n implies picked(listed, j) by {
        assert(listed[j].0 == j);
    }
    sort_descending(&mut scratch.indexed);
    let ghost sorted = scratch.indexed@;
    proof {
        lemma_rearranged(rank, scores@, n as int, listed, sorted);
    }
    if k < n {
        scratch.indexed.truncate(k);
    }
    let ghost cut = scratch.indexed@;
    proof {
        assert forall|t: int, j: int|
            #![trigger cut[t], entry(scores@, j)]
            0 <= t < cut.len() && 0 <= j < n && !picked(cut, j) implies rank(cut[t]) > rank(
            entry(scores@, j),
        ) by {
            assert(picked(listed, j));
            assert(picked(sorted, j));
            let s = choose|s: int| 0 <= s < sorted.len() && (#[trigger] sorted[s]).0 == j;
            if s < cut.len() {
                assert(cut[s].0 == j);
            }
            assert(sorted[s] == entry(scores@, j));
            assert(sort_key(sorted[t]) <= sort_key(sorted[s]));
            assert(sorted[t].0 != sorted[s].0);
        }
        assert(holds(scores@, n as int, cut));
        assert(keeps_best(rank, scores@, n as int, cut));
    }
    sort_by_index(&mut scratch.indexed);
    proof {
        lemma_rearranged(rank, scores@, n as int, cut, scratch.indexed@);
    }
}

} // verus!
