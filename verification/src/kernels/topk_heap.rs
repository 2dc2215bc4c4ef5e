//! Heap-based partial-sort TopK selection.

use vstd::prelude::*;
use vstd::seq_lib::group_to_multiset_ensures;

use crate::bits::{NEG_ZERO, ZERO};
use crate::sparsify::TopKScratch;

verus! {

/// The rank of an encoding among all encodings: negative numbers below
/// positive ones, and away from NaN in the order of the numbers. The two zeros
/// are equal numbers and rank alike.
pub open spec fn ordinal(v: u32) -> int {
    if v == NEG_ZERO {
        0x8000_0000
    } else if v > NEG_ZERO {
        0xffff_ffff - v
    } else {
        v + 0x8000_0000
    }
}

/// The ranking key of `(index, value)`: larger for a larger value, and among
/// equal values larger for a smaller index.
pub open spec fn key(e: (u32, u32)) -> int {
    ordinal(e.1) * 0x1_0000_0000 + (0xffff_ffff - e.0)
}

/// The ranking by [`key`].
pub open spec fn heap_rank() -> spec_fn((u32, u32)) -> int {
    |e: (u32, u32)| key(e)
}

/// The pair that stands for position `i` of `scores`.
pub open spec fn entry(scores: Seq<u32>, i: int) -> (u32, u32) {
    (i as u32, scores[i])
}

/// Position `i` is among the selected pairs.
pub open spec fn picked(out: Seq<(u32, u32)>, i: int) -> bool {
    exists|t: int| 0 <= t < out.len() && (#[trigger] out[t]).0 == i
}

/// `out` is the selection of the `k` best positions of `scores` under the
/// ranking `rank` (all positions, if there are fewer than `k`): it lists each
/// selected position once, with its score, by ascending index, and every
/// selected position outranks every other.
pub open spec fn selects(
    rank: spec_fn((u32, u32)) -> int,
    scores: Seq<u32>,
    k: int,
    out: Seq<(u32, u32)>,
) -> bool {
    &&& out.len() == (if k <= scores.len() { k } else { scores.len() as int })
    &&& forall|t: int|
        0 <= t < out.len() ==> (#[trigger] out[t]).0 < scores.len() && out[t].1
            == scores[out[t].0 as int]
    &&& forall|s: int, t: int| 0 <= s < t < out.len() ==> (#[trigger] out[s]).0 < (#[trigger] out[t]).0
    &&& forall|t: int, j: int|
        #![trigger out[t], entry(scores, j)]
        0 <= t < out.len() && 0 <= j < scores.len() && !picked(out, j) ==> rank(out[t]) > rank(
            entry(scores, j),
        )
}

/// Map an encoding to a `u32` whose unsigned ordering matches the order of the
/// numbers (NaN aside). Takes `-0.0` for `0.0`, then flips the sign bit for
/// positives and all bits for negatives.
fn f32_to_ord(v: u32) -> (res: u32)
    ensures
        res == ordinal(v),
{
    let v: u32 = if v == NEG_ZERO {
        ZERO
    } else {
        v
    };
    let sign_mask: u32 = if v >> 31 == 1 { 0xffff_ffff } else { 0 };
    proof {
        assert(v >> 31 == 1 <==> v >= 0x8000_0000) by (bit_vector);
        assert(v >= 0x8000_0000 ==> v ^ (0xffff_ffffu32 | 0x8000_0000) == 0xffff_ffff - v)
            by (bit_vector);
        assert(v < 0x8000_0000 ==> v ^ (0u32 | 0x8000_0000) == v + 0x8000_0000) by (bit_vector);
    }
    v ^ (sign_mask | 0x8000_0000)
}

/// Pack `(index, value)` into a `u64` ranking key. Larger key == higher rank
/// under (value descending, then index ascending).
fn rank_key(idx: u32, val: u32) -> (res: u64)
    ensures
        res == key((idx, val)),
{
    let ord: u32 = f32_to_ord(val);
    let low: u32 = !idx;
    proof {
        assert(!idx == 0xffff_ffff - idx) by (bit_vector);
        assert(((ord as u64) << 32u32) | (low as u64) == ord * 0x1_0000_0000 + low)
            by (bit_vector);
    }
    ((ord as u64) << 32u32) | (low as u64)
}

/// Whether pair `a` ranks below pair `b`.
fn worse(a_idx: u32, a_val: u32, b_idx: u32, b_val: u32) -> (res: bool)
    ensures
        res == (key((a_idx, a_val)) < key((b_idx, b_val))),
{
    rank_key(a_idx, a_val) < rank_key(b_idx, b_val)
}

/// Whether pair `a` ranks above pair `b`.
fn better(a_idx: u32, a_val: u32, b_idx: u32, b_val: u32) -> (res: bool)
    ensures
        res == (key((a_idx, a_val)) > key((b_idx, b_val))),
{
    rank_key(a_idx, a_val) > rank_key(b_idx, b_val)
}

/// No child of node `p` ranks below it.
pub open spec fn node_ok(h: Seq<(u32, u32)>, p: int) -> bool {
    &&& 2 * p + 1 < h.len() ==> key(h[p]) <= key(h[2 * p + 1])
    &&& 2 * p + 2 < h.len() ==> key(h[p]) <= key(h[2 * p + 2])
}

/// Every node from `lo` on has no child that ranks below it.
pub open spec fn heap_from(h: Seq<(u32, u32)>, lo: int) -> bool {
    forall|p: int| lo <= p < h.len() ==> #[trigger] node_ok(h, p)
}

/// The root of a heap ranks no higher than any of its elements.
proof fn lemma_root_is_worst(h: Seq<(u32, u32)>, t: int)
    requires
        heap_from(h, 0),
        0 <= t < h.len(),
    ensures
        key(h[0]) <= key(h[t]),
    decreases t,
{
    if t > 0 {
        let p = (t - 1) / 2;
        lemma_root_is_worst(h, p);
        assert(node_ok(h, p));
        assert(t == 2 * p + 1 || t == 2 * p + 2);
    }
}

/// Exchanging two elements keeps the multiset.
proof fn lemma_swap(h: Seq<(u32, u32)>, i: int, j: int)
    requires
        0 <= i < h.len(),
        0 <= j < h.len(),
    ensures
        h.update(i, h[j]).update(j, h[i]).to_multiset() == h.to_multiset(),
{
    broadcast use group_to_multiset_ensures;

    let h1 = h.update(i, h[j]);
    let h2 = h1.update(j, h[i]);
    vstd::seq_lib::to_multiset_update(h, i, h[j]);
    vstd::seq_lib::to_multiset_update(h1, j, h[i]);
    assert(h.to_multiset().count(h[i]) > 0);
    assert(h2.to_multiset() =~= h.to_multiset());
}

/// Node `p` is in the subtree of node `root`: it is `root` or a descendant.
pub open spec fn in_subtree(root: int, p: int) -> bool
    decreases p,
{
    p == root || (p > root >= 0 && in_subtree(root, (p - 1) / 2))
}

/// Every node of the subtree of `root`, but for `hole`, has no child that ranks
/// below it.
pub open spec fn subtree_ok_but(h: Seq<(u32, u32)>, root: int, hole: int) -> bool {
    forall|p: int|
        0 <= p < h.len() && p != hole && in_subtree(root, p) ==> #[trigger] node_ok(h, p)
}

/// Every node of the subtree of `root` has no child that ranks below it.
pub open spec fn subtree_ok(h: Seq<(u32, u32)>, root: int) -> bool {
    forall|p: int| 0 <= p < h.len() && in_subtree(root, p) ==> #[trigger] node_ok(h, p)
}

/// `g` has the elements of `h` wherever they stand outside the subtree of `root`.
pub open spec fn same_outside(h: Seq<(u32, u32)>, g: Seq<(u32, u32)>, root: int) -> bool {
    forall|p: int| 0 <= p < h.len() && !in_subtree(root, p) ==> #[trigger] g[p] == h[p]
}

/// Every node of the subtree of `start` but `hole` is in order, and the parent of
/// `hole` ranks no higher than its children.
spec fn sifting(h: Seq<(u32, u32)>, start: int, hole: int) -> bool {
    &&& in_subtree(start, hole)
    &&& subtree_ok_but(h, start, hole)
    &&& hole > start ==> {
        let up = (hole - 1) / 2;
        &&& 2 * hole + 1 < h.len() ==> key(h[up]) <= key(h[2 * hole + 1])
        &&& 2 * hole + 2 < h.len() ==> key(h[up]) <= key(h[2 * hole + 2])
    }
}

/// Exchanging `hole` with its worst child `c`, which ranks below it, moves the
/// hole to `c`.
proof fn lemma_sift_step(h: Seq<(u32, u32)>, start: int, hole: int, c: int)
    requires
        0 <= start <= hole,
        sifting(h, start, hole),
        c == 2 * hole + 1 || c == 2 * hole + 2,
        c < h.len(),
        key(h[c]) < key(h[hole]),
        key(h[c]) <= key(h[2 * hole + 1]),
        2 * hole + 2 < h.len() ==> key(h[c]) <= key(h[2 * hole + 2]),
    ensures
        sifting(h.update(hole, h[c]).update(c, h[hole]), start, c),
        h.update(hole, h[c]).update(c, h[hole]).to_multiset() == h.to_multiset(),
        same_outside(h, h.update(hole, h[c]).update(c, h[hole]), start),
{
    let g = h.update(hole, h[c]).update(c, h[hole]);
    lemma_swap(h, hole, c);
    assert((c - 1) / 2 == hole);
    assert(in_subtree(start, c));
    assert(node_ok(h, c));
    assert forall|p: int| 0 <= p < g.len() && p != c && in_subtree(start, p) implies
        #[trigger] node_ok(g, p) by {
        if p != hole {
            assert(node_ok(h, p));
            if 2 * p + 1 == hole || 2 * p + 2 == hole {
                assert(p == (hole - 1) / 2);
            }
        }
    }
}

/// Restore the min-heap invariant in the subtree of `start` by sifting the
/// element there downward. Nothing outside the subtree moves.
///
/// Heap layout: parent at `i`, children at `2i+1` and `2i+2`. The root holds
/// the worst element of the current selection, the one that a new candidate
/// must beat to enter.
fn sift_down(heap: &mut Vec<(u32, u32)>, start: usize)
    requires
        subtree_ok_but(old(heap)@, start as int, start as int),
    ensures
        subtree_ok(final(heap)@, start as int),
        same_outside(old(heap)@, final(heap)@, start as int),
        final(heap)@.to_multiset() == old(heap)@.to_multiset(),
        final(heap)@.len() == old(heap)@.len(),
{
    let n: usize = heap.len();
    let mut i: usize = start;
    while i < n && i <= (n - 1) / 2 && 2 * i + 1 < n
        invariant_except_break
            start <= i,
            sifting(heap@, start as int, i as int),
        invariant
            n == heap@.len(),
            n == old(heap)@.len(),
            heap@.to_multiset() == old(heap)@.to_multiset(),
            same_outside(old(heap)@, heap@, start as int),
        ensures
            subtree_ok(heap@, start as int),
        decreases n - i,
    {
        let l: usize = 2 * i + 1;
        let r: usize = l + 1;
        let p: (u32, u32) = heap[i];
        let mut worst_pos: usize = l;
        let mut w: (u32, u32) = heap[l];
        if r < n {
            let c: (u32, u32) = heap[r];
            if worse(c.0, c.1, w.0, w.1) {
                worst_pos = r;
                w = c;
            }
        }
        if worse(w.0, w.1, p.0, p.1) {
            proof {
                lemma_sift_step(heap@, start as int, i as int, worst_pos as int);
            }
            heap.set(i, w);
            heap.set(worst_pos, p);
            i = worst_pos;
        } else {
            assert(node_ok(heap@, i as int));
            break ;
        }
    }
}

/// Where every node after `root` was in order, and the subtree of `root` alone
/// has been put in order, every node from `root` on is in order.
proof fn lemma_subtree_extends(h: Seq<(u32, u32)>, g: Seq<(u32, u32)>, root: int)
    requires
        0 <= root,
        h.len() == g.len(),
        heap_from(h, root + 1),
        subtree_ok(g, root),
        same_outside(h, g, root),
    ensures
        heap_from(g, root),
{
    assert forall|p: int| root <= p < g.len() implies #[trigger] node_ok(g, p) by {
        if !in_subtree(root, p) {
            assert(node_ok(h, p));
            assert((2 * p + 1 - 1) / 2 == p && (2 * p + 2 - 1) / 2 == p);
            assert(!in_subtree(root, 2 * p + 1));
            assert(!in_subtree(root, 2 * p + 2));
        }
    }
}

/// Bottom-up heapify: turn an arbitrary sequence of pairs into a min-heap.
fn heapify(heap: &mut Vec<(u32, u32)>)
    ensures
        heap_from(final(heap)@, 0),
        final(heap)@.to_multiset() == old(heap)@.to_multiset(),
        final(heap)@.len() == old(heap)@.len(),
{
    let n: usize = heap.len();
    if n <= 1 {
        return ;
    }
    let mut i: usize = n / 2;
    while i > 0
        invariant
            n == heap@.len(),
            n == old(heap)@.len(),
            i <= n / 2,
            heap_from(heap@, i as int),
            heap@.to_multiset() == old(heap)@.to_multiset(),
        decreases i,
    {
        i -= 1;
        let ghost before = heap@;
        sift_down(heap, i);
        proof {
            lemma_subtree_extends(before, heap@, i as int);
        }
    }
}

/// Sort pairs by ascending index.
///
/// Calls `slice::sort_unstable_by_key` of the standard library with the index
/// as the key, and claims of it what its documentation says: the slice is
/// rearranged so that the keys ascend.
#[verifier::external_body]
pub(crate) fn sort_by_index(v: &mut Vec<(u32, u32)>)
    ensures
        final(v)@.to_multiset() == old(v)@.to_multiset(),
        forall|s: int, t: int|
            0 <= s < t < final(v)@.len() ==> (#[trigger] final(v)@[s]).0 <= (#[trigger] final(v)@[t]).0,
{
    v.sort_unstable_by_key(|e| e.0)
}

/// `buf` holds distinct positions of `scores` below `upto`, with their scores.
pub open spec fn holds(scores: Seq<u32>, upto: int, buf: Seq<(u32, u32)>) -> bool {
    &&& forall|t: int|
        0 <= t < buf.len() ==> (#[trigger] buf[t]).0 < upto && buf[t].1 == scores[buf[t].0 as int]
    &&& forall|s: int, t: int|
        0 <= s < buf.len() && 0 <= t < buf.len() && s != t ==> (#[trigger] buf[s]).0
            != (#[trigger] buf[t]).0
}

/// Every position below `upto` that `buf` lacks ranks below all of `buf`.
pub open spec fn keeps_best(
    rank: spec_fn((u32, u32)) -> int,
    scores: Seq<u32>,
    upto: int,
    buf: Seq<(u32, u32)>,
) -> bool {
    forall|t: int, j: int|
        #![trigger buf[t], entry(scores, j)]
        0 <= t < buf.len() && 0 <= j < upto && !picked(buf, j) ==> rank(buf[t]) > rank(
            entry(scores, j),
        )
}

/// `holds` and `keeps_best` do not depend on the order of the elements.
pub proof fn lemma_rearranged(
    rank: spec_fn((u32, u32)) -> int,
    scores: Seq<u32>,
    upto: int,
    a: Seq<(u32, u32)>,
    b: Seq<(u32, u32)>,
)
    requires
        a.to_multiset() == b.to_multiset(),
        holds(scores, upto, a),
    ensures
        a.len() == b.len(),
        holds(scores, upto, b),
        forall|j: int| picked(a, j) == picked(b, j),
        keeps_best(rank, scores, upto, a) ==> keeps_best(rank, scores, upto, b),
{
    broadcast use group_to_multiset_ensures;

    vstd::seq_lib::to_multiset_len(a);
    vstd::seq_lib::to_multiset_len(b);
    assert(a.no_duplicates());
    a.lemma_multiset_has_no_duplicates();
    b.lemma_multiset_has_no_duplicates_conv();
    assert forall|t: int| 0 <= t < b.len() implies a.contains(#[trigger] b[t]) by {
        assert(b.to_multiset().count(b[t]) > 0);
    }
    assert forall|t: int| 0 <= t < a.len() implies b.contains(#[trigger] a[t]) by {
        assert(a.to_multiset().count(a[t]) > 0);
    }
    assert forall|t: int| 0 <= t < b.len() implies (#[trigger] b[t]).0 < upto && b[t].1
        == scores[b[t].0 as int] by {
        let s = choose|s: int| 0 <= s < a.len() && a[s] == b[t];
        assert(a[s].0 < upto);
    }
    assert forall|s: int, t: int| 0 <= s < b.len() && 0 <= t < b.len() && s != t implies (
    #[trigger] b[s]).0 != (#[trigger] b[t]).0 by {
        if b[s].0 == b[t].0 {
            assert(b[s] == b[t]);
        }
    }
    assert forall|j: int| picked(a, j) == picked(b, j) by {
        if picked(a, j) {
            let t = choose|t: int| 0 <= t < a.len() && (#[trigger] a[t]).0 == j;
            let s = choose|s: int| 0 <= s < b.len() && b[s] == a[t];
            assert(b[s].0 == j);
        }
        if picked(b, j) {
            let t = choose|t: int| 0 <= t < b.len() && (#[trigger] b[t]).0 == j;
            let s = choose|s: int| 0 <= s < a.len() && a[s] == b[t];
            assert(a[s].0 == j);
        }
    }
    if keeps_best(rank, scores, upto, a) {
        assert forall|t: int, j: int|
            #![trigger b[t], entry(scores, j)]
            0 <= t < b.len() && 0 <= j < upto && !picked(b, j) implies rank(b[t]) > rank(
            entry(scores, j),
        ) by {
            let s = choose|s: int| 0 <= s < a.len() && a[s] == b[t];
            assert(rank(a[s]) > rank(entry(scores, j)));
        }
    }
}

/// Keys of distinct positions differ.
proof fn lemma_keys_differ(a: (u32, u32), b: (u32, u32))
    requires
        a.0 != b.0,
    ensures
        key(a) != key(b),
{
}

/// One step of the scan: the root gives way to a candidate that beats it.
proof fn lemma_replace_root(scores: Seq<u32>, upto: int, buf: Seq<(u32, u32)>, new: Seq<(u32, u32)>)
    requires
        0 <= upto < scores.len() <= 0x1_0000_0000,
        buf.len() > 0,
        heap_from(buf, 0),
        holds(scores, upto, buf),
        keeps_best(heap_rank(), scores, upto, buf),
        key(entry(scores, upto)) > key(buf[0]),
        new == buf.update(0, entry(scores, upto)),
    ensures
        holds(scores, upto + 1, new),
        keeps_best(heap_rank(), scores, upto + 1, new),
{
    let rank = heap_rank();
    assert forall|t: int, j: int|
        #![trigger new[t], entry(scores, j)]
        0 <= t < new.len() && 0 <= j < upto + 1 && !picked(new, j) implies rank(new[t]) > rank(
        entry(scores, j),
    ) by {
        assert(new[0].0 == upto);
        assert(j != upto);
        lemma_root_is_worst(buf, t);
        if picked(buf, j) {
            let s = choose|s: int| 0 <= s < buf.len() && (#[trigger] buf[s]).0 == j;
            if s > 0 {
                assert(new[s].0 == j);
            }
            assert(buf[0] == entry(scores, j));
            if t > 0 {
                assert(new[t] == buf[t]);
                lemma_keys_differ(buf[0], buf[t]);
            }
        } else {
            assert(rank(buf[0]) > rank(entry(scores, j)));
        }
    }
}

/// One step of the scan: the root stands against a candidate.
proof fn lemma_keep_root(scores: Seq<u32>, upto: int, buf: Seq<(u32, u32)>)
    requires
        0 <= upto < scores.len() <= 0x1_0000_0000,
        buf.len() > 0,
        heap_from(buf, 0),
        holds(scores, upto, buf),
        keeps_best(heap_rank(), scores, upto, buf),
        key(entry(scores, upto)) <= key(buf[0]),
    ensures
        holds(scores, upto + 1, buf),
        keeps_best(heap_rank(), scores, upto + 1, buf),
{
    let rank = heap_rank();
    assert forall|t: int, j: int|
        #![trigger buf[t], entry(scores, j)]
        0 <= t < buf.len() && 0 <= j < upto + 1 && !picked(buf, j) implies rank(buf[t]) > rank(
        entry(scores, j),
    ) by {
        if j == upto {
            lemma_root_is_worst(buf, t);
            lemma_keys_differ(entry(scores, j), buf[t]);
        }
    }
}

/// Select the `k` largest entries from `scores`, write them sorted by index
/// ascending into `scratch.indexed`. Ties broken by index ascending.
///
/// A k-element min-heap partial sort: O(n log k) comparisons of ranking keys.
pub fn topk_select(scores: &[u32], k: usize, scratch: &mut TopKScratch)
    requires
        scores@.len() <= 0x1_0000_0000,
    ensures
        selects(heap_rank(), scores@, k as int, final(scratch).indexed@),
{
    let ghost rank = heap_rank();
    let n: usize = scores.len();
    let k: usize = if k < n {
        k
    } else {
        n
    };
    scratch.indexed.clear();
    scratch.indexed.reserve(k);

    // Seed the heap with the first k entries in input order.
    let mut i: usize = 0;
    while i < k
        invariant
            i <= k <= n,
            n == scores@.len(),
            n <= 0x1_0000_0000,
            scratch.indexed@.len() == i,
            forall|t: int| 0 <= t < i ==> #[trigger] scratch.indexed@[t] == entry(scores@, t),
        decreases k - i,
    {
        scratch.indexed.push((i as u32, scores[i]));
        i += 1;
    }

    assert(holds(scores@, k as int, scratch.indexed@));
    assert(keeps_best(rank, scores@, k as int, scratch.indexed@)) by {
        assert forall|j: int| 0 <= j < k implies picked(scratch.indexed@, j) by {
            assert(scratch.indexed@[j].0 == j);
        }
    }

    // Heapify, then scan the rest replacing the root when beaten.
    if 0 < k && k < n {
        let ghost seeded = scratch.indexed@;
        heapify(&mut scratch.indexed);
        proof {
            lemma_rearranged(rank, scores@, k as int, seeded, scratch.indexed@);
        }
        let mut c: usize = k;
        while c < n
            invariant
                0 < k <= c <= n,
                n == scores@.len(),
                n <= 0x1_0000_0000,
                scratch.indexed@.len() == k,
                heap_from(scratch.indexed@, 0),
                holds(scores@, c as int, scratch.indexed@),
                keeps_best(rank, scores@, c as int, scratch.indexed@),
                rank == heap_rank(),
            decreases n - c,
        {
            let v: u32 = scores[c];
            let root: (u32, u32) = scratch.indexed[0];
            assert(entry(scores@, c as int) == (c as u32, v));
            if better(c as u32, v, root.0, root.1) {
                let ghost before = scratch.indexed@;
                scratch.indexed.set(0, (c as u32, v));
                let ghost replaced = scratch.indexed@;
                proof {
                    lemma_replace_root(scores@, c as int, before, replaced);
                    assert forall|p: int| 1 <= p < replaced.len() implies #[trigger] node_ok(
                        replaced,
                        p,
                    ) by {
                        assert(node_ok(before, p));
                    }
                }
                sift_down(&mut scratch.indexed, 0);
                proof {
                    lemma_subtree_extends(replaced, scratch.indexed@, 0);
                    lemma_rearranged(rank, scores@, c + 1, replaced, scratch.indexed@);
                }
            } else {
                proof {
                    lemma_keep_root(scores@, c as int, scratch.indexed@);
                }
            }
            c += 1;
        }
    }

    // Sort the selection by index ascending.
    let ghost unsorted = scratch.indexed@;
    assert(holds(scores@, n as int, unsorted));
    assert(keeps_best(rank, scores@, n as int, unsorted));
    sort_by_index(&mut scratch.indexed);
    proof {
        lemma_rearranged(rank, scores@, n as int, unsorted, scratch.indexed@);
    }
}

} // verus!
