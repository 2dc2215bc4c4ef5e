//! TopK selection entry point: the choice between the heap-based partial sort
//! and the full sort, and what the two have in common.

use vstd::prelude::*;
use vstd::seq_lib::group_to_multiset_ensures;

use crate::kernels::scalar::{self, sort_rank};
use crate::kernels::topk_heap::{self, entry, heap_rank, picked, selects};
use crate::sparsify::TopKScratch;
use crate::text::same;

verus! {

/// A TopK implementation.
#[derive(Debug, Clone, Copy, PartialEq, Eq, Structural)]
pub enum TopkFn {
    /// The heap-based partial sort.
    Heap,
    /// The full sort.
    Legacy,
}

/// The ranking by which an implementation selects.
pub open spec fn ranking(choice: TopkFn) -> spec_fn((u32, u32)) -> int {
    match choice {
        TopkFn::Heap => heap_rank(),
        TopkFn::Legacy => sort_rank(),
    }
}

/// The implementation that a setting asks for: `legacy` forces the full sort,
/// anything else (or no setting) leaves the heap.
pub open spec fn choice_of(setting: Option<&str>) -> TopkFn {
    if setting matches Some(s) && s@ == "legacy"@ {
        TopkFn::Legacy
    } else {
        TopkFn::Heap
    }
}

/// Resolve the TopK implementation from the value of the `SAEITOSHI_TOPK`
/// setting, where there is one.
pub fn dispatch(setting: Option<&str>) -> (res: TopkFn)
    ensures
        res == choice_of(setting),
        res is Legacy <==> (setting matches Some(s) && s@ == "legacy"@),
{
    match setting {
        Some(s) => if same(s, "legacy") {
            TopkFn::Legacy
        } else {
            TopkFn::Heap
        },
        None => TopkFn::Heap,
    }
}

/// Name of the TopK backend that a setting resolves to ("heap" or "legacy").
pub fn backend_name(setting: Option<&str>) -> (res: &'static str)
    ensures
        res@ == (match choice_of(setting) {
            TopkFn::Heap => "heap"@,
            TopkFn::Legacy => "legacy"@,
        }),
{
    match dispatch(setting) {
        TopkFn::Heap => "heap",
        TopkFn::Legacy => "legacy",
    }
}

/// Select the `k` largest entries from `scores` and write them into
/// `scratch.indexed`, sorted by index ascending. Tie-broken by index
/// ascending.
pub fn select_into(choice: TopkFn, scores: &[u32], k: usize, scratch: &mut TopKScratch)
    requires
        scores@.len() <= 0x1_0000_0000,
    ensures
        selects(ranking(choice), scores@, k as int, final(scratch).indexed@),
{
    match choice {
        TopkFn::Heap => topk_heap::topk_select(scores, k, scratch),
        TopkFn::Legacy => scalar::topk_select(scores, k, scratch),
    }
}

/// The positions that a selection lists.
spec fn positions(out: Seq<(u32, u32)>) -> Seq<int> {
    out.map_values(|e: (u32, u32)| e.0 as int)
}

/// Two selections of the same scores that list the same positions are equal.
proof fn lemma_same_positions(
    scores: Seq<u32>,
    ra: spec_fn((u32, u32)) -> int,
    rb: spec_fn((u32, u32)) -> int,
    k: int,
    a: Seq<(u32, u32)>,
    b: Seq<(u32, u32)>,
)
    requires
        selects(ra, scores, k, a),
        selects(rb, scores, k, b),
        forall|j: int| picked(a, j) ==> picked(b, j),
    ensures
        a == b,
{
    broadcast use group_to_multiset_ensures;

    let pa = positions(a);
    let pb = positions(b);
    let leq = |x: int, y: int| x <= y;
    assert(pa.no_duplicates());
    assert(pb.no_duplicates());
    pa.unique_seq_to_set();
    pb.unique_seq_to_set();
    assert forall|x: int| pa.to_set().contains(x) implies pb.to_set().contains(x) by {
        let t = choose|t: int| 0 <= t < pa.len() && pa[t] == x;
        assert(a[t].0 == x);
        assert(picked(a, x));
        let s = choose|s: int| 0 <= s < b.len() && (#[trigger] b[s]).0 == x;
        assert(pb[s] == x);
    }
    vstd::set_lib::lemma_subset_equality(pa.to_set(), pb.to_set());
    pa.lemma_multiset_has_no_duplicates();
    pb.lemma_multiset_has_no_duplicates();
    assert forall|x: int| pa.to_multiset().count(x) == pb.to_multiset().count(x) by {
        assert(pa.contains(x) <==> pa.to_set().contains(x));
        assert(pb.contains(x) <==> pb.to_set().contains(x));
    }
    assert(pa.to_multiset() =~= pb.to_multiset());
    vstd::seq_lib::lemma_sorted_unique(pa, pb, leq);
    assert forall|t: int| 0 <= t < a.len() implies a[t] == b[t] by {
        assert(pa[t] == pb[t]);
        assert(a[t].0 == b[t].0);
    }
    assert(a =~= b);
}

/// A selection is determined by the ranking, the scores and `k`.
pub proof fn selection_is_unique(
    rank: spec_fn((u32, u32)) -> int,
    scores: Seq<u32>,
    k: int,
    a: Seq<(u32, u32)>,
    b: Seq<(u32, u32)>,
)
    requires
        scores.len() <= 0x1_0000_0000,
        selects(rank, scores, k, a),
        selects(rank, scores, k, b),
    ensures
        a == b,
{
    broadcast use group_to_multiset_ensures;

    if exists|j: int| picked(a, j) && !picked(b, j) {
        let j = choose|j: int| picked(a, j) && !picked(b, j);
        let s = choose|s: int| 0 <= s < a.len() && (#[trigger] a[s]).0 == j;
        assert(a[s] == entry(scores, j));
        if forall|i: int| picked(b, i) ==> picked(a, i) {
            lemma_same_positions(scores, rank, rank, k, b, a);
        } else {
            let i = choose|i: int| picked(b, i) && !picked(a, i);
            let t = choose|t: int| 0 <= t < b.len() && (#[trigger] b[t]).0 == i;
            assert(b[t] == entry(scores, i));
            assert(rank(b[t]) > rank(entry(scores, j)));
            assert(rank(a[s]) > rank(entry(scores, i)));
        }
    } else {
        lemma_same_positions(scores, rank, rank, k, a, b);
    }
}

/// The two implementations rank any two pairs alike.
proof fn lemma_same_ranking(a: (u32, u32), b: (u32, u32))
    ensures
        heap_rank()(a) > heap_rank()(b) <==> sort_rank()(a) > sort_rank()(b),
{
}

/// What one implementation may select, every other may.
pub proof fn implementations_select_alike(
    one: TopkFn,
    other: TopkFn,
    scores: Seq<u32>,
    k: int,
    out: Seq<(u32, u32)>,
)
    requires
        selects(ranking(one), scores, k, out),
    ensures
        selects(ranking(other), scores, k, out),
{
    assert forall|t: int, j: int|
        #![trigger out[t], entry(scores, j)]
        0 <= t < out.len() && 0 <= j < scores.len() && !picked(out, j) implies ranking(other)(
        out[t],
    ) > ranking(other)(entry(scores, j)) by {
        assert(ranking(one)(out[t]) > ranking(one)(entry(scores, j)));
        lemma_same_ranking(out[t], entry(scores, j));
    }
}

/// The heap-based selection and the full sort give the same output.
pub proof fn heap_agrees_with_full_sort(
    scores: Seq<u32>,
    k: int,
    heap: Seq<(u32, u32)>,
    full: Seq<(u32, u32)>,
)
    requires
        scores.len() <= 0x1_0000_0000,
        selects(heap_rank(), scores, k, heap),
        selects(sort_rank(), scores, k, full),
    ensures
        heap == full,
{
    implementations_select_alike(TopkFn::Legacy, TopkFn::Heap, scores, k, full);
    selection_is_unique(heap_rank(), scores, k, heap, full);
}

/// Position `t` of an ascending list without repetition is at least `t`.
proof fn lemma_ascending_floor(out: Seq<(u32, u32)>, t: int)
    requires
        forall|s: int, t: int|
            0 <= s < t < out.len() ==> (#[trigger] out[s]).0 < (#[trigger] out[t]).0,
        0 <= t < out.len(),
    ensures
        out[t].0 >= t,
    decreases t,
{
    if t > 0 {
        lemma_ascending_floor(out, t - 1);
        assert(out[t - 1].0 < out[t].0);
    }
}

/// An ascending list of positions below `n` leaves room above position `t`.
proof fn lemma_ascending_ceiling(out: Seq<(u32, u32)>, n: int, t: int)
    requires
        forall|s: int, t: int|
            0 <= s < t < out.len() ==> (#[trigger] out[s]).0 < (#[trigger] out[t]).0,
        forall|t: int| 0 <= t < out.len() ==> (#[trigger] out[t]).0 < n,
        0 <= t < out.len(),
    ensures
        out[t].0 <= n - out.len() + t,
    decreases out.len() - t,
{
    if t < out.len() - 1 {
        lemma_ascending_ceiling(out, n, t + 1);
        assert(out[t].0 < out[t + 1].0);
    }
}

/// Selecting as many as there are lists everything, in index order. Selecting
/// none lists nothing.
pub proof fn selecting_all_lists_everything(
    rank: spec_fn((u32, u32)) -> int,
    scores: Seq<u32>,
    k: int,
    out: Seq<(u32, u32)>,
)
    requires
        scores.len() <= 0x1_0000_0000,
        selects(rank, scores, k, out),
    ensures
        k >= scores.len() ==> out == Seq::new(scores.len(), |i: int| entry(scores, i)),
        k == 0 ==> out == Seq::<(u32, u32)>::empty(),
{
    if k >= scores.len() {
        let want = Seq::new(scores.len(), |i: int| entry(scores, i));
        assert forall|t: int| 0 <= t < out.len() implies out[t] == want[t] by {
            lemma_ascending_floor(out, t);
            lemma_ascending_ceiling(out, scores.len() as int, t);
            assert(out[t].0 == t);
        }
        assert(out =~= want);
    }
    if k == 0 {
        assert(out =~= Seq::<(u32, u32)>::empty());
    }
}

} // verus!
