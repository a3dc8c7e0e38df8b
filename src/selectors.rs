//! The two selection strategies, as reusable selectors and as single-shot
//! functions with a sorted result.
use vstd::prelude::*;
use vstd::multiset::Multiset;
use crate::heap::{heapify, is_min_heap, lemma_root_is_min, replace_root};
use crate::select::{select_nth_by_score, sort_by_score_desc};
use crate::laws::{lemma_split_counts, lemma_top_k_rearranged};
use crate::{excluded, is_top_k, min_len, sorted_by_score_desc, Hit, TopK};

verus! {

broadcast use vstd::seq_lib::group_to_multiset_ensures, vstd::multiset::group_multiset_axioms;

/// A lower bound on every score of `a` holds of every score of a
/// rearrangement of `a`.
proof fn lemma_lower_bound_kept(a: Seq<Hit>, b: Seq<Hit>, bound: int)
    requires
        a.to_multiset() == b.to_multiset(),
        forall|t: int| 0 <= t < a.len() ==> a[t].score >= bound,
    ensures
        forall|t: int| 0 <= t < b.len() ==> b[t].score >= bound,
{
    assert forall|t: int| 0 <= t < b.len() implies b[t].score >= bound by {
        assert(b.to_multiset().count(b[t]) > 0);
        assert(a.contains(b[t]));
        let s = choose|s: int| 0 <= s < a.len() && a[s] == b[t];
    }
}

/// An upper bound on every score of `s` holds of every hit it counts.
proof fn lemma_upper_bound_counted(s: Seq<Hit>, bound: int)
    requires
        forall|t: int| 0 <= t < s.len() ==> s[t].score <= bound,
    ensures
        forall|h: Hit| s.to_multiset().count(h) > 0 ==> h.score <= bound,
{
    assert forall|h: Hit| s.to_multiset().count(h) > 0 implies h.score <= bound by {
        assert(s.to_multiset().count(h) > 0);
        assert(s.contains(h));
        let t = choose|t: int| 0 <= t < s.len() && s[t] == h;
    }
}

/// `out` together with `dropped` makes up `input`, and nothing dropped
/// scores more than anything kept: `out` is a top-k selection.
proof fn lemma_top_k_from_split(input: Seq<Hit>, out: Seq<Hit>, dropped: Multiset<Hit>, k: nat)
    requires
        out.to_multiset().add(dropped) == input.to_multiset(),
        out.len() == min_len(k, input.len()),
        forall|h: Hit, j: int|
            #![trigger dropped.count(h), out[j]]
            dropped.count(h) > 0 && 0 <= j < out.len() ==> h.score <= out[j].score,
    ensures
        is_top_k(input, out, k),
{
    assert(excluded(input, out) =~= dropped);
}

/// Replaces `heap` with the best `min(k, hits.len())` hits of `hits`, kept
/// in a bounded min-heap whose root is the weakest hit retained so far.
fn select_with_heap(heap: &mut Vec<Hit>, hits: &[Hit], k: usize)
    requires
        k >= 1,
    ensures
        is_top_k(hits@, final(heap)@, k as nat),
{
    let n = hits.len();
    heap.clear();
    let mut i: usize = 0;
    while i < n && i < k
        invariant
            n == hits@.len(),
            i <= n,
            i <= k,
            heap@ == hits@.subrange(0, i as int),
        decreases n - i,
    {
        heap.push(hits[i]);
        i = i + 1;
        assert(heap@ =~= hits@.subrange(0, i as int));
    }
    heapify(heap);
    let ghost mut dropped = Multiset::<Hit>::empty();
    assert(heap@.to_multiset().add(dropped) =~= hits@.subrange(0, i as int).to_multiset());
    while i < n
        invariant
            n == hits@.len(),
            k >= 1,
            i <= n,
            heap@.len() == min_len(k as nat, n as nat),
            is_min_heap(heap@),
            heap@.to_multiset().add(dropped) == hits@.subrange(0, i as int).to_multiset(),
            forall|h: Hit| dropped.count(h) > 0 ==> h.score <= heap@[0].score,
        decreases n - i,
    {
        let hit = hits[i];
        let threshold = heap[0].score;
        assert(hits@.subrange(0, i + 1) =~= hits@.subrange(0, i as int).push(hit));
        if hit.score > threshold {
            let ghost before = heap@;
            replace_root(heap, hit);
            proof {
                let with_hit = before.update(0, hit);
                assert forall|t: int| 0 <= t < with_hit.len() implies with_hit[t].score
                    >= before[0].score by {
                    if t > 0 {
                        lemma_root_is_min(before, t);
                    }
                }
                assert(with_hit.to_multiset() =~= heap@.to_multiset());
                lemma_lower_bound_kept(with_hit, heap@, before[0].score as int);
                dropped = dropped.insert(before[0]);
                assert(heap@.to_multiset().add(dropped) =~= hits@.subrange(
                    0,
                    i + 1,
                ).to_multiset());
            }
        } else {
            proof {
                dropped = dropped.insert(hit);
                assert(heap@.to_multiset().add(dropped) =~= hits@.subrange(
                    0,
                    i + 1,
                ).to_multiset());
            }
        }
        i = i + 1;
    }
    proof {
        assert(hits@.subrange(0, n as int) =~= hits@);
        assert forall|h: Hit, j: int|
            #![trigger dropped.count(h), heap@[j]]
            dropped.count(h) > 0 && 0 <= j < heap@.len() implies h.score <= heap@[j].score by {
            lemma_root_is_min(heap@, j);
        }
        lemma_top_k_from_split(hits@, heap@, dropped, k as nat);
    }
}

/// Replaces `buf` with the best `min(k, hits.len())` hits of `hits`. Hits
/// that beat the running threshold are appended to `buf`; whenever it holds
/// `2k` of them, it is partitioned around its k-th best score, which becomes
/// the new threshold, and cut back to its `k` best.
fn select_with_buffer(buf: &mut Vec<Hit>, hits: &[Hit], k: usize)
    requires
        1 <= k <= usize::MAX / 2,
    ensures
        is_top_k(hits@, final(buf)@, k as nat),
{
    let n = hits.len();
    let cap = 2 * k;
    buf.clear();
    let mut i: usize = 0;
    while i < n && i < k
        invariant
            n == hits@.len(),
            i <= n,
            i <= k,
            buf@ == hits@.subrange(0, i as int),
        decreases n - i,
    {
        buf.push(hits[i]);
        i = i + 1;
        assert(buf@ =~= hits@.subrange(0, i as int));
    }
    let mut threshold: u64 = 0;
    let ghost mut dropped = Multiset::<Hit>::empty();
    assert(buf@.to_multiset().add(dropped) =~= hits@.subrange(0, i as int).to_multiset());
    while i < n
        invariant
            n == hits@.len(),
            1 <= k <= usize::MAX / 2,
            cap == 2 * k,
            i <= n,
            min_len(k as nat, n as nat) <= buf@.len() < cap,
            buf@.len() <= i,
            buf@.to_multiset().add(dropped) == hits@.subrange(0, i as int).to_multiset(),
            forall|h: Hit| dropped.count(h) > 0 ==> h.score <= threshold,
            forall|t: int| 0 <= t < buf@.len() ==> buf@[t].score >= threshold,
        decreases n - i,
    {
        let hit = hits[i];
        assert(hits@.subrange(0, i + 1) =~= hits@.subrange(0, i as int).push(hit));
        if hit.score > threshold {
            buf.push(hit);
            proof {
                assert(buf@.to_multiset().add(dropped) =~= hits@.subrange(
                    0,
                    i + 1,
                ).to_multiset());
            }
            if buf.len() == cap {
                let ghost before = buf@;
                select_nth_by_score(buf, k - 1);
                proof {
                    lemma_lower_bound_kept(before, buf@, threshold as int);
                }
                threshold = buf[k - 1].score;
                proof {
                    let kept = buf@.subrange(0, k as int);
                    let rest = buf@.subrange(k as int, cap as int);
                    lemma_split_counts(buf@, k as int);
                    lemma_upper_bound_counted(rest, threshold as int);
                    dropped = dropped.add(rest.to_multiset());
                }
                buf.truncate(k);
                proof {
                    assert(buf@.to_multiset().add(dropped) =~= hits@.subrange(
                        0,
                        i + 1,
                    ).to_multiset());
                }
            }
        } else {
            proof {
                dropped = dropped.insert(hit);
                assert(buf@.to_multiset().add(dropped) =~= hits@.subrange(
                    0,
                    i + 1,
                ).to_multiset());
            }
        }
        i = i + 1;
    }
    assert(hits@.subrange(0, n as int) =~= hits@);
    let len = buf.len();
    if len > k {
        let ghost before = buf@;
        select_nth_by_score(buf, k - 1);
        proof {
            lemma_lower_bound_kept(before, buf@, threshold as int);
            let rest = buf@.subrange(k as int, len as int);
            lemma_split_counts(buf@, k as int);
            lemma_upper_bound_counted(rest, buf@[k - 1].score as int);
            assert forall|h: Hit, j: int|
                #![trigger dropped.count(h), buf@[j]]
                dropped.count(h) > 0 && 0 <= j < k implies h.score <= buf@[j].score by {}
            dropped = dropped.add(rest.to_multiset());
        }
        buf.truncate(k);
        proof {
            assert(buf@.to_multiset().add(dropped) =~= hits@.to_multiset());
        }
    }
    proof {
        lemma_top_k_from_split(hits@, buf@, dropped, k as nat);
    }
}

/// Replaces `output` with the hits of `src`, in order.
fn copy_into(src: &Vec<Hit>, output: &mut Vec<Hit>)
    ensures
        final(output)@ == src@,
{
    output.clear();
    output.reserve(src.len());
    let mut i: usize = 0;
    while i < src.len()
        invariant
            i <= src@.len(),
            output@ == src@.subrange(0, i as int),
        decreases src@.len() - i,
    {
        output.push(src[i]);
        i = i + 1;
        assert(output@ =~= src@.subrange(0, i as int));
    }
    assert(output@ =~= src@);
}

/// Top-k selector backed by a bounded min-heap of the best hits seen so far.
/// Each hit that beats the weakest retained one replaces it.
pub struct HeapTopK {
    top_k: Vec<Hit>,
    k: usize,
}

impl TopK for HeapTopK {
    closed spec fn retained(&self) -> nat {
        self.k as nat
    }

    closed spec fn wf(&self) -> bool {
        self.k >= 1
    }

    fn new(k: usize) -> (r: Self) {
        HeapTopK { top_k: Vec::with_capacity(k), k }
    }

    fn top_k(&mut self, hits: &[Hit], output: &mut Vec<Hit>) {
        select_with_heap(&mut self.top_k, hits, self.k);
        copy_into(&self.top_k, output);
    }
}

/// Top-k selector backed by a buffer of `2k` slots: hits that beat the
/// current threshold are appended, and a full buffer is partitioned around
/// its k-th best score, which becomes the new threshold.
pub struct MedianTopK {
    top_k: Vec<Hit>,
    k: usize,
}

impl TopK for MedianTopK {
    closed spec fn retained(&self) -> nat {
        self.k as nat
    }

    closed spec fn wf(&self) -> bool {
        1 <= self.k <= usize::MAX / 2
    }

    fn new(k: usize) -> (r: Self) {
        MedianTopK { top_k: Vec::with_capacity(2 * k), k }
    }

    fn top_k(&mut self, hits: &[Hit], output: &mut Vec<Hit>) {
        select_with_buffer(&mut self.top_k, hits, self.k);
        copy_into(&self.top_k, output);
    }
}

/// The best `min(k, hits.len())` hits of `hits` by the bounded-heap
/// strategy, sorted by descending score.
pub fn simplified_heap_top_k(hits: &[Hit], k: usize) -> (r: Vec<Hit>)
    requires
        k >= 1,
    ensures
        is_top_k(hits@, r@, k as nat),
        sorted_by_score_desc(r@),
{
    let mut top_k: Vec<Hit> = Vec::with_capacity(k);
    select_with_heap(&mut top_k, hits, k);
    let ghost selected = top_k@;
    sort_by_score_desc(&mut top_k);
    proof {
        lemma_top_k_rearranged(hits@, selected, top_k@, k as nat);
    }
    top_k
}

/// The best `min(k, hits.len())` hits of `hits` by the buffered quickselect
/// strategy, sorted by descending score.
pub fn simplified_median_top_k(hits: &[Hit], k: usize) -> (r: Vec<Hit>)
    requires
        1 <= k <= usize::MAX / 2,
    ensures
        is_top_k(hits@, r@, k as nat),
        sorted_by_score_desc(r@),
{
    let mut top_k: Vec<Hit> = Vec::with_capacity(2 * k);
    select_with_buffer(&mut top_k, hits, k);
    let ghost selected = top_k@;
    sort_by_score_desc(&mut top_k);
    proof {
        lemma_top_k_rearranged(hits@, selected, top_k@, k as nat);
    }
    top_k
}

} // verus!
