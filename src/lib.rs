//! Selection of the `k` highest-scoring hits of a stream, without sorting the
//! whole stream.
//!
//! Two reusable selectors implement [`TopK`]: [`HeapTopK`] keeps a bounded
//! min-heap of the best hits seen so far, [`MedianTopK`] appends to a buffer
//! of twice the retention count and periodically partitions it around the
//! k-th best score. The functions [`simplified_heap_top_k`] and
//! [`simplified_median_top_k`] are single-shot versions of the same strategies
//! that also sort their result by descending score.
//!
//! Short input: when the stream holds fewer than `k` hits, every selector
//! returns all of them (it shrinks the result; it never pads and never fails).
//! Ties: hits with equal scores are interchangeable; which of them is kept is
//! unspecified.
use vstd::prelude::*;
use vstd::multiset::Multiset;

mod heap;
mod select;
mod selectors;
mod laws;

pub use selectors::{simplified_heap_top_k, simplified_median_top_k, HeapTopK, MedianTopK};
pub use laws::{
    lemma_retention_covers_stream, lemma_sorted_selections_agree, lemma_top_k_order_independent,
    lemma_top_k_rearranged, lemma_top_one_is_maximum,
};

verus! {

/// Relevance score of a hit; higher is better.
pub type Score = u64;

/// Identifier of the document a hit refers to.
pub type DocId = u32;

/// A scored reference to a document. Two hits are equal when both fields
/// are; "better" compares scores only.
#[derive(Clone, Copy, Debug, PartialEq, Eq, Structural)]
pub struct Hit {
    pub score: Score,
    pub doc: DocId,
}

/// The smaller of two counts.
pub open spec fn min_len(a: nat, b: nat) -> nat {
    if a <= b { a } else { b }
}

/// The hits of `input` that `out` leaves out, counted with multiplicity.
pub open spec fn excluded(input: Seq<Hit>, out: Seq<Hit>) -> Multiset<Hit> {
    input.to_multiset().sub(out.to_multiset())
}

/// `out` is a selection of the `k` best hits of `input`: it holds
/// `min(k, |input|)` of the input's hits, and no hit left out scores higher
/// than any hit kept. Which of several equally scored hits is kept is open.
pub open spec fn is_top_k(input: Seq<Hit>, out: Seq<Hit>, k: nat) -> bool {
    &&& out.len() == min_len(k, input.len())
    &&& out.to_multiset().subset_of(input.to_multiset())
    &&& forall|h: Hit, j: int|
        #![trigger excluded(input, out).count(h), out[j]]
        excluded(input, out).count(h) > 0 && 0 <= j < out.len() ==> h.score <= out[j].score
}

/// Scores never increase along `s`.
pub open spec fn sorted_by_score_desc(s: Seq<Hit>) -> bool {
    forall|i: int, j: int| 0 <= i < j < s.len() ==> s[i].score >= s[j].score
}

/// A selector that keeps the `k` best hits of each stream it is given,
/// reusing its own storage from one call to the next.
pub trait TopK: Sized {
    /// The retention count `k` the selector was built with.
    spec fn retained(&self) -> nat;

    /// The selector's internal state is consistent.
    spec fn wf(&self) -> bool;

    /// A selector that retains `k` hits per call.
    fn new(k: usize) -> (r: Self)
        requires
            1 <= k <= usize::MAX / 2,
        ensures
            r.wf(),
            r.retained() == k,
    ;

    /// Replaces `output` with the best `min(k, hits.len())` hits of `hits`,
    /// in no particular order. The result depends on `hits` alone, never on
    /// an earlier call.
    fn top_k(&mut self, hits: &[Hit], output: &mut Vec<Hit>)
        requires
            old(self).wf(),
        ensures
            final(self).wf(),
            final(self).retained() == old(self).retained(),
            is_top_k(hits@, final(output)@, old(self).retained()),
    ;
}

} // verus!
